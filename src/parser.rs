use vstd::prelude::*;
use crate::expression::Expression;
use crate::token::Token;

verus! {

/// `l + r` for a `Plus` operator, `l - r` otherwise.
pub open spec fn sum_node(op: Token, l: Expression, r: Expression) -> Expression {
    if op == Token::Plus {
        Expression::Addition(Box::new(l), Box::new(r))
    } else {
        Expression::Subtraction(Box::new(l), Box::new(r))
    }
}

/// `l * r` for an `Asterisk` operator, `l / r` otherwise.
pub open spec fn product_node(op: Token, l: Expression, r: Expression) -> Expression {
    if op == Token::Asterisk {
        Expression::Multiplication(Box::new(l), Box::new(r))
    } else {
        Expression::Division(Box::new(l), Box::new(r))
    }
}

/// `expression := term (('+' | '-') term)*`, read from `t[pos]` on: the tree
/// and the position after it, or `None` where no expression stands there.
pub open spec fn parse_sum(t: Seq<Token>, pos: int) -> Option<(Expression, int)>
    decreases t.len() - pos, 3int,
{
    match parse_product(t, pos) {
        Some((left, p)) => if pos < p <= t.len() {
            sum_rest(t, left, p)
        } else {
            None
        },
        None => None,
    }
}

/// The `('+' | '-') term` repetitions that follow the tree `left`, grouped
/// to the left.
pub open spec fn sum_rest(t: Seq<Token>, left: Expression, pos: int) -> Option<(Expression, int)>
    decreases t.len() - pos, 2int,
{
    if 0 <= pos < t.len() && (t[pos] == Token::Plus || t[pos] == Token::Minus) {
        match parse_product(t, pos + 1) {
            Some((right, p)) => if pos < p <= t.len() {
                sum_rest(t, sum_node(t[pos], left, right), p)
            } else {
                None
            },
            None => None,
        }
    } else {
        Some((left, pos))
    }
}

/// `term := factor (('*' | '/') factor)*`, read from `t[pos]` on.
pub open spec fn parse_product(t: Seq<Token>, pos: int) -> Option<(Expression, int)>
    decreases t.len() - pos, 2int,
{
    match parse_factor(t, pos) {
        Some((left, p)) => if pos < p <= t.len() {
            product_rest(t, left, p)
        } else {
            None
        },
        None => None,
    }
}

/// The `('*' | '/') factor` repetitions that follow the tree `left`, grouped
/// to the left.
pub open spec fn product_rest(t: Seq<Token>, left: Expression, pos: int) -> Option<(Expression, int)>
    decreases t.len() - pos, 1int,
{
    if 0 <= pos < t.len() && (t[pos] == Token::Asterisk || t[pos] == Token::Slash) {
        match parse_factor(t, pos + 1) {
            Some((right, p)) => if pos < p <= t.len() {
                product_rest(t, product_node(t[pos], left, right), p)
            } else {
                None
            },
            None => None,
        }
    } else {
        Some((left, pos))
    }
}

/// `factor := Variable | Constant | Variable Constant | Constant Variable
/// | '(' expression ')'`, read from `t[pos]` on. A variable next to a
/// constant is their product, in the order written.
pub open spec fn parse_factor(t: Seq<Token>, pos: int) -> Option<(Expression, int)>
    decreases t.len() - pos, 0int,
{
    if pos < 0 || pos >= t.len() {
        None
    } else {
        match t[pos] {
            Token::Variable(c) => if pos + 1 < t.len() && t[pos + 1] is Constant {
                Some(
                    (
                        Expression::Multiplication(
                            Box::new(Expression::Variable(c)),
                            Box::new(Expression::Constant(t[pos + 1]->Constant_0)),
                        ),
                        pos + 2,
                    ),
                )
            } else {
                Some((Expression::Variable(c), pos + 1))
            },
            Token::Constant(k) => if pos + 1 < t.len() && t[pos + 1] is Variable {
                Some(
                    (
                        Expression::Multiplication(
                            Box::new(Expression::Constant(k)),
                            Box::new(Expression::Variable(t[pos + 1]->Variable_0)),
                        ),
                        pos + 2,
                    ),
                )
            } else {
                Some((Expression::Constant(k), pos + 1))
            },
            Token::OpenParenthesis => match parse_sum(t, pos + 1) {
                Some((e, p)) => if 0 <= p < t.len() && t[p] == Token::CloseParenthesis {
                    Some((e, p + 1))
                } else {
                    None
                },
                None => None,
            },
            _ => None,
        }
    }
}

/// `equation := expression '=' expression`, read from `t[pos]` on: both
/// sides and the position after the right one. Tokens after it are left
/// unread.
pub open spec fn parse_equation_at(t: Seq<Token>, pos: int) -> Option<(Expression, Expression, int)> {
    match parse_sum(t, pos) {
        Some((l, p)) => if 0 <= p < t.len() && t[p] == Token::Equal {
            match parse_sum(t, p + 1) {
                Some((r, q)) => Some((l, r, q)),
                None => None,
            }
        } else {
            None
        },
        None => None,
    }
}

/// A recursive-descent parser over a token sequence, with a cursor that only
/// moves forward.
pub struct Parser<'a> {
    tokens: &'a [Token],
    current: usize,
}

impl<'a> Parser<'a> {
    /// The tokens being read.
    pub closed spec fn token_seq(&self) -> Seq<Token> {
        self.tokens@
    }

    /// The index of the next token to read.
    pub closed spec fn cursor(&self) -> int {
        self.current as int
    }

    pub fn new(tokens: &'a [Token]) -> (r: Parser<'a>)
        ensures
            r.token_seq() == tokens@,
            r.cursor() == 0,
    {
        Parser { tokens, current: 0 }
    }

    /// Reads `expression '=' expression` at the cursor. On success the cursor
    /// stands after the right side.
    pub fn parse_equation(&mut self) -> (r: Option<(Expression, Expression)>)
        ensures
            final(self).token_seq() == old(self).token_seq(),
            match parse_equation_at(old(self).token_seq(), old(self).cursor()) {
                Some((left, right, p)) => r == Some((left, right)) && final(self).cursor() == p,
                None => r is None,
            },
    {
        let left_side = match self.parse_expression() {
            Some(e) => e,
            None => return None,
        };
        if let Some(Token::Equal) = self.peek() {
            self.consume();
            let right_side = match self.parse_expression() {
                Some(e) => e,
                None => return None,
            };
            Some((left_side, right_side))
        } else {
            None
        }
    }

    /// Reads one expression at the cursor. On success the cursor stands after
    /// it.
    pub fn parse_expression(&mut self) -> (r: Option<Expression>)
        ensures
            final(self).token_seq() == old(self).token_seq(),
            match parse_sum(old(self).token_seq(), old(self).cursor()) {
                Some((e, p)) => r == Some(e) && final(self).cursor() == p,
                None => r is None,
            },
            r is Some ==> old(self).cursor() < final(self).cursor() <= old(self).token_seq().len(),
        decreases old(self).token_seq().len() - old(self).cursor(), 4int,
    {
        self.parse_addition()
    }

    fn parse_addition(&mut self) -> (r: Option<Expression>)
        ensures
            final(self).token_seq() == old(self).token_seq(),
            match parse_sum(old(self).token_seq(), old(self).cursor()) {
                Some((e, p)) => r == Some(e) && final(self).cursor() == p,
                None => r is None,
            },
            r is Some ==> old(self).cursor() < final(self).cursor() <= old(self).token_seq().len(),
        decreases old(self).token_seq().len() - old(self).cursor(), 3int,
    {
        let ghost t = self.token_seq();
        let ghost start = self.cursor();
        let mut left = match self.parse_multiplication() {
            Some(e) => e,
            None => return None,
        };
        loop
            invariant
                self.token_seq() == t,
                t == old(self).token_seq(),
                start == old(self).cursor(),
                start < self.cursor() <= t.len(),
                parse_sum(t, start) == sum_rest(t, left, self.cursor()),
            decreases t.len() - self.cursor(),
        {
            let op = match self.peek() {
                Some(Token::Plus) => Token::Plus,
                Some(Token::Minus) => Token::Minus,
                _ => return Some(left),
            };
            self.consume();
            let right = match self.parse_multiplication() {
                Some(e) => e,
                None => return None,
            };
            left = match op {
                Token::Plus => Expression::Addition(Box::new(left), Box::new(right)),
                _ => Expression::Subtraction(Box::new(left), Box::new(right)),
            };
        }
    }

    fn parse_multiplication(&mut self) -> (r: Option<Expression>)
        ensures
            final(self).token_seq() == old(self).token_seq(),
            match parse_product(old(self).token_seq(), old(self).cursor()) {
                Some((e, p)) => r == Some(e) && final(self).cursor() == p,
                None => r is None,
            },
            r is Some ==> old(self).cursor() < final(self).cursor() <= old(self).token_seq().len(),
        decreases old(self).token_seq().len() - old(self).cursor(), 2int,
    {
        let ghost t = self.token_seq();
        let ghost start = self.cursor();
        let mut left = match self.parse_primary() {
            Some(e) => e,
            None => return None,
        };
        loop
            invariant
                self.token_seq() == t,
                t == old(self).token_seq(),
                start == old(self).cursor(),
                start < self.cursor() <= t.len(),
                parse_product(t, start) == product_rest(t, left, self.cursor()),
            decreases t.len() - self.cursor(),
        {
            let op = match self.peek() {
                Some(Token::Asterisk) => Token::Asterisk,
                Some(Token::Slash) => Token::Slash,
                _ => return Some(left),
            };
            self.consume();
            let right = match self.parse_primary() {
                Some(e) => e,
                None => return None,
            };
            left = match op {
                Token::Asterisk => Expression::Multiplication(Box::new(left), Box::new(right)),
                _ => Expression::Division(Box::new(left), Box::new(right)),
            };
        }
    }

    fn parse_primary(&mut self) -> (r: Option<Expression>)
        ensures
            final(self).token_seq() == old(self).token_seq(),
            match parse_factor(old(self).token_seq(), old(self).cursor()) {
                Some((e, p)) => r == Some(e) && final(self).cursor() == p,
                None => r is None,
            },
            r is Some ==> old(self).cursor() < final(self).cursor() <= old(self).token_seq().len(),
        decreases old(self).token_seq().len() - old(self).cursor(), 1int,
    {
        match self.peek() {
            Some(Token::Variable(c)) => {
                let c = *c;
                self.consume();
                if let Some(Token::Constant(value)) = self.peek() {
                    let value = *value;
                    self.consume();
                    Some(
                        Expression::Multiplication(
                            Box::new(Expression::Variable(c)),
                            Box::new(Expression::Constant(value)),
                        ),
                    )
                } else {
                    Some(Expression::Variable(c))
                }
            },
            Some(Token::Constant(value)) => {
                let value = *value;
                self.consume();
                if let Some(Token::Variable(c)) = self.peek() {
                    let c = *c;
                    self.consume();
                    Some(
                        Expression::Multiplication(
                            Box::new(Expression::Constant(value)),
                            Box::new(Expression::Variable(c)),
                        ),
                    )
                } else {
                    Some(Expression::Constant(value))
                }
            },
            Some(Token::OpenParenthesis) => {
                self.consume();
                let expr = self.parse_expression();
                match self.consume_expect(Token::CloseParenthesis) {
                    Some(()) => expr,
                    None => None,
                }
            },
            _ => None,
        }
    }

    fn peek(&self) -> (r: Option<&Token>)
        ensures
            match r {
                Some(t) => 0 <= self.cursor() < self.token_seq().len() && *t == self.token_seq()[self.cursor()],
                None => self.cursor() >= self.token_seq().len(),
            },
    {
        self.tokens.get(self.current)
    }

    fn consume(&mut self)
        requires
            old(self).cursor() < old(self).token_seq().len(),
        ensures
            final(self).token_seq() == old(self).token_seq(),
            final(self).cursor() == old(self).cursor() + 1,
    {
        let n = self.tokens.len();
        assert(self.current < n);
        self.current += 1;
    }

    fn consume_expect(&mut self, expected: Token) -> (r: Option<()>)
        ensures
            final(self).token_seq() == old(self).token_seq(),
            if 0 <= old(self).cursor() < old(self).token_seq().len() && old(self).token_seq()[old(self).cursor()] == expected {
                r == Some(()) && final(self).cursor() == old(self).cursor() + 1
            } else {
                r is None && final(self).cursor() == old(self).cursor()
            },
    {
        match self.peek() {
            Some(t) => if *t == expected {
                self.consume();
                Some(())
            } else {
                None
            },
            None => None,
        }
    }
}

} // verus!
