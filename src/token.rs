use vstd::prelude::*;
use vstd::string::StrSliceExecFns;

verus! {

/// A lexical unit of an equation.
#[derive(Debug, Clone, Copy, PartialEq, Eq, Structural)]
pub enum Token {
    Variable(char),
    Constant(i32),
    Plus,
    Minus,
    Asterisk,
    Slash,
    OpenParenthesis,
    CloseParenthesis,
    Equal,
}

impl Token {
    /// The symbol of a variable token.
    pub open spec fn variable_char(self) -> Option<char> {
        match self {
            Token::Variable(c) => Some(c),
            _ => None,
        }
    }

    pub fn get_variable_char(&self) -> (r: Option<char>)
        ensures
            r == self.variable_char(),
    {
        if let Token::Variable(c) = self {
            Some(*c)
        } else {
            None
        }
    }
}

/// An ASCII letter: the name of a variable.
pub open spec fn is_letter(c: char) -> bool {
    ('a' <= c && c <= 'z') || ('A' <= c && c <= 'Z')
}

pub open spec fn is_digit(c: char) -> bool {
    '0' <= c && c <= '9'
}

pub open spec fn digit_value(c: char) -> int {
    (c as u32) - ('0' as u32)
}

/// The token that a single operator or parenthesis character stands for.
pub open spec fn symbol_token(c: char) -> Option<Token> {
    if c == '+' {
        Some(Token::Plus)
    } else if c == '-' {
        Some(Token::Minus)
    } else if c == '*' {
        Some(Token::Asterisk)
    } else if c == '/' {
        Some(Token::Slash)
    } else if c == '(' {
        Some(Token::OpenParenthesis)
    } else if c == ')' {
        Some(Token::CloseParenthesis)
    } else if c == '=' {
        Some(Token::Equal)
    } else {
        None
    }
}

/// `head` followed by the tokens of `rest`, when there are any.
pub open spec fn prefixed(head: Seq<Token>, rest: Option<Seq<Token>>) -> Option<Seq<Token>> {
    match rest {
        Some(t) => Some(head + t),
        None => None,
    }
}

/// The tokens of `s[i..]`: letters become variables, runs of digits become
/// constants, operators and parentheses their own tokens, and every other
/// character is skipped. `None` when a numeral does not fit in an `i32`.
pub open spec fn lex_from(s: Seq<char>, i: int) -> Option<Seq<Token>>
    decreases s.len() - i, 0int,
{
    if i < 0 || i >= s.len() {
        Some(Seq::empty())
    } else {
        let c = s[i];
        if is_letter(c) {
            prefixed(seq![Token::Variable(c)], lex_from(s, i + 1))
        } else if is_digit(c) {
            lex_numeral(s, i + 1, digit_value(c))
        } else {
            match symbol_token(c) {
                Some(t) => prefixed(seq![t], lex_from(s, i + 1)),
                None => lex_from(s, i + 1),
            }
        }
    }
}

/// Continues a numeral whose digits so far have the value `acc` at `s[i]`:
/// each further digit makes it `acc * 10 + digit`.
pub open spec fn lex_numeral(s: Seq<char>, i: int, acc: int) -> Option<Seq<Token>>
    decreases s.len() - i, 1int,
{
    if 0 <= i < s.len() && is_digit(s[i]) {
        lex_numeral(s, i + 1, acc * 10 + digit_value(s[i]))
    } else if acc > i32::MAX {
        None
    } else {
        prefixed(seq![Token::Constant(acc as i32)], lex_from(s, i))
    }
}

/// The tokens of a whole text.
pub open spec fn lex(s: Seq<char>) -> Option<Seq<Token>> {
    lex_from(s, 0)
}

proof fn lemma_prefixed_push(head: Seq<Token>, t: Token, rest: Option<Seq<Token>>)
    ensures
        prefixed(head, prefixed(seq![t], rest)) == prefixed(head.push(t), rest),
{
    if let Some(r) = rest {
        assert(head + (seq![t] + r) =~= head.push(t) + r);
    }
}

/// A numeral that is already too large stays too large.
proof fn lemma_numeral_too_large(s: Seq<char>, i: int, acc: int)
    requires
        acc > i32::MAX,
    ensures
        lex_numeral(s, i, acc) is None,
    decreases s.len() - i,
{
    if 0 <= i < s.len() && is_digit(s[i]) {
        lemma_numeral_too_large(s, i + 1, acc * 10 + digit_value(s[i]));
    }
}

fn is_digit_char(c: char) -> (r: bool)
    ensures
        r == is_digit(c),
{
    '0' <= c && c <= '9'
}

fn symbol_token_of(c: char) -> (r: Option<Token>)
    ensures
        r == symbol_token(c),
{
    match c {
        '+' => Some(Token::Plus),
        '-' => Some(Token::Minus),
        '*' => Some(Token::Asterisk),
        '/' => Some(Token::Slash),
        '(' => Some(Token::OpenParenthesis),
        ')' => Some(Token::CloseParenthesis),
        '=' => Some(Token::Equal),
        _ => None,
    }
}

/// Splits `input` into tokens; `None` when a numeral does not fit in an `i32`.
pub fn tokenize(input: &str) -> (r: Option<Vec<Token>>)
    ensures
        match r {
            Some(v) => lex(input@) == Some(v@),
            None => lex(input@) is None,
        },
{
    let n = input.unicode_len();
    let mut tokens: Vec<Token> = Vec::new();
    let mut i: usize = 0;
    while i < n
        invariant
            n == input@.len(),
            i <= n,
            lex(input@) == prefixed(tokens@, lex_from(input@, i as int)),
        decreases n - i,
    {
        let ch = input.get_char(i);
        if ('a' <= ch && ch <= 'z') || ('A' <= ch && ch <= 'Z') {
            proof {
                lemma_prefixed_push(tokens@, Token::Variable(ch), lex_from(input@, i + 1));
            }
            tokens.push(Token::Variable(ch));
            i += 1;
        } else if is_digit_char(ch) {
            let ghost start = i;
            let mut value: i64 = (ch as u32 - '0' as u32) as i64;
            i += 1;
            while i < n && is_digit_char(input.get_char(i))
                invariant
                    n == input@.len(),
                    start < i <= n,
                    0 <= value <= i32::MAX,
                    lex(input@) == prefixed(tokens@, lex_numeral(input@, i as int, value as int)),
                decreases n - i,
            {
                let d = input.get_char(i);
                value = value * 10 + (d as u32 - '0' as u32) as i64;
                i += 1;
                if value > i32::MAX as i64 {
                    proof {
                        lemma_numeral_too_large(input@, i as int, value as int);
                    }
                    return None;
                }
            }
            proof {
                lemma_prefixed_push(tokens@, Token::Constant(value as i32), lex_from(input@, i as int));
            }
            tokens.push(Token::Constant(value as i32));
        } else {
            if let Some(t) = symbol_token_of(ch) {
                proof {
                    lemma_prefixed_push(tokens@, t, lex_from(input@, i + 1));
                }
                tokens.push(t);
            }
            i += 1;
        }
    }
    Some(tokens)
}

/// The distinct variable symbols of `t`, in the order of their first
/// occurrence.
pub open spec fn variables_of(t: Seq<Token>) -> Seq<char>
    decreases t.len(),
{
    if t.len() == 0 {
        Seq::empty()
    } else {
        let earlier = variables_of(t.drop_last());
        match t.last() {
            Token::Variable(c) => if earlier.contains(c) {
                earlier
            } else {
                earlier.push(c)
            },
            _ => earlier,
        }
    }
}

fn contains_symbol(names: &Vec<char>, c: char) -> (r: bool)
    ensures
        r == names@.contains(c),
{
    let mut i: usize = 0;
    while i < names.len()
        invariant
            i <= names@.len(),
            forall|j: int| 0 <= j < i ==> names@[j] != c,
        decreases names@.len() - i,
    {
        if names[i] == c {
            return true;
        }
        i += 1;
    }
    false
}

/// The distinct variable symbols of `tokens`, in the order of their first
/// occurrence.
pub fn variable_symbols(tokens: &[Token]) -> (r: Vec<char>)
    ensures
        r@ == variables_of(tokens@),
        r@.no_duplicates(),
{
    let mut names: Vec<char> = Vec::new();
    let mut i: usize = 0;
    while i < tokens.len()
        invariant
            i <= tokens@.len(),
            names@ == variables_of(tokens@.subrange(0, i as int)),
            names@.no_duplicates(),
        decreases tokens@.len() - i,
    {
        proof {
            assert(tokens@.subrange(0, i + 1).drop_last() =~= tokens@.subrange(0, i as int));
        }
        if let Some(c) = tokens[i].get_variable_char() {
            if !contains_symbol(&names, c) {
                names.push(c);
            }
        }
        i += 1;
    }
    assert(tokens@.subrange(0, tokens@.len() as int) =~= tokens@);
    names
}

} // verus!
