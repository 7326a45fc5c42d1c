use vstd::prelude::*;
use crate::assignment::{lookup, Assignment};

verus! {

/// An arithmetic expression tree; each node owns its children.
#[derive(Debug)]
pub enum Expression {
    Variable(char),
    Constant(i32),
    Addition(Box<Expression>, Box<Expression>),
    Subtraction(Box<Expression>, Box<Expression>),
    Multiplication(Box<Expression>, Box<Expression>),
    Division(Box<Expression>, Box<Expression>),
}

/// Why an expression has no value.
#[derive(Debug, Clone, Copy, PartialEq, Eq, Structural)]
pub enum EvalError {
    /// The assignment binds no value to this symbol.
    UnboundVariable(char),
    /// A divisor evaluated to zero.
    DivisionByZero,
    /// A result does not fit in an `i32`.
    Overflow,
}

pub open spec fn fits_i32(v: int) -> bool {
    i32::MIN <= v <= i32::MAX
}

/// `v` where it fits in an `i32`, and an overflow otherwise.
pub open spec fn checked(v: int) -> Result<int, EvalError> {
    if fits_i32(v) {
        Ok(v)
    } else {
        Err(EvalError::Overflow)
    }
}

/// The quotient of `x` by `d` rounded toward zero.
pub open spec fn truncated_div(x: int, d: int) -> int {
    let q = if x < 0 { -x } else { x } / if d < 0 { -d } else { d };
    if (x < 0) != (d < 0) {
        -q
    } else {
        q
    }
}

/// The values of both operands, or the error of the first one that has none.
pub open spec fn operands(
    l: Result<int, EvalError>,
    r: Result<int, EvalError>,
) -> Result<(int, int), EvalError> {
    match l {
        Err(e) => Err(e),
        Ok(a) => match r {
            Err(e) => Err(e),
            Ok(b) => Ok((a, b)),
        },
    }
}

/// The value of `e` when each variable takes the value that `env` binds to
/// it. The left operand is evaluated before the right one, and the first
/// error met is the result.
pub open spec fn value_of(e: Expression, env: Seq<(char, i32)>) -> Result<int, EvalError>
    decreases e,
{
    match e {
        Expression::Variable(c) => match lookup(env, c) {
            Some(v) => Ok(v as int),
            None => Err(EvalError::UnboundVariable(c)),
        },
        Expression::Constant(k) => Ok(k as int),
        Expression::Addition(l, r) => match operands(value_of(*l, env), value_of(*r, env)) {
            Ok((a, b)) => checked(a + b),
            Err(x) => Err(x),
        },
        Expression::Subtraction(l, r) => match operands(value_of(*l, env), value_of(*r, env)) {
            Ok((a, b)) => checked(a - b),
            Err(x) => Err(x),
        },
        Expression::Multiplication(l, r) => match operands(
            value_of(*l, env),
            value_of(*r, env),
        ) {
            Ok((a, b)) => checked(a * b),
            Err(x) => Err(x),
        },
        Expression::Division(l, r) => match operands(value_of(*l, env), value_of(*r, env)) {
            Ok((a, b)) => if b == 0 {
                Err(EvalError::DivisionByZero)
            } else {
                checked(truncated_div(a, b))
            },
            Err(x) => Err(x),
        },
    }
}

/// Whether the symbol `c` occurs in `e`.
pub open spec fn mentions(e: Expression, c: char) -> bool
    decreases e,
{
    match e {
        Expression::Variable(v) => v == c,
        Expression::Constant(_) => false,
        Expression::Addition(l, r) => mentions(*l, c) || mentions(*r, c),
        Expression::Subtraction(l, r) => mentions(*l, c) || mentions(*r, c),
        Expression::Multiplication(l, r) => mentions(*l, c) || mentions(*r, c),
        Expression::Division(l, r) => mentions(*l, c) || mentions(*r, c),
    }
}

/// Evaluation is a function of the tree and of the values bound to the
/// symbols that the tree mentions, and of nothing else: in particular,
/// evaluating one tree twice under one assignment gives one value.
pub proof fn lemma_value_depends_only_on_mentioned(
    e: Expression,
    env1: Seq<(char, i32)>,
    env2: Seq<(char, i32)>,
)
    requires
        forall|c: char| mentions(e, c) ==> lookup(env1, c) == lookup(env2, c),
    ensures
        value_of(e, env1) == value_of(e, env2),
    decreases e,
{
    match e {
        Expression::Variable(_) => {},
        Expression::Constant(_) => {},
        Expression::Addition(l, r) => {
            lemma_value_depends_only_on_mentioned(*l, env1, env2);
            lemma_value_depends_only_on_mentioned(*r, env1, env2);
        },
        Expression::Subtraction(l, r) => {
            lemma_value_depends_only_on_mentioned(*l, env1, env2);
            lemma_value_depends_only_on_mentioned(*r, env1, env2);
        },
        Expression::Multiplication(l, r) => {
            lemma_value_depends_only_on_mentioned(*l, env1, env2);
            lemma_value_depends_only_on_mentioned(*r, env1, env2);
        },
        Expression::Division(l, r) => {
            lemma_value_depends_only_on_mentioned(*l, env1, env2);
            lemma_value_depends_only_on_mentioned(*r, env1, env2);
        },
    }
}

/// The `i32` form of an evaluation result.
pub open spec fn as_result(r: Result<i32, EvalError>) -> Result<int, EvalError> {
    match r {
        Ok(v) => Ok(v as int),
        Err(e) => Err(e),
    }
}

impl Expression {
    /// The value of the expression under `variable_values`; an error where a
    /// symbol is unbound, a divisor is zero or a result leaves the `i32` range.
    pub fn evaluate(&self, variable_values: &Assignment) -> (r: Result<i32, EvalError>)
        ensures
            as_result(r) == value_of(*self, variable_values@),
        decreases self,
    {
        match self {
            Expression::Variable(c) => match variable_values.get(*c) {
                Some(v) => Ok(v),
                None => Err(EvalError::UnboundVariable(*c)),
            },
            Expression::Constant(value) => Ok(*value),
            Expression::Addition(lhs, rhs) => {
                let a = match lhs.evaluate(variable_values) {
                    Ok(a) => a,
                    Err(e) => return Err(e),
                };
                let b = match rhs.evaluate(variable_values) {
                    Ok(b) => b,
                    Err(e) => return Err(e),
                };
                match a.checked_add(b) {
                    Some(v) => Ok(v),
                    None => Err(EvalError::Overflow),
                }
            },
            Expression::Subtraction(lhs, rhs) => {
                let a = match lhs.evaluate(variable_values) {
                    Ok(a) => a,
                    Err(e) => return Err(e),
                };
                let b = match rhs.evaluate(variable_values) {
                    Ok(b) => b,
                    Err(e) => return Err(e),
                };
                match a.checked_sub(b) {
                    Some(v) => Ok(v),
                    None => Err(EvalError::Overflow),
                }
            },
            Expression::Multiplication(lhs, rhs) => {
                let a = match lhs.evaluate(variable_values) {
                    Ok(a) => a,
                    Err(e) => return Err(e),
                };
                let b = match rhs.evaluate(variable_values) {
                    Ok(b) => b,
                    Err(e) => return Err(e),
                };
                match a.checked_mul(b) {
                    Some(v) => Ok(v),
                    None => Err(EvalError::Overflow),
                }
            },
            Expression::Division(lhs, rhs) => {
                let a = match lhs.evaluate(variable_values) {
                    Ok(a) => a,
                    Err(e) => return Err(e),
                };
                let b = match rhs.evaluate(variable_values) {
                    Ok(b) => b,
                    Err(e) => return Err(e),
                };
                if b == 0 {
                    return Err(EvalError::DivisionByZero);
                }
                match a.checked_div(b) {
                    Some(v) => Ok(v),
                    None => Err(EvalError::Overflow),
                }
            },
        }
    }
}

} // verus!
