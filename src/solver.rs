use vstd::prelude::*;
use crate::assignment::{symbols, Assignment};
use crate::combinations::{
    combination, combination_count, in_range, lemma_combinations_exhaustive, values_of,
    Combinations,
};
use crate::expression::{value_of, Expression};
use crate::parser::{parse_equation_at, Parser};
use crate::token::{lex, tokenize, variable_symbols, variables_of, Token};

verus! {

/// The largest value tried for a variable unless another is asked for.
pub const DEFAULT_MAX_VALUE: i32 = 20;

/// Why an equation was not solved.
#[derive(Debug, Clone, Copy, PartialEq, Eq, Structural)]
pub enum SolveError {
    /// The text is not an equation: a numeral does not fit in an `i32`, or
    /// the tokens do not form `expression '=' expression`.
    ParseFailed,
    /// No assignment within the bound makes both sides equal.
    NoSolution,
}

/// Both sides of the equation have a value under `env`, and it is the same.
pub open spec fn satisfies(left: Expression, right: Expression, env: Seq<(char, i32)>) -> bool {
    value_of(left, env) is Ok && value_of(left, env) == value_of(right, env)
}

/// The index of the first assignment at or after index `n` of the odometer
/// order over `names` and `0..=max` that satisfies the equation.
pub open spec fn first_solution_from(
    left: Expression,
    right: Expression,
    names: Seq<char>,
    max: int,
    n: int,
) -> Option<int>
    decreases combination_count(max, names.len()) - n,
{
    if n < 0 || n >= combination_count(max, names.len()) {
        None
    } else if satisfies(left, right, combination(names, max, n)) {
        Some(n)
    } else {
        first_solution_from(left, right, names, max, n + 1)
    }
}

/// The first assignment of the odometer order that satisfies the equation,
/// or `NoSolution` where none does.
pub open spec fn solution_of(left: Expression, right: Expression, names: Seq<char>, max: int) -> Result<
    Seq<(char, i32)>,
    SolveError,
> {
    match first_solution_from(left, right, names, max, 0) {
        Some(n) => Ok(combination(names, max, n)),
        None => Err(SolveError::NoSolution),
    }
}

/// Every assignment at or after index `n` of the odometer order over
/// `names` and `0..=max` that satisfies the equation, in that order.
pub open spec fn solutions_from(
    left: Expression,
    right: Expression,
    names: Seq<char>,
    max: int,
    n: int,
) -> Seq<Seq<(char, i32)>>
    decreases combination_count(max, names.len()) - n,
{
    if n < 0 || n >= combination_count(max, names.len()) {
        Seq::empty()
    } else {
        let rest = solutions_from(left, right, names, max, n + 1);
        if satisfies(left, right, combination(names, max, n)) {
            seq![combination(names, max, n)] + rest
        } else {
            rest
        }
    }
}

/// The `Seq` forms of a list of assignments.
pub open spec fn assignment_views(v: Seq<Assignment>) -> Seq<Seq<(char, i32)>> {
    v.map_values(|a: Assignment| a@)
}

/// Both sides of the equation written in `s`, with its variable symbols in
/// the order of their first occurrence.
pub open spec fn equation_of(s: Seq<char>) -> Option<(Expression, Expression, Seq<char>)> {
    match lex(s) {
        Some(t) => match parse_equation_at(t, 0) {
            Some((l, r, _)) => Some((l, r, variables_of(t))),
            None => None,
        },
        None => None,
    }
}

/// What solving the text `s` with values in `0..=max` gives.
pub open spec fn solve_text(s: Seq<char>, max: int) -> Result<Seq<(char, i32)>, SolveError> {
    match equation_of(s) {
        Some((l, r, names)) => solution_of(l, r, names, max),
        None => Err(SolveError::ParseFailed),
    }
}

/// The `Seq` form of a solver's result.
pub open spec fn outcome_view(r: Result<Assignment, SolveError>) -> Result<
    Seq<(char, i32)>,
    SolveError,
> {
    match r {
        Ok(a) => Ok(a@),
        Err(e) => Err(e),
    }
}

proof fn lemma_first_solution(
    left: Expression,
    right: Expression,
    names: Seq<char>,
    max: int,
    n: int,
)
    requires
        0 <= n,
    ensures
        match first_solution_from(left, right, names, max, n) {
            Some(m) => n <= m < combination_count(max, names.len()) && satisfies(
                left,
                right,
                combination(names, max, m),
            ) && forall|j: int|
                n <= j < m ==> !satisfies(left, right, #[trigger] combination(names, max, j)),
            None => forall|j: int|
                n <= j < combination_count(max, names.len()) ==> !satisfies(
                    left,
                    right,
                    #[trigger] combination(names, max, j),
                ),
        },
    decreases combination_count(max, names.len()) - n,
{
    if n < combination_count(max, names.len()) && !satisfies(
        left,
        right,
        combination(names, max, n),
    ) {
        lemma_first_solution(left, right, names, max, n + 1);
    }
}

/// The solver answers with an assignment exactly when one exists within the
/// bound: what it returns gives each variable a value in `0..=max` and makes
/// both sides equal, and it is the first such assignment in odometer order;
/// when it finds none, no assignment within the bound makes the sides equal.
pub proof fn lemma_solution_sound_and_complete(
    left: Expression,
    right: Expression,
    names: Seq<char>,
    max: int,
)
    requires
        0 <= max <= i32::MAX,
    ensures
        match solution_of(left, right, names, max) {
            Ok(a) => satisfies(left, right, a) && symbols(a) == names && in_range(
                values_of(a),
                max,
            ) && exists|n: int|
                0 <= n < combination_count(max, names.len()) && a == combination(names, max, n)
                    && forall|j: int|
                    0 <= j < n ==> !satisfies(left, right, #[trigger] combination(names, max, j)),
            Err(e) => e == SolveError::NoSolution && forall|a: Seq<(char, i32)>|
                symbols(a) == names && in_range(values_of(a), max) ==> !satisfies(
                    left,
                    right,
                    a,
                ),
        },
{
    lemma_combinations_exhaustive(names, max);
    lemma_first_solution(left, right, names, max, 0);
    match first_solution_from(left, right, names, max, 0) {
        Some(n) => {
            assert(0 <= n < combination_count(max, names.len()));
        },
        None => {
            assert forall|a: Seq<(char, i32)>|
                symbols(a) == names && in_range(values_of(a), max) implies !satisfies(
                left,
                right,
                a,
            ) by {
                let n = choose|n: int|
                    0 <= n < combination_count(max, names.len()) && #[trigger] combination(
                        names,
                        max,
                        n,
                    ) == a;
                assert(combination(names, max, n) == a);
            }
        },
    }
}

/// Something that turns an input into an equation and searches for an
/// assignment of its variables that satisfies it.
pub trait Solver<T>: Sized {
    /// `s` is the solver built from `input`.
    spec fn built_from(input: T, s: Self) -> bool;

    /// `input` cannot be turned into a solver, for the reason `e`.
    spec fn refused(input: T, e: SolveError) -> bool;

    /// What solving `input` gives.
    spec fn outcome(input: T) -> Result<Seq<(char, i32)>, SolveError>;

    /// What searching from this solver gives.
    spec fn own_outcome(&self) -> Result<Seq<(char, i32)>, SolveError>;

    fn new(input: T) -> (r: Result<Self, SolveError>)
        ensures
            match r {
                Ok(s) => Self::built_from(input, s),
                Err(e) => Self::refused(input, e),
            },
    ;

    fn solve(input: T) -> (r: Result<Assignment, SolveError>)
        ensures
            outcome_view(r) == Self::outcome(input),
    ;

    fn solve_from_self(&self) -> (r: Result<Assignment, SolveError>)
        ensures
            outcome_view(r) == self.own_outcome(),
    ;
}

/// A solver that tries every assignment of values in `0..=max_value` to the
/// variables, in odometer order, and stops at the first that makes both
/// sides of the equation equal.
pub struct BruteForce {
    equation: Expression,
    target_expression: Expression,
    max_value: i32,
    tokens: Vec<Token>,
}

impl BruteForce {
    #[verifier::type_invariant]
    spec fn inv(self) -> bool {
        self.max_value >= 0
    }

    /// The left side of the equation.
    pub closed spec fn left(&self) -> Expression {
        self.equation
    }

    /// The right side of the equation.
    pub closed spec fn right(&self) -> Expression {
        self.target_expression
    }

    /// The largest value tried for a variable.
    pub closed spec fn bound(&self) -> int {
        self.max_value as int
    }

    /// The variable symbols, in the order of their first occurrence.
    pub closed spec fn symbols(&self) -> Seq<char> {
        variables_of(self.tokens@)
    }

    /// A solver for the equation written in `input` that tries the values
    /// `0..=max_value` for each variable.
    pub fn with_max_value(input: &str, max_value: i32) -> (r: Result<BruteForce, SolveError>)
        requires
            max_value >= 0,
        ensures
            match r {
                Ok(s) => equation_of(input@) == Some((s.left(), s.right(), s.symbols()))
                    && s.bound() == max_value,
                Err(e) => e == SolveError::ParseFailed && equation_of(input@) is None,
            },
    {
        let tokens = match tokenize(input) {
            Some(t) => t,
            None => return Err(SolveError::ParseFailed),
        };
        let mut parser = Parser::new(tokens.as_slice());
        match parser.parse_equation() {
            Some((left, right)) => Ok(
                BruteForce { equation: left, target_expression: right, max_value, tokens },
            ),
            None => Err(SolveError::ParseFailed),
        }
    }

    /// Every assignment within the bound that satisfies the equation, in
    /// odometer order.
    pub fn all_solutions(&self) -> (r: Vec<Assignment>)
        ensures
            assignment_views(r@) == solutions_from(
                self.left(),
                self.right(),
                self.symbols(),
                self.bound(),
                0,
            ),
    {
        proof {
            use_type_invariant(self);
        }
        let names = variable_symbols(self.tokens.as_slice());
        let ghost left = self.left();
        let ghost right = self.right();
        let ghost ns = names@;
        let ghost max = self.bound();
        let mut odometer = Combinations::new(names, self.max_value);
        let mut found: Vec<Assignment> = Vec::new();
        loop
            invariant
                odometer.wf(),
                odometer.symbols() == ns,
                odometer.bound() == max,
                ns == self.symbols(),
                max == self.bound(),
                left == self.left(),
                right == self.right(),
                0 <= odometer.position() <= odometer.total(),
                solutions_from(left, right, ns, max, 0) == assignment_views(found@)
                    + solutions_from(left, right, ns, max, odometer.position()),
            decreases odometer.total() - odometer.position(),
        {
            let ghost n = odometer.position();
            let ghost before = found@;
            match odometer.next() {
                Some(values) => {
                    let l = self.equation.evaluate(&values);
                    let r = self.target_expression.evaluate(&values);
                    let mut hit = false;
                    if let (Ok(a), Ok(b)) = (l, r) {
                        hit = a == b;
                    }
                    if hit {
                        found.push(values);
                        proof {
                            assert(assignment_views(found@) =~= assignment_views(before).push(
                                combination(ns, max, n),
                            ));
                            assert(assignment_views(found@) + solutions_from(
                                left,
                                right,
                                ns,
                                max,
                                n + 1,
                            ) =~= assignment_views(before) + solutions_from(
                                left,
                                right,
                                ns,
                                max,
                                n,
                            ));
                        }
                    }
                },
                None => {
                    proof {
                        assert(assignment_views(found@) + solutions_from(
                            left,
                            right,
                            ns,
                            max,
                            n,
                        ) =~= assignment_views(found@));
                    }
                    return found;
                },
            }
        }
    }
}

impl<'a> Solver<&'a str> for BruteForce {
    open spec fn built_from(input: &'a str, s: BruteForce) -> bool {
        equation_of(input@) == Some((s.left(), s.right(), s.symbols())) && s.bound()
            == DEFAULT_MAX_VALUE
    }

    open spec fn refused(input: &'a str, e: SolveError) -> bool {
        e == SolveError::ParseFailed && equation_of(input@) is None
    }

    open spec fn outcome(input: &'a str) -> Result<Seq<(char, i32)>, SolveError> {
        solve_text(input@, DEFAULT_MAX_VALUE as int)
    }

    open spec fn own_outcome(&self) -> Result<Seq<(char, i32)>, SolveError> {
        solution_of(self.left(), self.right(), self.symbols(), self.bound())
    }

    /// A solver for the equation written in `input`, trying the values
    /// `0..=DEFAULT_MAX_VALUE`.
    fn new(input: &'a str) -> (r: Result<BruteForce, SolveError>) {
        BruteForce::with_max_value(input, DEFAULT_MAX_VALUE)
    }

    /// Solves the equation written in `input`.
    fn solve(input: &'a str) -> (r: Result<Assignment, SolveError>) {
        let solver = match BruteForce::new(input) {
            Ok(s) => s,
            Err(e) => return Err(e),
        };
        solver.solve_from_self()
    }

    /// The first assignment in odometer order that satisfies the equation.
    fn solve_from_self(&self) -> (r: Result<Assignment, SolveError>) {
        proof {
            use_type_invariant(self);
        }
        let names = variable_symbols(self.tokens.as_slice());
        let ghost left = self.left();
        let ghost right = self.right();
        let ghost ns = names@;
        let ghost max = self.bound();
        let mut odometer = Combinations::new(names, self.max_value);
        loop
            invariant
                odometer.wf(),
                odometer.symbols() == ns,
                odometer.bound() == max,
                ns == self.symbols(),
                max == self.bound(),
                left == self.left(),
                right == self.right(),
                0 <= odometer.position() <= odometer.total(),
                first_solution_from(left, right, ns, max, 0) == first_solution_from(
                    left,
                    right,
                    ns,
                    max,
                    odometer.position(),
                ),
            decreases odometer.total() - odometer.position(),
        {
            let ghost n = odometer.position();
            match odometer.next() {
                Some(values) => {
                    let l = self.equation.evaluate(&values);
                    let r = self.target_expression.evaluate(&values);
                    if let (Ok(a), Ok(b)) = (l, r) {
                        if a == b {
                            return Ok(values);
                        }
                    }
                    assert(!satisfies(left, right, combination(ns, max, n)));
                },
                None => {
                    return Err(SolveError::NoSolution);
                },
            }
        }
    }
}

} // verus!
