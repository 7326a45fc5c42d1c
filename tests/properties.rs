use math_rs::assignment::Assignment;
use math_rs::combinations::Combinations;
use math_rs::expression::{EvalError, Expression};
use math_rs::parser::Parser;
use math_rs::pow::Pow;
use math_rs::solver::{BruteForce, SolveError, Solver};
use math_rs::token::{tokenize, variable_symbols, Token};

fn parse_one(input: &str) -> Expression {
    let tokens = tokenize(input).unwrap();
    let mut parser = Parser::new(&tokens);
    parser.parse_expression().unwrap()
}

fn bound(pairs: &[(char, i32)]) -> Assignment {
    let mut a = Assignment::new();
    for &(c, v) in pairs {
        a.bind(c, v);
    }
    a
}

#[test]
fn multiplication_binds_tighter_than_addition() {
    let e = parse_one("2 + 3 * 4");
    assert_eq!(e.evaluate(&Assignment::new()), Ok(14));
}

#[test]
fn parentheses_group_first() {
    let e = parse_one("(2 + 3) * 4");
    assert_eq!(e.evaluate(&Assignment::new()), Ok(20));
}

#[test]
fn subtraction_and_division_group_to_the_left() {
    assert_eq!(parse_one("10 - 4 - 3").evaluate(&Assignment::new()), Ok(3));
    assert_eq!(parse_one("100 / 10 / 5").evaluate(&Assignment::new()), Ok(2));
}

#[test]
fn juxtaposition_multiplies_in_either_order() {
    let a = bound(&[('a', 2)]);
    assert_eq!(parse_one("13a").evaluate(&a), Ok(26));
    assert_eq!(parse_one("a13").evaluate(&a), Ok(26));
}

#[test]
fn juxtaposition_builds_product_nodes() {
    match parse_one("13a") {
        Expression::Multiplication(l, r) => {
            assert!(matches!(*l, Expression::Constant(13)));
            assert!(matches!(*r, Expression::Variable('a')));
        }
        other => panic!("unexpected tree {:?}", other),
    }
    match parse_one("a13") {
        Expression::Multiplication(l, r) => {
            assert!(matches!(*l, Expression::Variable('a')));
            assert!(matches!(*r, Expression::Constant(13)));
        }
        other => panic!("unexpected tree {:?}", other),
    }
}

#[test]
fn solver_finds_single_variable_value() {
    let solution = BruteForce::solve("1 + x = 3").unwrap();
    assert_eq!(solution.get('x'), Some(2));
    assert_eq!(solution.entries(), vec![('x', 2)]);
}

#[test]
fn solver_returns_a_satisfying_assignment_within_bound() {
    let solution = BruteForce::solve("13a + 7b + 1 = 245").unwrap();
    let a = solution.get('a').unwrap();
    let b = solution.get('b').unwrap();
    assert!((0..=20).contains(&a) && (0..=20).contains(&b));
    assert_eq!(13 * a + 7 * b + 1, 245);
    // The first variable varies fastest, so the smallest `b` comes first.
    assert_eq!(solution.entries(), vec![('a', 15), ('b', 7)]);
}

#[test]
fn all_solutions_come_in_odometer_order() {
    let solver = BruteForce::new("13a + 7b + 1 = 245").unwrap();
    let all: Vec<Vec<(char, i32)>> = solver.all_solutions().iter().map(|s| s.entries()).collect();
    assert_eq!(all, vec![vec![('a', 15), ('b', 7)], vec![('a', 8), ('b', 20)]]);
}

#[test]
fn integer_division_gives_two_solutions() {
    let solver = BruteForce::new("x / 2 + 5 = 7").unwrap();
    let all: Vec<Vec<(char, i32)>> = solver.all_solutions().iter().map(|s| s.entries()).collect();
    assert_eq!(all, vec![vec![('x', 4)], vec![('x', 5)]]);
}

#[test]
fn subtraction_solution_value() {
    let solution = BruteForce::solve("1 - x + 3 = 0").unwrap();
    assert_eq!(solution.get('x'), Some(4));
}

#[test]
fn unknown_characters_are_skipped() {
    let solution = BruteForce::solve("2^x = 16").unwrap();
    assert_eq!(solution.get('x'), Some(8));
    assert_eq!(
        tokenize("2^x ?= 16").unwrap(),
        vec![Token::Constant(2), Token::Variable('x'), Token::Equal, Token::Constant(16)]
    );
}

#[test]
fn tokenize_reads_every_token_kind() {
    assert_eq!(
        tokenize("(a+12)-b*3/c=Z").unwrap(),
        vec![
            Token::OpenParenthesis,
            Token::Variable('a'),
            Token::Plus,
            Token::Constant(12),
            Token::CloseParenthesis,
            Token::Minus,
            Token::Variable('b'),
            Token::Asterisk,
            Token::Constant(3),
            Token::Slash,
            Token::Variable('c'),
            Token::Equal,
            Token::Variable('Z'),
        ]
    );
    assert_eq!(tokenize("").unwrap(), vec![]);
}

#[test]
fn tokenize_accumulates_numerals_in_decimal() {
    assert_eq!(tokenize("2147483647").unwrap(), vec![Token::Constant(2147483647)]);
    assert_eq!(tokenize("007").unwrap(), vec![Token::Constant(7)]);
    assert_eq!(tokenize("2147483648"), None);
}

#[test]
fn variable_symbols_are_distinct_in_first_seen_order() {
    let tokens = tokenize("b + a * b = a + c").unwrap();
    assert_eq!(variable_symbols(&tokens), vec!['b', 'a', 'c']);
}

#[test]
fn get_variable_char_of_tokens() {
    assert_eq!(Token::Variable('q').get_variable_char(), Some('q'));
    assert_eq!(Token::Constant(3).get_variable_char(), None);
    assert_eq!(Token::Equal.get_variable_char(), None);
}

#[test]
fn combinations_cover_every_assignment_once() {
    let mut odometer = Combinations::new(vec!['x', 'y'], 2);
    let mut seen: Vec<Vec<(char, i32)>> = Vec::new();
    while let Some(a) = odometer.next() {
        let entries = a.entries();
        assert!(!seen.contains(&entries));
        seen.push(entries);
    }
    assert_eq!(seen.len(), 9);
    for x in 0..=2 {
        for y in 0..=2 {
            assert!(seen.contains(&vec![('x', x), ('y', y)]));
        }
    }
    assert_eq!(seen[0], vec![('x', 0), ('y', 0)]);
    assert_eq!(seen[1], vec![('x', 1), ('y', 0)]);
    assert_eq!(seen[3], vec![('x', 0), ('y', 1)]);
    assert!(odometer.next().is_none());
}

#[test]
fn combinations_of_no_variables_is_one_empty_assignment() {
    let mut odometer = Combinations::new(vec![], 20);
    let first = odometer.next().unwrap();
    assert!(first.entries().is_empty());
    assert!(odometer.next().is_none());
}

#[test]
fn combinations_with_zero_bound() {
    let mut odometer = Combinations::new(vec!['p', 'q', 'r'], 0);
    assert_eq!(odometer.next().unwrap().entries(), vec![('p', 0), ('q', 0), ('r', 0)]);
    assert!(odometer.next().is_none());
}

#[test]
fn unsatisfiable_equation_has_no_solution() {
    assert_eq!(BruteForce::solve("x = 1000").err(), Some(SolveError::NoSolution));
}

#[test]
fn larger_bound_reaches_larger_values() {
    let solver = BruteForce::with_max_value("x = 1000", 1000).unwrap();
    assert_eq!(solver.solve_from_self().unwrap().get('x'), Some(1000));
}

#[test]
fn equation_without_variables() {
    assert!(BruteForce::solve("2 + 2 = 4").unwrap().entries().is_empty());
    assert_eq!(BruteForce::solve("2 = 3").err(), Some(SolveError::NoSolution));
}

#[test]
fn malformed_inputs_fail_to_parse() {
    for input in ["x + 1", "1 + = 2", "(1 = 1", "13ab = 26", "= 3", "x = ", "99999999999 = x"] {
        assert_eq!(BruteForce::solve(input).err(), Some(SolveError::ParseFailed), "{}", input);
        assert!(BruteForce::new(input).is_err(), "{}", input);
    }
}

#[test]
fn parse_equation_leaves_trailing_tokens() {
    let tokens = tokenize("x = 2 ) 7").unwrap();
    let mut parser = Parser::new(&tokens);
    let (l, r) = parser.parse_equation().unwrap();
    assert!(matches!(l, Expression::Variable('x')));
    assert!(matches!(r, Expression::Constant(2)));
}

#[test]
fn division_by_zero_is_an_error() {
    let e = parse_one("1 / x");
    assert_eq!(e.evaluate(&bound(&[('x', 0)])), Err(EvalError::DivisionByZero));
    assert_eq!(BruteForce::solve("6 / x = 2").unwrap().get('x'), Some(3));
}

#[test]
fn division_truncates_toward_zero() {
    assert_eq!(parse_one("(0 - 7) / 2").evaluate(&Assignment::new()), Ok(-3));
    assert_eq!(parse_one("7 / 2").evaluate(&Assignment::new()), Ok(3));
}

#[test]
fn overflow_is_an_error() {
    assert_eq!(parse_one("2147483647 + 1").evaluate(&Assignment::new()), Err(EvalError::Overflow));
    assert_eq!(parse_one("65536 * 65536").evaluate(&Assignment::new()), Err(EvalError::Overflow));
    assert_eq!(parse_one("0 - 2147483647 - 2").evaluate(&Assignment::new()), Err(EvalError::Overflow));
}

#[test]
fn unbound_variable_is_an_error() {
    let e = parse_one("x + y");
    assert_eq!(e.evaluate(&bound(&[('x', 1)])), Err(EvalError::UnboundVariable('y')));
}

#[test]
fn evaluating_twice_gives_the_same_value() {
    let e = parse_one("13a + 7b + 1");
    let a = bound(&[('a', 15), ('b', 7)]);
    let first = e.evaluate(&a);
    let second = e.evaluate(&a);
    assert_eq!(first, Ok(245));
    assert_eq!(first, second);
}

#[test]
fn bind_replaces_and_appends() {
    let mut a = Assignment::new();
    a.bind('x', 1);
    a.bind('y', 2);
    a.bind('x', 3);
    assert_eq!(a.entries(), vec![('x', 3), ('y', 2)]);
    assert_eq!(a.get('y'), Some(2));
    assert_eq!(a.get('z'), None);
}

#[test]
fn powers_of_integers() {
    assert_eq!(2i32.powt(10), 1024);
    assert_eq!((-2i32).powt(31), i32::MIN);
    assert_eq!((-3i32).powt(3), -27);
    assert_eq!(7i32.powt(0), 1);
    assert_eq!(0i32.powt(5), 0);
}
