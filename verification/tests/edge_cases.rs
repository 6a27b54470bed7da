use calculator::enum_types::{EvalError, Operator, Token};
use calculator::infix_to_prefix::{convert, part, precedence, Part};
use calculator::scanner::Scanner;
use calculator::solver::{self, operate, tokenize, Expr};

#[test]
fn convert_round_trip_shape() {
    assert_eq!(convert("12 + 34 + 56").unwrap(), "+ +12 34 56".to_string());
}

#[test]
fn convert_single_number() {
    assert_eq!(convert("9090").unwrap(), "9090".to_string());
    assert_eq!(convert("").unwrap(), "".to_string());
}

#[test]
fn convert_rejects_stray_characters() {
    assert_eq!(convert("1 a 2"), Err(EvalError::UnexpectedCharacter));
    assert_eq!(tokenize("x"), Err(EvalError::UnexpectedCharacter));
    assert_eq!(solver::calc("1 # 2"), Err(EvalError::UnexpectedCharacter));
}

#[test]
fn division_by_zero_is_an_error() {
    assert_eq!(solver::calc("5 / 0"), Err(EvalError::DivisionByZero));
}

#[test]
fn division_truncates_toward_zero() {
    assert_eq!(solver::calc("1 - 7 / 2").unwrap(), 1 - 7 / 2);
    assert_eq!(operate(Operator::Divide, -7, 2), Ok(-3));
    assert_eq!(operate(Operator::Divide, 7, -2), Ok(-3));
    assert_eq!(operate(Operator::Divide, -7, -2), Ok(3));
}

#[test]
fn division_overflow_at_the_edge() {
    assert_eq!(operate(Operator::Divide, i32::MIN, -1), Err(EvalError::Overflow));
    assert_eq!(operate(Operator::Divide, i32::MIN, 1), Ok(i32::MIN));
}

#[test]
fn addition_overflow_is_reported() {
    assert_eq!(solver::calc("2147483647 + 1"), Err(EvalError::Overflow));
    assert_eq!(operate(Operator::Multiply, 65536, 65536), Err(EvalError::Overflow));
}

#[test]
fn oversized_literal_is_reported() {
    assert_eq!(solver::calc("9999999999"), Err(EvalError::Overflow));
    assert_eq!(tokenize("2147483648"), Err(EvalError::Overflow));
    assert_eq!(tokenize("2147483647").unwrap(), vec![Token::Digit(i32::MAX)]);
}

#[test]
fn exponent_binds_weakest() {
    assert_eq!(solver::calc("2 ^ 3 + 4").unwrap(), 128);
}

#[test]
fn multiplication_binds_tighter_than_addition() {
    assert_eq!(solver::calc("2 + 3 * 4").unwrap(), 2 + 3 * 4);
    assert_eq!(solver::calc("2 * 3 + 4").unwrap(), 2 * 3 + 4);
}

#[test]
fn exponentiation() {
    assert_eq!(solver::calc("2 ^ 3").unwrap(), 8);
    assert_eq!(operate(Operator::Exp, 2, 10), Ok(1024));
    assert_eq!(operate(Operator::Exp, 0, 0), Ok(1));
    assert_eq!(operate(Operator::Exp, 0, 7), Ok(0));
    assert_eq!(operate(Operator::Exp, 1, 1000000), Ok(1));
    assert_eq!(operate(Operator::Exp, -1, 5), Ok(-1));
    assert_eq!(operate(Operator::Exp, -1, 6), Ok(1));
    assert_eq!(operate(Operator::Exp, -2, 31), Ok(i32::MIN));
    assert_eq!(operate(Operator::Exp, 2, 31), Err(EvalError::Overflow));
    assert_eq!(operate(Operator::Exp, 2, 1000000000), Err(EvalError::Overflow));
    assert_eq!(operate(Operator::Exp, 2, -1), Err(EvalError::MalformedExpression));
}

#[test]
fn malformed_sequences() {
    assert_eq!(solver::calc("12 +"), Err(EvalError::MalformedExpression));
    let no_op = Expr(vec![Token::Digit(1), Token::Digit(2)]);
    assert_eq!(no_op.solve(), Err(EvalError::MalformedExpression));
    let short = Expr(vec![Token::Op(Operator::Add), Token::Digit(1)]);
    assert_eq!(short.solve(), Err(EvalError::MalformedExpression));
    let lone_op = Expr(vec![Token::Op(Operator::Add)]);
    assert_eq!(lone_op.solve(), Err(EvalError::MalformedExpression));
    let neg_exp = Expr(vec![Token::Op(Operator::Exp), Token::Digit(2), Token::Digit(-3)]);
    assert_eq!(neg_exp.solve(), Err(EvalError::MalformedExpression));
}

#[test]
fn solve_reduces_rightmost_operator_first() {
    let expr = Expr(vec![
        Token::Op(Operator::Subtract),
        Token::Op(Operator::Divide),
        Token::Op(Operator::Multiply),
        Token::Digit(3),
        Token::Digit(5),
        Token::Digit(5),
        Token::Digit(3),
    ]);
    assert_eq!(expr.solve(), Ok(0));
}

#[test]
fn scanner_operations() {
    let mut sc = Scanner::new(vec!['a', 'b', 'c']);
    assert_eq!(sc.len(), 3);
    assert_eq!(sc.peek(), Ok('b'));
    assert_eq!(sc.advance(), Ok('a'));
    assert_eq!(sc.advance_from_back(), Ok('c'));
    assert_eq!(sc.peek(), Err(EvalError::AtEnd));
    assert_eq!(sc.advance(), Ok('b'));
    assert_eq!(sc.advance(), Err(EvalError::EndOfInput));
    assert_eq!(sc.advance_from_back(), Err(EvalError::EndOfInput));
    assert_eq!(sc.len(), 0);
}

#[test]
fn character_classification() {
    assert_eq!(part(' '), Part::Whitespace);
    assert_eq!(part('+'), Part::Operator);
    assert_eq!(part('^'), Part::Operator);
    assert_eq!(part('7'), Part::Number);
    assert_eq!(part('q'), Part::Number);
    assert_eq!(precedence('+'), 1);
    assert_eq!(precedence('-'), 1);
    assert_eq!(precedence('*'), 2);
    assert_eq!(precedence('/'), 2);
    assert_eq!(precedence('^'), 0);
}
