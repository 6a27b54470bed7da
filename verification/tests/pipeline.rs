use calculator::enum_types::Token;
use calculator::infix_to_prefix::convert;
use calculator::solver::{self, tokenize};

#[test]
fn test_example() {
    assert_eq!(solver::calc("1 + 2 + 3").unwrap(), 1 + 2 + 3);
    assert_eq!(solver::calc("3 * 5 / 5 - 3").unwrap(), 3 * 5 / 5 - 3);
    assert_eq!(solver::calc("123 * 10").unwrap(), 123 * 10);
    assert_eq!(
        solver::calc("123 * 10 + 12 + 1111 + 909090 + 10 * 10").unwrap(),
        123 * 10 + 12 + 1111 + 909090 + 10 * 10
    );
}

#[test]
fn test_single() {
    assert_eq!(solver::calc("0").unwrap(), 0);
    assert_eq!(solver::calc("9").unwrap(), 9);
    assert_eq!(solver::calc("12").unwrap(), 12);
    assert_eq!(solver::calc("9090").unwrap(), 9090);
}

#[test]
fn test_non_int() {
    assert_eq!(solver::calc("12 / 5").unwrap(), 12 / 5);
    assert_eq!(solver::calc("12 / 5 * 10 / 3").unwrap(), 12 / 5 * 10 / 3);
    assert_eq!(solver::calc("12 / 5 * 10 / 3 + 1 - 2").unwrap(), 12 / 5 * 10 / 3 + 1 - 2);
    assert_eq!(solver::calc("9500 / 13 / 41").unwrap(), 9500 / 13 / 41);
}

#[test]
fn test_empty() {
    assert_eq!(solver::calc("").unwrap(), 0);
}

#[test]
fn test_tokenize() {
    assert_eq!(tokenize("5").unwrap(), vec![Token::Digit(5)]);
    assert_eq!(tokenize("25").unwrap(), vec![Token::Digit(25)]);
    assert_eq!(tokenize("123").unwrap(), vec![Token::Digit(123)]);
}

#[test]
fn test_convert() {
    assert_eq!(convert("12 + 34 + 56 + 0").unwrap(), "+ + +12 34 56 0".to_string());
}
