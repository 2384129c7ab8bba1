use cellsheet::decimal::Dec;
use cellsheet::token::{Token, TokenInfo};
use cellsheet::tokenize::{tokenize, Tokenizer};

fn assert_eq_infos(actual: Vec<TokenInfo>, expected: Vec<TokenInfo>) {
    assert!(
        (actual.len() == expected.len()) && !(0..actual.len()).any(|i| actual[i] != expected[i])
    );
}

#[test]
fn tokenize_basic() {
    let res = tokenize("2.1+3 * 4").unwrap();
    let expected = vec![
        TokenInfo::new(Token::Number(Dec::new(21, 1)), 0, 3),
        TokenInfo::new(Token::Plus, 3, 1),
        TokenInfo::new(Token::Number(Dec::new(3, 0)), 4, 1),
        TokenInfo::new(Token::Mul, 6, 1),
        TokenInfo::new(Token::Number(Dec::new(4, 0)), 8, 1),
    ];
    assert_eq_infos(res, expected);
}

#[test]
fn tokenize_cell_refs() {
    let res = tokenize("$aab1 / c$12 - a1").unwrap();
    let expected = vec![
        TokenInfo::new(Token::Cell("aab".to_string(), "1".to_string()), 0, 5),
        TokenInfo::new(Token::Div, 6, 1),
        TokenInfo::new(Token::Cell("c".to_string(), "12".to_string()), 8, 4),
        TokenInfo::new(Token::Minus, 13, 1),
        TokenInfo::new(Token::Cell("a".to_string(), "1".to_string()), 15, 2),
    ];
    assert_eq!(res, expected);
}

#[test]
fn tokenize_symbols() {
    let res = tokenize("aab / c").unwrap();
    let expected = vec![
        TokenInfo::new(Token::Symbol("aab".to_string()), 0, 3),
        TokenInfo::new(Token::Div, 4, 1),
        TokenInfo::new(Token::Symbol("c".to_string()), 6, 1),
    ];
    assert_eq_infos(res, expected);
}

#[test]
fn tokenize_parentheses() {
    let res = tokenize("(2.1 + a) * 3").unwrap();
    let expected = vec![
        TokenInfo::new(Token::LPar, 0, 1),
        TokenInfo::new(Token::Number(Dec::new(21, 1)), 1, 3),
        TokenInfo::new(Token::Plus, 5, 1),
        TokenInfo::new(Token::Symbol("a".to_string()), 7, 1),
        TokenInfo::new(Token::RPar, 8, 1),
        TokenInfo::new(Token::Mul, 10, 1),
        TokenInfo::new(Token::Number(Dec::new(3, 0)), 12, 1),
    ];
    assert_eq_infos(res, expected);
}

#[test]
fn tokenize_function() {
    let res = tokenize("1+sqrt(a, b + 1, -1)").unwrap();
    let expected = vec![
        TokenInfo::new(Token::Number(Dec::new(1, 0)), 0, 1),
        TokenInfo::new(Token::Plus, 1, 1),
        TokenInfo::new(Token::Symbol("sqrt".to_string()), 2, 4),
        TokenInfo::new(Token::LPar, 6, 1),
        TokenInfo::new(Token::Symbol("a".to_string()), 7, 1),
        TokenInfo::new(Token::Comma, 8, 1),
        TokenInfo::new(Token::Symbol("b".to_string()), 10, 1),
        TokenInfo::new(Token::Plus, 12, 1),
        TokenInfo::new(Token::Number(Dec::new(1, 0)), 14, 1),
        TokenInfo::new(Token::Comma, 15, 1),
        TokenInfo::new(Token::Minus, 17, 1),
        TokenInfo::new(Token::Number(Dec::new(1, 0)), 18, 1),
        TokenInfo::new(Token::RPar, 19, 1),
    ];
    assert_eq_infos(res, expected);
}

#[test]
fn tokenize_empty_string() {
    let res = tokenize("").unwrap();
    let expected = vec![];
    assert_eq!(res, expected);
}

#[test]
fn tokenize_unknown_character() {
    let res = tokenize("a ^ c");
    assert_eq!(res.unwrap_err(), "a ^ c\n  ^  \nUnknown character");
}

fn token(number: usize) -> TokenInfo {
    TokenInfo::new(Token::Number(Dec::new(number as i64, 0)), number, 1)
}

#[test]
fn tokenizer_peek() {
    let tokens = vec![token(1), token(2)];
    let mut tokenizer = Tokenizer {
        expression: "".to_string(),
        tokens,
        position: 0,
    };

    let peek1 = tokenizer.peek();
    assert_eq!(*peek1.unwrap(), token(1).token);
    let peek2 = tokenizer.peek();
    assert_eq!(*peek2.unwrap(), token(1).token);
    tokenizer.advance();

    let peek3 = tokenizer.peek();
    assert_eq!(*peek3.unwrap(), token(2).token);
    let peek4 = tokenizer.peek();
    assert_eq!(*peek4.unwrap(), token(2).token);
    tokenizer.advance();

    let peek5 = tokenizer.peek();
    assert_eq!(peek5, None);
    tokenizer.advance();
}

#[test]
fn tokenizer_from_empty_string() {
    let tokenizer = Tokenizer::from("").unwrap();
    assert_eq!(tokenizer.peek(), None);
}
