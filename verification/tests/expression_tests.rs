use cellsheet::decimal::Dec;
use cellsheet::expression::Expression;
use cellsheet::node::Node;
use cellsheet::parse::{decode_cell_col, parse};
use cellsheet::tokenize::{tokenize, Tokenizer};

fn reparse(text: &str) -> Box<Node> {
    parse(&mut Tokenizer::from(text).unwrap()).unwrap()
}

#[test]
fn round_trip_mixed_precedence() {
    let first = reparse("1-2+3*4");
    let rendered = first.to_text();
    assert_eq!(rendered, "1-2+3*4");
    let second = reparse(&rendered);
    assert_eq!(first, second);
}

#[test]
fn round_trip_parentheses_kept() {
    let first = reparse("(1-2)/a1*4.50");
    let rendered = first.to_text();
    assert_eq!(rendered, "(1-2)/A1*4.50");
    let second = reparse(&rendered);
    assert_eq!(first, second);
}

#[test]
fn round_trip_function_and_unary() {
    let first = reparse("-(2.1+a1)*max(b2,0.5,-c3)");
    let rendered = first.to_text();
    assert_eq!(rendered, "-(2.1+A1)*max(B2,0.5,-C3)");
    let second = reparse(&rendered);
    assert_eq!(first, second);
}

#[test]
fn expression_from_optimizes() {
    let e = Expression::from("2*3+a1*1", true).unwrap();
    assert_eq!(e.to_text(), "6+A1");
}

#[test]
fn expression_from_keeps_shape_unoptimized() {
    let e = Expression::from("2*3", false).unwrap();
    assert_eq!(e.to_text(), "2*3");
}

#[test]
fn expression_comment() {
    let e = Expression::from("'note with spaces", true).unwrap();
    assert_eq!(e.comment(), Some("note with spaces".to_string()));
    let f = Expression::from("1+2", true).unwrap();
    assert_eq!(f.comment(), None);
}

#[test]
fn expression_dependencies() {
    let e = Expression::from("a1+b2*a1", true).unwrap();
    let deps = e.get_cell_dependencies();
    assert!(deps.contains((0, 0)));
    assert!(deps.contains((1, 1)));
    assert_eq!(deps.len(), 2);
}

#[test]
fn decimal_rendering() {
    assert_eq!(Dec::new(0, 3).to_text(), "0.000");
    assert_eq!(Dec::new(3100, 3).to_text(), "3.100");
    assert_eq!(Dec::new(-35, 1).to_text(), "-3.5");
    assert_eq!(Dec::new(50, 3).to_text(), "0.050");
    assert_eq!(Dec::new(1234, 0).to_text(), "1234");
}

#[test]
fn decimal_normalize_and_equality() {
    assert_eq!(Dec::new(3100, 3).normalize().to_text(), "3.1");
    assert_eq!(Dec::new(0, 5).normalize().to_text(), "0");
    assert_eq!(Dec::new(10, 1), Dec::new(1, 0));
    assert_eq!(Dec::new(100, 2), Dec::new(1, 0));
    assert_ne!(Dec::new(11, 1), Dec::new(1, 0));
}

#[test]
fn tokenize_wide_character_rejected() {
    let res = tokenize("1+\u{e9}");
    assert_eq!(res.unwrap_err(), "1+\u{e9}\n  ^\nUnknown character");
}

#[test]
fn tokenize_midway_quote_rejected() {
    let res = tokenize("1+'c");
    assert_eq!(res.unwrap_err(), "1+'c\n  ^ \nUnknown character");
}

#[test]
fn tokenize_huge_integer_rejected() {
    let text = "79228162514264337593543950336";
    let res = tokenize(text);
    let mut expected = String::new();
    expected.push_str(text);
    expected.push('\n');
    expected.push('^');
    for _ in 1..text.len() {
        expected.push(' ');
    }
    expected.push('\n');
    expected.push_str("Unknown character");
    assert_eq!(res.unwrap_err(), expected);
}

#[test]
fn decode_cell_col_overflow() {
    assert_eq!(decode_cell_col("AAAAAAAA"), None);
    assert_eq!(decode_cell_col(""), None);
}

#[test]
fn long_fraction_is_rounded_like_the_library() {
    // 30 fractional digits: the parser keeps 28, rounding the tail.
    let e = Expression::from("0.123456789012345678901234567891", true).unwrap();
    assert_eq!(e.to_text(), "0.1234567890123456789012345679");
}
