use cellsheet::decimal::Dec;
use cellsheet::node::Node;
use cellsheet::parse::{decode_cell_col, decode_cell_row, parse};
use cellsheet::tokenize::Tokenizer;

fn test_parse(e: &str) -> Result<Box<Node>, String> {
    parse(&mut Tokenizer::from(e)?)
}

fn cell(col: u32, row: u32) -> Box<Node> {
    Node::Cell(col, row).boxed()
}

fn number(n: i64, s: u32) -> Box<Node> {
    Node::Number(Dec::new(n, s)).boxed()
}

#[test]
fn decode_cell_col1() {
    let res = decode_cell_col("A");
    let expected = 0;
    assert_eq!(res, Some(expected));
}

#[test]
fn decode_cell_col2() {
    let res = decode_cell_col("Z");
    let expected = 25;
    assert_eq!(res, Some(expected));
}

#[test]
fn decode_cell_col3() {
    let res = decode_cell_col("AA");
    let expected = 26;
    assert_eq!(res, Some(expected));
}

#[test]
fn decode_cell_row1() {
    let res = decode_cell_row("1");
    let expected = 0;
    assert_eq!(res, Some(expected));
}

#[test]
fn decode_cell_row2() {
    let res = decode_cell_row("25");
    let expected = 24;
    assert_eq!(res, Some(expected));
}

#[test]
fn parse_number() {
    let res = test_parse("2.1").unwrap();
    let expected = number(21, 1);
    assert_eq!(res, expected);
}

#[test]
fn parse_cell() {
    let res = test_parse("B2").unwrap();
    let expected = cell(1, 1);
    assert_eq!(res, expected);
}

#[test]
fn parse_expression1() {
    let res = test_parse("2.1 + a1 * 3").unwrap();
    let expected = Node::Add(number(21, 1), Node::Mul(cell(0, 0), number(3, 0)).boxed()).boxed();
    assert_eq!(res, expected);
}

#[test]
fn parse_expression2() {
    let res = test_parse("2.1 * a1 + 3").unwrap();
    let expected = Box::new(Node::Add(
        Node::Mul(number(21, 1), cell(0, 0)).boxed(),
        number(3, 0),
    ));
    assert_eq!(res, expected);
}

#[test]
fn parse_expression3() {
    let res = test_parse("(2.1 + a1) * 3").unwrap();
    let expected = Node::Mul(
        Node::Parentheses(Node::Add(number(21, 1), cell(0, 0)).boxed()).boxed(),
        number(3, 0),
    )
    .boxed();
    assert_eq!(res, expected);
}

#[test]
fn parse_expression4() {
    let res = test_parse("-(2.1 + a1) * 3").unwrap();
    let expected = Node::Mul(
        Node::UnaryMinus(
            Node::Parentheses(Node::Add(number(21, 1), cell(0, 0)).boxed()).boxed(),
        )
        .boxed(),
        number(3, 0),
    )
    .boxed();
    assert_eq!(res, expected);
}

#[test]
fn parse_expression5() {
    let res = test_parse("1+2*3-4").unwrap();
    let expected = Node::Add(
        number(1, 0),
        Node::Sub(
            Node::Mul(number(2, 0), number(3, 0)).boxed(),
            number(4, 0),
        )
        .boxed(),
    )
    .boxed();
    assert_eq!(res, expected);
}

#[test]
fn parse_expression6() {
    let res = test_parse("1+2-3+4").unwrap();
    let expected = Node::Add(
        number(1, 0),
        Node::Sub(
            number(2, 0),
            Node::Add(number(3, 0), number(4, 0)).boxed(),
        )
        .boxed(),
    )
    .boxed();
    assert_eq!(res, expected);
}

#[test]
fn parse_expression7() {
    let res = test_parse("1*2+3/4").unwrap();
    let expected = Node::Add(
        Node::Mul(number(1, 0), number(2, 0)).boxed(),
        Node::Div(number(3, 0), number(4, 0)).boxed(),
    )
    .boxed();
    assert_eq!(res, expected);
}

#[test]
fn parse_expression8() {
    let res = test_parse("-(1)*2+3").unwrap();
    let expected = Node::Add(
        Node::Mul(
            Node::UnaryMinus(Node::Parentheses(number(1, 0)).boxed()).boxed(),
            number(2, 0),
        )
        .boxed(),
        number(3, 0),
    )
    .boxed();
    assert_eq!(res, expected);
}

#[test]
fn parse_function1() {
    let res = test_parse("a(1+2,3)").unwrap();
    let expected = Node::Function(
        "a".to_string(),
        vec![
            Node::Add(number(1, 0), number(2, 0)).boxed(),
            number(3, 0),
        ],
    )
    .boxed();
    assert_eq!(res, expected);
}

#[test]
fn parse_function2() {
    let res = test_parse("A(1+2,3)").unwrap();
    let expected = Node::Function(
        "a".to_string(),
        vec![
            Node::Add(number(1, 0), number(2, 0)).boxed(),
            number(3, 0),
        ],
    )
    .boxed();
    assert_eq!(res, expected);
}

#[test]
fn parse_error_expression1() {
    let res = test_parse("(a() + 1.0)) * 2");
    let expected = "(a() + 1.0)) * 2\n           ^    \nUnexpected token";
    assert_eq!(res.unwrap_err(), expected);
}

#[test]
fn parse_error_expression2() {
    let res = test_parse("(a + 1.0)) * 2");
    let expected = "(a + 1.0)) * 2\n   ^          \nExpected opening parenthesis";
    assert_eq!(res.unwrap_err(), expected);
}

#[test]
fn parse_unknown_character() {
    let res = test_parse("a ^ c");
    assert_eq!(res.unwrap_err(), "a ^ c\n  ^  \nUnknown character");
}
