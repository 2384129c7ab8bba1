use cellsheet::decimal::Dec;
use cellsheet::node::{get_cell_dependencies, write_cell, Node};
use cellsheet::refs::RefSet;
use cellsheet::token::Token;

fn cell(col: u32, row: u32) -> Box<Node> {
    Node::Cell(col, row).boxed()
}

fn number(n: i64) -> Box<Node> {
    Node::Number(Dec::new(n, 0)).boxed()
}

fn number_s(n: i64, s: u32) -> Box<Node> {
    Node::Number(Dec::new(n, s)).boxed()
}

#[test]
fn write_cell1() {
    let res = write_cell(0, 0);
    let expected = "A1".to_string();
    assert_eq!(res, expected);
}

#[test]
fn write_cell2() {
    let res = write_cell(25, 5);
    let expected = "Z6".to_string();
    assert_eq!(res, expected);
}

#[test]
fn write_cell3() {
    let res = write_cell(26, 9);
    let expected = "AA10".to_string();
    assert_eq!(res, expected);
}

#[test]
fn node_to_string1() {
    let node = Node::Add(
        Node::Sub(number(1), number(2)).boxed(),
        Node::Mul(number(3), number(4)).boxed(),
    )
    .boxed();
    let expected = "1-2+3*4".to_string();
    let res = node.to_text();
    assert_eq!(res, expected);
}

#[test]
fn node_to_string2() {
    let node = Node::Div(
        Node::Sub(number(1), number(2)).boxed(),
        Node::Mul(number(3), number(4)).boxed(),
    )
    .boxed();
    let expected = "(1-2)/3*4".to_string();
    let res = node.to_text();
    assert_eq!(res, expected);
}

#[test]
fn node_attach_plus_cell() {
    let left_node = cell(0, 0);
    let right_node = cell(1, 0);
    let expected = Node::Add(cell(0, 0), cell(1, 0)).boxed();
    let res = left_node.attach(Token::Plus, right_node);
    assert_eq!(res, expected);
}

#[test]
fn node_attach_plus_add() {
    let left_node = cell(0, 0);
    let right_node = Node::Add(number(1), number(2)).boxed();
    let expected = Node::Add(cell(0, 0), Node::Add(number(1), number(2)).boxed()).boxed();
    let res = left_node.attach(Token::Plus, right_node);
    assert_eq!(res, expected);
}

#[test]
fn node_attach_plus_mul() {
    let left_node = cell(0, 0);
    let right_node = Node::Mul(number(1), number(2)).boxed();
    let expected = Node::Add(cell(0, 0), Node::Mul(number(1), number(2)).boxed()).boxed();
    let res = left_node.attach(Token::Plus, right_node);
    assert_eq!(res, expected);
}

#[test]
fn node_attach_mul_add() {
    let left_node = cell(0, 0);
    let right_node = Node::Add(number(1), number(2)).boxed();
    let expected = Node::Add(Node::Mul(cell(0, 0), number(1)).boxed(), number(2)).boxed();
    let res = left_node.attach(Token::Mul, right_node);
    assert_eq!(res, expected);
}

#[test]
fn node_attach_mul_mul() {
    let left_node = cell(0, 0);
    let right_node = Node::Mul(number(1), number(2)).boxed();
    let expected = Node::Mul(cell(0, 0), Node::Mul(number(1), number(2)).boxed()).boxed();
    let res = left_node.attach(Token::Mul, right_node);
    assert_eq!(res, expected);
}

fn refset(items: &[(u32, u32)]) -> RefSet {
    let mut s = RefSet::new();
    for it in items {
        s.insert(*it);
    }
    s
}

#[test]
fn get_cell_dependencies1() {
    let node = Node::Add(
        cell(0, 0),
        Node::UnaryMinus(
            Node::Mul(
                cell(0, 1),
                Node::Parentheses(Node::Add(cell(0, 2), cell(0, 3)).boxed()).boxed(),
            )
            .boxed(),
        )
        .boxed(),
    )
    .boxed();
    let expected = refset(&[(0, 0), (0, 1), (0, 2), (0, 3)]);
    let res = get_cell_dependencies(&node);
    assert_eq!(res, expected);
}

#[test]
fn get_cell_dependencies2() {
    let node = Node::Add(
        cell(0, 0),
        Node::Add(
            number_s(1, 0),
            Node::Add(cell(0, 0), cell(0, 1)).boxed(),
        )
        .boxed(),
    )
    .boxed();
    let expected = refset(&[(0, 0), (0, 1)]);
    let res = get_cell_dependencies(&node);
    assert_eq!(res, expected);
}

#[test]
fn get_cell_dependencies3() {
    let node = Node::Add(
        cell(0, 0),
        Node::Function(
            "foka".to_string(),
            vec![number_s(1, 0), cell(0, 1), cell(0, 2)],
        )
        .boxed(),
    )
    .boxed();
    let expected = refset(&[(0, 0), (0, 1), (0, 2)]);
    let res = get_cell_dependencies(&node);
    assert_eq!(res, expected);
}
