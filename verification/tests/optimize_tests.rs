use cellsheet::decimal::Dec;
use cellsheet::node::Node;
use cellsheet::optimize::optimize;

fn cell(col: u32, row: u32) -> Box<Node> {
    Node::Cell(col, row).boxed()
}

fn number(n: i64, s: u32) -> Box<Node> {
    Node::Number(Dec::new(n, s)).boxed()
}

#[test]
fn optimize_number() {
    let node = number(1, 0);
    let expected = number(1, 0);
    let res = optimize(node).unwrap();
    assert_eq!(res, expected);
}

#[test]
fn optimize_cell() {
    let node = cell(0, 0);
    let expected = cell(0, 0);
    let res = optimize(node).unwrap();
    assert_eq!(res, expected);
}

#[test]
fn optimize_parentheses() {
    let node = Node::Parentheses(number(1, 0)).boxed();
    let expected = number(1, 0);
    let res = optimize(node).unwrap();
    assert_eq!(res, expected);
}

#[test]
fn optimize_unary_minus() {
    let node = Node::UnaryMinus(number(1, 0)).boxed();
    let expected = number(-1, 0);
    let res = optimize(node).unwrap();
    assert_eq!(res, expected);
}

#[test]
fn optimize_add() {
    let node = Node::Add(number(35, 1), number(15, 1)).boxed();
    let expected = number(5, 0);
    let res = optimize(node).unwrap();
    assert_eq!(res, expected);
}

#[test]
fn optimize_add_move_number_to_left1() {
    let node = Node::Add(number(35, 1), cell(0, 0)).boxed();
    let expected = Node::Add(number(35, 1), cell(0, 0)).boxed();
    let res = optimize(node).unwrap();
    assert_eq!(res, expected);
}

#[test]
fn optimize_add_move_number_to_left2() {
    let node = Node::Add(cell(0, 0), number(35, 1)).boxed();
    let expected = Node::Add(number(35, 1), cell(0, 0)).boxed();
    let res = optimize(node).unwrap();
    assert_eq!(res, expected);
}

#[test]
fn optimize_add_nested_add1() {
    let node = Node::Add(Node::Add(number(35, 1), cell(0, 0)).boxed(), number(15, 1)).boxed();
    let expected = Node::Add(number(5, 0), cell(0, 0)).boxed();
    let res = optimize(node).unwrap();
    assert_eq!(res, expected);
}

#[test]
fn optimize_add_nested_add2() {
    let node = Node::Add(number(35, 1), Node::Add(number(15, 1), cell(0, 0)).boxed()).boxed();
    let expected = Node::Add(number(5, 0), cell(0, 0)).boxed();
    let res = optimize(node).unwrap();
    assert_eq!(res, expected);
}

#[test]
fn optimize_add_nested_sub1() {
    let node = Node::Add(Node::Sub(number(35, 1), cell(0, 0)).boxed(), number(15, 1)).boxed();
    let expected = Node::Sub(number(5, 0), cell(0, 0)).boxed();
    let res = optimize(node).unwrap();
    assert_eq!(res, expected);
}

#[test]
fn optimize_add_nested_sub2() {
    let node = Node::Add(number(35, 1), Node::Sub(number(15, 1), cell(0, 0)).boxed()).boxed();
    let expected = Node::Sub(number(5, 0), cell(0, 0)).boxed();
    let res = optimize(node).unwrap();
    assert_eq!(res, expected);
}

#[test]
fn optimize_add_left_zero() {
    let node = Node::Add(number(0, 0), cell(0, 0)).boxed();
    let expected = cell(0, 0);
    let res = optimize(node).unwrap();
    assert_eq!(res, expected);
}

#[test]
fn optimize_add_right_zero() {
    let node = Node::Add(cell(0, 0), number(0, 0)).boxed();
    let expected = cell(0, 0);
    let res = optimize(node).unwrap();
    assert_eq!(res, expected);
}

#[test]
fn optimize_sub() {
    let node = Node::Sub(number(35, 1), number(15, 1)).boxed();
    let expected = number(20, 1);
    let res = optimize(node).unwrap();
    assert_eq!(res, expected);
}

#[test]
fn optimize_sub_move_number_to_left1() {
    let node = Node::Sub(number(35, 1), cell(0, 0)).boxed();
    let expected = Node::Sub(number(35, 1), cell(0, 0)).boxed();
    let res = optimize(node).unwrap();
    assert_eq!(res, expected);
}

#[test]
fn optimize_sub_nested_sub1() {
    let node = Node::Sub(Node::Sub(number(35, 1), cell(0, 0)).boxed(), number(15, 1)).boxed();
    let expected = Node::Sub(number(20, 1), cell(0, 0)).boxed();
    let res = optimize(node).unwrap();
    assert_eq!(res, expected);
}

#[test]
fn optimize_sub_nested_sub2() {
    let node = Node::Sub(number(35, 1), Node::Sub(number(15, 1), cell(0, 0)).boxed()).boxed();
    let expected = Node::Add(number(20, 1), cell(0, 0)).boxed();
    let res = optimize(node).unwrap();
    assert_eq!(res, expected);
}

#[test]
fn optimize_sub_nested_add1() {
    let node = Node::Sub(Node::Add(number(35, 1), cell(0, 0)).boxed(), number(15, 1)).boxed();
    let expected = Node::Add(number(20, 1), cell(0, 0)).boxed();
    let res = optimize(node).unwrap();
    assert_eq!(res, expected);
}

#[test]
fn optimize_sub_nested_add2() {
    let node = Node::Add(number(35, 1), Node::Sub(number(15, 1), cell(0, 0)).boxed()).boxed();
    let expected = Node::Sub(number(5, 0), cell(0, 0)).boxed();
    let res = optimize(node).unwrap();
    assert_eq!(res, expected);
}

#[test]
fn optimize_sub_move_number_to_left2() {
    let node = Node::Sub(cell(0, 0), number(35, 1)).boxed();
    let expected = Node::Add(number(-35, 1), cell(0, 0)).boxed();
    let res = optimize(node).unwrap();
    assert_eq!(res, expected);
}

#[test]
fn optimize_sub_left_zero() {
    let node = Node::Sub(number(0, 0), cell(0, 0)).boxed();
    let expected = Node::UnaryMinus(cell(0, 0)).boxed();
    let res = optimize(node).unwrap();
    assert_eq!(res, expected);
}

#[test]
fn optimize_sub_right_zero() {
    let node = Node::Sub(cell(0, 0), number(0, 0)).boxed();
    let expected = cell(0, 0);
    let res = optimize(node).unwrap();
    assert_eq!(res, expected);
}

#[test]
fn optimize_mul() {
    let node = Node::Mul(number(35, 1), number(15, 1)).boxed();
    let expected = number(525, 2);
    let res = optimize(node).unwrap();
    assert_eq!(res, expected);
}

#[test]
fn optimize_mul_move_number_to_left1() {
    let node = Node::Mul(number(35, 1), cell(0, 0)).boxed();
    let expected = Node::Mul(number(35, 1), cell(0, 0)).boxed();
    let res = optimize(node).unwrap();
    assert_eq!(res, expected);
}

#[test]
fn optimize_mul_move_number_to_left2() {
    let node = Node::Mul(cell(0, 0), number(35, 1)).boxed();
    let expected = Node::Mul(number(35, 1), cell(0, 0)).boxed();
    let res = optimize(node).unwrap();
    assert_eq!(res, expected);
}

#[test]
fn optimize_mul_nested_mul1() {
    let node = Node::Mul(Node::Mul(number(3, 0), cell(0, 0)).boxed(), number(2, 0)).boxed();
    let expected = Node::Mul(number(6, 0), cell(0, 0)).boxed();
    let res = optimize(node).unwrap();
    assert_eq!(res, expected);
}

#[test]
fn optimize_mul_nested_mul2() {
    let node = Node::Mul(number(3, 0), Node::Mul(number(2, 0), cell(0, 0)).boxed()).boxed();
    let expected = Node::Mul(number(6, 0), cell(0, 0)).boxed();
    let res = optimize(node).unwrap();
    assert_eq!(res, expected);
}

#[test]
fn optimize_mul_nested_div1() {
    let node = Node::Mul(Node::Div(number(3, 0), cell(0, 0)).boxed(), number(2, 0)).boxed();
    let expected = Node::Div(number(6, 0), cell(0, 0)).boxed();
    let res = optimize(node).unwrap();
    assert_eq!(res, expected);
}

#[test]
fn optimize_mul_nested_div2() {
    let node = Node::Mul(number(3, 0), Node::Div(number(2, 0), cell(0, 0)).boxed()).boxed();
    let expected = Node::Div(number(6, 0), cell(0, 0)).boxed();
    let res = optimize(node).unwrap();
    assert_eq!(res, expected);
}

#[test]
fn optimize_mul_left_one() {
    let node = Node::Mul(number(1, 0), cell(0, 0)).boxed();
    let expected = cell(0, 0);
    let res = optimize(node).unwrap();
    assert_eq!(res, expected);
}

#[test]
fn optimize_mul_right_one() {
    let node = Node::Mul(cell(0, 0), number(1, 0)).boxed();
    let expected = cell(0, 0);
    let res = optimize(node).unwrap();
    assert_eq!(res, expected);
}

#[test]
fn optimize_div() {
    let node = Node::Div(number(6, 0), number(15, 1)).boxed();
    let expected = number(4, 0);
    let res = optimize(node).unwrap();
    assert_eq!(res, expected);
}

#[test]
fn optimize_div_move_number_to_left1() {
    let node = Node::Div(number(2, 0), cell(0, 0)).boxed();
    let expected = Node::Div(number(2, 0), cell(0, 0)).boxed();
    let res = optimize(node).unwrap();
    assert_eq!(res, expected);
}

#[test]
fn optimize_div_move_number_to_left2() {
    let node = Node::Div(cell(0, 0), number(2, 0)).boxed();
    let expected = Node::Mul(number(5, 1), cell(0, 0)).boxed();
    let res = optimize(node).unwrap();
    assert_eq!(res, expected);
}

#[test]
fn optimize_div_nested_div1() {
    let node = Node::Div(Node::Div(number(6, 0), cell(0, 0)).boxed(), number(2, 0)).boxed();
    let expected = Node::Div(number(3, 0), cell(0, 0)).boxed();
    let res = optimize(node).unwrap();
    assert_eq!(res, expected);
}

#[test]
fn optimize_div_nested_div2() {
    let node = Node::Div(number(6, 0), Node::Div(number(2, 0), cell(0, 0)).boxed()).boxed();
    let expected = Node::Mul(number(3, 0), cell(0, 0)).boxed();
    let res = optimize(node).unwrap();
    assert_eq!(res, expected);
}

#[test]
fn optimize_div_nested_mul1() {
    let node = Node::Div(Node::Mul(number(6, 0), cell(0, 0)).boxed(), number(2, 0)).boxed();
    let expected = Node::Mul(number(3, 0), cell(0, 0)).boxed();
    let res = optimize(node).unwrap();
    assert_eq!(res, expected);
}

#[test]
fn optimize_div_nested_mul2() {
    let node = Node::Div(number(6, 0), Node::Mul(number(2, 0), cell(0, 0)).boxed()).boxed();
    let expected = Node::Div(number(3, 0), cell(0, 0)).boxed();
    let res = optimize(node).unwrap();
    assert_eq!(res, expected);
}

#[test]
fn optimize_div_right_one() {
    let node = Node::Div(cell(0, 0), number(1, 0)).boxed();
    let expected = cell(0, 0);
    let res = optimize(node).unwrap();
    assert_eq!(res, expected);
}

#[test]
fn optimize_div_by_zero() {
    let node = Node::Div(number(3, 0), number(0, 0)).boxed();
    let res = optimize(node);
    assert_eq!(res.unwrap_err(), "Division by 0");
}

#[test]
fn optimize_div_nested_div_by_zero1() {
    let node = Node::Div(number(6, 0), Node::Mul(number(0, 0), cell(0, 0)).boxed()).boxed();
    let res = optimize(node);
    assert_eq!(res.unwrap_err(), "Division by 0");
}

#[test]
fn optimize_div_nested_div_by_zero2() {
    let node = Node::Div(number(6, 0), Node::Div(number(0, 0), cell(0, 0)).boxed()).boxed();
    let res = optimize(node);
    assert_eq!(res.unwrap_err(), "Division by 0");
}

#[test]
fn optimize_function() {
    let node = Node::Function(
        "a".to_string(),
        vec![
            Node::Add(number(6, 0), number(15, 1)).boxed(),
            Node::Div(number(4, 0), number(2, 0)).boxed(),
        ],
    )
    .boxed();
    let expected = Node::Function("a".to_string(), vec![number(75, 1), number(2, 0)]).boxed();
    let res = optimize(node).unwrap();
    assert_eq!(res, expected);
}

#[test]
fn optimize_twice_is_stable() {
    let node = Node::Add(Node::Add(number(35, 1), cell(0, 0)).boxed(), number(15, 1)).boxed();
    let once = optimize(node).unwrap();
    let again = optimize(Node::Add(number(5, 0), cell(0, 0)).boxed()).unwrap();
    assert_eq!(once, again);
}

#[test]
fn optimize_add_nested_cancel() {
    // The absorbed literals cancel to zero; a second pass would then drop
    // the addition entirely, so one pass is not idempotent here.
    let node = Node::Add(Node::Add(number(5, 0), cell(0, 0)).boxed(), number(-5, 0)).boxed();
    let once = optimize(node).unwrap();
    let expected = Node::Add(number(0, 0), cell(0, 0)).boxed();
    assert_eq!(once, expected);
    let twice = optimize(once).unwrap();
    assert_eq!(twice, cell(0, 0));
}
