use cellsheet::decimal::Dec;
use cellsheet::node::Node;
use cellsheet::solve::{solve, FuncTable, MapLookup};

struct EmptyTable;

impl FuncTable for EmptyTable {
    fn call(&self, _name: &str, _args: Vec<Dec>) -> Option<Result<Dec, String>> {
        None
    }
}

/// Sums its arguments under the name `a`.
struct SumTable;

impl FuncTable for SumTable {
    fn call(&self, name: &str, args: Vec<Dec>) -> Option<Result<Dec, String>> {
        if name == "a" {
            let mut acc = rust_decimal::Decimal::ZERO;
            for d in args {
                acc += rust_decimal::Decimal::from_i128_with_scale(d.mantissa, d.scale);
            }
            Some(Ok(Dec {
                mantissa: acc.mantissa(),
                scale: acc.scale(),
            }))
        } else {
            None
        }
    }
}

struct SumTableB;

impl FuncTable for SumTableB {
    fn call(&self, name: &str, args: Vec<Dec>) -> Option<Result<Dec, String>> {
        if name == "b" {
            SumTable.call("a", args)
        } else {
            None
        }
    }
}

struct FailTable;

impl FuncTable for FailTable {
    fn call(&self, name: &str, _args: Vec<Dec>) -> Option<Result<Dec, String>> {
        if name == "a" {
            Some(Err("Foka".to_string()))
        } else {
            None
        }
    }
}

/// A lookup resolving `A1` to zero; the trees of these tests read nothing
/// else.
fn cell_callback() -> MapLookup {
    let mut m = MapLookup::new();
    m.push(0, 0, Dec::new(0, 0));
    m
}

fn cell(col: u32, row: u32) -> Box<Node> {
    Node::Cell(col, row).boxed()
}

fn number(n: i64, s: u32) -> Box<Node> {
    Node::Number(Dec::new(n, s)).boxed()
}

#[test]
fn solve_number() {
    let node = number(1, 0);
    let expected = Dec::new(1, 0);
    let res = solve(&node, &cell_callback(), &EmptyTable).unwrap();
    assert_eq!(res, expected);
}

#[test]
fn solve_add() {
    let node = Node::Add(number(3, 0), number(15, 1)).boxed();
    let expected = Dec::new(45, 1);
    let res = solve(&node, &cell_callback(), &EmptyTable).unwrap();
    assert_eq!(res, expected);
}

#[test]
fn solve_sub() {
    let node = Node::Sub(number(3, 0), number(15, 1)).boxed();
    let expected = Dec::new(15, 1);
    let res = solve(&node, &cell_callback(), &EmptyTable).unwrap();
    assert_eq!(res, expected);
}

#[test]
fn solve_mul() {
    let node = Node::Mul(number(3, 0), number(15, 1)).boxed();
    let expected = Dec::new(45, 1);
    let res = solve(&node, &cell_callback(), &EmptyTable).unwrap();
    assert_eq!(res, expected);
}

#[test]
fn solve_div() {
    let node = Node::Div(number(3, 0), number(15, 1)).boxed();
    let expected = Dec::new(2, 0);
    let res = solve(&node, &cell_callback(), &EmptyTable).unwrap();
    assert_eq!(res, expected);
}

#[test]
fn solve_div_by_zero() {
    let node = Node::Div(number(3, 0), number(0, 0)).boxed();
    let res = solve(&node, &cell_callback(), &EmptyTable);
    assert_eq!(&res.unwrap_err(), "Trying to divide 3 by 0");
}

#[test]
fn solve_nested() {
    let node = Node::Sub(
        Node::Add(number(3, 0), number(15, 1)).boxed(),
        number(2, 0),
    )
    .boxed();
    let expected = Dec::new(25, 1);
    let res = solve(&node, &cell_callback(), &EmptyTable).unwrap();
    assert_eq!(res, expected);
}

#[test]
fn solve_parentheses() {
    let node = Node::Parentheses(number(1, 0)).boxed();
    let expected = Dec::new(1, 0);
    let res = solve(&node, &cell_callback(), &EmptyTable).unwrap();
    assert_eq!(res, expected);
}

#[test]
fn solve_unary_minus() {
    let node = Node::UnaryMinus(number(1, 0)).boxed();
    let expected = Dec::new(-1, 0);
    let res = solve(&node, &cell_callback(), &EmptyTable).unwrap();
    assert_eq!(res, expected);
}

#[test]
fn solve_cell_reference() {
    let mut cell_lookup = MapLookup::new();
    cell_lookup.push(0, 0, Dec::new(1, 0));
    let node = cell(0, 0);
    let expected = Dec::new(1, 0);
    let res = solve(&node, &cell_lookup, &EmptyTable).unwrap();
    assert_eq!(res, expected);
}

#[test]
fn solve_error_cell_reference() {
    let cell_lookup = MapLookup::new();
    let node = cell(0, 0);
    let expected = "A1: Value error".to_string();
    let res = solve(&node, &cell_lookup, &EmptyTable).unwrap_err();
    assert_eq!(res, expected);
}

#[test]
fn solve_function() {
    let node = Node::Function("a".to_string(), vec![number(1, 0), number(2, 0)]).boxed();
    let expected = Dec::new(3, 0);
    let res = solve(&node, &cell_callback(), &SumTable).unwrap();
    assert_eq!(res, expected);
}

#[test]
fn solve_unknown_function() {
    let node = Node::Function("a".to_string(), vec![number(1, 0), number(2, 0)]).boxed();
    let res = solve(&node, &cell_callback(), &SumTableB);
    assert_eq!(res.unwrap_err(), "Function not found: a");
}

#[test]
fn solve_function_error() {
    let node = Node::Function("a".to_string(), vec![number(1, 0), number(2, 0)]).boxed();
    let res = solve(&node, &cell_callback(), &FailTable);
    assert_eq!(res.unwrap_err(), "Foka");
}

#[test]
fn optimize_matches_evaluation() {
    // (2.5 * 4 - 3) / 0.5 folds to the decimal that evaluating it yields.
    let tree = || {
        Node::Div(
            Node::Parentheses(
                Node::Sub(
                    Node::Mul(number(25, 1), number(4, 0)).boxed(),
                    number(3, 0),
                )
                .boxed(),
            )
            .boxed(),
            number(5, 1),
        )
        .boxed()
    };
    let folded = cellsheet::optimize::optimize(tree()).unwrap();
    let evaluated = solve(&tree(), &MapLookup::new(), &EmptyTable).unwrap();
    assert_eq!(*folded, Node::Number(evaluated));
    assert_eq!(evaluated, Dec::new(14, 0));
}

#[test]
fn optimize_and_evaluation_fail_together() {
    let tree = || Node::Div(number(3, 0), Node::Sub(number(2, 0), number(2, 0)).boxed()).boxed();
    assert_eq!(
        cellsheet::optimize::optimize(tree()).unwrap_err(),
        "Division by 0"
    );
    assert_eq!(
        solve(&tree(), &MapLookup::new(), &EmptyTable).unwrap_err(),
        "Trying to divide 3 by 0"
    );
}

#[test]
fn solve_comment_directly() {
    let node = Node::Comment("plain text".to_string()).boxed();
    let res = solve(&node, &MapLookup::new(), &EmptyTable);
    assert_eq!(res.unwrap_err(), "Comment: 'plain text'");
}

#[test]
fn solve_overflow() {
    let big = Dec::new(i64::MAX, 0);
    let node = Node::Mul(
        Node::Mul(Node::Number(big).boxed(), Node::Number(big).boxed()).boxed(),
        Node::Number(big).boxed(),
    )
    .boxed();
    let res = solve(&node, &MapLookup::new(), &EmptyTable);
    assert_eq!(res.unwrap_err(), "Numeric overflow");
}
