use cellsheet::cell::{cell_update_response, CellUpdateRequest, CellUpdateResponse, CellValue};
use cellsheet::decimal::Dec;
use cellsheet::sheet::Sheet;
use cellsheet::solve::FuncTable;
use rust_decimal::MathematicalOps;

#[derive(Debug, PartialEq)]
struct TestCellUpdateResponse {
    pub col: u32,
    pub row: u32,
    pub value: Option<String>,
    pub error: Option<String>,
}

impl TestCellUpdateResponse {
    pub fn from(source: CellUpdateResponse) -> Self {
        TestCellUpdateResponse {
            col: source.col,
            row: source.row,
            value: source.value,
            error: source.error,
        }
    }
}

fn decode_cell_col(col: &str) -> u32 {
    const ASCIIA: u32 = 'A' as u32;
    const BASE: u32 = 'Z' as u32 - 'A' as u32 + 1;

    col.chars().fold(0, |acc, c| {
        acc * BASE + c.to_ascii_uppercase() as u32 - ASCIIA + 1
    }) - 1
}

fn decode_cell_row(row: &str) -> u32 {
    row.parse::<u32>().unwrap() - 1
}

fn decode_cell_addr(cell_addr: &str) -> (u32, u32) {
    let cut = cell_addr.chars().position(|c| c.is_ascii_digit()).unwrap();
    (
        decode_cell_col(&cell_addr[..cut]),
        decode_cell_row(&cell_addr[cut..]),
    )
}

fn request(cell_addr: &str, expression: &str) -> CellUpdateRequest {
    let (col, row) = decode_cell_addr(cell_addr);
    CellUpdateRequest {
        col,
        row,
        expression: if !expression.is_empty() {
            Some(expression.to_string())
        } else {
            None
        },
    }
}

fn number(n: i64, s: u32) -> CellValue {
    CellValue::Decimal(Dec::new(n, s))
}

fn error(message: &str) -> CellValue {
    CellValue::Error(message.to_string())
}

fn comment(comment: &str) -> CellValue {
    CellValue::Comment(comment.to_string())
}

fn response(cell_addr: &str, cell_value: CellValue) -> TestCellUpdateResponse {
    TestCellUpdateResponse::from(cell_update_response(
        decode_cell_addr(cell_addr),
        &cell_value,
    ))
}

struct EmptyTable;

impl FuncTable for EmptyTable {
    fn call(&self, _name: &str, _args: Vec<Dec>) -> Option<Result<Dec, String>> {
        None
    }
}

/// A table holding only `sqrt`, with a one-argument arity check.
struct SqrtTable;

fn to_decimal(d: Dec) -> rust_decimal::Decimal {
    rust_decimal::Decimal::from_i128_with_scale(d.mantissa, d.scale)
}

fn from_decimal(d: rust_decimal::Decimal) -> Dec {
    Dec {
        mantissa: d.mantissa(),
        scale: d.scale(),
    }
}

impl FuncTable for SqrtTable {
    fn call(&self, name: &str, args: Vec<Dec>) -> Option<Result<Dec, String>> {
        if name != "sqrt" {
            return None;
        }
        Some(if args.len() == 1 {
            let param = to_decimal(args[0]);
            match param.sqrt() {
                Some(value) => Ok(from_decimal(value)),
                None => Err(format!("Error applying sqrt to {}", param)),
            }
        } else {
            Err(format!("sqrt expected 1 parameter, got {}", args.len()))
        })
    }
}

fn sheet_response<F: FuncTable>(
    functions: F,
    edits: &[(&str, &str)],
    last: (&str, &str),
) -> Vec<TestCellUpdateResponse> {
    let mut sheet = Sheet::new(functions);
    for (a, e) in edits {
        sheet.set_cell_expression(request(a, e));
    }
    sheet
        .set_cell_expression(request(last.0, last.1))
        .into_iter()
        .map(TestCellUpdateResponse::from)
        .collect::<Vec<_>>()
}

#[test]
fn sheet_update_cell1() {
    let res = sheet_response(EmptyTable, &[], ("A1", "1"));
    let expected = vec![response("A1", number(1, 0))];
    assert_eq!(res, expected);
}

#[test]
fn sheet_update_cell2() {
    let res = sheet_response(EmptyTable, &[("A1", "1")], ("A1", "1"));
    let expected = vec![];
    assert_eq!(res, expected);
}

#[test]
fn sheet_update_cell3() {
    let res = sheet_response(EmptyTable, &[], ("A1", ""));
    let expected = vec![];
    assert_eq!(res, expected);
}

#[test]
fn sheet_update_cell4() {
    let res = sheet_response(EmptyTable, &[("A1", "1")], ("A1", ""));
    let expected = vec![];
    assert_eq!(res, expected);
}

#[test]
fn sheet_update_cell5() {
    let res = sheet_response(EmptyTable, &[("A1", "1")], ("A1", "2"));
    let expected = vec![response("A1", number(2, 0))];
    assert_eq!(res, expected);
}

#[test]
fn sheet_circular_references1() {
    let res = sheet_response(EmptyTable, &[], ("A1", "1+A1"));
    let expected = vec![response("A1", error("Circular references detected"))];
    assert_eq!(res, expected);
}

#[test]
fn sheet_circular_references2() {
    let res = sheet_response(
        EmptyTable,
        &[("E5", "E6"), ("F4", "G4"), ("G4", "E4")],
        ("E4", "F4"),
    );
    let expected = vec![response("E4", error("Circular references detected"))];
    assert_eq!(res, expected);
}

#[test]
fn sheet_comment1() {
    let res = sheet_response(EmptyTable, &[], ("A1", "'Comment"));
    let expected = vec![response("A1", comment("Comment"))];
    assert_eq!(res, expected);
}

#[test]
fn sheet_comment2() {
    let res = sheet_response(EmptyTable, &[("A1", "'Comment")], ("A2", "A1"));
    let expected = vec![response("A2", error("A1: Value error"))];
    assert_eq!(res, expected);
}

#[test]
fn sheet_function1() {
    let res = sheet_response(EmptyTable, &[], ("A1", "sqrt(9)"));
    let expected = vec![response("A1", error("Function not found: sqrt"))];
    assert_eq!(res, expected);
}

#[test]
fn sheet_function2() {
    let res = sheet_response(SqrtTable, &[], ("A1", "sqrt(8+1)"));
    let expected = vec![response("A1", number(3, 0))];
    assert_eq!(res, expected);
}

#[test]
fn sheet_function3() {
    let res = sheet_response(SqrtTable, &[], ("A1", "sqrt(-1)"));
    let expected = vec![response("A1", error("Error applying sqrt to -1"))];
    assert_eq!(res, expected);
}

#[test]
fn sheet_function4() {
    let res = sheet_response(SqrtTable, &[], ("A1", "sqrt(9, 1)"));
    let expected = vec![response("A1", error("sqrt expected 1 parameter, got 2"))];
    assert_eq!(res, expected);
}

#[test]
fn sheet_propagate_changes1() {
    let res = sheet_response(
        EmptyTable,
        &[("A1", "1"), ("A2", "A1+1"), ("A3", "A1*3")],
        ("A1", "2"),
    );
    let expected = vec![
        response("A1", number(2, 0)),
        response("A2", number(3, 0)),
        response("A3", number(6, 0)),
    ];
    assert_eq!(res, expected);
}

#[test]
fn sheet_propagate_changes2() {
    let res = sheet_response(
        EmptyTable,
        &[("A1", "1"), ("A2", "A1+1"), ("A3", "A1*3")],
        ("A1", ""),
    );
    let expected = vec![
        response("A2", error("A1: Value error")),
        response("A3", error("A1: Value error")),
    ];
    assert_eq!(res, expected);
}

#[test]
fn sheet_propagate_changes3() {
    let res = sheet_response(
        EmptyTable,
        &[("A1", "1"), ("A2", "A1+1"), ("A3", "A1*3")],
        ("A1", "1+"),
    );
    let expected = vec![
        response("A1", error("1+\n  ^\nUnexpected end of expression")),
        response("A2", error("A1: Value error")),
        response("A3", error("A1: Value error")),
    ];
    assert_eq!(res, expected);
}

#[test]
fn sheet_propagate_changes4() {
    let res = sheet_response(
        EmptyTable,
        &[
            ("A1", "1"),
            ("A2", "A1+1"),
            ("A3", "A1*3"),
            ("A5", "A3+1"),
            ("A4", "A5+1"),
        ],
        ("A1", "2"),
    );
    let expected = vec![
        response("A1", number(2, 0)),
        response("A2", number(3, 0)),
        response("A3", number(6, 0)),
        response("A5", number(7, 0)),
        response("A4", number(8, 0)),
    ];
    assert_eq!(res, expected);
}

/// A diamond of dependencies: A1 feeds B1 and C1, which both feed D1. The
/// final cell is recomputed once, strictly after both of its inputs, so it
/// sees both new values in the same pass.
#[test]
fn sheet_diamond_order() {
    let res = sheet_response(
        EmptyTable,
        &[
            ("A1", "1"),
            ("B1", "A1+1"),
            ("C1", "A1+2"),
            ("D1", "B1+C1"),
        ],
        ("A1", "10"),
    );
    let expected = vec![
        response("A1", number(10, 0)),
        response("B1", number(11, 0)),
        response("C1", number(12, 0)),
        response("D1", number(23, 0)),
    ];
    assert_eq!(res, expected);
}

/// A diamond with a direct shortcut edge from the source to the sink: the
/// sink still lands after both intermediates.
#[test]
fn sheet_diamond_shortcut_order() {
    let res = sheet_response(
        EmptyTable,
        &[
            ("A1", "1"),
            ("B1", "A1+1"),
            ("C1", "A1+2"),
            ("D1", "A1+B1+C1"),
        ],
        ("A1", "10"),
    );
    let expected = vec![
        response("A1", number(10, 0)),
        response("B1", number(11, 0)),
        response("C1", number(12, 0)),
        response("D1", number(33, 0)),
    ];
    assert_eq!(res, expected);
}

/// Replacing a formula cell by a comment prunes its old dependency edges:
/// the old input no longer propagates into it.
#[test]
fn sheet_replace_with_comment() {
    let res = sheet_response(
        EmptyTable,
        &[("A1", "1"), ("A2", "A1+1"), ("A2", "'Note")],
        ("A1", "5"),
    );
    let expected = vec![response("A1", number(5, 0))];
    assert_eq!(res, expected);
}
