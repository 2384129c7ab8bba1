//! A cell's stored state and the request/response records of a cell edit.

use vstd::prelude::*;

use crate::decimal::{dec_text, Dec};
use crate::expression::Expression;
use crate::refs::RefSet;

verus! {

/// A cell's current output: not yet computed, a decimal, a comment's text,
/// or an error message.
#[derive(Debug)]
pub enum CellValue {
    CalcPending,
    Decimal(Dec),
    Comment(String),
    Error(String),
}

/// The mathematical shape of a cell's output.
pub enum CellValueS {
    CalcPending,
    Decimal(Dec),
    Comment(Seq<char>),
    Error(Seq<char>),
}

impl View for CellValue {
    type V = CellValueS;

    open spec fn view(&self) -> CellValueS {
        match self {
            CellValue::CalcPending => CellValueS::CalcPending,
            CellValue::Decimal(d) => CellValueS::Decimal(*d),
            CellValue::Comment(t) => CellValueS::Comment(t@),
            CellValue::Error(t) => CellValueS::Error(t@),
        }
    }
}

/// Output equality: decimals compare by value, text by its characters. This
/// is what decides whether a recomputed cell has changed.
pub open spec fn cv_eq(a: CellValueS, b: CellValueS) -> bool {
    match (a, b) {
        (CellValueS::CalcPending, CellValueS::CalcPending) => true,
        (CellValueS::Decimal(x), CellValueS::Decimal(y)) => x.norm_spec() == y.norm_spec(),
        (CellValueS::Comment(x), CellValueS::Comment(y)) => x == y,
        (CellValueS::Error(x), CellValueS::Error(y)) => x == y,
        _ => false,
    }
}

/// A well-formed output holds a representable decimal.
pub open spec fn cv_wf(v: CellValueS) -> bool {
    v matches CellValueS::Decimal(d) ==> d.wf()
}

impl PartialEq for CellValue {
    fn eq(&self, other: &CellValue) -> (r: bool) {
        match (self, other) {
            (CellValue::CalcPending, CellValue::CalcPending) => true,
            (CellValue::Decimal(x), CellValue::Decimal(y)) => *x == *y,
            (CellValue::Comment(x), CellValue::Comment(y)) => *x == *y,
            (CellValue::Error(x), CellValue::Error(y)) => *x == *y,
            _ => false,
        }
    }
}

impl vstd::std_specs::cmp::PartialEqSpecImpl for CellValue {
    open spec fn obeys_eq_spec() -> bool {
        true
    }

    open spec fn eq_spec(&self, other: &CellValue) -> bool {
        cv_eq(self@, other@)
    }
}

impl Clone for CellValue {
    fn clone(&self) -> (r: CellValue)
        ensures
            r == *self,
    {
        match self {
            CellValue::CalcPending => CellValue::CalcPending,
            CellValue::Decimal(d) => CellValue::Decimal(*d),
            CellValue::Comment(t) => CellValue::Comment(t.clone()),
            CellValue::Error(t) => CellValue::Error(t.clone()),
        }
    }
}

impl CellValue {
    /// The reported value text: the normalized decimal, or the comment.
    pub fn to_value(&self) -> (r: Option<String>)
        requires
            cv_wf(self@),
        ensures
            match self@ {
                CellValueS::Decimal(d) => r matches Some(s) && s@ == dec_text(d.norm_spec()),
                CellValueS::Comment(c) => r matches Some(s) && s@ == c,
                _ => r is None,
            },
    {
        match self {
            CellValue::Decimal(decimal) => Some(decimal.normalize().to_text()),
            CellValue::Comment(comment) => Some(comment.clone()),
            _ => None,
        }
    }

    /// The reported error text, for an error output.
    pub fn to_error(&self) -> (r: Option<String>)
        ensures
            match self@ {
                CellValueS::Error(e) => r matches Some(s) && s@ == e,
                _ => r is None,
            },
    {
        match self {
            CellValue::Error(error) => Some(error.clone()),
            _ => None,
        }
    }
}

/// A stored cell: its compiled formula, if the last edit compiled and passed
/// the cycle check, and its current output.
pub struct Cell {
    pub expression: Option<Expression>,
    pub value: CellValue,
}

impl Cell {
    pub open spec fn wf(self) -> bool {
        &&& self.expression matches Some(e) ==> e.wf()
        &&& cv_wf(self.value@)
    }

    /// The spec-level dependency set: empty without a formula.
    pub open spec fn deps(self) -> Set<(u32, u32)> {
        match self.expression {
            Some(e) => e.cell_dependencies@,
            None => Set::empty(),
        }
    }

    /// The formula's referenced cells, if the cell holds a formula.
    pub fn get_dependencies(&self) -> (r: Option<RefSet>)
        ensures
            match self.expression {
                Some(e) => r matches Some(s) && s.items@ == e.cell_dependencies.items@,
                None => r is None,
            },
    {
        match &self.expression {
            Some(expression) => Some(expression.get_cell_dependencies().clone()),
            None => None,
        }
    }
}

/// One cell edit: the coordinate and the new expression text, absent for a
/// deletion.
pub struct CellUpdateRequest {
    pub col: u32,
    pub row: u32,
    pub expression: Option<String>,
}

/// One reported change: the coordinate, the value text for a decimal or
/// comment output, and the error text for an error output.
#[derive(Debug)]
pub struct CellUpdateResponse {
    pub col: u32,
    pub row: u32,
    pub value: Option<String>,
    pub error: Option<String>,
}

/// The mathematical shape of one reported change.
pub struct RespS {
    pub col: u32,
    pub row: u32,
    pub value: Option<Seq<char>>,
    pub error: Option<Seq<char>>,
}

impl View for CellUpdateResponse {
    type V = RespS;

    open spec fn view(&self) -> RespS {
        RespS {
            col: self.col,
            row: self.row,
            value: match &self.value {
                Some(s) => Some(s@),
                None => None,
            },
            error: match &self.error {
                Some(s) => Some(s@),
                None => None,
            },
        }
    }
}

/// The response a cell's output is reported as.
pub open spec fn resp_of(cell_addr: (u32, u32), v: CellValueS) -> RespS {
    RespS {
        col: cell_addr.0,
        row: cell_addr.1,
        value: match v {
            CellValueS::Decimal(d) => Some(dec_text(d.norm_spec())),
            CellValueS::Comment(c) => Some(c),
            _ => None,
        },
        error: match v {
            CellValueS::Error(e) => Some(e),
            _ => None,
        },
    }
}

/// The response entry for one cell's output.
pub fn cell_update_response(cell_addr: (u32, u32), cell_value: &CellValue) -> (r:
    CellUpdateResponse)
    requires
        cv_wf(cell_value@),
    ensures
        r@ == resp_of(cell_addr, cell_value@),
        r.col == cell_addr.0,
        r.row == cell_addr.1,
        match cell_value@ {
            CellValueS::Decimal(d) => r.value matches Some(s) && s@ == dec_text(d.norm_spec())
                && r.error is None,
            CellValueS::Comment(c) => r.value matches Some(s) && s@ == c && r.error is None,
            CellValueS::Error(e) => r.error matches Some(s) && s@ == e && r.value is None,
            CellValueS::CalcPending => r.value is None && r.error is None,
        },
{
    CellUpdateResponse {
        col: cell_addr.0,
        row: cell_addr.1,
        value: cell_value.to_value(),
        error: cell_value.to_error(),
    }
}

} // verus!
