//! The evaluator: a tree, a cell-value lookup and a function table to a
//! decimal or a message. Cell-lookup failures are reported as the referring
//! cell's address with the original cause discarded.

use vstd::prelude::*;

use crate::decimal::{
    add_of, dec_add, dec_div, dec_mul, dec_sub, dec_text, div_of, mul_of, neg_spec, sub_of, Dec,
};
use crate::node::{args_views, cell_text, node_wf, Node, NodeS};
use crate::optimize::overflow_msg;

verus! {

/// Resolves a cell coordinate to its current decimal value. The sheet
/// implements this twice: over its committed state, and over the scratch
/// overlay a propagation pass keeps.
pub trait CellLookup {
    /// The lookup's own validity: what `lookup` may assume of `self`.
    spec fn inv(&self) -> bool;

    /// The value the lookup resolves a coordinate to, if any.
    spec fn spec_lookup(&self, col: u32, row: u32) -> Option<Dec>;

    /// Resolves a coordinate; the error text carries no meaning to the
    /// evaluator, which replaces it.
    fn lookup(&self, col: u32, row: u32) -> (r: Result<Dec, String>)
        requires
            self.inv(),
        ensures
            r is Ok <==> self.spec_lookup(col, row) is Some,
            r matches Ok(d) ==> self.spec_lookup(col, row) == Some(d) && d.wf(),
    ;
}

/// The named numeric functions, an external collaborator: a lookup from
/// lowercase name to a pure, arity-checked function. An implementation
/// decides every result itself; all the evaluator relies on is that a
/// returned decimal is representable.
pub trait FuncTable {
    /// Calls the named function, or reports that the table lacks it. The
    /// evaluator hands it representable arguments in normal form.
    fn call(&self, name: &str, args: Vec<Dec>) -> (r: Option<Result<Dec, String>>)
        requires
            forall|k: int| 0 <= k < args@.len() ==> (#[trigger] args@[k]).wf() && args@[k].is_normal(),
        ensures
            r matches Some(x) && x matches Ok(d) ==> d.wf(),
    ;
}

/// A fixed table of cell values, for evaluating a tree against chosen cells.
pub struct MapLookup {
    pub entries: Vec<(u32, u32, Dec)>,
}

pub open spec fn find_entry(s: Seq<(u32, u32, Dec)>, col: u32, row: u32) -> Option<Dec>
    decreases s.len(),
{
    if s.len() == 0 {
        None
    } else if s[0].0 == col && s[0].1 == row {
        Some(s[0].2)
    } else {
        find_entry(s.subrange(1, s.len() as int), col, row)
    }
}

impl MapLookup {
    pub open spec fn wf(self) -> bool {
        forall|i: int| 0 <= i < self.entries@.len() ==> (#[trigger] self.entries@[i]).2.wf()
    }

    pub fn new() -> (r: MapLookup)
        ensures
            r.entries@.len() == 0,
            r.wf(),
    {
        MapLookup { entries: Vec::new() }
    }

    /// Adds a cell value at the end; earlier entries shadow later ones.
    pub fn push(&mut self, col: u32, row: u32, value: Dec)
        requires
            old(self).wf(),
            value.wf(),
        ensures
            final(self).wf(),
            final(self).entries@ == old(self).entries@.push((col, row, value)),
    {
        self.entries.push((col, row, value));
    }
}

impl CellLookup for MapLookup {
    open spec fn inv(&self) -> bool {
        self.wf()
    }

    open spec fn spec_lookup(&self, col: u32, row: u32) -> Option<Dec> {
        find_entry(self.entries@, col, row)
    }

    fn lookup(&self, col: u32, row: u32) -> (r: Result<Dec, String>) {
        let n = self.entries.len();
        let mut i: usize = 0;
        proof {
            assert(self.entries@.subrange(0, n as int) =~= self.entries@);
        }
        while i < n
            invariant
                i <= n == self.entries@.len(),
                self.wf(),
                find_entry(self.entries@, col, row) == find_entry(
                    self.entries@.subrange(i as int, n as int),
                    col,
                    row,
                ),
            decreases n - i,
        {
            let e = self.entries[i];
            proof {
                assert(self.entries@.subrange(i as int, n as int)[0] == self.entries@[i as int]);
                assert(self.entries@.subrange(i as int, n as int).subrange(
                    1,
                    (n - i) as int,
                ) =~= self.entries@.subrange(i + 1, n as int));
            }
            if e.0 == col && e.1 == row {
                return Ok(e.2);
            }
            i = i + 1;
        }
        proof {
            assert(self.entries@.subrange(n as int, n as int).len() == 0);
        }
        Err(String::new())
    }
}

// ---------------------------------------------------------------------------
// What evaluation yields, for trees without function calls. A tree with a
// function call takes its result from the table, which promises nothing.
// ---------------------------------------------------------------------------
/// Whether the tree holds a function call anywhere.
pub open spec fn has_function(n: NodeS) -> bool
    decreases n, 0nat,
{
    match n {
        NodeS::Add(l, r) => has_function(*l) || has_function(*r),
        NodeS::Sub(l, r) => has_function(*l) || has_function(*r),
        NodeS::Mul(l, r) => has_function(*l) || has_function(*r),
        NodeS::Div(l, r) => has_function(*l) || has_function(*r),
        NodeS::Parentheses(x) => has_function(*x),
        NodeS::UnaryMinus(x) => has_function(*x),
        NodeS::Function(_, _) => true,
        _ => false,
    }
}

pub open spec fn comment_err_msg(c: Seq<char>) -> Seq<char> {
    "Comment: '"@ + c + "'"@
}

pub open spec fn div_by_zero_err_msg(numerator: Dec) -> Seq<char> {
    "Trying to divide "@ + dec_text(numerator) + " by 0"@
}

pub open spec fn cell_value_err_msg(col: u32, row: u32) -> Seq<char> {
    cell_text(col, row) + ": Value error"@
}

pub open spec fn fn_not_found_msg(name: Seq<char>) -> Seq<char> {
    "Function not found: "@ + name
}

/// How a table response finishes a function call: an absent entry earns the
/// not-found error, a present one is forwarded verbatim.
pub open spec fn finished_call(
    name: Seq<char>,
    response: Option<Result<Dec, String>>,
    r: Result<Dec, String>,
) -> bool {
    match response {
        Some(x) => r == x,
        None => r matches Err(e) && e@ == fn_not_found_msg(name),
    }
}

/// Turns the table's response for a named function into the evaluation
/// result.
pub fn finish_function_call(name: &str, response: Option<Result<Dec, String>>) -> (r: Result<
    Dec,
    String,
>)
    ensures
        finished_call(name@, response, r),
{
    match response {
        Some(res) => res,
        None => {
            let mut s = String::new();
            s.append("Function not found: ");
            s.append(name);
            proof {
                assert(s@ =~= fn_not_found_msg(name@));
            }
            Err(s)
        },
    }
}

/// The abstract cell environment a lookup resolves: each resolvable
/// coordinate mapped to its decimal.
pub open spec fn env_of<L: CellLookup>(lookup: &L) -> Map<(u32, u32), Dec> {
    Map::new(
        |k: (u32, u32)| lookup.spec_lookup(k.0, k.1) is Some,
        |k: (u32, u32)| lookup.spec_lookup(k.0, k.1)->0,
    )
}

/// Evaluation of a function-free tree against an abstract environment; it
/// matches `eval_spec` on the lookup's environment.
pub open spec fn eval_env(n: NodeS, env: Map<(u32, u32), Dec>) -> Result<Dec, Seq<char>>
    decreases n, 0nat,
{
    match n {
        NodeS::Comment(c) => Err(comment_err_msg(c)),
        NodeS::Add(l, r) => match eval_env(*l, env) {
            Ok(lv) => match eval_env(*r, env) {
                Ok(rv) => match add_of(lv, rv) {
                    Some(d) => Ok(d),
                    None => Err(overflow_msg()),
                },
                Err(e) => Err(e),
            },
            Err(e) => Err(e),
        },
        NodeS::Sub(l, r) => match eval_env(*l, env) {
            Ok(lv) => match eval_env(*r, env) {
                Ok(rv) => match sub_of(lv, rv) {
                    Some(d) => Ok(d),
                    None => Err(overflow_msg()),
                },
                Err(e) => Err(e),
            },
            Err(e) => Err(e),
        },
        NodeS::Mul(l, r) => match eval_env(*l, env) {
            Ok(lv) => match eval_env(*r, env) {
                Ok(rv) => match mul_of(lv, rv) {
                    Some(d) => Ok(d),
                    None => Err(overflow_msg()),
                },
                Err(e) => Err(e),
            },
            Err(e) => Err(e),
        },
        NodeS::Div(l, r) => match eval_env(*l, env) {
            Ok(lv) => match eval_env(*r, env) {
                Ok(rv) => if rv.val() != 0 {
                    match div_of(lv, rv) {
                        Some(d) => Ok(d),
                        None => Err(overflow_msg()),
                    }
                } else {
                    Err(div_by_zero_err_msg(lv))
                },
                Err(e) => Err(e),
            },
            Err(e) => Err(e),
        },
        NodeS::Parentheses(x) => eval_env(*x, env),
        NodeS::UnaryMinus(x) => match eval_env(*x, env) {
            Ok(v) => Ok(neg_spec(v)),
            Err(e) => Err(e),
        },
        NodeS::Number(d) => Ok(d),
        NodeS::Cell(c, r) => if env.dom().contains((c, r)) {
            Ok(env[(c, r)])
        } else {
            Err(cell_value_err_msg(c, r))
        },
        NodeS::Function(_, _) => Err(Seq::empty()),
    }
}

/// The two evaluation statements agree on the lookup's environment.
pub proof fn lemma_eval_env_matches<L: CellLookup>(n: NodeS, lookup: &L)
    ensures
        eval_env(n, env_of(lookup)) == eval_spec(n, lookup),
    decreases n, 0nat,
{
    match n {
        NodeS::Add(l, r) => {
            lemma_eval_env_matches(*l, lookup);
            lemma_eval_env_matches(*r, lookup);
        },
        NodeS::Sub(l, r) => {
            lemma_eval_env_matches(*l, lookup);
            lemma_eval_env_matches(*r, lookup);
        },
        NodeS::Mul(l, r) => {
            lemma_eval_env_matches(*l, lookup);
            lemma_eval_env_matches(*r, lookup);
        },
        NodeS::Div(l, r) => {
            lemma_eval_env_matches(*l, lookup);
            lemma_eval_env_matches(*r, lookup);
        },
        NodeS::Parentheses(x) => {
            lemma_eval_env_matches(*x, lookup);
        },
        NodeS::UnaryMinus(x) => {
            lemma_eval_env_matches(*x, lookup);
        },
        _ => {},
    }
}

/// What evaluating a function-free tree against a lookup yields: the exact
/// decimal, or the exact message.
pub open spec fn eval_spec<L: CellLookup>(n: NodeS, env: &L) -> Result<Dec, Seq<char>>
    decreases n, 0nat,
{
    match n {
        NodeS::Comment(c) => Err(comment_err_msg(c)),
        NodeS::Add(l, r) => match eval_spec(*l, env) {
            Ok(lv) => match eval_spec(*r, env) {
                Ok(rv) => match add_of(lv, rv) {
                    Some(d) => Ok(d),
                    None => Err(overflow_msg()),
                },
                Err(e) => Err(e),
            },
            Err(e) => Err(e),
        },
        NodeS::Sub(l, r) => match eval_spec(*l, env) {
            Ok(lv) => match eval_spec(*r, env) {
                Ok(rv) => match sub_of(lv, rv) {
                    Some(d) => Ok(d),
                    None => Err(overflow_msg()),
                },
                Err(e) => Err(e),
            },
            Err(e) => Err(e),
        },
        NodeS::Mul(l, r) => match eval_spec(*l, env) {
            Ok(lv) => match eval_spec(*r, env) {
                Ok(rv) => match mul_of(lv, rv) {
                    Some(d) => Ok(d),
                    None => Err(overflow_msg()),
                },
                Err(e) => Err(e),
            },
            Err(e) => Err(e),
        },
        NodeS::Div(l, r) => match eval_spec(*l, env) {
            Ok(lv) => match eval_spec(*r, env) {
                Ok(rv) => if rv.val() != 0 {
                    match div_of(lv, rv) {
                        Some(d) => Ok(d),
                        None => Err(overflow_msg()),
                    }
                } else {
                    Err(div_by_zero_err_msg(lv))
                },
                Err(e) => Err(e),
            },
            Err(e) => Err(e),
        },
        NodeS::Parentheses(x) => eval_spec(*x, env),
        NodeS::UnaryMinus(x) => match eval_spec(*x, env) {
            Ok(v) => Ok(neg_spec(v)),
            Err(e) => Err(e),
        },
        NodeS::Number(d) => Ok(d),
        NodeS::Cell(c, r) => match env.spec_lookup(c, r) {
            Some(v) => Ok(v),
            None => Err(cell_value_err_msg(c, r)),
        },
        NodeS::Function(_, _) => Err(Seq::empty()),
    }
}

// ---------------------------------------------------------------------------
// The executable evaluator.
// ---------------------------------------------------------------------------
/// Evaluates a tree. For a tree without function calls the result is exactly
/// `eval_spec`; a function call's outcome is the table's to decide.
#[verifier::rlimit(100)]
#[verifier::spinoff_prover]
pub fn solve<L: CellLookup, F: FuncTable>(node: &Node, lookup: &L, functions: &F) -> (r: Result<
    Dec,
    String,
>)
    requires
        node_wf(node@),
        lookup.inv(),
    ensures
        r matches Ok(d) ==> d.wf(),
        !has_function(node@) ==> match eval_spec(node@, lookup) {
            Ok(v) => r matches Ok(d) && d == v,
            Err(m) => r matches Err(e) && e@ == m,
        },
    decreases crate::node::node_size(node@), 1nat,
{
    proof {
        reveal_with_fuel(crate::node::node_view, 3);
        reveal_with_fuel(crate::node::node_wf, 3);
        reveal_with_fuel(crate::node::node_size, 3);
        reveal_with_fuel(has_function, 3);
        reveal_with_fuel(eval_spec, 3);
        crate::node::lemma_wf_parts(node@);
    }
    match node {
        Node::Comment(comment) => {
            let mut s = String::new();
            s.append("Comment: '");
            s.append(comment.as_str());
            s.append("'");
            proof {
                assert(s@ =~= comment_err_msg(comment@));
            }
            Err(s)
        },
        Node::Add(l, r) => {
            let lv = match solve(l, lookup, functions) {
                Ok(v) => v,
                Err(e) => {
                    return Err(e);
                },
            };
            let rv = match solve(r, lookup, functions) {
                Ok(v) => v,
                Err(e) => {
                    return Err(e);
                },
            };
            match dec_add(lv, rv) {
                Some(d) => Ok(d),
                None => Err("Numeric overflow".to_owned()),
            }
        },
        Node::Sub(l, r) => {
            let lv = match solve(l, lookup, functions) {
                Ok(v) => v,
                Err(e) => {
                    return Err(e);
                },
            };
            let rv = match solve(r, lookup, functions) {
                Ok(v) => v,
                Err(e) => {
                    return Err(e);
                },
            };
            match dec_sub(lv, rv) {
                Some(d) => Ok(d),
                None => Err("Numeric overflow".to_owned()),
            }
        },
        Node::Mul(l, r) => {
            let lv = match solve(l, lookup, functions) {
                Ok(v) => v,
                Err(e) => {
                    return Err(e);
                },
            };
            let rv = match solve(r, lookup, functions) {
                Ok(v) => v,
                Err(e) => {
                    return Err(e);
                },
            };
            match dec_mul(lv, rv) {
                Some(d) => Ok(d),
                None => Err("Numeric overflow".to_owned()),
            }
        },
        Node::Div(l, r) => {
            let lv = match solve(l, lookup, functions) {
                Ok(v) => v,
                Err(e) => {
                    return Err(e);
                },
            };
            let rv = match solve(r, lookup, functions) {
                Ok(v) => v,
                Err(e) => {
                    return Err(e);
                },
            };
            if !rv.is_zero() {
                match dec_div(lv, rv) {
                    Some(d) => Ok(d),
                    None => Err("Numeric overflow".to_owned()),
                }
            } else {
                let mut s = String::new();
                s.append("Trying to divide ");
                let t = lv.to_text();
                s.append(t.as_str());
                s.append(" by 0");
                proof {
                    assert(s@ =~= div_by_zero_err_msg(lv));
                }
                Err(s)
            }
        },
        Node::Parentheses(x) => solve(x, lookup, functions),
        Node::UnaryMinus(x) => {
            match solve(x, lookup, functions) {
                Ok(v) => Ok(v.neg()),
                Err(e) => Err(e),
            }
        },
        Node::Number(d) => Ok(*d),
        Node::Cell(col, row) => {
            match lookup.lookup(*col, *row) {
                Ok(v) => Ok(v),
                Err(_) => {
                    let mut s = crate::node::write_cell(*col, *row);
                    s.append(": Value error");
                    proof {
                        assert(s@ =~= cell_value_err_msg(*col, *row));
                    }
                    Err(s)
                },
            }
        },
        Node::Function(name, args) => {
            let mut params: Vec<Dec> = Vec::new();
            let n = args.len();
            let mut i: usize = 0;
            proof {
                crate::node::lemma_args_views_len(args@);
                crate::node::lemma_args_wf_index(args_views(args@));
            }
            while i < n
                invariant
                    i <= n == args@.len(),
                    node@ == NodeS::Function(name@, args_views(args@)),
                    node_wf(node@),
                    has_function(node@),
                    lookup.inv(),
                    args_views(args@).len() == n,
                    forall|k: int|
                        0 <= k < n ==> args_views(args@)[k] == crate::node::node_view(*args@[k]),
                    forall|k: int|
                        0 <= k < n ==> node_wf(#[trigger] args_views(args@)[k]),
                    crate::node::node_size(node@) == 1 + crate::node::args_size(args_views(args@)),
                    i == params@.len(),
                    forall|k: int|
                        0 <= k < params@.len() ==> (#[trigger] params@[k]).wf()
                            && params@[k].is_normal(),
                decreases n - i,
            {
                proof {
                    crate::node::lemma_args_size_index(args_views(args@), i as int);
                }
                let v = match solve(&args[i], lookup, functions) {
                    Ok(v) => v,
                    Err(e) => {
                        return Err(e);
                    },
                };
                params.push(v.normalize());
                i = i + 1;
            }
            let response = functions.call(name.as_str(), params);
            finish_function_call(name.as_str(), response)
        },
    }
}

/// On a pure arithmetic tree the evaluator computes the constant
/// evaluation, whatever the lookup: the same decimal, a division message
/// for the failing division, or the overflow message.
pub proof fn lemma_eval_const_matches_eval<L: CellLookup>(n: NodeS, env: &L)
    requires
        crate::optimize::const_expr(n),
    ensures
        match crate::optimize::eval_const(n) {
            Ok(v) => eval_spec(n, env) == Ok::<Dec, Seq<char>>(v),
            Err(e) => match e {
                crate::optimize::OptErrS::DivisionByZero => exists|d: Dec|
                    eval_spec(n, env) == Err::<Dec, Seq<char>>(#[trigger] div_by_zero_err_msg(d)),
                crate::optimize::OptErrS::Overflow => eval_spec(n, env) == Err::<Dec, Seq<char>>(
                    overflow_msg(),
                ),
            },
        },
    decreases n, 0nat,
{
    match n {
        NodeS::Number(_) => {},
        NodeS::Parentheses(x) => {
            lemma_eval_const_matches_eval(*x, env);
        },
        NodeS::UnaryMinus(x) => {
            lemma_eval_const_matches_eval(*x, env);
        },
        NodeS::Add(l, r) => {
            lemma_eval_const_matches_eval(*l, env);
            lemma_eval_const_matches_eval(*r, env);
        },
        NodeS::Sub(l, r) => {
            lemma_eval_const_matches_eval(*l, env);
            lemma_eval_const_matches_eval(*r, env);
        },
        NodeS::Mul(l, r) => {
            lemma_eval_const_matches_eval(*l, env);
            lemma_eval_const_matches_eval(*r, env);
        },
        NodeS::Div(l, r) => {
            lemma_eval_const_matches_eval(*l, env);
            lemma_eval_const_matches_eval(*r, env);
        },
        _ => {},
    }
}

} // verus!
