//! The constant-folding optimizer: a pure tree rewrite that folds literal
//! arithmetic, unwraps parentheses, drops identity operands, moves literals
//! to the left of commutative operators, and absorbs a literal into a
//! left-leaning chain's own literal; a literal zero divisor is a hard error.

use vstd::prelude::*;

use crate::decimal::{add_of, dec_add, dec_div, dec_mul, dec_sub, div_of, mul_of, sub_of, Dec};
use crate::node::{args_views, args_wf, node_wf, Node, NodeS};

verus! {

/// How the optimizer fails: a literal division by zero, or a literal fold
/// outside the representable range.
pub enum OptErrS {
    DivisionByZero,
    Overflow,
}

pub open spec fn division_by_zero_msg() -> Seq<char> {
    "Division by 0"@
}

pub open spec fn overflow_msg() -> Seq<char> {
    "Numeric overflow"@
}

/// A folded literal, or an overflow error.
pub open spec fn fold_lit(o: Option<Dec>) -> Result<NodeS, OptErrS> {
    match o {
        Some(d) => Ok(NodeS::Number(d)),
        None => Err(OptErrS::Overflow),
    }
}

/// The sum rewrite, both operands already optimized.
pub open spec fn opt_add(a: NodeS, b: NodeS) -> Result<NodeS, OptErrS> {
    match b {
        NodeS::Number(rn) => if rn.val() == 0 {
            Ok(a)
        } else {
            match a {
                NodeS::Number(ln) => fold_lit(add_of(ln, rn)),
                NodeS::Add(sl, sr) => match *sl {
                    NodeS::Number(sn) => match add_of(rn, sn) {
                        Some(d) => Ok(NodeS::Add(Box::new(NodeS::Number(d)), sr)),
                        None => Err(OptErrS::Overflow),
                    },
                    _ => Ok(NodeS::Add(Box::new(b), Box::new(a))),
                },
                NodeS::Sub(sl, sr) => match *sl {
                    NodeS::Number(sn) => match add_of(rn, sn) {
                        Some(d) => Ok(NodeS::Sub(Box::new(NodeS::Number(d)), sr)),
                        None => Err(OptErrS::Overflow),
                    },
                    _ => Ok(NodeS::Add(Box::new(b), Box::new(a))),
                },
                _ => Ok(NodeS::Add(Box::new(b), Box::new(a))),
            }
        },
        _ => match a {
            NodeS::Number(ln) => if ln.val() == 0 {
                Ok(b)
            } else {
                match b {
                    NodeS::Add(sl, sr) => match *sl {
                        NodeS::Number(sn) => match add_of(ln, sn) {
                            Some(d) => Ok(NodeS::Add(Box::new(NodeS::Number(d)), sr)),
                            None => Err(OptErrS::Overflow),
                        },
                        _ => Ok(NodeS::Add(Box::new(a), Box::new(b))),
                    },
                    NodeS::Sub(sl, sr) => match *sl {
                        NodeS::Number(sn) => match add_of(ln, sn) {
                            Some(d) => Ok(NodeS::Sub(Box::new(NodeS::Number(d)), sr)),
                            None => Err(OptErrS::Overflow),
                        },
                        _ => Ok(NodeS::Add(Box::new(a), Box::new(b))),
                    },
                    _ => Ok(NodeS::Add(Box::new(a), Box::new(b))),
                }
            },
            _ => Ok(NodeS::Add(Box::new(a), Box::new(b))),
        },
    }
}

/// The difference rewrite, both operands already optimized.
pub open spec fn opt_sub(a: NodeS, b: NodeS) -> Result<NodeS, OptErrS> {
    match b {
        NodeS::Number(rn) => if rn.val() == 0 {
            Ok(a)
        } else {
            match a {
                NodeS::Number(ln) => fold_lit(sub_of(ln, rn)),
                NodeS::Add(sl, sr) => match *sl {
                    NodeS::Number(sn) => match sub_of(sn, rn) {
                        Some(d) => Ok(NodeS::Add(Box::new(NodeS::Number(d)), sr)),
                        None => Err(OptErrS::Overflow),
                    },
                    _ => Ok(
                        NodeS::Add(Box::new(NodeS::Number(crate::decimal::neg_spec(rn))), Box::new(a)),
                    ),
                },
                NodeS::Sub(sl, sr) => match *sl {
                    NodeS::Number(sn) => match sub_of(sn, rn) {
                        Some(d) => Ok(NodeS::Sub(Box::new(NodeS::Number(d)), sr)),
                        None => Err(OptErrS::Overflow),
                    },
                    _ => Ok(
                        NodeS::Add(Box::new(NodeS::Number(crate::decimal::neg_spec(rn))), Box::new(a)),
                    ),
                },
                _ => Ok(
                    NodeS::Add(Box::new(NodeS::Number(crate::decimal::neg_spec(rn))), Box::new(a)),
                ),
            }
        },
        _ => match a {
            NodeS::Number(ln) => match b {
                NodeS::Add(sl, sr) => match *sl {
                    NodeS::Number(sn) => match sub_of(ln, sn) {
                        Some(d) => Ok(NodeS::Sub(Box::new(NodeS::Number(d)), sr)),
                        None => Err(OptErrS::Overflow),
                    },
                    _ => if ln.val() == 0 {
                        Ok(NodeS::UnaryMinus(Box::new(b)))
                    } else {
                        Ok(NodeS::Sub(Box::new(a), Box::new(b)))
                    },
                },
                NodeS::Sub(sl, sr) => match *sl {
                    NodeS::Number(sn) => match sub_of(ln, sn) {
                        Some(d) => Ok(NodeS::Add(Box::new(NodeS::Number(d)), sr)),
                        None => Err(OptErrS::Overflow),
                    },
                    _ => if ln.val() == 0 {
                        Ok(NodeS::UnaryMinus(Box::new(b)))
                    } else {
                        Ok(NodeS::Sub(Box::new(a), Box::new(b)))
                    },
                },
                _ => if ln.val() == 0 {
                    Ok(NodeS::UnaryMinus(Box::new(b)))
                } else {
                    Ok(NodeS::Sub(Box::new(a), Box::new(b)))
                },
            },
            _ => Ok(NodeS::Sub(Box::new(a), Box::new(b))),
        },
    }
}

/// The product rewrite, both operands already optimized.
pub open spec fn opt_mul(a: NodeS, b: NodeS) -> Result<NodeS, OptErrS> {
    match b {
        NodeS::Number(rn) => if rn.val() == Dec::one_val() {
            Ok(a)
        } else {
            match a {
                NodeS::Number(ln) => fold_lit(mul_of(ln, rn)),
                NodeS::Mul(sl, sr) => match *sl {
                    NodeS::Number(sn) => match mul_of(rn, sn) {
                        Some(d) => Ok(NodeS::Mul(Box::new(NodeS::Number(d)), sr)),
                        None => Err(OptErrS::Overflow),
                    },
                    _ => Ok(NodeS::Mul(Box::new(b), Box::new(a))),
                },
                NodeS::Div(sl, sr) => match *sl {
                    NodeS::Number(sn) => match mul_of(rn, sn) {
                        Some(d) => Ok(NodeS::Div(Box::new(NodeS::Number(d)), sr)),
                        None => Err(OptErrS::Overflow),
                    },
                    _ => Ok(NodeS::Mul(Box::new(b), Box::new(a))),
                },
                _ => Ok(NodeS::Mul(Box::new(b), Box::new(a))),
            }
        },
        _ => match a {
            NodeS::Number(ln) => if ln.val() == Dec::one_val() {
                Ok(b)
            } else {
                match b {
                    NodeS::Mul(sl, sr) => match *sl {
                        NodeS::Number(sn) => match mul_of(ln, sn) {
                            Some(d) => Ok(NodeS::Mul(Box::new(NodeS::Number(d)), sr)),
                            None => Err(OptErrS::Overflow),
                        },
                        _ => Ok(NodeS::Mul(Box::new(a), Box::new(b))),
                    },
                    NodeS::Div(sl, sr) => match *sl {
                        NodeS::Number(sn) => match mul_of(ln, sn) {
                            Some(d) => Ok(NodeS::Div(Box::new(NodeS::Number(d)), sr)),
                            None => Err(OptErrS::Overflow),
                        },
                        _ => Ok(NodeS::Mul(Box::new(a), Box::new(b))),
                    },
                    _ => Ok(NodeS::Mul(Box::new(a), Box::new(b))),
                }
            },
            _ => Ok(NodeS::Mul(Box::new(a), Box::new(b))),
        },
    }
}

/// The quotient rewrite, both operands already optimized. A zero literal
/// divisor, before or after absorption, is the division-by-zero error.
pub open spec fn opt_div(a: NodeS, b: NodeS) -> Result<NodeS, OptErrS> {
    match b {
        NodeS::Number(rn) => if rn.val() == 0 {
            Err(OptErrS::DivisionByZero)
        } else if rn.val() == Dec::one_val() {
            Ok(a)
        } else {
            match a {
                NodeS::Number(ln) => fold_lit(div_of(ln, rn)),
                NodeS::Mul(sl, sr) => match *sl {
                    NodeS::Number(sn) => match div_of(sn, rn) {
                        Some(d) => Ok(NodeS::Mul(Box::new(NodeS::Number(d)), sr)),
                        None => Err(OptErrS::Overflow),
                    },
                    _ => match div_of(Dec { mantissa: 1, scale: 0 }, rn) {
                        Some(d) => Ok(NodeS::Mul(Box::new(NodeS::Number(d)), Box::new(a))),
                        None => Err(OptErrS::Overflow),
                    },
                },
                NodeS::Div(sl, sr) => match *sl {
                    NodeS::Number(sn) => match div_of(sn, rn) {
                        Some(d) => Ok(NodeS::Div(Box::new(NodeS::Number(d)), sr)),
                        None => Err(OptErrS::Overflow),
                    },
                    _ => match div_of(Dec { mantissa: 1, scale: 0 }, rn) {
                        Some(d) => Ok(NodeS::Mul(Box::new(NodeS::Number(d)), Box::new(a))),
                        None => Err(OptErrS::Overflow),
                    },
                },
                _ => match div_of(Dec { mantissa: 1, scale: 0 }, rn) {
                    Some(d) => Ok(NodeS::Mul(Box::new(NodeS::Number(d)), Box::new(a))),
                    None => Err(OptErrS::Overflow),
                },
            }
        },
        _ => match a {
            NodeS::Number(ln) => match b {
                NodeS::Mul(sl, sr) => match *sl {
                    NodeS::Number(sn) => if sn.val() != 0 {
                        match div_of(ln, sn) {
                            Some(d) => Ok(NodeS::Div(Box::new(NodeS::Number(d)), sr)),
                            None => Err(OptErrS::Overflow),
                        }
                    } else {
                        Err(OptErrS::DivisionByZero)
                    },
                    _ => Ok(NodeS::Div(Box::new(a), Box::new(b))),
                },
                NodeS::Div(sl, sr) => match *sl {
                    NodeS::Number(sn) => if sn.val() != 0 {
                        match div_of(ln, sn) {
                            Some(d) => Ok(NodeS::Mul(Box::new(NodeS::Number(d)), sr)),
                            None => Err(OptErrS::Overflow),
                        }
                    } else {
                        Err(OptErrS::DivisionByZero)
                    },
                    _ => Ok(NodeS::Div(Box::new(a), Box::new(b))),
                },
                _ => Ok(NodeS::Div(Box::new(a), Box::new(b))),
            },
            _ => Ok(NodeS::Div(Box::new(a), Box::new(b))),
        },
    }
}

/// What optimizing a tree yields.
pub open spec fn opt_spec(n: NodeS) -> Result<NodeS, OptErrS>
    decreases n, 0nat,
{
    match n {
        NodeS::Parentheses(inner) => opt_spec(*inner),
        NodeS::UnaryMinus(inner) => match opt_spec(*inner) {
            Ok(x) => match x {
                NodeS::Number(d) => Ok(NodeS::Number(crate::decimal::neg_spec(d))),
                _ => Ok(NodeS::UnaryMinus(Box::new(x))),
            },
            Err(e) => Err(e),
        },
        NodeS::Add(l, r) => match opt_spec(*l) {
            Ok(a) => match opt_spec(*r) {
                Ok(b) => opt_add(a, b),
                Err(e) => Err(e),
            },
            Err(e) => Err(e),
        },
        NodeS::Sub(l, r) => match opt_spec(*l) {
            Ok(a) => match opt_spec(*r) {
                Ok(b) => opt_sub(a, b),
                Err(e) => Err(e),
            },
            Err(e) => Err(e),
        },
        NodeS::Mul(l, r) => match opt_spec(*l) {
            Ok(a) => match opt_spec(*r) {
                Ok(b) => opt_mul(a, b),
                Err(e) => Err(e),
            },
            Err(e) => Err(e),
        },
        NodeS::Div(l, r) => match opt_spec(*l) {
            Ok(a) => match opt_spec(*r) {
                Ok(b) => opt_div(a, b),
                Err(e) => Err(e),
            },
            Err(e) => Err(e),
        },
        NodeS::Function(name, args) => match opt_args_spec(args, args.len() as int) {
            Ok(optimized) => Ok(NodeS::Function(name, optimized)),
            Err(e) => Err(e),
        },
        NodeS::Comment(_) => Ok(n),
        NodeS::Cell(_, _) => Ok(n),
        NodeS::Number(_) => Ok(n),
    }
}

/// The first `k` arguments, each optimized, left to right.
pub open spec fn opt_args_spec(args: Seq<NodeS>, k: int) -> Result<Seq<NodeS>, OptErrS>
    decreases args, 1nat, k,
{
    if k <= 0 || k > args.len() {
        Ok(Seq::empty())
    } else {
        match opt_args_spec(args, k - 1) {
            Ok(rest) => match opt_spec(args[k - 1]) {
                Ok(x) => Ok(rest.push(x)),
                Err(e) => Err(e),
            },
            Err(e) => Err(e),
        }
    }
}

// ---------------------------------------------------------------------------
// The executable optimizer.
// ---------------------------------------------------------------------------
/// How an optimizer error is reported to the caller.
pub open spec fn opt_err_text(e: OptErrS) -> Seq<char> {
    match e {
        OptErrS::DivisionByZero => division_by_zero_msg(),
        OptErrS::Overflow => overflow_msg(),
    }
}

fn err_string(e: &str) -> (r: String)
    ensures
        r@ == e@,
{
    e.to_owned()
}

fn opt_add_exec(left: Box<Node>, right: Box<Node>) -> (r: Result<Box<Node>, String>)
    requires
        node_wf(left@),
        node_wf(right@),
    ensures
        match opt_add(left@, right@) {
            Ok(u) => r matches Ok(b) && b@ == u && node_wf(u),
            Err(e) => r matches Err(m) && m@ == opt_err_text(e),
        },
{
    proof {
        reveal_with_fuel(crate::node::node_view, 5);
        reveal_with_fuel(crate::node::node_wf, 5);
        crate::node::lemma_wf_parts(left@);
        crate::node::lemma_wf_parts(right@);
        match left@ {
            NodeS::Add(l2, _) => crate::node::lemma_wf_parts(*l2),
            NodeS::Sub(l2, _) => crate::node::lemma_wf_parts(*l2),
            NodeS::Mul(l2, _) => crate::node::lemma_wf_parts(*l2),
            NodeS::Div(l2, _) => crate::node::lemma_wf_parts(*l2),
            _ => {},
        }
        match right@ {
            NodeS::Add(l2, _) => crate::node::lemma_wf_parts(*l2),
            NodeS::Sub(l2, _) => crate::node::lemma_wf_parts(*l2),
            NodeS::Mul(l2, _) => crate::node::lemma_wf_parts(*l2),
            NodeS::Div(l2, _) => crate::node::lemma_wf_parts(*l2),
            _ => {},
        }
    }
    match *right {
        Node::Number(rn) => {
            if rn.is_zero() {
                Ok(left)
            } else {
                match *left {
                    Node::Number(ln) => match dec_add(ln, rn) {
                        Some(d) => Ok(Node::Number(d).boxed()),
                        None => Err(err_string("Numeric overflow")),
                    },
                    Node::Add(subleft, subright) => match *subleft {
                        Node::Number(sn) => {
                            proof {
                                assert(crate::node::node_view(*subleft)
                                    == NodeS::Number(sn));
                            }
                            match dec_add(rn, sn) {
                            Some(d) => Ok(
                                Node::Add(Node::Number(d).boxed(), subright).boxed(),
                            ),
                            None => Err(err_string("Numeric overflow")),
                        }
                        },
                        other => Ok(
                            Node::Add(
                                Node::Number(rn).boxed(),
                                Node::Add(other.boxed(), subright).boxed(),
                            ).boxed(),
                        ),
                    },
                    Node::Sub(subleft, subright) => match *subleft {
                        Node::Number(sn) => {
                            proof {
                                assert(crate::node::node_view(*subleft)
                                    == NodeS::Number(sn));
                            }
                            match dec_add(rn, sn) {
                            Some(d) => Ok(
                                Node::Sub(Node::Number(d).boxed(), subright).boxed(),
                            ),
                            None => Err(err_string("Numeric overflow")),
                        }
                        },
                        other => Ok(
                            Node::Add(
                                Node::Number(rn).boxed(),
                                Node::Sub(other.boxed(), subright).boxed(),
                            ).boxed(),
                        ),
                    },
                    other => Ok(Node::Add(Node::Number(rn).boxed(), other.boxed()).boxed()),
                }
            }
        },
        rother => {
            let right2 = rother.boxed();
            match *left {
                Node::Number(ln) => {
                    if ln.is_zero() {
                        Ok(right2)
                    } else {
                        match *right2 {
                            Node::Add(subleft, subright) => match *subleft {
                                Node::Number(sn) => {
                            proof {
                                assert(crate::node::node_view(*subleft)
                                    == NodeS::Number(sn));
                            }
                            match dec_add(ln, sn) {
                                    Some(d) => Ok(
                                        Node::Add(Node::Number(d).boxed(), subright).boxed(),
                                    ),
                                    None => Err(err_string("Numeric overflow")),
                                }
                        },
                                other => Ok(
                                    Node::Add(
                                        Node::Number(ln).boxed(),
                                        Node::Add(other.boxed(), subright).boxed(),
                                    ).boxed(),
                                ),
                            },
                            Node::Sub(subleft, subright) => match *subleft {
                                Node::Number(sn) => {
                            proof {
                                assert(crate::node::node_view(*subleft)
                                    == NodeS::Number(sn));
                            }
                            match dec_add(ln, sn) {
                                    Some(d) => Ok(
                                        Node::Sub(Node::Number(d).boxed(), subright).boxed(),
                                    ),
                                    None => Err(err_string("Numeric overflow")),
                                }
                        },
                                other => Ok(
                                    Node::Add(
                                        Node::Number(ln).boxed(),
                                        Node::Sub(other.boxed(), subright).boxed(),
                                    ).boxed(),
                                ),
                            },
                            other => Ok(
                                Node::Add(Node::Number(ln).boxed(), other.boxed()).boxed(),
                            ),
                        }
                    }
                },
                lother => Ok(Node::Add(lother.boxed(), right2).boxed()),
            }
        },
    }
}

fn opt_sub_exec(left: Box<Node>, right: Box<Node>) -> (r: Result<Box<Node>, String>)
    requires
        node_wf(left@),
        node_wf(right@),
    ensures
        match opt_sub(left@, right@) {
            Ok(u) => r matches Ok(b) && b@ == u && node_wf(u),
            Err(e) => r matches Err(m) && m@ == opt_err_text(e),
        },
{
    proof {
        reveal_with_fuel(crate::node::node_view, 5);
        reveal_with_fuel(crate::node::node_wf, 5);
        crate::node::lemma_wf_parts(left@);
        crate::node::lemma_wf_parts(right@);
        match left@ {
            NodeS::Add(l2, _) => crate::node::lemma_wf_parts(*l2),
            NodeS::Sub(l2, _) => crate::node::lemma_wf_parts(*l2),
            NodeS::Mul(l2, _) => crate::node::lemma_wf_parts(*l2),
            NodeS::Div(l2, _) => crate::node::lemma_wf_parts(*l2),
            _ => {},
        }
        match right@ {
            NodeS::Add(l2, _) => crate::node::lemma_wf_parts(*l2),
            NodeS::Sub(l2, _) => crate::node::lemma_wf_parts(*l2),
            NodeS::Mul(l2, _) => crate::node::lemma_wf_parts(*l2),
            NodeS::Div(l2, _) => crate::node::lemma_wf_parts(*l2),
            _ => {},
        }
    }
    match *right {
        Node::Number(rn) => {
            if rn.is_zero() {
                Ok(left)
            } else {
                match *left {
                    Node::Number(ln) => match dec_sub(ln, rn) {
                        Some(d) => Ok(Node::Number(d).boxed()),
                        None => Err(err_string("Numeric overflow")),
                    },
                    Node::Add(subleft, subright) => match *subleft {
                        Node::Number(sn) => {
                            proof {
                                assert(crate::node::node_view(*subleft)
                                    == NodeS::Number(sn));
                            }
                            match dec_sub(sn, rn) {
                            Some(d) => Ok(
                                Node::Add(Node::Number(d).boxed(), subright).boxed(),
                            ),
                            None => Err(err_string("Numeric overflow")),
                        }
                        },
                        other => Ok(
                            Node::Add(
                                Node::Number(rn.neg()).boxed(),
                                Node::Add(other.boxed(), subright).boxed(),
                            ).boxed(),
                        ),
                    },
                    Node::Sub(subleft, subright) => match *subleft {
                        Node::Number(sn) => {
                            proof {
                                assert(crate::node::node_view(*subleft)
                                    == NodeS::Number(sn));
                            }
                            match dec_sub(sn, rn) {
                            Some(d) => Ok(
                                Node::Sub(Node::Number(d).boxed(), subright).boxed(),
                            ),
                            None => Err(err_string("Numeric overflow")),
                        }
                        },
                        other => Ok(
                            Node::Add(
                                Node::Number(rn.neg()).boxed(),
                                Node::Sub(other.boxed(), subright).boxed(),
                            ).boxed(),
                        ),
                    },
                    other => Ok(Node::Add(Node::Number(rn.neg()).boxed(), other.boxed()).boxed()),
                }
            }
        },
        rother => {
            let right2 = rother.boxed();
            match *left {
                Node::Number(ln) => {
                    match *right2 {
                        Node::Add(subleft, subright) => match *subleft {
                            Node::Number(sn) => {
                            proof {
                                assert(crate::node::node_view(*subleft)
                                    == NodeS::Number(sn));
                            }
                            match dec_sub(ln, sn) {
                                Some(d) => Ok(
                                    Node::Sub(Node::Number(d).boxed(), subright).boxed(),
                                ),
                                None => Err(err_string("Numeric overflow")),
                            }
                        },
                            other => {
                                let rb = Node::Add(other.boxed(), subright).boxed();
                                if ln.is_zero() {
                                    Ok(Node::UnaryMinus(rb).boxed())
                                } else {
                                    Ok(Node::Sub(Node::Number(ln).boxed(), rb).boxed())
                                }
                            },
                        },
                        Node::Sub(subleft, subright) => match *subleft {
                            Node::Number(sn) => {
                            proof {
                                assert(crate::node::node_view(*subleft)
                                    == NodeS::Number(sn));
                            }
                            match dec_sub(ln, sn) {
                                Some(d) => Ok(
                                    Node::Add(Node::Number(d).boxed(), subright).boxed(),
                                ),
                                None => Err(err_string("Numeric overflow")),
                            }
                        },
                            other => {
                                let rb = Node::Sub(other.boxed(), subright).boxed();
                                if ln.is_zero() {
                                    Ok(Node::UnaryMinus(rb).boxed())
                                } else {
                                    Ok(Node::Sub(Node::Number(ln).boxed(), rb).boxed())
                                }
                            },
                        },
                        other => {
                            let rb = other.boxed();
                            if ln.is_zero() {
                                Ok(Node::UnaryMinus(rb).boxed())
                            } else {
                                Ok(Node::Sub(Node::Number(ln).boxed(), rb).boxed())
                            }
                        },
                    }
                },
                lother => Ok(Node::Sub(lother.boxed(), right2).boxed()),
            }
        },
    }
}

fn opt_mul_exec(left: Box<Node>, right: Box<Node>) -> (r: Result<Box<Node>, String>)
    requires
        node_wf(left@),
        node_wf(right@),
    ensures
        match opt_mul(left@, right@) {
            Ok(u) => r matches Ok(b) && b@ == u && node_wf(u),
            Err(e) => r matches Err(m) && m@ == opt_err_text(e),
        },
{
    proof {
        reveal_with_fuel(crate::node::node_view, 5);
        reveal_with_fuel(crate::node::node_wf, 5);
        crate::node::lemma_wf_parts(left@);
        crate::node::lemma_wf_parts(right@);
        match left@ {
            NodeS::Add(l2, _) => crate::node::lemma_wf_parts(*l2),
            NodeS::Sub(l2, _) => crate::node::lemma_wf_parts(*l2),
            NodeS::Mul(l2, _) => crate::node::lemma_wf_parts(*l2),
            NodeS::Div(l2, _) => crate::node::lemma_wf_parts(*l2),
            _ => {},
        }
        match right@ {
            NodeS::Add(l2, _) => crate::node::lemma_wf_parts(*l2),
            NodeS::Sub(l2, _) => crate::node::lemma_wf_parts(*l2),
            NodeS::Mul(l2, _) => crate::node::lemma_wf_parts(*l2),
            NodeS::Div(l2, _) => crate::node::lemma_wf_parts(*l2),
            _ => {},
        }
    }
    match *right {
        Node::Number(rn) => {
            if rn.is_one() {
                Ok(left)
            } else {
                match *left {
                    Node::Number(ln) => match dec_mul(ln, rn) {
                        Some(d) => Ok(Node::Number(d).boxed()),
                        None => Err(err_string("Numeric overflow")),
                    },
                    Node::Mul(subleft, subright) => match *subleft {
                        Node::Number(sn) => {
                            proof {
                                assert(crate::node::node_view(*subleft)
                                    == NodeS::Number(sn));
                            }
                            match dec_mul(rn, sn) {
                            Some(d) => Ok(
                                Node::Mul(Node::Number(d).boxed(), subright).boxed(),
                            ),
                            None => Err(err_string("Numeric overflow")),
                        }
                        },
                        other => Ok(
                            Node::Mul(
                                Node::Number(rn).boxed(),
                                Node::Mul(other.boxed(), subright).boxed(),
                            ).boxed(),
                        ),
                    },
                    Node::Div(subleft, subright) => match *subleft {
                        Node::Number(sn) => {
                            proof {
                                assert(crate::node::node_view(*subleft)
                                    == NodeS::Number(sn));
                            }
                            match dec_mul(rn, sn) {
                            Some(d) => Ok(
                                Node::Div(Node::Number(d).boxed(), subright).boxed(),
                            ),
                            None => Err(err_string("Numeric overflow")),
                        }
                        },
                        other => Ok(
                            Node::Mul(
                                Node::Number(rn).boxed(),
                                Node::Div(other.boxed(), subright).boxed(),
                            ).boxed(),
                        ),
                    },
                    other => Ok(Node::Mul(Node::Number(rn).boxed(), other.boxed()).boxed()),
                }
            }
        },
        rother => {
            let right2 = rother.boxed();
            match *left {
                Node::Number(ln) => {
                    if ln.is_one() {
                        Ok(right2)
                    } else {
                        match *right2 {
                            Node::Mul(subleft, subright) => match *subleft {
                                Node::Number(sn) => {
                            proof {
                                assert(crate::node::node_view(*subleft)
                                    == NodeS::Number(sn));
                            }
                            match dec_mul(ln, sn) {
                                    Some(d) => Ok(
                                        Node::Mul(Node::Number(d).boxed(), subright).boxed(),
                                    ),
                                    None => Err(err_string("Numeric overflow")),
                                }
                        },
                                other => Ok(
                                    Node::Mul(
                                        Node::Number(ln).boxed(),
                                        Node::Mul(other.boxed(), subright).boxed(),
                                    ).boxed(),
                                ),
                            },
                            Node::Div(subleft, subright) => match *subleft {
                                Node::Number(sn) => {
                            proof {
                                assert(crate::node::node_view(*subleft)
                                    == NodeS::Number(sn));
                            }
                            match dec_mul(ln, sn) {
                                    Some(d) => Ok(
                                        Node::Div(Node::Number(d).boxed(), subright).boxed(),
                                    ),
                                    None => Err(err_string("Numeric overflow")),
                                }
                        },
                                other => Ok(
                                    Node::Mul(
                                        Node::Number(ln).boxed(),
                                        Node::Div(other.boxed(), subright).boxed(),
                                    ).boxed(),
                                ),
                            },
                            other => Ok(
                                Node::Mul(Node::Number(ln).boxed(), other.boxed()).boxed(),
                            ),
                        }
                    }
                },
                lother => Ok(Node::Mul(lother.boxed(), right2).boxed()),
            }
        },
    }
}

fn opt_div_exec(left: Box<Node>, right: Box<Node>) -> (r: Result<Box<Node>, String>)
    requires
        node_wf(left@),
        node_wf(right@),
    ensures
        match opt_div(left@, right@) {
            Ok(u) => r matches Ok(b) && b@ == u && node_wf(u),
            Err(e) => r matches Err(m) && m@ == opt_err_text(e),
        },
{
    proof {
        reveal_with_fuel(crate::node::node_view, 5);
        reveal_with_fuel(crate::node::node_wf, 5);
        crate::node::lemma_wf_parts(left@);
        crate::node::lemma_wf_parts(right@);
        match left@ {
            NodeS::Add(l2, _) => crate::node::lemma_wf_parts(*l2),
            NodeS::Sub(l2, _) => crate::node::lemma_wf_parts(*l2),
            NodeS::Mul(l2, _) => crate::node::lemma_wf_parts(*l2),
            NodeS::Div(l2, _) => crate::node::lemma_wf_parts(*l2),
            _ => {},
        }
        match right@ {
            NodeS::Add(l2, _) => crate::node::lemma_wf_parts(*l2),
            NodeS::Sub(l2, _) => crate::node::lemma_wf_parts(*l2),
            NodeS::Mul(l2, _) => crate::node::lemma_wf_parts(*l2),
            NodeS::Div(l2, _) => crate::node::lemma_wf_parts(*l2),
            _ => {},
        }
    }
    match *right {
        Node::Number(rn) => {
            if rn.is_zero() {
                Err(err_string("Division by 0"))
            } else if rn.is_one() {
                Ok(left)
            } else {
                match *left {
                    Node::Number(ln) => match dec_div(ln, rn) {
                        Some(d) => Ok(Node::Number(d).boxed()),
                        None => Err(err_string("Numeric overflow")),
                    },
                    Node::Mul(subleft, subright) => match *subleft {
                        Node::Number(sn) => {
                            proof {
                                assert(crate::node::node_view(*subleft)
                                    == NodeS::Number(sn));
                            }
                            match dec_div(sn, rn) {
                            Some(d) => Ok(
                                Node::Mul(Node::Number(d).boxed(), subright).boxed(),
                            ),
                            None => Err(err_string("Numeric overflow")),
                        }
                        },
                        other => match dec_div(Dec::new(1, 0), rn) {
                            Some(d) => Ok(
                                Node::Mul(
                                    Node::Number(d).boxed(),
                                    Node::Mul(other.boxed(), subright).boxed(),
                                ).boxed(),
                            ),
                            None => Err(err_string("Numeric overflow")),
                        },
                    },
                    Node::Div(subleft, subright) => match *subleft {
                        Node::Number(sn) => {
                            proof {
                                assert(crate::node::node_view(*subleft)
                                    == NodeS::Number(sn));
                            }
                            match dec_div(sn, rn) {
                            Some(d) => Ok(
                                Node::Div(Node::Number(d).boxed(), subright).boxed(),
                            ),
                            None => Err(err_string("Numeric overflow")),
                        }
                        },
                        other => match dec_div(Dec::new(1, 0), rn) {
                            Some(d) => Ok(
                                Node::Mul(
                                    Node::Number(d).boxed(),
                                    Node::Div(other.boxed(), subright).boxed(),
                                ).boxed(),
                            ),
                            None => Err(err_string("Numeric overflow")),
                        },
                    },
                    other => match dec_div(Dec::new(1, 0), rn) {
                        Some(d) => Ok(
                            Node::Mul(Node::Number(d).boxed(), other.boxed()).boxed(),
                        ),
                        None => Err(err_string("Numeric overflow")),
                    },
                }
            }
        },
        rother => {
            let right2 = rother.boxed();
            match *left {
                Node::Number(ln) => {
                    match *right2 {
                        Node::Mul(subleft, subright) => match *subleft {
                            Node::Number(sn) => {
                                proof {
                                    assert(crate::node::node_view(*subleft)
                                        == NodeS::Number(sn));
                                }
                                if !sn.is_zero() {
                                    match dec_div(ln, sn) {
                                        Some(d) => Ok(
                                            Node::Div(Node::Number(d).boxed(), subright).boxed(),
                                        ),
                                        None => Err(err_string("Numeric overflow")),
                                    }
                                } else {
                                    Err(err_string("Division by 0"))
                                }
                            },
                            other => Ok(
                                Node::Div(
                                    Node::Number(ln).boxed(),
                                    Node::Mul(other.boxed(), subright).boxed(),
                                ).boxed(),
                            ),
                        },
                        Node::Div(subleft, subright) => match *subleft {
                            Node::Number(sn) => {
                                proof {
                                    assert(crate::node::node_view(*subleft)
                                        == NodeS::Number(sn));
                                }
                                if !sn.is_zero() {
                                    match dec_div(ln, sn) {
                                        Some(d) => Ok(
                                            Node::Mul(Node::Number(d).boxed(), subright).boxed(),
                                        ),
                                        None => Err(err_string("Numeric overflow")),
                                    }
                                } else {
                                    Err(err_string("Division by 0"))
                                }
                            },
                            other => Ok(
                                Node::Div(
                                    Node::Number(ln).boxed(),
                                    Node::Div(other.boxed(), subright).boxed(),
                                ).boxed(),
                            ),
                        },
                        other => Ok(Node::Div(Node::Number(ln).boxed(), other.boxed()).boxed()),
                    }
                },
                lother => Ok(Node::Div(lother.boxed(), right2).boxed()),
            }
        },
    }
}

/// Optimizes a tree: the result of the rewrite, or the rendered error.
pub fn optimize(node: Box<Node>) -> (r: Result<Box<Node>, String>)
    requires
        node_wf(node@),
    ensures
        match opt_spec(node@) {
            Ok(u) => r matches Ok(b) && b@ == u && node_wf(u),
            Err(e) => r matches Err(m) && m@ == opt_err_text(e),
        },
    decreases crate::node::node_size(node@),
{
    proof {
        reveal_with_fuel(crate::node::node_view, 3);
        reveal_with_fuel(crate::node::node_size, 3);
    }
    match *node {
        Node::Parentheses(inner) => optimize(inner),
        Node::UnaryMinus(inner) => {
            let x = match optimize(inner) {
                Ok(b) => b,
                Err(e) => {
                    return Err(e);
                },
            };
            match *x {
                Node::Number(d) => Ok(Node::Number(d.neg()).boxed()),
                other => Ok(Node::UnaryMinus(other.boxed()).boxed()),
            }
        },
        Node::Add(l, r) => {
            let a = match optimize(l) {
                Ok(b) => b,
                Err(e) => {
                    return Err(e);
                },
            };
            let b = match optimize(r) {
                Ok(b) => b,
                Err(e) => {
                    return Err(e);
                },
            };
            opt_add_exec(a, b)
        },
        Node::Sub(l, r) => {
            let a = match optimize(l) {
                Ok(b) => b,
                Err(e) => {
                    return Err(e);
                },
            };
            let b = match optimize(r) {
                Ok(b) => b,
                Err(e) => {
                    return Err(e);
                },
            };
            opt_sub_exec(a, b)
        },
        Node::Mul(l, r) => {
            let a = match optimize(l) {
                Ok(b) => b,
                Err(e) => {
                    return Err(e);
                },
            };
            let b = match optimize(r) {
                Ok(b) => b,
                Err(e) => {
                    return Err(e);
                },
            };
            opt_mul_exec(a, b)
        },
        Node::Div(l, r) => {
            let a = match optimize(l) {
                Ok(b) => b,
                Err(e) => {
                    return Err(e);
                },
            };
            let b = match optimize(r) {
                Ok(b) => b,
                Err(e) => {
                    return Err(e);
                },
            };
            opt_div_exec(a, b)
        },
        Node::Function(name, params) => {
            let ghost argsv = args_views(params@);
            let n = params.len();
            let mut optimized_params: Vec<Box<Node>> = Vec::new();
            let mut i: usize = 0;
            proof {
                crate::node::lemma_args_views_len(params@);
                crate::node::lemma_args_wf_index(argsv);
                assert(node@ == NodeS::Function(name@, argsv));
            }
            while i < n
                invariant
                    i <= n == params@.len(),
                    argsv == args_views(params@),
                    node@ == NodeS::Function(name@, argsv),
                    crate::node::node_size(node@) == 1 + crate::node::args_size(argsv),
                    args_wf(argsv),
                    argsv.len() == n,
                    forall|k: int| 0 <= k < n ==> argsv[k] == crate::node::node_view(*params@[k]),
                    forall|k: int| 0 <= k < n ==> node_wf(#[trigger] argsv[k]),
                    opt_args_spec(argsv, i as int) matches Ok(s) && s == args_views(
                        optimized_params@,
                    ),
                    args_wf(args_views(optimized_params@)),
                decreases n - i,
            {
                let p = clone_box_from(&params, i);
                proof {
                    reveal_with_fuel(crate::node::node_view, 3);
                    reveal_with_fuel(crate::node::node_size, 3);
                    assert(p@ == argsv[i as int]);
                    crate::node::lemma_args_size_index(argsv, i as int);
                    assert(crate::node::node_size(node@) == 1 + crate::node::args_size(argsv));
                }
                let po = match optimize(p) {
                    Ok(b) => b,
                    Err(e) => {
                        proof {
                            reveal_with_fuel(crate::node::node_view, 3);
                            assert(opt_args_spec(argsv, i + 1) is Err);
                            lemma_opt_args_err(argsv, i + 1, n as int);
                            assert(opt_spec(node@) == Err::<NodeS, OptErrS>(
                                opt_args_spec(argsv, i + 1)->Err_0,
                            ));
                        }
                        return Err(e);
                    },
                };
                let ghost before = optimized_params@;
                optimized_params.push(po);
                proof {
                    crate::node::lemma_args_views_push(before, po);
                    assert(args_views(before).push(po@).drop_last() =~= args_views(before));
                    assert(args_wf(args_views(optimized_params@)));
                }
                i = i + 1;
            }
            proof {
                reveal_with_fuel(crate::node::node_view, 3);
                assert(opt_args_spec(argsv, n as int) matches Ok(s) && opt_spec(node@)
                    == Ok::<NodeS, OptErrS>(NodeS::Function(name@, s)));
            }
            Ok(Node::Function(name, optimized_params).boxed())
        },
        Node::Comment(t) => Ok(Node::Comment(t).boxed()),
        Node::Cell(c, rw) => Ok(Node::Cell(c, rw).boxed()),
        Node::Number(d) => Ok(Node::Number(d).boxed()),
    }
}

/// A failed prefix keeps the whole argument list failed, with the same
/// error.
proof fn lemma_opt_args_err(args: Seq<NodeS>, i: int, n: int)
    requires
        0 < i <= n <= args.len(),
        opt_args_spec(args, i) is Err,
    ensures
        opt_args_spec(args, n) == opt_args_spec(args, i),
    decreases n - i,
{
    if i < n {
        lemma_opt_args_err(args, i + 1, n);
    }
}

/// The argument at `i`, as an owned copy.
fn clone_box_from(params: &Vec<Box<Node>>, i: usize) -> (r: Box<Node>)
    requires
        i < params@.len(),
    ensures
        r@ == params@[i as int]@,
{
    clone_node_box(&params[i])
}

fn clone_node_box(n: &Box<Node>) -> (r: Box<Node>)
    ensures
        r@ == (*n)@,
    decreases crate::node::node_size((*n)@), 1nat,
{
    Box::new(clone_node(n))
}

fn clone_node(n: &Node) -> (r: Node)
    ensures
        r@ == n@,
    decreases crate::node::node_size(n@), 0nat,
{
    proof {
        reveal_with_fuel(crate::node::node_view, 3);
        reveal_with_fuel(crate::node::node_size, 3);
    }
    match n {
        Node::Add(l, r) => Node::Add(clone_node_box(l), clone_node_box(r)),
        Node::Sub(l, r) => Node::Sub(clone_node_box(l), clone_node_box(r)),
        Node::Mul(l, r) => Node::Mul(clone_node_box(l), clone_node_box(r)),
        Node::Div(l, r) => Node::Div(clone_node_box(l), clone_node_box(r)),
        Node::Parentheses(x) => Node::Parentheses(clone_node_box(x)),
        Node::UnaryMinus(x) => Node::UnaryMinus(clone_node_box(x)),
        Node::Number(d) => Node::Number(*d),
        Node::Cell(c, r) => Node::Cell(*c, *r),
        Node::Function(name, args) => {
            let cloned = clone_args(args);
            proof {
                let ghost cv = args_views(cloned@);
                let ghost av = args_views(args@);
                crate::node::lemma_args_views_len(cloned@);
                crate::node::lemma_args_views_len(args@);
                assert(cv =~= av);
            }
            Node::Function(name.clone(), cloned)
        },
        Node::Comment(t) => Node::Comment(t.clone()),
    }
}

fn clone_args(args: &Vec<Box<Node>>) -> (r: Vec<Box<Node>>)
    ensures
        r@.len() == args@.len(),
        forall|k: int| 0 <= k < args@.len() ==> r@[k]@ == args@[k]@,
    decreases crate::node::args_size(args_views(args@)), 2nat,
{
    let m = args.len();
    let mut cloned: Vec<Box<Node>> = Vec::new();
    let mut i: usize = 0;
    while i < m
        invariant
            i <= m == args@.len(),
            cloned@.len() == i,
            forall|k: int| 0 <= k < i ==> cloned@[k]@ == args@[k]@,
        decreases m - i,
    {
        proof {
            crate::node::lemma_args_views_len(args@);
            crate::node::lemma_args_size_index(args_views(args@), i as int);
        }
        cloned.push(clone_node_box(&args[i]));
        i = i + 1;
    }
    cloned
}


// ---------------------------------------------------------------------------
// Optimizer soundness on pure arithmetic trees.
// ---------------------------------------------------------------------------
/// A pure arithmetic tree: number leaves under the four operators,
/// parentheses and unary minus, with no cell references, function calls or
/// comments.
pub open spec fn const_expr(n: NodeS) -> bool
    decreases n, 0nat,
{
    match n {
        NodeS::Add(l, r) => const_expr(*l) && const_expr(*r),
        NodeS::Sub(l, r) => const_expr(*l) && const_expr(*r),
        NodeS::Mul(l, r) => const_expr(*l) && const_expr(*r),
        NodeS::Div(l, r) => const_expr(*l) && const_expr(*r),
        NodeS::Parentheses(x) => const_expr(*x),
        NodeS::UnaryMinus(x) => const_expr(*x),
        NodeS::Number(_) => true,
        _ => false,
    }
}

/// What evaluating a pure arithmetic tree yields, through exactly the
/// operations the evaluator applies: left operand first, a zero divisor is
/// the division error, an unrepresentable fold is the overflow error.
pub open spec fn eval_const(n: NodeS) -> Result<Dec, OptErrS>
    decreases n, 0nat,
{
    match n {
        NodeS::Number(d) => Ok(d),
        NodeS::Add(l, r) => match eval_const(*l) {
            Ok(a) => match eval_const(*r) {
                Ok(b) => match add_of(a, b) {
                    Some(d) => Ok(d),
                    None => Err(OptErrS::Overflow),
                },
                Err(e) => Err(e),
            },
            Err(e) => Err(e),
        },
        NodeS::Sub(l, r) => match eval_const(*l) {
            Ok(a) => match eval_const(*r) {
                Ok(b) => match sub_of(a, b) {
                    Some(d) => Ok(d),
                    None => Err(OptErrS::Overflow),
                },
                Err(e) => Err(e),
            },
            Err(e) => Err(e),
        },
        NodeS::Mul(l, r) => match eval_const(*l) {
            Ok(a) => match eval_const(*r) {
                Ok(b) => match mul_of(a, b) {
                    Some(d) => Ok(d),
                    None => Err(OptErrS::Overflow),
                },
                Err(e) => Err(e),
            },
            Err(e) => Err(e),
        },
        NodeS::Div(l, r) => match eval_const(*l) {
            Ok(a) => match eval_const(*r) {
                Ok(b) => if b.val() == 0 {
                    Err(OptErrS::DivisionByZero)
                } else {
                    match div_of(a, b) {
                        Some(d) => Ok(d),
                        None => Err(OptErrS::Overflow),
                    }
                },
                Err(e) => Err(e),
            },
            Err(e) => Err(e),
        },
        NodeS::Parentheses(x) => eval_const(*x),
        NodeS::UnaryMinus(x) => match eval_const(*x) {
            Ok(v) => Ok(crate::decimal::neg_spec(v)),
            Err(e) => Err(e),
        },
        _ => Err(OptErrS::Overflow),
    }
}

/// No identity elimination fires anywhere in the tree: no additive right
/// operand evaluates to zero, no multiplicative right operand to one. On
/// such operands the optimizer drops the operation instead of folding it,
/// and the dropped operand's representation may differ from the fold's.
pub open spec fn no_identity_operands(n: NodeS) -> bool
    decreases n, 0nat,
{
    match n {
        NodeS::Add(l, r) => no_identity_operands(*l) && no_identity_operands(*r) && (eval_const(
            *r,
        ) matches Ok(d) ==> d.val() != 0),
        NodeS::Sub(l, r) => no_identity_operands(*l) && no_identity_operands(*r) && (eval_const(
            *r,
        ) matches Ok(d) ==> d.val() != 0),
        NodeS::Mul(l, r) => no_identity_operands(*l) && no_identity_operands(*r) && (eval_const(
            *r,
        ) matches Ok(d) ==> d.val() != Dec::one_val()),
        NodeS::Div(l, r) => no_identity_operands(*l) && no_identity_operands(*r) && (eval_const(
            *r,
        ) matches Ok(d) ==> d.val() != Dec::one_val()),
        NodeS::Parentheses(x) => no_identity_operands(*x),
        NodeS::UnaryMinus(x) => no_identity_operands(*x),
        _ => true,
    }
}

/// Optimizer soundness: on a pure arithmetic tree in which no identity
/// elimination fires, optimizing folds the tree to exactly the decimal that
/// evaluating it yields, and fails exactly where evaluating fails, with the
/// failure of the same kind.
pub proof fn lemma_optimize_sound(n: NodeS)
    requires
        const_expr(n),
        no_identity_operands(n),
    ensures
        match eval_const(n) {
            Ok(v) => opt_spec(n) == Ok::<NodeS, OptErrS>(NodeS::Number(v)),
            Err(e) => opt_spec(n) == Err::<NodeS, OptErrS>(e),
        },
    decreases n, 0nat,
{
    match n {
        NodeS::Number(_) => {},
        NodeS::Parentheses(x) => {
            lemma_optimize_sound(*x);
        },
        NodeS::UnaryMinus(x) => {
            lemma_optimize_sound(*x);
        },
        NodeS::Add(l, r) => {
            lemma_optimize_sound(*l);
            lemma_optimize_sound(*r);
        },
        NodeS::Sub(l, r) => {
            lemma_optimize_sound(*l);
            lemma_optimize_sound(*r);
        },
        NodeS::Mul(l, r) => {
            lemma_optimize_sound(*l);
            lemma_optimize_sound(*r);
        },
        NodeS::Div(l, r) => {
            lemma_optimize_sound(*l);
            lemma_optimize_sound(*r);
        },
        _ => {},
    }
}

// ---------------------------------------------------------------------------
// Optimizer idempotence.
// ---------------------------------------------------------------------------
/// The node is an addition or subtraction with a literal left operand: the
/// shape the absorption rules rewrite.
pub open spec fn num_left_addsub(n: NodeS) -> bool {
    ||| (n matches NodeS::Add(l, _) && *l is Number)
    ||| (n matches NodeS::Sub(l, _) && *l is Number)
}

/// The node is a multiplication or division with a literal left operand.
pub open spec fn num_left_muldiv(n: NodeS) -> bool {
    ||| (n matches NodeS::Mul(l, _) && *l is Number)
    ||| (n matches NodeS::Div(l, _) && *l is Number)
}

/// The shapes the optimizer can produce: no parentheses, no literal right
/// operand of a binary operator, no literal under a unary minus, and no
/// absorbable chain beside a literal.
pub open spec fn optimized_shape(n: NodeS) -> bool
    decreases n, 0nat,
{
    match n {
        NodeS::Add(l, r) => optimized_shape(*l) && optimized_shape(*r) && !(*r is Number) && (*l
            is Number ==> !num_left_addsub(*r)),
        NodeS::Sub(l, r) => optimized_shape(*l) && optimized_shape(*r) && !(*r is Number) && (*l
            is Number ==> !num_left_addsub(*r)),
        NodeS::Mul(l, r) => optimized_shape(*l) && optimized_shape(*r) && !(*r is Number) && (*l
            is Number ==> !num_left_muldiv(*r)),
        NodeS::Div(l, r) => optimized_shape(*l) && optimized_shape(*r) && !(*r is Number) && (*l
            is Number ==> !num_left_muldiv(*r)),
        NodeS::Parentheses(_) => false,
        NodeS::UnaryMinus(x) => optimized_shape(*x) && !(*x is Number),
        NodeS::Function(_, args) => args_optimized(args),
        _ => true,
    }
}

pub open spec fn args_optimized(args: Seq<NodeS>) -> bool
    decreases args, 1nat,
{
    if args.len() == 0 {
        true
    } else {
        args_optimized(args.drop_last()) && optimized_shape(args.last())
    }
}

proof fn lemma_args_optimized_index(args: Seq<NodeS>)
    requires
        args_optimized(args),
    ensures
        forall|i: int| 0 <= i < args.len() ==> optimized_shape(#[trigger] args[i]),
    decreases args.len(),
{
    if args.len() > 0 {
        lemma_args_optimized_index(args.drop_last());
        assert forall|i: int| 0 <= i < args.len() implies optimized_shape(#[trigger] args[i]) by {
            if i < args.len() - 1 {
                assert(args.drop_last()[i] == args[i]);
            }
        }
    }
}

proof fn lemma_args_optimized_build(args: Seq<NodeS>)
    requires
        forall|i: int| 0 <= i < args.len() ==> optimized_shape(#[trigger] args[i]),
    ensures
        args_optimized(args),
    decreases args.len(),
{
    if args.len() > 0 {
        assert forall|i: int|
            0 <= i < args.drop_last().len() implies optimized_shape(
            #[trigger] args.drop_last()[i],
        ) by {
            assert(args.drop_last()[i] == args[i]);
        }
        lemma_args_optimized_build(args.drop_last());
    }
}

/// No subtree is an addition or subtraction of a zero literal, or a
/// multiplication by a literal one, from the left: on those trees the
/// optimizer's identity elimination fires again and changes the tree.
pub open spec fn no_identity_heads(n: NodeS) -> bool
    decreases n, 0nat,
{
    match n {
        NodeS::Add(l, r) => no_identity_heads(*l) && no_identity_heads(*r) && (*l matches
            NodeS::Number(d) ==> d.val() != 0),
        NodeS::Sub(l, r) => no_identity_heads(*l) && no_identity_heads(*r) && (*l matches
            NodeS::Number(d) ==> d.val() != 0),
        NodeS::Mul(l, r) => no_identity_heads(*l) && no_identity_heads(*r) && (*l matches
            NodeS::Number(d) ==> d.val() != Dec::one_val()),
        NodeS::Div(l, r) => no_identity_heads(*l) && no_identity_heads(*r),
        NodeS::Parentheses(x) => no_identity_heads(*x),
        NodeS::UnaryMinus(x) => no_identity_heads(*x),
        NodeS::Function(_, args) => args_no_identity_heads(args),
        _ => true,
    }
}

pub open spec fn args_no_identity_heads(args: Seq<NodeS>) -> bool
    decreases args, 1nat,
{
    if args.len() == 0 {
        true
    } else {
        args_no_identity_heads(args.drop_last()) && no_identity_heads(args.last())
    }
}

proof fn lemma_args_no_identity_index(args: Seq<NodeS>)
    requires
        args_no_identity_heads(args),
    ensures
        forall|i: int| 0 <= i < args.len() ==> no_identity_heads(#[trigger] args[i]),
    decreases args.len(),
{
    if args.len() > 0 {
        lemma_args_no_identity_index(args.drop_last());
        assert forall|i: int|
            0 <= i < args.len() implies no_identity_heads(#[trigger] args[i]) by {
            if i < args.len() - 1 {
                assert(args.drop_last()[i] == args[i]);
            }
        }
    }
}

// The shape lemma: each rewrite's output is again of optimized shape.

proof fn lemma_opt_add_shape(a: NodeS, b: NodeS)
    requires
        optimized_shape(a),
        optimized_shape(b),
        opt_add(a, b) is Ok,
    ensures
        optimized_shape(opt_add(a, b)->Ok_0),
{
    reveal_with_fuel(optimized_shape, 4);
    match b {
        NodeS::Number(_) => {
            match a {
                NodeS::Number(_) => {},
                NodeS::Add(sl, _) => {
                    match *sl {
                        NodeS::Number(_) => {},
                        _ => {},
                    }
                },
                NodeS::Sub(sl, _) => {
                    match *sl {
                        NodeS::Number(_) => {},
                        _ => {},
                    }
                },
                _ => {},
            }
        },
        _ => {
            match a {
                NodeS::Number(_) => {
                    match b {
                        NodeS::Add(sl, _) => {
                            match *sl {
                                NodeS::Number(_) => {},
                                _ => {},
                            }
                        },
                        NodeS::Sub(sl, _) => {
                            match *sl {
                                NodeS::Number(_) => {},
                                _ => {},
                            }
                        },
                        _ => {},
                    }
                },
                _ => {},
            }
        },
    }
}

proof fn lemma_opt_sub_shape(a: NodeS, b: NodeS)
    requires
        optimized_shape(a),
        optimized_shape(b),
        opt_sub(a, b) is Ok,
    ensures
        optimized_shape(opt_sub(a, b)->Ok_0),
{
    reveal_with_fuel(optimized_shape, 4);
    match b {
        NodeS::Number(_) => {
            match a {
                NodeS::Number(_) => {},
                NodeS::Add(sl, _) => {
                    match *sl {
                        NodeS::Number(_) => {},
                        _ => {},
                    }
                },
                NodeS::Sub(sl, _) => {
                    match *sl {
                        NodeS::Number(_) => {},
                        _ => {},
                    }
                },
                _ => {},
            }
        },
        _ => {
            match a {
                NodeS::Number(_) => {
                    match b {
                        NodeS::Add(sl, _) => {
                            match *sl {
                                NodeS::Number(_) => {},
                                _ => {},
                            }
                        },
                        NodeS::Sub(sl, _) => {
                            match *sl {
                                NodeS::Number(_) => {},
                                _ => {},
                            }
                        },
                        _ => {},
                    }
                },
                _ => {},
            }
        },
    }
}

proof fn lemma_opt_mul_shape(a: NodeS, b: NodeS)
    requires
        optimized_shape(a),
        optimized_shape(b),
        opt_mul(a, b) is Ok,
    ensures
        optimized_shape(opt_mul(a, b)->Ok_0),
{
    reveal_with_fuel(optimized_shape, 4);
    match b {
        NodeS::Number(_) => {
            match a {
                NodeS::Number(_) => {},
                NodeS::Mul(sl, _) => {
                    match *sl {
                        NodeS::Number(_) => {},
                        _ => {},
                    }
                },
                NodeS::Div(sl, _) => {
                    match *sl {
                        NodeS::Number(_) => {},
                        _ => {},
                    }
                },
                _ => {},
            }
        },
        _ => {
            match a {
                NodeS::Number(_) => {
                    match b {
                        NodeS::Mul(sl, _) => {
                            match *sl {
                                NodeS::Number(_) => {},
                                _ => {},
                            }
                        },
                        NodeS::Div(sl, _) => {
                            match *sl {
                                NodeS::Number(_) => {},
                                _ => {},
                            }
                        },
                        _ => {},
                    }
                },
                _ => {},
            }
        },
    }
}

proof fn lemma_opt_div_shape(a: NodeS, b: NodeS)
    requires
        optimized_shape(a),
        optimized_shape(b),
        opt_div(a, b) is Ok,
    ensures
        optimized_shape(opt_div(a, b)->Ok_0),
{
    reveal_with_fuel(optimized_shape, 4);
    match b {
        NodeS::Number(_) => {
            match a {
                NodeS::Number(_) => {},
                NodeS::Mul(sl, _) => {
                    match *sl {
                        NodeS::Number(_) => {},
                        _ => {},
                    }
                },
                NodeS::Div(sl, _) => {
                    match *sl {
                        NodeS::Number(_) => {},
                        _ => {},
                    }
                },
                _ => {},
            }
        },
        _ => {
            match a {
                NodeS::Number(_) => {
                    match b {
                        NodeS::Mul(sl, _) => {
                            match *sl {
                                NodeS::Number(_) => {},
                                _ => {},
                            }
                        },
                        NodeS::Div(sl, _) => {
                            match *sl {
                                NodeS::Number(_) => {},
                                _ => {},
                            }
                        },
                        _ => {},
                    }
                },
                _ => {},
            }
        },
    }
}

/// Whatever the optimizer produces has the optimized shape.
pub proof fn lemma_opt_shape(t: NodeS)
    requires
        opt_spec(t) is Ok,
    ensures
        optimized_shape(opt_spec(t)->Ok_0),
    decreases t, 1nat, 0nat,
{
    match t {
        NodeS::Parentheses(x) => {
            lemma_opt_shape(*x);
        },
        NodeS::UnaryMinus(x) => {
            lemma_opt_shape(*x);
        },
        NodeS::Add(l, r) => {
            lemma_opt_shape(*l);
            lemma_opt_shape(*r);
            lemma_opt_add_shape(opt_spec(*l)->Ok_0, opt_spec(*r)->Ok_0);
        },
        NodeS::Sub(l, r) => {
            lemma_opt_shape(*l);
            lemma_opt_shape(*r);
            lemma_opt_sub_shape(opt_spec(*l)->Ok_0, opt_spec(*r)->Ok_0);
        },
        NodeS::Mul(l, r) => {
            lemma_opt_shape(*l);
            lemma_opt_shape(*r);
            lemma_opt_mul_shape(opt_spec(*l)->Ok_0, opt_spec(*r)->Ok_0);
        },
        NodeS::Div(l, r) => {
            lemma_opt_shape(*l);
            lemma_opt_shape(*r);
            lemma_opt_div_shape(opt_spec(*l)->Ok_0, opt_spec(*r)->Ok_0);
        },
        NodeS::Function(name, args) => {
            lemma_opt_args_shape(args, args.len() as int);
        },
        _ => {},
    }
}

proof fn lemma_opt_args_shape(args: Seq<NodeS>, k: int)
    requires
        0 <= k <= args.len(),
        opt_args_spec(args, k) is Ok,
    ensures
        args_optimized(opt_args_spec(args, k)->Ok_0),
        opt_args_spec(args, k)->Ok_0.len() == k,
    decreases args, 2nat, k,
{
    if k > 0 {
        lemma_opt_args_shape(args, k - 1);
        lemma_opt_shape(args[k - 1]);
        let prefix = opt_args_spec(args, k - 1)->Ok_0;
        let whole = opt_args_spec(args, k)->Ok_0;
        assert(whole == prefix.push(opt_spec(args[k - 1])->Ok_0));
        assert(whole.drop_last() =~= prefix);
        assert(whole.last() == opt_spec(args[k - 1])->Ok_0);
    }
}

/// Optimizer idempotence, on one tree of optimized shape: re-optimizing a
/// tree the optimizer produced leaves it untouched, as long as no identity
/// elimination fires in it.
pub proof fn lemma_opt_stable(u: NodeS)
    requires
        optimized_shape(u),
        no_identity_heads(u),
    ensures
        opt_spec(u) == Ok::<NodeS, OptErrS>(u),
    decreases u, 1nat, 0nat,
{
    reveal_with_fuel(optimized_shape, 3);
    reveal_with_fuel(no_identity_heads, 3);
    reveal_with_fuel(opt_spec, 3);
    match u {
        NodeS::Add(l, r) => {
            lemma_opt_stable(*l);
            lemma_opt_stable(*r);
            assert(u == NodeS::Add(Box::new(*l), Box::new(*r)));
        },
        NodeS::Sub(l, r) => {
            lemma_opt_stable(*l);
            lemma_opt_stable(*r);
            assert(u == NodeS::Sub(Box::new(*l), Box::new(*r)));
        },
        NodeS::Mul(l, r) => {
            lemma_opt_stable(*l);
            lemma_opt_stable(*r);
            assert(u == NodeS::Mul(Box::new(*l), Box::new(*r)));
        },
        NodeS::Div(l, r) => {
            lemma_opt_stable(*l);
            lemma_opt_stable(*r);
            assert(u == NodeS::Div(Box::new(*l), Box::new(*r)));
        },
        NodeS::UnaryMinus(x) => {
            lemma_opt_stable(*x);
            assert(u == NodeS::UnaryMinus(Box::new(*x)));
        },
        NodeS::Function(name, args) => {
            lemma_args_optimized_index(args);
            lemma_args_no_identity_index(args);
            assert forall|i: int|
                0 <= i < args.len() implies opt_spec(#[trigger] args[i]) == Ok::<
                NodeS,
                OptErrS,
            >(args[i]) by {
                lemma_opt_stable(args[i]);
            }
            lemma_opt_args_stable(args, args.len() as int);
            assert(args.subrange(0, args.len() as int) =~= args);
        },
        _ => {},
    }
}

proof fn lemma_opt_args_stable(args: Seq<NodeS>, k: int)
    requires
        0 <= k <= args.len(),
        forall|i: int|
            0 <= i < args.len() ==> opt_spec(#[trigger] args[i]) == Ok::<NodeS, OptErrS>(args[i]),
    ensures
        opt_args_spec(args, k) == Ok::<Seq<NodeS>, OptErrS>(args.subrange(0, k)),
    decreases args, 2nat, k,
{
    if k > 0 {
        lemma_opt_args_stable(args, k - 1);
        assert(args.subrange(0, k) =~= args.subrange(0, k - 1).push(args[k - 1]));
    } else {
        assert(args.subrange(0, 0) =~= Seq::<NodeS>::empty());
    }
}

/// Optimizer idempotence: a second pass over an optimizer output changes
/// nothing, on every output without a zero literal standing left of an
/// addition or subtraction or a one literal standing left of a
/// multiplication; on those the identity elimination fires again.
pub proof fn lemma_optimize_idempotent(t: NodeS)
    requires
        opt_spec(t) is Ok,
        no_identity_heads(opt_spec(t)->Ok_0),
    ensures
        opt_spec(opt_spec(t)->Ok_0) == opt_spec(t),
{
    lemma_opt_shape(t);
    lemma_opt_stable(opt_spec(t)->Ok_0);
}

} // verus!
