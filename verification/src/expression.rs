//! A compiled formula: the tree paired with the set of cells it reads.

use vstd::prelude::*;

use crate::decimal::Dec;
use crate::node::{node_deps, node_text, node_wf, Node, NodeS};
use crate::optimize::{opt_err_text, opt_spec};
use crate::parse::parse_spec;
use crate::refs::RefSet;
use crate::solve::{eval_spec, has_function, CellLookup, FuncTable};
use crate::tokenize::{infos_view, tokenize_spec, Tokenizer};

verus! {

/// An immutable compiled formula: the tree and its referenced cells.
pub struct Expression {
    pub node: Box<Node>,
    pub cell_dependencies: RefSet,
}

impl Expression {
    /// The dependency set mirrors the tree, and every literal in the tree is
    /// representable.
    pub open spec fn wf(self) -> bool {
        &&& node_wf(self.node@)
        &&& self.cell_dependencies.wf()
        &&& self.cell_dependencies@ == node_deps(self.node@)
    }

    /// What compiling a text yields: scan, parse, and optionally optimize.
    pub open spec fn from_spec(s: Seq<char>, optimize: bool) -> Result<NodeS, Seq<char>> {
        match tokenize_spec(s) {
            Err(m) => Err(m),
            Ok(ts) => match parse_spec(s, ts) {
                Err(m) => Err(m),
                Ok(n) => if optimize {
                    match opt_spec(n) {
                        Ok(u) => Ok(u),
                        Err(e) => Err(opt_err_text(e)),
                    }
                } else {
                    Ok(n)
                },
            },
        }
    }

    fn from_node(node: Box<Node>) -> (r: Expression)
        requires
            node_wf(node@),
        ensures
            r.node == node,
            r.wf(),
    {
        let cell_dependencies = crate::node::get_cell_dependencies(&node);
        Expression { node, cell_dependencies }
    }

    /// Compiles an expression text, optionally through the optimizer.
    pub fn from(expression: &str, optimize: bool) -> (r: Result<Expression, String>)
        ensures
            match Expression::from_spec(expression@, optimize) {
                Ok(n) => r matches Ok(e) && e.node@ == n && e.wf(),
                Err(m) => r matches Err(e) && e@ == m,
            },
    {
        let mut tokenizer = match Tokenizer::from(expression) {
            Ok(t) => t,
            Err(e) => {
                return Err(e);
            },
        };
        proof {
            if tokenize_spec(expression@) is Ok {
                crate::tokenize::lemma_tokenize_tokens_wf(expression@);
            }
        }
        let parsed = match crate::parse::parse(&mut tokenizer) {
            Ok(b) => b,
            Err(e) => {
                return Err(e);
            },
        };
        if optimize {
            match crate::optimize::optimize(parsed) {
                Ok(optimized) => Ok(Expression::from_node(optimized)),
                Err(e) => Err(e),
            }
        } else {
            Ok(Expression::from_node(parsed))
        }
    }

    /// The set of cells the formula reads.
    pub fn get_cell_dependencies(&self) -> (r: &RefSet)
        ensures
            *r == self.cell_dependencies,
    {
        &self.cell_dependencies
    }

    /// Evaluates the formula; exact for formulas without function calls.
    pub fn solve<L: CellLookup, F: FuncTable>(&self, lookup: &L, functions: &F) -> (r: Result<
        Dec,
        String,
    >)
        requires
            self.wf(),
            lookup.inv(),
        ensures
            r matches Ok(d) ==> d.wf(),
            !has_function(self.node@) ==> match eval_spec(self.node@, lookup) {
                Ok(v) => r matches Ok(d) && d == v,
                Err(m) => r matches Err(e) && e@ == m,
            },
    {
        crate::solve::solve(&self.node, lookup, functions)
    }

    /// The comment text, for a formula that is a leading-quote comment.
    pub fn comment(&self) -> (r: Option<String>)
        ensures
            match self.node@ {
                NodeS::Comment(c) => r matches Some(s) && s@ == c,
                _ => r is None,
            },
    {
        match &*self.node {
            Node::Comment(comment) => Some(comment.clone()),
            _ => None,
        }
    }

    /// Renders the formula back to its textual form.
    pub fn to_text(&self) -> (r: String)
        requires
            self.wf(),
        ensures
            r@ == node_text(self.node@),
    {
        self.node.to_text()
    }
}

} // verus!
