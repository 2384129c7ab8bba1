//! The abstract syntax tree of an expression, its deterministic rendering
//! back to text, and the attach rule the parser uses to shape operator
//! chains.

use vstd::prelude::*;

use crate::decimal::{dec_text, u_digits, Dec};
use crate::refs::RefSet;
use crate::token::{Precedence, Token, TokenS};

verus! {

/// An expression tree.
#[derive(Debug)]
pub enum Node {
    Add(Box<Node>, Box<Node>),
    Sub(Box<Node>, Box<Node>),
    Mul(Box<Node>, Box<Node>),
    Div(Box<Node>, Box<Node>),
    Parentheses(Box<Node>),
    UnaryMinus(Box<Node>),
    Number(Dec),
    Cell(u32, u32),
    Function(String, Vec<Box<Node>>),
    Comment(String),
}

/// The mathematical shape of an expression tree: text as character
/// sequences, argument lists as sequences.
pub enum NodeS {
    Add(Box<NodeS>, Box<NodeS>),
    Sub(Box<NodeS>, Box<NodeS>),
    Mul(Box<NodeS>, Box<NodeS>),
    Div(Box<NodeS>, Box<NodeS>),
    Parentheses(Box<NodeS>),
    UnaryMinus(Box<NodeS>),
    Number(Dec),
    Cell(u32, u32),
    Function(Seq<char>, Seq<NodeS>),
    Comment(Seq<char>),
}

pub open spec fn node_view(n: Node) -> NodeS
    decreases n, 0nat,
{
    match n {
        Node::Add(l, r) => NodeS::Add(Box::new(node_view(*l)), Box::new(node_view(*r))),
        Node::Sub(l, r) => NodeS::Sub(Box::new(node_view(*l)), Box::new(node_view(*r))),
        Node::Mul(l, r) => NodeS::Mul(Box::new(node_view(*l)), Box::new(node_view(*r))),
        Node::Div(l, r) => NodeS::Div(Box::new(node_view(*l)), Box::new(node_view(*r))),
        Node::Parentheses(x) => NodeS::Parentheses(Box::new(node_view(*x))),
        Node::UnaryMinus(x) => NodeS::UnaryMinus(Box::new(node_view(*x))),
        Node::Number(d) => NodeS::Number(d),
        Node::Cell(c, r) => NodeS::Cell(c, r),
        Node::Function(name, args) => NodeS::Function(name@, args_views(args@)),
        Node::Comment(t) => NodeS::Comment(t@),
    }
}

pub open spec fn args_views(args: Seq<Box<Node>>) -> Seq<NodeS>
    decreases args, 1nat,
{
    if args.len() == 0 {
        Seq::empty()
    } else {
        args_views(args.drop_last()).push(node_view(*args.last()))
    }
}

pub broadcast proof fn lemma_args_views_len(args: Seq<Box<Node>>)
    ensures
        (#[trigger] args_views(args)).len() == args.len(),
        forall|i: int| 0 <= i < args.len() ==> args_views(args)[i] == node_view(*args[i]),
    decreases args.len(),
{
    if args.len() > 0 {
        lemma_args_views_len(args.drop_last());
    }
}

pub proof fn lemma_args_views_push(args: Seq<Box<Node>>, b: Box<Node>)
    ensures
        args_views(args.push(b)) == args_views(args).push(node_view(*b)),
{
    assert(args.push(b).drop_last() =~= args);
    assert(args.push(b).last() == b);
}

impl View for Node {
    type V = NodeS;

    open spec fn view(&self) -> NodeS {
        node_view(*self)
    }
}

// ---------------------------------------------------------------------------
// Well-formedness: every numeric literal in the tree is representable.
// ---------------------------------------------------------------------------
pub open spec fn node_wf(n: NodeS) -> bool
    decreases n, 0nat,
{
    match n {
        NodeS::Add(l, r) => node_wf(*l) && node_wf(*r),
        NodeS::Sub(l, r) => node_wf(*l) && node_wf(*r),
        NodeS::Mul(l, r) => node_wf(*l) && node_wf(*r),
        NodeS::Div(l, r) => node_wf(*l) && node_wf(*r),
        NodeS::Parentheses(x) => node_wf(*x),
        NodeS::UnaryMinus(x) => node_wf(*x),
        NodeS::Number(d) => d.wf(),
        NodeS::Cell(_, _) => true,
        NodeS::Function(_, args) => args_wf(args),
        NodeS::Comment(_) => true,
    }
}

pub open spec fn args_wf(args: Seq<NodeS>) -> bool
    decreases args, 1nat,
{
    if args.len() == 0 {
        true
    } else {
        args_wf(args.drop_last()) && node_wf(args.last())
    }
}

pub broadcast proof fn lemma_args_wf_index(args: Seq<NodeS>)
    requires
        #[trigger] args_wf(args),
    ensures
        forall|i: int| 0 <= i < args.len() ==> node_wf(#[trigger] args[i]),
    decreases args.len(),
{
    if args.len() > 0 {
        lemma_args_wf_index(args.drop_last());
        assert forall|i: int| 0 <= i < args.len() implies node_wf(args[i]) by {
            if i < args.len() - 1 {
                assert(args.drop_last()[i] == args[i]);
            }
        }
    }
}

/// The number of nodes in a tree, the measure for recursion over it.
pub open spec fn node_size(n: NodeS) -> nat
    decreases n, 0nat,
{
    match n {
        NodeS::Add(l, r) => 1 + node_size(*l) + node_size(*r),
        NodeS::Sub(l, r) => 1 + node_size(*l) + node_size(*r),
        NodeS::Mul(l, r) => 1 + node_size(*l) + node_size(*r),
        NodeS::Div(l, r) => 1 + node_size(*l) + node_size(*r),
        NodeS::Parentheses(x) => 1 + node_size(*x),
        NodeS::UnaryMinus(x) => 1 + node_size(*x),
        NodeS::Function(_, args) => 1 + args_size(args),
        _ => 1,
    }
}

pub open spec fn args_size(args: Seq<NodeS>) -> nat
    decreases args, 1nat,
{
    if args.len() == 0 {
        0
    } else {
        args_size(args.drop_last()) + node_size(args.last())
    }
}

pub proof fn lemma_args_size_index(args: Seq<NodeS>, i: int)
    requires
        0 <= i < args.len(),
    ensures
        node_size(args[i]) <= args_size(args),
    decreases args.len(),
{
    if i < args.len() - 1 {
        lemma_args_size_index(args.drop_last(), i);
        assert(args.drop_last()[i] == args[i]);
    }
}

/// Well-formedness of a list is well-formedness of its head and tail.
pub proof fn lemma_args_wf_cons(a: NodeS, rest: Seq<NodeS>)
    ensures
        args_wf(seq![a] + rest) == (node_wf(a) && args_wf(rest)),
    decreases rest.len(),
{
    reveal_with_fuel(args_wf, 3);
    if rest.len() == 0 {
        assert((seq![a] + rest).drop_last() =~= Seq::<NodeS>::empty());
        assert((seq![a] + rest).drop_last() == Seq::<NodeS>::empty());
        assert((seq![a] + rest).last() == a);
        assert(args_wf(seq![a] + rest) == (args_wf((seq![a] + rest).drop_last()) && node_wf(a)));
        assert(args_wf(Seq::<NodeS>::empty()));
        assert(args_wf(rest));
    } else {
        lemma_args_wf_cons(a, rest.drop_last());
        assert((seq![a] + rest).drop_last() =~= seq![a] + rest.drop_last());
        assert((seq![a] + rest).drop_last() == seq![a] + rest.drop_last());
        assert((seq![a] + rest).last() == rest.last());
        assert(args_wf(seq![a] + rest) == (args_wf(seq![a] + rest.drop_last()) && node_wf(
            rest.last(),
        )));
        assert(args_wf(rest) == (args_wf(rest.drop_last()) && node_wf(rest.last())));
    }
}

/// Well-formedness of a node gives well-formedness of its parts.
pub proof fn lemma_wf_parts(n: NodeS)
    requires
        node_wf(n),
    ensures
        n matches NodeS::Add(l, r) ==> node_wf(*l) && node_wf(*r),
        n matches NodeS::Sub(l, r) ==> node_wf(*l) && node_wf(*r),
        n matches NodeS::Mul(l, r) ==> node_wf(*l) && node_wf(*r),
        n matches NodeS::Div(l, r) ==> node_wf(*l) && node_wf(*r),
        n matches NodeS::Parentheses(x) ==> node_wf(*x),
        n matches NodeS::UnaryMinus(x) ==> node_wf(*x),
        n matches NodeS::Number(d) ==> d.wf(),
        n matches NodeS::Function(name, args) ==> args_wf(args),
{
}

// ---------------------------------------------------------------------------
// Precedence of a tree node.
// ---------------------------------------------------------------------------
pub open spec fn node_prec(n: NodeS) -> Precedence {
    match n {
        NodeS::Add(_, _) | NodeS::Sub(_, _) => Precedence::Binary(1),
        NodeS::Mul(_, _) | NodeS::Div(_, _) => Precedence::Binary(2),
        _ => Precedence::Unary,
    }
}

pub open spec fn prec_lt(a: Precedence, b: Precedence) -> bool {
    a.cmp_spec(b) == Some(core::cmp::Ordering::Less)
}

pub open spec fn prec_gt(a: Precedence, b: Precedence) -> bool {
    a.cmp_spec(b) == Some(core::cmp::Ordering::Greater)
}

impl Node {
    fn precedence(&self) -> (r: Precedence)
        ensures
            r == node_prec(self@),
    {
        match self {
            Node::Add(_, _) | Node::Sub(_, _) => Precedence::Binary(1),
            Node::Mul(_, _) | Node::Div(_, _) => Precedence::Binary(2),
            _ => Precedence::Unary,
        }
    }

    pub fn boxed(self) -> (r: Box<Node>)
        ensures
            *r == self,
    {
        Box::new(self)
    }
}

// ---------------------------------------------------------------------------
// Rendering a cell coordinate: bijective base-26 letters and a 1-based row.
// ---------------------------------------------------------------------------
pub open spec fn letter_char(n: int) -> char {
    ((65 + n) as u8) as char
}

pub open spec fn col_letters(n: nat) -> Seq<char>
    decreases n,
{
    if n < 26 {
        seq![letter_char(n as int)]
    } else {
        col_letters((n / 26 - 1) as nat).push(letter_char((n % 26) as int))
    }
}

pub open spec fn cell_text(col: u32, row: u32) -> Seq<char> {
    col_letters(col as nat) + u_digits((row + 1) as nat)
}

fn letter_exec(d: u32) -> (r: char)
    requires
        d < 26,
    ensures
        r == letter_char(d as int),
{
    ((65 + d as u8)) as char
}

fn push_col_letters(s: &mut String, num: u32)
    ensures
        final(s)@ == old(s)@ + col_letters(num as nat),
    decreases num,
{
    if num < 26 {
        crate::decimal::push_char(s, letter_exec(num));
        assert(final(s)@ =~= old(s)@ + col_letters(num as nat));
    } else {
        push_col_letters(s, num / 26 - 1);
        crate::decimal::push_char(s, letter_exec(num % 26));
        assert(final(s)@ =~= old(s)@ + col_letters(num as nat));
    }
}

/// Renders a coordinate as its textual cell address, `A1` for `(0, 0)`.
pub fn write_cell(col: u32, row: u32) -> (r: String)
    ensures
        r@ == cell_text(col, row),
{
    let mut s = String::new();
    push_col_letters(&mut s, col);
    crate::decimal::push_digits(&mut s, row as u128 + 1);
    s
}

// ---------------------------------------------------------------------------
// Rendering a tree back to text: operands are parenthesized only where their
// precedence is below the governing operator's.
// ---------------------------------------------------------------------------
pub open spec fn wrapped_text(operand: NodeS, op_prec: Precedence) -> Seq<char>
    decreases operand, 1nat, 0nat,
{
    if prec_lt(node_prec(operand), op_prec) {
        seq!['('] + node_text(operand) + seq![')']
    } else {
        node_text(operand)
    }
}

pub open spec fn node_text(n: NodeS) -> Seq<char>
    decreases n, 0nat, 0nat,
{
    match n {
        NodeS::Add(l, r) => wrapped_text(*l, Precedence::Binary(1)) + seq!['+'] + wrapped_text(
            *r,
            Precedence::Binary(1),
        ),
        NodeS::Sub(l, r) => wrapped_text(*l, Precedence::Binary(1)) + seq!['-'] + wrapped_text(
            *r,
            Precedence::Binary(1),
        ),
        NodeS::Mul(l, r) => wrapped_text(*l, Precedence::Binary(2)) + seq!['*'] + wrapped_text(
            *r,
            Precedence::Binary(2),
        ),
        NodeS::Div(l, r) => wrapped_text(*l, Precedence::Binary(2)) + seq!['/'] + wrapped_text(
            *r,
            Precedence::Binary(2),
        ),
        NodeS::Parentheses(x) => seq!['('] + node_text(*x) + seq![')'],
        NodeS::UnaryMinus(x) => if node_prec(*x) is Binary {
            seq!['-', '('] + node_text(*x) + seq![')']
        } else {
            seq!['-'] + node_text(*x)
        },
        NodeS::Number(d) => dec_text(d),
        NodeS::Cell(c, r) => cell_text(c, r),
        NodeS::Function(name, args) => name + seq!['('] + args_text(args, args.len() as int) + seq![
            ')',
        ],
        NodeS::Comment(t) => seq!['\''] + t,
    }
}

/// The text of the first `k` arguments, comma-separated.
pub open spec fn args_text(args: Seq<NodeS>, k: int) -> Seq<char>
    decreases args, 2nat, k,
{
    if k <= 0 || k > args.len() {
        Seq::empty()
    } else if k == 1 {
        node_text(args[0])
    } else {
        args_text(args, k - 1) + seq![','] + node_text(args[k - 1])
    }
}

fn push_wrapped(s: &mut String, operand: &Node, op_prec: Precedence)
    requires
        node_wf(operand@),
    ensures
        final(s)@ == old(s)@ + wrapped_text(operand@, op_prec),
    decreases *operand, 1nat, 0nat,
{
    let p = operand.precedence();
    if p < op_prec {
        crate::decimal::push_char(s, '(');
        push_node_text(s, operand);
        crate::decimal::push_char(s, ')');
        assert(final(s)@ =~= old(s)@ + wrapped_text(operand@, op_prec));
    } else {
        push_node_text(s, operand);
        assert(final(s)@ =~= old(s)@ + wrapped_text(operand@, op_prec));
    }
}

fn push_node_text(s: &mut String, n: &Node)
    requires
        node_wf(n@),
    ensures
        final(s)@ == old(s)@ + node_text(n@),
    decreases *n, 0nat, 0nat,
{
    broadcast use lemma_args_views_len;

    match n {
        Node::Add(l, r) => {
            push_wrapped(s, l, Precedence::Binary(1));
            crate::decimal::push_char(s, '+');
            push_wrapped(s, r, Precedence::Binary(1));
            assert(final(s)@ =~= old(s)@ + node_text(n@));
        },
        Node::Sub(l, r) => {
            push_wrapped(s, l, Precedence::Binary(1));
            crate::decimal::push_char(s, '-');
            push_wrapped(s, r, Precedence::Binary(1));
            assert(final(s)@ =~= old(s)@ + node_text(n@));
        },
        Node::Mul(l, r) => {
            push_wrapped(s, l, Precedence::Binary(2));
            crate::decimal::push_char(s, '*');
            push_wrapped(s, r, Precedence::Binary(2));
            assert(final(s)@ =~= old(s)@ + node_text(n@));
        },
        Node::Div(l, r) => {
            push_wrapped(s, l, Precedence::Binary(2));
            crate::decimal::push_char(s, '/');
            push_wrapped(s, r, Precedence::Binary(2));
            assert(final(s)@ =~= old(s)@ + node_text(n@));
        },
        Node::Parentheses(x) => {
            crate::decimal::push_char(s, '(');
            push_node_text(s, x);
            crate::decimal::push_char(s, ')');
            assert(final(s)@ =~= old(s)@ + node_text(n@));
        },
        Node::UnaryMinus(x) => {
            crate::decimal::push_char(s, '-');
            let p = x.precedence();
            match p {
                Precedence::Binary(_) => {
                    crate::decimal::push_char(s, '(');
                    push_node_text(s, x);
                    crate::decimal::push_char(s, ')');
                },
                Precedence::Unary => {
                    push_node_text(s, x);
                },
            }
            assert(final(s)@ =~= old(s)@ + node_text(n@));
        },
        Node::Number(d) => {
            let t = d.to_text();
            s.append(t.as_str());
            assert(final(s)@ =~= old(s)@ + node_text(n@));
        },
        Node::Cell(c, r) => {
            push_col_letters(s, *c);
            crate::decimal::push_digits(s, *r as u128 + 1);
            assert(final(s)@ =~= old(s)@ + node_text(n@));
        },
        Node::Function(name, args) => {
            s.append(name.as_str());
            crate::decimal::push_char(s, '(');
            push_args_text(s, args, args.len());
            crate::decimal::push_char(s, ')');
            assert(final(s)@ =~= old(s)@ + node_text(n@));
        },
        Node::Comment(t) => {
            crate::decimal::push_char(s, '\'');
            s.append(t.as_str());
            assert(final(s)@ =~= old(s)@ + node_text(n@));
        },
    }
}

fn push_args_text(s: &mut String, args: &Vec<Box<Node>>, k: usize)
    requires
        k <= args@.len(),
        args_wf(args_views(args@)),
    ensures
        final(s)@ == old(s)@ + args_text(args_views(args@), k as int),
    decreases *args, 2nat, k,
{
    broadcast use lemma_args_views_len;

    proof {
        lemma_args_views_len(args@);
        lemma_args_wf_index(args_views(args@));
    }
    if k == 0 {
        assert(final(s)@ =~= old(s)@ + args_text(args_views(args@), 0));
    } else if k == 1 {
        proof {
            assert(args_views(args@)[0] == node_view(*args@[0]));
        }
        push_node_text(s, &args[0]);
        assert(final(s)@ =~= old(s)@ + args_text(args_views(args@), 1));
    } else {
        push_args_text(s, args, k - 1);
        crate::decimal::push_char(s, ',');
        proof {
            assert(args_views(args@)[k - 1] == node_view(*args@[k - 1]));
        }
        push_node_text(s, &args[k - 1]);
        assert(final(s)@ =~= old(s)@ + args_text(args_views(args@), k as int));
    }
}

impl Node {
    /// Renders the tree to its textual form.
    pub fn to_text(&self) -> (r: String)
        requires
            node_wf(self@),
        ensures
            r@ == node_text(self@),
    {
        let mut s = String::new();
        push_node_text(&mut s, self);
        proof {
            assert(s@ =~= node_text(self@));
        }
        s
    }
}

// ---------------------------------------------------------------------------
// Joining a left operand onto a tree with a binary operator: when the
// incoming operator binds tighter than the tree's root, it is rotated into
// the root's left child.
// ---------------------------------------------------------------------------
pub open spec fn join_spec(left: NodeS, token: TokenS, right: NodeS) -> NodeS {
    match token {
        TokenS::Plus => NodeS::Add(Box::new(left), Box::new(right)),
        TokenS::Minus => NodeS::Sub(Box::new(left), Box::new(right)),
        TokenS::Mul => NodeS::Mul(Box::new(left), Box::new(right)),
        TokenS::Div => NodeS::Div(Box::new(left), Box::new(right)),
        _ => left,
    }
}

pub open spec fn attach_spec(left: NodeS, token: TokenS, node: NodeS) -> NodeS {
    if prec_gt(token.precedence_spec(), node_prec(node)) {
        match node {
            NodeS::Add(sl, sr) => NodeS::Add(Box::new(join_spec(left, token, *sl)), sr),
            NodeS::Sub(sl, sr) => NodeS::Sub(Box::new(join_spec(left, token, *sl)), sr),
            NodeS::Mul(sl, sr) => NodeS::Mul(Box::new(join_spec(left, token, *sl)), sr),
            NodeS::Div(sl, sr) => NodeS::Div(Box::new(join_spec(left, token, *sl)), sr),
            _ => join_spec(left, token, node),
        }
    } else {
        join_spec(left, token, node)
    }
}

impl Node {
    fn join_with_token(left: Box<Node>, token: Token, right: Box<Node>) -> (r: Box<Node>)
        requires
            token@.precedence_spec() is Binary,
        ensures
            r@ == join_spec(left@, token@, right@),
    {
        match token {
            Token::Plus => Node::Add(left, right).boxed(),
            Token::Minus => Node::Sub(left, right).boxed(),
            Token::Mul => Node::Mul(left, right).boxed(),
            Token::Div => Node::Div(left, right).boxed(),
            _ => {
                proof {
                    assert(false);
                }
                left
            },
        }
    }

    /// Attaches `self` as the left operand of `token`, rotating into `node`'s
    /// left spine when the operator binds tighter than `node`'s root.
    pub fn attach(self: Box<Node>, token: Token, node: Box<Node>) -> (r: Box<Node>)
        requires
            token@.precedence_spec() is Binary,
        ensures
            r@ == attach_spec(self@, token@, node@),
            node_wf(self@) && node_wf(node@) ==> node_wf(r@),
    {
        proof {
            reveal_with_fuel(node_view, 4);
            reveal_with_fuel(node_wf, 4);
            if node_wf(node@) {
                lemma_wf_parts(node@);
            }
        }
        let tp = token.precedence();
        let np = node.precedence();
        if tp > np {
            match *node {
                Node::Add(left, right) => Node::Add(
                    Node::join_with_token(self, token, left),
                    right,
                ).boxed(),
                Node::Sub(left, right) => Node::Sub(
                    Node::join_with_token(self, token, left),
                    right,
                ).boxed(),
                Node::Mul(left, right) => Node::Mul(
                    Node::join_with_token(self, token, left),
                    right,
                ).boxed(),
                Node::Div(left, right) => Node::Div(
                    Node::join_with_token(self, token, left),
                    right,
                ).boxed(),
                other => {
                    proof {
                        assert(false);
                    }
                    other.boxed()
                },
            }
        } else {
            Node::join_with_token(self, token, node)
        }
    }
}

// ---------------------------------------------------------------------------
// Equality of trees: numbers compare by value, text by its characters.
// ---------------------------------------------------------------------------
pub open spec fn node_eq(a: NodeS, b: NodeS) -> bool
    decreases a, 0nat,
{
    match (a, b) {
        (NodeS::Add(al, ar), NodeS::Add(bl, br)) => node_eq(*al, *bl) && node_eq(*ar, *br),
        (NodeS::Sub(al, ar), NodeS::Sub(bl, br)) => node_eq(*al, *bl) && node_eq(*ar, *br),
        (NodeS::Mul(al, ar), NodeS::Mul(bl, br)) => node_eq(*al, *bl) && node_eq(*ar, *br),
        (NodeS::Div(al, ar), NodeS::Div(bl, br)) => node_eq(*al, *bl) && node_eq(*ar, *br),
        (NodeS::Parentheses(x), NodeS::Parentheses(y)) => node_eq(*x, *y),
        (NodeS::UnaryMinus(x), NodeS::UnaryMinus(y)) => node_eq(*x, *y),
        (NodeS::Number(x), NodeS::Number(y)) => x.norm_spec() == y.norm_spec(),
        (NodeS::Cell(c1, r1), NodeS::Cell(c2, r2)) => c1 == c2 && r1 == r2,
        (NodeS::Function(n1, a1), NodeS::Function(n2, a2)) => n1 == n2 && args_eq(a1, a2),
        (NodeS::Comment(x), NodeS::Comment(y)) => x == y,
        _ => false,
    }
}

pub open spec fn args_eq(x: Seq<NodeS>, y: Seq<NodeS>) -> bool
    decreases x, 1nat,
{
    x.len() == y.len() && (x.len() == 0 || (node_eq(x[0], y[0]) && args_eq(
        x.subrange(1, x.len() as int),
        y.subrange(1, y.len() as int),
    )))
}

proof fn lemma_args_eq_index(x: Seq<NodeS>, y: Seq<NodeS>)
    ensures
        args_eq(x, y) <==> (x.len() == y.len() && forall|i: int|
            0 <= i < x.len() ==> node_eq(#[trigger] x[i], y[i])),
    decreases x.len(),
{
    if x.len() > 0 && x.len() == y.len() {
        lemma_args_eq_index(x.subrange(1, x.len() as int), y.subrange(1, y.len() as int));
        if args_eq(x, y) {
            assert forall|i: int| 0 <= i < x.len() implies node_eq(#[trigger] x[i], y[i]) by {
                if i > 0 {
                    assert(x.subrange(1, x.len() as int)[i - 1] == x[i]);
                    assert(y.subrange(1, y.len() as int)[i - 1] == y[i]);
                }
            }
        }
        if x.len() == y.len() && forall|i: int| 0 <= i < x.len() ==> node_eq(#[trigger] x[i], y[i]) {
            assert forall|i: int|
                0 <= i < x.len() - 1 implies node_eq(
                #[trigger] x.subrange(1, x.len() as int)[i],
                y.subrange(1, y.len() as int)[i],
            ) by {
                assert(x.subrange(1, x.len() as int)[i] == x[i + 1]);
            }
        }
    }
}

fn nodes_vec_eq(x: &Vec<Box<Node>>, y: &Vec<Box<Node>>) -> (r: bool)
    ensures
        r == args_eq(args_views(x@), args_views(y@)),
    decreases *x, 1nat,
{
    proof {
        broadcast use lemma_args_views_len;

        lemma_args_eq_index(args_views(x@), args_views(y@));
    }
    let n = x.len();
    if n != y.len() {
        return false;
    }
    let mut i: usize = 0;
    while i < n
        invariant
            i <= n == x@.len() == y@.len(),
            forall|k: int|
                0 <= k < i ==> node_eq(#[trigger] args_views(x@)[k], args_views(y@)[k]),
        decreases n - i,
    {
        proof {
            lemma_args_views_len(x@);
            lemma_args_views_len(y@);
            assert(args_views(x@)[i as int] == node_view(*x@[i as int]));
            assert(args_views(y@)[i as int] == node_view(*y@[i as int]));
        }
        if !(*x[i] == *y[i]) {
            proof {
                lemma_args_eq_index(args_views(x@), args_views(y@));
            }
            return false;
        }
        i = i + 1;
    }
    proof {
        lemma_args_views_len(x@);
        lemma_args_views_len(y@);
        lemma_args_eq_index(args_views(x@), args_views(y@));
    }
    true
}

impl PartialEq for Node {
    fn eq(&self, other: &Node) -> (r: bool)
        decreases *self, 0nat,
    {
        match (self, other) {
            (Node::Add(al, ar), Node::Add(bl, br)) => **al == **bl && **ar == **br,
            (Node::Sub(al, ar), Node::Sub(bl, br)) => **al == **bl && **ar == **br,
            (Node::Mul(al, ar), Node::Mul(bl, br)) => **al == **bl && **ar == **br,
            (Node::Div(al, ar), Node::Div(bl, br)) => **al == **bl && **ar == **br,
            (Node::Parentheses(x), Node::Parentheses(y)) => **x == **y,
            (Node::UnaryMinus(x), Node::UnaryMinus(y)) => **x == **y,
            (Node::Number(x), Node::Number(y)) => *x == *y,
            (Node::Cell(c1, r1), Node::Cell(c2, r2)) => *c1 == *c2 && *r1 == *r2,
            (Node::Function(n1, a1), Node::Function(n2, a2)) => *n1 == *n2 && nodes_vec_eq(
                a1,
                a2,
            ),
            (Node::Comment(x), Node::Comment(y)) => *x == *y,
            _ => false,
        }
    }
}

impl vstd::std_specs::cmp::PartialEqSpecImpl for Node {
    open spec fn obeys_eq_spec() -> bool {
        true
    }

    open spec fn eq_spec(&self, other: &Node) -> bool {
        node_eq(self@, other@)
    }
}

// ---------------------------------------------------------------------------
// The cell coordinates a tree reads.
// ---------------------------------------------------------------------------
pub open spec fn node_deps(n: NodeS) -> Set<(u32, u32)>
    decreases n, 0nat,
{
    match n {
        NodeS::Add(l, r) => node_deps(*l) + node_deps(*r),
        NodeS::Sub(l, r) => node_deps(*l) + node_deps(*r),
        NodeS::Mul(l, r) => node_deps(*l) + node_deps(*r),
        NodeS::Div(l, r) => node_deps(*l) + node_deps(*r),
        NodeS::Parentheses(x) => node_deps(*x),
        NodeS::UnaryMinus(x) => node_deps(*x),
        NodeS::Cell(c, r) => Set::empty().insert((c, r)),
        NodeS::Function(_, args) => args_deps(args),
        NodeS::Number(_) => Set::empty(),
        NodeS::Comment(_) => Set::empty(),
    }
}

pub open spec fn args_deps(args: Seq<NodeS>) -> Set<(u32, u32)>
    decreases args, 1nat,
{
    if args.len() == 0 {
        Set::empty()
    } else {
        args_deps(args.drop_last()) + node_deps(args.last())
    }
}

fn add_subtree_deps(dependencies: &mut RefSet, node: &Node)
    requires
        old(dependencies).wf(),
    ensures
        final(dependencies).wf(),
        final(dependencies)@ =~= old(dependencies)@ + node_deps(node@),
    decreases *node, 0nat, 0nat,
{
    match node {
        Node::Add(l, r) => {
            add_subtree_deps(dependencies, l);
            add_subtree_deps(dependencies, r);
            assert(dependencies@ =~= old(dependencies)@ + node_deps(node@));
        },
        Node::Sub(l, r) => {
            add_subtree_deps(dependencies, l);
            add_subtree_deps(dependencies, r);
            assert(dependencies@ =~= old(dependencies)@ + node_deps(node@));
        },
        Node::Mul(l, r) => {
            add_subtree_deps(dependencies, l);
            add_subtree_deps(dependencies, r);
            assert(dependencies@ =~= old(dependencies)@ + node_deps(node@));
        },
        Node::Div(l, r) => {
            add_subtree_deps(dependencies, l);
            add_subtree_deps(dependencies, r);
            assert(dependencies@ =~= old(dependencies)@ + node_deps(node@));
        },
        Node::Parentheses(x) => {
            add_subtree_deps(dependencies, x);
        },
        Node::UnaryMinus(x) => {
            add_subtree_deps(dependencies, x);
        },
        Node::Cell(c, r) => {
            dependencies.insert((*c, *r));
            assert(dependencies@ =~= old(dependencies)@ + node_deps(node@));
        },
        Node::Function(_, args) => {
            add_args_deps(dependencies, args, args.len());
            proof {
                lemma_args_views_len(args@);
                assert(args_views(args@).subrange(0, args@.len() as int) =~= args_views(args@));
                assert(dependencies@ =~= old(dependencies)@ + node_deps(node@));
            }
        },
        Node::Number(_) => {
            assert(dependencies@ =~= old(dependencies)@ + node_deps(node@));
        },
        Node::Comment(_) => {
            assert(dependencies@ =~= old(dependencies)@ + node_deps(node@));
        },
    }
}

fn add_args_deps(dependencies: &mut RefSet, args: &Vec<Box<Node>>, k: usize)
    requires
        old(dependencies).wf(),
        k <= args@.len(),
    ensures
        final(dependencies).wf(),
        final(dependencies)@ =~= old(dependencies)@ + args_deps(
            args_views(args@).subrange(0, k as int),
        ),
    decreases *args, 1nat, k,
{
    proof {
        broadcast use lemma_args_views_len;

    }
    if k == 0 {
    } else {
        add_args_deps(dependencies, args, k - 1);
        add_subtree_deps(dependencies, &args[k - 1]);
        proof {
            let av = args_views(args@);
            assert(av.subrange(0, k as int).drop_last() =~= av.subrange(0, k - 1));
            assert(av.subrange(0, k as int).last() == av[k - 1]);
        }
    }
}

/// Collects the set of cell coordinates the tree references.
pub fn get_cell_dependencies(node: &Node) -> (r: RefSet)
    ensures
        r.wf(),
        r@ =~= node_deps(node@),
{
    let mut res = RefSet::new();
    add_subtree_deps(&mut res, node);
    res
}

} // verus!
