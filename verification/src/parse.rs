//! The recursive-descent parser: a token stream to one expression tree, with
//! precedence handled by the attach rule.

use vstd::prelude::*;

use crate::decimal::{digit_of, is_digit_char};
use crate::node::{attach_spec, Node, NodeS};
use crate::token::{tokens_wf, Token, TokenInfoS, TokenS};
use crate::tokenize::{err_msg_spec, is_alpha_char, Tokenizer};

verus! {

pub open spec fn unexpected_token_msg() -> Seq<char> {
    "Unexpected token"@
}

pub open spec fn unexpected_end_msg() -> Seq<char> {
    "Unexpected end of expression"@
}

pub open spec fn expected_opening_msg() -> Seq<char> {
    "Expected opening parenthesis"@
}

pub open spec fn expected_closing_msg() -> Seq<char> {
    "Expected closing parenthesis"@
}

// ---------------------------------------------------------------------------
// Decoding a cell coordinate from its textual column letters and row digits.
// ---------------------------------------------------------------------------
/// The 1-based numeric value of a column name: base-26 over its letters,
/// case ignored.
pub open spec fn col_num(s: Seq<char>) -> int
    decreases s.len(),
{
    if s.len() == 0 {
        0
    } else {
        col_num(s.drop_last()) * 26 + (upper_code(s.last()) - 64)
    }
}

/// The character's code with a lowercase letter folded to uppercase.
pub open spec fn upper_code(c: char) -> int {
    if 'a' <= c && c <= 'z' {
        (c as u32) as int - 32
    } else {
        (c as u32) as int
    }
}

/// The numeric value of a digit run.
pub open spec fn row_num(s: Seq<char>) -> int
    decreases s.len(),
{
    if s.len() == 0 {
        0
    } else {
        row_num(s.drop_last()) * 10 + digit_of(s.last())
    }
}

proof fn lemma_col_num_mono(s: Seq<char>, i: int, j: int)
    requires
        0 <= i <= j <= s.len(),
        forall|k: int| 0 <= k < s.len() ==> is_alpha_char(#[trigger] s[k]),
    ensures
        0 <= col_num(s.subrange(0, i)) <= col_num(s.subrange(0, j)),
    decreases j - i,
{
    if i == j {
        lemma_col_num_nonneg(s.subrange(0, i));
    } else {
        lemma_col_num_mono(s, i, j - 1);
        let p = s.subrange(0, j);
        assert(p.drop_last() =~= s.subrange(0, j - 1));
        assert(upper_code(p.last()) - 64 >= 1);
        assert(col_num(s.subrange(0, j - 1)) * 26 >= col_num(s.subrange(0, j - 1))) by (nonlinear_arith)
            requires
                col_num(s.subrange(0, j - 1)) >= 0,
        ;
    }
}

proof fn lemma_col_num_nonneg(s: Seq<char>)
    ensures
        col_num(s) >= 0 || exists|k: int| 0 <= k < s.len() && !is_alpha_char(#[trigger] s[k]),
    decreases s.len(),
{
    if s.len() > 0 {
        lemma_col_num_nonneg(s.drop_last());
        if col_num(s.drop_last()) >= 0 && is_alpha_char(s.last()) {
            assert(col_num(s.drop_last()) * 26 >= 0) by (nonlinear_arith)
                requires
                    col_num(s.drop_last()) >= 0,
            ;
            assert(upper_code(s.last()) - 64 >= 1);
        } else if col_num(s.drop_last()) < 0 {
            let k = choose|k: int| 0 <= k < s.drop_last().len() && !is_alpha_char(s.drop_last()[k]);
            assert(s[k] == s.drop_last()[k]);
        } else {
            assert(!is_alpha_char(s[s.len() - 1]));
        }
    }
}

proof fn lemma_row_num_mono(s: Seq<char>, i: int, j: int)
    requires
        0 <= i <= j <= s.len(),
        forall|k: int| 0 <= k < s.len() ==> is_digit_char(#[trigger] s[k]),
    ensures
        0 <= row_num(s.subrange(0, i)) <= row_num(s.subrange(0, j)),
    decreases j - i,
{
    if i == j {
        lemma_row_num_nonneg(s.subrange(0, i), s);
    } else {
        lemma_row_num_mono(s, i, j - 1);
        let p = s.subrange(0, j);
        assert(p.drop_last() =~= s.subrange(0, j - 1));
        assert(digit_of(p.last()) >= 0);
        assert(row_num(s.subrange(0, j - 1)) * 10 >= row_num(s.subrange(0, j - 1))) by (nonlinear_arith)
            requires
                row_num(s.subrange(0, j - 1)) >= 0,
        ;
    }
}

proof fn lemma_row_num_nonneg(p: Seq<char>, s: Seq<char>)
    requires
        forall|k: int| 0 <= k < s.len() ==> is_digit_char(#[trigger] s[k]),
        exists|i: int| 0 <= i <= s.len() && p =~= s.subrange(0, i),
    ensures
        row_num(p) >= 0,
    decreases p.len(),
{
    if p.len() > 0 {
        let i = choose|i: int| 0 <= i <= s.len() && p =~= s.subrange(0, i);
        assert(p.drop_last() =~= s.subrange(0, i - 1));
        lemma_row_num_nonneg(p.drop_last(), s);
        assert(is_digit_char(p.last())) by { assert(p.last() == s[i - 1]) };
        assert(row_num(p.drop_last()) * 10 >= 0) by (nonlinear_arith)
            requires
                row_num(p.drop_last()) >= 0,
        ;
    }
}

/// Decodes column letters to a zero-based column index; `None` where the
/// column would not fit a `u32`.
pub fn decode_cell_col(col: &str) -> (r: Option<u32>)
    requires
        forall|k: int| 0 <= k < col@.len() ==> is_alpha_char(#[trigger] col@[k]),
    ensures
        r is Some <==> 1 <= col_num(col@) <= 1 + u32::MAX,
        r matches Some(v) ==> v == col_num(col@) - 1,
{
    let n = col.unicode_len();
    let mut acc: u64 = 0;
    let mut i: usize = 0;
    proof {
        lemma_col_num_mono(col@, 0, col@.len() as int);
    }
    while i < n
        invariant
            i <= n == col@.len(),
            forall|k: int| 0 <= k < col@.len() ==> is_alpha_char(#[trigger] col@[k]),
            acc == col_num(col@.subrange(0, i as int)),
            acc <= 1 + u32::MAX as u64,
        decreases n - i,
    {
        let c = col.get_char(i);
        let code = c as u32;
        let up: u32 = if code >= 97 && code <= 122 {
            code - 32
        } else {
            code
        };
        proof {
            assert(col@.subrange(0, i + 1).drop_last() =~= col@.subrange(0, i as int));
            assert(col@.subrange(0, i + 1).last() == col@[i as int]);
            assert(is_alpha_char(col@[i as int]));
        }
        acc = acc * 26 + (up - 64) as u64;
        i = i + 1;
        if acc > 1 + u32::MAX as u64 {
            proof {
                lemma_col_num_mono(col@, i as int, col@.len() as int);
                assert(col@.subrange(0, col@.len() as int) =~= col@);
            }
            return None;
        }
    }
    proof {
        assert(col@.subrange(0, n as int) =~= col@);
        lemma_col_num_mono(col@, 0, col@.len() as int);
    }
    if acc == 0 {
        None
    } else {
        Some((acc - 1) as u32)
    }
}

/// Decodes a row digit run to a zero-based row index; `None` where the
/// 1-based row would be zero or not fit a `u32`.
pub fn decode_cell_row(row: &str) -> (r: Option<u32>)
    requires
        forall|k: int| 0 <= k < row@.len() ==> is_digit_char(#[trigger] row@[k]),
    ensures
        r is Some <==> 1 <= row_num(row@) <= u32::MAX,
        r matches Some(v) ==> v == row_num(row@) - 1,
{
    let n = row.unicode_len();
    let mut acc: u64 = 0;
    let mut i: usize = 0;
    while i < n
        invariant
            i <= n == row@.len(),
            forall|k: int| 0 <= k < row@.len() ==> is_digit_char(#[trigger] row@[k]),
            acc == row_num(row@.subrange(0, i as int)),
            acc <= u32::MAX as u64,
        decreases n - i,
    {
        let c = row.get_char(i);
        let code = c as u32;
        proof {
            assert(row@.subrange(0, i + 1).drop_last() =~= row@.subrange(0, i as int));
            assert(row@.subrange(0, i + 1).last() == row@[i as int]);
            assert(is_digit_char(row@[i as int]));
        }
        acc = acc * 10 + (code - 48) as u64;
        i = i + 1;
        if acc > u32::MAX as u64 {
            proof {
                lemma_row_num_mono(row@, i as int, row@.len() as int);
                assert(row@.subrange(0, row@.len() as int) =~= row@);
            }
            return None;
        }
    }
    proof {
        assert(row@.subrange(0, n as int) =~= row@);
    }
    if acc == 0 {
        None
    } else {
        Some((acc - 1) as u32)
    }
}

// ---------------------------------------------------------------------------
// Lowercasing an ASCII identifier, as function names are folded at parse
// time.
// ---------------------------------------------------------------------------
pub open spec fn lower_char(c: char) -> char {
    if 'A' <= c && c <= 'Z' {
        ((c as u32 + 32) as u8) as char
    } else {
        c
    }
}

pub open spec fn ascii_lower(s: Seq<char>) -> Seq<char> {
    s.map(|i: int, c: char| lower_char(c))
}

fn ascii_lower_string(s: &str) -> (r: String)
    ensures
        r@ == ascii_lower(s@),
{
    let n = s.unicode_len();
    let mut r = String::new();
    let mut i: usize = 0;
    while i < n
        invariant
            i <= n == s@.len(),
            r@ == ascii_lower(s@).subrange(0, i as int),
        decreases n - i,
    {
        let c = s.get_char(i);
        let code = c as u32;
        let lc: char = if code >= 65 && code <= 90 {
            ((code + 32) as u8) as char
        } else {
            c
        };
        crate::decimal::push_char(&mut r, lc);
        proof {
            assert(r@ =~= ascii_lower(s@).subrange(0, i + 1));
        }
        i = i + 1;
    }
    proof {
        assert(r@ =~= ascii_lower(s@));
    }
    r
}

// ---------------------------------------------------------------------------
// The grammar: what the parser yields on a token stream, position by
// position. Each spec function returns the parse result and the position
// that follows what was consumed.
// ---------------------------------------------------------------------------
pub open spec fn peek_tok(toks: Seq<TokenInfoS>, pos: nat) -> Option<TokenS> {
    if pos < toks.len() {
        Some(toks[pos as int].token)
    } else {
        None
    }
}

/// The diagnostic at a token position: under the token's span, or one past
/// the end of the expression.
pub open spec fn err_at(expr: Seq<char>, toks: Seq<TokenInfoS>, pos: nat, msg: Seq<char>) -> Seq<
    char,
> {
    if pos < toks.len() {
        err_msg_spec(expr, toks[pos as int].position, toks[pos as int].length, msg)
    } else {
        err_msg_spec(expr, expr.len(), 1, msg)
    }
}

/// What parsing one expression from `pos` yields; in greedy mode a binary
/// operator chain is folded in by the attach rule.
pub open spec fn parse_expr_spec(
    expr: Seq<char>,
    toks: Seq<TokenInfoS>,
    pos: nat,
    greedy: bool,
) -> (Result<NodeS, Seq<char>>, nat)
    decreases toks.len() - pos, 3nat,
{
    let prim = parse_primary_spec(expr, toks, pos);
    match prim {
        (Err(e), p) => (Err(e), p),
        (Ok(node), p1) => {
            if greedy && pos < p1 && p1 < toks.len() && toks[p1 as int].token.precedence_spec()
                is Binary {
                let t = toks[p1 as int].token;
                match parse_expr_spec(expr, toks, p1 + 1, true) {
                    (Ok(right), p2) => (Ok(attach_spec(node, t, right)), p2),
                    (Err(e), p2) => (Err(e), p2),
                }
            } else {
                (Ok(node), p1)
            }
        },
    }
}

/// What parsing one primary expression from `pos` yields.
pub open spec fn parse_primary_spec(expr: Seq<char>, toks: Seq<TokenInfoS>, pos: nat) -> (Result<
    NodeS,
    Seq<char>,
>, nat)
    decreases toks.len() - pos, 2nat,
{
    match peek_tok(toks, pos) {
        None => (Err(err_at(expr, toks, pos, unexpected_end_msg())), pos),
        Some(TokenS::Comment(c)) => (Ok(NodeS::Comment(c)), pos + 1),
        Some(TokenS::LPar) => {
            match parse_expr_spec(expr, toks, pos + 1, true) {
                (Ok(inner), p2) => if peek_tok(toks, p2) matches Some(TokenS::RPar) {
                    (Ok(NodeS::Parentheses(Box::new(inner))), p2 + 1)
                } else {
                    (Err(err_at(expr, toks, p2, expected_closing_msg())), p2)
                },
                (Err(e), p2) => (Err(e), p2),
            }
        },
        Some(TokenS::RPar) | Some(TokenS::Comma) | Some(TokenS::Plus) | Some(TokenS::Mul) | Some(
            TokenS::Div,
        ) => (Err(err_at(expr, toks, pos, unexpected_token_msg())), pos),
        Some(TokenS::Minus) => {
            if peek_tok(toks, pos + 1) matches Some(TokenS::Minus) {
                (Err(err_at(expr, toks, pos + 1, unexpected_token_msg())), pos + 1)
            } else {
                match parse_expr_spec(expr, toks, pos + 1, false) {
                    (Ok(x), p2) => (Ok(NodeS::UnaryMinus(Box::new(x))), p2),
                    (Err(e), p2) => (Err(e), p2),
                }
            }
        },
        Some(TokenS::Symbol(ident)) => {
            let name = ascii_lower(ident);
            if peek_tok(toks, pos + 1) matches Some(TokenS::LPar) {
                if peek_tok(toks, pos + 2) matches Some(TokenS::RPar) {
                    (Ok(NodeS::Function(name, Seq::empty())), pos + 3)
                } else {
                    match parse_args_spec(expr, toks, pos + 2) {
                        (Ok(args), p2) => (Ok(NodeS::Function(name, args)), p2 + 1),
                        (Err(e), p2) => (Err(e), p2),
                    }
                }
            } else {
                (Err(err_at(expr, toks, pos + 1, expected_opening_msg())), pos + 1)
            }
        },
        Some(TokenS::Number(d)) => (Ok(NodeS::Number(d)), pos + 1),
        Some(TokenS::Cell(letters, digits)) => {
            let cn = col_num(letters);
            let rn = row_num(digits);
            if 1 <= cn <= 1 + u32::MAX && 1 <= rn <= u32::MAX {
                (Ok(NodeS::Cell((cn - 1) as u32, (rn - 1) as u32)), pos + 1)
            } else {
                (Err(err_at(expr, toks, pos, unexpected_token_msg())), pos)
            }
        },
    }
}

/// What parsing a comma-separated argument list from `pos` yields; the
/// returned position stands on the closing parenthesis.
pub open spec fn parse_args_spec(expr: Seq<char>, toks: Seq<TokenInfoS>, pos: nat) -> (Result<
    Seq<NodeS>,
    Seq<char>,
>, nat)
    decreases toks.len() - pos, 4nat,
{
    match parse_expr_spec(expr, toks, pos, true) {
        (Err(e), p) => (Err(e), p),
        (Ok(a), p2) => {
            if pos < p2 <= toks.len() {
                match peek_tok(toks, p2) {
                    Some(TokenS::Comma) => match parse_args_spec(expr, toks, p2 + 1) {
                        (Ok(rest), p3) => (Ok(seq![a] + rest), p3),
                        (Err(e), p3) => (Err(e), p3),
                    },
                    Some(TokenS::RPar) => (Ok(seq![a]), p2),
                    _ => (Err(err_at(expr, toks, p2, unexpected_token_msg())), p2),
                }
            } else {
                (Err(err_at(expr, toks, p2, unexpected_token_msg())), p2)
            }
        },
    }
}

/// What parsing a whole token stream yields: one expression with nothing
/// after it.
pub open spec fn parse_spec(expr: Seq<char>, toks: Seq<TokenInfoS>) -> Result<NodeS, Seq<char>> {
    match parse_expr_spec(expr, toks, 0, true) {
        (Ok(node), p) => if p >= toks.len() {
            Ok(node)
        } else {
            Err(err_at(expr, toks, p, unexpected_token_msg()))
        },
        (Err(e), _) => Err(e),
    }
}

// ---------------------------------------------------------------------------
// The executable parser.
// ---------------------------------------------------------------------------
fn parse_expression(tokenizer: &mut Tokenizer, greedy: bool) -> (r: Result<Box<Node>, String>)
    requires
        tokens_wf(crate::tokenize::infos_view(old(tokenizer).tokens@)),
        crate::token::tokens_nums_wf(crate::tokenize::infos_view(old(tokenizer).tokens@)),
        old(tokenizer).position <= old(tokenizer).tokens@.len(),
    ensures
        final(tokenizer).expression == old(tokenizer).expression,
        final(tokenizer).tokens == old(tokenizer).tokens,
        final(tokenizer).position <= final(tokenizer).tokens@.len(),
        ({
            let (res, p) = parse_expr_spec(
                old(tokenizer).expression@,
                crate::tokenize::infos_view(old(tokenizer).tokens@),
                old(tokenizer).position as nat,
                greedy,
            );
            match res {
                Ok(n) => r matches Ok(b) && b@ == n && crate::node::node_wf(n)
                    && final(tokenizer).position == p
                    && final(tokenizer).position > old(tokenizer).position,
                Err(m) => r matches Err(e) && e@ == m,
            }
        }),
    decreases old(tokenizer).tokens@.len() - old(tokenizer).position, 3nat,
{
    let ghost expr = old(tokenizer).expression@;
    let ghost toks = crate::tokenize::infos_view(old(tokenizer).tokens@);
    let ghost pos = old(tokenizer).position as nat;
    let node: Box<Node> = match parse_primary(tokenizer, greedy) {
        Ok(b) => b,
        Err(e) => {
            return Err(e);
        },
    };
    let ghost p1 = tokenizer.position as nat;
    if greedy {
        let op = match tokenizer.peek() {
            Some(t) => {
                let tp = t.precedence();
                match tp {
                    crate::token::Precedence::Binary(_) => Some(t.clone()),
                    crate::token::Precedence::Unary => None,
                }
            },
            None => None,
        };
        match op {
            Some(token) => {
                tokenizer.advance();
                let right = match parse_expression(tokenizer, true) {
                    Ok(b) => b,
                    Err(e) => {
                        return Err(e);
                    },
                };
                Ok(node.attach(token, right))
            },
            None => Ok(node),
        }
    } else {
        Ok(node)
    }
}

fn parse_primary(tokenizer: &mut Tokenizer, greedy: bool) -> (r: Result<Box<Node>, String>)
    requires
        tokens_wf(crate::tokenize::infos_view(old(tokenizer).tokens@)),
        crate::token::tokens_nums_wf(crate::tokenize::infos_view(old(tokenizer).tokens@)),
        old(tokenizer).position <= old(tokenizer).tokens@.len(),
    ensures
        final(tokenizer).expression == old(tokenizer).expression,
        final(tokenizer).tokens == old(tokenizer).tokens,
        final(tokenizer).position <= final(tokenizer).tokens@.len(),
        ({
            let (res, p) = parse_primary_spec(
                old(tokenizer).expression@,
                crate::tokenize::infos_view(old(tokenizer).tokens@),
                old(tokenizer).position as nat,
            );
            match res {
                Ok(n) => r matches Ok(b) && b@ == n && crate::node::node_wf(n)
                    && final(tokenizer).position == p
                    && final(tokenizer).position > old(tokenizer).position,
                Err(m) => r matches Err(e) && e@ == m,
            }
        }),
    decreases old(tokenizer).tokens@.len() - old(tokenizer).position, 2nat,
{
    let ghost toks = crate::tokenize::infos_view(old(tokenizer).tokens@);
    let ghost pos = old(tokenizer).position as nat;
    proof {
        reveal_with_fuel(crate::node::node_view, 3);
        reveal_with_fuel(crate::node::node_wf, 3);
        reveal_with_fuel(crate::node::args_wf, 3);
    }
    let cur: Option<Token> = match tokenizer.peek() {
        Some(t) => Some(t.clone()),
        None => None,
    };
    match cur {
        None => Err(tokenizer.error_message("Unexpected end of expression")),
        Some(Token::Comment(comment)) => {
            tokenizer.advance();
            Ok(Node::Comment(comment).boxed())
        },
        Some(Token::LPar) => {
            tokenizer.advance();
            let inner = match parse_expression(tokenizer, true) {
                Ok(b) => b,
                Err(e) => {
                    return Err(e);
                },
            };
            let closed = match tokenizer.peek() {
                Some(Token::RPar) => true,
                _ => false,
            };
            if closed {
                tokenizer.advance();
                Ok(Node::Parentheses(inner).boxed())
            } else {
                Err(tokenizer.error_message("Expected closing parenthesis"))
            }
        },
        Some(Token::RPar) | Some(Token::Comma) | Some(Token::Plus) | Some(Token::Mul) | Some(
            Token::Div,
        ) => Err(tokenizer.error_message("Unexpected token")),
        Some(Token::Minus) => {
            tokenizer.advance();
            let doubled = match tokenizer.peek() {
                Some(Token::Minus) => true,
                _ => false,
            };
            if doubled {
                Err(tokenizer.error_message("Unexpected token"))
            } else {
                match parse_expression(tokenizer, false) {
                    Ok(b) => Ok(Node::UnaryMinus(b).boxed()),
                    Err(e) => Err(e),
                }
            }
        },
        Some(Token::Symbol(identifier)) => {
            let name = ascii_lower_string(identifier.as_str());
            tokenizer.advance();
            let opened = match tokenizer.peek() {
                Some(Token::LPar) => true,
                _ => false,
            };
            if opened {
                tokenizer.advance();
                let empty = match tokenizer.peek() {
                    Some(Token::RPar) => true,
                    _ => false,
                };
                if empty {
                    tokenizer.advance();
                    let args: Vec<Box<Node>> = Vec::new();
                    proof {
                        assert(crate::node::args_views(args@) =~= Seq::<NodeS>::empty());
                    }
                    Ok(Node::Function(name, args).boxed())
                } else {
                    let mut args: Vec<Box<Node>> = Vec::new();
                    match parse_function_args(tokenizer, &mut args) {
                        None => {
                            Ok(Node::Function(name, args).boxed())
                        },
                        Some(e) => Err(e),
                    }
                }
            } else {
                Err(tokenizer.error_message("Expected opening parenthesis"))
            }
        },
        Some(Token::Number(number)) => {
            tokenizer.advance();
            Ok(Node::Number(number).boxed())
        },
        Some(Token::Cell(col, row)) => {
            proof {
                assert(tokens_wf(toks));
                assert(crate::token::token_shape_wf(toks[pos as int].token));
            }
            let c = decode_cell_col(col.as_str());
            let rw = decode_cell_row(row.as_str());
            match (c, rw) {
                (Some(cv), Some(rv)) => {
                    tokenizer.advance();
                    Ok(Node::Cell(cv, rv).boxed())
                },
                _ => Err(tokenizer.error_message("Unexpected token")),
            }
        },
    }
}

/// Parses the comma-separated argument list, leaving the stream just past
/// the closing parenthesis. `None` is success; the arguments are appended.
fn parse_function_args(tokenizer: &mut Tokenizer, args: &mut Vec<Box<Node>>) -> (r: Option<String>)
    requires
        tokens_wf(crate::tokenize::infos_view(old(tokenizer).tokens@)),
        crate::token::tokens_nums_wf(crate::tokenize::infos_view(old(tokenizer).tokens@)),
        old(tokenizer).position <= old(tokenizer).tokens@.len(),
    ensures
        final(tokenizer).expression == old(tokenizer).expression,
        final(tokenizer).tokens == old(tokenizer).tokens,
        final(tokenizer).position <= final(tokenizer).tokens@.len(),
        ({
            let (res, p) = parse_args_spec(
                old(tokenizer).expression@,
                crate::tokenize::infos_view(old(tokenizer).tokens@),
                old(tokenizer).position as nat,
            );
            match res {
                Ok(seq_args) => r is None && crate::node::args_views(final(args)@)
                    == crate::node::args_views(old(args)@) + seq_args
                    && crate::node::args_wf(seq_args)
                    && final(tokenizer).position == p + 1
                    && final(tokenizer).position > old(tokenizer).position,
                Err(m) => r matches Some(e) && e@ == m,
            }
        }),
    decreases old(tokenizer).tokens@.len() - old(tokenizer).position, 4nat,
{
    let ghost toks = crate::tokenize::infos_view(old(tokenizer).tokens@);
    let ghost pos = old(tokenizer).position as nat;
    let a = match parse_expression(tokenizer, true) {
        Ok(b) => b,
        Err(e) => {
            return Some(e);
        },
    };
    let next_comma = match tokenizer.peek() {
        Some(Token::Comma) => 1u8,
        Some(Token::RPar) => 2u8,
        _ => 0u8,
    };
    if next_comma == 1 {
        tokenizer.advance();
        let ghost p2 = tokenizer.position as nat;
        let ghost args0 = args@;
        args.push(a);
        proof {
            crate::node::lemma_args_views_push(args0, a);
        }
        let r2 = parse_function_args(tokenizer, args);
        proof {
            let (res_rest, p3) = parse_args_spec(old(tokenizer).expression@, toks, p2);
            if res_rest is Ok && r2 is None {
                crate::node::lemma_args_wf_cons(a@, res_rest->Ok_0);
                assert(crate::node::args_views(args@) =~= crate::node::args_views(old(args)@) + (
                seq![a@] + res_rest->Ok_0));
            }
        }
        r2
    } else if next_comma == 2 {
        tokenizer.advance();
        let ghost args0 = args@;
        args.push(a);
        proof {
            crate::node::lemma_args_views_push(args0, a);
            assert(crate::node::args_views(args@) =~= crate::node::args_views(args0) + seq![a@]);
            crate::node::lemma_args_wf_cons(a@, Seq::<NodeS>::empty());
            assert(seq![a@] + Seq::<NodeS>::empty() =~= seq![a@]);
        }
        None
    } else {
        Some(tokenizer.error_message("Unexpected token"))
    }
}

/// Parses a whole token stream into one expression tree; trailing tokens are
/// an error.
pub fn parse(tokenizer: &mut Tokenizer) -> (r: Result<Box<Node>, String>)
    requires
        tokens_wf(crate::tokenize::infos_view(old(tokenizer).tokens@)),
        crate::token::tokens_nums_wf(crate::tokenize::infos_view(old(tokenizer).tokens@)),
        old(tokenizer).position == 0,
    ensures
        ({
            let res = parse_spec(
                old(tokenizer).expression@,
                crate::tokenize::infos_view(old(tokenizer).tokens@),
            );
            match res {
                Ok(n) => r matches Ok(b) && b@ == n && crate::node::node_wf(n),
                Err(m) => r matches Err(e) && e@ == m,
            }
        }),
{
    let res = match parse_expression(tokenizer, true) {
        Ok(b) => b,
        Err(e) => {
            return Err(e);
        },
    };
    let done = match tokenizer.peek() {
        Some(_) => false,
        None => true,
    };
    if done {
        Ok(res)
    } else {
        Err(tokenizer.error_message("Unexpected token"))
    }
}

// ---------------------------------------------------------------------------
// Decoding a rendered coordinate recovers it: the textual address the
// renderer writes for a cell parses back to the same coordinate.
// ---------------------------------------------------------------------------
/// The letter the renderer writes for one base-26 digit carries its code.
proof fn lemma_letter_char_code(d: int)
    requires
        0 <= d < 26,
    ensures
        (crate::node::letter_char(d)) as u32 == 65 + d,
        is_alpha_char(crate::node::letter_char(d)),
{
    if d == 0 {
        assert(crate::node::letter_char(0) == 'A');
        assert('A' as u32 == 65);
    } else if d == 1 {
        assert(crate::node::letter_char(1) == 'B');
        assert('B' as u32 == 66);
    } else if d == 2 {
        assert(crate::node::letter_char(2) == 'C');
        assert('C' as u32 == 67);
    } else if d == 3 {
        assert(crate::node::letter_char(3) == 'D');
        assert('D' as u32 == 68);
    } else if d == 4 {
        assert(crate::node::letter_char(4) == 'E');
        assert('E' as u32 == 69);
    } else if d == 5 {
        assert(crate::node::letter_char(5) == 'F');
        assert('F' as u32 == 70);
    } else if d == 6 {
        assert(crate::node::letter_char(6) == 'G');
        assert('G' as u32 == 71);
    } else if d == 7 {
        assert(crate::node::letter_char(7) == 'H');
        assert('H' as u32 == 72);
    } else if d == 8 {
        assert(crate::node::letter_char(8) == 'I');
        assert('I' as u32 == 73);
    } else if d == 9 {
        assert(crate::node::letter_char(9) == 'J');
        assert('J' as u32 == 74);
    } else if d == 10 {
        assert(crate::node::letter_char(10) == 'K');
        assert('K' as u32 == 75);
    } else if d == 11 {
        assert(crate::node::letter_char(11) == 'L');
        assert('L' as u32 == 76);
    } else if d == 12 {
        assert(crate::node::letter_char(12) == 'M');
        assert('M' as u32 == 77);
    } else if d == 13 {
        assert(crate::node::letter_char(13) == 'N');
        assert('N' as u32 == 78);
    } else if d == 14 {
        assert(crate::node::letter_char(14) == 'O');
        assert('O' as u32 == 79);
    } else if d == 15 {
        assert(crate::node::letter_char(15) == 'P');
        assert('P' as u32 == 80);
    } else if d == 16 {
        assert(crate::node::letter_char(16) == 'Q');
        assert('Q' as u32 == 81);
    } else if d == 17 {
        assert(crate::node::letter_char(17) == 'R');
        assert('R' as u32 == 82);
    } else if d == 18 {
        assert(crate::node::letter_char(18) == 'S');
        assert('S' as u32 == 83);
    } else if d == 19 {
        assert(crate::node::letter_char(19) == 'T');
        assert('T' as u32 == 84);
    } else if d == 20 {
        assert(crate::node::letter_char(20) == 'U');
        assert('U' as u32 == 85);
    } else if d == 21 {
        assert(crate::node::letter_char(21) == 'V');
        assert('V' as u32 == 86);
    } else if d == 22 {
        assert(crate::node::letter_char(22) == 'W');
        assert('W' as u32 == 87);
    } else if d == 23 {
        assert(crate::node::letter_char(23) == 'X');
        assert('X' as u32 == 88);
    } else if d == 24 {
        assert(crate::node::letter_char(24) == 'Y');
        assert('Y' as u32 == 89);
    } else if d == 25 {
        assert(crate::node::letter_char(25) == 'Z');
        assert('Z' as u32 == 90);
    } else {
    }
}

/// The column letters the renderer writes denote the 1-based column number.
pub proof fn lemma_col_letters_roundtrip(n: nat)
    ensures
        col_num(crate::node::col_letters(n)) == n + 1,
        forall|k: int|
            0 <= k < crate::node::col_letters(n).len() ==> is_alpha_char(
                #[trigger] crate::node::col_letters(n)[k],
            ),
    decreases n,
{
    let s = crate::node::col_letters(n);
    if n < 26 {
        lemma_letter_char_code(n as int);
        assert(s =~= seq![crate::node::letter_char(n as int)]);
        assert(s.drop_last() =~= Seq::<char>::empty());
        assert(col_num(Seq::<char>::empty()) == 0);
        assert(upper_code(crate::node::letter_char(n as int)) == 65 + n);
        assert(col_num(s) == col_num(s.drop_last()) * 26 + (upper_code(s.last()) - 64));
    } else {
        lemma_col_letters_roundtrip((n / 26 - 1) as nat);
        let p = crate::node::col_letters((n / 26 - 1) as nat);
        assert(s == p.push(crate::node::letter_char((n % 26) as int)));
        assert(s.drop_last() =~= p);
        assert(s.last() == crate::node::letter_char((n % 26) as int));
        lemma_letter_char_code((n % 26) as int);
        assert(upper_code(s.last()) == 65 + n % 26);
        assert(col_num(s) == col_num(s.drop_last()) * 26 + (upper_code(s.last()) - 64));
        assert(col_num(s) == col_num(p) * 26 + (n % 26 + 1));
        assert(col_num(p) == n / 26);
        assert((n / 26) * 26 + n % 26 == n) by (nonlinear_arith);
        assert forall|k: int| 0 <= k < s.len() implies is_alpha_char(#[trigger] s[k]) by {
            if k < s.len() - 1 {
                assert(s[k] == p[k]);
            }
        }
    }
}

/// The digits the renderer writes denote the number itself.
pub proof fn lemma_digits_roundtrip(n: nat)
    ensures
        row_num(crate::decimal::u_digits(n)) == n,
        forall|k: int|
            0 <= k < crate::decimal::u_digits(n).len() ==> is_digit_char(
                #[trigger] crate::decimal::u_digits(n)[k],
            ),
    decreases n,
{
    let s = crate::decimal::u_digits(n);
    if n < 10 {
        crate::decimal::lemma_digit_char_of(n as int);
        assert(s =~= seq![crate::decimal::digit_char(n as int)]);
        assert(s.drop_last() =~= Seq::<char>::empty());
        assert(row_num(Seq::<char>::empty()) == 0);
        assert(digit_of(crate::decimal::digit_char(n as int)) == n);
        assert(row_num(s) == row_num(s.drop_last()) * 10 + digit_of(s.last()));
    } else {
        lemma_digits_roundtrip(n / 10);
        let p = crate::decimal::u_digits(n / 10);
        assert(s == p.push(crate::decimal::digit_char((n % 10) as int)));
        assert(s.drop_last() =~= p);
        assert(s.last() == crate::decimal::digit_char((n % 10) as int));
        crate::decimal::lemma_digit_char_of((n % 10) as int);
        assert(digit_of(s.last()) == n % 10);
        assert(row_num(s) == row_num(s.drop_last()) * 10 + digit_of(s.last()));
        assert(row_num(s) == row_num(p) * 10 + n % 10);
        assert((n / 10) * 10 + n % 10 == n) by (nonlinear_arith);
        assert forall|k: int| 0 <= k < s.len() implies is_digit_char(#[trigger] s[k]) by {
            if k < s.len() - 1 {
                assert(s[k] == p[k]);
            }
        }
    }
}

/// Decoding a rendered cell address recovers the coordinate: the renderer
/// and the decoder are inverse on every `(column, row)` pair.
pub proof fn lemma_cell_text_roundtrip(col: u32, row: u32)
    ensures
        col_num(crate::node::col_letters(col as nat)) - 1 == col,
        row_num(crate::decimal::u_digits((row + 1) as nat)) - 1 == row,
{
    lemma_col_letters_roundtrip(col as nat);
    lemma_digits_roundtrip((row + 1) as nat);
}

} // verus!
