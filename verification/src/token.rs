//! Tokens of the expression language, with their source positions.

use vstd::prelude::*;

use crate::decimal::Dec;

verus! {

/// How strongly an operator binds: binary operators carry a level, everything
/// else is a leaf or prefix form and compares with nothing.
#[derive(Debug, Clone, Copy)]
pub enum Precedence {
    Unary,
    Binary(u32),
}

impl Precedence {
    /// The ordering on precedences: binary levels compare by their number,
    /// `Unary` compares with nothing.
    pub open spec fn cmp_spec(self, other: Precedence) -> Option<core::cmp::Ordering> {
        match (self, other) {
            (Precedence::Binary(a), Precedence::Binary(b)) => Some(
                if a < b {
                    core::cmp::Ordering::Less
                } else if a == b {
                    core::cmp::Ordering::Equal
                } else {
                    core::cmp::Ordering::Greater
                },
            ),
            _ => None,
        }
    }
}

impl PartialEq for Precedence {
    fn eq(&self, other: &Precedence) -> (r: bool) {
        match (self, other) {
            (Precedence::Unary, Precedence::Unary) => true,
            (Precedence::Binary(a), Precedence::Binary(b)) => a == b,
            _ => false,
        }
    }
}

impl vstd::std_specs::cmp::PartialEqSpecImpl for Precedence {
    open spec fn obeys_eq_spec() -> bool {
        true
    }

    open spec fn eq_spec(&self, other: &Precedence) -> bool {
        *self == *other
    }
}

impl PartialOrd for Precedence {
    fn partial_cmp(&self, other: &Precedence) -> (r: Option<core::cmp::Ordering>) {
        match (self, other) {
            (Precedence::Binary(a), Precedence::Binary(b)) => Some(
                if a < b {
                    core::cmp::Ordering::Less
                } else if a == b {
                    core::cmp::Ordering::Equal
                } else {
                    core::cmp::Ordering::Greater
                },
            ),
            _ => None,
        }
    }
}

impl vstd::std_specs::cmp::PartialOrdSpecImpl for Precedence {
    open spec fn obeys_partial_cmp_spec() -> bool {
        true
    }

    open spec fn partial_cmp_spec(&self, other: &Precedence) -> Option<core::cmp::Ordering> {
        self.cmp_spec(*other)
    }
}

/// A token with owned text, as the scanner produces it.
#[derive(Debug)]
pub enum Token {
    Comment(String),
    Cell(String, String),
    Number(Dec),
    Symbol(String),
    LPar,
    RPar,
    Plus,
    Minus,
    Mul,
    Div,
    Comma,
}

/// The mathematical shape of a token: text as character sequences.
pub enum TokenS {
    Comment(Seq<char>),
    Cell(Seq<char>, Seq<char>),
    Number(Dec),
    Symbol(Seq<char>),
    LPar,
    RPar,
    Plus,
    Minus,
    Mul,
    Div,
    Comma,
}

impl View for Token {
    type V = TokenS;

    open spec fn view(&self) -> TokenS {
        match self {
            Token::Comment(t) => TokenS::Comment(t@),
            Token::Cell(c, r) => TokenS::Cell(c@, r@),
            Token::Number(d) => TokenS::Number(*d),
            Token::Symbol(t) => TokenS::Symbol(t@),
            Token::LPar => TokenS::LPar,
            Token::RPar => TokenS::RPar,
            Token::Plus => TokenS::Plus,
            Token::Minus => TokenS::Minus,
            Token::Mul => TokenS::Mul,
            Token::Div => TokenS::Div,
            Token::Comma => TokenS::Comma,
        }
    }
}

/// Token equality: numbers compare by value, text by its characters.
pub open spec fn token_eq(a: TokenS, b: TokenS) -> bool {
    match (a, b) {
        (TokenS::Comment(x), TokenS::Comment(y)) => x == y,
        (TokenS::Cell(xc, xr), TokenS::Cell(yc, yr)) => xc == yc && xr == yr,
        (TokenS::Number(x), TokenS::Number(y)) => x.norm_spec() == y.norm_spec(),
        (TokenS::Symbol(x), TokenS::Symbol(y)) => x == y,
        (TokenS::LPar, TokenS::LPar) => true,
        (TokenS::RPar, TokenS::RPar) => true,
        (TokenS::Plus, TokenS::Plus) => true,
        (TokenS::Minus, TokenS::Minus) => true,
        (TokenS::Mul, TokenS::Mul) => true,
        (TokenS::Div, TokenS::Div) => true,
        (TokenS::Comma, TokenS::Comma) => true,
        _ => false,
    }
}

impl Clone for Token {
    fn clone(&self) -> (r: Token)
        ensures
            r@ == self@,
    {
        match self {
            Token::Comment(t) => Token::Comment(t.clone()),
            Token::Cell(c, r) => Token::Cell(c.clone(), r.clone()),
            Token::Number(d) => Token::Number(*d),
            Token::Symbol(t) => Token::Symbol(t.clone()),
            Token::LPar => Token::LPar,
            Token::RPar => Token::RPar,
            Token::Plus => Token::Plus,
            Token::Minus => Token::Minus,
            Token::Mul => Token::Mul,
            Token::Div => Token::Div,
            Token::Comma => Token::Comma,
        }
    }
}

impl PartialEq for Token {
    fn eq(&self, other: &Token) -> (r: bool) {
        match (self, other) {
            (Token::Comment(x), Token::Comment(y)) => *x == *y,
            (Token::Cell(xc, xr), Token::Cell(yc, yr)) => *xc == *yc && *xr == *yr,
            (Token::Number(x), Token::Number(y)) => *x == *y,
            (Token::Symbol(x), Token::Symbol(y)) => *x == *y,
            (Token::LPar, Token::LPar) => true,
            (Token::RPar, Token::RPar) => true,
            (Token::Plus, Token::Plus) => true,
            (Token::Minus, Token::Minus) => true,
            (Token::Mul, Token::Mul) => true,
            (Token::Div, Token::Div) => true,
            (Token::Comma, Token::Comma) => true,
            _ => false,
        }
    }
}

impl vstd::std_specs::cmp::PartialEqSpecImpl for Token {
    open spec fn obeys_eq_spec() -> bool {
        true
    }

    open spec fn eq_spec(&self, other: &Token) -> bool {
        token_eq(self@, other@)
    }
}

impl Token {
    /// The binding strength of the token: level 1 for `+` and `-`, level 2
    /// for `*` and `/`, `Unary` for everything else.
    pub fn precedence(&self) -> (r: Precedence)
        ensures
            r == self@.precedence_spec(),
    {
        match self {
            Token::Plus | Token::Minus => Precedence::Binary(1),
            Token::Div | Token::Mul => Precedence::Binary(2),
            _ => Precedence::Unary,
        }
    }
}

impl TokenS {
    pub open spec fn precedence_spec(self) -> Precedence {
        match self {
            TokenS::Plus | TokenS::Minus => Precedence::Binary(1),
            TokenS::Div | TokenS::Mul => Precedence::Binary(2),
            _ => Precedence::Unary,
        }
    }
}

/// Cell tokens carry a run of letters and a run of digits: what the scanner
/// always produces, and what decoding a coordinate relies on.
pub open spec fn token_shape_wf(t: TokenS) -> bool {
    match t {
        TokenS::Cell(letters, digits) => (forall|j: int|
            0 <= j < letters.len() ==> crate::tokenize::is_alpha_char(#[trigger] letters[j]))
            && (forall|j: int|
            0 <= j < digits.len() ==> crate::decimal::is_digit_char(#[trigger] digits[j])),
        _ => true,
    }
}

pub open spec fn tokens_wf(toks: Seq<TokenInfoS>) -> bool {
    forall|i: int| 0 <= i < toks.len() ==> token_shape_wf(#[trigger] toks[i].token)
}

/// Every numeric token holds a representable decimal: what the scanner
/// guarantees, since its numbers come from `rust_decimal`.
pub open spec fn tokens_nums_wf(toks: Seq<TokenInfoS>) -> bool {
    forall|i: int|
        0 <= i < toks.len() ==> ((#[trigger] toks[i].token) matches TokenS::Number(d)
            ==> d.wf())
}

/// A token together with its source position and length, in characters.
#[derive(Debug)]
pub struct TokenInfo {
    pub token: Token,
    pub position: usize,
    pub length: usize,
}

/// The mathematical shape of a positioned token.
pub struct TokenInfoS {
    pub token: TokenS,
    pub position: nat,
    pub length: nat,
}

impl View for TokenInfo {
    type V = TokenInfoS;

    open spec fn view(&self) -> TokenInfoS {
        TokenInfoS { token: self.token@, position: self.position as nat, length: self.length as nat }
    }
}

/// Positioned-token equality: the token by value, the span exactly.
pub open spec fn token_info_eq(a: TokenInfoS, b: TokenInfoS) -> bool {
    token_eq(a.token, b.token) && a.position == b.position && a.length == b.length
}

impl Clone for TokenInfo {
    fn clone(&self) -> (r: TokenInfo)
        ensures
            r@ == self@,
    {
        TokenInfo { token: self.token.clone(), position: self.position, length: self.length }
    }
}

impl PartialEq for TokenInfo {
    fn eq(&self, other: &TokenInfo) -> (r: bool) {
        self.token == other.token && self.position == other.position && self.length
            == other.length
    }
}

impl vstd::std_specs::cmp::PartialEqSpecImpl for TokenInfo {
    open spec fn obeys_eq_spec() -> bool {
        true
    }

    open spec fn eq_spec(&self, other: &TokenInfo) -> bool {
        token_info_eq(self@, other@)
    }
}

impl TokenInfo {
    pub fn new(token: Token, position: usize, length: usize) -> (r: TokenInfo)
        ensures
            r == (TokenInfo { token, position, length }),
    {
        TokenInfo { token, position, length }
    }
}

} // verus!
