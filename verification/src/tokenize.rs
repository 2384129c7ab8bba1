//! The scanner: source text to positioned tokens, and the diagnostic
//! rendering that underlines the offending span.

use vstd::prelude::*;

use crate::decimal::{dec_from_str, from_str_of, is_digit_char};
use crate::token::{Token, TokenInfo, TokenInfoS, TokenS};

verus! {

// ---------------------------------------------------------------------------
// Character classes of the expression language. The input of the scanner
// proper is ASCII: anything wider is rejected up front.
// ---------------------------------------------------------------------------
pub open spec fn is_space_char(c: char) -> bool {
    c == ' ' || c == '\t' || c == '\n' || c == '\u{b}' || c == '\u{c}' || c == '\r'
}

pub open spec fn is_alpha_char(c: char) -> bool {
    ('a' <= c && c <= 'z') || ('A' <= c && c <= 'Z')
}

pub open spec fn is_word_char(c: char) -> bool {
    is_alpha_char(c) || is_digit_char(c) || c == '_'
}

pub open spec fn is_wide_char(c: char) -> bool {
    c as u32 >= 128
}

fn ex_is_space(c: char) -> (r: bool)
    ensures
        r == is_space_char(c),
{
    c == ' ' || c == '\t' || c == '\n' || c == '\u{b}' || c == '\u{c}' || c == '\r'
}

fn ex_is_alpha(c: char) -> (r: bool)
    ensures
        r == is_alpha_char(c),
{
    ('a' <= c && c <= 'z') || ('A' <= c && c <= 'Z')
}

fn ex_is_digit(c: char) -> (r: bool)
    ensures
        r == is_digit_char(c),
{
    '0' <= c && c <= '9'
}

fn ex_is_word(c: char) -> (r: bool)
    ensures
        r == is_word_char(c),
{
    ex_is_alpha(c) || ex_is_digit(c) || c == '_'
}

// ---------------------------------------------------------------------------
// The diagnostic text: the expression, a caret line, and the message.
// ---------------------------------------------------------------------------
pub open spec fn char_run(c: char, n: nat) -> Seq<char> {
    Seq::new(n, |i: int| c)
}

/// The text of a positioned diagnostic: the expression, below it a line of
/// spaces, carets under the offending span and trailing spaces, then the
/// message.
pub open spec fn err_msg_spec(expr: Seq<char>, position: nat, ulen: nat, msg: Seq<char>) -> Seq<
    char,
> {
    let suffix: nat = if expr.len() <= position + ulen {
        0
    } else {
        (expr.len() - ulen - position) as nat
    };
    expr + seq!['\n'] + char_run(' ', position) + char_run('^', ulen) + char_run(' ', suffix)
        + seq!['\n'] + msg
}

fn push_run(s: &mut String, c: char, n: usize)
    ensures
        final(s)@ == old(s)@ + char_run(c, n as nat),
{
    let mut i: usize = 0;
    while i < n
        invariant
            i <= n,
            s@ == old(s)@ + char_run(c, i as nat),
        decreases n - i,
    {
        crate::decimal::push_char(s, c);
        proof {
            assert(old(s)@ + char_run(c, (i + 1) as nat) =~= (old(s)@ + char_run(c, i as nat)).push(
                c,
            ));
        }
        i = i + 1;
    }
    proof {
        assert(s@ =~= old(s)@ + char_run(c, n as nat));
    }
}

/// Renders a diagnostic that underlines `underline_length` characters of the
/// expression starting at `position`.
pub fn error_message(expression: &str, position: usize, underline_length: usize, message: &str) -> (r:
    String)
    ensures
        r@ == err_msg_spec(expression@, position as nat, underline_length as nat, message@),
{
    let expression_length = expression.unicode_len();
    let suffix_length: usize = if expression_length <= position {
        0
    } else if expression_length - position <= underline_length {
        0
    } else {
        expression_length - position - underline_length
    };
    let mut r = String::new();
    r.append(expression);
    crate::decimal::push_char(&mut r, '\n');
    push_run(&mut r, ' ', position);
    push_run(&mut r, '^', underline_length);
    push_run(&mut r, ' ', suffix_length);
    crate::decimal::push_char(&mut r, '\n');
    r.append(message);
    proof {
        assert(r@ =~= err_msg_spec(
            expression@,
            position as nat,
            underline_length as nat,
            message@,
        ));
    }
    r
}

// ---------------------------------------------------------------------------
// The scanner's grammar, at a given position of the (ASCII) text.
// ---------------------------------------------------------------------------
/// The length of the run of characters satisfying `f` starting at `pos`.
pub open spec fn run_len(s: Seq<char>, pos: nat, f: spec_fn(char) -> bool) -> nat
    decreases s.len() - pos when pos <= s.len()
{
    if pos < s.len() && f(s[pos as int]) {
        1 + run_len(s, pos + 1, f)
    } else {
        0
    }
}

proof fn lemma_run_len_bound(s: Seq<char>, pos: nat, f: spec_fn(char) -> bool)
    requires
        pos <= s.len(),
    ensures
        pos + run_len(s, pos, f) <= s.len(),
    decreases s.len() - pos,
{
    if pos < s.len() && f(s[pos as int]) {
        lemma_run_len_bound(s, pos + 1, f);
    }
}

/// The span of a cell reference at `pos`: an optional anchor, letters, an
/// optional anchor, a row number with no leading zero, then a non-word
/// boundary.
pub struct CellSpan {
    pub letters_start: nat,
    pub letters_len: nat,
    pub digits_start: nat,
    pub digits_len: nat,
}

pub open spec fn cell_span(s: Seq<char>, pos: nat) -> Option<CellSpan> {
    let p0: nat = if pos < s.len() && s[pos as int] == '$' {
        pos + 1
    } else {
        pos
    };
    let la = run_len(s, p0, |c: char| is_alpha_char(c));
    let p1: nat = p0 + la;
    let p2: nat = if p1 < s.len() && s[p1 as int] == '$' {
        p1 + 1
    } else {
        p1
    };
    let ld = run_len(s, p2, |c: char| is_digit_char(c));
    if la >= 1 && p2 < s.len() && '1' <= s[p2 as int] && s[p2 as int] <= '9' && (p2 + ld == s.len()
        || !is_word_char(s[(p2 + ld) as int])) {
        Some(CellSpan { letters_start: p0, letters_len: la, digits_start: p2, digits_len: ld })
    } else {
        None
    }
}

/// The length of a number literal at `pos`: digits with an optional fraction,
/// or a point followed by digits. Zero where none begins here.
pub open spec fn number_len(s: Seq<char>, pos: nat) -> nat {
    let li = run_len(s, pos, |c: char| is_digit_char(c));
    if li >= 1 {
        if pos + li < s.len() && s[(pos + li) as int] == '.' {
            li + 1 + run_len(s, pos + li + 1, |c: char| is_digit_char(c))
        } else {
            li
        }
    } else if pos < s.len() && s[pos as int] == '.' && run_len(
        s,
        pos + 1,
        |c: char| is_digit_char(c),
    ) >= 1 {
        1 + run_len(s, pos + 1, |c: char| is_digit_char(c))
    } else {
        0
    }
}

pub open spec fn punct_token(c: char) -> Option<TokenS> {
    if c == '(' {
        Some(TokenS::LPar)
    } else if c == ')' {
        Some(TokenS::RPar)
    } else if c == '+' {
        Some(TokenS::Plus)
    } else if c == '-' {
        Some(TokenS::Minus)
    } else if c == '*' {
        Some(TokenS::Mul)
    } else if c == '/' {
        Some(TokenS::Div)
    } else if c == ',' {
        Some(TokenS::Comma)
    } else {
        None
    }
}

proof fn lemma_cell_span_bounds(s: Seq<char>, pos: nat)
    requires
        pos <= s.len(),
    ensures
        cell_span(s, pos) matches Some(cs) ==> pos < cs.digits_start + cs.digits_len <= s.len()
            && pos <= cs.letters_start && cs.letters_start + cs.letters_len <= cs.digits_start,
{
    if cell_span(s, pos) is Some {
        let p0: nat = if pos < s.len() && s[pos as int] == '$' {
            pos + 1
        } else {
            pos
        };
        lemma_run_len_bound(s, p0, |c: char| is_alpha_char(c));
        let la = run_len(s, p0, |c: char| is_alpha_char(c));
        let p1: nat = p0 + la;
        let p2: nat = if p1 < s.len() && s[p1 as int] == '$' {
            p1 + 1
        } else {
            p1
        };
        lemma_run_len_bound(s, p2, |c: char| is_digit_char(c));
        assert(run_len(s, p2, |c: char| is_digit_char(c)) >= 1);
    }
}

proof fn lemma_number_len_bound(s: Seq<char>, pos: nat)
    requires
        pos <= s.len(),
    ensures
        pos + number_len(s, pos) <= s.len(),
        pos < s.len() && is_digit_char(s[pos as int]) ==> number_len(s, pos) >= 1,
{
    lemma_run_len_bound(s, pos, |c: char| is_digit_char(c));
    let li = run_len(s, pos, |c: char| is_digit_char(c));
    if li >= 1 && pos + li < s.len() && s[(pos + li) as int] == '.' {
        lemma_run_len_bound(s, pos + li + 1, |c: char| is_digit_char(c));
    }
    if li == 0 && pos < s.len() && s[pos as int] == '.' {
        lemma_run_len_bound(s, pos + 1, |c: char| is_digit_char(c));
    }
}

/// One pass of the scanner from `pos`: the tokens of the rest of the text,
/// or the position of the character nothing matches.
pub open spec fn scan(s: Seq<char>, pos: nat) -> Result<Seq<TokenInfoS>, nat>
    decreases s.len() - pos when pos <= s.len() via scan_decreases
{
    if pos >= s.len() {
        Ok(Seq::empty())
    } else if is_space_char(s[pos as int]) {
        scan(s, pos + 1)
    } else if cell_span(s, pos) is Some {
        let cs = cell_span(s, pos).unwrap();
        let end = cs.digits_start + cs.digits_len;
        match scan(s, end) {
            Ok(rest) => Ok(
                seq![
                    TokenInfoS {
                        token: TokenS::Cell(
                            s.subrange(cs.letters_start as int, (cs.letters_start
                                + cs.letters_len) as int),
                            s.subrange(cs.digits_start as int, end as int),
                        ),
                        position: pos,
                        length: (end - pos) as nat,
                    },
                ] + rest,
            ),
            Err(e) => Err(e),
        }
    } else if number_len(s, pos) >= 1 {
        let nl = number_len(s, pos);
        match from_str_of(s.subrange(pos as int, (pos + nl) as int)) {
            Some(d) => match scan(s, pos + nl) {
                Ok(rest) => Ok(
                    seq![
                        TokenInfoS { token: TokenS::Number(d), position: pos, length: nl },
                    ] + rest,
                ),
                Err(e) => Err(e),
            },
            None => Err(pos),
        }
    } else if is_word_char(s[pos as int]) {
        let wl = run_len(s, pos, |c: char| is_word_char(c));
        match scan(s, pos + wl) {
            Ok(rest) => Ok(
                seq![
                    TokenInfoS {
                        token: TokenS::Symbol(s.subrange(pos as int, (pos + wl) as int)),
                        position: pos,
                        length: wl,
                    },
                ] + rest,
            ),
            Err(e) => Err(e),
        }
    } else {
        match punct_token(s[pos as int]) {
            Some(t) => match scan(s, pos + 1) {
                Ok(rest) => Ok(
                    seq![TokenInfoS { token: t, position: pos, length: 1 }] + rest,
                ),
                Err(e) => Err(e),
            },
            None => Err(pos),
        }
    }
}

#[via_fn]
proof fn scan_decreases(s: Seq<char>, pos: nat) {
    if pos < s.len() {
        lemma_cell_span_bounds(s, pos);
        lemma_number_len_bound(s, pos);
        lemma_run_len_bound(s, pos, |c: char| is_word_char(c));
        if is_word_char(s[pos as int]) && cell_span(s, pos) is None && number_len(s, pos) == 0 {
            assert(run_len(s, pos, |c: char| is_word_char(c)) >= 1);
        }
    }
}

/// The position of the first character outside ASCII, if any.
pub open spec fn first_wide(s: Seq<char>, pos: nat) -> Option<nat>
    decreases s.len() - pos when pos <= s.len()
{
    if pos >= s.len() {
        None
    } else if is_wide_char(s[pos as int]) {
        Some(pos)
    } else {
        first_wide(s, pos + 1)
    }
}

pub open spec fn unknown_character_msg() -> Seq<char> {
    "Unknown character"@
}

/// What the scanner yields for a whole text: nothing for the empty text, a
/// single comment token for a leading quote, a positioned Unknown-character
/// diagnostic for a character outside ASCII or outside the grammar, and the
/// token sequence otherwise.
pub open spec fn tokenize_spec(s: Seq<char>) -> Result<Seq<TokenInfoS>, Seq<char>> {
    if s.len() == 0 {
        Ok(Seq::empty())
    } else if s[0] == '\'' {
        Ok(
            seq![
                TokenInfoS {
                    token: TokenS::Comment(s.subrange(1, s.len() as int)),
                    position: 1,
                    length: (s.len() - 1) as nat,
                },
            ],
        )
    } else if first_wide(s, 0) is Some {
        Err(err_msg_spec(s, first_wide(s, 0).unwrap(), 1, unknown_character_msg()))
    } else {
        match scan(s, 0) {
            Ok(ts) => Ok(ts),
            Err(p) => Err(err_msg_spec(s, p, 1, unknown_character_msg())),
        }
    }
}

proof fn lemma_run_len_chars(s: Seq<char>, pos: nat, f: spec_fn(char) -> bool)
    requires
        pos <= s.len(),
    ensures
        forall|k: int| pos <= k < pos + run_len(s, pos, f) ==> f(#[trigger] s[k]),
    decreases s.len() - pos,
{
    if pos < s.len() && f(s[pos as int]) {
        lemma_run_len_chars(s, pos + 1, f);
    }
}

/// Every token the scanner yields has the shape its kind promises: a cell
/// token holds a letter run and a digit run.
pub proof fn lemma_scan_tokens_wf(s: Seq<char>, pos: nat)
    requires
        pos <= s.len(),
        scan(s, pos) is Ok,
    ensures
        crate::token::tokens_wf(scan(s, pos)->Ok_0),
    decreases s.len() - pos,
{
    if pos >= s.len() {
    } else if is_space_char(s[pos as int]) {
        lemma_scan_tokens_wf(s, pos + 1);
    } else if cell_span(s, pos) is Some {
        let cs = cell_span(s, pos).unwrap();
        let end = cs.digits_start + cs.digits_len;
        lemma_cell_span_bounds(s, pos);
        lemma_scan_tokens_wf(s, end);
        let p0: nat = if pos < s.len() && s[pos as int] == '$' {
            pos + 1
        } else {
            pos
        };
        lemma_run_len_chars(s, p0, |c: char| is_alpha_char(c));
        lemma_run_len_chars(s, cs.digits_start, |c: char| crate::decimal::is_digit_char(c));
        assert(crate::token::token_shape_wf(scan(s, pos)->Ok_0[0].token));
    } else if number_len(s, pos) >= 1 {
        let nl = number_len(s, pos);
        lemma_number_len_bound(s, pos);
        if from_str_of(s.subrange(pos as int, (pos + nl) as int)) is Some {
            lemma_scan_tokens_wf(s, pos + nl);
        }
    } else if is_word_char(s[pos as int]) {
        let wl = run_len(s, pos, |c: char| is_word_char(c));
        lemma_run_len_bound(s, pos, |c: char| is_word_char(c));
        lemma_scan_tokens_wf(s, pos + wl);
    } else {
        if punct_token(s[pos as int]) is Some {
            lemma_scan_tokens_wf(s, pos + 1);
        }
    }
}

/// Every token a successful `tokenize` yields has the shape its kind
/// promises.
pub proof fn lemma_tokenize_tokens_wf(s: Seq<char>)
    requires
        tokenize_spec(s) is Ok,
    ensures
        crate::token::tokens_wf(tokenize_spec(s)->Ok_0),
{
    if s.len() == 0 {
    } else if s[0] == '\'' {
    } else if first_wide(s, 0) is Some {
    } else {
        lemma_scan_tokens_wf(s, 0);
    }
}

/// The views of a vector of positioned tokens.
pub open spec fn infos_view(v: Seq<TokenInfo>) -> Seq<TokenInfoS> {
    v.map(|i: int, ti: TokenInfo| ti@)
}

// ---------------------------------------------------------------------------
// The executable scanner.
// ---------------------------------------------------------------------------
fn alpha_run(s: &str, pos: usize, n: usize) -> (r: usize)
    requires
        pos <= n == s@.len(),
    ensures
        r == run_len(s@, pos as nat, |c: char| is_alpha_char(c)),
        pos + r <= n,
    decreases n - pos,
{
    if pos < n && ex_is_alpha(s.get_char(pos)) {
        let rest = alpha_run(s, pos + 1, n);
        rest + 1
    } else {
        0
    }
}

fn digit_run(s: &str, pos: usize, n: usize) -> (r: usize)
    requires
        pos <= n == s@.len(),
    ensures
        r == run_len(s@, pos as nat, |c: char| is_digit_char(c)),
        pos + r <= n,
    decreases n - pos,
{
    if pos < n && ex_is_digit(s.get_char(pos)) {
        let rest = digit_run(s, pos + 1, n);
        rest + 1
    } else {
        0
    }
}

fn word_run(s: &str, pos: usize, n: usize) -> (r: usize)
    requires
        pos <= n == s@.len(),
    ensures
        r == run_len(s@, pos as nat, |c: char| is_word_char(c)),
        pos + r <= n,
    decreases n - pos,
{
    if pos < n && ex_is_word(s.get_char(pos)) {
        let rest = word_run(s, pos + 1, n);
        rest + 1
    } else {
        0
    }
}

/// The cell-reference span at `pos`, if one starts here.
fn cell_span_exec(s: &str, pos: usize, n: usize) -> (r: Option<(usize, usize, usize, usize)>)
    requires
        pos <= n == s@.len(),
    ensures
        match r {
            Some((ls, ll, ds, dl)) => cell_span(s@, pos as nat) == Some(
                CellSpan {
                    letters_start: ls as nat,
                    letters_len: ll as nat,
                    digits_start: ds as nat,
                    digits_len: dl as nat,
                },
            ) && ds + dl <= n && ls + ll <= ds && pos <= ls,
            None => cell_span(s@, pos as nat) is None,
        },
{
    let p0 = if pos < n && s.get_char(pos) == '$' {
        pos + 1
    } else {
        pos
    };
    let la = alpha_run(s, p0, n);
    let p1 = p0 + la;
    let p2 = if p1 < n && s.get_char(p1) == '$' {
        p1 + 1
    } else {
        p1
    };
    let ld = digit_run(s, p2, n);
    if la >= 1 && p2 < n && '1' <= s.get_char(p2) && s.get_char(p2) <= '9' && (p2 + ld == n
        || !ex_is_word(s.get_char(p2 + ld))) {
        Some((p0, la, p2, ld))
    } else {
        None
    }
}

/// The length of the number literal at `pos`, zero where none starts here.
fn number_len_exec(s: &str, pos: usize, n: usize) -> (r: usize)
    requires
        pos <= n == s@.len(),
    ensures
        r == number_len(s@, pos as nat),
        pos + r <= n,
{
    let li = digit_run(s, pos, n);
    if li >= 1 {
        if pos + li < n && s.get_char(pos + li) == '.' {
            let lf = digit_run(s, pos + li + 1, n);
            li + 1 + lf
        } else {
            li
        }
    } else if pos < n && s.get_char(pos) == '.' {
        let lf = digit_run(s, pos + 1, n);
        if lf >= 1 {
            1 + lf
        } else {
            0
        }
    } else {
        0
    }
}

/// A substring as owned text.
fn substring_string(s: &str, from: usize, to: usize) -> (r: String)
    requires
        from <= to <= s@.len(),
    ensures
        r@ == s@.subrange(from as int, to as int),
{
    s.substring_char(from, to).to_owned()
}

/// Scans the text from `pos`, appending tokens to `acc`.
#[verifier::rlimit(60)]
fn scan_exec(s: &str, pos: usize, n: usize, acc: &mut Vec<TokenInfo>) -> (r: Option<usize>)
    requires
        pos <= n == s@.len(),
    ensures
        match r {
            None => scan(s@, pos as nat) is Ok && infos_view(final(acc)@) == infos_view(old(acc)@)
                + scan(s@, pos as nat)->Ok_0,
            Some(e) => scan(s@, pos as nat) == Err::<Seq<TokenInfoS>, nat>(e as nat) && e < n,
        },
        r is None && crate::token::tokens_nums_wf(infos_view(old(acc)@))
            ==> crate::token::tokens_nums_wf(infos_view(final(acc)@)),
    decreases n - pos,
{
    if pos >= n {
        assert(infos_view(acc@) =~= infos_view(acc@) + scan(s@, pos as nat)->Ok_0);
        return None;
    }
    let c = s.get_char(pos);
    if ex_is_space(c) {
        return scan_exec(s, pos + 1, n, acc);
    }
    match cell_span_exec(s, pos, n) {
        Some((ls, ll, ds, dl)) => {
            let letters = substring_string(s, ls, ls + ll);
            let digits = substring_string(s, ds, ds + dl);
            let end = ds + dl;
            let tok = TokenInfo {
                token: Token::Cell(letters, digits),
                position: pos,
                length: end - pos,
            };
            let ghost acc0 = acc@;
            acc.push(tok);
            let r = scan_exec(s, end, n, acc);
            proof {
                if r is None {
                    assert(infos_view(acc0.push(tok)) =~= infos_view(acc0) + seq![tok@]);
                    assert(infos_view(final(acc)@) =~= infos_view(acc0) + scan(
                        s@,
                        pos as nat,
                    )->Ok_0);
                }
            }
            return r;
        },
        None => {},
    }
    let nl = number_len_exec(s, pos, n);
    if nl >= 1 {
        let text = substring_string(s, pos, pos + nl);
        match dec_from_str(text.as_str()) {
            Some(d) => {
                let tok = TokenInfo { token: Token::Number(d), position: pos, length: nl };
                let ghost acc0 = acc@;
                acc.push(tok);
                let r = scan_exec(s, pos + nl, n, acc);
                proof {
                    if r is None {
                        assert(infos_view(acc0.push(tok)) =~= infos_view(acc0) + seq![tok@]);
                        assert(infos_view(final(acc)@) =~= infos_view(acc0) + scan(
                            s@,
                            pos as nat,
                        )->Ok_0);
                    }
                }
                return r;
            },
            None => {
                return Some(pos);
            },
        }
    }
    if ex_is_word(c) {
        let wl = word_run(s, pos, n);
        let text = substring_string(s, pos, pos + wl);
        let tok = TokenInfo { token: Token::Symbol(text), position: pos, length: wl };
        let ghost acc0 = acc@;
        acc.push(tok);
        let r = scan_exec(s, pos + wl, n, acc);
        proof {
            if r is None {
                assert(infos_view(acc0.push(tok)) =~= infos_view(acc0) + seq![tok@]);
                assert(infos_view(final(acc)@) =~= infos_view(acc0) + scan(s@, pos as nat)->Ok_0);
            }
        }
        return r;
    }
    let p = if c == '(' {
        Some(Token::LPar)
    } else if c == ')' {
        Some(Token::RPar)
    } else if c == '+' {
        Some(Token::Plus)
    } else if c == '-' {
        Some(Token::Minus)
    } else if c == '*' {
        Some(Token::Mul)
    } else if c == '/' {
        Some(Token::Div)
    } else if c == ',' {
        Some(Token::Comma)
    } else {
        None
    };
    match p {
        Some(t) => {
            let tok = TokenInfo { token: t, position: pos, length: 1 };
            let ghost acc0 = acc@;
            acc.push(tok);
            let r = scan_exec(s, pos + 1, n, acc);
            proof {
                if r is None {
                    assert(infos_view(acc0.push(tok)) =~= infos_view(acc0) + seq![tok@]);
                    assert(infos_view(final(acc)@) =~= infos_view(acc0) + scan(s@, pos as nat)->Ok_0);
                }
            }
            r
        },
        None => Some(pos),
    }
}

/// Scans a whole expression into positioned tokens, or renders the
/// Unknown-character diagnostic for the first character nothing matches.
pub fn tokenize(expression: &str) -> (r: Result<Vec<TokenInfo>, String>)
    ensures
        match tokenize_spec(expression@) {
            Ok(ts) => r is Ok && infos_view(r->Ok_0@) == ts,
            Err(m) => r is Err && r->Err_0@ == m,
        },
        r matches Ok(v) ==> crate::token::tokens_nums_wf(infos_view(v@)),
{
    let n = expression.unicode_len();
    if n == 0 {
        let r: Vec<TokenInfo> = Vec::new();
        assert(infos_view(r@) =~= tokenize_spec(expression@)->Ok_0);
        return Ok(r);
    }
    if expression.get_char(0) == '\'' {
        let comment = substring_string(expression, 1, n);
        let tok = TokenInfo { token: Token::Comment(comment), position: 1, length: n - 1 };
        let mut r: Vec<TokenInfo> = Vec::new();
        r.push(tok);
        assert(infos_view(r@) =~= tokenize_spec(expression@)->Ok_0);
        return Ok(r);
    }
    // Reject any character outside ASCII before scanning.
    let mut i: usize = 0;
    while i < n
        invariant
            i <= n == expression@.len(),
            expression@[0] != '\'',
            n > 0,
            first_wide(expression@, 0) == first_wide(expression@, i as nat),
        decreases n - i,
    {
        let c = expression.get_char(i);
        if c as u32 >= 128 {
            return Err(error_message(expression, i, 1, "Unknown character"));
        }
        i = i + 1;
    }
    let mut acc: Vec<TokenInfo> = Vec::new();
    match scan_exec(expression, 0, n, &mut acc) {
        None => {
            assert(infos_view(acc@) =~= scan(expression@, 0)->Ok_0);
            Ok(acc)
        },
        Some(e) => Err(error_message(expression, e, 1, "Unknown character")),
    }
}

/// A token stream with one-token lookahead over a scanned expression.
pub struct Tokenizer {
    pub expression: String,
    pub tokens: Vec<TokenInfo>,
    pub position: usize,
}

impl Tokenizer {
    /// Scans the expression; a scan failure carries the rendered diagnostic.
    pub fn from(expression: &str) -> (r: Result<Tokenizer, String>)
        ensures
            match tokenize_spec(expression@) {
                Ok(ts) => r matches Ok(t) && infos_view(t.tokens@) == ts && t.position == 0
                    && t.expression@ == expression@,
                Err(m) => r matches Err(e) && e@ == m,
            },
            r matches Ok(t) ==> crate::token::tokens_nums_wf(infos_view(t.tokens@)),
    {
        match tokenize(expression) {
            Ok(tokens) => Ok(
                Tokenizer { expression: expression.to_owned(), tokens, position: 0 },
            ),
            Err(e) => Err(e),
        }
    }

    /// The next token, if one is left.
    pub fn peek(&self) -> (r: Option<&Token>)
        ensures
            match r {
                Some(t) => self.position < self.tokens@.len() && *t
                    == self.tokens@[self.position as int].token,
                None => self.position >= self.tokens@.len(),
            },
    {
        if self.position < self.tokens.len() {
            Some(&self.tokens[self.position].token)
        } else {
            None
        }
    }

    /// Steps past the current token; at the end it stays put.
    pub fn advance(&mut self)
        ensures
            final(self).expression == old(self).expression,
            final(self).tokens == old(self).tokens,
            final(self).position == if old(self).position < old(self).tokens@.len() {
                old(self).position + 1
            } else {
                old(self).position as int
            },
    {
        if self.position < self.tokens.len() {
            self.position = self.position + 1;
        }
    }

    /// Renders a diagnostic under the current token's span, or under the
    /// position one past the end when the tokens are exhausted.
    pub fn error_message(&self, message: &str) -> (r: String)
        ensures
            r@ == if self.position < self.tokens@.len() {
                err_msg_spec(
                    self.expression@,
                    self.tokens@[self.position as int].position as nat,
                    self.tokens@[self.position as int].length as nat,
                    message@,
                )
            } else {
                err_msg_spec(self.expression@, self.expression@.len(), 1, message@)
            },
    {
        if self.position < self.tokens.len() {
            let ti = &self.tokens[self.position];
            error_message(self.expression.as_str(), ti.position, ti.length, message)
        } else {
            let len = self.expression.as_str().unicode_len();
            error_message(self.expression.as_str(), len, 1, message)
        }
    }
}

} // verus!
