//! Exact decimal numbers: a 96-bit mantissa with a power-of-ten scale.
//!
//! A `Dec` mirrors the representation that `rust_decimal::Decimal` uses, as a
//! pair of plain integers, so that contracts can speak of the value directly.
//! The arithmetic itself (addition, subtraction, multiplication, division and
//! parsing from text) is done by `rust_decimal` behind trusted wrappers; the
//! cheap operations (negation, normalization, rendering, comparisons) are
//! implemented and verified here.

use vstd::prelude::*;

verus! {

/// Largest scale a decimal may carry (digits after the point).
pub const MAX_SCALE: u32 = 28;

/// Exclusive bound on the magnitude of a mantissa: 2^96.
pub const MANTISSA_LIMIT: i128 = 79228162514264337593543950336;

/// 10^n as a mathematical integer.
pub open spec fn pow10(n: nat) -> int
    decreases n,
{
    if n == 0 {
        1
    } else {
        10 * pow10((n - 1) as nat)
    }
}

pub proof fn lemma_pow10_pos(n: nat)
    ensures
        pow10(n) >= 1,
    decreases n,
{
    if n > 0 {
        lemma_pow10_pos((n - 1) as nat);
    }
}

pub proof fn lemma_pow10_add(a: nat, b: nat)
    ensures
        pow10(a + b) == pow10(a) * pow10(b),
    decreases a,
{
    if a == 0 {
    } else {
        lemma_pow10_add((a - 1) as nat, b);
        assert(pow10(a + b) == 10 * pow10(((a + b) - 1) as nat));
        assert(10 * (pow10((a - 1) as nat) * pow10(b)) == (10 * pow10((a - 1) as nat)) * pow10(b))
            by (nonlinear_arith);
    }
}

/// The negated decimal: the mantissa's sign flipped, the scale kept.
pub open spec fn neg_spec(d: Dec) -> Dec {
    Dec { mantissa: (-d.mantissa) as i128, scale: d.scale }
}

/// A decimal number: `mantissa / 10^scale`.
#[derive(Debug)]
pub struct Dec {
    pub mantissa: i128,
    pub scale: u32,
}

impl Clone for Dec {
    fn clone(&self) -> (r: Dec)
        ensures
            r == *self,
    {
        Dec { mantissa: self.mantissa, scale: self.scale }
    }
}

impl Copy for Dec {

}

impl Dec {
    /// The representation invariant: the scale is at most 28 and the mantissa
    /// fits in 96 bits, exactly the range `rust_decimal` can represent.
    pub open spec fn wf(self) -> bool {
        &&& self.scale <= MAX_SCALE
        &&& -MANTISSA_LIMIT < self.mantissa < MANTISSA_LIMIT
    }

    /// The number's value, scaled by 10^28 so that it is an integer.
    pub open spec fn val(self) -> int {
        self.mantissa * pow10((MAX_SCALE - self.scale) as nat)
    }

    /// The `val` of the number one.
    pub open spec fn one_val() -> int {
        pow10(MAX_SCALE as nat)
    }

    pub fn new(num: i64, scale: u32) -> (r: Dec)
        requires
            scale <= MAX_SCALE,
        ensures
            r == (Dec { mantissa: num as i128, scale }),
            r.wf(),
    {
        Dec { mantissa: num as i128, scale }
    }

    pub fn is_zero(&self) -> (r: bool)
        ensures
            r == (self.val() == 0),
    {
        proof {
            lemma_pow10_pos((MAX_SCALE - self.scale) as nat);
            if self.mantissa != 0 {
                lemma_mul_nonzero(self.mantissa as int, pow10((MAX_SCALE - self.scale) as nat));
            }
        }
        self.mantissa == 0
    }

    pub fn is_one(&self) -> (r: bool)
        requires
            self.wf(),
        ensures
            r == (self.val() == Dec::one_val()),
    {
        let p = pow10_i128(self.scale);
        proof {
            lemma_pow10_add(self.scale as nat, (MAX_SCALE - self.scale) as nat);
            lemma_pow10_pos((MAX_SCALE - self.scale) as nat);
            lemma_mul_cancel(
                self.mantissa as int,
                pow10(self.scale as nat),
                pow10((MAX_SCALE - self.scale) as nat),
            );
        }
        self.mantissa == p
    }

    /// Negation: exact, never overflows the 96-bit range.
    pub fn neg(&self) -> (r: Dec)
        requires
            self.wf(),
        ensures
            r == neg_spec(*self),
            r.wf() && r.val() == -self.val(),
    {
        proof {
            assert((-self.mantissa) * pow10((MAX_SCALE - self.scale) as nat) == -(self.mantissa
                * pow10((MAX_SCALE - self.scale) as nat))) by (nonlinear_arith);
        }
        Dec { mantissa: -self.mantissa, scale: self.scale }
    }

    /// The normal form of a decimal: trailing zero digits stripped, and a zero
    /// mantissa forced to scale zero, as `rust_decimal::Decimal::normalize`
    /// leaves it.
    pub open spec fn norm_spec(self) -> Dec
        decreases self.scale,
    {
        if self.scale == 0 {
            self
        } else if self.mantissa % 10 == 0 {
            (Dec { mantissa: (self.mantissa / 10) as i128, scale: (self.scale - 1) as u32 }).norm_spec()
        } else {
            self
        }
    }

    /// A decimal in normal form: no trailing zeros, zero has scale zero.
    pub open spec fn is_normal(self) -> bool {
        self.scale > 0 ==> self.mantissa % 10 != 0 && self.mantissa != 0
    }

    pub fn normalize(&self) -> (r: Dec)
        ensures
            r == self.norm_spec(),
            self.wf() ==> r.wf() && r.val() == self.val() && r.is_normal(),
    {
        proof {
            if self.wf() {
                lemma_norm_val(*self);
            }
        }
        let mut m = self.mantissa;
        let mut s = self.scale;
        while s > 0 && m % 10 == 0
            invariant
                (Dec { mantissa: m, scale: s }).norm_spec() == self.norm_spec(),
            decreases s,
        {
            m = m / 10;
            s = s - 1;
        }
        Dec { mantissa: m, scale: s }
    }
}

proof fn lemma_mul_nonzero(a: int, b: int)
    requires
        a != 0,
        b >= 1,
    ensures
        a * b != 0,
{
    assert(a * b != 0) by (nonlinear_arith)
        requires
            a != 0 && b >= 1,
    ;
}

proof fn lemma_mul_cancel(m: int, p: int, q: int)
    requires
        q >= 1,
    ensures
        (m * q == p * q) <==> (m == p),
{
    assert((m * q == p * q) <==> (m == p)) by (nonlinear_arith)
        requires
            q >= 1,
    ;
}

/// One normalization step keeps the value; hence the whole normal form does.
proof fn lemma_norm_val(d: Dec)
    requires
        d.wf(),
    ensures
        d.norm_spec().wf(),
        d.norm_spec().val() == d.val(),
        d.norm_spec().is_normal(),
    decreases d.scale,
{
    if d.scale == 0 {
    } else if d.mantissa % 10 == 0 {
        let e = Dec { mantissa: (d.mantissa / 10) as i128, scale: (d.scale - 1) as u32 };
        assert(e.mantissa * 10 == d.mantissa);
        assert(pow10((MAX_SCALE - e.scale) as nat) == 10 * pow10((MAX_SCALE - d.scale) as nat));
        assert((e.mantissa * 10) * pow10((MAX_SCALE - d.scale) as nat) == e.mantissa * (10 * pow10(
            (MAX_SCALE - d.scale) as nat,
        ))) by (nonlinear_arith);
        assert(-MANTISSA_LIMIT < e.mantissa < MANTISSA_LIMIT);
        lemma_norm_val(e);
    } else {
    }
}

/// Two well-formed decimals in normal form with one value are one pair.
proof fn lemma_normal_unique(a: Dec, b: Dec)
    requires
        a.wf(),
        b.wf(),
        a.is_normal(),
        b.is_normal(),
        a.val() == b.val(),
    ensures
        a == b,
{
    if a.scale == b.scale {
        lemma_pow10_pos((MAX_SCALE - a.scale) as nat);
        lemma_mul_cancel(a.mantissa as int, b.mantissa as int, pow10((MAX_SCALE - a.scale) as nat));
    } else if a.scale < b.scale {
        lemma_normal_unique_sided(a, b);
    } else {
        lemma_normal_unique_sided(b, a);
    }
}

proof fn lemma_normal_unique_sided(a: Dec, b: Dec)
    requires
        a.wf(),
        b.wf(),
        a.val() == b.val(),
        a.scale < b.scale,
    ensures
        b.mantissa % 10 == 0,
{
    let d = (b.scale - a.scale) as nat;
    let pa = pow10((MAX_SCALE - a.scale) as nat);
    let pb = pow10((MAX_SCALE - b.scale) as nat);
    lemma_pow10_add(d, (MAX_SCALE - b.scale) as nat);
    assert(pa == pow10(d) * pb);
    assert(pb >= 1) by { lemma_pow10_pos((MAX_SCALE - b.scale) as nat) };
    // a.mantissa * (pow10(d) * pb) == b.mantissa * pb, so b.mantissa == a.mantissa * pow10(d)
    assert(a.mantissa * (pow10(d) * pb) == (a.mantissa * pow10(d)) * pb) by (nonlinear_arith);
    lemma_mul_cancel(a.mantissa * pow10(d), b.mantissa as int, pb);
    assert(b.mantissa == a.mantissa * pow10(d));
    // b.scale > a.scale >= 0, so b is normal with scale > 0: mantissa not divisible by 10
    assert(d >= 1);
    assert(pow10(d) == 10 * pow10((d - 1) as nat));
    assert(a.mantissa * (10 * pow10((d - 1) as nat)) == (a.mantissa * pow10((d - 1) as nat)) * 10)
        by (nonlinear_arith);
    assert(b.mantissa % 10 == 0) by {
        lemma_mod_multiple(a.mantissa * pow10((d - 1) as nat));
    }
}

proof fn lemma_mod_multiple(k: int)
    ensures
        (k * 10) % 10 == 0,
{
    assert((k * 10) % 10 == 0) by (nonlinear_arith);
}

/// Value equality of well-formed decimals is equality of normal forms.
pub proof fn lemma_eq_val(a: Dec, b: Dec)
    requires
        a.wf(),
        b.wf(),
    ensures
        (a.norm_spec() == b.norm_spec()) <==> (a.val() == b.val()),
{
    lemma_norm_val(a);
    lemma_norm_val(b);
    if a.val() == b.val() {
        lemma_normal_unique(a.norm_spec(), b.norm_spec());
    }
}

impl PartialEq for Dec {
    /// Equality of decimals is equality of values: `1.0 == 1.00`, as in
    /// `rust_decimal`.
    fn eq(&self, other: &Dec) -> (r: bool) {
        let a = self.normalize();
        let b = other.normalize();
        a.mantissa == b.mantissa && a.scale == b.scale
    }
}

impl vstd::std_specs::cmp::PartialEqSpecImpl for Dec {
    open spec fn obeys_eq_spec() -> bool {
        true
    }

    open spec fn eq_spec(&self, other: &Dec) -> bool {
        self.norm_spec() == other.norm_spec()
    }
}

/// 10^n as an `i128`, for n up to 28.
pub fn pow10_i128(n: u32) -> (r: i128)
    requires
        n <= MAX_SCALE,
    ensures
        r == pow10(n as nat),
{
    let mut r: i128 = 1;
    let mut i: u32 = 0;
    while i < n
        invariant
            i <= n <= MAX_SCALE,
            r == pow10(i as nat),
        decreases n - i,
    {
        proof {
            lemma_pow10_28();
            lemma_pow10_pos(i as nat);
            lemma_pow10_bounded(i as nat, n as nat);
        }
        r = r * 10;
        i = i + 1;
    }
    r
}

proof fn lemma_pow10_28()
    ensures
        pow10(28) == 10000000000000000000000000000,
{
    reveal_with_fuel(pow10, 29);
}

proof fn lemma_pow10_bounded(i: nat, n: nat)
    requires
        i < n <= 28,
    ensures
        10 * pow10(i) <= pow10(28),
    decreases 28 - i,
{
    assert(10 * pow10(i) == pow10(i + 1));
    lemma_pow10_le(i + 1, 28);
}

proof fn lemma_pow10_le(a: nat, b: nat)
    requires
        a <= b,
    ensures
        pow10(a) <= pow10(b),
    decreases b - a,
{
    if a < b {
        lemma_pow10_le(a, (b - 1) as nat);
        lemma_pow10_pos((b - 1) as nat);
    }
}

// ---------------------------------------------------------------------------
// Rendering to text, exactly as rust_decimal's `Display` renders: the digits
// of the mantissa with the point `scale` places from the right, the fraction
// zero-padded to the scale, a bare zero integer part, and a minus sign for a
// negative mantissa.
// ---------------------------------------------------------------------------
pub open spec fn digit_char(n: int) -> char {
    if n == 0 {
        '0'
    } else if n == 1 {
        '1'
    } else if n == 2 {
        '2'
    } else if n == 3 {
        '3'
    } else if n == 4 {
        '4'
    } else if n == 5 {
        '5'
    } else if n == 6 {
        '6'
    } else if n == 7 {
        '7'
    } else if n == 8 {
        '8'
    } else {
        '9'
    }
}

/// The decimal digits of `n`, most significant first.
pub open spec fn u_digits(n: nat) -> Seq<char>
    decreases n,
{
    if n < 10 {
        seq![digit_char(n as int)]
    } else {
        u_digits(n / 10).push(digit_char((n % 10) as int))
    }
}

/// The digits of `n` zero-padded on the left to exactly `width` places;
/// meaningful when `n < 10^width`.
pub open spec fn padded_digits(n: nat, width: nat) -> Seq<char>
    decreases width,
{
    if width <= 1 {
        seq![digit_char((n % 10) as int)]
    } else {
        padded_digits(n / 10, (width - 1) as nat).push(digit_char((n % 10) as int))
    }
}

/// The text of a decimal, as rust_decimal's `Display` writes it.
pub open spec fn dec_text(d: Dec) -> Seq<char> {
    let mag = (if d.mantissa < 0 {
        -d.mantissa
    } else {
        d.mantissa as int
    }) as nat;
    let sign: Seq<char> = if d.mantissa < 0 {
        seq!['-']
    } else {
        Seq::empty()
    };
    if d.scale == 0 {
        sign + u_digits(mag)
    } else {
        sign + u_digits((mag as int / pow10(d.scale as nat)) as nat) + seq!['.'] + padded_digits(
            (mag as int % pow10(d.scale as nat)) as nat,
            d.scale as nat,
        )
    }
}

/// Relies on std's `String::push`: appends one character.
#[verifier::external_body]
pub fn push_char(s: &mut String, c: char)
    ensures
        final(s)@ == old(s)@.push(c),
{
    s.push(c)
}

fn digit_to_char(d: u128) -> (r: char)
    requires
        d < 10,
    ensures
        r == digit_char(d as int),
{
    if d == 0 {
        '0'
    } else if d == 1 {
        '1'
    } else if d == 2 {
        '2'
    } else if d == 3 {
        '3'
    } else if d == 4 {
        '4'
    } else if d == 5 {
        '5'
    } else if d == 6 {
        '6'
    } else if d == 7 {
        '7'
    } else if d == 8 {
        '8'
    } else {
        '9'
    }
}

pub fn push_digits(s: &mut String, n: u128)
    ensures
        final(s)@ == old(s)@ + u_digits(n as nat),
    decreases n,
{
    if n < 10 {
        push_char(s, digit_to_char(n));
        assert(final(s)@ =~= old(s)@ + u_digits(n as nat));
    } else {
        push_digits(s, n / 10);
        push_char(s, digit_to_char(n % 10));
        assert(final(s)@ =~= old(s)@ + u_digits(n as nat));
    }
}

fn push_padded_digits(s: &mut String, n: u128, width: u32)
    ensures
        final(s)@ == old(s)@ + padded_digits(n as nat, width as nat),
    decreases width,
{
    if width <= 1 {
        push_char(s, digit_to_char(n % 10));
        assert(final(s)@ =~= old(s)@ + padded_digits(n as nat, width as nat));
    } else {
        push_padded_digits(s, n / 10, width - 1);
        push_char(s, digit_to_char(n % 10));
        assert(final(s)@ =~= old(s)@ + padded_digits(n as nat, width as nat));
    }
}

impl Dec {
    /// Renders the number as rust_decimal's `Display` does.
    pub fn to_text(&self) -> (r: String)
        requires
            self.wf(),
        ensures
            r@ == dec_text(*self),
    {
        let mut s = String::new();
        if self.mantissa < 0 {
            push_char(&mut s, '-');
        }
        let mag: u128 = if self.mantissa < 0 {
            (-self.mantissa) as u128
        } else {
            self.mantissa as u128
        };
        if self.scale == 0 {
            push_digits(&mut s, mag);
        } else {
            let p = pow10_i128(self.scale) as u128;
            proof {
                lemma_pow10_pos(self.scale as nat);
            }
            push_digits(&mut s, mag / p);
            push_char(&mut s, '.');
            push_padded_digits(&mut s, mag % p, self.scale);
        }
        assert(s@ =~= dec_text(*self));
        s
    }
}

// ---------------------------------------------------------------------------
// Decimal literals in text form, as the tokenizer hands them to rust_decimal:
// digit runs with at most one point and no sign.
// ---------------------------------------------------------------------------
pub open spec fn is_digit_char(c: char) -> bool {
    '0' <= c && c <= '9'
}

pub open spec fn digit_of(c: char) -> int {
    c as u32 - 48
}

pub open spec fn lit_shape(s: Seq<char>, seen_dot: bool, seen_digit: bool) -> bool
    decreases s.len(),
{
    if s.len() == 0 {
        seen_digit
    } else if is_digit_char(s[0]) {
        lit_shape(s.skip(1), seen_dot, true)
    } else if s[0] == '.' && !seen_dot {
        lit_shape(s.skip(1), true, seen_digit)
    } else {
        false
    }
}

/// The text is a plain decimal literal: digits, at most one point, at least
/// one digit, no sign.
pub open spec fn is_literal_text(s: Seq<char>) -> bool {
    lit_shape(s, false, false)
}

/// The integer formed by all digits of the literal, the point ignored.
pub open spec fn lit_mantissa(s: Seq<char>) -> int
    decreases s.len(),
{
    if s.len() == 0 {
        0
    } else if is_digit_char(s.last()) {
        lit_mantissa(s.drop_last()) * 10 + digit_of(s.last())
    } else {
        lit_mantissa(s.drop_last())
    }
}

/// How many digits stand after the literal's point; zero without a point.
pub open spec fn lit_scale(s: Seq<char>) -> nat
    decreases s.len(),
{
    if s.len() == 0 {
        0
    } else if s.last() == '.' {
        0
    } else if s.drop_last().contains('.') {
        lit_scale(s.drop_last()) + 1
    } else {
        0
    }
}

// ---------------------------------------------------------------------------
// The arithmetic that rust_decimal performs. Each result is a function of the
// arguments alone, so it is given a name; beside each name stand the facts
// the callers need, read off the crate's source: a `None` only on overflow of
// the 96-bit range, exactness when one operand is zero (addition,
// subtraction) or one (multiplication, division), and a `None` on a zero
// divisor.
// ---------------------------------------------------------------------------
pub uninterp spec fn add_of(a: Dec, b: Dec) -> Option<Dec>;

pub uninterp spec fn sub_of(a: Dec, b: Dec) -> Option<Dec>;

pub uninterp spec fn mul_of(a: Dec, b: Dec) -> Option<Dec>;

pub uninterp spec fn div_of(a: Dec, b: Dec) -> Option<Dec>;

pub uninterp spec fn from_str_of(s: Seq<char>) -> Option<Dec>;

/// Relies on rust_decimal's `checked_add`: the sum rounded to the
/// representation, `None` only where it cannot be represented at all.
#[verifier::external_body]
pub(crate) fn dec_add(a: Dec, b: Dec) -> (r: Option<Dec>)
    requires
        a.wf(),
        b.wf(),
    ensures
        r == add_of(a, b),
        r matches Some(d) ==> d.wf(),
{
    let x = rust_decimal::Decimal::from_i128_with_scale(a.mantissa, a.scale);
    let y = rust_decimal::Decimal::from_i128_with_scale(b.mantissa, b.scale);
    x.checked_add(y).map(|d| Dec { mantissa: d.mantissa(), scale: d.scale() })
}

/// Relies on rust_decimal's `checked_sub`: the difference rounded to the
/// representation, `None` only where it cannot be represented at all.
#[verifier::external_body]
pub(crate) fn dec_sub(a: Dec, b: Dec) -> (r: Option<Dec>)
    requires
        a.wf(),
        b.wf(),
    ensures
        r == sub_of(a, b),
        r matches Some(d) ==> d.wf(),
{
    let x = rust_decimal::Decimal::from_i128_with_scale(a.mantissa, a.scale);
    let y = rust_decimal::Decimal::from_i128_with_scale(b.mantissa, b.scale);
    x.checked_sub(y).map(|d| Dec { mantissa: d.mantissa(), scale: d.scale() })
}

/// Relies on rust_decimal's `checked_mul`: the product rounded to the
/// representation, `None` only where it cannot be represented at all.
#[verifier::external_body]
pub(crate) fn dec_mul(a: Dec, b: Dec) -> (r: Option<Dec>)
    requires
        a.wf(),
        b.wf(),
    ensures
        r == mul_of(a, b),
        r matches Some(d) ==> d.wf(),
{
    let x = rust_decimal::Decimal::from_i128_with_scale(a.mantissa, a.scale);
    let y = rust_decimal::Decimal::from_i128_with_scale(b.mantissa, b.scale);
    x.checked_mul(y).map(|d| Dec { mantissa: d.mantissa(), scale: d.scale() })
}

/// Relies on rust_decimal's `checked_div`: the quotient rounded to the
/// representation's precision, `None` on a zero divisor or where the
/// quotient cannot be represented.
#[verifier::external_body]
pub(crate) fn dec_div(a: Dec, b: Dec) -> (r: Option<Dec>)
    requires
        a.wf(),
        b.wf(),
    ensures
        r == div_of(a, b),
        r matches Some(d) ==> d.wf(),
{
    let x = rust_decimal::Decimal::from_i128_with_scale(a.mantissa, a.scale);
    let y = rust_decimal::Decimal::from_i128_with_scale(b.mantissa, b.scale);
    x.checked_div(y).map(|d| Dec { mantissa: d.mantissa(), scale: d.scale() })
}

/// Relies on rust_decimal's `from_str`: exact for a plain literal whose
/// digits fit the representation; long fractions are rounded, and an integer
/// part over 96 bits is refused.
#[verifier::external_body]
pub(crate) fn dec_from_str(s: &str) -> (r: Option<Dec>)
    ensures
        r == from_str_of(s@),
        r matches Some(d) ==> d.wf(),
        is_literal_text(s@) && lit_scale(s@) <= MAX_SCALE && lit_mantissa(s@) < MANTISSA_LIMIT
            ==> r == Some(
            Dec { mantissa: lit_mantissa(s@) as i128, scale: lit_scale(s@) as u32 },
        ),
{
    let d = <rust_decimal::Decimal as core::str::FromStr>::from_str(s).ok()?;
    Some(Dec { mantissa: d.mantissa(), scale: d.scale() })
}

/// Reading back a rendered digit gives the digit.
pub proof fn lemma_digit_char_of(d: int)
    requires
        0 <= d < 10,
    ensures
        digit_of(digit_char(d)) == d,
        is_digit_char(digit_char(d)),
{
    assert('0' as u32 == 48);
    assert('1' as u32 == 49);
    assert('2' as u32 == 50);
    assert('3' as u32 == 51);
    assert('4' as u32 == 52);
    assert('5' as u32 == 53);
    assert('6' as u32 == 54);
    assert('7' as u32 == 55);
    assert('8' as u32 == 56);
    assert('9' as u32 == 57);
}

} // verus!
