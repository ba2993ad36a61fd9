use vstd::prelude::*;
use rust_decimal::Decimal;
use std::str::FromStr;

verus! {

/// Largest magnitude of a mantissa: 96 bits.
pub const MAX_MANTISSA: i128 = 0xFFFF_FFFF_FFFF_FFFF_FFFF_FFFF;

/// Largest number of digits after the decimal point.
pub const MAX_SCALE: u32 = 28;

/// An exact decimal number, `mantissa / 10^scale`.
#[derive(Clone, Copy, Debug)]
pub struct Rate {
    pub mantissa: i128,
    pub scale: u32,
}

pub open spec fn pow10(n: nat) -> int
    decreases n,
{
    if n == 0 {
        1
    } else {
        10 * pow10((n - 1) as nat)
    }
}

/// Two decimals denote the same number.
pub open spec fn same_value(a: Rate, b: Rate) -> bool {
    a.mantissa * pow10(b.scale as nat) == b.mantissa * pow10(a.scale as nat)
}

/// What `1 / (mantissa / 10^scale)` comes to in rust_decimal's division,
/// as a pair (mantissa, scale).
pub uninterp spec fn reciprocal_of(mantissa: int, scale: int) -> (int, int);

/// The decimal that rust_decimal's division gives for `1 / r`.
pub open spec fn reciprocal_rate(r: Rate) -> Rate {
    Rate {
        mantissa: reciprocal_of(r.mantissa as int, r.scale as int).0 as i128,
        scale: reciprocal_of(r.mantissa as int, r.scale as int).1 as u32,
    }
}

impl Rate {
    /// Within the bounds of a rust_decimal value.
    pub open spec fn wf(self) -> bool {
        -MAX_MANTISSA <= self.mantissa <= MAX_MANTISSA && self.scale <= MAX_SCALE
    }

    pub fn new(mantissa: i128, scale: u32) -> (r: Rate)
        ensures
            r.mantissa == mantissa,
            r.scale == scale,
    {
        Rate { mantissa, scale }
    }

    pub fn is_zero(&self) -> (r: bool)
        ensures
            r == (self.mantissa == 0),
    {
        self.mantissa == 0
    }

    /// Numeric equality, `1.50 == 1.5`.
    pub fn equals(&self, other: &Rate) -> (r: bool)
        requires
            self.wf(),
            other.wf(),
        ensures
            r == same_value(*self, *other),
    {
        decimal_eq(self.mantissa, self.scale, other.mantissa, other.scale)
    }

    /// `1 / self`, none for zero.
    pub fn reciprocal(&self) -> (r: Option<Rate>)
        requires
            self.wf(),
        ensures
            r is None <==> self.mantissa == 0,
            r matches Some(q) ==> q.wf() && q == reciprocal_rate(*self),
    {
        match decimal_reciprocal(self.mantissa, self.scale) {
            Some((m, s)) => Some(Rate { mantissa: m, scale: s }),
            None => None,
        }
    }
}

/// Relies on rust_decimal's `PartialEq for Decimal`, which compares numbers,
/// not representations.
#[verifier::external_body]
fn decimal_eq(am: i128, ascale: u32, bm: i128, bscale: u32) -> (r: bool)
    requires
        -MAX_MANTISSA <= am <= MAX_MANTISSA,
        -MAX_MANTISSA <= bm <= MAX_MANTISSA,
        ascale <= MAX_SCALE,
        bscale <= MAX_SCALE,
    ensures
        r == (am * pow10(bscale as nat) == bm * pow10(ascale as nat)),
{
    Decimal::from_i128_with_scale(am, ascale) == Decimal::from_i128_with_scale(bm, bscale)
}

/// Relies on rust_decimal's `Decimal::checked_div` for `1 / x`: `None` for a
/// zero divisor; for any other divisor in range the quotient is at most
/// `10^28` in magnitude and fits.
#[verifier::external_body]
fn decimal_reciprocal(mantissa: i128, scale: u32) -> (r: Option<(i128, u32)>)
    requires
        -MAX_MANTISSA <= mantissa <= MAX_MANTISSA,
        scale <= MAX_SCALE,
    ensures
        r is None <==> mantissa == 0,
        r matches Some(q) ==> -MAX_MANTISSA <= q.0 <= MAX_MANTISSA && q.1 <= MAX_SCALE
            && q.0 == reciprocal_of(mantissa as int, scale as int).0
            && q.1 == reciprocal_of(mantissa as int, scale as int).1,
{
    let d = Decimal::from_i128_with_scale(mantissa, scale);
    Decimal::ONE.checked_div(d).map(|q| (q.mantissa(), q.scale()))
}

pub open spec fn is_digit(c: char) -> bool {
    '0' <= c && c <= '9'
}

pub open spec fn all_digits(s: Seq<char>) -> bool {
    forall|i: int| 0 <= i < s.len() ==> is_digit(#[trigger] s[i])
}

/// The number that a string of decimal digits writes.
pub open spec fn digits_value(s: Seq<char>) -> int
    decreases s.len(),
{
    if s.len() == 0 {
        0
    } else {
        10 * digits_value(s.drop_last()) + (s.last() as int - '0' as int)
    }
}

/// Index of the first `a` or `b` in `s`, or `s.len()` where there is none.
pub open spec fn index_of_any(s: Seq<char>, a: char, b: char) -> int
    decreases s.len(),
{
    if s.len() == 0 {
        0
    } else if s[0] == a || s[0] == b {
        0
    } else {
        1 + index_of_any(s.drop_first(), a, b)
    }
}

/// Index of the first `c` in `s`, or `s.len()` where there is none.
pub open spec fn index_of(s: Seq<char>, c: char) -> int {
    index_of_any(s, c, c)
}

/// `index_of_any` is the first position that holds `a` or `b`.
pub proof fn lemma_index_of_any(s: Seq<char>, a: char, b: char, k: int)
    requires
        0 <= k <= s.len(),
        forall|j: int| 0 <= j < k ==> s[j] != a && s[j] != b,
        k < s.len() ==> (s[k] == a || s[k] == b),
    ensures
        index_of_any(s, a, b) == k,
    decreases s.len(),
{
    if s.len() > 0 && k > 0 {
        let t = s.drop_first();
        assert forall|j: int| 0 <= j < k - 1 implies t[j] != a && t[j] != b by {
            assert(t[j] == s[j + 1]);
        }
        lemma_index_of_any(t, a, b, k - 1);
    }
}

/// A string of digits writes a number below `10^len`.
pub proof fn lemma_digits_bound(s: Seq<char>)
    requires
        all_digits(s),
    ensures
        0 <= digits_value(s) < pow10(s.len()),
    decreases s.len(),
{
    if s.len() > 0 {
        let t = s.drop_last();
        assert(all_digits(t)) by {
            assert forall|i: int| 0 <= i < t.len() implies is_digit(#[trigger] t[i]) by {
                assert(t[i] == s[i]);
            }
        }
        assert(is_digit(s[s.len() - 1]));
        lemma_digits_bound(t);
    }
}

/// Reading one more digit.
pub proof fn lemma_digits_step(s: Seq<char>, i: int)
    requires
        0 <= i < s.len(),
    ensures
        digits_value(s.take(i + 1)) == 10 * digits_value(s.take(i)) + (s[i] as int - '0' as int),
{
    assert(s.take(i + 1).drop_last() =~= s.take(i));
}

pub proof fn lemma_pow10_mono(a: nat, b: nat)
    requires
        a <= b,
    ensures
        1 <= pow10(a) <= pow10(b),
    decreases b,
{
    if b > 0 {
        if a < b {
            lemma_pow10_mono(a, (b - 1) as nat);
        } else {
            lemma_pow10_mono((b - 1) as nat, (b - 1) as nat);
        }
    }
}

/// Whether a literal starts with a sign.
pub open spec fn has_sign(s: Seq<char>) -> bool {
    s.len() > 0 && (s[0] == '-' || s[0] == '+')
}

/// The part of a literal after an optional sign.
pub open spec fn unsigned_part(s: Seq<char>) -> Seq<char> {
    if has_sign(s) {
        s.drop_first()
    } else {
        s
    }
}

pub open spec fn int_digits(s: Seq<char>) -> Seq<char> {
    unsigned_part(s).take(index_of(unsigned_part(s), '.'))
}

pub open spec fn frac_digits(s: Seq<char>) -> Seq<char> {
    let u = unsigned_part(s);
    let k = index_of(u, '.');
    if k < u.len() {
        u.skip(k + 1)
    } else {
        Seq::empty()
    }
}

/// A plain decimal literal `[+-]?d*(.d*)?` with one to 28 digits.
pub open spec fn plain_literal(s: Seq<char>) -> bool {
    &&& all_digits(int_digits(s))
    &&& all_digits(frac_digits(s))
    &&& 1 <= int_digits(s).len() + frac_digits(s).len() <= 28
}

pub open spec fn literal_value(s: Seq<char>) -> Rate {
    let m = digits_value(int_digits(s) + frac_digits(s));
    Rate {
        mantissa: (if s.len() > 0 && s[0] == '-' { -m } else { m }) as i128,
        scale: frac_digits(s).len() as u32,
    }
}

/// Relies on rust_decimal's `FromStr for Decimal`: a literal with an
/// optional sign, digits and at most one point, of one to 28 digits, is
/// read exactly, its digits as the mantissa and the count of
/// digits after the point as the scale.
#[verifier::external_body]
pub(crate) fn decimal_from_str(s: &str) -> (r: Option<(i128, u32)>)
    ensures
        plain_literal(s@) ==> r == Some(
            (literal_value(s@).mantissa, literal_value(s@).scale),
        ),
{
    Decimal::from_str(s).ok().map(|d| (d.mantissa(), d.scale()))
}

} // verus!
