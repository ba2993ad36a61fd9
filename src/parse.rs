use vstd::prelude::*;
use crate::decimal::{
    all_digits, decimal_from_str, digits_value, frac_digits, index_of_any, int_digits,
    is_digit, lemma_digits_bound, lemma_digits_step, lemma_index_of_any, lemma_pow10_mono,
    literal_value, plain_literal, pow10, unsigned_part, Rate, MAX_MANTISSA, MAX_SCALE,
};

verus! {

/// The string with every comma replaced by a period.
pub open spec fn normalized(s: Seq<char>) -> Seq<char> {
    Seq::new(s.len(), |i: int| if s[i] == ',' { '.' } else { s[i] })
}

/// Normalizing twice is normalizing once.
pub proof fn lemma_normalize_idempotent(s: Seq<char>)
    ensures
        normalized(normalized(s)) == normalized(s),
{
    assert(normalized(normalized(s)) =~= normalized(s));
}

/// Replaces every comma by a period, so that `"90,5"` reads as `"90.5"`.
pub fn normalize_decimal_string(s: &str) -> (r: String)
    ensures
        r@ == normalized(s@),
{
    let n = s.unicode_len();
    let mut out = String::new();
    let mut i: usize = 0;
    while i < n
        invariant
            n == s@.len(),
            i <= n,
            out@ == normalized(s@).take(i as int),
        decreases n - i,
    {
        let c = s.get_char(i);
        let ghost before = out@;
        if c == ',' {
            proof {
                reveal_strlit(".");
            }
            out.append(".");
        } else {
            let one = s.substring_char(i, i + 1);
            out.append(one);
        }
        assert(out@ =~= normalized(s@).take(i + 1)) by {
            assert(normalized(s@).take(i + 1) =~= before.push(normalized(s@)[i as int]));
        }
        i += 1;
    }
    assert(out@ =~= normalized(s@));
    out
}

/// A signed exponent of one or more digits.
pub open spec fn exponent_of(s: Seq<char>) -> Option<int> {
    let signed = s.len() > 0 && (s[0] == '-' || s[0] == '+');
    let d = if signed {
        s.drop_first()
    } else {
        s
    };
    if 1 <= d.len() && all_digits(d) {
        Some(if s.len() > 0 && s[0] == '-' { -digits_value(d) } else { digits_value(d) })
    } else {
        None
    }
}

/// `r * 10^e`, where it is exact within the bounds of a decimal.
pub open spec fn shifted(r: Rate, e: int) -> Option<Rate> {
    if r.mantissa == 0 {
        Some(Rate { mantissa: 0, scale: 0 })
    } else if e >= 0 {
        if e <= r.scale {
            Some(Rate { mantissa: r.mantissa, scale: (r.scale - e) as u32 })
        } else if e - r.scale <= MAX_SCALE && abs(r.mantissa as int) * pow10(
            (e - r.scale) as nat,
        ) <= MAX_MANTISSA {
            Some(Rate { mantissa: (r.mantissa * pow10((e - r.scale) as nat)) as i128, scale: 0 })
        } else {
            None
        }
    } else if r.scale - e <= MAX_SCALE {
        Some(Rate { mantissa: r.mantissa, scale: (r.scale - e) as u32 })
    } else {
        None
    }
}

/// The rate that a normalized string writes: a plain literal, optionally
/// followed by `E` or `e` and an exponent.
pub open spec fn rate_of(t: Seq<char>) -> Option<Rate> {
    let k = index_of_any(t, 'E', 'e');
    let mant = t.take(k);
    if !plain_literal(mant) {
        None
    } else if k == t.len() {
        Some(literal_value(mant))
    } else {
        match exponent_of(t.skip(k + 1)) {
            Some(e) => shifted(literal_value(mant), e),
            None => None,
        }
    }
}

/// The rate that a feed string writes, comma or period as separator.
pub open spec fn parsed_rate(s: Seq<char>) -> Option<Rate> {
    rate_of(normalized(s))
}

/// Bound on the magnitude of an exponent that is carried: any larger one
/// shifts a non-zero value out of a decimal's range.
pub const EXPONENT_CAP: u64 = 1000000000;

pub open spec fn capped(x: int) -> int {
    if x > EXPONENT_CAP {
        EXPONENT_CAP as int
    } else if x < -EXPONENT_CAP {
        -EXPONENT_CAP
    } else {
        x
    }
}

pub open spec fn abs(x: int) -> int {
    if x < 0 {
        -x
    } else {
        x
    }
}

/// Whether `s[from..to]` is all digits.
fn all_digits_in(s: &str, from: usize, to: usize) -> (r: bool)
    requires
        from <= to <= s@.len(),
    ensures
        r == all_digits(s@.subrange(from as int, to as int)),
{
    let mut i: usize = from;
    while i < to
        invariant
            from <= i <= to <= s@.len(),
            forall|j: int| from <= j < i ==> is_digit(#[trigger] s@[j]),
        decreases to - i,
    {
        let c = s.get_char(i);
        if !('0' <= c && c <= '9') {
            assert(s@.subrange(from as int, to as int)[i - from] == c);
            return false;
        }
        i += 1;
    }
    assert forall|j: int| 0 <= j < to - from implies is_digit(
        #[trigger] s@.subrange(from as int, to as int)[j],
    ) by {
        assert(s@.subrange(from as int, to as int)[j] == s@[from + j]);
    }
    true
}

/// The value of the digits `s[from..to]`, known to be digits, capped at
/// `EXPONENT_CAP`.
fn digits_capped(s: &str, from: usize, to: usize) -> (r: u64)
    requires
        from <= to <= s@.len(),
        all_digits(s@.subrange(from as int, to as int)),
    ensures
        r == capped(digits_value(s@.subrange(from as int, to as int))),
{
    let ghost d = s@.subrange(from as int, to as int);
    let mut v: u64 = 0;
    let mut i: usize = from;
    while i < to
        invariant
            from <= i <= to <= s@.len(),
            d == s@.subrange(from as int, to as int),
            all_digits(d),
            v == capped(digits_value(d.take(i - from))),
            v <= EXPONENT_CAP,
        decreases to - i,
    {
        let c = s.get_char(i);
        proof {
            lemma_digits_step(d, i - from);
            assert(d[i - from] == c);
            assert(is_digit(d[i - from]));
            assert forall|j: int| 0 <= j < d.take(i - from).len() implies is_digit(
                #[trigger] d.take(i - from)[j],
            ) by {
                assert(d.take(i - from)[j] == d[j]);
            }
            lemma_digits_bound(d.take(i - from));
        }
        let next = v * 10 + (c as u64 - '0' as u64);
        v = if next > EXPONENT_CAP {
            EXPONENT_CAP
        } else {
            next
        };
        i += 1;
    }
    assert(d.take(to - from) =~= d);
    v
}

/// Reads a signed exponent of one or more digits; its magnitude is capped at
/// `EXPONENT_CAP`.
pub fn parse_exponent(s: &str) -> (r: Option<i64>)
    ensures
        r is None <==> exponent_of(s@) is None,
        r matches Some(e) ==> exponent_of(s@) matches Some(x) && e == capped(x),
{
    let n = s.unicode_len();
    let signed = n > 0 && (s.get_char(0) == '-' || s.get_char(0) == '+');
    let start: usize = if signed {
        1
    } else {
        0
    };
    let ghost d = if signed {
        s@.drop_first()
    } else {
        s@
    };
    assert(d =~= s@.subrange(start as int, n as int));
    if n - start < 1 {
        return None;
    }
    if !all_digits_in(s, start, n) {
        return None;
    }
    let v = digits_capped(s, start, n);
    proof {
        lemma_digits_bound(d);
    }
    if n > 0 && s.get_char(0) == '-' {
        Some(-(v as i64))
    } else {
        Some(v as i64)
    }
}

/// Whether `s` is a plain decimal literal `[+-]?d*(.d*)?` with one to 28
/// digits.
pub fn is_plain_literal(s: &str) -> (r: bool)
    ensures
        r == plain_literal(s@),
{
    let n = s.unicode_len();
    let start: usize = if n > 0 && (s.get_char(0) == '-' || s.get_char(0) == '+') {
        1
    } else {
        0
    };
    let ghost u = unsigned_part(s@);
    assert(u =~= s@.subrange(start as int, n as int));
    let mut k: usize = start;
    while k < n && s.get_char(k) != '.'
        invariant
            start <= k <= n,
            n == s@.len(),
            forall|j: int| start <= j < k ==> s@[j] != '.',
        decreases n - k,
    {
        k += 1;
    }
    proof {
        assert forall|j: int| 0 <= j < k - start implies u[j] != '.' && u[j] != '.' by {
            assert(u[j] == s@[start + j]);
        }
        if k < n {
            assert(u[k - start] == s@[k as int]);
        }
        lemma_index_of_any(u, '.', '.', k - start);
        assert(int_digits(s@) =~= s@.subrange(start as int, k as int));
    }
    if !all_digits_in(s, start, k) {
        return false;
    }
    let frac_len: usize = if k < n {
        n - k - 1
    } else {
        0
    };
    if k < n {
        assert(frac_digits(s@) =~= s@.subrange(k + 1, n as int));
        if !all_digits_in(s, k + 1, n) {
            return false;
        }
    } else {
        assert(frac_digits(s@) =~= Seq::<char>::empty());
    }
    1 <= k - start + frac_len && k - start + frac_len <= 28
}

/// A plain literal lies within the bounds of a decimal.
pub proof fn lemma_literal_wf(s: Seq<char>)
    requires
        plain_literal(s),
    ensures
        literal_value(s).wf(),
        literal_value(s).mantissa == (if s.len() > 0 && s[0] == '-' {
            -digits_value(int_digits(s) + frac_digits(s))
        } else {
            digits_value(int_digits(s) + frac_digits(s))
        }),
{
    let d = int_digits(s) + frac_digits(s);
    assert forall|i: int| 0 <= i < d.len() implies is_digit(#[trigger] d[i]) by {
        if i < int_digits(s).len() {
            assert(d[i] == int_digits(s)[i]);
        } else {
            assert(d[i] == frac_digits(s)[i - int_digits(s).len()]);
        }
    }
    lemma_digits_bound(d);
    lemma_pow10_mono(d.len(), 28);
    reveal_with_fuel(pow10, 29);
    assert(pow10(28) == 10000000000000000000000000000int);
}

/// Ten to the power `d`, for `d <= 28`.
fn pow10_exec(d: u32) -> (r: i128)
    requires
        d <= 28,
    ensures
        r == pow10(d as nat),
        1 <= r <= 10000000000000000000000000000,
{
    proof {
        reveal_with_fuel(pow10, 29);
    }
    let mut p: i128 = 1;
    let mut i: u32 = 0;
    while i < d
        invariant
            i <= d <= 28,
            p == pow10(i as nat),
            pow10(28) == 10000000000000000000000000000int,
        decreases d - i,
    {
        proof {
            lemma_pow10_mono((i + 1) as nat, 28);
        }
        p = p * 10;
        i += 1;
    }
    proof {
        lemma_pow10_mono(d as nat, 28);
    }
    p
}

/// `r * 10^e`, none where that is not exact within the bounds of a decimal.
pub fn shift_by_power(r: Rate, e: i64) -> (q: Option<Rate>)
    requires
        r.wf(),
        -1000000000 <= e <= 1000000000,
    ensures
        q == shifted(r, e as int),
        q matches Some(x) ==> x.wf(),
{
    if r.mantissa == 0 {
        Some(Rate { mantissa: 0, scale: 0 })
    } else if e >= 0 {
        if e <= r.scale as i64 {
            Some(Rate { mantissa: r.mantissa, scale: r.scale - e as u32 })
        } else if e - r.scale as i64 > MAX_SCALE as i64 {
            None
        } else {
            let d: u32 = (e - r.scale as i64) as u32;
            let p = pow10_exec(d);
            let am: i128 = if r.mantissa < 0 {
                -r.mantissa
            } else {
                r.mantissa
            };
            let limit: i128 = MAX_MANTISSA / p;
            proof {
                let m = am as int;
                let pp = p as int;
                let l = limit as int;
                assert(l * pp <= MAX_MANTISSA as int && MAX_MANTISSA as int - l * pp < pp) by {
                    vstd::arithmetic::div_mod::lemma_fundamental_div_mod(
                        MAX_MANTISSA as int,
                        pp,
                    );
                    vstd::arithmetic::div_mod::lemma_mod_bound(MAX_MANTISSA as int, pp);
                }
                if m <= l {
                    assert(m * pp <= l * pp) by (nonlinear_arith)
                        requires
                            m <= l,
                            pp >= 1,
                    ;
                } else {
                    assert(m * pp >= (l + 1) * pp) by (nonlinear_arith)
                        requires
                            m >= l + 1,
                            pp >= 1,
                    ;
                    assert((l + 1) * pp == l * pp + pp) by (nonlinear_arith);
                }
            }
            if am <= limit {
                proof {
                    let m = am as int;
                    let pp = p as int;
                    assert(-(m * pp) == (-m) * pp) by (nonlinear_arith);
                }
                Some(Rate { mantissa: r.mantissa * p, scale: 0 })
            } else {
                None
            }
        }
    } else if r.scale as i64 - e <= MAX_SCALE as i64 {
        Some(Rate { mantissa: r.mantissa, scale: (r.scale as i64 - e) as u32 })
    } else {
        None
    }
}

/// Reads a rate from the feed: commas are taken as decimal points, and a
/// plain literal may carry an exponent (`1.5E2` is 150). Anything else, or
/// a value that does not fit a decimal exactly, gives none.
pub fn parse_rate(s: &str) -> (r: Option<Rate>)
    ensures
        r == parsed_rate(s@),
        r matches Some(x) ==> x.wf(),
{
    let t = normalize_decimal_string(s);
    let ts = t.as_str();
    let n = ts.unicode_len();
    let mut k: usize = 0;
    while k < n && ts.get_char(k) != 'E' && ts.get_char(k) != 'e'
        invariant
            k <= n,
            n == ts@.len(),
            forall|j: int| 0 <= j < k ==> ts@[j] != 'E' && ts@[j] != 'e',
        decreases n - k,
    {
        k += 1;
    }
    proof {
        lemma_index_of_any(ts@, 'E', 'e', k as int);
    }
    let mant = ts.substring_char(0, k);
    if !is_plain_literal(mant) {
        return None;
    }
    proof {
        lemma_literal_wf(mant@);
    }
    let lit = match decimal_from_str(mant) {
        Some((m, sc)) => Rate { mantissa: m, scale: sc },
        None => {
            return None;
        },
    };
    if k == n {
        return Some(lit);
    }
    let ex = ts.substring_char(k + 1, n);
    match parse_exponent(ex) {
        Some(e) => {
            proof {
                lemma_literal_wf(mant@);
            }
            shift_by_power(lit, e)
        },
        None => None,
    }
}

} // verus!
