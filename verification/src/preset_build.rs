//! Parsing and sizing of a row-distribution preset configuration.
//!
//! The group specification string has the form
//! `"<percent>:<multiplier>[,<percent>:<multiplier>...]"`.  Percent and
//! multiplier are decimal numbers — an optional leading plus, digits with at
//! most one point, and an optional `e`/`E` exponent with an optional sign.
//! They are held exactly, in hundred-millionths ("units"), so that sizing
//! and the 100-percent tolerance check are exact integer arithmetic.  A
//! number must be an exact whole number of units below ten thousand
//! millions, with a mantissa of fewer than nineteen combined digits;
//! negative values are not part of the grammar.

use vstd::prelude::*;
use vstd::string::StrSliceExecFns;

use crate::row_distribution::group_wf;
use crate::row_distribution::rows_sum_from;
use crate::row_distribution::PartitionGroup;

verus! {

/// One unit, in hundred-millionth units: numbers are held exactly to eight
/// decimal places.
pub const UNIT_SCALE: u64 = 100_000_000;

/// One hundred percent, in units.
pub const HUNDRED_PERCENT_UNITS: u64 = 10_000_000_000;

/// The absolute tolerance, in units, accepted on the percent sum.
pub const PERCENT_TOLERANCE_UNITS: u64 = 1_000_000;

/// The smallest unit value rejected as too large to parse; also the bound on
/// a mantissa's combined digits.
pub const UNIT_LIMIT: u64 = 1_000_000_000_000_000_000;

pub open spec fn spec_is_digit(c: char) -> bool {
    '0' <= c <= '9'
}

pub open spec fn spec_digit_val(c: char) -> int {
    c as int - '0' as int
}

pub open spec fn spec_all_digits(s: Seq<char>) -> bool {
    forall|i: int| 0 <= i < s.len() ==> spec_is_digit(#[trigger] s[i])
}

/// The value of a digit string, most significant digit first.
pub open spec fn spec_digits_val(s: Seq<char>) -> int
    decreases s.len(),
{
    if s.len() == 0 {
        0
    } else {
        spec_digits_val(s.drop_last()) * 10 + spec_digit_val(s.last())
    }
}

/// The position of the first occurrence of `sep`, or the length if absent.
pub open spec fn spec_find(s: Seq<char>, sep: char) -> int
    decreases s.len(),
{
    if s.len() == 0 {
        0
    } else if s[0] == sep {
        0
    } else {
        1 + spec_find(s.skip(1), sep)
    }
}

pub proof fn lemma_find_props(s: Seq<char>, sep: char)
    ensures
        0 <= spec_find(s, sep) <= s.len(),
        spec_find(s, sep) < s.len() ==> s[spec_find(s, sep)] == sep,
        forall|i: int| 0 <= i < spec_find(s, sep) ==> s[i] != sep,
    decreases s.len(),
{
    if s.len() != 0 && s[0] != sep {
        lemma_find_props(s.skip(1), sep);
        assert forall|i: int| 0 <= i < spec_find(s, sep) implies s[i] != sep by {
            if i > 0 {
                assert(s.skip(1)[i - 1] == s[i]);
            }
        }
        if spec_find(s, sep) < s.len() {
            assert(s.skip(1)[spec_find(s, sep) - 1] == s[spec_find(s, sep)]);
        }
    }
}

/// The position of the first exponent marker `e`/`E`, or the length.
pub open spec fn spec_find_exp(s: Seq<char>) -> int
    decreases s.len(),
{
    if s.len() == 0 {
        0
    } else if s[0] == 'e' || s[0] == 'E' {
        0
    } else {
        1 + spec_find_exp(s.skip(1))
    }
}

pub proof fn lemma_find_exp_props(s: Seq<char>)
    ensures
        0 <= spec_find_exp(s) <= s.len(),
        spec_find_exp(s) < s.len() ==> s[spec_find_exp(s)] == 'e' || s[spec_find_exp(s)] == 'E',
        forall|i: int| 0 <= i < spec_find_exp(s) ==> s[i] != 'e' && s[i] != 'E',
    decreases s.len(),
{
    if s.len() != 0 && s[0] != 'e' && s[0] != 'E' {
        lemma_find_exp_props(s.skip(1));
        assert forall|i: int| 0 <= i < spec_find_exp(s) implies s[i] != 'e' && s[i] != 'E' by {
            if i > 0 {
                assert(s.skip(1)[i - 1] == s[i]);
            }
        }
        if spec_find_exp(s) < s.len() {
            assert(s.skip(1)[spec_find_exp(s) - 1] == s[spec_find_exp(s)]);
        }
    }
}

/// A decimal mantissa `digits [ '.' digits ]` with at least one digit: the
/// value of all its digits run together, and the number of fraction digits.
pub open spec fn spec_mantissa(s: Seq<char>) -> Option<(int, int)> {
    let d = spec_find(s, '.');
    let ip = s.take(d);
    let fp = s.skip(d + 1);
    if s.len() == 0 {
        None
    } else if d == s.len() {
        if !spec_all_digits(s) {
            None
        } else {
            Some((spec_digits_val(s), 0))
        }
    } else if ip.len() + fp.len() == 0 {
        None
    } else if !spec_all_digits(ip) || !spec_all_digits(fp) {
        None
    } else {
        Some(
            (
                spec_digits_val(ip) * vstd::arithmetic::power::pow(10, fp.len()) + spec_digits_val(
                    fp,
                ),
                fp.len() as int,
            ),
        )
    }
}

/// An exponent: an optional sign and at least one digit.
pub open spec fn spec_exponent(s: Seq<char>) -> Option<int> {
    let digits = if s.len() >= 1 && (s[0] == '+' || s[0] == '-') {
        s.skip(1)
    } else {
        s
    };
    if digits.len() == 0 {
        None
    } else if !spec_all_digits(digits) {
        None
    } else if s.len() >= 1 && s[0] == '-' {
        Some(-spec_digits_val(digits))
    } else {
        Some(spec_digits_val(digits))
    }
}

/// The exact unit value of a decimal number string, if it is one: an
/// optional leading plus, a mantissa, an optional exponent.  The mantissa's
/// combined digits must stay below [`UNIT_LIMIT`], and after the exponent is
/// applied the value must be an exact whole number of eighth-decimal units
/// below [`UNIT_LIMIT`].
pub open spec fn spec_parse_units(s: Seq<char>) -> Option<u64> {
    let body = if s.len() >= 1 && s[0] == '+' {
        s.skip(1)
    } else {
        s
    };
    let ep = spec_find_exp(body);
    let mant = body.take(ep);
    match spec_mantissa(mant) {
        None => None,
        Some((d, f)) => {
            let e = if ep >= body.len() {
                Some(0int)
            } else {
                spec_exponent(body.skip(ep + 1))
            };
            match e {
                None => None,
                Some(ev) => {
                    if d == 0 {
                        Some(0u64)
                    } else if d >= UNIT_LIMIT {
                        None
                    } else {
                        let shift = 8 - f + ev;
                        if shift >= 0 {
                            let v = d * vstd::arithmetic::power::pow(10, shift as nat);
                            if v >= UNIT_LIMIT {
                                None
                            } else {
                                Some(v as u64)
                            }
                        } else {
                            let k = (-shift) as nat;
                            if d % vstd::arithmetic::power::pow(10, k) != 0 {
                                None
                            } else {
                                Some((d / vstd::arithmetic::power::pow(10, k)) as u64)
                            }
                        }
                    }
                },
            }
        },
    }
}

/// The small powers of ten, by unfolding.
pub proof fn lemma_pow10_vals()
    ensures
        vstd::arithmetic::power::pow(10, 0) == 1,
        vstd::arithmetic::power::pow(10, 1) == 10,
        vstd::arithmetic::power::pow(10, 2) == 100,
        vstd::arithmetic::power::pow(10, 3) == 1_000,
        vstd::arithmetic::power::pow(10, 4) == 10_000,
        vstd::arithmetic::power::pow(10, 5) == 100_000,
        vstd::arithmetic::power::pow(10, 6) == 1_000_000,
        vstd::arithmetic::power::pow(10, 7) == 10_000_000,
        vstd::arithmetic::power::pow(10, 8) == 100_000_000,
        vstd::arithmetic::power::pow(10, 9) == 1_000_000_000,
        vstd::arithmetic::power::pow(10, 10) == 10_000_000_000,
        vstd::arithmetic::power::pow(10, 11) == 100_000_000_000,
        vstd::arithmetic::power::pow(10, 12) == 1_000_000_000_000,
        vstd::arithmetic::power::pow(10, 13) == 10_000_000_000_000,
        vstd::arithmetic::power::pow(10, 14) == 100_000_000_000_000,
        vstd::arithmetic::power::pow(10, 15) == 1_000_000_000_000_000,
        vstd::arithmetic::power::pow(10, 16) == 10_000_000_000_000_000,
        vstd::arithmetic::power::pow(10, 17) == 100_000_000_000_000_000,
        vstd::arithmetic::power::pow(10, 18) == 1_000_000_000_000_000_000,
        vstd::arithmetic::power::pow(10, 19) == 10_000_000_000_000_000_000,
{
    reveal_with_fuel(vstd::arithmetic::power::pow, 21);
}

/// A digit string's value never falls when more digits are appended.
pub proof fn lemma_digits_val_prefix_le(s: Seq<char>, j: int)
    requires
        spec_all_digits(s),
        0 <= j <= s.len(),
    ensures
        spec_digits_val(s.take(j)) <= spec_digits_val(s),
    decreases s.len() - j,
{
    assert(spec_all_digits(s.take(j))) by {
        assert(forall|i: int| 0 <= i < j ==> #[trigger] s.take(j)[i] == s[i]);
    }
    if j == s.len() {
        assert(s.take(j) =~= s);
    } else {
        lemma_digits_val_prefix_le(s, j + 1);
        assert(s.take(j + 1).drop_last() =~= s.take(j));
        assert(s.take(j + 1).last() == s[j]);
        lemma_digits_val_bound(s.take(j));
        assert(0 <= spec_digit_val(s[j]) <= 9);
        assert(spec_digits_val(s.take(j)) * 10 >= spec_digits_val(s.take(j))) by (nonlinear_arith)
            requires
                spec_digits_val(s.take(j)) >= 0,
        ;
    }
}

/// Digit strings are non-negative and bounded by ten to their length.
pub proof fn lemma_digits_val_bound(s: Seq<char>)
    requires
        spec_all_digits(s),
    ensures
        0 <= spec_digits_val(s) < vstd::arithmetic::power::pow(10, s.len()),
    decreases s.len(),
{
    vstd::arithmetic::power::lemma_pow_positive(10, s.len());
    if s.len() > 0 {
        assert(spec_all_digits(s.drop_last())) by {
            assert(forall|i: int|
                0 <= i < s.len() - 1 ==> #[trigger] s.drop_last()[i] == s[i]);
        }
        lemma_digits_val_bound(s.drop_last());
        assert(vstd::arithmetic::power::pow(10, s.len()) == 10 * vstd::arithmetic::power::pow(
            10,
            (s.len() - 1) as nat,
        )) by {
            reveal_with_fuel(vstd::arithmetic::power::pow, 2);
            vstd::arithmetic::power::lemma_pow_adds(10, 1, (s.len() - 1) as nat);
        }
        assert(0 <= spec_digit_val(s.last()) <= 9);
    }
}

/// The characters of a string, in order.
pub(crate) fn chars_of(s: &str) -> (r: Vec<char>)
    ensures
        r@ == s@,
{
    let n = s.unicode_len();
    let mut v: Vec<char> = Vec::new();
    let mut i: usize = 0;
    while i < n
        invariant
            n == s@.len(),
            i <= n,
            v@ == s@.take(i as int),
        decreases n - i,
    {
        let c = s.get_char(i);
        v.push(c);
        proof {
            assert(v@ =~= s@.take(i + 1));
        }
        i = i + 1;
    }
    proof {
        assert(v@ =~= s@);
    }
    v
}

fn is_digit(c: char) -> (r: bool)
    ensures
        r == spec_is_digit(c),
{
    '0' <= c && c <= '9'
}

fn digit_val(c: char) -> (r: u64)
    requires
        spec_is_digit(c),
    ensures
        r == spec_digit_val(c),
{
    (c as u32 - '0' as u32) as u64
}

/// Finds the first occurrence of `sep` in `s` at or after `from`.
fn find_from(s: &Vec<char>, from: usize, sep: char) -> (r: usize)
    requires
        from <= s@.len(),
    ensures
        from + spec_find(s@.skip(from as int), sep) == r,
        from <= r <= s@.len(),
        r < s@.len() ==> s@[r as int] == sep,
        forall|i: int| from <= i < r ==> s@[i] != sep,
{
    let n = s.len();
    let mut d = from;
    while d < n && s[d] != sep
        invariant
            from <= d <= n,
            n == s@.len(),
            forall|i: int| from <= i < d ==> s@[i] != sep,
        decreases n - d,
    {
        d = d + 1;
    }
    proof {
        let sub = s@.skip(from as int);
        lemma_find_props(sub, sep);
        let f = spec_find(sub, sep);
        assert(forall|i: int| 0 <= i < sub.len() ==> sub[i] == s@[from + i]);
        if f < d - from {
            assert(sub[f] == sep);
            assert(s@[from + f] != sep);
            assert(false);
        }
        if d - from < f {
            assert(d < n && s@[d as int] == sep);
            assert(sub[d - from] != sep);
            assert(false);
        }
    }
    d
}

/// A copy of `s[from..to]`.
fn sub_chars(s: &Vec<char>, from: usize, to: usize) -> (r: Vec<char>)
    requires
        from <= to <= s@.len(),
    ensures
        r@ == s@.subrange(from as int, to as int),
{
    let mut v: Vec<char> = Vec::new();
    let mut i = from;
    while i < to
        invariant
            from <= i <= to <= s@.len(),
            v@ == s@.subrange(from as int, i as int),
        decreases to - i,
    {
        v.push(s[i]);
        proof {
            assert(v@ =~= s@.subrange(from as int, i + 1));
        }
        i = i + 1;
    }
    v
}

/// The power of ten for a small exponent.
fn pow10(k: u64) -> (r: u64)
    requires
        k <= 19,
    ensures
        r == vstd::arithmetic::power::pow(10, k as nat),
{
    proof {
        lemma_pow10_vals();
    }
    if k == 0 {
        1
    } else if k == 1 {
        10
    } else if k == 2 {
        100
    } else if k == 3 {
        1_000
    } else if k == 4 {
        10_000
    } else if k == 5 {
        100_000
    } else if k == 6 {
        1_000_000
    } else if k == 7 {
        10_000_000
    } else if k == 8 {
        100_000_000
    } else if k == 9 {
        1_000_000_000
    } else if k == 10 {
        10_000_000_000
    } else if k == 11 {
        100_000_000_000
    } else if k == 12 {
        1_000_000_000_000
    } else if k == 13 {
        10_000_000_000_000
    } else if k == 14 {
        100_000_000_000_000
    } else if k == 15 {
        1_000_000_000_000_000
    } else if k == 16 {
        10_000_000_000_000_000
    } else if k == 17 {
        100_000_000_000_000_000
    } else if k == 18 {
        1_000_000_000_000_000_000
    } else {
        10_000_000_000_000_000_000
    }
}

/// The position of the first exponent marker at or after `start`.
fn find_exp_marker(p: &Vec<char>, start: usize) -> (r: usize)
    requires
        start <= p@.len(),
    ensures
        start <= r <= p@.len(),
        r - start == spec_find_exp(p@.skip(start as int)),
{
    let ghost body = p@.skip(start as int);
    let n = p.len();
    let mut ea: usize = start;
    while ea < n && p[ea] != 'e' && p[ea] != 'E'
        invariant
            start <= ea <= n,
            n == p@.len(),
            forall|i: int| start <= i < ea ==> p@[i] != 'e' && p@[i] != 'E',
        decreases n - ea,
    {
        ea = ea + 1;
    }
    proof {
        lemma_find_exp_props(body);
        let f0 = spec_find_exp(body);
        assert(forall|i: int| 0 <= i < body.len() ==> body[i] == p@[start + i]);
        if f0 < ea - start {
            assert(body[f0] == 'e' || body[f0] == 'E');
            assert(p@[start + f0] != 'e' && p@[start + f0] != 'E');
            assert(false);
        }
        if ea - start < f0 {
            assert(ea < n);
            assert(body[ea - start] != 'e' && body[ea - start] != 'E');
            assert(false);
        }
    }
    ea
}

/// The position of the first point between `start` and `ea`.
fn find_point(p: &Vec<char>, start: usize, ea: usize) -> (r: usize)
    requires
        start <= ea <= p@.len(),
    ensures
        start <= r <= ea,
        r - start == spec_find(p@.skip(start as int).take(ea - start), '.'),
{
    let ghost mant = p@.skip(start as int).take(ea - start);
    let mut da: usize = start;
    while da < ea && p[da] != '.'
        invariant
            start <= da <= ea <= p@.len(),
            forall|i: int| start <= i < da ==> p@[i] != '.',
        decreases ea - da,
    {
        da = da + 1;
    }
    proof {
        lemma_find_props(mant, '.');
        let f0 = spec_find(mant, '.');
        assert(forall|i: int| 0 <= i < mant.len() ==> mant[i] == p@[start + i]);
        if f0 < da - start {
            assert(mant[f0] == '.');
            assert(p@[start + f0] != '.');
            assert(false);
        }
        if da - start < f0 {
            assert(da < ea);
            assert(mant[da - start] != '.');
            assert(p@[da as int] == '.');
            assert(false);
        }
    }
    da
}

/// Parses the mantissa `p[start..ea)` around the point at `da`: its
/// combined digit value, below [`UNIT_LIMIT`].  `None` for a malformed
/// mantissa, and for one whose digits reach the limit.
fn parse_mantissa(p: &Vec<char>, start: usize, da: usize, ea: usize) -> (r: Option<u64>)
    requires
        start <= da <= ea <= p@.len(),
        da == start + spec_find(p@.skip(start as int).take(ea - start), '.'),
    ensures
        ({
            let mant = p@.skip(start as int).take(ea - start);
            let flen: int = if da < ea {
                ea - da - 1
            } else {
                0
            };
            &&& (r matches Some(v) ==> spec_mantissa(mant) == Some((v as int, flen)) && v
                < UNIT_LIMIT)
            &&& (r is None ==> (spec_mantissa(mant) is None || (spec_mantissa(mant) is Some
                && spec_mantissa(mant).unwrap().0 >= UNIT_LIMIT)))
        }),
{
    let ghost mant = p@.skip(start as int).take(ea - start);
    let ghost ip = mant.take(da - start);
    let ghost fp = mant.skip(da - start + 1);
    proof {
        assert(forall|i: int| 0 <= i < mant.len() ==> mant[i] == p@[start + i]);
        assert(forall|i: int| 0 <= i < ip.len() ==> ip[i] == p@[start + i]);
        if da < ea {
            assert(forall|i: int| 0 <= i < fp.len() ==> fp[i] == p@[da + 1 + i]);
        }
    }
    if ea == start {
        return None;
    }
    if da < ea && da == start && ea == da + 1 {
        // a lone point
        return None;
    }
    let mut mval: u64 = 0;
    let mut i: usize = start;
    proof {
        assert(ip.take(0) =~= Seq::<char>::empty());
    }
    while i < da
        invariant
            start <= i <= da <= ea <= p@.len(),
            da == start + spec_find(mant, '.'),
            mant == p@.skip(start as int).take(ea - start),
            ip == mant.take(da - start),
            fp == mant.skip(da - start + 1),
            forall|j: int| 0 <= j < i - start ==> spec_is_digit(#[trigger] ip[j]),
            mval == spec_digits_val(ip.take(i - start)),
            mval < UNIT_LIMIT,
        decreases da - i,
    {
        let c = p[i];
        proof {
            assert(ip[i - start] == p@[i as int]);
        }
        if !is_digit(c) {
            proof {
                assert(!spec_all_digits(ip));
                if da == ea {
                    assert(ip =~= mant);
                }
                assert(spec_mantissa(mant) is None);
            }
            return None;
        }
        let dv = digit_val(c);
        proof {
            assert(ip.take(i - start + 1).drop_last() =~= ip.take(i - start));
            assert(ip.take(i - start + 1).last() == ip[i - start]);
        }
        let next = mval * 10 + dv;
        if next >= UNIT_LIMIT {
            proof {
                assert(spec_all_digits(ip.take(i - start + 1)));
                lemma_mantissa_at_least(mant, ip, fp, da - start, next as int);
            }
            return None;
        }
        mval = next;
        i = i + 1;
    }
    proof {
        assert(ip.take(da - start) =~= ip);
        assert(spec_all_digits(ip));
    }
    if da < ea {
        let f_len = ea - da - 1;
        let mut j: usize = 0;
        proof {
            assert(fp.take(0) =~= Seq::<char>::empty());
            lemma_pow10_vals();
        }
        while j < f_len
            invariant
                0 <= j <= f_len,
                f_len == ea - da - 1,
                start <= da < ea <= p@.len(),
                da == start + spec_find(mant, '.'),
                mant == p@.skip(start as int).take(ea - start),
                ip == mant.take(da - start),
                fp == mant.skip(da - start + 1),
                spec_all_digits(ip),
                forall|t: int| 0 <= t < j ==> spec_is_digit(#[trigger] fp[t]),
                mval as int == spec_digits_val(ip) * vstd::arithmetic::power::pow(10, j as nat)
                    + spec_digits_val(fp.take(j as int)),
                mval < UNIT_LIMIT,
            decreases f_len - j,
        {
            let c = p[da + 1 + j];
            proof {
                assert(fp[j as int] == p@[da + 1 + j]);
            }
            if !is_digit(c) {
                proof {
                    assert(!spec_all_digits(fp));
                    assert(spec_mantissa(mant) is None);
                }
                return None;
            }
            let dv = digit_val(c);
            proof {
                assert(fp.take(j + 1).drop_last() =~= fp.take(j as int));
                assert(fp.take(j + 1).last() == fp[j as int]);
                vstd::arithmetic::power::lemma_pow_adds(10, j as nat, 1);
                lemma_pow10_vals();
                assert(vstd::arithmetic::power::pow(10, (j + 1) as nat)
                    == vstd::arithmetic::power::pow(10, j as nat) * 10);
                assert((spec_digits_val(ip) * vstd::arithmetic::power::pow(10, j as nat)
                    + spec_digits_val(fp.take(j as int))) * 10 + spec_digit_val(fp[j as int])
                    == spec_digits_val(ip) * vstd::arithmetic::power::pow(10, (j + 1) as nat) + (
                spec_digits_val(fp.take(j as int)) * 10 + spec_digit_val(fp[j as int])))
                    by (nonlinear_arith)
                    requires
                        vstd::arithmetic::power::pow(10, (j + 1) as nat)
                            == vstd::arithmetic::power::pow(10, j as nat) * 10,
                ;
            }
            let next = mval * 10 + dv;
            if next >= UNIT_LIMIT {
                proof {
                    assert(spec_digits_val(fp.take(j + 1)) == spec_digits_val(fp.take(j as int))
                        * 10 + spec_digit_val(fp[j as int]));
                    assert(spec_all_digits(fp.take(j + 1)));
                    lemma_mantissa_at_least_frac(mant, ip, fp, da - start, j + 1, next as int);
                }
                return None;
            }
            mval = next;
            j = j + 1;
        }
        proof {
            assert(fp.take(f_len as int) =~= fp);
            assert(spec_all_digits(fp));
            assert(fp.len() == f_len);
            assert(spec_mantissa(mant) == Some((mval as int, f_len as int)));
        }
    } else {
        proof {
            assert(ip =~= mant);
            assert(spec_mantissa(mant) == Some((mval as int, 0int)));
        }
    }
    Some(mval)
}

/// Parses the exponent digits `p[k..)`: their value, saturated at `sat_at`.
/// `None` when there is no digit or a non-digit appears.
fn parse_exp_magnitude(p: &Vec<char>, k: usize, sat_at: u128) -> (r: Option<u128>)
    requires
        1 <= k <= p@.len(),
        sat_at <= 0xffff_ffff_ffff_ffffu128 + 28,
    ensures
        ({
            let expd = p@.skip(k as int);
            &&& (r is None ==> expd.len() == 0 || !spec_all_digits(expd))
            &&& (r matches Some(m) ==> expd.len() >= 1 && spec_all_digits(expd) && m <= sat_at
                && (m < sat_at ==> m == spec_digits_val(expd)) && (m == sat_at
                ==> spec_digits_val(expd) >= sat_at))
        }),
{
    let ghost expd = p@.skip(k as int);
    proof {
        assert(forall|i: int| 0 <= i < expd.len() ==> expd[i] == p@[k + i]);
    }
    let n = p.len();
    if k == n {
        return None;
    }
    let mut emag: u128 = 0;
    let mut t = k;
    proof {
        assert(expd.take(0) =~= Seq::<char>::empty());
    }
    while t < n
        invariant
            k <= t <= n,
            n == p@.len(),
            expd == p@.skip(k as int),
            sat_at <= 0xffff_ffff_ffff_ffffu128 + 28,
            forall|i: int| 0 <= i < t - k ==> spec_is_digit(#[trigger] expd[i]),
            emag <= sat_at,
            emag < sat_at ==> emag == spec_digits_val(expd.take(t - k)),
            emag == sat_at ==> spec_digits_val(expd.take(t - k)) >= sat_at,
        decreases n - t,
    {
        let c = p[t];
        proof {
            assert(expd[t - k] == p@[t as int]);
        }
        if !is_digit(c) {
            proof {
                assert(!spec_all_digits(expd));
            }
            return None;
        }
        let dvv = digit_val(c);
        proof {
            assert(expd.take(t - k + 1).drop_last() =~= expd.take(t - k));
            assert(expd.take(t - k + 1).last() == expd[t - k]);
            if emag == sat_at {
                assert(spec_digits_val(expd.take(t - k + 1)) >= sat_at) by (nonlinear_arith)
                    requires
                        spec_digits_val(expd.take(t - k + 1)) == spec_digits_val(
                            expd.take(t - k),
                        ) * 10 + spec_digit_val(expd[t - k]),
                        spec_digits_val(expd.take(t - k)) >= sat_at,
                        spec_digit_val(expd[t - k]) >= 0,
                        sat_at >= 0,
                ;
            }
        }
        if emag < sat_at {
            proof {
                assert(emag * 10 + 9 < 0x400_0000_0000_0000_0000_0000_0000_0000int)
                    by (nonlinear_arith)
                    requires
                        emag < sat_at,
                        sat_at <= 0xffff_ffff_ffff_ffffu64 + 28,
                ;
            }
            let next = emag * 10 + (dvv as u128);
            if next >= sat_at {
                emag = sat_at;
            } else {
                emag = next;
            }
        }
        t = t + 1;
    }
    proof {
        assert(expd.take(n - k) =~= expd);
        assert(spec_all_digits(expd));
    }
    Some(emag)
}

/// Parses one decimal number into exact units.
#[verifier::rlimit(100)]
pub(crate) fn parse_units(p: &Vec<char>) -> (r: Option<u64>)
    ensures
        r == spec_parse_units(p@),
{
    let n = p.len();
    if n == 0 {
        return None;
    }
    let start: usize = if p[0] == '+' {
        1
    } else {
        0
    };
    let ghost body = p@.skip(start as int);
    proof {
        if start == 0 {
            assert(body =~= p@);
        }
        assert(body == (if p@.len() >= 1 && p@[0] == '+' {
            p@.skip(1)
        } else {
            p@
        }));
        assert(forall|i: int| 0 <= i < body.len() ==> body[i] == p@[start + i]);
    }
    let ea = find_exp_marker(p, start);
    let ghost ep = ea - start;
    let ghost mant = body.take(ea - start);
    proof {
        assert(mant =~= p@.skip(start as int).take(ea - start));
        assert(forall|i: int| 0 <= i < mant.len() ==> mant[i] == p@[start + i]);
    }
    let da = find_point(p, start, ea);
    let mval = match parse_mantissa(p, start, da, ea) {
        Some(v) => v,
        None => {
            return None;
        },
    };
    let f_len: usize = if da < ea {
        ea - da - 1
    } else {
        0
    };
    proof {
        assert(spec_mantissa(mant) == Some((mval as int, f_len as int)));
    }
    // the exponent, if a marker is present
    let ghost espec: Option<int> = if ep >= body.len() {
        Some(0int)
    } else {
        spec_exponent(body.skip(ep + 1))
    };
    let mut neg = false;
    let sat_at: u128 = f_len as u128 + 28;
    let mut emag: u128 = 0;
    if ea < n {
        let ghost etail = body.skip(ep + 1);
        proof {
            assert(etail =~= p@.skip(ea + 1));
            assert(forall|i: int| 0 <= i < etail.len() ==> etail[i] == p@[ea + 1 + i]);
        }
        let mut k = ea + 1;
        if k < n && (p[k] == '+' || p[k] == '-') {
            if p[k] == '-' {
                neg = true;
            }
            k = k + 1;
        }
        let ghost expd = if etail.len() >= 1 && (etail[0] == '+' || etail[0] == '-') {
            etail.skip(1)
        } else {
            etail
        };
        proof {
            assert(expd =~= p@.skip(k as int));
            assert(neg <==> (etail.len() >= 1 && etail[0] == '-'));
        }
        if k > n {
            proof {
                assert(false);
            }
        }
        emag = match parse_exp_magnitude(p, k, sat_at) {
            Some(m) => m,
            None => {
                proof {
                    assert(spec_exponent(etail) is None);
                }
                return None;
            },
        };
        proof {
            lemma_digits_val_bound(expd);
            if neg {
                assert(spec_exponent(etail) == Some(-spec_digits_val(expd)));
            } else {
                assert(spec_exponent(etail) == Some(spec_digits_val(expd)));
            }
        }
    }
    // the exponent's magnitude is now exact below `sat_at`, else saturated
    let ghost ev = espec.unwrap();
    proof {
        assert(espec is Some);
        if neg {
            assert(emag < sat_at ==> ev == -(emag as int));
            assert(emag == sat_at ==> ev <= -(sat_at as int));
        } else {
            assert(emag < sat_at ==> ev == emag as int);
            assert(emag == sat_at ==> ev >= sat_at as int);
        }
    }
    if mval == 0 {
        return Some(0);
    }
    let r = apply_exponent(mval, f_len, neg, emag, Ghost(ev));
    proof {
        assert(r == spec_parse_units(p@));
    }
    r
}

/// Applies the signed exponent `ev` — held as a magnitude `emag`, exact
/// below `f_len + 28` and saturated there — to a parsed mantissa, shifting
/// its decimal point to whole units.
fn apply_exponent(mval: u64, f_len: usize, neg: bool, emag: u128, Ghost(ev): Ghost<int>) -> (r:
    Option<u64>)
    requires
        1 <= mval < UNIT_LIMIT,
        emag <= f_len as u128 + 28,
        !neg ==> ev >= 0,
        neg ==> ev <= 0,
        (!neg && emag < f_len as u128 + 28) ==> ev == emag as int,
        (!neg && emag == f_len as u128 + 28) ==> ev >= emag as int,
        (neg && emag < f_len as u128 + 28) ==> ev == -(emag as int),
        (neg && emag == f_len as u128 + 28) ==> ev <= -(emag as int),
    ensures
        r == ({
            let shift = 8 - f_len as int + ev;
            if shift >= 0 {
                let v = (mval as int) * vstd::arithmetic::power::pow(10, shift as nat);
                if v >= UNIT_LIMIT {
                    None
                } else {
                    Some(v as u64)
                }
            } else {
                let k = (-shift) as nat;
                if (mval as int) % vstd::arithmetic::power::pow(10, k) != 0 {
                    None
                } else {
                    Some(((mval as int) / vstd::arithmetic::power::pow(10, k)) as u64)
                }
            }
        }),
{
    let sat_at: u128 = f_len as u128 + 28;
    proof {
        lemma_pow10_vals();
    }
    let flen_wide: u128 = f_len as u128;
    let div_dir: bool;
    let amt: u128;
    if !neg {
        if emag >= sat_at {
            proof {
                let sh = (8 - f_len as int + ev) as nat;
                assert(8 - f_len as int + ev >= 19);
                vstd::arithmetic::power::lemma_pow_increases(10, 19, sh);
                assert(mval * vstd::arithmetic::power::pow(10, sh) >= vstd::arithmetic::power::pow(
                    10,
                    sh,
                )) by (nonlinear_arith)
                    requires
                        mval >= 1,
                        vstd::arithmetic::power::pow(10, sh) >= 0,
                ;
            }
            return None;
        }
        if emag + 8 >= flen_wide {
            div_dir = false;
            amt = emag + 8 - flen_wide;
        } else {
            div_dir = true;
            amt = flen_wide - emag - 8;
        }
    } else {
        if emag >= sat_at {
            proof {
                let kk = (f_len as int - 8 - ev) as nat;
                assert(f_len as int - 8 - ev >= 20);
                vstd::arithmetic::power::lemma_pow_increases(10, 19, kk);
                vstd::arithmetic::div_mod::lemma_small_mod(
                    mval as nat,
                    vstd::arithmetic::power::pow(10, kk) as nat,
                );
            }
            return None;
        }
        if flen_wide + emag <= 8 {
            div_dir = false;
            amt = 8 - flen_wide - emag;
        } else {
            div_dir = true;
            amt = flen_wide + emag - 8;
        }
    }
    proof {
        if div_dir {
            assert(amt as int == -(8 - f_len as int + ev));
            assert(8 - f_len as int + ev < 0);
        } else {
            assert(amt as int == 8 - f_len as int + ev);
        }
    }
    if div_dir {
        if amt > 18 {
            proof {
                vstd::arithmetic::power::lemma_pow_increases(10, 19, amt as nat);
                vstd::arithmetic::div_mod::lemma_small_mod(
                    mval as nat,
                    vstd::arithmetic::power::pow(10, amt as nat) as nat,
                );
            }
            return None;
        }
        let pw = pow10(amt as u64);
        if mval % pw != 0 {
            return None;
        }
        let v = mval / pw;
        proof {
            vstd::arithmetic::div_mod::lemma_div_is_ordered_by_denominator(
                mval as int,
                1,
                pw as int,
            );
            assert(v < UNIT_LIMIT);
        }
        return Some(v);
    } else {
        if amt > 18 {
            proof {
                vstd::arithmetic::power::lemma_pow_increases(10, 19, amt as nat);
                assert(mval * vstd::arithmetic::power::pow(10, amt as nat)
                    >= vstd::arithmetic::power::pow(10, amt as nat)) by (nonlinear_arith)
                    requires
                        mval >= 1,
                        vstd::arithmetic::power::pow(10, amt as nat) >= 0,
                ;
            }
            return None;
        }
        let pw = pow10(amt as u64);
        proof {
            assert((mval as int) * (pw as int) < 10_000_000_000_000_000_000_000_000_000_000_000_000int)
                by (nonlinear_arith)
                requires
                    mval < 1_000_000_000_000_000_000u64,
                    pw <= 10_000_000_000_000_000_000u64,
            ;
        }
        let v128 = (mval as u128) * (pw as u128);
        if v128 >= UNIT_LIMIT as u128 {
            return None;
        }
        return Some(v128 as u64);
    }
}

/// When an integer-part prefix already reaches `bound`, the whole mantissa
/// value does too, or the mantissa is malformed.
proof fn lemma_mantissa_at_least(
    mant: Seq<char>,
    ip: Seq<char>,
    fp: Seq<char>,
    d: int,
    bound: int,
)
    requires
        0 <= d <= mant.len(),
        d == spec_find(mant, '.'),
        ip == mant.take(d),
        fp == mant.skip(d + 1),
        exists|j: int|
            0 <= j <= ip.len() && spec_all_digits(#[trigger] ip.take(j)) && spec_digits_val(
                ip.take(j),
            ) >= bound,
    ensures
        spec_mantissa(mant) matches Some(m) ==> m.0 >= bound,
{
    if spec_mantissa(mant) is Some {
        let j = choose|j: int|
            0 <= j <= ip.len() && spec_all_digits(#[trigger] ip.take(j)) && spec_digits_val(
                ip.take(j),
            ) >= bound;
        if d == mant.len() {
            assert(ip =~= mant);
            assert(spec_all_digits(mant));
            lemma_digits_val_prefix_le(mant, j);
        } else {
            assert(spec_all_digits(ip) && spec_all_digits(fp));
            lemma_digits_val_prefix_le(ip, j);
            lemma_digits_val_bound(fp);
            lemma_digits_val_bound(ip);
            vstd::arithmetic::power::lemma_pow_positive(10, fp.len());
            assert(spec_digits_val(ip) * vstd::arithmetic::power::pow(10, fp.len())
                + spec_digits_val(fp) >= spec_digits_val(ip)) by (nonlinear_arith)
                requires
                    spec_digits_val(ip) >= 0,
                    spec_digits_val(fp) >= 0,
                    vstd::arithmetic::power::pow(10, fp.len()) >= 1,
            ;
        }
    }
}

/// When a fraction-digit prefix already lifts the running value to `bound`,
/// the whole mantissa value reaches it too, or the mantissa is malformed.
proof fn lemma_mantissa_at_least_frac(
    mant: Seq<char>,
    ip: Seq<char>,
    fp: Seq<char>,
    d: int,
    j: int,
    bound: int,
)
    requires
        0 <= d < mant.len(),
        d == spec_find(mant, '.'),
        ip == mant.take(d),
        fp == mant.skip(d + 1),
        spec_all_digits(ip),
        0 <= j <= fp.len(),
        spec_all_digits(fp.take(j)),
        spec_digits_val(ip) * vstd::arithmetic::power::pow(10, j as nat) + spec_digits_val(
            fp.take(j),
        ) >= bound,
    ensures
        spec_mantissa(mant) matches Some(m) ==> m.0 >= bound,
{
    if spec_mantissa(mant) is Some {
        assert(spec_all_digits(fp));
        lemma_digits_val_prefix_le(fp, j);
        lemma_digits_val_bound(ip);
        vstd::arithmetic::power::lemma_pow_increases(10, j as nat, fp.len());
        assert(spec_digits_val(ip) * vstd::arithmetic::power::pow(10, fp.len())
            + spec_digits_val(fp) >= spec_digits_val(ip) * vstd::arithmetic::power::pow(
            10,
            j as nat,
        ) + spec_digits_val(fp.take(j))) by (nonlinear_arith)
            requires
                spec_digits_val(ip) >= 0,
                vstd::arithmetic::power::pow(10, fp.len()) >= vstd::arithmetic::power::pow(
                    10,
                    j as nat,
                ),
                spec_digits_val(fp) >= spec_digits_val(fp.take(j)),
        ;
    }
}

/// `s` with every space removed.
pub open spec fn spec_remove_spaces(s: Seq<char>) -> Seq<char>
    decreases s.len(),
{
    if s.len() == 0 {
        Seq::empty()
    } else if s.last() == ' ' {
        spec_remove_spaces(s.drop_last())
    } else {
        spec_remove_spaces(s.drop_last()).push(s.last())
    }
}

/// One `percent:multiplier` pair, both sides in exact units: exactly one
/// colon, a number on each side.
pub open spec fn spec_parse_pair(p: Seq<char>) -> Option<(u64, u64)> {
    let d = spec_find(p, ':');
    if d < 0 || d >= p.len() {
        None
    } else if spec_find(p.skip(d + 1), ':') != p.skip(d + 1).len() {
        None
    } else {
        match (spec_parse_units(p.take(d)), spec_parse_units(p.skip(d + 1))) {
            (Some(a), Some(b)) => Some((a, b)),
            _ => None,
        }
    }
}

/// Scans the comma-separated pairs of `s` left to right, whitespace-stripped
/// and parsed; stops at the first malformed pair (`false`) or at the first
/// pair equal to an earlier one (`true`), reporting its position.
pub open spec fn spec_scan_str(s: Seq<char>, pos: int, acc: Seq<(u64, u64)>) -> Result<
    Seq<(u64, u64)>,
    (int, bool),
>
    decreases s.len(),
{
    let d = spec_find(s, ',');
    if d < 0 || d >= s.len() {
        match spec_parse_pair(spec_remove_spaces(s)) {
            None => Err((pos, false)),
            Some(p) => if acc.contains(p) {
                Err((pos, true))
            } else {
                Ok(acc.push(p))
            },
        }
    } else {
        match spec_parse_pair(spec_remove_spaces(s.take(d))) {
            None => Err((pos, false)),
            Some(p) => if acc.contains(p) {
                Err((pos, true))
            } else {
                spec_scan_str(s.skip(d + 1), pos + 1, acc.push(p))
            },
        }
    }
}

/// The parsed pair list of a whole group-specification string.
pub open spec fn spec_parse_groups(s: Seq<char>) -> Result<Seq<(u64, u64)>, (int, bool)> {
    spec_scan_str(s, 0, Seq::empty())
}

/// The sum of all percents, in units.
pub open spec fn spec_percent_sum(ps: Seq<(u64, u64)>) -> int
    decreases ps.len(),
{
    if ps.len() == 0 {
        0
    } else {
        spec_percent_sum(ps.drop_last()) + ps.last().0
    }
}

/// Whether the percents sum to one hundred within the accepted tolerance.
pub open spec fn spec_percent_sum_ok(ps: Seq<(u64, u64)>) -> bool {
    HUNDRED_PERCENT_UNITS - PERCENT_TOLERANCE_UNITS <= spec_percent_sum(ps)
        <= HUNDRED_PERCENT_UNITS + PERCENT_TOLERANCE_UNITS
}

/// A copy of `s[from..to]` with spaces removed.
fn strip_spaces(s: &Vec<char>, from: usize, to: usize) -> (r: Vec<char>)
    requires
        from <= to <= s@.len(),
    ensures
        r@ == spec_remove_spaces(s@.subrange(from as int, to as int)),
{
    let mut v: Vec<char> = Vec::new();
    let mut i = from;
    proof {
        assert(s@.subrange(from as int, from as int) =~= Seq::<char>::empty());
    }
    while i < to
        invariant
            from <= i <= to <= s@.len(),
            v@ == spec_remove_spaces(s@.subrange(from as int, i as int)),
        decreases to - i,
    {
        proof {
            assert(s@.subrange(from as int, i + 1).drop_last() =~= s@.subrange(
                from as int,
                i as int,
            ));
            assert(s@.subrange(from as int, i + 1).last() == s@[i as int]);
        }
        if s[i] != ' ' {
            v.push(s[i]);
        }
        i = i + 1;
    }
    v
}

/// Parses one whitespace-stripped `percent:multiplier` pair.
fn parse_pair(p: &Vec<char>) -> (r: Option<(u64, u64)>)
    ensures
        r == spec_parse_pair(p@),
{
    proof {
        assert(p@.skip(0) =~= p@);
    }
    let d = find_from(p, 0, ':');
    if d == p.len() {
        return None;
    }
    let d2 = find_from(p, d + 1, ':');
    if d2 != p.len() {
        return None;
    }
    let a = sub_chars(p, 0, d);
    let b = sub_chars(p, d + 1, p.len());
    proof {
        assert(a@ =~= p@.take(d as int));
        assert(b@ =~= p@.skip(d + 1));
    }
    let av = parse_units(&a);
    let bv = parse_units(&b);
    match (av, bv) {
        (Some(x), Some(y)) => Some((x, y)),
        _ => None,
    }
}

/// Whether `acc` already holds the pair `p`.
fn contains_pair(acc: &Vec<(u64, u64)>, p: (u64, u64)) -> (r: bool)
    ensures
        r == acc@.contains(p),
{
    let n = acc.len();
    let mut i: usize = 0;
    while i < n
        invariant
            i <= n,
            n == acc@.len(),
            forall|j: int| 0 <= j < i ==> acc@[j] != p,
        decreases n - i,
    {
        if acc[i].0 == p.0 && acc[i].1 == p.1 {
            proof {
                assert(acc@[i as int] == p);
            }
            return true;
        }
        i = i + 1;
    }
    proof {
        assert(!acc@.contains(p));
    }
    false
}

/// Splits, strips and parses the whole group string, rejecting the first
/// malformed or duplicate pair.
pub(crate) fn parse_groups(s: &Vec<char>) -> (r: Result<Vec<(u64, u64)>, (usize, bool)>)
    ensures
        ({
            match r {
                Ok(v) => spec_parse_groups(s@) == Ok::<Seq<(u64, u64)>, (int, bool)>(v@),
                Err((i, dup)) => spec_parse_groups(s@) == Err::<Seq<(u64, u64)>, (int, bool)>(
                    (i as int, dup),
                ),
            }
        }),
{
    let acc: Vec<(u64, u64)> = Vec::new();
    let n = s.len();
    proof {
        assert(n == s@.len());
        assert(s@.skip(0) =~= s@);
    }
    parse_groups_rec(s, 0, 0, acc)
}

fn parse_groups_rec(s: &Vec<char>, from: usize, pos: usize, acc: Vec<(u64, u64)>) -> (r: Result<
    Vec<(u64, u64)>,
    (usize, bool),
>)
    requires
        from <= s@.len(),
        pos + s@.len() - from <= usize::MAX,
    ensures
        ({
            match r {
                Ok(v) => spec_scan_str(s@.skip(from as int), pos as int, acc@) == Ok::<
                    Seq<(u64, u64)>,
                    (int, bool),
                >(v@),
                Err((i, dup)) => spec_scan_str(s@.skip(from as int), pos as int, acc@) == Err::<
                    Seq<(u64, u64)>,
                    (int, bool),
                >((i as int, dup)),
            }
        }),
    decreases s@.len() - from,
{
    let ghost sub = s@.skip(from as int);
    let d = find_from(s, from, ',');
    let part = strip_spaces(s, from, d);
    proof {
        if d < s@.len() {
            assert(sub.take(d - from) =~= s@.subrange(from as int, d as int));
        } else {
            assert(sub =~= s@.subrange(from as int, d as int));
        }
    }
    let parsed = parse_pair(&part);
    match parsed {
        None => Err((pos, false)),
        Some(p) => {
            if contains_pair(&acc, p) {
                Err((pos, true))
            } else {
                let mut acc2 = acc;
                acc2.push(p);
                if d == s.len() {
                    Ok(acc2)
                } else {
                    proof {
                        assert(s@.skip(d + 1) =~= sub.skip(d - from + 1));
                    }
                    parse_groups_rec(s, d + 1, pos + 1, acc2)
                }
            }
        },
    }
}

/// The exact sum of all percents, in units.
pub(crate) fn percent_sum_units(ps: &Vec<(u64, u64)>) -> (r: u128)
    ensures
        r == spec_percent_sum(ps@),
{
    let n = ps.len();
    let mut sum: u128 = 0;
    let mut i: usize = 0;
    proof {
        assert(ps@.take(0) =~= Seq::<(u64, u64)>::empty());
    }
    while i < n
        invariant
            i <= n,
            n == ps@.len(),
            sum == spec_percent_sum(ps@.take(i as int)),
            sum <= i * 0xffff_ffff_ffff_ffffu64,
        decreases n - i,
    {
        proof {
            assert(ps@.take(i + 1).drop_last() =~= ps@.take(i as int));
            assert(ps@.take(i + 1).last() == ps@[i as int]);
            assert((i + 1) * 0xffff_ffff_ffff_ffffu64 == i * 0xffff_ffff_ffff_ffffu64
                + 0xffff_ffff_ffff_ffffu64) by (nonlinear_arith);
        }
        sum = sum + ps[i].0 as u128;
        i = i + 1;
    }
    proof {
        assert(ps@.take(n as int) =~= ps@);
    }
    sum
}

/// Checks the percent sum against one hundred with the accepted tolerance.
pub(crate) fn check_percent_sum(ps: &Vec<(u64, u64)>) -> (r: bool)
    ensures
        r == spec_percent_sum_ok(ps@),
{
    let sum = percent_sum_units(ps);
    if sum >= HUNDRED_PERCENT_UNITS as u128 {
        sum - (HUNDRED_PERCENT_UNITS as u128) <= PERCENT_TOLERANCE_UNITS as u128
    } else {
        (HUNDRED_PERCENT_UNITS as u128) - sum <= PERCENT_TOLERANCE_UNITS as u128
    }
}

/// The eight fraction digits of a unit value, most significant first.
pub open spec fn spec_frac8(f: int) -> Seq<char> {
    Seq::new(
        8,
        |i: int|
            crate::strutil::spec_digit_char(
                (f / vstd::arithmetic::power::pow(10, (7 - i) as nat)) % 10,
            ),
    )
}

/// A unit value rendered as a decimal percent: the whole part, and the eight
/// fraction digits when any are set.
pub open spec fn spec_units_string(v: int) -> Seq<char> {
    if v % (UNIT_SCALE as int) == 0 {
        crate::strutil::spec_u64_string(v / (UNIT_SCALE as int))
    } else {
        crate::strutil::spec_u64_string(v / (UNIT_SCALE as int)) + "."@ + spec_frac8(
            v % (UNIT_SCALE as int),
        )
    }
}

/// Renders a unit value as a decimal percent.
pub(crate) fn units_to_string(v: u128) -> (r: String)
    ensures
        r@ == spec_units_string(v as int),
{
    let whole = v / (UNIT_SCALE as u128);
    let frac = (v % (UNIT_SCALE as u128)) as u64;
    let mut out = crate::strutil::u128_to_string(whole);
    if frac == 0 {
        return out;
    }
    out.append(".");
    proof {
        reveal_strlit(".");
        lemma_pow10_vals();
    }
    let mut i: usize = 0;
    let ghost base_len = out@.len();
    while i < 8
        invariant
            i <= 8,
            frac == v % (UNIT_SCALE as u128),
            frac < UNIT_SCALE,
            out@.len() == base_len + i,
            out@.take(base_len as int) == crate::strutil::spec_u64_string(
                v as int / (UNIT_SCALE as int),
            ) + "."@,
            forall|t: int|
                0 <= t < i ==> out@[base_len + t] == spec_frac8(frac as int)[t],
        decreases 8 - i,
    {
        proof {
            lemma_pow10_vals();
        }
        let e: u64 = 7 - (i as u64);
        let pw = pow10(e);
        let d = (frac / pw) % 10;
        out.append(crate::strutil::digit_str(d));
        i = i + 1;
    }
    proof {
        assert(out@ =~= crate::strutil::spec_u64_string(v as int / (UNIT_SCALE as int)) + "."@
            + spec_frac8((v % (UNIT_SCALE as u128)) as int));
    }
    out
}

/// The scale between unit-valued sizing products and whole rows:
/// unit percent times unit multiplier, over one hundred percent.
pub const SIZING_SCALE: u64 = 1_000_000_000_000_000_000;

/// The rows one partition of a pair holds: the base scaled by the pair's
/// multiplier, rounded down.
pub open spec fn spec_partition_size(base: u64, m: u64) -> int {
    base * m / (UNIT_SCALE as int)
}

/// The sum of the products of each pair.
pub open spec fn spec_prod_sum(ps: Seq<(u64, u64)>) -> int
    decreases ps.len(),
{
    if ps.len() == 0 {
        0
    } else {
        spec_prod_sum(ps.drop_last()) + ps.last().0 * ps.last().1
    }
}

/// The overall partition count: the requested rows divided by the exact
/// notional cycle size `base * spec_prod_sum(pairs) / SIZING_SCALE`.
pub open spec fn spec_partition_count(rc: u64, base: u64, w: int) -> int {
    (rc * SIZING_SCALE / (base as int)) / w
}

/// One pair's share of the overall partition count.
pub open spec fn spec_pair_count(pc: int, percent: u64) -> int {
    pc * percent / (HUNDRED_PERCENT_UNITS as int)
}

/// The per-pair `(partition count, partition size)` table.
pub open spec fn spec_counts_sizes(rc: u64, base: u64, ps: Seq<(u64, u64)>) -> Seq<(u64, u64)> {
    let pc = spec_partition_count(rc, base, spec_prod_sum(ps));
    Seq::new(
        ps.len(),
        |i: int|
            (spec_pair_count(pc, ps[i].0) as u64, spec_partition_size(base, ps[i].1) as u64),
    )
}

/// All quantities of the sizing stage stay within machine bounds and every
/// pair's partition size is at least one row.
pub open spec fn spec_sizing_ok(rc: u64, base: u64, ps: Seq<(u64, u64)>) -> bool {
    &&& forall|i: int|
        0 <= i < ps.len() ==> 1 <= spec_partition_size(base, (#[trigger] ps[i]).1) <= u64::MAX
    &&& spec_prod_sum(ps) <= u128::MAX
    &&& spec_partition_count(rc, base, spec_prod_sum(ps)) <= u64::MAX
    &&& forall|i: int|
        0 <= i < ps.len() ==> spec_pair_count(
            spec_partition_count(rc, base, spec_prod_sum(ps)),
            (#[trigger] ps[i]).0,
        ) <= u64::MAX
    &&& spec_prod_sum(spec_counts_sizes(rc, base, ps)) <= u64::MAX
}

pub proof fn lemma_prod_sum_nonneg(ps: Seq<(u64, u64)>)
    ensures
        spec_prod_sum(ps) >= 0,
    decreases ps.len(),
{
    if ps.len() > 0 {
        lemma_prod_sum_nonneg(ps.drop_last());
        vstd::arithmetic::mul::lemma_mul_nonnegative(ps.last().0 as int, ps.last().1 as int);
    }
}

/// A prefix of the product sum never exceeds the whole.
pub proof fn lemma_prod_sum_prefix_le(ps: Seq<(u64, u64)>, i: int)
    requires
        0 <= i <= ps.len(),
    ensures
        spec_prod_sum(ps.take(i)) <= spec_prod_sum(ps),
    decreases ps.len() - i,
{
    if i == ps.len() {
        assert(ps.take(i) =~= ps);
    } else {
        lemma_prod_sum_prefix_le(ps, i + 1);
        assert(ps.take(i + 1).drop_last() =~= ps.take(i));
        vstd::arithmetic::mul::lemma_mul_nonnegative(
            ps.take(i + 1).last().0 as int,
            ps.take(i + 1).last().1 as int,
        );
    }
}

/// Each percent is bounded by the percent sum.
pub proof fn lemma_percent_le_sum(ps: Seq<(u64, u64)>, i: int)
    requires
        0 <= i < ps.len(),
    ensures
        ps[i].0 <= spec_percent_sum(ps),
    decreases ps.len(),
{
    if i == ps.len() - 1 {
        lemma_percent_sum_nonneg(ps.drop_last());
    } else {
        lemma_percent_le_sum(ps.drop_last(), i);
        assert(ps.drop_last()[i] == ps[i]);
    }
}

pub proof fn lemma_percent_sum_nonneg(ps: Seq<(u64, u64)>)
    ensures
        spec_percent_sum(ps) >= 0,
    decreases ps.len(),
{
    if ps.len() > 0 {
        lemma_percent_sum_nonneg(ps.drop_last());
    }
}

/// With a positive percent sum and every multiplier at least one, the
/// product sum is positive.
pub proof fn lemma_prod_sum_pos(ps: Seq<(u64, u64)>)
    requires
        spec_percent_sum(ps) > 0,
        forall|i: int| 0 <= i < ps.len() ==> (#[trigger] ps[i]).1 >= 1,
    ensures
        spec_prod_sum(ps) >= 1,
    decreases ps.len(),
{
    if ps.len() > 0 {
        let p = ps.last();
        lemma_prod_sum_nonneg(ps.drop_last());
        if p.0 > 0 {
            assert(p.0 * p.1 >= 1) by (nonlinear_arith)
                requires
                    p.0 >= 1,
                    p.1 >= 1,
            ;
        } else {
            assert(spec_percent_sum(ps.drop_last()) > 0);
            assert(forall|i: int|
                0 <= i < ps.drop_last().len() ==> (#[trigger] ps.drop_last()[i]).1 >= 1);
            lemma_prod_sum_pos(ps.drop_last());
            assert(p.0 * p.1 == 0) by (nonlinear_arith)
                requires
                    p.0 == 0,
            ;
        }
    }
}

/// Computes the per-pair partition counts and sizes and the row total they
/// cover, exactly as the sizing model prescribes; fails exactly when a pair's
/// partition size would be zero or a quantity would not fit its machine type.
pub(crate) fn compute_sizing(rc: u64, base: u64, ps: &Vec<(u64, u64)>) -> (r: Result<
    (Vec<(u64, u64)>, u64),
    (),
>)
    requires
        rc >= 1,
        base >= 1,
        spec_percent_sum_ok(ps@),
    ensures
        r is Ok <==> spec_sizing_ok(rc, base, ps@),
        r matches Ok(v) ==> v.0@ == spec_counts_sizes(rc, base, ps@) && v.1
            == spec_prod_sum(v.0@),
{
    let n = ps.len();
    // partition sizes
    let mut sizes: Vec<u64> = Vec::new();
    let mut i: usize = 0;
    while i < n
        invariant
            i <= n,
            n == ps@.len(),
            base >= 1,
            sizes@.len() == i,
            forall|j: int|
                0 <= j < i ==> 1 <= spec_partition_size(base, (#[trigger] ps@[j]).1) <= u64::MAX,
            forall|j: int| 0 <= j < i ==> sizes@[j] == spec_partition_size(base, ps@[j].1),
        decreases n - i,
    {
        let m = ps[i].1;
        proof {
            assert((base as int) * (m as int) <= 0xffff_ffff_ffff_ffffu64
                * 0xffff_ffff_ffff_ffffu64) by (nonlinear_arith)
                requires
                    base <= 0xffff_ffff_ffff_ffffu64,
                    m <= 0xffff_ffff_ffff_ffffu64,
            ;
        }
        let szw: u128 = (base as u128) * (m as u128) / (UNIT_SCALE as u128);
        proof {
            assert(szw == spec_partition_size(base, m));
        }
        if szw < 1 || szw > u64::MAX as u128 {
            return Err(());
        }
        sizes.push(szw as u64);
        i = i + 1;
    }
    // weight of one notional cycle, scaled
    let mut w: u128 = 0;
    let mut i: usize = 0;
    proof {
        assert(ps@.take(0) =~= Seq::<(u64, u64)>::empty());
        lemma_percent_sum_nonneg(ps@);
    }
    while i < n
        invariant
            i <= n,
            n == ps@.len(),
            spec_percent_sum_ok(ps@),
            w == spec_prod_sum(ps@.take(i as int)),
        decreases n - i,
    {
        let p = ps[i].0;
        let m = ps[i].1;
        proof {
            lemma_percent_le_sum(ps@, i as int);
            assert(p <= 10_001_000_000);
            assert((p as int) * (m as int) <= 10_001_000_000i64 * 0xffff_ffff_ffff_ffffu64)
                by (nonlinear_arith)
                requires
                    p <= 10_001_000_000u64,
                    m <= 0xffff_ffff_ffff_ffffu64,
            ;
            assert(ps@.take(i + 1).drop_last() =~= ps@.take(i as int));
            assert(ps@.take(i + 1).last() == ps@[i as int]);
        }
        let term: u128 = (p as u128) * (m as u128);
        if w > u128::MAX - term {
            proof {
                lemma_prod_sum_prefix_le(ps@, i + 1);
            }
            return Err(());
        }
        w = w + term;
        i = i + 1;
    }
    proof {
        assert(ps@.take(n as int) =~= ps@);
    }
    // overall partition count
    proof {
        assert(spec_percent_sum(ps@) > 0);
        assert(forall|j: int| 0 <= j < n ==> (#[trigger] ps@[j]).1 >= 1) by {
            assert forall|j: int| 0 <= j < n implies (#[trigger] ps@[j]).1 >= 1 by {
                assert(1 <= spec_partition_size(base, ps@[j].1));
                if ps@[j].1 == 0 {
                    assert(base * ps@[j].1 == 0) by (nonlinear_arith)
                        requires
                            ps@[j].1 == 0,
                    ;
                }
            }
        }
        lemma_prod_sum_pos(ps@);
        assert((rc as int) * (SIZING_SCALE as int) <= 0xffff_ffff_ffff_ffffu64
            * 1_000_000_000_000_000_000u64) by (nonlinear_arith)
            requires
                rc <= 0xffff_ffff_ffff_ffffu64,
                SIZING_SCALE == 1_000_000_000_000_000_000u64,
        ;
    }
    let num: u128 = (rc as u128) * (SIZING_SCALE as u128);
    let pcw: u128 = (num / (base as u128)) / w;
    proof {
        assert(pcw == spec_partition_count(rc, base, spec_prod_sum(ps@)));
    }
    if pcw > u64::MAX as u128 {
        return Err(());
    }
    let pc: u64 = pcw as u64;
    // per-pair counts
    let mut out: Vec<(u64, u64)> = Vec::new();
    let mut i: usize = 0;
    while i < n
        invariant
            i <= n,
            n == ps@.len() == sizes@.len(),
            spec_percent_sum_ok(ps@),
            pc == spec_partition_count(rc, base, spec_prod_sum(ps@)),
            forall|j: int| 0 <= j < n ==> sizes@[j] == spec_partition_size(base, ps@[j].1),
            out@.len() == i,
            forall|j: int|
                0 <= j < i ==> spec_pair_count(pc as int, (#[trigger] ps@[j]).0) <= u64::MAX,
            forall|j: int|
                0 <= j < i ==> #[trigger] out@[j] == (
                    spec_pair_count(pc as int, ps@[j].0) as u64,
                    spec_partition_size(base, ps@[j].1) as u64,
                ),
        decreases n - i,
    {
        let p = ps[i].0;
        proof {
            lemma_percent_le_sum(ps@, i as int);
            assert((pc as int) * (p as int) <= 0xffff_ffff_ffff_ffffu64 * 10_001_000_000u64)
                by (nonlinear_arith)
                requires
                    pc <= 0xffff_ffff_ffff_ffffu64,
                    p <= 10_001_000_000u64,
            ;
        }
        let cw: u128 = (pc as u128) * (p as u128) / (HUNDRED_PERCENT_UNITS as u128);
        proof {
            assert(cw == spec_pair_count(pc as int, p));
        }
        if cw > u64::MAX as u128 {
            return Err(());
        }
        out.push((cw as u64, sizes[i]));
        i = i + 1;
    }
    proof {
        assert(out@ =~= spec_counts_sizes(rc, base, ps@));
    }
    // rows covered
    let mut actual: u128 = 0;
    let mut i: usize = 0;
    proof {
        assert(out@.take(0) =~= Seq::<(u64, u64)>::empty());
    }
    while i < n
        invariant
            i <= n,
            n == out@.len(),
            out@ == spec_counts_sizes(rc, base, ps@),
            actual == spec_prod_sum(out@.take(i as int)),
            actual <= u64::MAX,
        decreases n - i,
    {
        proof {
            assert(out@.take(i + 1).drop_last() =~= out@.take(i as int));
            assert(out@.take(i + 1).last() == out@[i as int]);
        }
        proof {
            assert((out@[i as int].0 as int) * (out@[i as int].1 as int) <= 0xffff_ffff_ffff_ffffu64
                * 0xffff_ffff_ffff_ffffu64) by (nonlinear_arith)
                requires
                    out@[i as int].0 <= 0xffff_ffff_ffff_ffffu64,
                    out@[i as int].1 <= 0xffff_ffff_ffff_ffffu64,
            ;
        }
        let t: u128 = (out[i].0 as u128) * (out[i].1 as u128);
        proof {
            assert(actual + t < 0x1_0000_0000_0000_0000_0000_0000_0000_0000int) by (nonlinear_arith)
                requires
                    actual <= 0xffff_ffff_ffff_ffffu64,
                    t <= 0xffff_ffff_ffff_ffffu64 * 0xffff_ffff_ffff_ffffu64,
            ;
        }
        let next = actual + t;
        if next > u64::MAX as u128 {
            proof {
                lemma_prod_sum_prefix_le(out@, i + 1);
            }
            return Err(());
        }
        actual = next;
        i = i + 1;
    }
    proof {
        assert(out@.take(n as int) =~= out@);
    }
    Ok((out, actual as u64))
}

/// Strict "comes after" order for `(count, size)` tables: larger counts
/// first, then larger sizes.
pub open spec fn spec_lt_cs(a: (u64, u64), b: (u64, u64)) -> bool {
    a.0 < b.0 || (a.0 == b.0 && a.1 < b.1)
}

/// Inserts `x` into a descending table, after all entries not below it.
pub open spec fn spec_insert_desc(s: Seq<(u64, u64)>, x: (u64, u64)) -> Seq<(u64, u64)>
    decreases s.len(),
{
    if s.len() == 0 {
        seq![x]
    } else if !spec_lt_cs(s.last(), x) {
        s.push(x)
    } else {
        spec_insert_desc(s.drop_last(), x).push(s.last())
    }
}

/// Descending stable insertion sort of a `(count, size)` table.
pub open spec fn spec_sort_desc(s: Seq<(u64, u64)>) -> Seq<(u64, u64)>
    decreases s.len(),
{
    if s.len() == 0 {
        Seq::empty()
    } else {
        spec_insert_desc(spec_sort_desc(s.drop_last()), s.last())
    }
}

proof fn lemma_insert_desc_props(s: Seq<(u64, u64)>, x: (u64, u64))
    ensures
        spec_insert_desc(s, x).len() == s.len() + 1,
        spec_prod_sum(spec_insert_desc(s, x)) == spec_prod_sum(s) + x.0 * x.1,
        (forall|j: int| 0 <= j < s.len() ==> (#[trigger] s[j]).1 >= 1) && x.1 >= 1
            ==> forall|j: int|
            0 <= j < spec_insert_desc(s, x).len() ==> (#[trigger] spec_insert_desc(s, x)[j]).1
                >= 1,
    decreases s.len(),
{
    if s.len() == 0 {
        assert(seq![x].drop_last() =~= Seq::<(u64, u64)>::empty());
        assert(seq![x].last() == x);
        assert(spec_prod_sum(Seq::<(u64, u64)>::empty()) == 0);
        assert(seq![x].len() == 1);
        assert(spec_prod_sum(seq![x]) == x.0 * x.1);
        assert(spec_insert_desc(s, x) == seq![x]);
    } else if !spec_lt_cs(s.last(), x) {
        assert(s.push(x).drop_last() =~= s);
        assert(s.push(x).last() == x);
        assert(spec_prod_sum(s.push(x)) == spec_prod_sum(s) + x.0 * x.1);
        assert(spec_insert_desc(s, x) == s.push(x));
    } else {
        assert(forall|j: int| 0 <= j < s.len() - 1 ==> #[trigger] s.drop_last()[j] == s[j]);
        lemma_insert_desc_props(s.drop_last(), x);
        let t = spec_insert_desc(s.drop_last(), x);
        let r = t.push(s.last());
        assert(r.drop_last() =~= t);
        assert(r.last() == s.last());
        assert(spec_prod_sum(r) == spec_prod_sum(t) + s.last().0 * s.last().1);
        assert(spec_prod_sum(t) == spec_prod_sum(s.drop_last()) + x.0 * x.1);
        assert(spec_prod_sum(s) == spec_prod_sum(s.drop_last()) + s.last().0 * s.last().1);
        assert(spec_insert_desc(s, x) == r);
        if (forall|j: int| 0 <= j < s.len() ==> (#[trigger] s[j]).1 >= 1) && x.1 >= 1 {
            assert(forall|j: int| 0 <= j < t.len() ==> (#[trigger] t[j]).1 >= 1);
            assert forall|j: int| 0 <= j < r.len() implies (#[trigger] r[j]).1 >= 1 by {
                if j < r.len() - 1 {
                    assert(r[j] == t[j]);
                } else {
                    assert(r[j] == s.last());
                }
            }
        }
    }
}

pub(crate) proof fn lemma_sort_desc_props(s: Seq<(u64, u64)>)
    ensures
        spec_sort_desc(s).len() == s.len(),
        spec_prod_sum(spec_sort_desc(s)) == spec_prod_sum(s),
        (forall|j: int| 0 <= j < s.len() ==> (#[trigger] s[j]).1 >= 1) ==> forall|j: int|
            0 <= j < s.len() ==> (#[trigger] spec_sort_desc(s)[j]).1 >= 1,
    decreases s.len(),
{
    if s.len() > 0 {
        lemma_sort_desc_props(s.drop_last());
        lemma_insert_desc_props(spec_sort_desc(s.drop_last()), s.last());
        assert(forall|j: int|
            0 <= j < s.len() - 1 ==> #[trigger] s.drop_last()[j] == s[j]);
    }
}

proof fn lemma_insert_desc_at(s: Seq<(u64, u64)>, x: (u64, u64), k: int)
    requires
        0 <= k <= s.len(),
        forall|j: int| k <= j < s.len() ==> spec_lt_cs(#[trigger] s[j], x),
        k > 0 ==> !spec_lt_cs(s[k - 1], x),
    ensures
        spec_insert_desc(s, x) == s.insert(k, x),
    decreases s.len(),
{
    if s.len() == 0 {
        assert(spec_insert_desc(s, x) =~= s.insert(0, x));
    } else if k == s.len() {
        assert(!spec_lt_cs(s.last(), x));
        assert(s.push(x) =~= s.insert(k, x));
    } else {
        assert(spec_lt_cs(s.last(), x));
        assert(forall|j: int|
            k <= j < s.len() - 1 ==> #[trigger] s.drop_last()[j] == s[j]);
        if k > 0 {
            assert(s.drop_last()[k - 1] == s[k - 1]);
        }
        lemma_insert_desc_at(s.drop_last(), x, k);
        assert(spec_insert_desc(s.drop_last(), x).push(s.last()) =~= s.insert(k, x));
    }
}

/// Inserts one entry into a descending table, keeping the order.
fn insert_desc(v: &mut Vec<(u64, u64)>, x: (u64, u64))
    ensures
        final(v)@ == spec_insert_desc(old(v)@, x),
{
    let mut k = v.len();
    while k > 0 && (v[k - 1].0 < x.0 || (v[k - 1].0 == x.0 && v[k - 1].1 < x.1))
        invariant
            k <= v@.len(),
            v@ == old(v)@,
            forall|j: int| k <= j < v@.len() ==> spec_lt_cs(#[trigger] v@[j], x),
        decreases k,
    {
        k = k - 1;
    }
    proof {
        lemma_insert_desc_at(v@, x, k as int);
    }
    v.insert(k, x);
}

/// Sorts a `(count, size)` table descending by count, then size, keeping the
/// order of equal entries.
pub(crate) fn sort_desc(v: &Vec<(u64, u64)>) -> (r: Vec<(u64, u64)>)
    ensures
        r@ == spec_sort_desc(v@),
{
    let n = v.len();
    let mut out: Vec<(u64, u64)> = Vec::new();
    let mut i: usize = 0;
    proof {
        assert(v@.take(0) =~= Seq::<(u64, u64)>::empty());
    }
    while i < n
        invariant
            i <= n,
            n == v@.len(),
            out@ == spec_sort_desc(v@.take(i as int)),
        decreases n - i,
    {
        proof {
            assert(v@.take(i + 1).drop_last() =~= v@.take(i as int));
            assert(v@.take(i + 1).last() == v@[i as int]);
        }
        insert_desc(&mut out, v[i]);
        i = i + 1;
    }
    proof {
        assert(v@.take(n as int) =~= v@);
    }
    out
}

/// The first index whose entry has size `sz`, or the length if none has.
pub open spec fn spec_find_size(vs: Seq<(u64, u64)>, sz: u64) -> int
    decreases vs.len(),
{
    if vs.len() == 0 {
        0
    } else if vs[0].1 == sz {
        0
    } else {
        1 + spec_find_size(vs.skip(1), sz)
    }
}

proof fn lemma_find_size_props(vs: Seq<(u64, u64)>, sz: u64)
    ensures
        0 <= spec_find_size(vs, sz) <= vs.len(),
        spec_find_size(vs, sz) < vs.len() ==> vs[spec_find_size(vs, sz)].1 == sz,
        forall|i: int| 0 <= i < spec_find_size(vs, sz) ==> (#[trigger] vs[i]).1 != sz,
    decreases vs.len(),
{
    if vs.len() != 0 && vs[0].1 != sz {
        lemma_find_size_props(vs.skip(1), sz);
        assert forall|i: int| 0 <= i < spec_find_size(vs, sz) implies (#[trigger] vs[i]).1
            != sz by {
            if i > 0 {
                assert(vs.skip(1)[i - 1] == vs[i]);
            }
        }
        if spec_find_size(vs, sz) < vs.len() {
            assert(vs.skip(1)[spec_find_size(vs, sz) - 1] == vs[spec_find_size(vs, sz)]);
        }
    }
}

/// The product sum changes by exactly the changed entry under an update.
proof fn lemma_prod_sum_update(vs: Seq<(u64, u64)>, i: int, x: (u64, u64))
    requires
        0 <= i < vs.len(),
    ensures
        spec_prod_sum(vs.update(i, x)) == spec_prod_sum(vs) - vs[i].0 * vs[i].1 + x.0 * x.1,
    decreases vs.len(),
{
    if i == vs.len() - 1 {
        assert(vs.update(i, x).drop_last() =~= vs.drop_last());
        assert(vs.update(i, x).last() == x);
    } else {
        assert(vs.update(i, x).drop_last() =~= vs.drop_last().update(i, x));
        assert(vs.update(i, x).last() == vs.last());
        assert(vs.drop_last()[i] == vs[i]);
        lemma_prod_sum_update(vs.drop_last(), i, x);
    }
}

/// Every entry's product is bounded by the product sum.
proof fn lemma_prod_term_le(vs: Seq<(u64, u64)>, i: int)
    requires
        0 <= i < vs.len(),
    ensures
        vs[i].0 * vs[i].1 <= spec_prod_sum(vs),
    decreases vs.len(),
{
    if i == vs.len() - 1 {
        lemma_prod_sum_nonneg(vs.drop_last());
    } else {
        lemma_prod_term_le(vs.drop_last(), i);
        assert(vs.drop_last()[i] == vs[i]);
        vstd::arithmetic::mul::lemma_mul_nonnegative(vs.last().0 as int, vs.last().1 as int);
    }
}

/// Reconciles a sorted `(count, size)` table against the requested row count:
/// grows or shrinks the first (largest) entry by whole partitions, then
/// settles a remaining shortfall on the first entry of exactly that size, or
/// on a new single-partition entry.  `None` only when shrinking would exceed
/// the largest entry's count.
pub open spec fn spec_readd(vs: Seq<(u64, u64)>, rem: u64) -> Seq<(u64, u64)> {
    if rem == 0 {
        vs
    } else {
        let i = spec_find_size(vs, rem);
        if i < vs.len() {
            vs.update(i, ((vs[i].0 + 1) as u64, vs[i].1))
        } else {
            vs.push((1u64, rem))
        }
    }
}

pub open spec fn spec_reconcile(vs: Seq<(u64, u64)>, rc: u64) -> Option<Seq<(u64, u64)>> {
    if vs.len() == 0 {
        None
    } else {
        let actual = spec_prod_sum(vs);
        let s0 = vs[0].1 as int;
        let c0 = vs[0].0 as int;
        if rc > actual {
            let diff = rc - actual;
            let k = diff / s0;
            Some(spec_readd(vs.update(0, ((c0 + k) as u64, vs[0].1)), (diff - k * s0) as u64))
        } else if rc < actual {
            let diff = actual - rc;
            let k = if diff % s0 == 0 {
                diff / s0
            } else {
                diff / s0 + 1
            };
            if k > c0 {
                None
            } else {
                Some(
                    spec_readd(vs.update(0, ((c0 - k) as u64, vs[0].1)), (k * s0 - diff) as u64),
                )
            }
        } else {
            Some(vs)
        }
    }
}

/// Applies [`spec_reconcile`] in place; afterwards the table covers exactly
/// `rc` rows.
pub(crate) fn reconcile(vs: &mut Vec<(u64, u64)>, rc: u64) -> (r: Result<(), ()>)
    requires
        old(vs)@.len() >= 1,
        rc >= 1,
        forall|j: int| 0 <= j < old(vs)@.len() ==> (#[trigger] old(vs)@[j]).1 >= 1,
        spec_prod_sum(old(vs)@) <= u64::MAX,
    ensures
        r is Ok <==> spec_reconcile(old(vs)@, rc) is Some,
        r is Ok ==> Some(final(vs)@) == spec_reconcile(old(vs)@, rc),
        r is Ok ==> spec_prod_sum(final(vs)@) == rc,
        r is Ok ==> final(vs)@.len() >= 1,
        r is Ok ==> forall|j: int| 0 <= j < final(vs)@.len() ==> (#[trigger] final(vs)@[j]).1 >= 1,
        r is Err ==> final(vs)@ == old(vs)@,
    {
    let ghost vs0 = vs@;
    // rows currently covered
    let n = vs.len();
    let mut actual: u64 = 0;
    let mut i: usize = 0;
    proof {
        assert(vs@.take(0) =~= Seq::<(u64, u64)>::empty());
    }
    while i < n
        invariant
            i <= n,
            n == vs@.len(),
            vs@ == vs0,
            spec_prod_sum(vs0) <= u64::MAX,
            actual == spec_prod_sum(vs@.take(i as int)),
        decreases n - i,
    {
        proof {
            assert(vs@.take(i + 1).drop_last() =~= vs@.take(i as int));
            assert(vs@.take(i + 1).last() == vs@[i as int]);
            lemma_prod_sum_prefix_le(vs@, i + 1);
            vstd::arithmetic::mul::lemma_mul_nonnegative(
                vs@[i as int].0 as int,
                vs@[i as int].1 as int,
            );
            assert((vs@[i as int].0 as int) * (vs@[i as int].1 as int)
                <= 0xffff_ffff_ffff_ffffu64 * 0xffff_ffff_ffff_ffffu64) by (nonlinear_arith)
                requires
                    vs@[i as int].0 <= 0xffff_ffff_ffff_ffffu64,
                    vs@[i as int].1 <= 0xffff_ffff_ffff_ffffu64,
            ;
        }
        let t: u128 = (vs[i].0 as u128) * (vs[i].1 as u128);
        actual = (actual as u128 + t) as u64;
        i = i + 1;
    }
    proof {
        assert(vs@.take(n as int) =~= vs@);
    }
    let s0 = vs[0].1;
    let c0 = vs[0].0;
    let mut rem: u64 = 0;
    if rc > actual {
        let diff = rc - actual;
        let k = diff / s0;
        proof {
            vstd::arithmetic::div_mod::lemma_fundamental_div_mod(diff as int, s0 as int);
            vstd::arithmetic::div_mod::lemma_mod_bound(diff as int, s0 as int);
            assert(k * s0 <= diff) by (nonlinear_arith)
                requires
                    diff == s0 * (k as int) + (diff as int) % (s0 as int),
                    (diff as int) % (s0 as int) >= 0,
            ;
            lemma_prod_term_le(vs@, 0);
            assert((c0 + k) * s0 == c0 * s0 + k * s0) by (nonlinear_arith);
            assert(c0 + k <= rc) by (nonlinear_arith)
                requires
                    (c0 + k) * s0 == c0 * s0 + k * s0,
                    c0 * s0 <= actual,
                    k * s0 <= diff,
                    actual + diff == rc,
                    s0 >= 1,
                    c0 >= 0,
                    k >= 0,
            ;
            lemma_prod_sum_update(vs@, 0, (((c0 + k) as int) as u64, s0));
        }
        let newc = c0 + k;
        vs.set(0, (newc, s0));
        rem = diff - k * s0;
    } else if rc < actual {
        let diff = actual - rc;
        let mut k = diff / s0;
        if diff % s0 != 0 {
            k = k + 1;
        }
        if k > c0 {
            return Err(());
        }
        proof {
            vstd::arithmetic::div_mod::lemma_fundamental_div_mod(diff as int, s0 as int);
            vstd::arithmetic::div_mod::lemma_mod_bound(diff as int, s0 as int);
            assert(k * s0 >= diff) by (nonlinear_arith)
                requires
                    diff == s0 * ((diff as int) / (s0 as int)) + (diff as int) % (s0 as int),
                    0 <= (diff as int) % (s0 as int) < s0,
                    ((diff as int) % (s0 as int) == 0) ==> k == (diff as int) / (s0 as int),
                    ((diff as int) % (s0 as int) != 0) ==> k == (diff as int) / (s0 as int) + 1,
                    s0 >= 1,
            ;
            lemma_prod_term_le(vs@, 0);
            assert(k * s0 <= c0 * s0) by (nonlinear_arith)
                requires
                    k <= c0,
                    s0 >= 0,
            ;
            assert((k as int) * (s0 as int) <= 0xffff_ffff_ffff_ffffu64) by {
                assert(c0 * s0 <= spec_prod_sum(vs@));
            }
            assert((c0 - k) * s0 == c0 * s0 - k * s0) by (nonlinear_arith);
            lemma_prod_sum_update(vs@, 0, (((c0 - k) as int) as u64, s0));
        }
        let ks0: u64 = ((k as u128) * (s0 as u128)) as u64;
        let newc = c0 - k;
        vs.set(0, (newc, s0));
        rem = ks0 - diff;
    }
    // settle the remaining shortfall
    let ghost vs1 = vs@;
    proof {
        if rc > spec_prod_sum(vs0) {
            assert(spec_prod_sum(vs1) + rem == rc);
        } else if rc < spec_prod_sum(vs0) {
            assert(spec_prod_sum(vs1) + rem == rc);
        } else {
            assert(vs1 == vs0 && rem == 0);
        }
        lemma_find_size_props(vs1, rem);
        lemma_prod_sum_nonneg(vs1);
    }
    if rem > 0 {
        let m = vs.len();
        let mut i: usize = 0;
        let mut found = false;
        while i < m && !found
            invariant
                i <= m,
                m == vs@.len(),
                vs@ == vs1,
                !found ==> forall|j: int| 0 <= j < i ==> (#[trigger] vs@[j]).1 != rem,
                found ==> i < m && vs@[i as int].1 == rem && forall|j: int|
                    0 <= j < i ==> (#[trigger] vs@[j]).1 != rem,
            decreases m - i + if found {
                0int
            } else {
                1int
            },
        {
            if vs[i].1 == rem {
                found = true;
            } else {
                i = i + 1;
            }
        }
        if found {
            proof {
                assert(vs1[i as int].1 == rem);
                assert(i == spec_find_size(vs1, rem)) by {
                    lemma_find_size_props(vs1, rem);
                    if (i as int) < spec_find_size(vs1, rem) {
                        assert(vs1[i as int].1 != rem);
                    }
                    if spec_find_size(vs1, rem) < i {
                        assert(vs1[spec_find_size(vs1, rem)].1 == rem);
                    }
                }
                lemma_prod_term_le(vs1, i as int);
                assert(vs1[i as int].0 < rc) by (nonlinear_arith)
                    requires
                        vs1[i as int].0 * vs1[i as int].1 <= spec_prod_sum(vs1),
                        spec_prod_sum(vs1) + rem == rc,
                        rem >= 1,
                        vs1[i as int].1 >= 1,
                        vs1[i as int].0 >= 0,
                ;
                lemma_prod_sum_update(vs1, i as int, ((vs1[i as int].0 + 1) as u64, rem));
                assert((vs1[i as int].0 + 1) * rem == vs1[i as int].0 * rem + rem)
                    by (nonlinear_arith);
            }
            let c = vs[i].0;
            vs.set(i, (c + 1, rem));
            proof {
                assert(vs@ == vs1.update(i as int, ((c + 1) as u64, rem)));
                assert(spec_prod_sum(vs@) == rc);
            }
        } else {
            proof {
                assert(spec_find_size(vs1, rem) == vs1.len()) by {
                    lemma_find_size_props(vs1, rem);
                    if spec_find_size(vs1, rem) < vs1.len() {
                        assert(vs1[spec_find_size(vs1, rem)].1 == rem);
                    }
                }
                assert(vs1.push((1u64, rem)).drop_last() =~= vs1);
            }
            vs.push((1, rem));
            proof {
                assert(vs@.last() == (1u64, rem));
                assert(1 * rem == rem) by (nonlinear_arith);
                assert(spec_prod_sum(vs@) == spec_prod_sum(vs1) + rem);
                assert(spec_prod_sum(vs@) == rc);
            }
        }
    }
    Ok(())
}

/// Appending a group adds its rows to the suffix sums.
proof fn lemma_rows_sum_push(gs: Seq<PartitionGroup>, g: PartitionGroup, i: int)
    requires
        0 <= i <= gs.len(),
    ensures
        rows_sum_from(gs.push(g), i) == rows_sum_from(gs, i) + g.n_rows_per_group,
    decreases gs.len() - i,
{
    if i == gs.len() {
        assert(gs.push(g)[i] == g);
        assert(rows_sum_from(gs.push(g), i + 1) == 0);
        assert(rows_sum_from(gs, i) == 0);
    } else {
        assert(gs.push(g)[i] == gs[i]);
        lemma_rows_sum_push(gs, g, i + 1);
    }
}

/// Strict "comes after" order for groups: larger groups first.
pub open spec fn spec_lt_g(a: PartitionGroup, b: PartitionGroup) -> bool {
    a.n_rows_per_group < b.n_rows_per_group
}

/// Inserts a group into a descending group list, after all not below it.
pub open spec fn spec_insert_groups_desc(s: Seq<PartitionGroup>, x: PartitionGroup) -> Seq<
    PartitionGroup,
>
    decreases s.len(),
{
    if s.len() == 0 {
        seq![x]
    } else if !spec_lt_g(s.last(), x) {
        s.push(x)
    } else {
        spec_insert_groups_desc(s.drop_last(), x).push(s.last())
    }
}

/// Descending stable insertion sort of a group list by rows per group.
pub open spec fn spec_sort_groups_desc(s: Seq<PartitionGroup>) -> Seq<PartitionGroup>
    decreases s.len(),
{
    if s.len() == 0 {
        Seq::empty()
    } else {
        spec_insert_groups_desc(spec_sort_groups_desc(s.drop_last()), s.last())
    }
}

proof fn lemma_insert_groups_desc_props(s: Seq<PartitionGroup>, x: PartitionGroup)
    ensures
        spec_insert_groups_desc(s, x).len() == s.len() + 1,
        rows_sum_from(spec_insert_groups_desc(s, x), 0) == rows_sum_from(s, 0)
            + x.n_rows_per_group,
        (forall|j: int| 0 <= j < s.len() ==> group_wf(#[trigger] s[j])) && group_wf(x)
            ==> forall|j: int|
            0 <= j < spec_insert_groups_desc(s, x).len() ==> group_wf(
                #[trigger] spec_insert_groups_desc(s, x)[j],
            ),
    decreases s.len(),
{
    if s.len() == 0 {
        assert(seq![x].drop_last() =~= Seq::<PartitionGroup>::empty());
        lemma_rows_sum_push(Seq::<PartitionGroup>::empty(), x, 0);
        assert(Seq::<PartitionGroup>::empty().push(x) =~= seq![x]);
        assert(spec_insert_groups_desc(s, x) == seq![x]);
    } else if !spec_lt_g(s.last(), x) {
        lemma_rows_sum_push(s, x, 0);
    } else {
        assert(forall|j: int| 0 <= j < s.len() - 1 ==> #[trigger] s.drop_last()[j] == s[j]);
        lemma_insert_groups_desc_props(s.drop_last(), x);
        let t = spec_insert_groups_desc(s.drop_last(), x);
        let r = t.push(s.last());
        lemma_rows_sum_push(t, s.last(), 0);
        lemma_rows_sum_push(s.drop_last(), s.last(), 0);
        assert(s.drop_last().push(s.last()) =~= s);
        assert(spec_insert_groups_desc(s, x) == r);
        if (forall|j: int| 0 <= j < s.len() ==> group_wf(#[trigger] s[j])) && group_wf(x) {
            assert(forall|j: int| 0 <= j < t.len() ==> group_wf(#[trigger] t[j]));
            assert forall|j: int| 0 <= j < r.len() implies group_wf(#[trigger] r[j]) by {
                if j < r.len() - 1 {
                    assert(r[j] == t[j]);
                } else {
                    assert(r[j] == s.last());
                }
            }
        }
    }
}

pub proof fn lemma_sort_groups_desc_props(s: Seq<PartitionGroup>)
    ensures
        spec_sort_groups_desc(s).len() == s.len(),
        rows_sum_from(spec_sort_groups_desc(s), 0) == rows_sum_from(s, 0),
        (forall|j: int| 0 <= j < s.len() ==> group_wf(#[trigger] s[j])) ==> forall|j: int|
            0 <= j < s.len() ==> group_wf(#[trigger] spec_sort_groups_desc(s)[j]),
    decreases s.len(),
{
    if s.len() > 0 {
        assert(forall|j: int| 0 <= j < s.len() - 1 ==> #[trigger] s.drop_last()[j] == s[j]);
        lemma_sort_groups_desc_props(s.drop_last());
        lemma_insert_groups_desc_props(spec_sort_groups_desc(s.drop_last()), s.last());
        lemma_rows_sum_push(s.drop_last(), s.last(), 0);
        assert(s.drop_last().push(s.last()) =~= s);
    }
}

proof fn lemma_insert_groups_desc_at(s: Seq<PartitionGroup>, x: PartitionGroup, k: int)
    requires
        0 <= k <= s.len(),
        forall|j: int| k <= j < s.len() ==> spec_lt_g(#[trigger] s[j], x),
        k > 0 ==> !spec_lt_g(s[k - 1], x),
    ensures
        spec_insert_groups_desc(s, x) == s.insert(k, x),
    decreases s.len(),
{
    if s.len() == 0 {
        assert(spec_insert_groups_desc(s, x) =~= s.insert(0, x));
    } else if k == s.len() {
        assert(!spec_lt_g(s.last(), x));
        assert(s.push(x) =~= s.insert(k, x));
    } else {
        assert(spec_lt_g(s.last(), x));
        assert(forall|j: int| k <= j < s.len() - 1 ==> #[trigger] s.drop_last()[j] == s[j]);
        if k > 0 {
            assert(s.drop_last()[k - 1] == s[k - 1]);
        }
        lemma_insert_groups_desc_at(s.drop_last(), x, k);
        assert(spec_insert_groups_desc(s.drop_last(), x).push(s.last()) =~= s.insert(k, x));
    }
}

fn insert_groups_desc(v: &mut Vec<PartitionGroup>, x: PartitionGroup)
    ensures
        final(v)@ == spec_insert_groups_desc(old(v)@, x),
{
    let mut k = v.len();
    while k > 0 && v[k - 1].n_rows_per_group < x.n_rows_per_group
        invariant
            k <= v@.len(),
            v@ == old(v)@,
            forall|j: int| k <= j < v@.len() ==> spec_lt_g(#[trigger] v@[j], x),
        decreases k,
    {
        k = k - 1;
    }
    proof {
        lemma_insert_groups_desc_at(v@, x, k as int);
    }
    v.insert(k, x);
}

/// Sorts groups descending by their row count, keeping the order of equally
/// sized groups.
pub(crate) fn sort_groups_desc(v: &Vec<PartitionGroup>) -> (r: Vec<PartitionGroup>)
    ensures
        r@ == spec_sort_groups_desc(v@),
{
    let n = v.len();
    let mut out: Vec<PartitionGroup> = Vec::new();
    let mut i: usize = 0;
    proof {
        assert(v@.take(0) =~= Seq::<PartitionGroup>::empty());
    }
    while i < n
        invariant
            i <= n,
            n == v@.len(),
            out@ == spec_sort_groups_desc(v@.take(i as int)),
        decreases n - i,
    {
        proof {
            assert(v@.take(i + 1).drop_last() =~= v@.take(i as int));
            assert(v@.take(i + 1).last() == v@[i as int]);
        }
        insert_groups_desc(&mut out, v[i]);
        i = i + 1;
    }
    proof {
        assert(v@.take(n as int) =~= v@);
    }
    out
}

/// The partition groups of a reconciled `(count, size)` table: entries with
/// no partitions are dropped, the rest become groups of `count` partitions of
/// `size` rows each.
pub open spec fn spec_build_groups(vs: Seq<(u64, u64)>) -> Seq<PartitionGroup>
    decreases vs.len(),
{
    if vs.len() == 0 {
        Seq::empty()
    } else {
        let rest = spec_build_groups(vs.drop_last());
        let p = vs.last();
        if p.0 >= 1 {
            rest.push(
                PartitionGroup {
                    n_rows_per_group: (p.0 * p.1) as u64,
                    n_partitions: p.0,
                    n_rows_per_partition: p.1,
                },
            )
        } else {
            rest
        }
    }
}

/// The built groups are well formed and cover exactly the table's rows.
pub proof fn lemma_build_groups_props(vs: Seq<(u64, u64)>)
    requires
        forall|j: int| 0 <= j < vs.len() ==> (#[trigger] vs[j]).1 >= 1,
        spec_prod_sum(vs) <= u64::MAX,
    ensures
        forall|j: int|
            0 <= j < spec_build_groups(vs).len() ==> group_wf(#[trigger] spec_build_groups(vs)[j]),
        rows_sum_from(spec_build_groups(vs), 0) == spec_prod_sum(vs),
    decreases vs.len(),
{
    if vs.len() > 0 {
        let p = vs.last();
        assert(forall|j: int| 0 <= j < vs.len() - 1 ==> #[trigger] vs.drop_last()[j] == vs[j]);
        lemma_prod_sum_nonneg(vs.drop_last());
        vstd::arithmetic::mul::lemma_mul_nonnegative(p.0 as int, p.1 as int);
        lemma_build_groups_props(vs.drop_last());
        let rest = spec_build_groups(vs.drop_last());
        if p.0 >= 1 {
            let g = PartitionGroup {
                n_rows_per_group: (p.0 * p.1) as u64,
                n_partitions: p.0,
                n_rows_per_partition: p.1,
            };
            assert(p.0 * p.1 <= u64::MAX);
            assert(group_wf(g));
            lemma_rows_sum_push(rest, g, 0);
            assert forall|j: int| 0 <= j < rest.push(g).len() implies group_wf(
                #[trigger] rest.push(g)[j],
            ) by {
                if j < rest.len() {
                    assert(rest.push(g)[j] == rest[j]);
                } else {
                    assert(rest.push(g)[j] == g);
                }
            }
        } else {
            assert(p.0 * p.1 == 0) by (nonlinear_arith)
                requires
                    p.0 == 0,
            ;
        }
    }
}

/// Builds the partition groups from a reconciled table.
pub(crate) fn build_groups(vs: &Vec<(u64, u64)>) -> (r: Vec<PartitionGroup>)
    requires
        forall|j: int| 0 <= j < vs@.len() ==> (#[trigger] vs@[j]).1 >= 1,
        spec_prod_sum(vs@) <= u64::MAX,
    ensures
        r@ == spec_build_groups(vs@),
{
    let n = vs.len();
    let mut out: Vec<PartitionGroup> = Vec::new();
    let mut i: usize = 0;
    proof {
        assert(vs@.take(0) =~= Seq::<(u64, u64)>::empty());
    }
    while i < n
        invariant
            i <= n,
            n == vs@.len(),
            forall|j: int| 0 <= j < vs@.len() ==> (#[trigger] vs@[j]).1 >= 1,
            spec_prod_sum(vs@) <= u64::MAX,
            out@ == spec_build_groups(vs@.take(i as int)),
        decreases n - i,
    {
        proof {
            assert(vs@.take(i + 1).drop_last() =~= vs@.take(i as int));
            assert(vs@.take(i + 1).last() == vs@[i as int]);
            lemma_prod_term_le(vs@, i as int);
            vstd::arithmetic::mul::lemma_mul_nonnegative(
                vs@[i as int].0 as int,
                vs@[i as int].1 as int,
            );
        }
        let c = vs[i].0;
        let sz = vs[i].1;
        if c >= 1 {
            out.push(
                PartitionGroup {
                    n_rows_per_group: c * sz,
                    n_partitions: c,
                    n_rows_per_partition: sz,
                },
            );
        }
        i = i + 1;
    }
    proof {
        assert(vs@.take(n as int) =~= vs@);
    }
    out
}

/// A successful scan yields at least one pair more than it started with.
pub proof fn lemma_scan_len(s: Seq<char>, pos: int, acc: Seq<(u64, u64)>)
    ensures
        spec_scan_str(s, pos, acc) matches Ok(v) ==> v.len() > acc.len(),
    decreases s.len(),
{
    let d = spec_find(s, ',');
    if !(d < 0 || d >= s.len()) {
        match spec_parse_pair(spec_remove_spaces(s.take(d))) {
            Some(p) => {
                if !acc.contains(p) {
                    lemma_scan_len(s.skip(d + 1), pos + 1, acc.push(p));
                }
            },
            None => {},
        }
    }
}

} // verus!
