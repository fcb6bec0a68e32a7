//! Duration keyword tokens: `_for_<number><unit>`, where the unit is `h`
//! (hours) or `m` (minutes) and the number may be fractional.
//!
//! The number is the leading run of the text: an optional sign, decimal
//! digits, and optionally a point followed by more digits, at least one digit
//! in all. Its product with the unit's length is computed exactly and
//! truncated toward zero to whole seconds.
use crate::text::{
    lower_of, split_on, split_str, strip_all, strip_prefix_all, to_lower, trim, trim_str,
};
use vstd::arithmetic::div_mod::{lemma_div_denominator, lemma_hoist_over_denominator};
use vstd::prelude::*;

verus! {

/// The largest number of whole seconds that a duration holds (`i64::MAX`
/// milliseconds).
pub const MAX_SECONDS: u64 = 9223372036854775;

pub open spec fn is_digit(c: char) -> bool {
    '0' <= c && c <= '9'
}

pub open spec fn digit_value(c: char) -> nat {
    (c as int - '0' as int) as nat
}

pub open spec fn pow10(k: nat) -> nat
    decreases k,
{
    if k == 0 {
        1
    } else {
        10 * pow10((k - 1) as nat)
    }
}

/// The length of the run of digits that starts `s`.
pub open spec fn digit_run(s: Seq<char>) -> nat
    decreases s.len(),
{
    if s.len() > 0 && is_digit(s[0]) {
        1 + digit_run(s.drop_first())
    } else {
        0
    }
}

/// The value of a sequence of decimal digits.
pub open spec fn digits_value(d: Seq<char>) -> nat
    decreases d.len(),
{
    if d.len() == 0 {
        0
    } else {
        digits_value(d.drop_last()) * 10 + digit_value(d.last())
    }
}

/// The number that starts `s`, as its sign, the digits before the point and
/// the digits after it: `-12.5` is `(true, "12", "5")`. At least one digit.
pub open spec fn number_prefix(s: Seq<char>) -> Option<(bool, Seq<char>, Seq<char>)> {
    let signed = s.len() > 0 && (s[0] == '-' || s[0] == '+');
    let body = if signed {
        s.drop_first()
    } else {
        s
    };
    let a = digit_run(body);
    let rest = body.subrange(a as int, body.len() as int);
    let frac = if rest.len() > 0 && rest[0] == '.' {
        rest.drop_first().subrange(0, digit_run(rest.drop_first()) as int)
    } else {
        Seq::empty()
    };
    if a + frac.len() == 0 {
        None
    } else {
        Some((signed && s[0] == '-', body.subrange(0, a as int), frac))
    }
}

/// The whole part of `factor` times the fraction `0.d`, computed from the last
/// digit to the first.
pub open spec fn frac_floor(d: Seq<char>, factor: nat) -> nat
    decreases d.len(),
{
    if d.len() == 0 {
        0
    } else {
        (digit_value(d[0]) * factor + frac_floor(d.drop_first(), factor)) / 10
    }
}

proof fn lemma_digit_run(s: Seq<char>, i: int)
    requires
        0 <= i < s.len(),
        is_digit(s[i]),
    ensures
        digit_run(s.subrange(i, s.len() as int)) == 1 + digit_run(s.subrange(i + 1, s.len() as int)),
{
    assert(s.subrange(i, s.len() as int).drop_first() =~= s.subrange(i + 1, s.len() as int));
}

proof fn lemma_pow10_pos(k: nat)
    ensures
        pow10(k) >= 1,
    decreases k,
{
    if k > 0 {
        lemma_pow10_pos((k - 1) as nat);
    }
}

proof fn lemma_digits_front(d: Seq<char>)
    requires
        d.len() > 0,
    ensures
        digits_value(d) == digit_value(d[0]) * pow10((d.len() - 1) as nat) + digits_value(
            d.drop_first(),
        ),
    decreases d.len(),
{
    if d.len() == 1 {
        assert(d.drop_last() =~= Seq::<char>::empty());
        assert(d.drop_first() =~= Seq::<char>::empty());
        assert(d.last() == d[0]);
        assert(digits_value(d) == digits_value(d.drop_last()) * 10 + digit_value(d.last()));
        assert(pow10(0) == 1);
    } else {
        let p = d.drop_last();
        lemma_digits_front(p);
        let r = d.drop_first();
        assert(r.drop_last() =~= p.drop_first());
        assert(r.last() == d.last());
        assert(p[0] == d[0]);
        let a = digit_value(d[0]);
        let q = pow10((d.len() - 2) as nat);
        let b = digits_value(p.drop_first());
        let e = digit_value(d.last());
        assert(digits_value(d) == digits_value(p) * 10 + e);
        assert(digits_value(p) == a * q + b);
        assert(digits_value(r) == b * 10 + e);
        assert(pow10((d.len() - 1) as nat) == 10 * q);
        assert((a * q + b) * 10 == a * (10 * q) + b * 10) by (nonlinear_arith);
    }
}

/// The carried computation of `frac_floor` is the truncated product.
proof fn lemma_frac_floor(d: Seq<char>, factor: nat)
    ensures
        frac_floor(d, factor) == (digits_value(d) * factor) / pow10(d.len()),
    decreases d.len(),
{
    if d.len() > 0 {
        let rest = d.drop_first();
        lemma_frac_floor(rest, factor);
        lemma_digits_front(d);
        lemma_pow10_pos(rest.len());
        let m = pow10(rest.len());
        let v = digits_value(rest);
        let a = digit_value(d[0]) * factor;
        lemma_hoist_over_denominator((v * factor) as int, a as int, m);
        lemma_div_denominator((v * factor + a * m) as int, m as int, 10);
        assert((digit_value(d[0]) * m + v) * factor == v * factor + a * m) by (nonlinear_arith)
            requires
                a == digit_value(d[0]) * factor,
        ;
        assert(pow10(d.len()) == m * 10);
        assert(frac_floor(d, factor) == (a + frac_floor(rest, factor)) / 10);
        assert(frac_floor(rest, factor) == (v * factor) / m);
        assert(digits_value(d) == digit_value(d[0]) * m + v);
        assert(digits_value(d) * factor == v * factor + a * m);
        let x: int = (v * factor + a * m) as int;
        let mi: int = m as int;
        assert(((v * factor) as int) / mi + (a as int) == x / mi);
        assert((x / mi) / 10 == x / (mi * 10));
        assert(frac_floor(d, factor) as int == x / (mi * 10));
        let y: int = (digits_value(d) * factor) as int;
        let z: int = pow10(d.len()) as int;
        assert(y == x);
        assert(z == mi * 10);
        assert(y / z == x / (mi * 10));
    } else {
        assert(pow10(0) == 1);
        assert(digits_value(d) == 0);
    }
}

/// The largest value that `scan_int` tells apart; anything larger gives more
/// seconds than a duration holds.
pub const INT_CAP: u128 = 9223372036854776;

pub open spec fn capped(v: nat) -> nat {
    if v < INT_CAP {
        v
    } else {
        INT_CAP as nat
    }
}

/// The end of the run of digits in `s` that starts at `i`, and the value of
/// those digits, capped.
fn scan_int(s: &str, n: usize, i: usize) -> (r: (usize, u128))
    requires
        n == s@.len(),
        i <= n,
    ensures
        i <= r.0 <= n,
        r.0 - i == digit_run(s@.subrange(i as int, n as int)),
        r.1 == capped(digits_value(s@.subrange(i as int, r.0 as int))),
{
    let mut j: usize = i;
    let mut v: u128 = 0;
    assert(s@.subrange(i as int, i as int) =~= Seq::<char>::empty());
    while j < n && '0' <= s.get_char(j) && s.get_char(j) <= '9'
        invariant
            n == s@.len(),
            i <= j <= n,
            digit_run(s@.subrange(i as int, n as int)) == (j - i) + digit_run(
                s@.subrange(j as int, n as int),
            ),
            v == capped(digits_value(s@.subrange(i as int, j as int))),
        decreases n - j,
    {
        let ch = s.get_char(j);
        proof {
            lemma_digit_run(s@, j as int);
        }
        let ghost old_seq = s@.subrange(i as int, j as int);
        assert(s@.subrange(i as int, j + 1).drop_last() =~= old_seq);
        assert(s@.subrange(i as int, j + 1).last() == ch);
        let d = (ch as u32 - '0' as u32) as u128;
        if v < INT_CAP {
            let w = v * 10 + d;
            v = if w < INT_CAP {
                w
            } else {
                INT_CAP
            };
        }
        j = j + 1;
    }
    assert(digit_run(s@.subrange(j as int, n as int)) == 0);
    (j, v)
}

/// The end of the run of digits in `s` that starts at `i`.
fn digit_run_end(s: &str, n: usize, i: usize) -> (r: usize)
    requires
        n == s@.len(),
        i <= n,
    ensures
        i <= r <= n,
        r - i == digit_run(s@.subrange(i as int, n as int)),
{
    let mut j: usize = i;
    while j < n && '0' <= s.get_char(j) && s.get_char(j) <= '9'
        invariant
            n == s@.len(),
            i <= j <= n,
            digit_run(s@.subrange(i as int, n as int)) == (j - i) + digit_run(
                s@.subrange(j as int, n as int),
            ),
        decreases n - j,
    {
        proof {
            lemma_digit_run(s@, j as int);
        }
        j = j + 1;
    }
    assert(digit_run(s@.subrange(j as int, n as int)) == 0);
    j
}

/// `frac_floor` of the digits of `s` from `from` to `to`.
fn frac_part(s: &str, from: usize, to: usize, factor: u128) -> (r: u128)
    requires
        from <= to <= s@.len(),
        1 <= factor <= 3600,
        forall|k: int| from <= k < to ==> is_digit(#[trigger] s@[k]),
    ensures
        r == frac_floor(s@.subrange(from as int, to as int), factor as nat),
        r < factor,
{
    let mut carry: u128 = 0;
    let mut j: usize = to;
    assert(s@.subrange(to as int, to as int) =~= Seq::<char>::empty());
    while j > from
        invariant
            from <= j <= to <= s@.len(),
            1 <= factor <= 3600,
            forall|k: int| from <= k < to ==> is_digit(#[trigger] s@[k]),
            carry == frac_floor(s@.subrange(j as int, to as int), factor as nat),
            carry < factor,
        decreases j,
    {
        let ch = s.get_char(j - 1);
        assert(is_digit(s@[j - 1]));
        assert(s@.subrange(j - 1, to as int).drop_first() =~= s@.subrange(j as int, to as int));
        assert(s@.subrange(j - 1, to as int)[0] == ch);
        let d = (ch as u32 - '0' as u32) as u128;
        assert(d * factor + carry < 10 * factor) by (nonlinear_arith)
            requires
                d <= 9,
                carry < factor,
        ;
        carry = (d * factor + carry) / 10;
        j = j - 1;
    }
    carry
}

/// The whole seconds in the number that starts `s` times `factor`, truncated
/// toward zero: `(negative, seconds)`, or `None` where `s` starts with no
/// number or the seconds exceed what a duration holds.
#[verifier::rlimit(50)]
fn scaled_number(s: &str, factor: u128) -> (r: Option<(bool, u64)>)
    requires
        1 <= factor <= 3600,
    ensures
        match number_prefix(s@) {
            None => r is None,
            Some((neg, ip, fp)) => match seconds_in(neg, ip, fp, factor as nat) {
                Some(t) => r matches Some(x) && x.0 == neg && (if neg {
                    -(x.1 as int)
                } else {
                    x.1 as int
                }) == t,
                None => r is None,
            },
        },
{
    let n = s.unicode_len();
    let mut i: usize = 0;
    let mut neg = false;
    if n > 0 && (s.get_char(0) == '-' || s.get_char(0) == '+') {
        neg = s.get_char(0) == '-';
        i = 1;
    }
    let ghost body = s@.subrange(i as int, n as int);
    proof {
        if i == 1 {
            assert(body =~= s@.drop_first());
        } else {
            assert(body =~= s@);
        }
    }
    let (a_end, iv) = scan_int(s, n, i);
    let ghost a = (a_end - i) as nat;
    assert(body.subrange(0, a as int) =~= s@.subrange(i as int, a_end as int));
    assert(body.subrange(a as int, body.len() as int) =~= s@.subrange(a_end as int, n as int));
    let mut f_end: usize = a_end;
    let mut frac: u128 = 0;
    let ghost fp: Seq<char> = Seq::empty();
    assert(frac_floor(fp, factor as nat) == 0);
    if a_end < n && s.get_char(a_end) == '.' {
        let ghost rest = s@.subrange(a_end as int, n as int);
        assert(rest.drop_first() =~= s@.subrange(a_end + 1, n as int));
        f_end = digit_run_end(s, n, a_end + 1);
        assert(rest.drop_first().subrange(0, (f_end - a_end - 1) as int) =~= s@.subrange(
            a_end + 1,
            f_end as int,
        ));
        proof {
            assert forall|k: int| a_end + 1 <= k < f_end implies #[trigger] is_digit(s@[k]) by {
                lemma_run_digits(s@.subrange(a_end + 1, n as int), k - a_end - 1);
            }
        }
        frac = frac_part(s, a_end + 1, f_end, factor);
        proof {
            fp = s@.subrange(a_end + 1, f_end as int);
        }
    }
    assert(number_prefix(s@) is Some ==> number_prefix(s@)->0 == (
        neg,
        s@.subrange(i as int, a_end as int),
        fp,
    ));
    if a_end - i == 0 && (f_end == a_end || f_end == a_end + 1) {
        return None;
    }
    proof {
        lemma_frac_floor(fp, factor as nat);
    }
    if iv >= INT_CAP {
        proof {
            assert(digits_value(s@.subrange(i as int, a_end as int)) * factor >= INT_CAP)
                by (nonlinear_arith)
                requires
                    digits_value(s@.subrange(i as int, a_end as int)) >= INT_CAP,
                    factor >= 1,
            ;
        }
        return None;
    }
    assert(iv * factor + frac < INT_CAP * 3600 + 3600) by (nonlinear_arith)
        requires
            iv < INT_CAP,
            factor <= 3600,
            frac < factor,
    ;
    let t = iv * factor + frac;
    if t > MAX_SECONDS as u128 {
        return None;
    }
    Some((neg, t as u64))
}

proof fn lemma_run_digits(s: Seq<char>, k: int)
    requires
        0 <= k < digit_run(s),
        k < s.len(),
    ensures
        is_digit(s[k]),
    decreases s.len(),
{
    assert(s.len() > 0 && is_digit(s[0]));
    if k > 0 {
        lemma_run_digits(s.drop_first(), k - 1);
        assert(s.drop_first()[k - 1] == s[k]);
    }
}

/// The whole seconds in the number with sign `neg`, digits `ip` before the
/// point and `fp` after it, times `factor`, truncated toward zero; `None` where
/// that exceeds what a duration holds.
pub open spec fn seconds_in(neg: bool, ip: Seq<char>, fp: Seq<char>, factor: nat) -> Option<int> {
    let t = digits_value(ip) * factor + (digits_value(fp) * factor) / pow10(fp.len());
    if t > MAX_SECONDS {
        None
    } else if neg {
        Some(-t)
    } else {
        Some(t as int)
    }
}

/// The seconds that a duration token denotes.
pub open spec fn duration_of(token: Seq<char>) -> Option<int> {
    duration_in(lower_of(token))
}

/// The seconds that a duration token already in lower case denotes: trimmed,
/// its leading `_for` removed, it must split on `_` into exactly two pieces,
/// the second of which starts with a number and ends with the unit.
pub open spec fn duration_in(lowered: Seq<char>) -> Option<int> {
    let c = strip_all(trim(lowered), "_for"@);
    let parts = split_on(c, '_');
    if c.len() == 0 || parts.len() != 2 {
        None
    } else {
        match number_prefix(parts[1]) {
            None => None,
            Some((neg, ip, fp)) => if parts[1].last() == 'h' {
                seconds_in(neg, ip, fp, 3600)
            } else if parts[1].last() == 'm' {
                seconds_in(neg, ip, fp, 60)
            } else {
                None
            },
        }
    }
}

/// Reads a duration token (`_for_2h`, `_for_1.5h`, `_for_10m`) as whole seconds.
pub fn parse_duration(token: &str) -> (r: Option<i64>)
    ensures
        r matches Some(t) ==> duration_of(token@) == Some(t as int),
        r is None ==> duration_of(token@) is None,
{
    let lowered = to_lower(token);
    parse_duration_lowered(lowered.as_str())
}

/// Reads a duration token already in lower case as whole seconds.
pub fn parse_duration_lowered(lowered: &str) -> (r: Option<i64>)
    ensures
        r matches Some(t) ==> duration_in(lowered@) == Some(t as int),
        r is None ==> duration_in(lowered@) is None,
{
    let c = strip_prefix_all(trim_str(lowered), "_for");
    if c.unicode_len() == 0 {
        return None;
    }
    let parts = split_str(c, '_');
    if parts.len() != 2 {
        return None;
    }
    let num = parts[1];
    assert(parts@.map_values(|w: &str| w@)[1] == num@);
    let len = num.unicode_len();
    if len == 0 {
        return None;
    }
    let unit = num.get_char(len - 1);
    let factor: u128 = if unit == 'h' {
        3600
    } else if unit == 'm' {
        60
    } else {
        return None;
    };
    match scaled_number(num, factor) {
        Some((neg, t)) => {
            let ti = t as i64;
            if neg {
                Some(-ti)
            } else {
                Some(ti)
            }
        },
        None => None,
    }
}

} // verus!
