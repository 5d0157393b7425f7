//! Command-line options.

use vstd::prelude::*;

use crate::diagnosis::{eq_ignore_ascii_case, same_ignoring_ascii_case};
use crate::text::{
    starts_with_chars, string_of,
    all_digits, chars_of, digit_value, digits_only, digits_value, is_digit, lemma_digits_bound,
    lemma_digits_concat, lemma_digits_lead, lemma_digits_zero, lemma_pow10_add, lemma_pow10_mono,
    lemma_pow10_pos, lit, parse_unsigned, parse_unsigned_chars, pow10, round_even, slice_chars,
    append_chars,
};

verus! {

// ---------------------------------------------------------------------------
// Decimal seconds
// ---------------------------------------------------------------------------

/// Number of leading ASCII digits of `s`.
pub open spec fn digit_run(s: Seq<char>) -> nat
    decreases s.len(),
{
    if s.len() > 0 && is_digit(s[0]) {
        1 + digit_run(s.drop_first())
    } else {
        0
    }
}

proof fn lemma_digit_run_at(s: Seq<char>, k: int)
    requires
        0 <= k <= s.len(),
        forall|i: int| 0 <= i < k ==> is_digit(#[trigger] s[i]),
        k == s.len() || !is_digit(s[k]),
    ensures
        digit_run(s) == k,
    decreases k,
{
    if k > 0 {
        assert forall|i: int| 0 <= i < k - 1 implies is_digit(#[trigger] s.drop_first()[i]) by {
            assert(s.drop_first()[i] == s[i + 1]);
        }
        lemma_digit_run_at(s.drop_first(), k - 1);
    }
}

/// The index just past the ASCII digits that start at `from`.
fn digits_end(t: &[char], from: usize) -> (e: usize)
    requires
        from <= t.len(),
    ensures
        from <= e <= t.len(),
        digit_run(t@.skip(from as int)) == e - from,
        forall|i: int| from <= i < e ==> is_digit(#[trigger] t@[i]),
{
    let mut e = from;
    while e < t.len() && '0' <= t[e] && t[e] <= '9'
        invariant
            from <= e <= t.len(),
            forall|i: int| from <= i < e ==> is_digit(#[trigger] t@[i]),
        decreases t.len() - e,
    {
        e += 1;
    }
    proof {
        let s = t@.skip(from as int);
        assert forall|i: int| 0 <= i < e - from implies is_digit(#[trigger] s[i]) by {
            assert(s[i] == t@[i + from]);
        }
        if e < t.len() {
            assert(s[e - from] == t@[e as int]);
        }
        lemma_digit_run_at(s, e - from);
    }
    e
}

/// The length of a leading `+` or `-`.
pub open spec fn sign_len(s: Seq<char>) -> nat {
    if s.len() > 0 && (s[0] == '+' || s[0] == '-') {
        1
    } else {
        0
    }
}

/// Infinity or not-a-number, as std's float parser spells them (any case).
pub open spec fn is_special(t: Seq<char>) -> bool {
    eq_ignore_ascii_case(t, "inf"@) || eq_ignore_ascii_case(t, "infinity"@) || eq_ignore_ascii_case(t, "nan"@)
}

/// The parts of an unsigned decimal number in std's float syntax: digits,
/// an optional point and digits (at least one digit in all), and an optional
/// exponent. Gives the digits of the mantissa, how many of them follow the
/// point, and the exponent.
pub open spec fn number_parts(t: Seq<char>) -> Option<(Seq<char>, nat, int)> {
    let a = digit_run(t);
    let has_point = a < t.len() && t[a as int] == '.';
    let b = if has_point {
        digit_run(t.skip(a + 1 as int))
    } else {
        0
    };
    let p = if has_point {
        a + 1 + b
    } else {
        a
    };
    let mantissa = t.take(a as int) + (if has_point {
        t.subrange(a + 1 as int, p as int)
    } else {
        Seq::empty()
    });
    if a + b == 0 {
        None
    } else if p == t.len() {
        Some((mantissa, b, 0))
    } else if t[p as int] == 'e' || t[p as int] == 'E' {
        let q = p + 1;
        let sl = sign_len(t.skip(q as int));
        let xs = t.skip(q + sl as int);
        if xs.len() > 0 && digit_run(xs) == xs.len() {
            Some(
                (
                    mantissa,
                    b,
                    if sl == 1 && t[q as int] == '-' {
                        -(digits_value(xs) as int)
                    } else {
                        digits_value(xs) as int
                    },
                ),
            )
        } else {
            None
        }
    } else {
        None
    }
}

/// How an interval argument reads.
#[derive(Clone, Copy, Debug, PartialEq, Eq, Structural)]
pub enum IntervalValue {
    /// Not a number at all.
    NotNumber,
    /// A number outside 0.25 to 60 seconds.
    OutOfRange,
    /// A number of seconds in range, in nanoseconds.
    Nanos(u64),
}

/// The interval for a positive value `mv * 10^(sh - 9)` seconds: in range
/// from 0.25 to 60 seconds, in nanoseconds rounded to nearest, ties to even.
pub open spec fn scaled_nanos(mv: nat, sh: int) -> IntervalValue {
    if sh >= 0 {
        let n = mv * pow10(sh as nat);
        if 250_000_000 <= n <= 60_000_000_000 {
            IntervalValue::Nanos(n as u64)
        } else {
            IntervalValue::OutOfRange
        }
    } else {
        let d = pow10((-sh) as nat);
        if 250_000_000 * d <= mv && mv <= 60_000_000_000 * d {
            IntervalValue::Nanos(round_even(mv, d) as u64)
        } else {
            IntervalValue::OutOfRange
        }
    }
}

/// What an interval argument gives: a number of seconds in std's float syntax,
/// which must lie between 0.25 and 60 (infinity, not-a-number, negative
/// numbers and zero do not).
pub open spec fn interval_of(v: Seq<char>) -> IntervalValue {
    let t = v.skip(sign_len(v) as int);
    if is_special(t) {
        IntervalValue::OutOfRange
    } else {
        match number_parts(t) {
            None => IntervalValue::NotNumber,
            Some((m, f, e)) => if (v.len() > 0 && v[0] == '-') || digits_value(m) == 0 {
                IntervalValue::OutOfRange
            } else {
                scaled_nanos(digits_value(m), e - f + 9)
            },
        }
    }
}


/// The interval whose nanoseconds have integer part `w` and fractional part
/// `r / d`: in range when `w` is from 0.25 to 60 seconds (60 only exactly),
/// rounded to nearest, ties to even.
pub open spec fn fitted(w: nat, r: nat, d: nat) -> IntervalValue {
    if w >= 250_000_000 && (w < 60_000_000_000 || (w == 60_000_000_000 && r == 0)) {
        IntervalValue::Nanos(round_even(w * d + r, d) as u64)
    } else {
        IntervalValue::OutOfRange
    }
}

proof fn lemma_pow10_values()
    ensures
        pow10(8) == 100_000_000,
        pow10(11) == 100_000_000_000,
{
    reveal_with_fuel(pow10, 12);
}

proof fn lemma_scaled_split(s: Seq<char>, sh: int)
    requires
        digits_only(s),
        s.len() > 0,
        s[0] != '0',
    ensures
        ({
            let t = s.len() + sh;
            &&& (t < 9 || t > 11) ==> scaled_nanos(digits_value(s), sh) == IntervalValue::OutOfRange
            &&& (9 <= t <= 11 && sh >= 0) ==> scaled_nanos(digits_value(s), sh) == fitted(
                digits_value(s) * pow10(sh as nat),
                0,
                1,
            )
            &&& (9 <= t <= 11 && sh < 0) ==> scaled_nanos(digits_value(s), sh) == fitted(
                digits_value(s.take(t)),
                digits_value(s.skip(t)),
                pow10((-sh) as nat),
            )
        }),
{
    let l = s.len();
    let t = l + sh;
    let mv = digits_value(s);
    lemma_digits_bound(s);
    lemma_digits_lead(s);
    lemma_pow10_values();
    if sh >= 0 {
        let e = sh as nat;
        let p = pow10(e);
        lemma_pow10_pos(e);
        let n = mv * p;
        if t <= 8 {
            lemma_pow10_add(l, e);
            lemma_pow10_mono((l + e) as nat, 8);
            assert(mv * p < pow10(l) * p) by (nonlinear_arith)
                requires
                    mv < pow10(l),
                    p >= 1,
            ;
        } else if t >= 12 {
            lemma_pow10_add((l - 1) as nat, e);
            lemma_pow10_mono(11, (l - 1 + e) as nat);
            assert(mv * p >= pow10((l - 1) as nat) * p) by (nonlinear_arith)
                requires
                    mv >= pow10((l - 1) as nat),
                    p >= 1,
            ;
        } else {
            assert(pow10(0) == 1);
            reveal(round_even);
            assert(n * 1 + 0 == n);
        }
    } else {
        let k = (-sh) as nat;
        let d = pow10(k);
        lemma_pow10_pos(k);
        if t <= 8 {
            lemma_pow10_mono(l, 8 + k);
            lemma_pow10_add(8, k);
            assert(mv < 250_000_000 * d);
        } else if t >= 12 {
            lemma_pow10_mono(11 + k, (l - 1) as nat);
            lemma_pow10_add(11, k);
            assert(mv > 60_000_000_000 * d);
        } else {
            let hi = s.take(t);
            let lo = s.skip(t);
            assert(s == hi + lo);
            lemma_digits_concat(hi, lo);
            assert(lo.len() == k);
            assert forall|i: int| 0 <= i < lo.len() implies is_digit(#[trigger] lo[i]) by {
                assert(lo[i] == s[i + t]);
            }
            lemma_digits_bound(lo);
            let w = digits_value(hi);
            let r = digits_value(lo);
            assert(mv == w * d + r);
            assert((250_000_000 * d <= mv) <==> (w >= 250_000_000)) by (nonlinear_arith)
                requires
                    mv == w * d + r,
                    0 <= r < d,
            ;
            assert((mv <= 60_000_000_000 * d) <==> (w < 60_000_000_000 || (w == 60_000_000_000 && r == 0))) by (nonlinear_arith)
                requires
                    mv == w * d + r,
                    0 <= r < d,
            ;
        }
    }
}

proof fn lemma_round_digits(w: nat, r: Seq<char>)
    requires
        digits_only(r),
        r.len() > 0,
    ensures
        ({
            let rest = digits_value(r.skip(1));
            let d = pow10(r.len());
            round_even(w * d + digits_value(r), d) == if r[0] > '5' || (r[0] == '5' && rest > 0) {
                w + 1
            } else if r[0] == '5' {
                w + w % 2
            } else {
                w
            }
        }),
{
    let k = r.len();
    let head = r.take(1);
    let tail = r.skip(1);
    assert(r == head + tail);
    lemma_digits_concat(head, tail);
    assert(digits_value(head.drop_last()) == 0);
    assert(head.last() == r[0]);
    let d0 = digit_value(r[0]);
    let rest = digits_value(tail);
    assert forall|i: int| 0 <= i < tail.len() implies is_digit(#[trigger] tail[i]) by {
        assert(tail[i] == r[i + 1]);
    }
    lemma_digits_bound(tail);
    lemma_digits_bound(r);
    let p = pow10((k - 1) as nat);
    assert(pow10(k) == 10 * p);
    let d = pow10(k);
    let rv = digits_value(r);
    assert(rv == d0 * p + rest);
    assert(is_digit(r[0]));
    assert(d0 <= 9);
    vstd::arithmetic::div_mod::lemma_fundamental_div_mod_converse((w * d + rv) as int, d as int, w as int, rv as int);
    reveal(round_even);
    lemma_pow10_pos((k - 1) as nat);
    assert(d0 > 5 ==> 2 * rv > d) by (nonlinear_arith)
        requires
            rv == d0 * p + rest,
            d == 10 * p,
            rest >= 0,
            p >= 1,
    ;
    assert(d0 < 5 ==> 2 * rv < d) by (nonlinear_arith)
        requires
            rv == d0 * p + rest,
            d == 10 * p,
            rest < p,
    ;
    assert(d0 == 5 ==> (2 * rv == d + 2 * rest)) by (nonlinear_arith)
        requires
            rv == d0 * p + rest,
            d == 10 * p,
    ;
    assert(r[0] > '5' <==> d0 > 5);
    assert(r[0] == '5' <==> d0 == 5);
}


/// Exponents are read up to this magnitude; any larger one puts the value far
/// out of range.
pub open spec fn exponent_cap() -> nat {
    0x4_0000_0000_0000_0000
}

/// The value of at most nineteen digits.
fn small_value(s: &[char]) -> (r: u64)
    requires
        s.len() <= 19,
        digits_only(s@),
    ensures
        r == digits_value(s@),
{
    let mut acc: u64 = 0;
    let mut i: usize = 0;
    while i < s.len()
        invariant
            i <= s.len() <= 19,
            digits_only(s@),
            acc == digits_value(s@.take(i as int)),
        decreases s.len() - i,
    {
        proof {
            let pre = s@.take(i as int);
            assert forall|j: int| 0 <= j < pre.len() implies is_digit(#[trigger] pre[j]) by {
                assert(pre[j] == s@[j]);
            }
            lemma_digits_bound(pre);
            lemma_pow10_mono(i as nat, 18);
            reveal_with_fuel(pow10, 19);
            assert(s@.take(i + 1).drop_last() == pre);
            assert(is_digit(s@[i as int]));
        }
        acc = acc * 10 + (s[i] as u64 - 48);
        i += 1;
    }
    assert(s@.take(s.len() as int) == s@);
    acc
}

/// Whether every character is `0`.
fn all_zeros(s: &[char], from: usize) -> (b: bool)
    requires
        from <= s.len(),
    ensures
        b == forall|i: int| from <= i < s.len() ==> #[trigger] s@[i] == '0',
{
    let mut i = from;
    while i < s.len()
        invariant
            from <= i <= s.len(),
            forall|j: int| from <= j < i ==> #[trigger] s@[j] == '0',
        decreases s.len() - i,
    {
        if s[i] != '0' {
            return false;
        }
        i += 1;
    }
    true
}

/// The interval for the mantissa digits `m`, `f` of them after the point,
/// and an exponent read up to the cap.
fn scaled_value(m: &[char], f: usize, neg_exp: bool, mag: u128, Ghost(e): Ghost<int>) -> (r: IntervalValue)
    requires
        digits_only(m@),
        digits_value(m@) > 0,
        f <= m.len(),
        mag <= exponent_cap(),
        mag < exponent_cap() ==> e == (if neg_exp { -(mag as int) } else { mag as int }),
        mag == exponent_cap() ==> (if neg_exp { e <= -exponent_cap() } else { e >= exponent_cap() }),
    ensures
        r == scaled_nanos(digits_value(m@), e - f + 9),
{
    let mut z: usize = 0;
    while z < m.len() && m[z] == '0'
        invariant
            z <= m.len(),
            forall|j: int| 0 <= j < z ==> #[trigger] m@[j] == '0',
        decreases m.len() - z,
    {
        z += 1;
    }
    let ghost zeros = m@.take(z as int);
    let ghost sig = m@.skip(z as int);
    proof {
        assert(m@ == zeros + sig);
        lemma_digits_concat(zeros, sig);
        assert forall|j: int| 0 <= j < zeros.len() implies is_digit(#[trigger] zeros[j]) by {
            assert(zeros[j] == m@[j]);
        }
        lemma_digits_zero(zeros);
        assert forall|j: int| 0 <= j < zeros.len() implies #[trigger] zeros[j] == '0' by {
            assert(zeros[j] == m@[j]);
        }
        if z == m.len() {
            assert(sig.len() == 0);
            assert(digits_value(sig) == 0);
        }
        assert forall|j: int| 0 <= j < sig.len() implies is_digit(#[trigger] sig[j]) by {
            assert(sig[j] == m@[j + z]);
        }
    }
    assert(z < m.len());
    assert(digits_value(m@) == digits_value(sig));
    let l = m.len() - z;
    let exp: i128 = if neg_exp {
        -(mag as i128)
    } else {
        mag as i128
    };
    let sh: i128 = exp - f as i128 + 9;
    let t: i128 = l as i128 + sh;
    proof {
        lemma_scaled_split(sig, e - f + 9);
    }
    if mag == 0x4_0000_0000_0000_0000u128 || t < 9 || t > 11 {
        return IntervalValue::OutOfRange;
    }
    assert(sh == e - f + 9);
    let tu = t as usize;
    if sh >= 0 {
        let sv = slice_chars(m, z, m.len());
        assert(sv@ == sig);
        let base = small_value(&sv);
        let mut w = base;
        assert(pow10(0) == 1);
        assert(w == digits_value(sig) * pow10(0));
        let mut k: i128 = 0;
        proof {
            lemma_digits_bound(sig);
            lemma_pow10_values();
        }
        while k < sh
            invariant
                0 <= k <= sh <= 11,
                l + sh <= 11,
                w == digits_value(sig) * pow10(k as nat),
                digits_value(sig) < pow10(l as nat),
            decreases sh - k,
        {
            proof {
                lemma_pow10_add(l as nat, k as nat);
                lemma_pow10_mono((l + k) as nat, 10);
                reveal_with_fuel(pow10, 12);
                assert(w < pow10((l + k) as nat)) by (nonlinear_arith)
                    requires
                        w == digits_value(sig) * pow10(k as nat),
                        digits_value(sig) < pow10(l as nat),
                        pow10((l + k) as nat) == pow10(l as nat) * pow10(k as nat),
                        pow10(k as nat) >= 1,
                ;
                assert(pow10((k + 1) as nat) == 10 * pow10(k as nat));
                assert(digits_value(sig) * (10 * pow10(k as nat)) == 10 * (digits_value(sig) * pow10(k as nat))) by (nonlinear_arith);
            }
            w = w * 10;
            k += 1;
        }
        proof {
            reveal(round_even);
        }
        if w >= 250_000_000 && w <= 60_000_000_000 {
            IntervalValue::Nanos(w)
        } else {
            IntervalValue::OutOfRange
        }
    } else {
        let ghost hi = sig.take(t as int);
        let ghost lo = sig.skip(t as int);
        let hv = slice_chars(m, z, z + tu);
        assert(hv@ == hi);
        assert forall|j: int| 0 <= j < hi.len() implies is_digit(#[trigger] hi[j]) by {
            assert(hi[j] == sig[j]);
        }
        let w = small_value(&hv);
        assert forall|j: int| 0 <= j < lo.len() implies is_digit(#[trigger] lo[j]) by {
            assert(lo[j] == sig[j + t]);
        }
        let start = z + tu;
        assert(lo.len() == (-sh) as nat);
        proof {
            lemma_digits_zero(lo);
            lemma_digits_zero(lo.skip(1));
            lemma_round_digits(w as nat, lo);
            assert forall|j: int| 0 <= j < lo.len() implies #[trigger] lo[j] == m@[j + start] by {}
            assert forall|j: int| 0 <= j < lo.skip(1).len() implies #[trigger] lo.skip(1)[j] == m@[j + start + 1] by {}
            assert forall|j: int| 0 <= j < lo.skip(1).len() implies is_digit(#[trigger] lo.skip(1)[j]) by {
                assert(lo.skip(1)[j] == lo[j + 1]);
            }
        }
        let zero_rest = all_zeros(m, start + 1);
        let zero_all = m[start] == '0' && zero_rest;
        proof {
            if zero_all {
                assert forall|j: int| 0 <= j < lo.len() implies #[trigger] lo[j] == '0' by {
                    if j > 0 {
                        assert(m@[j + start] == '0');
                    }
                }
            } else {
                if forall|j: int| 0 <= j < lo.len() ==> #[trigger] lo[j] == '0' {
                    assert(lo[0] == '0');
                    assert forall|j: int| start + 1 <= j < m.len() implies #[trigger] m@[j] == '0' by {
                        assert(lo[j - start] == '0');
                    }
                }
            }
            if zero_rest {
                assert forall|j: int| 0 <= j < lo.skip(1).len() implies #[trigger] lo.skip(1)[j] == '0' by {
                    assert(m@[j + start + 1] == '0');
                }
            } else {
                if forall|j: int| 0 <= j < lo.skip(1).len() ==> #[trigger] lo.skip(1)[j] == '0' {
                    assert forall|j: int| start + 1 <= j < m.len() implies #[trigger] m@[j] == '0' by {
                        assert(lo.skip(1)[j - start - 1] == '0');
                    }
                }
            }
        }
        if !(w >= 250_000_000 && (w < 60_000_000_000 || (w == 60_000_000_000 && zero_all))) {
            return IntervalValue::OutOfRange;
        }
        let first = m[start];
        let bump: u64 = if first > '5' || (first == '5' && !zero_rest) {
            1
        } else if first == '5' {
            w % 2
        } else {
            0
        };
        IntervalValue::Nanos(w + bump)
    }
}


/// Reads the exponent digits `t[from..]`, up to the cap.
fn exponent_magnitude(t: &[char], from: usize) -> (mag: u128)
    requires
        from <= t.len(),
        digits_only(t@.skip(from as int)),
    ensures
        mag == (if digits_value(t@.skip(from as int)) > exponent_cap() {
            exponent_cap()
        } else {
            digits_value(t@.skip(from as int))
        }),
{
    let ghost xs = t@.skip(from as int);
    let mut acc: u128 = 0;
    let mut i = from;
    while i < t.len()
        invariant
            from <= i <= t.len(),
            xs == t@.skip(from as int),
            digits_only(xs),
            acc == (if digits_value(xs.take(i - from)) > exponent_cap() {
                exponent_cap()
            } else {
                digits_value(xs.take(i - from))
            }),
        decreases t.len() - i,
    {
        assert(xs.take(i - from + 1).drop_last() == xs.take(i - from));
        assert(xs.take(i - from + 1).last() == t@[i as int]);
        assert(is_digit(xs[i - from]));
        let d = t[i] as u128 - 48;
        let next = acc * 10 + d;
        acc = if next > 0x4_0000_0000_0000_0000u128 {
            0x4_0000_0000_0000_0000u128
        } else {
            next
        };
        i += 1;
    }
    assert(xs.take(i - from) == xs);
    acc
}

/// The parts of a number in std's float syntax, the exponent read up to the cap.
fn number_parts_of(t: &[char]) -> (r: Option<(Vec<char>, usize, bool, u128)>)
    ensures
        match r {
            None => number_parts(t@) is None,
            Some((m, f, neg, mag)) => number_parts(t@) matches Some((m2, f2, e)) && m@ == m2 && f == f2
                && mag <= exponent_cap()
                && (mag < exponent_cap() ==> e == (if neg { -(mag as int) } else { mag as int }))
                && (mag == exponent_cap() ==> (if neg { e <= -exponent_cap() } else { e >= exponent_cap() })),
        },
{
    let a = digits_end(t, 0);
    assert(t@.skip(0) == t@);
    let has_point = a < t.len() && t[a] == '.';
    let fs: usize = if has_point {
        a + 1
    } else {
        a
    };
    let fe = if has_point {
        digits_end(t, a + 1)
    } else {
        a
    };
    if a + (fe - fs) == 0 {
        return None;
    }
    let mut m = slice_chars(t, 0, a);
    let frac = slice_chars(t, fs, fe);
    append_chars(&mut m, &frac);
    proof {
        if has_point {
            assert(t@.subrange(a + 1, fe as int) == frac@);
        } else {
            assert(frac@ == Seq::<char>::empty());
        }
        assert(t@.take(a as int) == t@.subrange(0, a as int));
    }
    let p = fe;
    if p == t.len() {
        return Some((m, fe - fs, false, 0));
    }
    if !(t[p] == 'e' || t[p] == 'E') {
        return None;
    }
    let q = p + 1;
    let sl: usize = if q < t.len() && (t[q] == '+' || t[q] == '-') {
        1
    } else {
        0
    };
    let neg = sl == 1 && t[q] == '-';
    assert(sl == sign_len(t@.skip(q as int)));
    let xs_start = q + sl;
    if xs_start >= t.len() {
        return None;
    }
    let xe = digits_end(t, xs_start);
    if xe != t.len() {
        return None;
    }
    proof {
        let xs = t@.skip(xs_start as int);
        assert forall|i: int| 0 <= i < xs.len() implies is_digit(#[trigger] xs[i]) by {
            assert(xs[i] == t@[i + xs_start]);
        }
    }
    let mag = exponent_magnitude(t, xs_start);
    Some((m, fe - fs, neg, mag))
}

/// Whether the text is infinity or not-a-number in std's spelling.
fn special(t: &[char]) -> (b: bool)
    ensures
        b == is_special(t@),
{
    same_ignoring_ascii_case(t, &lit("inf")) || same_ignoring_ascii_case(t, &lit("infinity"))
        || same_ignoring_ascii_case(t, &lit("nan"))
}

/// Reads an interval argument: seconds in std's float syntax, between 0.25
/// and 60, in nanoseconds.
pub fn interval_value(v: &[char]) -> (r: IntervalValue)
    ensures
        r == interval_of(v@),
{
    let sl: usize = if v.len() > 0 && (v[0] == '+' || v[0] == '-') {
        1
    } else {
        0
    };
    let t = slice_chars(v, sl, v.len());
    assert(t@ == v@.skip(sign_len(v@) as int));
    if special(&t) {
        return IntervalValue::OutOfRange;
    }
    match number_parts_of(&t) {
        None => IntervalValue::NotNumber,
        Some((m, f, neg_exp, mag)) => {
            let ghost parts = number_parts(t@);
            let ghost e = parts.unwrap().2;
            proof {
                let a = digit_run(t@);
                let has_point = a < t@.len() && t@[a as int] == '.';
                lemma_digit_run_len(t@);
                let u = t@.skip(a + 1 as int);
                lemma_digit_run_len(u);
                let b = if has_point {
                    digit_run(u)
                } else {
                    0
                };
                assert(m@ == t@.take(a as int) + (if has_point {
                    t@.subrange(a + 1 as int, (a + 1 + b) as int)
                } else {
                    Seq::empty()
                }));
                assert forall|i: int| 0 <= i < m@.len() implies is_digit(#[trigger] m@[i]) by {
                    if i < a {
                        lemma_digit_run_prefix(t@, i);
                        assert(m@[i] == t@[i]);
                    } else {
                        assert(has_point);
                        lemma_digit_run_prefix(u, i - a);
                        assert(u[i - a] == t@[i + 1]);
                        assert(m@[i] == t@[i + 1]);
                    }
                }
                lemma_digits_zero(m@);
            }
            if v.len() > 0 && v[0] == '-' {
                return IntervalValue::OutOfRange;
            }
            if all_zeros(&m, 0) {
                return IntervalValue::OutOfRange;
            }
            scaled_value(&m, f, neg_exp, mag, Ghost(e))
        },
    }
}

proof fn lemma_digit_run_len(s: Seq<char>)
    ensures
        digit_run(s) <= s.len(),
    decreases s.len(),
{
    if s.len() > 0 {
        lemma_digit_run_len(s.drop_first());
    }
}

proof fn lemma_digit_run_prefix(s: Seq<char>, i: int)
    requires
        0 <= i < digit_run(s),
    ensures
        i < s.len(),
        is_digit(s[i]),
    decreases i,
{
    lemma_digit_run_len(s);
    if i > 0 {
        lemma_digit_run_prefix(s.drop_first(), i - 1);
        assert(s.drop_first()[i - 1] == s[i]);
    }
}


// ---------------------------------------------------------------------------
// Arguments
// ---------------------------------------------------------------------------

/// What a run shows.
#[derive(Clone, Copy, Debug, PartialEq, Eq, Structural)]
pub struct Config {
    /// Print one diagnosis and exit.
    pub once: bool,
    /// Time between samples, in nanoseconds.
    pub interval_nanos: u64,
    /// How many applications to list.
    pub top: usize,
}

/// The configuration without options: live, every two seconds, ten applications.
pub open spec fn default_config() -> Config {
    Config { once: false, interval_nanos: 2_000_000_000, top: 10 }
}

impl Default for Config {
    fn default() -> (c: Config)
        ensures
            c == default_config(),
    {
        Config { once: false, interval_nanos: 2_000_000_000, top: 10 }
    }
}

/// What the command line asks for.
#[derive(Clone, Copy, Debug, PartialEq, Eq, Structural)]
pub enum Action {
    Run(Config),
    Help,
    Version,
}

/// The result of reading arguments from `c` on.
pub open spec fn parse_from(args: Seq<Seq<char>>, c: Config) -> Result<Action, Seq<char>>
    decreases args.len(),
{
    if args.len() == 0 {
        Ok(Action::Run(c))
    } else {
        let a = args[0];
        let rest = args.drop_first();
        if a == "--once"@ || a == "-1"@ {
            parse_from(rest, Config { once: true, interval_nanos: c.interval_nanos, top: c.top })
        } else if a == "--help"@ || a == "-h"@ {
            Ok(Action::Help)
        } else if a == "--version"@ || a == "-V"@ {
            Ok(Action::Version)
        } else if a == "--interval"@ || a == "-i"@ {
            if rest.len() == 0 {
                Err("--interval requires seconds"@)
            } else {
                match interval_of(rest[0]) {
                    IntervalValue::NotNumber => Err("interval must be a number"@),
                    IntervalValue::OutOfRange => Err("interval must be between 0.25 and 60 seconds"@),
                    IntervalValue::Nanos(n) => parse_from(
                        rest.drop_first(),
                        Config { once: c.once, interval_nanos: n, top: c.top },
                    ),
                }
            }
        } else if a == "--top"@ || a == "-n"@ {
            if rest.len() == 0 {
                Err("--top requires a count"@)
            } else {
                match parse_unsigned(rest[0], usize::MAX as nat) {
                    None => Err("top must be an integer"@),
                    Some(t) => if 1 <= t <= 50 {
                        parse_from(
                            rest.drop_first(),
                            Config { once: c.once, interval_nanos: c.interval_nanos, top: t as usize },
                        )
                    } else {
                        Err("top must be between 1 and 50"@)
                    },
                }
            }
        } else {
            Err("unknown argument: "@ + a)
        }
    }
}

/// What the command-line arguments (without the program name) ask for.
pub open spec fn action_of(args: Seq<Seq<char>>) -> Result<Action, Seq<char>> {
    parse_from(args, default_config())
}

fn is_text(a: &[char], b: &str) -> (r: bool)
    ensures
        r == (a@ == b@),
{
    let bv = lit(b);
    let r = a.len() == bv.len() && starts_with_chars(a, &bv);
    proof {
        if a@.len() == bv@.len() {
            assert(a@.take(bv@.len() as int) == a@);
        }
    }
    r
}

fn error(text: &str) -> (r: Result<Action, String>)
    ensures
        r matches Err(e) && e@ == text@,
{
    Err(string_of(&lit(text)))
}

/// The views of the arguments.
pub open spec fn arg_texts(args: Seq<String>) -> Seq<Seq<char>> {
    args.map_values(|a: String| a@)
}

/// Reads the command-line arguments (without the program name): `--once`,
/// `--interval SECONDS` (0.25 to 60), `--top COUNT` (1 to 50), `--help`,
/// `--version`; later options override earlier ones, and the first error ends
/// the reading.
pub fn parse_args(args: Vec<String>) -> (r: Result<Action, String>)
    ensures
        match (r, action_of(arg_texts(args@))) {
            (Ok(a), Ok(b)) => a == b,
            (Err(e), Err(m)) => e@ == m,
            _ => false,
        },
{
    let ghost all = arg_texts(args@);
    let mut config = Config::default();
    let mut i: usize = 0;
    assert(all.skip(0) == all);
    while i < args.len()
        invariant
            i <= args.len(),
            all == arg_texts(args@),
            action_of(all) == parse_from(all.skip(i as int), config),
        decreases args.len() - i,
    {
        let ghost rest = all.skip(i as int);
        assert(rest[0] == args@[i as int]@);
        assert(rest.drop_first() == all.skip(i + 1));
        let a = chars_of(args[i].as_str());
        if is_text(&a, "--once") || is_text(&a, "-1") {
            config.once = true;
            i += 1;
        } else if is_text(&a, "--help") || is_text(&a, "-h") {
            return Ok(Action::Help);
        } else if is_text(&a, "--version") || is_text(&a, "-V") {
            return Ok(Action::Version);
        } else if is_text(&a, "--interval") || is_text(&a, "-i") {
            if i + 1 >= args.len() {
                return error("--interval requires seconds");
            }
            assert(rest.drop_first()[0] == args@[i + 1]@);
            assert(rest.drop_first().drop_first() == all.skip(i + 2));
            match interval_value(&chars_of(args[i + 1].as_str())) {
                IntervalValue::NotNumber => {
                    return error("interval must be a number");
                },
                IntervalValue::OutOfRange => {
                    return error("interval must be between 0.25 and 60 seconds");
                },
                IntervalValue::Nanos(n) => {
                    config.interval_nanos = n;
                },
            }
            i += 2;
        } else if is_text(&a, "--top") || is_text(&a, "-n") {
            if i + 1 >= args.len() {
                return error("--top requires a count");
            }
            assert(rest.drop_first()[0] == args@[i + 1]@);
            assert(rest.drop_first().drop_first() == all.skip(i + 2));
            match parse_unsigned_chars(&chars_of(args[i + 1].as_str()), usize::MAX as u64) {
                None => {
                    return error("top must be an integer");
                },
                Some(t) => {
                    if !(1 <= t && t <= 50) {
                        return error("top must be between 1 and 50");
                    }
                    config.top = t as usize;
                },
            }
            i += 2;
        } else {
            let mut msg = lit("unknown argument: ");
            append_chars(&mut msg, &a);
            return Err(string_of(&msg));
        }
    }
    assert(all.skip(i as int).len() == 0);
    Ok(Action::Run(config))
}


/// `--help`/`-h` and `--version`/`-V` end the reading: whatever options were
/// read before and whatever follows, the run asks for help or the version.
pub proof fn help_and_version_end_the_reading(flag: Seq<char>, rest: Seq<Seq<char>>, c: Config)
    ensures
        (flag == "--help"@ || flag == "-h"@) ==> parse_from(seq![flag] + rest, c) == Ok::<Action, Seq<char>>(Action::Help),
        (flag == "--version"@ || flag == "-V"@) ==> parse_from(seq![flag] + rest, c) == Ok::<Action, Seq<char>>(Action::Version),
        (flag == "--help"@ || flag == "-h"@ || flag == "--version"@ || flag == "-V"@) ==> (action_of(seq![flag] + rest) is Ok
            && action_of(seq![flag] + rest) == parse_from(seq![flag] + rest, c)),
{
    reveal_strlit("--once");
    reveal_strlit("-1");
    reveal_strlit("--help");
    reveal_strlit("-h");
    reveal_strlit("--version");
    reveal_strlit("-V");
    let args = seq![flag] + rest;
    assert(args[0] == flag);
    assert(args.drop_first() == rest);
    if flag == "--help"@ || flag == "-h"@ || flag == "--version"@ || flag == "-V"@ {
        assert(flag != "--once"@ && flag != "-1"@) by {
            if flag == "--help"@ {
                assert(flag[2] != "--once"@[2]);
            } else if flag == "--version"@ {
                assert(flag[2] != "--once"@[2]);
            } else if flag == "-h"@ {
                assert(flag[1] != "-1"@[1]);
            } else {
                assert(flag[1] != "-1"@[1]);
            }
        }
        if flag == "--version"@ || flag == "-V"@ {
            assert(flag != "--help"@ && flag != "-h"@) by {
                if flag == "--version"@ {
                    assert(flag[2] != "--help"@[2]);
                } else {
                    assert(flag[1] != "-h"@[1]);
                }
            }
        }
    }
}

} // verus!
