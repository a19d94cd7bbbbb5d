//! Timers typed on a line of a note: a stopwatch, countdowns (minutes,
//! `m:ss`, or a time of day), and pomodoros of work and rest.
use vstd::prelude::*;
use vstd::arithmetic::div_mod::{lemma_div_denominator, lemma_fundamental_div_mod, lemma_fundamental_div_mod_converse_div};

use crate::num::{all_digits, digit_value, digits_value, numeral_value, parse_i64_spec, parse_in_range, parse_int};
use crate::num::decimal_text;
use crate::text::{index_of, is_ws, trim};
use chrono::{Datelike, TimeZone, Timelike};

verus! {

// ---------------------------------------------------------------------------
// Decimal minutes
// ---------------------------------------------------------------------------

/// `10^k`.
pub open spec fn pow10(k: nat) -> int
    decreases k,
{
    if k == 0 {
        1
    } else {
        10 * pow10((k - 1) as nat)
    }
}

proof fn lemma_pow10_pos(k: nat)
    ensures
        pow10(k) >= 1,
    decreases k,
{
    if k > 0 {
        lemma_pow10_pos((k - 1) as nat);
    }
}

/// The digits' value, read from the first digit on.
proof fn lemma_first_digit(d: Seq<char>)
    requires
        d.len() >= 1,
        all_digits(d, 10),
    ensures
        digits_value(d, 10) == digit_value(d[0], 10).unwrap() * pow10((d.len() - 1) as nat)
            + digits_value(d.drop_first(), 10),
    decreases d.len(),
{
    assert(digit_value(d[0], 10) is Some);
    if d.len() == 1 {
        assert(d.drop_last().len() == 0);
        assert(d.drop_first().len() == 0);
        assert(digits_value(d.drop_last(), 10) == 0);
        assert(digits_value(d.drop_first(), 10) == 0);
        assert(pow10(0) == 1);
        assert(d.last() == d[0]);
        assert(digits_value(d, 10) == digit_value(d[0], 10).unwrap());
    } else {
        let p = d.drop_last();
        assert(all_digits(p, 10)) by {
            assert forall|i: int| 0 <= i < p.len() implies (#[trigger] digit_value(p[i], 10)) is Some by {
                assert(digit_value(d[i], 10) is Some);
            }
        }
        lemma_first_digit(p);
        assert(p.drop_first() =~= d.drop_first().drop_last());
        assert(d.drop_first().last() == d.last());
        assert(p.last() == d[d.len() - 2]);
        assert(digits_value(d, 10) == digits_value(p, 10) * 10 + digit_value(d.last(), 10).unwrap());
        assert(digits_value(d.drop_first(), 10) == digits_value(d.drop_first().drop_last(), 10) * 10
            + digit_value(d.drop_first().last(), 10).unwrap());
        let v0 = digit_value(d[0], 10).unwrap();
        let x = digits_value(p.drop_first(), 10);
        let q = pow10((p.len() - 1) as nat);
        assert(pow10((d.len() - 1) as nat) == 10 * q);
        assert(p[0] == d[0]);
        assert(digits_value(p, 10) == v0 * q + x);
        assert((v0 * q + x) * 10 == v0 * (10 * q) + x * 10) by (nonlinear_arith);
        assert(digits_value(d.drop_first(), 10) == x * 10 + digit_value(d.last(), 10).unwrap());
    }
}

/// A value of `k` digits lies below `10^k`.
proof fn lemma_digits_below(d: Seq<char>)
    requires
        all_digits(d, 10),
    ensures
        0 <= digits_value(d, 10) < pow10(d.len()),
    decreases d.len(),
{
    if d.len() > 0 {
        let p = d.drop_last();
        assert(all_digits(p, 10)) by {
            assert forall|i: int| 0 <= i < p.len() implies (#[trigger] digit_value(p[i], 10)) is Some by {
                assert(digit_value(d[i], 10) is Some);
            }
        }
        lemma_digits_below(p);
        assert(digit_value(d[d.len() - 1], 10) is Some);
        let v = digits_value(p, 10);
        let x = digit_value(d.last(), 10).unwrap();
        let q = pow10(p.len());
        assert(0 <= v * 10 + x < 10 * q) by (nonlinear_arith)
            requires
                0 <= v < q,
                0 <= x < 10,
        ;
    }
}

/// `(a * p + b) / p == a + b / p`.
proof fn lemma_div_shift(a: int, b: int, p: int)
    requires
        p > 0,
        b >= 0,
    ensures
        (a * p + b) / p == a + b / p,
{
    lemma_fundamental_div_mod(b, p);
    let q = a + b / p;
    let r = b % p;
    assert(a * p + b == q * p + r) by (nonlinear_arith)
        requires
            b == p * (b / p) + r,
            q == a + b / p,
    ;
    lemma_fundamental_div_mod_converse_div(a * p + b, p, q, r);
}

/// A numeral of decimal digits with at most one `.`, and at least one digit:
/// the digits before and after the point.
pub open spec fn decimal_parts(s: Seq<char>) -> Option<(Seq<char>, Seq<char>)> {
    let (i, f) = match crate::text::index_of(s, '.') {
        Some(k) => (s.take(k), s.skip(k + 1)),
        None => (s, Seq::<char>::empty()),
    };
    if all_digits(i, 10) && all_digits(f, 10) && i.len() + f.len() > 0 {
        Some((i, f))
    } else {
        None
    }
}

/// Milliseconds for the minutes `i.f` (digits before and after the point),
/// rounded half up, when they lie strictly between 0 and 100000.
pub open spec fn parts_minutes(i: Seq<char>, f: Seq<char>) -> Option<int> {
    let whole = digits_value(i, 10);
    let frac = digits_value(f, 10);
    let scale = pow10(f.len());
    if (whole > 0 || frac > 0) && whole < 100000 {
        Some((120000 * (whole * scale + frac) + scale) / (2 * scale))
    } else {
        None
    }
}

/// `n` zeros.
pub open spec fn zeros(n: nat) -> Seq<char> {
    Seq::new(n, |_i: int| '0')
}

/// The digits `d` with the point after the first `p` of them (before them
/// when `p` is negative, after zeros appended when `p` passes the end): the
/// digits before and after the point.
pub open spec fn point_at(d: Seq<char>, p: int) -> (Seq<char>, Seq<char>) {
    if p >= d.len() {
        (d + zeros((p - d.len()) as nat), Seq::empty())
    } else if p <= 0 {
        (Seq::empty(), zeros((-p) as nat) + d)
    } else {
        (d.take(p), d.skip(p))
    }
}

/// The text `s` with `,` read as `.` and `E` as `e`.
pub open spec fn normalized(s: Seq<char>) -> Seq<char> {
    s.map_values(|c: char| if c == ',' { '.' } else if c == 'E' { 'e' } else { c })
}

/// Minutes written as a decimal number (a `.` or `,` before the fraction,
/// an optional `+`, an optional exponent `e` or `E` with an optional sign),
/// in milliseconds rounded half up, when they lie strictly between 0 and
/// 100000.
pub open spec fn decimal_minutes(t: Seq<char>) -> Option<int> {
    let s = normalized(t);
    let body = if s.len() > 0 && s[0] == '+' { s.drop_first() } else { s };
    let (m, e) = match index_of(body, 'e') {
        Some(k) => (body.take(k), numeral_value(body.skip(k + 1), 10, true)),
        None => (body, Some(0int)),
    };
    match (decimal_parts(m), e) {
        (Some((i, f)), Some(x)) => {
            let (i2, f2) = point_at(i + f, i.len() + x);
            parts_minutes(i2, f2)
        },
        _ => None,
    }
}

/// `floor(120000 * 0.f)` for the fraction digits `f`.
fn frac_carry(f: &[char]) -> (c: u64)
    requires
        all_digits(f@, 10),
    ensures
        c == (120000 * digits_value(f@, 10)) / pow10(f@.len()),
        c < 120000,
{
    let mut c: u64 = 0;
    let mut i = f.len();
    proof {
        assert(f@.skip(i as int).len() == 0);
    }
    while i > 0
        invariant
            i <= f@.len(),
            all_digits(f@, 10),
            c < 120000,
            c == (120000 * digits_value(f@.skip(i as int), 10)) / pow10((f@.len() - i) as nat),
        decreases i,
    {
        i = i - 1;
        assert(digit_value(f@[i as int], 10) is Some);
        let d = (f[i] as u32 - 0x30) as u64;
        let ghost rest = f@.skip(i as int + 1);
        let ghost whole = f@.skip(i as int);
        proof {
            assert(whole.drop_first() =~= rest);
            assert(whole[0] == f@[i as int]);
            assert(all_digits(whole, 10)) by {
                assert forall|k: int| 0 <= k < whole.len() implies (#[trigger] digit_value(whole[k], 10)) is Some by {
                    assert(digit_value(f@[i + k], 10) is Some);
                }
            }
            assert(all_digits(rest, 10)) by {
                assert forall|k: int| 0 <= k < rest.len() implies (#[trigger] digit_value(rest[k], 10)) is Some by {
                    assert(digit_value(f@[i + 1 + k], 10) is Some);
                }
            }
            lemma_first_digit(whole);
            lemma_digits_below(rest);
            let p = pow10(rest.len());
            lemma_pow10_pos(rest.len());
            let v = digits_value(rest, 10);
            assert(rest.len() == f@.len() - i - 1);
            assert(pow10((f@.len() - i) as nat) == 10 * p);
            assert(digits_value(whole, 10) == d * p + v);
            let x = 120000 * (d * p + v);
            assert(x == (120000 * d) * p + 120000 * v) by (nonlinear_arith)
                requires
                    x == 120000 * (d * p + v),
            ;
            assert(x >= 0 && 120000 * v >= 0) by (nonlinear_arith)
                requires
                    v >= 0,
                    p > 0,
                    d >= 0,
                    x == 120000 * (d * p + v),
            ;
            lemma_div_denominator(x, p, 10);
            lemma_div_shift(120000 * d, 120000 * v, p);
            assert(p * 10 == 10 * p);
        }
        c = (120000 * d + c) / 10;
    }
    proof {
        assert(f@.skip(0) =~= f@);
    }
    c
}

/// Digits whose value is zero are all `0`.
proof fn lemma_digits_zero(d: Seq<char>)
    requires
        all_digits(d, 10),
    ensures
        digits_value(d, 10) == 0 <==> forall|i: int| 0 <= i < d.len() ==> d[i] as u32 == 0x30,
    decreases d.len(),
{
    if d.len() > 0 {
        let p = d.drop_last();
        assert(all_digits(p, 10)) by {
            assert forall|i: int| 0 <= i < p.len() implies (#[trigger] digit_value(p[i], 10)) is Some by {
                assert(digit_value(d[i], 10) is Some);
            }
        }
        lemma_digits_zero(p);
        lemma_digits_below(p);
        assert(digit_value(d[d.len() - 1], 10) is Some);
        let v = digits_value(p, 10);
        let x = digit_value(d.last(), 10).unwrap();
        assert(v * 10 + x == 0 <==> v == 0 && x == 0) by (nonlinear_arith)
            requires
                v >= 0,
                0 <= x,
        ;
        if forall|i: int| 0 <= i < d.len() ==> d[i] as u32 == 0x30 {
            assert forall|i: int| 0 <= i < p.len() implies p[i] as u32 == 0x30 by {
                assert(d[i] as u32 == 0x30);
            }
            assert(d[d.len() - 1] as u32 == 0x30);
        }
        if digits_value(d, 10) == 0 {
            assert(x == 0);
            assert forall|i: int| 0 <= i < d.len() implies d[i] as u32 == 0x30 by {
                if i < d.len() - 1 {
                    assert(p[i] as u32 == 0x30);
                }
            }
        }
    }
}

/// Whether every character is a decimal digit.
fn all_decimal(s: &[char]) -> (r: bool)
    ensures
        r == all_digits(s@, 10),
{
    let mut i: usize = 0;
    while i < s.len()
        invariant
            i <= s@.len(),
            forall|k: int| 0 <= k < i ==> (#[trigger] digit_value(s@[k], 10)) is Some,
        decreases s@.len() - i,
    {
        let u = s[i] as u32;
        if !(0x30 <= u && u <= 0x39) {
            assert(digit_value(s@[i as int], 10) is None);
            return false;
        }
        i = i + 1;
    }
    true
}

/// Whether some character is not `0`.
fn any_nonzero(s: &[char]) -> (r: bool)
    ensures
        r == exists|i: int| 0 <= i < s@.len() && s@[i] as u32 != 0x30,
{
    let mut i: usize = 0;
    while i < s.len()
        invariant
            i <= s@.len(),
            forall|k: int| 0 <= k < i ==> s@[k] as u32 == 0x30,
        decreases s@.len() - i,
    {
        if s[i] as u32 != 0x30 {
            return true;
        }
        i = i + 1;
    }
    false
}

/// `s` with every `,` made a `.` and every `E` an `e`.
fn normalize(s: &[char]) -> (r: Vec<char>)
    ensures
        r@ == normalized(s@),
{
    let mut r: Vec<char> = Vec::new();
    let mut i: usize = 0;
    while i < s.len()
        invariant
            i <= s@.len(),
            r@ == normalized(s@.take(i as int)),
        decreases s@.len() - i,
    {
        r.push(if s[i] == ',' { '.' } else if s[i] == 'E' { 'e' } else { s[i] });
        i = i + 1;
        assert(r@ =~= normalized(s@.take(i as int)));
    }
    assert(s@.take(s@.len() as int) =~= s@);
    r
}

/// `round(60000 * (w + n / sc))`, half up, from `floor(120000 * n / sc)`.
proof fn lemma_minutes_ms(w: int, n: int, sc: int, c: int)
    requires
        w >= 0,
        n >= 0,
        sc >= 1,
        c == (120000 * n) / sc,
    ensures
        (120000 * (w * sc + n) + sc) / (2 * sc) == w * 60000 + (c + 1) / 2,
{
    assert(120000 * n >= 0) by (nonlinear_arith)
        requires
            n >= 0,
    ;
    let x = 120000 * (w * sc + n) + sc;
    assert(x == (60000 * w) * (2 * sc) + (120000 * n + sc)) by (nonlinear_arith)
        requires
            x == 120000 * (w * sc + n) + sc,
    ;
    lemma_div_shift(60000 * w, 120000 * n + sc, 2 * sc);
    lemma_div_denominator(120000 * n + sc, sc, 2);
    assert(1 * sc + 120000 * n == 120000 * n + sc);
    lemma_div_shift(1, 120000 * n, sc);
    assert(sc * 2 == 2 * sc);
}

/// The digits before and after the point of a decimal numeral.
fn split_decimal(body: &[char]) -> (r: Option<(Vec<char>, Vec<char>)>)
    ensures
        match decimal_parts(body@) {
            Some((i, f)) => r matches Some((ip, fp)) && ip@ == i && fp@ == f,
            None => r is None,
        },
{
    proof {
        crate::text::lemma_index_of_props(body@, '.');
    }
    let (ip, fp) = match crate::text::find_char(body, 0, body.len(), '.') {
        Some(k) => (
            crate::text::copy_range(body, 0, k),
            crate::text::copy_range(body, k + 1, body.len()),
        ),
        None => (crate::text::copy_range(body, 0, body.len()), Vec::new()),
    };
    assert(ip@ =~= match crate::text::index_of(body@, '.') { Some(k) => body@.take(k), None => body@ });
    assert(fp@ =~= match crate::text::index_of(body@, '.') { Some(k) => body@.skip(k + 1), None => Seq::<char>::empty() });
    if !all_decimal(ip.as_slice()) || !all_decimal(fp.as_slice()) || ip.len() + fp.len() == 0 {
        return None;
    }
    Some((ip, fp))
}

/// The milliseconds of `parts_minutes` for digits before and after the point.
fn parts_ms(ip: &[char], fp: &[char]) -> (r: Option<i64>)
    requires
        all_digits(ip@, 10),
        all_digits(fp@, 10),
    ensures
        match parts_minutes(ip@, fp@) {
            Some(v) => r == Some(v as i64) && 0 <= v <= 6_000_000_000,
            None => r is None,
        },
{
    proof {
        lemma_digits_below(ip@);
        lemma_digits_below(fp@);
        lemma_digits_zero(fp@);
        lemma_pow10_pos(fp@.len());
    }
    let whole: u64 = if ip.len() == 0 {
        0
    } else {
        assert(digit_value(ip@[0], 10) is Some);
        match parse_int(ip, 10, false, 0, 99999) {
            Some(v) => v as u64,
            None => {
                return None;
            },
        }
    };
    let frac_pos = any_nonzero(fp);
    if !(whole > 0 || frac_pos) {
        return None;
    }
    let c = frac_carry(fp);
    let ms = whole * 60000 + (c + 1) / 2;
    proof {
        lemma_minutes_ms(whole as int, digits_value(fp@, 10), pow10(fp@.len()), c as int);
    }
    Some(ms as i64)
}

/// `10^(a + b) == 10^a * 10^b`.
proof fn lemma_pow10_add(a: nat, b: nat)
    ensures
        pow10(a + b) == pow10(a) * pow10(b),
    decreases a,
{
    if a > 0 {
        lemma_pow10_add((a - 1) as nat, b);
        assert(((a + b) - 1) as nat == ((a - 1) as nat + b) as nat);
        let x = pow10((a - 1) as nat);
        let y = pow10(b);
        assert(10 * (x * y) == (10 * x) * y) by (nonlinear_arith);
    }
}

/// `10^k >= 10^5` (or `10^6`) once `k` is that large.
proof fn lemma_pow10_at_least(k: nat, j: nat)
    requires
        j <= k,
    ensures
        pow10(k) >= pow10(j),
{
    lemma_pow10_add(j, (k - j) as nat);
    lemma_pow10_pos(j);
    lemma_pow10_pos((k - j) as nat);
    assert((j + (k - j)) as nat == k);
    let x = pow10(j);
    let y = pow10((k - j) as nat);
    assert(x * y >= x) by (nonlinear_arith)
        requires
            x >= 1,
            y >= 1,
    ;
}

/// Digits with `k` zeros appended: the value times `10^k`.
proof fn lemma_append_zeros(d: Seq<char>, k: nat)
    requires
        all_digits(d, 10),
    ensures
        all_digits(d + zeros(k), 10),
        digits_value(d + zeros(k), 10) == digits_value(d, 10) * pow10(k),
    decreases k,
{
    let e = d + zeros(k);
    assert(all_digits(e, 10)) by {
        assert forall|i: int| 0 <= i < e.len() implies (#[trigger] digit_value(e[i], 10)) is Some by {
            if i < d.len() {
                assert(e[i] == d[i]);
            } else {
                assert(e[i] == '0');
            }
        }
    }
    if k == 0 {
        assert(e =~= d);
    } else {
        lemma_append_zeros(d, (k - 1) as nat);
        assert(e.drop_last() =~= d + zeros((k - 1) as nat));
        assert(e.last() == '0');
        let v = digits_value(d, 10);
        let q = pow10((k - 1) as nat);
        assert((v * q) * 10 == v * (10 * q)) by (nonlinear_arith);
    }
}

/// Zeros before digits leave their value.
proof fn lemma_prepend_zeros(k: nat, d: Seq<char>)
    requires
        all_digits(d, 10),
    ensures
        all_digits(zeros(k) + d, 10),
        digits_value(zeros(k) + d, 10) == digits_value(d, 10),
    decreases d.len(),
{
    let e = zeros(k) + d;
    assert(all_digits(e, 10)) by {
        assert forall|i: int| 0 <= i < e.len() implies (#[trigger] digit_value(e[i], 10)) is Some by {
            if i < k {
                assert(e[i] == '0');
            } else {
                assert(e[i] == d[i - k]);
            }
        }
    }
    if d.len() == 0 {
        assert(e =~= zeros(k));
        lemma_digits_zero(e);
        assert forall|i: int| 0 <= i < e.len() implies e[i] as u32 == 0x30 by {
            assert(e[i] == '0');
        }
    } else {
        let p = d.drop_last();
        assert(all_digits(p, 10)) by {
            assert forall|i: int| 0 <= i < p.len() implies (#[trigger] digit_value(p[i], 10)) is Some by {
                assert(digit_value(d[i], 10) is Some);
            }
        }
        lemma_prepend_zeros(k, p);
        assert(e.drop_last() =~= zeros(k) + p);
        assert(e.last() == d.last());
    }
}

/// Digits keep being digits when cut.
proof fn lemma_digits_cut(d: Seq<char>, p: int)
    requires
        all_digits(d, 10),
        0 <= p <= d.len(),
    ensures
        all_digits(d.take(p), 10),
        all_digits(d.skip(p), 10),
{
    assert forall|i: int| 0 <= i < d.take(p).len() implies (#[trigger] digit_value(d.take(p)[i], 10)) is Some by {
        assert(d.take(p)[i] == d[i]);
    }
    assert forall|i: int| 0 <= i < d.skip(p).len() implies (#[trigger] digit_value(d.skip(p)[i], 10)) is Some by {
        assert(d.skip(p)[i] == d[p + i]);
    }
}

/// With the point five or more places past the digits, the minutes are
/// 0 or at least 100000.
proof fn lemma_point_far_right(d: Seq<char>, p: int)
    requires
        all_digits(d, 10),
        p - d.len() >= 5,
    ensures
        parts_minutes(point_at(d, p).0, point_at(d, p).1) is None,
{
    let k = (p - d.len()) as nat;
    lemma_append_zeros(d, k);
    lemma_digits_below(d);
    lemma_pow10_at_least(k, 5);
    reveal_with_fuel(pow10, 6);
    let v = digits_value(d, 10);
    let q = pow10(k);
    assert((v == 0 && v * q == 0) || v * q >= 100000) by (nonlinear_arith)
        requires
            v >= 0,
            q >= 100000,
    ;
    let (a, b) = point_at(d, p);
    assert(a == d + zeros(k));
    assert(b =~= Seq::<char>::empty());
    assert(digits_value(b, 10) == 0);
}

/// With six or more zeros after the point, the minutes round to nothing.
proof fn lemma_point_far_left(d: Seq<char>, p: int)
    requires
        all_digits(d, 10),
        p <= -6,
    ensures
        parts_minutes(point_at(d, p).0, point_at(d, p).1) == if digits_value(d, 10) == 0 {
            None
        } else {
            Some(0int)
        },
{
    let k = (-p) as nat;
    lemma_prepend_zeros(k, d);
    lemma_digits_below(d);
    lemma_pow10_at_least(k, 6);
    lemma_pow10_add(k, d.len());
    lemma_pow10_pos(d.len());
    reveal_with_fuel(pow10, 7);
    let v = digits_value(d, 10);
    let a = pow10(k);
    let b = pow10(d.len());
    let sc = pow10((zeros(k) + d).len());
    assert((zeros(k) + d).len() == k + d.len());
    assert(sc == a * b);
    assert(digits_value(Seq::<char>::empty(), 10) == 0);
    assert(0 <= 120000 * (0 * sc + v) + sc < 2 * sc) by (nonlinear_arith)
        requires
            0 <= v < b,
            a >= 1000000,
            b >= 1,
            sc == a * b,
    ;
    vstd::arithmetic::div_mod::lemma_basic_div(120000 * (0 * sc + v) + sc, 2 * sc);
}

/// Without an exponent the point stays where it was written.
proof fn lemma_point_in_place(i: Seq<char>, f: Seq<char>)
    ensures
        point_at(i + f, i.len() as int) == (i, f),
{
    let d = i + f;
    if i.len() >= d.len() {
        assert(f.len() == 0);
        assert(d + zeros(0) =~= i);
        assert(f =~= Seq::<char>::empty());
    } else if i.len() == 0 {
        assert(zeros(0) + d =~= f);
    } else {
        assert(d.take(i.len() as int) =~= i);
        assert(d.skip(i.len() as int) =~= f);
    }
}

/// The largest exponent magnitude told apart from larger ones.
pub open spec fn exponent_cap() -> int {
    0x10_0000_0000_0000_0000_0000_0000
}

/// The value of the digits `d`, or the cap if that is smaller.
fn capped_value(d: &[char]) -> (r: u128)
    requires
        all_digits(d@, 10),
    ensures
        r as int == if digits_value(d@, 10) < exponent_cap() {
            digits_value(d@, 10)
        } else {
            exponent_cap()
        },
{
    let cap: u128 = 0x10_0000_0000_0000_0000_0000_0000;
    let mut acc: u128 = 0;
    let mut i: usize = 0;
    assert(d@.take(0) =~= Seq::<char>::empty());
    while i < d.len()
        invariant
            i <= d@.len(),
            all_digits(d@, 10),
            cap as int == exponent_cap(),
            acc as int == if digits_value(d@.take(i as int), 10) < exponent_cap() {
                digits_value(d@.take(i as int), 10)
            } else {
                exponent_cap()
            },
        decreases d@.len() - i,
    {
        assert(digit_value(d@[i as int], 10) is Some);
        let x = (d[i] as u32 - 0x30) as u128;
        let ghost before = digits_value(d@.take(i as int), 10);
        proof {
            assert(d@.take(i + 1).drop_last() =~= d@.take(i as int));
            assert(d@.take(i + 1).last() == d@[i as int]);
            assert(all_digits(d@.take(i as int), 10)) by {
                lemma_digits_cut(d@, i as int);
            }
            lemma_digits_below(d@.take(i as int));
        }
        let next = acc * 10 + x;
        acc = if next < cap { next } else { cap };
        i = i + 1;
    }
    assert(d@.take(d@.len() as int) =~= d@);
    acc
}

/// `a` followed by `b`.
fn concat(a: &[char], b: &[char]) -> (r: Vec<char>)
    ensures
        r@ == a@ + b@,
{
    let mut r = crate::text::copy_range(a, 0, a.len());
    assert(a@.subrange(0, a@.len() as int) =~= a@);
    crate::text::push_all(&mut r, b);
    r
}

/// `n` zeros.
fn zeros_vec(n: usize) -> (r: Vec<char>)
    ensures
        r@ == zeros(n as nat),
{
    let mut r: Vec<char> = Vec::new();
    let mut i: usize = 0;
    while i < n
        invariant
            i <= n,
            r@ == zeros(i as nat),
        decreases n - i,
    {
        r.push('0');
        i = i + 1;
        assert(r@ =~= zeros(i as nat));
    }
    r
}

/// Milliseconds for the digits `d` with the point after the first `p`.
fn shifted_ms(d: &[char], p: i128) -> (r: Option<i64>)
    requires
        all_digits(d@, 10),
        -6 < p,
        p - d@.len() < 5,
    ensures
        match parts_minutes(point_at(d@, p as int).0, point_at(d@, p as int).1) {
            Some(v) => r == Some(v as i64) && 0 <= v <= 6_000_000_000,
            None => r is None,
        },
{
    let l = d.len() as i128;
    if p >= l {
        let i2 = concat(d, zeros_vec((p - l) as usize).as_slice());
        proof {
            lemma_append_zeros(d@, (p - l) as nat);
        }
        parts_ms(i2.as_slice(), &[])
    } else if p <= 0 {
        let f2 = concat(zeros_vec((-p) as usize).as_slice(), d);
        proof {
            lemma_prepend_zeros((-p) as nat, d@);
        }
        parts_ms(&[], f2.as_slice())
    } else {
        let i2 = crate::text::copy_range(d, 0, p as usize);
        let f2 = crate::text::copy_range(d, p as usize, d.len());
        proof {
            lemma_digits_cut(d@, p as int);
            assert(i2@ =~= d@.take(p as int));
            assert(f2@ =~= d@.skip(p as int));
        }
        parts_ms(i2.as_slice(), f2.as_slice())
    }
}

/// Whether `x` is a numeral (an optional sign, then at least one digit):
/// its sign and its magnitude, capped.
fn exponent_parts(x: &[char]) -> (r: Option<(bool, u128)>)
    ensures
        match numeral_value(x@, 10, true) {
            Some(v) => r matches Some((neg, c)) && (neg ==> v <= 0) && (!neg ==> v >= 0) && c as int == if (
            if neg { -v } else { v }) < exponent_cap() {
                if neg { -v } else { v }
            } else {
                exponent_cap()
            },
            None => r is None,
        },
{
    if x.len() == 0 {
        return None;
    }
    let signed = x[0] == '+' || x[0] == '-';
    if signed && x.len() == 1 {
        return None;
    }
    let start: usize = if signed { 1 } else { 0 };
    let digits = crate::text::copy_range(x, start, x.len());
    assert(digits@ =~= if signed { x@.drop_first() } else { x@ });
    if !all_decimal(digits.as_slice()) {
        return None;
    }
    proof {
        lemma_digits_below(digits@);
    }
    Some((x[0] == '-', capped_value(digits.as_slice())))
}

/// Minutes as a decimal number, in milliseconds.
fn decimal_ms(t: &[char]) -> (r: Option<i64>)
    ensures
        match decimal_minutes(t@) {
            Some(v) => r == Some(v as i64) && 0 <= v <= 6_000_000_000,
            None => r is None,
        },
{
    let s = normalize(t);
    let start: usize = if s.len() > 0 && s[0] == '+' { 1 } else { 0 };
    let body = crate::text::copy_range(s.as_slice(), start, s.len());
    assert(body@ =~= (if s@.len() > 0 && s@[0] == '+' { s@.drop_first() } else { s@ }));
    proof {
        crate::text::lemma_index_of_props(body@, 'e');
    }
    let (m, xs) = match crate::text::find_char(body.as_slice(), 0, body.len(), 'e') {
        Some(k) => (
            crate::text::copy_range(body.as_slice(), 0, k),
            Some(crate::text::copy_range(body.as_slice(), k + 1, body.len())),
        ),
        None => (crate::text::copy_range(body.as_slice(), 0, body.len()), None),
    };
    assert(m@ =~= match index_of(body@, 'e') { Some(k) => body@.take(k), None => body@ });
    let (ip, fp) = match split_decimal(m.as_slice()) {
        Some(parts) => parts,
        None => {
            return None;
        },
    };
    let d = concat(ip.as_slice(), fp.as_slice());
    let ghost dd = ip@ + fp@;
    proof {
        assert(all_digits(dd, 10)) by {
            assert forall|j: int| 0 <= j < dd.len() implies (#[trigger] digit_value(dd[j], 10)) is Some by {
                if j < ip@.len() {
                    assert(dd[j] == ip@[j]);
                } else {
                    assert(dd[j] == fp@[j - ip@.len()]);
                }
            }
        }
        lemma_digits_zero(dd);
    }
    let li = ip.len() as i128;
    let l = d.len() as i128;
    let x: i128 = match xs {
        None => {
            proof {
                lemma_point_in_place(ip@, fp@);
            }
            0
        },
        Some(xs) => {
            assert(xs@ =~= body@.skip(index_of(body@, 'e').unwrap() + 1));
            match exponent_parts(xs.as_slice()) {
                None => {
                    return None;
                },
                Some((neg, c)) => {
                    if c == 0x10_0000_0000_0000_0000_0000_0000u128 {
                        let ghost v = numeral_value(xs@, 10, true).unwrap();
                        if neg {
                            proof {
                                lemma_point_far_left(dd, ip@.len() + v);
                            }
                            return if any_nonzero(d.as_slice()) { Some(0) } else { None };
                        } else {
                            proof {
                                lemma_point_far_right(dd, ip@.len() + v);
                            }
                            return None;
                        }
                    }
                    if neg { -(c as i128) } else { c as i128 }
                },
            }
        },
    };
    let p = li + x;
    if p - l >= 5 {
        proof {
            lemma_point_far_right(dd, p as int);
        }
        return None;
    }
    if p <= -6 {
        proof {
            lemma_point_far_left(dd, p as int);
        }
        return if any_nonzero(d.as_slice()) { Some(0) } else { None };
    }
    shifted_ms(d.as_slice(), p)
}

// ---------------------------------------------------------------------------
// The command grammar
// ---------------------------------------------------------------------------

/// A timer command.
#[derive(Debug, Clone, PartialEq)]
pub enum Command {
    Stopwatch { title: String },
    Countdown { ms: i64, title: String },
    Pomodoro { work_ms: i64, rest_ms: i64, title: String },
    Pause,
    Restart,
    Stop,
}

/// A command with its texts as character sequences.
pub enum CommandView {
    Stopwatch(Seq<char>),
    Countdown(int, Seq<char>),
    Pomodoro(int, int, Seq<char>),
    Pause,
    Restart,
    Stop,
}

impl View for Command {
    type V = CommandView;

    open spec fn view(&self) -> CommandView {
        match self {
            Command::Stopwatch { title } => CommandView::Stopwatch(title@),
            Command::Countdown { ms, title } => CommandView::Countdown(*ms as int, title@),
            Command::Pomodoro { work_ms, rest_ms, title } => CommandView::Pomodoro(
                *work_ms as int,
                *rest_ms as int,
                title@,
            ),
            Command::Pause => CommandView::Pause,
            Command::Restart => CommandView::Restart,
            Command::Stop => CommandView::Stop,
        }
    }
}

/// What a line asks for, before any clock is read: a command, a countdown to
/// a time of day (hour and minute), or nothing.
pub enum Plan {
    Run(Command),
    At { hour: u32, minute: u32, title: String },
    Invalid,
}

pub enum PlanView {
    Run(CommandView),
    At(u32, u32, Seq<char>),
    Invalid,
}

impl View for Plan {
    type V = PlanView;

    open spec fn view(&self) -> PlanView {
        match self {
            Plan::Run(c) => PlanView::Run(c@),
            Plan::At { hour, minute, title } => PlanView::At(*hour, *minute, title@),
            Plan::Invalid => PlanView::Invalid,
        }
    }
}

/// ASCII letters made lowercase, other characters kept.
pub open spec fn ascii_lower(c: char) -> char {
    if 0x41 <= c as u32 <= 0x5A {
        ((c as u32) + 32) as char
    } else {
        c
    }
}

pub open spec fn lower(s: Seq<char>) -> Seq<char> {
    s.map_values(|c: char| ascii_lower(c))
}

/// Where the run of non-white-space characters that starts at `i` ends.
pub open spec fn word_end(s: Seq<char>, i: int) -> int
    decreases s.len() - i,
{
    if i < 0 || i >= s.len() || is_ws(s[i]) {
        i
    } else {
        word_end(s, i + 1)
    }
}

pub proof fn lemma_word_end(s: Seq<char>, i: int)
    requires
        0 <= i <= s.len(),
    ensures
        i <= word_end(s, i) <= s.len(),
        forall|k: int| i <= k < word_end(s, i) ==> !is_ws(#[trigger] s[k]),
        word_end(s, i) < s.len() ==> is_ws(s[word_end(s, i)]),
    decreases s.len() - i,
{
    if i < s.len() && !is_ws(s[i]) {
        lemma_word_end(s, i + 1);
    }
}

/// The words of `s` from index `i` on (`str::split_whitespace`).
pub open spec fn words_from(s: Seq<char>, i: int) -> Seq<Seq<char>>
    decreases s.len() - i, 1int,
{
    if i < 0 || i >= s.len() {
        Seq::empty()
    } else if is_ws(s[i]) {
        words_from(s, i + 1)
    } else {
        word_then(s, i)
    }
}

/// The word that starts at `i`, then the words after it.
pub open spec fn word_then(s: Seq<char>, i: int) -> Seq<Seq<char>>
    decreases s.len() - i, 0int,
{
    if 0 <= i < s.len() && !is_ws(s[i]) {
        proof {
            lemma_word_end(s, i + 1);
        }
        seq![s.subrange(i, word_end(s, i + 1))] + words_from(s, word_end(s, i + 1))
    } else {
        Seq::empty()
    }
}

pub open spec fn words(s: Seq<char>) -> Seq<Seq<char>> {
    words_from(s, 0)
}

/// Whether `s[i]` is the colon that starts a title: one not followed by an
/// ASCII digit.
pub open spec fn title_colon_at(s: Seq<char>, i: int) -> bool {
    s[i] == ':' && !(i + 1 < s.len() && 0x30 <= s[i + 1] as u32 <= 0x39)
}

/// The first title colon at or after `i`.
pub open spec fn title_colon(s: Seq<char>, i: int) -> Option<int>
    decreases s.len() - i,
{
    if i < 0 || i >= s.len() {
        None
    } else if title_colon_at(s, i) {
        Some(i)
    } else {
        title_colon(s, i + 1)
    }
}

/// The arguments and the title: the title is the trimmed text after the
/// first colon that no digit follows.
pub open spec fn split_title(s: Seq<char>) -> (Seq<char>, Seq<char>) {
    match title_colon(s, 0) {
        Some(i) => (s.take(i), trim(s.skip(i + 1))),
        None => (s, Seq::empty()),
    }
}

/// `u32::from_str`.
pub open spec fn parse_u32_spec(s: Seq<char>) -> Option<int> {
    parse_in_range(s, 10, false, 0, u32::MAX as int)
}

/// Minutes: `m:ss` (whole minutes and seconds below 60), or a decimal
/// number of minutes; in milliseconds.
pub open spec fn minutes_spec(t: Seq<char>) -> Option<int> {
    match index_of(t, ':') {
        Some(i) => match (parse_i64_spec(t.take(i)), parse_i64_spec(t.skip(i + 1))) {
            (Some(m), Some(sec)) => if sec < 60 {
                Some((m * 60 + sec) * 1000)
            } else {
                None
            },
            _ => None,
        },
        None => decimal_minutes(t),
    }
}

pub open spec fn fits_i64(v: int) -> bool {
    i64::MIN <= v <= i64::MAX
}

/// Whether reading `t` as `m:ss` overflows `i64` on the way.
pub open spec fn minutes_overflow(t: Seq<char>) -> bool {
    match index_of(t, ':') {
        Some(i) => match (parse_i64_spec(t.take(i)), parse_i64_spec(t.skip(i + 1))) {
            (Some(m), Some(sec)) => sec < 60 && !(fits_i64(m * 60) && fits_i64(m * 60 + sec) && fits_i64(
                (m * 60 + sec) * 1000,
            )),
            _ => false,
        },
        None => false,
    }
}

/// The hour as a 12-hour clock gives it, with `pm` after noon.
pub open spec fn clock_hour(h: int, pm: Option<bool>) -> int {
    match pm {
        Some(true) => if h < 12 {
            h + 12
        } else {
            h
        },
        Some(false) => if h == 12 {
            0
        } else {
            h
        },
        None => h,
    }
}

/// A countdown to the time of day `c` (`h` or `h:mm`).
pub open spec fn clock_plan(c: Seq<char>, pm: Option<bool>, title: Seq<char>) -> PlanView {
    let hm = match index_of(c, ':') {
        Some(i) => (parse_u32_spec(c.take(i)), parse_u32_spec(c.skip(i + 1))),
        None => (parse_u32_spec(c), Some(0int)),
    };
    match hm {
        (Some(h), Some(m)) => {
            let h2 = clock_hour(h, pm);
            if h2 < 24 && m < 60 {
                PlanView::At(h2 as u32, m as u32, title)
            } else {
                PlanView::Invalid
            }
        },
        _ => PlanView::Invalid,
    }
}

pub open spec fn ends_with2(a: Seq<char>, x: char, y: char) -> bool {
    a.len() >= 2 && a[a.len() - 2] == x && a[a.len() - 1] == y
}

/// Whether a single argument is read as minutes (not a time of day).
pub open spec fn minutes_target(a: Seq<char>) -> bool {
    !ends_with2(a, 'a', 'm') && !ends_with2(a, 'p', 'm') && index_of(a, ':') != Some(2int)
}

/// A countdown for a duration or a time of day: `9am`, `12pm` and `21:15`
/// (a two-character hour) are times of day; `3:30` and `3.5` durations.
pub open spec fn target_plan(a: Seq<char>, title: Seq<char>) -> PlanView {
    if ends_with2(a, 'a', 'm') {
        clock_plan(a.take(a.len() - 2), Some(false), title)
    } else if ends_with2(a, 'p', 'm') {
        clock_plan(a.take(a.len() - 2), Some(true), title)
    } else if index_of(a, ':') == Some(2int) {
        clock_plan(a, None, title)
    } else {
        match minutes_spec(a) {
            Some(ms) => PlanView::Run(CommandView::Countdown(ms, title)),
            None => PlanView::Invalid,
        }
    }
}

/// What the lowercase arguments `parts` ask for.
pub open spec fn parts_plan(parts: Seq<Seq<char>>, title: Seq<char>) -> PlanView {
    if parts.len() == 0 {
        PlanView::Run(CommandView::Stopwatch(title))
    } else if parts.len() == 1 {
        let a = parts[0];
        if a == "p"@ || a == "pause"@ {
            PlanView::Run(CommandView::Pause)
        } else if a == "r"@ || a == "restart"@ {
            PlanView::Run(CommandView::Restart)
        } else if a == "s"@ || a == "stop"@ || a == "0"@ {
            PlanView::Run(CommandView::Stop)
        } else if a == "pomo"@ || a == "pomodoro"@ {
            PlanView::Run(CommandView::Pomodoro(1_500_000int, 300_000int, title))
        } else {
            target_plan(a, title)
        }
    } else if parts.len() == 2 {
        match (minutes_spec(parts[0]), minutes_spec(parts[1])) {
            (Some(w), Some(r)) => PlanView::Run(CommandView::Pomodoro(w, r, title)),
            _ => PlanView::Invalid,
        }
    } else {
        PlanView::Invalid
    }
}

/// Whether the arguments `parts` would overflow `i64` while read.
pub open spec fn parts_overflow(parts: Seq<Seq<char>>) -> bool {
    if parts.len() == 1 {
        minutes_target(parts[0]) && minutes_overflow(parts[0])
    } else if parts.len() == 2 {
        minutes_overflow(parts[0]) || (minutes_spec(parts[0]) is Some && minutes_overflow(parts[1]))
    } else {
        false
    }
}

/// Whether a trimmed line starts with the word `timer` (any letter case).
pub open spec fn timer_prefix(t: Seq<char>) -> bool {
    t.len() >= 5 && lower(t.take(5)) == "timer"@ && (t.len() == 5 || t[5] == ' ' || t[5] == ':')
}

/// The arguments of a timer line (trimmed, lowercase, split on white space)
/// and its title.
pub open spec fn line_parts(line: Seq<char>) -> (Seq<Seq<char>>, Seq<char>) {
    let (args, title) = split_title(trim(line).skip(5));
    (words(lower(trim(args))), title)
}

/// What a line asks for.
pub open spec fn plan_spec(line: Seq<char>) -> PlanView {
    if !timer_prefix(trim(line)) {
        PlanView::Invalid
    } else {
        parts_plan(line_parts(line).0, line_parts(line).1)
    }
}

/// Whether reading the line overflows `i64`.
pub open spec fn plan_overflows(line: Seq<char>) -> bool {
    timer_prefix(trim(line)) && parts_overflow(line_parts(line).0)
}

/// `s` with ASCII letters made lowercase.
fn lower_chars(s: &[char]) -> (r: Vec<char>)
    ensures
        r@ == lower(s@),
{
    let mut r: Vec<char> = Vec::new();
    let mut i: usize = 0;
    while i < s.len()
        invariant
            i <= s@.len(),
            r@ == lower(s@.take(i as int)),
        decreases s@.len() - i,
    {
        let c = s[i];
        let u = c as u32;
        let l = if 0x41 <= u && u <= 0x5A { ((u + 32) as u8) as char } else { c };
        r.push(l);
        i = i + 1;
        assert(r@ =~= lower(s@.take(i as int)));
    }
    assert(s@.take(s@.len() as int) =~= s@);
    r
}

/// The words of `s` (`str::split_whitespace`).
fn split_words(s: &[char]) -> (r: Vec<Vec<char>>)
    ensures
        crate::text::views(r@) == words(s@),
{
    let mut out: Vec<Vec<char>> = Vec::new();
    let mut i: usize = 0;
    while i < s.len()
        invariant
            i <= s@.len(),
            crate::text::views(out@) + words_from(s@, i as int) == words(s@),
        decreases s@.len() - i,
    {
        if crate::text::is_whitespace(s[i]) {
            i = i + 1;
        } else {
            let mut e = i + 1;
            proof {
                lemma_word_end(s@, i + 1);
            }
            while e < s.len() && !crate::text::is_whitespace(s[e])
                invariant
                    i < e <= s@.len(),
                    word_end(s@, e as int) == word_end(s@, i + 1),
                decreases s@.len() - e,
            {
                e = e + 1;
            }
            let w = crate::text::copy_range(s, i, e);
            let ghost before = crate::text::views(out@);
            out.push(w);
            proof {
                assert(crate::text::views(out@) =~= before.push(w@));
                assert(word_end(s@, e as int) == e);
                assert(word_end(s@, i + 1) == e);
                assert(words_from(s@, i as int) == word_then(s@, i as int));
                assert(words_from(s@, i as int) == seq![s@.subrange(i as int, e as int)] + words_from(s@, e as int));
                assert(before.push(w@) + words_from(s@, e as int) =~= before + words_from(s@, i as int));
            }
            i = e;
        }
    }
    out
}

/// The arguments and the title of the text after `timer`.
fn split_title_chars(s: &[char]) -> (r: (Vec<char>, String))
    ensures
        (r.0@, r.1@) == split_title(s@),
{
    let mut i: usize = 0;
    while i < s.len()
        invariant
            i <= s@.len(),
            title_colon(s@, 0) == title_colon(s@, i as int),
        decreases s@.len() - i,
    {
        let next_digit = i + 1 < s.len() && 0x30 <= s[i + 1] as u32 && s[i + 1] as u32 <= 0x39;
        if s[i] == ':' && !next_digit {
            let args = crate::text::copy_range(s, 0, i);
            let (a, b) = crate::text::trim_range(s, i + 1, s.len());
            let title = crate::text::copy_range(s, a, b);
            assert(args@ =~= s@.take(i as int));
            assert(s@.subrange(i + 1, s@.len() as int) =~= s@.skip(i + 1));
            return (args, crate::text::string_of(title.as_slice()));
        }
        i = i + 1;
    }
    let args = crate::text::copy_range(s, 0, s.len());
    assert(args@ =~= s@);
    (args, String::new())
}

/// Whether `a` is the word `w`.
fn is_word(a: &[char], w: &str) -> (r: bool)
    ensures
        r == (a@ == w@),
{
    crate::text::eq_chars(a, crate::text::chars_of(w).as_slice())
}

/// Minutes in milliseconds (`m:ss` or decimal).
fn minutes(t: &[char]) -> (r: Option<i64>)
    requires
        !minutes_overflow(t@),
    ensures
        match minutes_spec(t@) {
            Some(v) => fits_i64(v) && r == Some(v as i64),
            None => r is None,
        },
{
    proof {
        crate::text::lemma_index_of_props(t@, ':');
    }
    match crate::text::find_char(t, 0, t.len(), ':') {
        Some(i) => {
            let m = crate::text::copy_range(t, 0, i);
            let sec = crate::text::copy_range(t, i + 1, t.len());
            assert(m@ =~= t@.take(i as int));
            assert(sec@ =~= t@.skip(i + 1));
            let mv = match crate::num::parse_i64(m.as_slice()) {
                Some(v) => v,
                None => {
                    return None;
                },
            };
            let sv = match crate::num::parse_i64(sec.as_slice()) {
                Some(v) => v,
                None => {
                    return None;
                },
            };
            if sv < 60 {
                Some((mv * 60 + sv) * 1000)
            } else {
                None
            }
        },
        None => {
            let r = decimal_ms(t);
            r
        },
    }
}

/// `u32::from_str` on characters.
fn parse_u32(s: &[char]) -> (r: Option<u32>)
    ensures
        match parse_u32_spec(s@) {
            Some(v) => r == Some(v as u32),
            None => r is None,
        },
{
    match parse_int(s, 10, false, 0, u32::MAX as i128) {
        Some(v) => Some(v as u32),
        None => None,
    }
}

/// A countdown to the time of day `c`.
fn clock_plan_of(c: &[char], pm: Option<bool>, title: String) -> (r: Plan)
    ensures
        r@ == clock_plan(c@, pm, title@),
{
    proof {
        crate::text::lemma_index_of_props(c@, ':');
    }
    let (h, m) = match crate::text::find_char(c, 0, c.len(), ':') {
        Some(i) => {
            let a = crate::text::copy_range(c, 0, i);
            let b = crate::text::copy_range(c, i + 1, c.len());
            assert(a@ =~= c@.take(i as int));
            assert(b@ =~= c@.skip(i + 1));
            (parse_u32(a.as_slice()), parse_u32(b.as_slice()))
        },
        None => (parse_u32(c), Some(0u32)),
    };
    match (h, m) {
        (Some(h), Some(m)) => {
            let h2 = match pm {
                Some(true) => if h < 12 {
                    h + 12
                } else {
                    h
                },
                Some(false) => if h == 12 {
                    0
                } else {
                    h
                },
                None => h,
            };
            if h2 < 24 && m < 60 {
                Plan::At { hour: h2, minute: m, title }
            } else {
                Plan::Invalid
            }
        },
        _ => Plan::Invalid,
    }
}

/// The plan for a single argument that is not a word of its own.
fn target_plan_of(a: &[char], title: String) -> (r: Plan)
    requires
        !(minutes_target(a@) && minutes_overflow(a@)),
    ensures
        r@ == target_plan(a@, title@),
{
    let n = a.len();
    if n >= 2 && a[n - 2] == 'a' && a[n - 1] == 'm' {
        let c = crate::text::copy_range(a, 0, n - 2);
        assert(c@ =~= a@.take(n - 2));
        clock_plan_of(c.as_slice(), Some(false), title)
    } else if n >= 2 && a[n - 2] == 'p' && a[n - 1] == 'm' {
        let c = crate::text::copy_range(a, 0, n - 2);
        assert(c@ =~= a@.take(n - 2));
        clock_plan_of(c.as_slice(), Some(true), title)
    } else {
        proof {
            crate::text::lemma_index_of_props(a@, ':');
        }
        let colon = crate::text::find_char(a, 0, n, ':');
        if colon == Some(2usize) {
            clock_plan_of(a, None, title)
        } else {
            match minutes(a) {
                Some(ms) => Plan::Run(Command::Countdown { ms, title }),
                None => Plan::Invalid,
            }
        }
    }
}

/// The plan for the lowercase arguments `parts`.
fn parts_plan_of(parts: &Vec<Vec<char>>, title: String) -> (r: Plan)
    requires
        !parts_overflow(crate::text::views(parts@)),
    ensures
        r@ == parts_plan(crate::text::views(parts@), title@),
{
    let ghost ps = crate::text::views(parts@);
    if parts.len() == 0 {
        Plan::Run(Command::Stopwatch { title })
    } else if parts.len() == 1 {
        let a = parts[0].as_slice();
        assert(a@ == ps[0]);
        if is_word(a, "p") || is_word(a, "pause") {
            Plan::Run(Command::Pause)
        } else if is_word(a, "r") || is_word(a, "restart") {
            Plan::Run(Command::Restart)
        } else if is_word(a, "s") || is_word(a, "stop") || is_word(a, "0") {
            Plan::Run(Command::Stop)
        } else if is_word(a, "pomo") || is_word(a, "pomodoro") {
            Plan::Run(Command::Pomodoro { work_ms: 25 * 60_000, rest_ms: 5 * 60_000, title })
        } else {
            target_plan_of(a, title)
        }
    } else if parts.len() == 2 {
        assert(parts[0]@ == ps[0] && parts[1]@ == ps[1]);
        let w = match minutes(parts[0].as_slice()) {
            Some(w) => w,
            None => {
                return Plan::Invalid;
            },
        };
        let r = match minutes(parts[1].as_slice()) {
            Some(r) => r,
            None => {
                return Plan::Invalid;
            },
        };
        Plan::Run(Command::Pomodoro { work_ms: w, rest_ms: r, title })
    } else {
        Plan::Invalid
    }
}

/// Reads a line: a timer command, a countdown to a time of day, or nothing.
pub fn plan(line: &str) -> (r: Plan)
    requires
        !plan_overflows(line@),
    ensures
        r@ == plan_spec(line@),
{
    let cs = crate::text::chars_of(line);
    let (a, b) = crate::text::trim_range(cs.as_slice(), 0, cs.len());
    let t = crate::text::copy_range(cs.as_slice(), a, b);
    assert(cs@.subrange(0, cs@.len() as int) =~= line@);
    assert(t@ == trim(line@));
    if t.len() < 5 {
        return Plan::Invalid;
    }
    let head = lower_chars(crate::text::copy_range(t.as_slice(), 0, 5).as_slice());
    assert(t@.subrange(0, 5) =~= t@.take(5));
    if !is_word(head.as_slice(), "timer") || !(t.len() == 5 || t[5] == ' ' || t[5] == ':') {
        return Plan::Invalid;
    }
    let rest = crate::text::copy_range(t.as_slice(), 5, t.len());
    assert(rest@ =~= t@.skip(5));
    let (args, title) = split_title_chars(rest.as_slice());
    let (x, y) = crate::text::trim_range(args.as_slice(), 0, args.len());
    assert(args@.subrange(0, args@.len() as int) =~= args@);
    let targs = crate::text::copy_range(args.as_slice(), x, y);
    let low = lower_chars(targs.as_slice());
    let parts = split_words(low.as_slice());
    parts_plan_of(&parts, title)
}

/// Whether reading `t` as `m:ss` overflows `i64` on the way.
fn minutes_overflows(t: &[char]) -> (r: bool)
    ensures
        r == minutes_overflow(t@),
{
    proof {
        crate::text::lemma_index_of_props(t@, ':');
    }
    match crate::text::find_char(t, 0, t.len(), ':') {
        Some(i) => {
            let m = crate::text::copy_range(t, 0, i);
            let sec = crate::text::copy_range(t, i + 1, t.len());
            assert(m@ =~= t@.take(i as int));
            assert(sec@ =~= t@.skip(i + 1));
            match (crate::num::parse_i64(m.as_slice()), crate::num::parse_i64(sec.as_slice())) {
                (Some(mv), Some(sv)) => {
                    let a = mv as i128 * 60;
                    let b = a + sv as i128;
                    let c = b * 1000;
                    sv < 60 && !(i64::MIN as i128 <= a && a <= i64::MAX as i128 && i64::MIN as i128 <= b && b
                        <= i64::MAX as i128 && i64::MIN as i128 <= c && c <= i64::MAX as i128)
                },
                _ => false,
            }
        },
        None => false,
    }
}

/// Whether reading a line as a timer command overflows `i64` (where
/// [`parse`] and [`plan`] would panic); callers check it first.
pub fn overflows(line: &str) -> (r: bool)
    ensures
        r == plan_overflows(line@),
{
    let cs = crate::text::chars_of(line);
    let (a, b) = crate::text::trim_range(cs.as_slice(), 0, cs.len());
    let t = crate::text::copy_range(cs.as_slice(), a, b);
    assert(cs@.subrange(0, cs@.len() as int) =~= line@);
    if t.len() < 5 {
        return false;
    }
    let head = lower_chars(crate::text::copy_range(t.as_slice(), 0, 5).as_slice());
    assert(t@.subrange(0, 5) =~= t@.take(5));
    if !is_word(head.as_slice(), "timer") || !(t.len() == 5 || t[5] == ' ' || t[5] == ':') {
        return false;
    }
    let rest = crate::text::copy_range(t.as_slice(), 5, t.len());
    assert(rest@ =~= t@.skip(5));
    let (args, title) = split_title_chars(rest.as_slice());
    let (x, y) = crate::text::trim_range(args.as_slice(), 0, args.len());
    assert(args@.subrange(0, args@.len() as int) =~= args@);
    let targs = crate::text::copy_range(args.as_slice(), x, y);
    let low = lower_chars(targs.as_slice());
    let parts = split_words(low.as_slice());
    let ghost ps = crate::text::views(parts@);
    if parts.len() == 1 {
        let a = parts[0].as_slice();
        assert(a@ == ps[0]);
        let n = a.len();
        proof {
            crate::text::lemma_index_of_props(a@, ':');
        }
        let am = n >= 2 && a[n - 2] == 'a' && a[n - 1] == 'm';
        let pm = n >= 2 && a[n - 2] == 'p' && a[n - 1] == 'm';
        let colon2 = crate::text::find_char(a, 0, n, ':') == Some(2usize);
        !am && !pm && !colon2 && minutes_overflows(a)
    } else if parts.len() == 2 {
        assert(parts[0]@ == ps[0] && parts[1]@ == ps[1]);
        if minutes_overflows(parts[0].as_slice()) {
            return true;
        }
        let first = minutes(parts[0].as_slice());
        first.is_some() && minutes_overflows(parts[1].as_slice())
    } else {
        false
    }
}

// ---------------------------------------------------------------------------
// The local clock
// ---------------------------------------------------------------------------

/// The local time now (`chrono::Local::now`): seconds and nanoseconds since
/// the Unix epoch, the local day as days since the Common Era, and seconds
/// since local midnight. Claimed: chrono takes it from `SystemTime` after
/// the epoch, so the seconds are not negative and the nanoseconds stay below
/// one second; chrono's dates end in year 262142, which bounds the rest.
#[verifier::external_body]
fn local_now() -> (r: (i64, u32, i32, u32))
    ensures
        0 <= r.0 < 10_000_000_000_000,
        r.1 < 1_000_000_000,
        -100_000_000 < r.2 < 100_000_000,
        r.3 < 86_400,
{
    let now = chrono::Local::now();
    (
        now.timestamp(),
        now.timestamp_subsec_nanos(),
        now.date_naive().num_days_from_ce(),
        now.time().num_seconds_from_midnight(),
    )
}

/// The instant, in seconds since the Unix epoch, of the local time
/// `hour:minute:00` on the day `day` (days since the Common Era), through
/// `NaiveDate::from_num_days_from_ce_opt`, `and_hms_opt` and
/// `Local.from_local_datetime(..).single()`: `None` for a day out of
/// chrono's range and for a local time that the time zone skips or repeats.
/// Claimed: only the bound that chrono's range of dates gives.
#[verifier::external_body]
fn local_instant(day: i32, hour: u32, minute: u32) -> (r: Option<i64>)
    ensures
        r matches Some(s) ==> -10_000_000_000_000 < s < 10_000_000_000_000,
{
    let at = chrono::NaiveDate::from_num_days_from_ce_opt(day)?.and_hms_opt(hour, minute, 0)?;
    Some(chrono::Local.from_local_datetime(&at).single()?.timestamp())
}

/// `a / b` rounded toward zero, as Rust's integer division does.
pub open spec fn div_trunc(a: int, b: int) -> int {
    if a >= 0 {
        a / b
    } else {
        -((-a) / b)
    }
}

/// The remainder that goes with [`div_trunc`].
pub open spec fn rem_trunc(a: int, b: int) -> int {
    a - b * div_trunc(a, b)
}

/// Milliseconds from the instant `now_secs` + `now_nanos` to the whole second
/// `at_secs`, truncated toward zero (`TimeDelta::num_milliseconds`).
pub fn millis_between(now_secs: i64, now_nanos: u32, at_secs: i64) -> (r: i64)
    requires
        -10_000_000_000_000 < now_secs < 10_000_000_000_000,
        -10_000_000_000_000 < at_secs < 10_000_000_000_000,
        now_nanos < 1_000_000_000,
    ensures
        r == div_trunc((at_secs - now_secs) * 1_000_000_000 - now_nanos, 1_000_000),
{
    let total: i128 = (at_secs as i128 - now_secs as i128) * 1_000_000_000 - now_nanos as i128;
    let q: i128 = if total >= 0 {
        total / 1_000_000
    } else {
        -((-total) / 1_000_000)
    };
    q as i64
}

/// Whether `ms` is the time from some reading of the clock to some whole
/// second, as [`millis_between`] counts it.
pub open spec fn clock_countdown(ms: int) -> bool {
    exists|now_secs: int, now_nanos: int, at_secs: int|
        0 <= now_secs < 10_000_000_000_000 && 0 <= now_nanos < 1_000_000_000 && -10_000_000_000_000 < at_secs
            < 10_000_000_000_000 && #[trigger] div_trunc((at_secs - now_secs) * 1_000_000_000 - now_nanos, 1_000_000)
            == ms
}

/// The day of the next `hour:minute`: `today` while that time is ahead of
/// `sec_of_day` (seconds since midnight), else the day after.
pub fn target_day(today: i32, sec_of_day: u32, hour: u32, minute: u32) -> (r: i32)
    requires
        today < i32::MAX,
        hour < 24,
        minute < 60,
    ensures
        r == if hour * 3600 + minute * 60 <= sec_of_day {
            today + 1
        } else {
            today as int
        },
{
    let target = hour * 3600 + minute * 60;
    if target <= sec_of_day {
        today + 1
    } else {
        today
    }
}

/// Milliseconds from now to the next `hour:minute` of the local clock:
/// today if that time is still ahead (to the second), else tomorrow.
fn countdown_to(hour: u32, minute: u32) -> (r: Option<i64>)
    requires
        hour < 24,
        minute < 60,
    ensures
        r matches Some(ms) ==> clock_countdown(ms as int),
{
    let (now_secs, now_nanos, today, sec_of_day) = local_now();
    let day = target_day(today, sec_of_day, hour, minute);
    match local_instant(day, hour, minute) {
        Some(at) => {
            let ms = millis_between(now_secs, now_nanos, at);
            assert(clock_countdown(ms as int)) by {
                assert(div_trunc((at - now_secs) * 1_000_000_000 - now_nanos, 1_000_000) == ms);
            }
            Some(ms)
        },
        None => None,
    }
}

/// Parses a line: `None` if it is not a timer command. A time of day is
/// turned into a countdown with the local clock.
pub fn parse(line: &str) -> (r: Option<Command>)
    requires
        !plan_overflows(line@),
    ensures
        match plan_spec(line@) {
            PlanView::Run(c) => r matches Some(x) && x@ == c,
            PlanView::Invalid => r is None,
            PlanView::At(_, _, title) => r is None || (r matches Some(x) && x@ matches CommandView::Countdown(
                ms,
                t,
            ) && t == title && clock_countdown(ms)),
        },
{
    match plan(line) {
        Plan::Run(c) => Some(c),
        Plan::Invalid => None,
        Plan::At { hour, minute, title } => match countdown_to(hour, minute) {
            Some(ms) => Some(Command::Countdown { ms, title }),
            None => None,
        },
    }
}

// ---------------------------------------------------------------------------
// Running timers
// ---------------------------------------------------------------------------

#[derive(Debug, Clone, Copy, PartialEq, Eq, Structural)]
pub enum Kind {
    Stopwatch,
    Countdown,
    Pomodoro,
}

/// A running or paused timer.
#[derive(Debug, Clone)]
pub struct Timer {
    pub kind: Kind,
    pub title: String,
    /// Countdown length / current pomodoro phase length.
    pub duration_ms: i64,
    pub work_ms: i64,
    pub rest_ms: i64,
    /// "work" or "rest" for pomodoros.
    pub phase: &'static str,
    /// Time accumulated before the current run.
    pub accumulated_ms: i64,
    /// Start of the current run (0 when paused).
    pub started_ms: i64,
    pub running: bool,
}

/// What the UI shows every second.
#[derive(Debug, Clone)]
pub struct Tick {
    pub kind: Kind,
    pub title: String,
    pub phase: &'static str,
    pub running: bool,
    /// Elapsed for stopwatches, remaining for countdowns and pomodoros.
    pub ms: i64,
    pub label: String,
}

/// Whether a phase is the work phase.
fn is_work(p: &str) -> (r: bool)
    ensures
        r == (p@ == "work"@),
{
    crate::text::eq_chars(crate::text::chars_of(p).as_slice(), crate::text::chars_of("work").as_slice())
}

impl Timer {
    /// The time a timer has run by `now`.
    pub open spec fn elapsed_spec(&self, now: int) -> int {
        self.accumulated_ms + if self.running {
            now - self.started_ms
        } else {
            0
        }
    }

    /// Whether reading the elapsed time at `now` stays within `i64`.
    pub open spec fn elapsed_fits(&self, now: int) -> bool {
        (self.running ==> fits_i64(now - self.started_ms)) && fits_i64(self.elapsed_spec(now))
    }

    /// Whether `r` is the timer that command `c` starts at `now`: a stopwatch,
    /// countdown or pomodoro running from `now` in the work phase, and `None`
    /// for the other commands.
    pub open spec fn starts(r: Option<Timer>, c: CommandView, now: int) -> bool {
        &&& match c {
            CommandView::Stopwatch(t) => r matches Some(x) && x.kind == Kind::Stopwatch && x.title@ == t
                && x.duration_ms == 0 && x.work_ms == 0 && x.rest_ms == 0,
            CommandView::Countdown(ms, t) => r matches Some(x) && x.kind == Kind::Countdown && x.title@ == t
                && x.duration_ms == ms && x.work_ms == 0 && x.rest_ms == 0,
            CommandView::Pomodoro(w, rest, t) => r matches Some(x) && x.kind == Kind::Pomodoro && x.title@
                == t && x.duration_ms == w && x.work_ms == w && x.rest_ms == rest,
            _ => r is None,
        }
        &&& r matches Some(x) ==> x.phase@ == "work"@ && x.accumulated_ms == 0 && x.started_ms == now
            && x.running
    }

    /// Starts the timer of a stopwatch, countdown or pomodoro command, in
    /// the work phase; `None` for the other commands.
    pub fn start(cmd: &Command, now: i64) -> (r: Option<Timer>)
        ensures
            Timer::starts(r, cmd@, now as int),
    {
        match cmd {
            Command::Stopwatch { title } => Some(
                Timer {
                    kind: Kind::Stopwatch,
                    title: title.clone(),
                    duration_ms: 0,
                    work_ms: 0,
                    rest_ms: 0,
                    phase: "work",
                    accumulated_ms: 0,
                    started_ms: now,
                    running: true,
                },
            ),
            Command::Countdown { ms, title } => Some(
                Timer {
                    kind: Kind::Countdown,
                    title: title.clone(),
                    duration_ms: *ms,
                    work_ms: 0,
                    rest_ms: 0,
                    phase: "work",
                    accumulated_ms: 0,
                    started_ms: now,
                    running: true,
                },
            ),
            Command::Pomodoro { work_ms, rest_ms, title } => Some(
                Timer {
                    kind: Kind::Pomodoro,
                    title: title.clone(),
                    duration_ms: *work_ms,
                    work_ms: *work_ms,
                    rest_ms: *rest_ms,
                    phase: "work",
                    accumulated_ms: 0,
                    started_ms: now,
                    running: true,
                },
            ),
            _ => None,
        }
    }

    /// Time run so far: what was accumulated, plus the current run.
    pub fn elapsed(&self, now: i64) -> (r: i64)
        requires
            self.elapsed_fits(now as int),
        ensures
            r == self.elapsed_spec(now as int),
    {
        self.accumulated_ms + if self.running {
            now - self.started_ms
        } else {
            0
        }
    }

    /// The timer paused at `now` when it runs (keeping the time it ran, its
    /// start cleared to 0), or resumed at `now` when it is paused.
    pub open spec fn toggled(self, now: int) -> Timer {
        if self.running {
            Timer { accumulated_ms: self.elapsed_spec(now) as i64, started_ms: 0, running: false, ..self }
        } else {
            Timer { started_ms: now as i64, running: true, ..self }
        }
    }

    /// Pauses a running timer, keeping the time it ran; resumes a paused one.
    pub fn toggle_pause(&mut self, now: i64)
        requires
            old(self).elapsed_fits(now as int),
        ensures
            *final(self) == old(self).toggled(now as int),
    {
        if self.running {
            self.accumulated_ms = self.elapsed(now);
            self.started_ms = 0;
            self.running = false;
        } else {
            self.started_ms = now;
            self.running = true;
        }
    }

    /// Whether `u` is `t` started over at `now`: from zero, running, a
    /// pomodoro back in its work phase, the rest unchanged.
    pub open spec fn restarts(t: Timer, u: Timer, now: int) -> bool {
        &&& u.accumulated_ms == 0 && u.started_ms == now && u.running
        &&& t.kind == Kind::Pomodoro ==> u.phase@ == "work"@ && u.duration_ms == t.work_ms
        &&& t.kind != Kind::Pomodoro ==> u.phase == t.phase && u.duration_ms == t.duration_ms
        &&& u.kind == t.kind && u.title == t.title && u.work_ms == t.work_ms && u.rest_ms == t.rest_ms
    }

    /// Starts over from zero; a pomodoro goes back to its work phase.
    pub fn restart(&mut self, now: i64)
        ensures
            Timer::restarts(*old(self), *final(self), now as int),
    {
        self.accumulated_ms = 0;
        self.started_ms = now;
        self.running = true;
        if self.kind == Kind::Pomodoro {
            self.phase = "work";
            self.duration_ms = self.work_ms;
        }
    }

    /// Advances the timer: when a countdown or a pomodoro phase has run its
    /// length, the countdown stops at its length (`"done"`) or the pomodoro
    /// starts its other phase from `now` (`"work_done"`, `"rest_done"`).
    pub fn advance(&mut self, now: i64) -> (r: Option<&'static str>)
        requires
            old(self).running && old(self).kind != Kind::Stopwatch ==> old(self).elapsed_fits(now as int),
        ensures
            ({
                let t = *old(self);
                let u = *final(self);
                if !t.running || t.kind == Kind::Stopwatch || t.elapsed_spec(now as int) < t.duration_ms {
                    r is None && u == t
                } else if t.kind == Kind::Countdown {
                    &&& r matches Some(m) && m@ == "done"@
                    &&& u.accumulated_ms == t.duration_ms && !u.running
                    &&& u.phase == t.phase && u.duration_ms == t.duration_ms && u.started_ms == t.started_ms
                    &&& u.kind == t.kind && u.title == t.title && u.work_ms == t.work_ms && u.rest_ms == t.rest_ms
                } else {
                    let work = t.phase@ == "work"@;
                    &&& r matches Some(m) && m@ == (if work { "work_done"@ } else { "rest_done"@ })
                    &&& u.phase@ == (if work { "rest"@ } else { "work"@ })
                    &&& u.duration_ms == (if work { t.rest_ms } else { t.work_ms })
                    &&& u.accumulated_ms == 0 && u.started_ms == now && u.running
                    &&& u.kind == t.kind && u.title == t.title && u.work_ms == t.work_ms && u.rest_ms == t.rest_ms
                }
            }),
    {
        if !self.running || self.kind == Kind::Stopwatch || self.elapsed(now) < self.duration_ms {
            return None;
        }
        match self.kind {
            Kind::Countdown => {
                self.accumulated_ms = self.duration_ms;
                self.running = false;
                Some("done")
            },
            Kind::Pomodoro => {
                let work = is_work(self.phase);
                if work {
                    self.phase = "rest";
                    self.duration_ms = self.rest_ms;
                } else {
                    self.phase = "work";
                    self.duration_ms = self.work_ms;
                }
                self.accumulated_ms = 0;
                self.started_ms = now;
                Some(if work { "work_done" } else { "rest_done" })
            },
            Kind::Stopwatch => None,
        }
    }

    /// What the timer shows at `now`: the time run for a stopwatch, the time
    /// left (not below zero) for the others.
    pub open spec fn shown_ms(&self, now: int) -> int {
        if self.kind == Kind::Stopwatch {
            self.elapsed_spec(now)
        } else if self.duration_ms - self.elapsed_spec(now) > 0 {
            self.duration_ms - self.elapsed_spec(now)
        } else {
            0
        }
    }

    pub fn tick(&self, now: i64) -> (r: Tick)
        requires
            self.elapsed_fits(now as int),
            fits_i64(self.duration_ms - self.elapsed_spec(now as int)),
            self.shown_ms(now as int) <= i64::MAX - 999,
        ensures
            r.ms == self.shown_ms(now as int),
            r.label@ == clock_text(r.ms as int),
            r.kind == self.kind,
            r.title@ == self.title@,
            r.phase == self.phase,
            r.running == self.running,
    {
        let e = self.elapsed(now);
        let ms = match self.kind {
            Kind::Stopwatch => e,
            _ => if self.duration_ms - e > 0 {
                self.duration_ms - e
            } else {
                0
            },
        };
        Tick {
            kind: self.kind,
            title: self.title.clone(),
            phase: self.phase,
            running: self.running,
            ms,
            label: format_ms(ms),
        }
    }
}

/// `v` with at least two digits (`{:02}`).
pub open spec fn pad2(v: int) -> Seq<char> {
    if 0 <= v < 10 {
        seq!['0'] + decimal_text(v)
    } else {
        decimal_text(v)
    }
}

/// `h:mm:ss` (or `m:ss` under an hour) of the whole seconds in `ms`, counted
/// up (`ms + 999` divided by 1000, toward zero).
pub open spec fn clock_text(ms: int) -> Seq<char> {
    let s = div_trunc(ms + 999, 1000);
    let h = div_trunc(s, 3600);
    let m = rem_trunc(div_trunc(s, 60), 60);
    let sec = rem_trunc(s, 60);
    if h > 0 {
        decimal_text(h) + seq![':'] + pad2(m) + seq![':'] + pad2(sec)
    } else {
        decimal_text(m) + seq![':'] + pad2(sec)
    }
}

/// Rust's `/` on `i64`, toward zero.
fn div0(a: i64, b: i64) -> (r: i64)
    requires
        b > 0,
        a > i64::MIN,
    ensures
        r == div_trunc(a as int, b as int),
{
    if a >= 0 {
        a / b
    } else {
        -((-a) / b)
    }
}

/// `{:02}` of `v`.
fn pad2_text(v: i64) -> (r: Vec<char>)
    ensures
        r@ == pad2(v as int),
{
    let d = crate::num::i64_text(v);
    if 0 <= v && v < 10 {
        let mut r = Vec::new();
        r.push('0');
        crate::text::push_all(&mut r, d.as_slice());
        r
    } else {
        d
    }
}

/// Formats milliseconds as `h:mm:ss`, or `m:ss` under an hour.
pub fn format_ms(ms: i64) -> (r: String)
    requires
        ms <= i64::MAX - 999,
    ensures
        r@ == clock_text(ms as int),
{
    let s = div0(ms + 999, 1000);
    let h = div0(s, 3600);
    let q = div0(s, 60);
    let m = q - 60 * div0(q, 60);
    let sec = s - 60 * div0(s, 60);
    let mut out: Vec<char> = Vec::new();
    if h > 0 {
        crate::text::push_all(&mut out, crate::num::i64_text(h).as_slice());
        out.push(':');
        crate::text::push_all(&mut out, pad2_text(m).as_slice());
    } else {
        crate::text::push_all(&mut out, crate::num::i64_text(m).as_slice());
    }
    out.push(':');
    crate::text::push_all(&mut out, pad2_text(sec).as_slice());
    assert(out@ =~= clock_text(ms as int));
    crate::text::string_of(out.as_slice())
}

/// Time spent paused does not count: a running timer paused at `p` shows
/// at any later reading the time it had run at `p`, and once resumed at `r`
/// it has run, at `now`, that time plus `now - r`.
pub proof fn lemma_pause_resume(t: Timer, p: int, r: int, now: int)
    requires
        t.running,
        fits_i64(t.elapsed_spec(p)),
        i64::MIN <= r <= i64::MAX,
    ensures
        !t.toggled(p).running,
        t.toggled(p).elapsed_spec(now) == t.elapsed_spec(p),
        t.toggled(p).toggled(r).running,
        t.toggled(p).toggled(r).elapsed_spec(now) == t.elapsed_spec(p) + (now - r),
{
}

/// The time a timer has run by `now`: what it had before its current run,
/// plus the current run when it is running.
pub open spec fn run_time(t: Timer, now: int) -> int {
    t.accumulated_ms + if t.running {
        now - t.started_ms
    } else {
        0
    }
}

/// A stopwatch shows the time it has run; a countdown or a pomodoro phase
/// shows the time left, never below zero.
pub proof fn lemma_shown_time(t: Timer, now: int)
    ensures
        t.kind == Kind::Stopwatch ==> t.shown_ms(now) == run_time(t, now),
        t.kind != Kind::Stopwatch ==> t.shown_ms(now) == if run_time(t, now) < t.duration_ms {
            t.duration_ms - run_time(t, now)
        } else {
            0
        },
        t.shown_ms(now) >= 0 || t.kind == Kind::Stopwatch,
{
}

/// A running stopwatch shows `d` more after `d` more milliseconds, a paused
/// one the same; a running countdown shows `d` less while time is left.
pub proof fn lemma_shown_time_moves(t: Timer, now: int, d: int)
    requires
        d >= 0,
    ensures
        t.kind == Kind::Stopwatch && t.running ==> t.shown_ms(now + d) == t.shown_ms(now) + d,
        !t.running ==> t.shown_ms(now + d) == t.shown_ms(now),
        t.kind != Kind::Stopwatch && t.running && run_time(t, now + d) < t.duration_ms ==> t.shown_ms(now + d)
            == t.shown_ms(now) - d,
{
}

/// `timer pomo` and `timer pomodoro` start the standard pomodoro: 25 minutes
/// of work, then 5 of rest, with the title given.
pub proof fn lemma_standard_pomodoro(word: Seq<char>, title: Seq<char>)
    requires
        word == "pomo"@ || word == "pomodoro"@,
    ensures
        parts_plan(seq![word], title) == PlanView::Run(CommandView::Pomodoro(25int * 60_000, 5int * 60_000, title)),
{
    reveal_strlit("pomo");
    reveal_strlit("pomodoro");
    reveal_strlit("p");
    reveal_strlit("pause");
    reveal_strlit("r");
    reveal_strlit("restart");
    reveal_strlit("s");
    reveal_strlit("stop");
    reveal_strlit("0");
    assert(seq![word][0] == word);
    assert(word[0] == 'p');
    assert(word.len() >= 4);
}

/// `timer` alone starts a stopwatch; `p`/`pause`, `r`/`restart` and
/// `s`/`stop`/`0` pause, restart and stop the timer.
pub proof fn lemma_word_commands(word: Seq<char>, title: Seq<char>)
    ensures
        parts_plan(Seq::empty(), title) == PlanView::Run(CommandView::Stopwatch(title)),
        word == "p"@ || word == "pause"@ ==> parts_plan(seq![word], title) == PlanView::Run(CommandView::Pause),
        word == "r"@ || word == "restart"@ ==> parts_plan(seq![word], title) == PlanView::Run(CommandView::Restart),
        word == "s"@ || word == "stop"@ || word == "0"@ ==> parts_plan(seq![word], title) == PlanView::Run(
            CommandView::Stop,
        ),
{
    reveal_strlit("p");
    reveal_strlit("pause");
    reveal_strlit("r");
    reveal_strlit("restart");
    reveal_strlit("s");
    reveal_strlit("stop");
    reveal_strlit("0");
    assert(seq![word][0] == word);
    assert(seq![word].len() == 1);
}

} // verus!
