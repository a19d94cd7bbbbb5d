//! Integer parsing with the grammar of `FromStr` / `from_str_radix`: an
//! optional sign, then at least one digit of the radix, the value in range.
use vstd::prelude::*;

verus! {

/// Value of `c` as a digit in base 10 or 16 (either letter case).
pub open spec fn digit_value(c: char, radix: u32) -> Option<int> {
    let u = c as u32;
    if 0x30 <= u <= 0x39 {
        Some(u - 0x30)
    } else if radix == 16 && 0x61 <= u <= 0x66 {
        Some(u - 0x61 + 10)
    } else if radix == 16 && 0x41 <= u <= 0x46 {
        Some(u - 0x41 + 10)
    } else {
        None
    }
}

pub open spec fn all_digits(d: Seq<char>, radix: u32) -> bool {
    forall|i: int| 0 <= i < d.len() ==> (#[trigger] digit_value(d[i], radix)) is Some
}

/// The number written by the digits `d`.
pub open spec fn digits_value(d: Seq<char>, radix: u32) -> int
    decreases d.len(),
{
    if d.len() == 0 {
        0
    } else {
        digits_value(d.drop_last(), radix) * radix + digit_value(d.last(), radix).unwrap()
    }
}

/// The integer `s` writes, if it is a well-formed numeral (before any range check).
pub open spec fn numeral_value(s: Seq<char>, radix: u32, signed: bool) -> Option<int> {
    if s.len() == 0 {
        None
    } else if (s[0] == '+' || s[0] == '-') && s.len() == 1 {
        None
    } else {
        let neg = signed && s[0] == '-';
        let d = if s[0] == '+' || neg {
            s.drop_first()
        } else {
            s
        };
        if all_digits(d, radix) {
            Some(
                if neg {
                    -digits_value(d, radix)
                } else {
                    digits_value(d, radix)
                },
            )
        } else {
            None
        }
    }
}

/// What parsing `s` as an integer in `[min, max]` gives.
pub open spec fn parse_in_range(s: Seq<char>, radix: u32, signed: bool, min: int, max: int) -> Option<int> {
    match numeral_value(s, radix, signed) {
        Some(v) => if min <= v <= max {
            Some(v)
        } else {
            None
        },
        None => None,
    }
}

/// `i64::from_str` on the characters `s`.
pub open spec fn parse_i64_spec(s: Seq<char>) -> Option<int> {
    parse_in_range(s, 10, true, i64::MIN as int, i64::MAX as int)
}

proof fn lemma_digits_nonneg(d: Seq<char>, radix: u32)
    requires
        all_digits(d, radix),
        radix >= 1,
    ensures
        digits_value(d, radix) >= 0,
    decreases d.len(),
{
    if d.len() > 0 {
        assert(all_digits(d.drop_last(), radix)) by {
            assert forall|i: int| 0 <= i < d.drop_last().len() implies (#[trigger] digit_value(
                d.drop_last()[i],
                radix,
            )) is Some by {
                assert(digit_value(d[i], radix) is Some);
            }
        }
        lemma_digits_nonneg(d.drop_last(), radix);
        assert(digit_value(d[d.len() - 1], radix) is Some);
        let v = digits_value(d.drop_last(), radix);
        assert(v * radix >= 0) by (nonlinear_arith)
            requires
                v >= 0,
                radix >= 1,
        ;
    }
}

proof fn lemma_digits_prefix_le(d: Seq<char>, radix: u32, k: int)
    requires
        all_digits(d, radix),
        radix >= 1,
        0 <= k <= d.len(),
    ensures
        digits_value(d.take(k), radix) <= digits_value(d, radix),
    decreases d.len() - k,
{
    if k < d.len() {
        let e = d.take(k + 1);
        assert(all_digits(e, radix)) by {
            assert forall|i: int| 0 <= i < e.len() implies (#[trigger] digit_value(e[i], radix)) is Some by {
                assert(digit_value(d[i], radix) is Some);
            }
        }
        assert(e.drop_last() =~= d.take(k));
        assert(all_digits(d.take(k), radix)) by {
            assert forall|i: int| 0 <= i < d.take(k).len() implies (#[trigger] digit_value(
                d.take(k)[i],
                radix,
            )) is Some by {
                assert(digit_value(d[i], radix) is Some);
            }
        }
        lemma_digits_nonneg(d.take(k), radix);
        assert(digit_value(d[k], radix) is Some);
        let v = digits_value(d.take(k), radix);
        let x = digit_value(d[k], radix).unwrap();
        assert(x >= 0);
        assert(v * radix + x >= v) by (nonlinear_arith)
            requires
                v >= 0,
                radix >= 1,
                x >= 0,
        ;
        lemma_digits_prefix_le(d, radix, k + 1);
    } else {
        assert(d.take(k) =~= d);
    }
}

/// Parses `s` as an integer numeral in base `radix` whose value lies in `[min, max]`.
pub fn parse_int(s: &[char], radix: u32, signed: bool, min: i128, max: i128) -> (r: Option<i128>)
    requires
        radix == 10 || radix == 16,
        -0x1_0000_0000_0000_0000 <= min <= 0 <= max <= 0x1_0000_0000_0000_0000,
    ensures
        match parse_in_range(s@, radix, signed, min as int, max as int) {
            Some(v) => r == Some(v as i128),
            None => r is None,
        },
{
    let n = s.len();
    if n == 0 {
        return None;
    }
    if (s[0] == '+' || s[0] == '-') && n == 1 {
        return None;
    }
    let neg = signed && s[0] == '-';
    let start: usize = if s[0] == '+' || neg {
        1
    } else {
        0
    };
    let ghost d = if s@[0] == '+' || neg {
        s@.drop_first()
    } else {
        s@
    };
    assert(d =~= s@.skip(start as int));
    let bound: u128 = if neg {
        (0 - min) as u128
    } else {
        max as u128
    };
    let mut acc: u128 = 0;
    let mut i = start;
    while i < n
        invariant
            n == s@.len(),
            n > 0,
            !((s@[0] == '+' || s@[0] == '-') && n == 1),
            neg == (signed && s@[0] == '-'),
            d == (if s@[0] == '+' || neg {
                s@.drop_first()
            } else {
                s@
            }),
            bound == (if neg {
                -min
            } else {
                max as int
            }),
            -0x1_0000_0000_0000_0000 <= min <= 0 <= max <= 0x1_0000_0000_0000_0000,
            start <= i <= n,
            d =~= s@.skip(start as int),
            radix == 10 || radix == 16,
            bound <= 0x1_0000_0000_0000_0000,
            acc <= bound,
            all_digits(d.take(i - start), radix),
            acc == digits_value(d.take(i - start), radix),
        decreases n - i,
    {
        let c = s[i];
        let u = c as u32;
        let dv: u32 = if 0x30 <= u && u <= 0x39 {
            u - 0x30
        } else if radix == 16 && 0x61 <= u && u <= 0x66 {
            u - 0x61 + 10
        } else if radix == 16 && 0x41 <= u && u <= 0x46 {
            u - 0x41 + 10
        } else {
            assert(d[i - start] == c);
            assert(digit_value(d[i - start], radix) is None);
            assert(!all_digits(d, radix));
            return None;
        };
        assert(digit_value(c, radix) == Some(dv as int));
        let ghost e = d.take(i - start + 1);
        assert(e.drop_last() =~= d.take(i - start));
        assert(e.last() == c);
        assert(all_digits(e, radix)) by {
            assert forall|j: int| 0 <= j < e.len() implies (#[trigger] digit_value(e[j], radix)) is Some by {
                if j < e.len() - 1 {
                    assert(e[j] == d.take(i - start)[j]);
                }
            }
        }
        assert(acc * (radix as u128) <= 0x10_0000_0000_0000_0000) by (nonlinear_arith)
            requires
                acc <= 0x1_0000_0000_0000_0000,
                radix <= 16,
        ;
        let next: u128 = acc * (radix as u128) + (dv as u128);
        assert(next == digits_value(e, radix));
        i = i + 1;
        if next > bound {
            proof {
                if all_digits(d, radix) {
                    lemma_digits_prefix_le(d, radix, i - start);
                }
            }
            return None;
        }
        acc = next;
    }
    assert(d.take(n - start) =~= d);
    if neg {
        Some(0 - (acc as i128))
    } else {
        Some(acc as i128)
    }
}

/// `i64::from_str`.
pub fn parse_i64(s: &[char]) -> (r: Option<i64>)
    ensures
        match parse_i64_spec(s@) {
            Some(v) => r == Some(v as i64),
            None => r is None,
        },
{
    match parse_int(s, 10, true, i64::MIN as i128, i64::MAX as i128) {
        Some(v) => Some(v as i64),
        None => None,
    }
}

/// The character of digit `d` (lowercase letters above 9).
pub open spec fn digit_char(d: int) -> char {
    if d < 10 {
        (0x30 + d) as char
    } else {
        (0x61 + d - 10) as char
    }
}

/// The digits of `n` in base `radix`, without leading zeros ("0" for zero).
pub open spec fn digits_of(n: nat, radix: nat) -> Seq<char>
    decreases n,
{
    if radix < 2 || n < radix {
        seq![digit_char(n as int)]
    } else {
        proof {
            assert(n / radix < n) by (nonlinear_arith)
                requires
                    radix >= 2,
                    n >= radix,
            ;
        }
        digits_of(n / radix, radix) + seq![digit_char((n % radix) as int)]
    }
}

/// `s` left-padded with '0' to at least `w` characters.
pub open spec fn zero_pad(s: Seq<char>, w: nat) -> Seq<char> {
    if s.len() >= w {
        s
    } else {
        Seq::new((w - s.len()) as nat, |i: int| '0') + s
    }
}

/// Decimal text of an integer, with a leading '-' when negative (`Display`).
pub open spec fn decimal_text(v: int) -> Seq<char> {
    if v < 0 {
        seq!['-'] + digits_of((-v) as nat, 10)
    } else {
        digits_of(v as nat, 10)
    }
}

/// Lowercase hexadecimal text of `v`, zero-padded to `w` digits (`{:0w$x}`).
pub open spec fn hex_text(v: nat, w: nat) -> Seq<char> {
    zero_pad(digits_of(v, 16), w)
}

proof fn lemma_digit_char_value(d: int, radix: u32)
    requires
        radix == 10 || radix == 16,
        0 <= d < radix,
    ensures
        digit_value(digit_char(d), radix) == Some(d),
{
}

pub proof fn lemma_digits_of_value(n: nat, radix: u32)
    requires
        radix == 10 || radix == 16,
    ensures
        all_digits(digits_of(n, radix as nat), radix),
        digits_value(digits_of(n, radix as nat), radix) == n,
        digits_of(n, radix as nat).len() >= 1,
    decreases n,
{
    let r = radix as nat;
    let d = digits_of(n, r);
    if n < r {
        lemma_digit_char_value(n as int, radix);
        assert(d.drop_last() =~= Seq::<char>::empty());
        assert(digits_value(d.drop_last(), radix) == 0);
        assert(digits_value(d, radix) == 0 * radix + n);
    } else {
        lemma_digits_of_value(n / r, radix);
        lemma_digit_char_value((n % r) as int, radix);
        assert(d.drop_last() =~= digits_of(n / r, r));
        assert(all_digits(d, radix)) by {
            assert forall|i: int| 0 <= i < d.len() implies (#[trigger] digit_value(d[i], radix)) is Some by {
                if i < d.len() - 1 {
                    assert(d[i] == digits_of(n / r, r)[i]);
                }
            }
        }
        assert(n == (n / r) * r + n % r) by (nonlinear_arith)
            requires
                r > 0,
        ;
        assert(d.last() == digit_char((n % r) as int));
        assert(digits_value(d, radix) == digits_value(d.drop_last(), radix) * radix + (n % r));
    }
}

pub proof fn lemma_zero_pad_value(s: Seq<char>, w: nat, radix: u32)
    requires
        radix == 10 || radix == 16,
        all_digits(s, radix),
    ensures
        all_digits(zero_pad(s, w), radix),
        digits_value(zero_pad(s, w), radix) == digits_value(s, radix),
    decreases w - s.len(),
{
    if s.len() < w {
        let z = zero_pad(s, w);
        let z2 = zero_pad(seq!['0'] + s, w);
        assert(all_digits(seq!['0'] + s, radix)) by {
            assert forall|i: int| 0 <= i < (seq!['0'] + s).len() implies (#[trigger] digit_value(
                (seq!['0'] + s)[i],
                radix,
            )) is Some by {
                if i > 0 {
                    assert((seq!['0'] + s)[i] == s[i - 1]);
                }
            }
        }
        assert(z =~= z2);
        lemma_leading_zero(s, radix);
        if (seq!['0'] + s).len() < w {
            lemma_zero_pad_value(seq!['0'] + s, w, radix);
        } else {
            assert(z2 == seq!['0'] + s);
        }
    }
}

proof fn lemma_leading_zero(s: Seq<char>, radix: u32)
    requires
        radix == 10 || radix == 16,
        all_digits(s, radix),
    ensures
        digits_value(seq!['0'] + s, radix) == digits_value(s, radix),
    decreases s.len(),
{
    if s.len() > 0 {
        let t = seq!['0'] + s;
        assert(t.drop_last() =~= seq!['0'] + s.drop_last());
        assert(all_digits(s.drop_last(), radix)) by {
            assert forall|i: int| 0 <= i < s.drop_last().len() implies (#[trigger] digit_value(
                s.drop_last()[i],
                radix,
            )) is Some by {
                assert(digit_value(s[i], radix) is Some);
            }
        }
        lemma_leading_zero(s.drop_last(), radix);
        assert(t.last() == s.last());
        assert(digits_value(t, radix) == digits_value(t.drop_last(), radix) * radix + digit_value(
            s.last(),
            radix,
        ).unwrap());
    } else {
        assert(seq!['0'] + s =~= seq!['0']);
        assert(seq!['0'].drop_last() =~= Seq::<char>::empty());
        assert(('0' as u32) == 0x30);
        assert(digit_value('0', radix) == Some(0int));
        assert(seq!['0'].last() == '0');
        assert(digits_value(Seq::<char>::empty(), radix) == 0);
        assert(digits_value(seq!['0'], radix) == digits_value(seq!['0'].drop_last(), radix) * radix
            + digit_value('0', radix).unwrap());
    }
}

pub proof fn lemma_digits_of_ascii(n: nat, radix: nat)
    requires
        radix == 10 || radix == 16,
    ensures
        forall|i: int|
            0 <= i < digits_of(n, radix).len() ==> (#[trigger] digits_of(n, radix)[i] as u32) < 0x80,
    decreases n,
{
    if n >= radix {
        lemma_digits_of_ascii(n / radix, radix);
        let d = digits_of(n, radix);
        assert forall|i: int| 0 <= i < d.len() implies (#[trigger] d[i] as u32) < 0x80 by {
            if i < d.len() - 1 {
                assert(d[i] == digits_of(n / radix, radix)[i]);
            }
        }
    }
}

/// Zero-padded hexadecimal text is ASCII and at least `w` long.
pub proof fn lemma_hex_text_len(v: nat, w: nat)
    ensures
        hex_text(v, w).len() >= w,
        forall|i: int| 0 <= i < hex_text(v, w).len() ==> (#[trigger] hex_text(v, w)[i] as u32) < 0x80,
{
    lemma_digits_of_ascii(v, 16);
    let d = digits_of(v, 16);
    let t = hex_text(v, w);
    assert forall|i: int| 0 <= i < t.len() implies (#[trigger] t[i] as u32) < 0x80 by {
        if d.len() < w && i < w - d.len() {
        } else if d.len() < w {
            assert(t[i] == d[i - (w - d.len())]);
        }
    }
}

/// Digits of `n` in base `radix` (10 or 16), lowercase, without leading zeros.
pub fn digits(n: u64, radix: u64) -> (r: Vec<char>)
    requires
        radix == 10 || radix == 16,
    ensures
        r@ == digits_of(n as nat, radix as nat),
    decreases n,
{
    if n < radix {
        let c = if n < 10 {
            char_from_u32((0x30 + n) as u32)
        } else {
            char_from_u32((0x61 + n - 10) as u32)
        };
        let mut v = Vec::new();
        v.push(c);
        assert(v@ =~= seq![digit_char(n as int)]);
        v
    } else {
        let mut v = digits(n / radix, radix);
        let d = n % radix;
        let c = if d < 10 {
            char_from_u32((0x30 + d) as u32)
        } else {
            char_from_u32((0x61 + d - 10) as u32)
        };
        v.push(c);
        v
    }
}

/// The character with the given code (an ASCII code here).
fn char_from_u32(u: u32) -> (c: char)
    requires
        u < 128,
    ensures
        c == u as char,
{
    let b = u as u8;
    b as char
}

/// Decimal text of `v` (`i64::to_string`).
pub fn i64_text(v: i64) -> (r: Vec<char>)
    ensures
        r@ == decimal_text(v as int),
{
    if v < 0 {
        let m: u64 = if v == i64::MIN {
            0x8000_0000_0000_0000u64
        } else {
            (0 - v) as u64
        };
        let d = digits(m, 10);
        let mut r = Vec::new();
        r.push('-');
        crate::text::push_all(&mut r, d.as_slice());
        assert(r@ =~= seq!['-'] + digits_of((-(v as int)) as nat, 10));
        r
    } else {
        digits(v as u64, 10)
    }
}

/// Lowercase hexadecimal text of `v` padded with zeros to `w` digits.
pub fn hex_padded(v: u64, w: usize) -> (r: Vec<char>)
    ensures
        r@ == hex_text(v as nat, w as nat),
{
    let d = digits(v, 16);
    if d.len() >= w {
        d
    } else {
        let mut r = Vec::new();
        let n = w - d.len();
        let mut i: usize = 0;
        while i < n
            invariant
                i <= n,
                r@ == Seq::new(i as nat, |j: int| '0'),
            decreases n - i,
        {
            r.push('0');
            i = i + 1;
            assert(r@ =~= Seq::new(i as nat, |j: int| '0'));
        }
        crate::text::push_all(&mut r, d.as_slice());
        r
    }
}

} // verus!
