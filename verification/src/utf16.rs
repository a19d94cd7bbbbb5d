//! UTF-16 code units: encoding and decoding of characters, the little-endian
//! byte form, and JavaScript's `unescape`.
use vstd::prelude::*;

use crate::num::parse_in_range;

verus! {

/// The UTF-16 code units of one character.
pub open spec fn char_units(c: char) -> Seq<u16> {
    let u = c as u32;
    if u < 0x10000 {
        seq![u as u16]
    } else {
        let v = u - 0x10000;
        seq![(0xD800 + v / 0x400) as u16, (0xDC00 + v % 0x400) as u16]
    }
}

/// The UTF-16 code units of a text (`str::encode_utf16`).
pub open spec fn encode_utf16(s: Seq<char>) -> Seq<u16>
    decreases s.len(),
{
    if s.len() == 0 {
        Seq::empty()
    } else {
        encode_utf16(s.drop_last()) + char_units(s.last())
    }
}

pub open spec fn is_high(u: u16) -> bool {
    0xD800 <= u < 0xDC00
}

pub open spec fn is_low(u: u16) -> bool {
    0xDC00 <= u < 0xE000
}

/// The character of a surrogate pair.
pub open spec fn pair_char(h: u16, l: u16) -> char {
    (0x10000 + (h - 0xD800) * 0x400 + (l - 0xDC00)) as char
}

/// The text of UTF-16 code units, `None` when a surrogate is unpaired
/// (`String::from_utf16`).
pub open spec fn decode_utf16(u: Seq<u16>) -> Option<Seq<char>>
    decreases u.len(),
{
    if u.len() == 0 {
        Some(Seq::empty())
    } else if !is_high(u[0]) && !is_low(u[0]) {
        match decode_utf16(u.skip(1)) {
            Some(t) => Some(seq![u[0] as char] + t),
            None => None,
        }
    } else if is_high(u[0]) && u.len() >= 2 && is_low(u[1]) {
        match decode_utf16(u.skip(2)) {
            Some(t) => Some(seq![pair_char(u[0], u[1])] + t),
            None => None,
        }
    } else {
        None
    }
}

/// Like [`decode_utf16`], an unpaired surrogate becoming U+FFFD
/// (`String::from_utf16_lossy`).
pub open spec fn decode_utf16_lossy(u: Seq<u16>) -> Seq<char>
    decreases u.len(),
{
    if u.len() == 0 {
        Seq::empty()
    } else if !is_high(u[0]) && !is_low(u[0]) {
        seq![u[0] as char] + decode_utf16_lossy(u.skip(1))
    } else if is_high(u[0]) && u.len() >= 2 && is_low(u[1]) {
        seq![pair_char(u[0], u[1])] + decode_utf16_lossy(u.skip(2))
    } else {
        seq!['\u{FFFD}'] + decode_utf16_lossy(u.skip(1))
    }
}

/// Code units read from little-endian byte pairs; an odd last byte is
/// ignored (`chunks_exact(2)` with `u16::from_le_bytes`).
pub open spec fn units_of_le(b: Seq<u8>) -> Seq<u16> {
    Seq::new(b.len() / 2, |i: int| (b[2 * i] + 0x100 * b[2 * i + 1]) as u16)
}

/// Little-endian bytes of code units (`u16::to_le_bytes`).
pub open spec fn le_of_units(u: Seq<u16>) -> Seq<u8> {
    Seq::new(2 * u.len(), |i: int| if i % 2 == 0 { (u[i / 2] % 0x100) as u8 } else { (u[i / 2] / 0x100) as u8 })
}

/// The value of hexadecimal code units (`u16::from_str_radix(.., 16)` on
/// their text).
pub open spec fn hex_units(u: Seq<u16>) -> Option<int> {
    if forall|i: int| 0 <= i < u.len() ==> u[i] < 0x80 {
        parse_in_range(u.map_values(|x: u16| x as char), 16, false, 0, 0xFFFF)
    } else {
        None
    }
}

/// JavaScript's `unescape` on code units: `%uXXXX` and `%XX` become the unit
/// they write, everything else stays.
pub open spec fn js_unescape_units(u: Seq<u16>) -> Seq<u16>
    decreases u.len(),
{
    if u.len() == 0 {
        Seq::empty()
    } else if u[0] == 0x25 && u.len() >= 6 && u[1] == 0x75 && hex_units(u.subrange(2, 6)) is Some {
        seq![hex_units(u.subrange(2, 6)).unwrap() as u16] + js_unescape_units(u.skip(6))
    } else if u[0] == 0x25 && u.len() >= 3 && hex_units(u.subrange(1, 3)) is Some {
        seq![hex_units(u.subrange(1, 3)).unwrap() as u16] + js_unescape_units(u.skip(3))
    } else {
        seq![u[0]] + js_unescape_units(u.skip(1))
    }
}

/// JavaScript's `unescape` (used by legacy SJCL items).
pub open spec fn js_unescape_spec(s: Seq<char>) -> Seq<char> {
    decode_utf16_lossy(js_unescape_units(encode_utf16(s)))
}

/// UTF-16 code units of a text.
pub fn to_units(s: &[char]) -> (r: Vec<u16>)
    ensures
        r@ == encode_utf16(s@),
{
    let mut r: Vec<u16> = Vec::new();
    let mut i: usize = 0;
    while i < s.len()
        invariant
            i <= s@.len(),
            r@ == encode_utf16(s@.take(i as int)),
        decreases s@.len() - i,
    {
        let u = s[i] as u32;
        let ghost before = r@;
        if u < 0x10000 {
            r.push(u as u16);
        } else {
            let v = u - 0x10000;
            r.push((0xD800 + v / 0x400) as u16);
            r.push((0xDC00 + v % 0x400) as u16);
        }
        proof {
            assert(s@.take(i + 1).drop_last() =~= s@.take(i as int));
            assert(s@.take(i + 1).last() == s@[i as int]);
            assert(r@ =~= before + char_units(s@[i as int]));
        }
        i = i + 1;
    }
    assert(s@.take(s@.len() as int) =~= s@);
    r
}

/// A Unicode scalar value: at most 0x10FFFF and not a surrogate.
pub open spec fn is_scalar(v: u32) -> bool {
    v <= 0x10FFFF && !(0xD800 <= v < 0xE000)
}

/// `char::from_u32`: the character with that code, if it is a scalar value.
#[verifier::external_body]
pub(crate) fn char_from_code(v: u32) -> (r: Option<char>)
    ensures
        is_scalar(v) ==> r == Some(v as char),
        !is_scalar(v) ==> r is None,
{
    char::from_u32(v)
}

fn char_of_unit(u: u16) -> (c: char)
    requires
        !is_high(u) && !is_low(u),
    ensures
        c == u as char,
{
    match char_from_code(u as u32) {
        Some(c) => c,
        None => {
            assert(false);
            '\u{FFFD}'
        },
    }
}

fn char_of_pair(h: u16, l: u16) -> (c: char)
    requires
        is_high(h) && is_low(l),
    ensures
        c == pair_char(h, l),
{
    let v: u32 = 0x10000 + (h as u32 - 0xD800) * 0x400 + (l as u32 - 0xDC00);
    match char_from_code(v) {
        Some(c) => c,
        None => {
            assert(false);
            '\u{FFFD}'
        },
    }
}

/// The text of UTF-16 code units (`String::from_utf16`).
pub fn from_units(u: &[u16]) -> (r: Option<Vec<char>>)
    ensures
        match decode_utf16(u@) {
            Some(t) => r is Some && r->Some_0@ == t,
            None => r is None,
        },
{
    let mut out: Vec<char> = Vec::new();
    let mut i: usize = 0;
    let n = u.len();
    assert(u@.skip(0) =~= u@);
    while i < n
        invariant
            n == u@.len(),
            i <= n,
            decode_utf16(u@) == match decode_utf16(u@.skip(i as int)) {
                Some(t) => Some(out@ + t),
                None => None,
            },
        decreases n - i,
    {
        let ghost rest = u@.skip(i as int);
        let a = u[i];
        if !(0xD800 <= a && a < 0xE000) {
            assert(rest.skip(1) =~= u@.skip(i + 1));
            let c = char_of_unit(a);
            proof {
                match decode_utf16(u@.skip(i + 1)) {
                    Some(t) => {
                        assert(out@.push(c) + t =~= out@ + (seq![c] + t));
                    },
                    None => {},
                }
            }
            out.push(c);
            i = i + 1;
        } else if a < 0xDC00 && i + 1 < n && 0xDC00 <= u[i + 1] && u[i + 1] < 0xE000 {
            assert(rest.skip(2) =~= u@.skip(i + 2));
            let c = char_of_pair(a, u[i + 1]);
            proof {
                match decode_utf16(u@.skip(i + 2)) {
                    Some(t) => {
                        assert(out@.push(c) + t =~= out@ + (seq![c] + t));
                    },
                    None => {},
                }
            }
            out.push(c);
            i = i + 2;
        } else {
            return None;
        }
    }
    assert(u@.skip(n as int) =~= Seq::<u16>::empty());
    assert(out@ + Seq::<char>::empty() =~= out@);
    Some(out)
}

/// The text of UTF-16 code units, unpaired surrogates replaced
/// (`String::from_utf16_lossy`).
pub fn from_units_lossy(u: &[u16]) -> (r: Vec<char>)
    ensures
        r@ == decode_utf16_lossy(u@),
{
    let mut out: Vec<char> = Vec::new();
    let mut i: usize = 0;
    let n = u.len();
    assert(u@.skip(0) =~= u@);
    while i < n
        invariant
            n == u@.len(),
            i <= n,
            decode_utf16_lossy(u@) == out@ + decode_utf16_lossy(u@.skip(i as int)),
        decreases n - i,
    {
        let ghost rest = u@.skip(i as int);
        let a = u[i];
        let ghost before = out@;
        if !(0xD800 <= a && a < 0xE000) {
            assert(rest.skip(1) =~= u@.skip(i + 1));
            let c = char_of_unit(a);
            out.push(c);
            assert(before + decode_utf16_lossy(rest) =~= out@ + decode_utf16_lossy(u@.skip(i + 1)));
            i = i + 1;
        } else if a < 0xDC00 && i + 1 < n && 0xDC00 <= u[i + 1] && u[i + 1] < 0xE000 {
            assert(rest.skip(2) =~= u@.skip(i + 2));
            let c = char_of_pair(a, u[i + 1]);
            out.push(c);
            assert(before + decode_utf16_lossy(rest) =~= out@ + decode_utf16_lossy(u@.skip(i + 2)));
            i = i + 2;
        } else {
            assert(rest.skip(1) =~= u@.skip(i + 1));
            out.push('\u{FFFD}');
            assert(before + decode_utf16_lossy(rest) =~= out@ + decode_utf16_lossy(u@.skip(i + 1)));
            i = i + 1;
        }
    }
    assert(u@.skip(n as int) =~= Seq::<u16>::empty());
    assert(out@ + Seq::<char>::empty() =~= out@);
    out
}

/// Code units from little-endian byte pairs.
pub fn units_from_le(b: &[u8]) -> (r: Vec<u16>)
    ensures
        r@ == units_of_le(b@),
{
    let mut r: Vec<u16> = Vec::new();
    let bl = b.len();
    let n = bl / 2;
    let mut i: usize = 0;
    while i < n
        invariant
            bl == b@.len(),
            n == b@.len() / 2,
            i <= n,
            r@ =~= units_of_le(b@).take(i as int),
        decreases n - i,
    {
        let v: u16 = (b[2 * i] as u16) + 0x100 * (b[2 * i + 1] as u16);
        r.push(v);
        i = i + 1;
    }
    assert(units_of_le(b@).take(n as int) =~= units_of_le(b@));
    r
}

/// Little-endian bytes of code units.
pub fn le_from_units(u: &[u16]) -> (r: Vec<u8>)
    ensures
        r@ == le_of_units(u@),
{
    let mut r: Vec<u8> = Vec::new();
    let mut i: usize = 0;
    while i < u.len()
        invariant
            i <= u@.len(),
            r@ =~= le_of_units(u@).take(2 * i),
        decreases u@.len() - i,
    {
        r.push((u[i] % 0x100) as u8);
        r.push((u[i] / 0x100) as u8);
        i = i + 1;
    }
    assert(le_of_units(u@).take(2 * u@.len() as int) =~= le_of_units(u@));
    r
}

/// The value of hexadecimal code units.
fn hex_of_units(u: &[u16]) -> (r: Option<u16>)
    ensures
        match hex_units(u@) {
            Some(v) => r == Some(v as u16),
            None => r is None,
        },
{
    let mut cs: Vec<char> = Vec::new();
    let mut i: usize = 0;
    while i < u.len()
        invariant
            i <= u@.len(),
            forall|j: int| 0 <= j < i ==> u@[j] < 0x80,
            cs@ =~= u@.take(i as int).map_values(|x: u16| x as char),
        decreases u@.len() - i,
    {
        if u[i] >= 0x80 {
            return None;
        }
        cs.push(char_of_unit(u[i]));
        i = i + 1;
    }
    assert(u@.take(u@.len() as int) =~= u@);
    match crate::num::parse_int(cs.as_slice(), 16, false, 0, 0xFFFF) {
        Some(v) => Some(v as u16),
        None => None,
    }
}

/// One step of `unescape` at unit `i`: the unit it yields and how many
/// units it reads.
fn unescape_step(units: &[u16], i: usize) -> (r: (u16, usize))
    requires
        i < units@.len(),
    ensures
        1 <= r.1 <= units@.len() - i,
        js_unescape_units(units@.skip(i as int)) == seq![r.0] + js_unescape_units(
            units@.skip(i + r.1),
        ),
{
    let n = units.len();
    let ghost rest = units@.skip(i as int);
    let c = units[i];
    if c == 0x25 {
        if n - i >= 6 && units[i + 1] == 0x75 {
            let sub = copy_units(units, i + 2, i + 6);
            assert(sub@ =~= rest.subrange(2, 6));
            match hex_of_units(sub.as_slice()) {
                Some(v) => {
                    assert(rest.skip(6) =~= units@.skip(i + 6));
                    return (v, 6);
                },
                None => {},
            }
        }
        if n - i >= 3 {
            let sub = copy_units(units, i + 1, i + 3);
            assert(sub@ =~= rest.subrange(1, 3));
            match hex_of_units(sub.as_slice()) {
                Some(v) => {
                    assert(rest.skip(3) =~= units@.skip(i + 3));
                    return (v, 3);
                },
                None => {},
            }
        }
    }
    assert(rest.skip(1) =~= units@.skip(i + 1));
    (c, 1)
}

/// JavaScript's `unescape` on characters.
pub fn js_unescape_chars(s: &[char]) -> (r: Vec<char>)
    ensures
        r@ == js_unescape_spec(s@),
{
    let units = to_units(s);
    let n = units.len();
    let mut out: Vec<u16> = Vec::new();
    let mut i: usize = 0;
    assert(units@.skip(0) =~= units@);
    while i < n
        invariant
            n == units@.len(),
            i <= n,
            js_unescape_units(units@) == out@ + js_unescape_units(units@.skip(i as int)),
        decreases n - i,
    {
        let (v, k) = unescape_step(units.as_slice(), i);
        let ghost before = out@;
        out.push(v);
        assert(before + (seq![v] + js_unescape_units(units@.skip(i + k))) =~= out@ + js_unescape_units(units@.skip(i + k)));
        i = i + k;
    }
    assert(units@.skip(n as int) =~= Seq::<u16>::empty());
    assert(out@ + Seq::<u16>::empty() =~= out@);
    from_units_lossy(out.as_slice())
}

fn copy_units(u: &[u16], lo: usize, hi: usize) -> (r: Vec<u16>)
    requires
        lo <= hi <= u@.len(),
    ensures
        r@ == u@.subrange(lo as int, hi as int),
{
    let mut r: Vec<u16> = Vec::new();
    let mut i = lo;
    while i < hi
        invariant
            lo <= i <= hi <= u@.len(),
            r@ =~= u@.subrange(lo as int, i as int),
        decreases hi - i,
    {
        r.push(u[i]);
        i = i + 1;
    }
    r
}

/// The code units of a text, its first character first.
proof fn lemma_encode_utf16_front(s: Seq<char>)
    requires
        s.len() > 0,
    ensures
        encode_utf16(s) == char_units(s[0]) + encode_utf16(s.drop_first()),
    decreases s.len(),
{
    if s.len() == 1 {
        assert(s.drop_last() =~= Seq::<char>::empty());
        assert(s.drop_first() =~= Seq::<char>::empty());
        assert(encode_utf16(s) =~= char_units(s[0]) + encode_utf16(s.drop_first()));
    } else {
        let d = s.drop_last();
        lemma_encode_utf16_front(d);
        assert(d.drop_first() =~= s.drop_first().drop_last());
        assert(s.drop_first().last() == s.last());
        assert(encode_utf16(s) =~= char_units(s[0]) + encode_utf16(s.drop_first()));
    }
}

/// Decoding the units of one character followed by more units.
proof fn lemma_decode_char_units(c: char, rest: Seq<u16>)
    ensures
        decode_utf16(char_units(c) + rest) == match decode_utf16(rest) {
            Some(t) => Some(seq![c] + t),
            None => None::<Seq<char>>,
        },
{
    let u = c as u32;
    vstd::utf8::char_is_scalar(c);
    let w = char_units(c) + rest;
    if u < 0x10000 {
        let x = u as u16;
        assert(w[0] == x);
        assert(!is_high(x) && !is_low(x));
        vstd::utf8::char_u32_cast(c, u);
        assert((x as char) == c);
        assert(w.skip(1) =~= rest);
    } else {
        let v = u - 0x10000;
        let h = (0xD800 + v / 0x400) as u16;
        let l = (0xDC00 + v % 0x400) as u16;
        assert(v < 0x100000);
        assert(v / 0x400 < 0x400);
        assert(w[0] == h && w[1] == l);
        assert(is_high(h) && is_low(l));
        assert((v / 0x400) * 0x400 + v % 0x400 == v);
        assert(0x10000 + (h - 0xD800) * 0x400 + (l - 0xDC00) == u);
        vstd::utf8::char_u32_cast(c, u);
        assert(pair_char(h, l) == c);
        assert(w.skip(2) =~= rest);
    }
}

/// Decoding the UTF-16 code units of a text gives the text back.
pub proof fn lemma_utf16_round_trip(s: Seq<char>)
    ensures
        decode_utf16(encode_utf16(s)) == Some(s),
    decreases s.len(),
{
    if s.len() == 0 {
        assert(encode_utf16(s) =~= Seq::<u16>::empty());
    } else {
        lemma_encode_utf16_front(s);
        lemma_utf16_round_trip(s.drop_first());
        lemma_decode_char_units(s[0], encode_utf16(s.drop_first()));
        assert(seq![s[0]] + s.drop_first() =~= s);
    }
}

/// Reading back little-endian bytes of code units gives the units.
pub proof fn lemma_units_le_round_trip(u: Seq<u16>)
    ensures
        units_of_le(le_of_units(u)) == u,
{
    let b = le_of_units(u);
    assert forall|i: int| 0 <= i < u.len() implies #[trigger] units_of_le(b)[i] == u[i] by {
        assert((2 * i) / 2 == i && (2 * i) % 2 == 0);
        assert((2 * i + 1) / 2 == i && (2 * i + 1) % 2 == 1);
        let x = u[i];
        assert(b[2 * i] == x % 0x100);
        assert(b[2 * i + 1] == x / 0x100);
        assert(x % 0x100 + 0x100 * (x / 0x100) == x);
    }
    assert(units_of_le(b) =~= u);
}

/// Code units read from bytes joined at an even offset.
pub proof fn lemma_units_le_add(a: Seq<u8>, c: Seq<u8>)
    requires
        a.len() % 2 == 0,
    ensures
        units_of_le(a + c) == units_of_le(a) + units_of_le(c),
{
    let k = a.len() / 2;
    assert((a.len() + c.len()) / 2 == k + c.len() / 2);
    assert forall|i: int| 0 <= i < units_of_le(a + c).len() implies #[trigger] units_of_le(a + c)[i] == (
    units_of_le(a) + units_of_le(c))[i] by {
        if i < k {
            assert((a + c)[2 * i] == a[2 * i]);
            assert((a + c)[2 * i + 1] == a[2 * i + 1]);
        } else {
            let j = i - k;
            assert(2 * i == 2 * j + a.len());
            assert((a + c)[2 * i] == c[2 * j]);
            assert((a + c)[2 * i + 1] == c[2 * j + 1]);
        }
    }
    assert(units_of_le(a + c) =~= units_of_le(a) + units_of_le(c));
}

} // verus!
