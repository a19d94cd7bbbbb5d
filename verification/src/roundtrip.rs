//! Decrypting what was encrypted gives it back: the StringV1 and FileV1
//! round trips, and the pieces they are proved from (UTF-8 of ASCII text,
//! hexadecimal lengths, the encryption header, the chunk frames).
use vstd::prelude::*;

use crate::crypto::{b64_bytes, b64_chars, b64_text, frame_doc, frame_member, gcm_frame, gcm_open, gcm_seal, json_plain, json_str_member, pbkdf2_sha512_32};
use crate::e2ee::{
    boundary, decode_header_spec, decrypt_file_spec, decrypt_string_spec, encode_header_spec, file_chunks, frames,
    gcm_decrypt_spec, gcm_encrypted, header_panics, hex_num_spec, latin1, piece_end, sealed_frame, sealed_pieces,
    sealed_text, string_chunks, take_ok, FILE_V1_CHUNK, METHOD_FILE_V1, METHOD_STRING_V1, STRING_V1_CHUNK,
};
use crate::error::ErrKind;
use crate::props::lookup;
use crate::utf16::{decode_utf16, encode_utf16, le_of_units, units_of_le};
use crate::num::{all_digits, digit_value, digits_of, digits_value, hex_text, numeral_value, parse_in_range, zero_pad};

verus! {

/// Whether every character is ASCII.
pub open spec fn ascii(s: Seq<char>) -> bool {
    forall|i: int| 0 <= i < s.len() ==> (#[trigger] s[i] as u32) < 0x80
}

/// UTF-8 of a concatenation.
pub proof fn lemma_utf8_append(a: Seq<char>, b: Seq<char>)
    ensures
        vstd::utf8::encode_utf8(a + b) == vstd::utf8::encode_utf8(a) + vstd::utf8::encode_utf8(b),
    decreases a.len(),
{
    if a.len() > 0 {
        lemma_utf8_append(a.drop_first(), b);
        assert((a + b).drop_first() =~= a.drop_first() + b);
        assert((a + b)[0] == a[0]);
        assert(vstd::utf8::encode_utf8(a) == vstd::utf8::encode_scalar(a[0] as u32) + vstd::utf8::encode_utf8(a.drop_first()));
        assert(vstd::utf8::encode_utf8(a + b) == vstd::utf8::encode_scalar(a[0] as u32) + vstd::utf8::encode_utf8(a.drop_first() + b));
        assert(vstd::utf8::encode_scalar(a[0] as u32) + (vstd::utf8::encode_utf8(a.drop_first()) + vstd::utf8::encode_utf8(b))
            =~= vstd::utf8::encode_scalar(a[0] as u32) + vstd::utf8::encode_utf8(a.drop_first()) + vstd::utf8::encode_utf8(b));
    } else {
        assert(a + b =~= b);
        assert(vstd::utf8::encode_utf8(a) =~= Seq::<u8>::empty());
        assert(Seq::<u8>::empty() + vstd::utf8::encode_utf8(b) =~= vstd::utf8::encode_utf8(b));
    }
}

/// ASCII text is its own UTF-8, byte for character.
pub proof fn lemma_utf8_ascii(s: Seq<char>)
    requires
        ascii(s),
    ensures
        vstd::utf8::encode_utf8(s).len() == s.len(),
        forall|i: int| 0 <= i < s.len() ==> #[trigger] vstd::utf8::encode_utf8(s)[i] == s[i] as u32,
    decreases s.len(),
{
    if s.len() > 0 {
        let t = s.drop_first();
        assert(ascii(t)) by {
            assert forall|i: int| 0 <= i < t.len() implies (#[trigger] t[i] as u32) < 0x80 by {
                assert(t[i] == s[i + 1]);
            }
        }
        lemma_utf8_ascii(t);
        assert((s[0] as u32) < 0x80);
        let c = s[0] as u32;
        assert(vstd::utf8::has_width_1_encoding(c));
        assert(vstd::utf8::leading_byte_width_1(c) == c) by (bit_vector)
            requires
                c < 0x80,
        ;
        let e = vstd::utf8::encode_utf8(s);
        assert(e == seq![vstd::utf8::leading_byte_width_1(c)] + vstd::utf8::encode_utf8(t));
        assert forall|i: int| 0 <= i < s.len() implies #[trigger] vstd::utf8::encode_utf8(s)[i] == s[i] as u32 by {
            if i > 0 {
                assert(e[i] == vstd::utf8::encode_utf8(t)[i - 1]);
                assert(t[i - 1] == s[i]);
            }
        }
    }
}

/// Bytes of ASCII text read back as characters.
pub proof fn lemma_latin1_ascii(s: Seq<char>)
    requires
        ascii(s),
    ensures
        latin1(vstd::utf8::encode_utf8(s)) == s,
{
    lemma_utf8_ascii(s);
    let b = vstd::utf8::encode_utf8(s);
    assert forall|i: int| 0 <= i < s.len() implies #[trigger] latin1(b)[i] == s[i] by {
        let u = s[i] as u32;
        vstd::utf8::char_u32_cast(s[i], u);
        assert(b[i] == u);
        assert((b[i] as char) == (u as char));
    }
    assert(latin1(b) =~= s);
}

/// `16^k`.
pub open spec fn pow16(k: nat) -> nat
    decreases k,
{
    if k == 0 {
        1
    } else {
        16 * pow16((k - 1) as nat)
    }
}

/// A number below `16^k` has at most `k` hexadecimal digits.
proof fn lemma_hex_digits_len(n: nat, k: nat)
    requires
        k >= 1,
        n < pow16(k),
    ensures
        digits_of(n, 16).len() <= k,
    decreases k,
{
    if n >= 16 {
        assert(k > 1) by {
            if k == 1 {
                assert(pow16(1) == 16 * pow16(0));
            }
        }
        assert(n / 16 < pow16((k - 1) as nat)) by {
            assert(pow16(k) == 16 * pow16((k - 1) as nat));
            assert(n / 16 < pow16((k - 1) as nat)) by (nonlinear_arith)
                requires
                    n < 16 * pow16((k - 1) as nat),
            ;
        }
        lemma_hex_digits_len(n / 16, (k - 1) as nat);
        assert(digits_of(n, 16) == digits_of(n / 16, 16) + seq![crate::num::digit_char((n % 16) as int)]);
    }
}

/// `hex_text(n, w)` has `w` digits and reads back as `n`.
pub proof fn lemma_hex_text_parse(n: nat, w: nat, max: int)
    requires
        w >= 1,
        n < pow16(w),
        n <= max,
    ensures
        hex_text(n, w).len() == w,
        ascii(hex_text(n, w)),
        parse_in_range(hex_text(n, w), 16, false, 0, max) == Some(n as int),
{
    lemma_hex_digits_len(n, w);
    crate::num::lemma_digits_of_value(n, 16);
    crate::num::lemma_zero_pad_value(digits_of(n, 16), w, 16);
    crate::num::lemma_hex_text_len(n, w);
    let t = hex_text(n, w);
    assert(t.len() == w);
    assert(digit_value(t[0], 16) is Some);
    assert(t[0] != '+' && t[0] != '-');
    assert(ascii(t));
}

/// Reading the header of an encrypted text: the method, the 32 bytes of the
/// key id and the offset 45 of the first chunk, whatever follows when that
/// starts with an ASCII byte.
pub proof fn lemma_header_read(method: u32, id: Seq<char>, rest: Seq<u8>)
    requires
        method < 256,
        vstd::utf8::encode_utf8(id).len() == 32,
        rest.len() > 0 ==> rest[0] < 0x80,
    ensures
        decode_header_spec(vstd::utf8::encode_utf8(encode_header_spec(method, id)) + rest) == Some(
            (method, vstd::utf8::encode_utf8(id), 45int),
        ),
        !header_panics(vstd::utf8::encode_utf8(encode_header_spec(method, id)) + rest),
{
    let m = hex_text(method as nat, 2);
    let idb = vstd::utf8::encode_utf8(id);
    assert(pow16(2) == 256) by {
        reveal_with_fuel(pow16, 3);
    }
    assert(pow16(6) == 16777216) by {
        reveal_with_fuel(pow16, 7);
    }
    lemma_hex_text_parse(method as nat, 2, usize::MAX as int);
    lemma_hex_text_parse(34, 6, usize::MAX as int);
    let l = hex_text(m.len() + idb.len(), 6);
    assert(m.len() + idb.len() == 34);
    let head = seq!['J', 'E', 'D', '0', '1'] + l + m;
    assert(ascii(head)) by {
        assert forall|i: int| 0 <= i < head.len() implies (#[trigger] head[i] as u32) < 0x80 by {
            if i < 5 {
            } else if i < 11 {
                assert(head[i] == l[i - 5]);
            } else {
                assert(head[i] == m[i - 11]);
            }
        }
    }
    assert(encode_header_spec(method, id) == head + id);
    lemma_utf8_append(head, id);
    lemma_utf8_ascii(head);
    let hb = vstd::utf8::encode_utf8(head);
    let b = hb + idb + rest;
    assert(vstd::utf8::encode_utf8(encode_header_spec(method, id)) + rest == b);
    assert(head.len() == 13);
    assert(b.len() == 45 + rest.len());
    assert forall|i: int| 0 <= i < 13 implies #[trigger] b[i] == head[i] as u32 by {
        assert(b[i] == hb[i]);
    }
    // The first bytes are ASCII, so every offset up to 13 starts a character.
    assert(b[5] == head[5] as u32 && (head[5] as u32) < 0x80);
    assert(b[11] == head[11] as u32 && (head[11] as u32) < 0x80);
    assert(boundary(b, 5) && boundary(b, 11));
    assert(boundary(b, 13)) by {
        vstd::utf8::encode_utf8_valid_utf8(id);
        vstd::utf8::is_char_boundary_start_end_of_seq(idb);
        vstd::utf8::is_char_boundary_iff_not_is_continuation_byte(idb, 0);
        assert(b[13] == idb[0]);
    }
    assert(boundary(b, 45)) by {
        if rest.len() > 0 {
            assert(b[45] == rest[0]);
        }
    }
    assert(take_ok(b, 0, 5) && take_ok(b, 5, 6) && take_ok(b, 11, 34));
    assert(b.subrange(3, 5) =~= vstd::utf8::encode_utf8(seq!['0', '1'])) by {
        lemma_utf8_ascii(seq!['0', '1']);
    }
    assert(parse_in_range(seq!['0', '1'], 10, false, 0, u32::MAX as int) is Some) by {
        let d = seq!['0', '1'];
        assert(('0' as u32) == 0x30 && ('1' as u32) == 0x31);
        assert(digit_value(d[0], 10) == Some(0int) && digit_value(d[1], 10) == Some(1int));
        assert(all_digits(d, 10));
        assert(d.drop_last() =~= seq!['0']);
        assert(seq!['0'].drop_last() =~= Seq::<char>::empty());
        assert(digits_value(Seq::<char>::empty(), 10) == 0);
        assert(seq!['0'].last() == '0' && digit_value('0', 10) == Some(0int));
        assert(digits_value(seq!['0'], 10) == 0);
        assert(digits_value(d, 10) == 1);
    }
    lemma_latin1_ascii(seq!['0', '1']);
    assert(b.subrange(5, 11) =~= vstd::utf8::encode_utf8(l)) by {
        lemma_utf8_ascii(l);
    }
    lemma_latin1_ascii(l);
    assert(b.subrange(11, 13) =~= vstd::utf8::encode_utf8(m)) by {
        lemma_utf8_ascii(m);
    }
    lemma_latin1_ascii(m);
    assert(b.subrange(13, 45) =~= idb);
    assert(b[0] == 0x4A && b[1] == 0x45 && b[2] == 0x44);
}

/// ASCII texts joined are ASCII.
pub proof fn lemma_ascii_add(a: Seq<char>, b: Seq<char>)
    requires
        ascii(a),
        ascii(b),
    ensures
        ascii(a + b),
{
    assert forall|i: int| 0 <= i < (a + b).len() implies (#[trigger] (a + b)[i] as u32) < 0x80 by {
        if i < a.len() {
            assert((a + b)[i] == a[i]);
        } else {
            assert((a + b)[i] == b[i - a.len()]);
        }
    }
}

/// Base64 text is ASCII and plain JSON string content.
proof fn lemma_b64_ascii(t: Seq<char>)
    requires
        b64_chars(t),
    ensures
        ascii(t),
        json_plain(t),
{
    assert forall|i: int| 0 <= i < t.len() implies (#[trigger] t[i] as u32) < 0x80 && t[i] != '"' && t[i]
        != '\\' && t[i] as u32 >= 0x20 by {
        assert(crate::crypto::is_b64_char(t[i]));
    }
}

/// A text without quotes followed by a text that starts with a quote can be
/// cut there only one way.
proof fn lemma_quoted_split(x: Seq<char>, y: Seq<char>, r: Seq<char>, r2: Seq<char>)
    requires
        json_plain(x),
        json_plain(y),
        r.len() > 0 && r[0] == '"',
        r2.len() > 0 && r2[0] == '"',
        x + r == y + r2,
    ensures
        x == y,
        r == r2,
{
    let j = x + r;
    if x.len() < y.len() {
        assert(j[x.len() as int] == r[0]);
        assert((y + r2)[x.len() as int] == y[x.len() as int]);
    } else if y.len() < x.len() {
        assert((y + r2)[y.len() as int] == r2[0]);
        assert(j[y.len() as int] == x[y.len() as int]);
    }
    assert(x.len() == y.len());
    assert forall|i: int| 0 <= i < x.len() implies x[i] == y[i] by {
        assert(j[i] == x[i]);
        assert((y + r2)[i] == y[i]);
    }
    assert(x =~= y);
    assert(j.len() == (y + r2).len());
    assert(r.len() == r2.len());
    assert forall|i: int| 0 <= i < r.len() implies r[i] == r2[i] by {
        assert(i + x.len() < j.len());
        assert(j[i + x.len()] == r[i]);
        assert((y + r2)[i + y.len()] == r2[i]);
    }
    assert(r =~= r2);
}

/// A cipher frame of plain texts gives back its three texts.
proof fn lemma_frame_unique(f: (Seq<char>, Seq<char>, Seq<char>), g: (Seq<char>, Seq<char>, Seq<char>))
    requires
        json_plain(f.0) && json_plain(f.1) && json_plain(f.2),
        json_plain(g.0) && json_plain(g.1) && json_plain(g.2),
        gcm_frame(f.0, f.1, f.2) == gcm_frame(g.0, g.1, g.2),
    ensures
        f == g,
{
    reveal_strlit("{\"salt\":\"");
    reveal_strlit("\",\"iv\":\"");
    reveal_strlit("\",\"ct\":\"");
    reveal_strlit("\"}");
    let p1 = "{\"salt\":\""@;
    let p2 = "\",\"iv\":\""@;
    let p3 = "\",\"ct\":\""@;
    let p4 = "\"}"@;
    let ff = gcm_frame(f.0, f.1, f.2);
    let sf = p3 + f.2 + p4;
    let sg = p3 + g.2 + p4;
    let rf = p2 + f.1 + sf;
    let rg = p2 + g.1 + sg;
    assert(ff.subrange(9, ff.len() as int) =~= f.0 + rf);
    assert(ff.subrange(9, ff.len() as int) =~= g.0 + rg);
    lemma_quoted_split(f.0, g.0, rf, rg);
    assert(rf.subrange(8, rf.len() as int) =~= f.1 + sf);
    assert(rg.subrange(8, rg.len() as int) =~= g.1 + sg);
    lemma_quoted_split(f.1, g.1, sf, sg);
    assert(sf.subrange(8, sf.len() as int) =~= f.2 + p4);
    assert(sg.subrange(8, sg.len() as int) =~= g.2 + p4);
    assert(f.2 + p4 == g.2 + p4);
    assert(f.2.len() == g.2.len());
    assert forall|i: int| 0 <= i < f.2.len() implies f.2[i] == g.2[i] by {
        assert((f.2 + p4)[i] == f.2[i]);
        assert((g.2 + p4)[i] == g.2[i]);
    }
    assert(f.2 =~= g.2);
}

/// The members of a cipher frame of plain texts.
proof fn lemma_frame_member(f: (Seq<char>, Seq<char>, Seq<char>), key: Seq<char>)
    requires
        json_plain(f.0) && json_plain(f.1) && json_plain(f.2),
    ensures
        json_str_member(vstd::utf8::encode_utf8(gcm_frame(f.0, f.1, f.2)), key) == frame_member(f, key),
{
    let doc = vstd::utf8::encode_utf8(gcm_frame(f.0, f.1, f.2));
    assert(frame_doc(doc, f));
    let g = choose|g: (Seq<char>, Seq<char>, Seq<char>)| #[trigger] frame_doc(doc, g);
    assert(frame_doc(doc, g));
    vstd::utf8::encode_utf8_decode_utf8(gcm_frame(f.0, f.1, f.2));
    vstd::utf8::encode_utf8_decode_utf8(gcm_frame(g.0, g.1, g.2));
    lemma_frame_unique(f, g);
}

/// A sealed chunk frame: its text is ASCII, its length follows from the
/// length of what it seals, and decrypting it with the same password gives
/// that back.
pub proof fn lemma_frame_decrypt(password: Seq<u8>, plain: Seq<u8>, iterations: u32, block: Seq<char>)
    requires
        gcm_encrypted(password, plain, iterations, block),
    ensures
        gcm_decrypt_spec(password, vstd::utf8::encode_utf8(block), iterations) == Ok::<Seq<u8>, crate::error::ErrKind>(plain),
        ascii(block),
        block.len() == 87 + (plain.len() + 18) / 3 * 4,
{
    let (salt, iv) = choose|salt: Seq<u8>, iv: Seq<u8>| #[trigger] sealed_frame(password, plain, iterations, salt, iv, block);
    assert(sealed_frame(password, plain, iterations, salt, iv, block));
    let key = pbkdf2_sha512_32(password, salt, iterations);
    let ct = gcm_seal(key, iv, plain);
    let f = (b64_text(salt), b64_text(iv), b64_text(ct));
    lemma_b64_ascii(f.0);
    lemma_b64_ascii(f.1);
    lemma_b64_ascii(f.2);
    reveal_strlit("salt");
    reveal_strlit("iv");
    reveal_strlit("ct");
    lemma_frame_member(f, "salt"@);
    lemma_frame_member(f, "iv"@);
    lemma_frame_member(f, "ct"@);
    assert("iv"@ != "salt"@) by {
        assert("iv"@.len() != "salt"@.len());
    }
    assert("ct"@ != "salt"@) by {
        assert("ct"@.len() != "salt"@.len());
    }
    assert("ct"@ != "iv"@) by {
        assert("ct"@[0] != "iv"@[0]);
    }
    reveal_strlit("{\"salt\":\"");
    reveal_strlit("\",\"iv\":\"");
    reveal_strlit("\",\"ct\":\"");
    reveal_strlit("\"}");
    let p1 = "{\"salt\":\""@;
    let p2 = "\",\"iv\":\""@;
    let p3 = "\",\"ct\":\""@;
    let p4 = "\"}"@;
    assert(ascii(p1) && ascii(p2) && ascii(p3) && ascii(p4));
    lemma_ascii_add(p1, f.0);
    lemma_ascii_add(p1 + f.0, p2);
    lemma_ascii_add(p1 + f.0 + p2, f.1);
    lemma_ascii_add(p1 + f.0 + p2 + f.1, p3);
    lemma_ascii_add(p1 + f.0 + p2 + f.1 + p3, f.2);
    lemma_ascii_add(p1 + f.0 + p2 + f.1 + p3 + f.2, p4);
}

/// Sealed pieces written one after another, the first piece first.
proof fn lemma_frames_front(blocks: Seq<Seq<char>>)
    requires
        blocks.len() > 0,
    ensures
        frames(blocks) == hex_text(blocks[0].len(), 6) + blocks[0] + frames(blocks.drop_first()),
    decreases blocks.len(),
{
    if blocks.len() == 1 {
        assert(blocks.drop_last() =~= Seq::<Seq<char>>::empty());
        assert(blocks.drop_first() =~= Seq::<Seq<char>>::empty());
        assert(frames(blocks) =~= hex_text(blocks[0].len(), 6) + blocks[0] + frames(blocks.drop_first()));
    } else {
        let d = blocks.drop_last();
        lemma_frames_front(d);
        assert(d.drop_first() =~= blocks.drop_first().drop_last());
        assert(blocks.drop_first().last() == blocks.last());
        assert(d[0] == blocks[0]);
        assert(frames(blocks) =~= hex_text(blocks[0].len(), 6) + blocks[0] + frames(blocks.drop_first()));
    }
}

/// The first frame of sealed pieces, read at byte `pos`: its length in six
/// hex digits, the bytes of its text, and the frames after it.
proof fn lemma_frame_at(b: Seq<u8>, pos: int, blocks: Seq<Seq<char>>)
    requires
        0 <= pos <= b.len(),
        b.subrange(pos, b.len() as int) == vstd::utf8::encode_utf8(frames(blocks)),
        blocks.len() > 0,
        ascii(blocks[0]),
        0 < blocks[0].len() < 16777216,
    ensures
        pos < b.len(),
        take_ok(b, pos, 6),
        hex_num_spec(b.subrange(pos, pos + 6)) == Some(blocks[0].len() as int),
        take_ok(b, pos + 6, blocks[0].len() as int),
        b.subrange(pos + 6, pos + 6 + blocks[0].len()) == vstd::utf8::encode_utf8(blocks[0]),
        b.subrange(pos + 6 + blocks[0].len(), b.len() as int) == vstd::utf8::encode_utf8(frames(blocks.drop_first())),
{
    let b0 = blocks[0];
    let l = b0.len();
    let h = hex_text(l, 6);
    let fr = frames(blocks.drop_first());
    assert(pow16(6) == 16777216) by {
        reveal_with_fuel(pow16, 7);
    }
    lemma_hex_text_parse(l, 6, usize::MAX as int);
    lemma_frames_front(blocks);
    lemma_utf8_append(h + b0, fr);
    lemma_utf8_append(h, b0);
    lemma_utf8_ascii(h);
    lemma_utf8_ascii(b0);
    let hb = vstd::utf8::encode_utf8(h);
    let bb = vstd::utf8::encode_utf8(b0);
    let rb = vstd::utf8::encode_utf8(fr);
    let t = b.subrange(pos, b.len() as int);
    assert(t == hb + bb + rb);
    assert(b[pos] == t[0] && t[0] == hb[0]);
    assert((h[0] as u32) < 0x80);
    assert(b[pos + 6] == t[6] && t[6] == bb[0]);
    assert((b0[0] as u32) < 0x80);
    assert(boundary(b, pos + 6 + l)) by {
        if rb.len() > 0 {
            assert(b[pos + 6 + l] == t[6 + l as int] && t[6 + l as int] == rb[0]);
            vstd::utf8::encode_utf8_valid_utf8(fr);
            vstd::utf8::is_char_boundary_start_end_of_seq(rb);
            vstd::utf8::is_char_boundary_iff_not_is_continuation_byte(rb, 0);
        }
    }
    assert(b.subrange(pos, pos + 6) =~= hb);
    lemma_latin1_ascii(h);
    assert forall|i: int| 0 <= i < l implies #[trigger] b.subrange(pos + 6, pos + 6 + l)[i] == bb[i] by {
        assert(b.subrange(pos + 6, pos + 6 + l)[i] == b[pos + 6 + i]);
        assert(b[pos + 6 + i] == t[6 + i]);
        assert(t[6 + i] == (hb + bb)[6 + i]);
    }
    assert(b.subrange(pos + 6, pos + 6 + l) =~= bb);
    assert forall|i: int| 0 <= i < rb.len() implies #[trigger] b.subrange(pos + 6 + l, b.len() as int)[i] == rb[i] by {
        assert(b.subrange(pos + 6 + l, b.len() as int)[i] == b[pos + 6 + l + i]);
        assert(b[pos + 6 + l + i] == t[6 + l + i]);
    }
    assert(b.subrange(pos + 6 + l, b.len() as int) =~= rb);
}

/// The chunks of sealed UTF-16 bytes, read from byte `pos` on, give back the
/// code units of the bytes from `q` on.
proof fn lemma_string_chunks(
    b: Seq<u8>,
    pos: int,
    key: Seq<u8>,
    plain: Seq<u8>,
    q: int,
    n: int,
    blocks: Seq<Seq<char>>,
)
    requires
        0 <= pos <= b.len(),
        b.subrange(pos, b.len() as int) == vstd::utf8::encode_utf8(frames(blocks)),
        sealed_pieces(key, plain, q, n, blocks),
        0 <= q <= plain.len(),
        0 < n <= 131072,
        n % 2 == 0 && q % 2 == 0 && plain.len() % 2 == 0,
    ensures
        string_chunks(b, pos, METHOD_STRING_V1, key) == Ok::<(Seq<u16>, Seq<char>), ErrKind>(
            (units_of_le(plain.subrange(q, plain.len() as int)), Seq::<char>::empty()),
        ),
    decreases blocks.len(),
{
    if blocks.len() == 0 {
        assert(frames(blocks) =~= Seq::<char>::empty());
        assert(vstd::utf8::encode_utf8(Seq::<char>::empty()) =~= Seq::<u8>::empty());
        assert(b.subrange(pos, b.len() as int).len() == 0);
        assert(plain.subrange(q, plain.len() as int) =~= Seq::<u8>::empty());
        assert(units_of_le(Seq::<u8>::empty()) =~= Seq::<u16>::empty());
    } else {
        let e = piece_end(plain.len(), q, n);
        let piece = plain.subrange(q, e);
        let b0 = blocks[0];
        lemma_frame_decrypt(key, piece, 3, b0);
        assert(b0.len() < 16777216) by {
            assert(piece.len() <= 131072);
            assert((piece.len() + 18) / 3 <= 131090nat / 3);
        }
        lemma_frame_at(b, pos, blocks);
        let pos2 = pos + 6 + b0.len();
        lemma_string_chunks(b, pos2, key, plain, e, n, blocks.drop_first());
        crate::utf16::lemma_units_le_add(piece, plain.subrange(e, plain.len() as int));
        assert(piece + plain.subrange(e, plain.len() as int) =~= plain.subrange(q, plain.len() as int));
        assert(Seq::<char>::empty() + Seq::<char>::empty() =~= Seq::<char>::empty());
    }
}

/// The chunks of sealed bytes, read from byte `pos` on, give back the bytes
/// from `q` on.
proof fn lemma_file_chunks(
    b: Seq<u8>,
    pos: int,
    key: Seq<u8>,
    plain: Seq<u8>,
    q: int,
    n: int,
    blocks: Seq<Seq<char>>,
)
    requires
        0 <= pos <= b.len(),
        b.subrange(pos, b.len() as int) == vstd::utf8::encode_utf8(frames(blocks)),
        sealed_pieces(key, plain, q, n, blocks),
        0 <= q <= plain.len(),
        0 < n <= 131072,
    ensures
        file_chunks(b, pos, METHOD_FILE_V1, key) == Ok::<(Seq<u8>, Seq<char>), ErrKind>(
            (plain.subrange(q, plain.len() as int), Seq::<char>::empty()),
        ),
    decreases blocks.len(),
{
    if blocks.len() == 0 {
        assert(frames(blocks) =~= Seq::<char>::empty());
        assert(vstd::utf8::encode_utf8(Seq::<char>::empty()) =~= Seq::<u8>::empty());
        assert(b.subrange(pos, b.len() as int).len() == 0);
        assert(plain.subrange(q, plain.len() as int) =~= Seq::<u8>::empty());
    } else {
        let e = piece_end(plain.len(), q, n);
        let piece = plain.subrange(q, e);
        let b0 = blocks[0];
        lemma_frame_decrypt(key, piece, 3, b0);
        assert(b0.len() < 16777216) by {
            assert(piece.len() <= 131072);
            assert((piece.len() + 18) / 3 <= 131090nat / 3);
        }
        lemma_frame_at(b, pos, blocks);
        let pos2 = pos + 6 + b0.len();
        lemma_file_chunks(b, pos2, key, plain, e, n, blocks.drop_first());
        assert(piece + plain.subrange(e, plain.len() as int) =~= plain.subrange(q, plain.len() as int));
        assert(Seq::<char>::empty() + Seq::<char>::empty() =~= Seq::<char>::empty());
    }
}

/// Text encrypted with `method` read back: the header, then the chunks from
/// byte 45 on.
proof fn lemma_sealed_bytes(method: u32, id: Seq<char>, blocks: Seq<Seq<char>>, out: Seq<char>)
    requires
        method < 256,
        vstd::utf8::encode_utf8(id).len() == 32,
        out == encode_header_spec(method, id) + frames(blocks),
        blocks.len() > 0 ==> ascii(blocks[0]) && blocks[0].len() > 0,
    ensures
        decode_header_spec(vstd::utf8::encode_utf8(out)) == Some((method, vstd::utf8::encode_utf8(id), 45int)),
        !header_panics(vstd::utf8::encode_utf8(out)),
        vstd::utf8::encode_utf8(out).subrange(45, vstd::utf8::encode_utf8(out).len() as int)
            == vstd::utf8::encode_utf8(frames(blocks)),
{
    let hs = encode_header_spec(method, id);
    let fr = frames(blocks);
    lemma_utf8_append(hs, fr);
    let rest = vstd::utf8::encode_utf8(fr);
    assert(rest.len() > 0 ==> rest[0] < 0x80) by {
        if blocks.len() > 0 {
            lemma_frames_front(blocks);
            let h = hex_text(blocks[0].len(), 6);
            crate::num::lemma_hex_text_len(blocks[0].len(), 6);
            assert(h.len() > 0 && (h[0] as u32) < 0x80);
            lemma_utf8_append(h, blocks[0] + frames(blocks.drop_first()));
            assert(fr == h + (blocks[0] + frames(blocks.drop_first())));
            vstd::utf8::encode_utf8_first_scalar(h);
            let c = h[0] as u32;
            assert(vstd::utf8::leading_byte_width_1(c) == c) by (bit_vector)
                requires
                    c < 0x80,
            ;
        } else {
            assert(fr =~= Seq::<char>::empty());
            assert(rest =~= Seq::<u8>::empty());
        }
    }
    lemma_header_read(method, id, rest);
    let hb = vstd::utf8::encode_utf8(hs);
    assert(hb.len() == 45) by {
        assert(pow16(2) == 256) by {
            reveal_with_fuel(pow16, 3);
        }
        lemma_hex_text_parse(method as nat, 2, 255);
        assert(pow16(6) == 16777216) by {
            reveal_with_fuel(pow16, 7);
        }
        lemma_hex_text_parse(34, 6, 34);
        let m = hex_text(method as nat, 2);
        let l = hex_text(m.len() + 32, 6);
        let head = seq!['J', 'E', 'D', '0', '1'] + l + m;
        assert(ascii(head)) by {
            assert forall|i: int| 0 <= i < head.len() implies (#[trigger] head[i] as u32) < 0x80 by {
                if i < 5 {
                } else if i < 11 {
                    assert(head[i] == l[i - 5]);
                } else {
                    assert(head[i] == m[i - 11]);
                }
            }
        }
        assert(hs == head + id);
        lemma_utf8_append(head, id);
        lemma_utf8_ascii(head);
    }
    assert((hb + rest).subrange(45, (hb + rest).len() as int) =~= rest);
}

/// Decrypting a text that was encrypted as StringV1 with a master key that
/// the key ring holds gives the text back. The master key id takes the 32
/// bytes that the header keeps for it.
pub proof fn lemma_string_round_trip(
    keys: Seq<(Seq<char>, Seq<char>)>,
    id: Seq<char>,
    key: Seq<char>,
    s: Seq<char>,
    out: Seq<char>,
)
    requires
        lookup(keys, id) == Some(key),
        vstd::utf8::encode_utf8(id).len() == 32,
        sealed_text(
            METHOD_STRING_V1,
            id,
            vstd::utf8::encode_utf8(key),
            le_of_units(encode_utf16(s)),
            2 * STRING_V1_CHUNK,
            out,
        ),
    ensures
        !header_panics(vstd::utf8::encode_utf8(out)),
        decrypt_string_spec(keys, vstd::utf8::encode_utf8(out)) == Ok::<Seq<char>, ErrKind>(s),
{
    let kb = vstd::utf8::encode_utf8(key);
    let plain = le_of_units(encode_utf16(s));
    let n = 2 * STRING_V1_CHUNK as int;
    let blocks = choose|blocks: Seq<Seq<char>>|
        #[trigger] sealed_pieces(kb, plain, 0, n, blocks) && out == encode_header_spec(METHOD_STRING_V1, id) + frames(blocks);
    assert(sealed_pieces(kb, plain, 0, n, blocks));
    if blocks.len() > 0 {
        lemma_frame_decrypt(kb, plain.subrange(0, piece_end(plain.len(), 0, n)), 3, blocks[0]);
    }
    lemma_sealed_bytes(METHOD_STRING_V1, id, blocks, out);
    let b = vstd::utf8::encode_utf8(out);
    vstd::utf8::encode_utf8_decode_utf8(id);
    assert(plain.len() % 2 == 0);
    lemma_string_chunks(b, 45, kb, plain, 0, n, blocks);
    assert(plain.subrange(0, plain.len() as int) =~= plain);
    crate::utf16::lemma_units_le_round_trip(encode_utf16(s));
    crate::utf16::lemma_utf16_round_trip(s);
}

/// Decrypting bytes that were encrypted as FileV1 with a master key that the
/// key ring holds gives the bytes back. The master key id takes the 32 bytes
/// that the header keeps for it.
pub proof fn lemma_file_round_trip(
    keys: Seq<(Seq<char>, Seq<char>)>,
    id: Seq<char>,
    key: Seq<char>,
    data: Seq<u8>,
    out: Seq<char>,
)
    requires
        lookup(keys, id) == Some(key),
        vstd::utf8::encode_utf8(id).len() == 32,
        sealed_text(METHOD_FILE_V1, id, vstd::utf8::encode_utf8(key), data, FILE_V1_CHUNK / 4 * 3, out),
    ensures
        !header_panics(vstd::utf8::encode_utf8(out)),
        decrypt_file_spec(keys, vstd::utf8::encode_utf8(out)) == Ok::<Seq<u8>, ErrKind>(data),
{
    let kb = vstd::utf8::encode_utf8(key);
    let n = FILE_V1_CHUNK / 4 * 3;
    let blocks = choose|blocks: Seq<Seq<char>>|
        #[trigger] sealed_pieces(kb, data, 0, n as int, blocks) && out == encode_header_spec(METHOD_FILE_V1, id) + frames(blocks);
    assert(sealed_pieces(kb, data, 0, n as int, blocks));
    if blocks.len() > 0 {
        lemma_frame_decrypt(kb, data.subrange(0, piece_end(data.len(), 0, n as int)), 3, blocks[0]);
    }
    lemma_sealed_bytes(METHOD_FILE_V1, id, blocks, out);
    let b = vstd::utf8::encode_utf8(out);
    vstd::utf8::encode_utf8_decode_utf8(id);
    lemma_file_chunks(b, 45, kb, data, 0, n as int, blocks);
    assert(data.subrange(0, data.len() as int) =~= data);
}

} // verus!
