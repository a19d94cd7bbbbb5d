//! Joplin's end-to-end encryption.
//!
//! Master keys (in `info.json`) are encrypted with the user's password. Once
//! decrypted, a master key is a hex string that is itself the password for
//! the key derivation of each chunk of an item.
//!
//! Methods:
//! * `KeyV1` (8), `FileV1` (9), `StringV1` (10): PBKDF2-HMAC-SHA512 + AES-256-GCM.
//! * `SJCL3` (3), `SJCL4` (4), `SJCL1a` (5), `SJCL1b` (7): SJCL JSON,
//!   PBKDF2-HMAC-SHA256 + AES-CCM.
//! * `SJCL` (1) / `SJCL2` (2) use OCB2 and are not supported.
use vstd::prelude::*;
use vstd::string::StringSliceAdditionalSpecFns;

use crate::crypto::{
    aes256gcm_decrypt, aes256gcm_encrypt, b64_bytes, b64_decode, b64_encode, b64_text, ccm128_12_decrypt,
    ccm128_13_decrypt, ccm256_12_decrypt, ccm256_13_decrypt, ccm_open, gcm_open, gcm_seal, json_str,
    gcm_frame, json_str_member, json_u32, json_u32_member, pbkdf2_sha256, pbkdf2_sha256_len, pbkdf2_sha512,
    pbkdf2_sha512_32, random_bytes, sha256, sha256_digest, utf8_decode, utf8_lossy, json_array_len,
    json_array_length, json_str_at, json_str_element, json_u32_at, json_u32_element,
};
use crate::error::{kind, message, ErrKind, Error, Result};
use crate::num::{digit_char, hex_padded, i64_text, hex_text, parse_in_range, parse_int};
use crate::props::{insert_entry, key_index, lookup, unique_keys};
use crate::text::{chars_of, push_all, string_of};
use crate::utf16::{
    decode_utf16, encode_utf16, from_units, js_unescape_chars, js_unescape_spec, le_from_units, le_of_units,
    to_units, units_from_le, units_of_le,
};

verus! {

pub const METHOD_SJCL: u32 = 1;
pub const METHOD_SJCL2: u32 = 2;
pub const METHOD_SJCL3: u32 = 3;
pub const METHOD_SJCL4: u32 = 4;
pub const METHOD_SJCL1A: u32 = 5;
pub const METHOD_CUSTOM: u32 = 6;
pub const METHOD_SJCL1B: u32 = 7;
pub const METHOD_KEY_V1: u32 = 8;
pub const METHOD_FILE_V1: u32 = 9;
pub const METHOD_STRING_V1: u32 = 10;

pub const STRING_V1_CHUNK: usize = 65536;
pub const FILE_V1_CHUNK: usize = 131072;

// ---------------------------------------------------------------------------
// Bytes of a cipher text
// ---------------------------------------------------------------------------

/// Whether byte offset `i` of `b` starts a character (`str::is_char_boundary`).
pub open spec fn boundary(b: Seq<u8>, i: int) -> bool {
    i == 0 || i == b.len() || (0 <= i < b.len() && (b[i] < 0x80 || b[i] >= 0xC0))
}

/// Bytes read as characters one for one.
pub open spec fn latin1(b: Seq<u8>) -> Seq<char> {
    b.map_values(|x: u8| x as char)
}

/// `usize::from_str_radix(.., 16)` on the text of bytes.
pub open spec fn hex_num_spec(b: Seq<u8>) -> Option<int> {
    parse_in_range(latin1(b), 16, false, 0, usize::MAX as int)
}

/// Whether `n` bytes can be taken at `pos` (`str::get(pos..pos + n)`).
pub open spec fn take_ok(b: Seq<u8>, pos: int, n: int) -> bool {
    pos + n <= b.len() && boundary(b, pos) && boundary(b, pos + n)
}

/// The header of an encrypted text, read from its bytes: method, the bytes of
/// the master key id, and the offset of the first chunk.
pub open spec fn decode_header_spec(b: Seq<u8>) -> Option<(u32, Seq<u8>, int)> {
    if !take_ok(b, 0, 5) {
        None
    } else if !(b[0] == 0x4A && b[1] == 0x45 && b[2] == 0x44 && parse_in_range(
        latin1(b.subrange(3, 5)),
        10,
        false,
        0,
        u32::MAX as int,
    ) is Some) {
        None
    } else if !take_ok(b, 5, 6) {
        None
    } else {
        match hex_num_spec(b.subrange(5, 11)) {
            None => None,
            Some(md) => if md < 34 || !take_ok(b, 11, md) {
                None
            } else {
                match hex_num_spec(b.subrange(11, 13)) {
                    None => None,
                    Some(m) => Some((m as u32, b.subrange(13, 45), 11 + md)),
                }
            },
        }
    }
}

/// Inputs on which reading the header would slice the metadata inside a
/// character (a panic).
pub open spec fn header_panics(b: Seq<u8>) -> bool {
    take_ok(b, 0, 5) && b[0] == 0x4A && b[1] == 0x45 && b[2] == 0x44 && parse_in_range(
        latin1(b.subrange(3, 5)),
        10,
        false,
        0,
        u32::MAX as int,
    ) is Some && take_ok(b, 5, 6) && (match hex_num_spec(b.subrange(5, 11)) {
        None => false,
        Some(md) => md >= 34 && take_ok(b, 11, md) && (!boundary(b, 13) || !boundary(b, 45)),
    })
}

/// Whether reading the header of `s` would slice its metadata inside a
/// character.
pub fn header_panics_at(s: &str) -> (r: bool)
    ensures
        r == header_panics(s.spec_bytes()),
{
    let b = s.as_bytes();
    if b.len() < 11 || !(b[0] == 0x4A && b[1] == 0x45 && b[2] == 0x44) {
        return false;
    }
    if !is_boundary(b, 5) || !is_boundary(b, 11) {
        return false;
    }
    let ver = latin1_chars(b, 3, 5);
    if parse_int(ver.as_slice(), 10, false, 0, u32::MAX as i128).is_none() {
        return false;
    }
    let md = match hex_num(b, 5, 11) {
        Ok(v) => v,
        Err(_) => {
            return false;
        },
    };
    if md < 34 || md > b.len() - 11 || !is_boundary(b, 11 + md) {
        return false;
    }
    !is_boundary(b, 13) || !is_boundary(b, 45)
}

/// Whether byte offset `i` starts a character.
fn is_boundary(b: &[u8], i: usize) -> (r: bool)
    requires
        i <= b@.len(),
    ensures
        r == boundary(b@, i as int),
{
    i == 0 || i == b.len() || b[i] < 0x80 || b[i] >= 0xC0
}

/// The header of an encrypted item or file.
#[derive(Debug, PartialEq)]
pub struct Header {
    pub method: u32,
    pub master_key_id: String,
}

/// Checks that `n` bytes can be taken at `pos`; returns the end offset.
fn take(b: &[u8], pos: usize, n: usize) -> (r: Result<usize>)
    requires
        pos <= b@.len(),
    ensures
        r is Ok <==> take_ok(b@, pos as int, n as int),
        r matches Ok(e) ==> e == pos + n,
        r matches Err(e) ==> kind(e) == ErrKind::Crypto,
{
    let len = b.len();
    match pos.checked_add(n) {
        None => Err(Error::Crypto(message("truncated cipher text", &[]))),
        Some(end) => {
            if end > len {
                return Err(Error::Crypto(message("truncated cipher text", &[])));
            }
            let ok_start = pos == 0 || pos == len || b[pos] < 0x80 || b[pos] >= 0xC0;
            let ok_end = end == 0 || end == len || b[end] < 0x80 || b[end] >= 0xC0;
            if ok_start && ok_end {
                Ok(end)
            } else {
                Err(Error::Crypto(message("invalid cipher text", &[])))
            }
        },
    }
}

/// The characters of bytes, one for one.
fn latin1_chars(b: &[u8], lo: usize, hi: usize) -> (r: Vec<char>)
    requires
        lo <= hi <= b@.len(),
    ensures
        r@ == latin1(b@.subrange(lo as int, hi as int)),
{
    let mut r: Vec<char> = Vec::new();
    let mut i = lo;
    while i < hi
        invariant
            lo <= i <= hi <= b@.len(),
            r@ =~= latin1(b@.subrange(lo as int, i as int)),
        decreases hi - i,
    {
        r.push(b[i] as char);
        i = i + 1;
    }
    r
}

/// `usize::from_str_radix(.., 16)` on bytes `lo..hi`.
fn hex_num(b: &[u8], lo: usize, hi: usize) -> (r: Result<usize>)
    requires
        lo <= hi <= b@.len(),
    ensures
        match hex_num_spec(b@.subrange(lo as int, hi as int)) {
            Some(v) => r == Ok::<usize, Error>(v as usize),
            None => r matches Err(e) && kind(e) == ErrKind::Crypto,
        },
{
    let cs = latin1_chars(b, lo, hi);
    match parse_int(cs.as_slice(), 16, false, 0, usize::MAX as i128) {
        Some(v) => Ok(v as usize),
        None => Err(Error::Crypto(message("invalid hex number ", cs.as_slice()))),
    }
}

/// Reads the header of an encrypted text; returns it with the offset of the
/// first chunk.
pub fn decode_header(cipher_text: &str) -> (r: Result<(Header, usize)>)
    requires
        !header_panics(cipher_text.spec_bytes()),
    ensures
        match decode_header_spec(cipher_text.spec_bytes()) {
            Some((m, idb, end)) => r matches Ok(hp) && hp.0.method == m && hp.1 == end
                && hp.0.master_key_id@ == vstd::utf8::decode_utf8(idb),
            None => r matches Err(e) && kind(e) == ErrKind::Crypto,
        },
{
    let b = cipher_text.as_bytes();
    let p1 = take(b, 0, 5)?;
    let jed = b[0] == 0x4A && b[1] == 0x45 && b[2] == 0x44;
    let ver = latin1_chars(b, 3, 5);
    if !jed || parse_int(ver.as_slice(), 10, false, 0, u32::MAX as i128).is_none() {
        let ident = latin1_chars(b, 0, 5);
        return Err(Error::Crypto(message("invalid encryption header ", ident.as_slice())));
    }
    let p2 = take(b, p1, 6)?;
    let md_size = hex_num(b, p1, p2)?;
    if md_size < 34 {
        return Err(Error::Crypto(message("invalid header metadata size", &[])));
    }
    let p3 = take(b, p2, md_size)?;
    let method = hex_num(b, 11, 13)?;
    let idb = copy_bytes(b, 13, 45);
    proof {
        vstd::utf8::encode_utf8_valid_utf8(cipher_text@);
        lemma_slice_valid(b@, 13, 45);
    }
    let id = utf8_lossy(idb.as_slice());
    Ok((Header { method: method as u32, master_key_id: id }, p3))
}

/// Bytes `lo..hi` of `b`.
fn copy_bytes(b: &[u8], lo: usize, hi: usize) -> (r: Vec<u8>)
    requires
        lo <= hi <= b@.len(),
    ensures
        r@ == b@.subrange(lo as int, hi as int),
{
    let mut r: Vec<u8> = Vec::new();
    let mut i = lo;
    while i < hi
        invariant
            lo <= i <= hi <= b@.len(),
            r@ =~= b@.subrange(lo as int, i as int),
        decreases hi - i,
    {
        r.push(b[i]);
        i = i + 1;
    }
    r
}

/// A slice of valid UTF-8 between two character boundaries is valid UTF-8.
pub proof fn lemma_slice_valid(b: Seq<u8>, lo: int, hi: int)
    requires
        vstd::utf8::valid_utf8(b),
        0 <= lo <= hi <= b.len(),
        boundary(b, lo),
        boundary(b, hi),
    ensures
        vstd::utf8::valid_utf8(b.subrange(lo, hi)),
{
    vstd::utf8::is_char_boundary_start_end_of_seq(b);
    if hi < b.len() {
        vstd::utf8::is_char_boundary_iff_not_is_continuation_byte(b, hi);
    }
    vstd::utf8::valid_utf8_split(b, hi);
    let c = b.subrange(0, hi);
    vstd::utf8::is_char_boundary_start_end_of_seq(c);
    if lo < c.len() {
        assert(c[lo] == b[lo]);
        vstd::utf8::is_char_boundary_iff_not_is_continuation_byte(c, lo);
    }
    vstd::utf8::valid_utf8_split(c, lo);
    assert(c.subrange(lo, c.len() as int) =~= b.subrange(lo, hi));
}

/// The text of a header for `method` and master key `id`: `JED01`, the
/// metadata length in 6 hex digits, the method in 2 hex digits, the id.
pub open spec fn encode_header_spec(method: u32, id: Seq<char>) -> Seq<char> {
    let m = hex_text(method as nat, 2);
    seq!['J', 'E', 'D', '0', '1'] + hex_text(m.len() + vstd::utf8::encode_utf8(id).len(), 6) + m + id
}

/// Writes the header of an encrypted text.
pub fn encode_header(method: u32, master_key_id: &str) -> (r: String)
    requires
        hex_text(method as nat, 2).len() + master_key_id.spec_bytes().len() <= usize::MAX,
    ensures
        r@ == encode_header_spec(method, master_key_id@),
{
    let m = hex_padded(method as u64, 2);
    let id = chars_of(master_key_id);
    proof {
        crate::num::lemma_hex_text_len(method as nat, 2);
    }
    let md_len = m.len() + master_key_id.len();
    let mut out: Vec<char> = Vec::new();
    out.push('J');
    out.push('E');
    out.push('D');
    out.push('0');
    out.push('1');
    let h = hex_padded(md_len as u64, 6);
    push_all(&mut out, h.as_slice());
    push_all(&mut out, m.as_slice());
    push_all(&mut out, id.as_slice());
    assert(out@ =~= encode_header_spec(method, master_key_id@));
    string_of(out.as_slice())
}

/// Whether a text looks encrypted: `JED` then two digits.
pub open spec fn is_encrypted_text_spec(s: Seq<u8>) -> bool {
    s.len() >= 5 && s[0] == 0x4A && s[1] == 0x45 && s[2] == 0x44 && 0x30 <= s[3] <= 0x39 && 0x30
        <= s[4] <= 0x39
}

pub fn is_encrypted_text(s: &str) -> (r: bool)
    ensures
        r == is_encrypted_text_spec(s.spec_bytes()),
{
    let b = s.as_bytes();
    b.len() >= 5 && b[0] == 0x4A && b[1] == 0x45 && b[2] == 0x44 && 0x30 <= b[3] && b[3] <= 0x39
        && 0x30 <= b[4] && b[4] <= 0x39
}

// ---------------------------------------------------------------------------
// Key ring
// ---------------------------------------------------------------------------

/// Decrypted master keys (id → hex plaintext), each id once.
struct KeyList {
    v: Vec<(String, String)>,
}

impl KeyList {
    closed spec fn pairs(&self) -> Seq<(Seq<char>, Seq<char>)> {
        self.v@.map_values(|p: (String, String)| (p.0@, p.1@))
    }

    /// Each key id appears once.
    #[verifier::type_invariant]
    closed spec fn ids_once(&self) -> bool {
        unique_keys(self.pairs())
    }
}

/// Decrypted master keys (id → hex plaintext) and the active key id.
pub struct KeyRing {
    keys: KeyList,
    pub active_id: Option<String>,
}

impl KeyRing {
    /// The keys, in insertion order (a key inserted again keeps its place).
    pub closed spec fn entries(&self) -> Seq<(Seq<char>, Seq<char>)> {
        self.keys.pairs()
    }

    /// The active key id.
    pub closed spec fn active(&self) -> Option<Seq<char>> {
        crate::item::opt_view(self.active_id)
    }

    /// Sets the active key id.
    pub fn set_active(&mut self, id: Option<String>)
        ensures
            final(self).active() == crate::item::opt_view(id),
            final(self).entries() == old(self).entries(),
    {
        self.active_id = id;
    }

    /// The active key id.
    pub fn active_key(&self) -> (r: Option<&String>)
        ensures
            match self.active() {
                Some(a) => r is Some && r->Some_0@ == a,
                None => r is None,
            },
    {
        match &self.active_id {
            Some(a) => Some(a),
            None => None,
        }
    }

    pub fn new() -> (r: Self)
        ensures
            r.entries() == Seq::<(Seq<char>, Seq<char>)>::empty(),
            r.active() is None,
    {
        let l = KeyList { v: Vec::new() };
        assert(l.pairs() =~= Seq::<(Seq<char>, Seq<char>)>::empty());
        KeyRing { keys: l, active_id: None }
    }

    /// Index of key `id`.
    fn find(&self, id: &str) -> (r: Option<usize>)
        ensures
            match r {
                Some(i) => key_index(self.entries(), id@) == Some(i as int),
                None => key_index(self.entries(), id@) is None,
            },
    {
        let idc = chars_of(id);
        let mut i: usize = 0;
        while i < self.keys.v.len()
            invariant
                i <= self.keys.v@.len(),
                idc@ == id@,
                forall|j: int| 0 <= j < i ==> self.entries()[j].0 != id@,
            decreases self.keys.v@.len() - i,
        {
            let kc = chars_of(self.keys.v[i].0.as_str());
            if crate::text::eq_chars(kc.as_slice(), idc.as_slice()) {
                proof {
                    crate::props::lemma_key_index_found(self.entries(), id@, i as int);
                }
                return Some(i);
            }
            i = i + 1;
        }
        proof {
            crate::props::lemma_key_index_none(self.entries(), id@);
        }
        None
    }

    /// Adds (or replaces) a decrypted master key.
    pub fn insert(&mut self, id: &str, plain_hex: String)
        ensures
            final(self).entries() == insert_entry(old(self).entries(), id@, plain_hex@),
            final(self).active() == old(self).active(),
            unique_keys(final(self).entries()),
    {
        let ghost v = plain_hex@;
        proof {
            use_type_invariant(&self.keys);
            crate::props::lemma_key_index(old(self).entries(), id@);
            crate::props::lemma_insert_unique(old(self).entries(), id@, v);
        }
        let found = self.find(id);
        let mut ks: Vec<(String, String)> = Vec::new();
        std::mem::swap(&mut ks, &mut self.keys.v);
        assert(ks@.map_values(|p: (String, String)| (p.0@, p.1@)) == old(self).entries());
        match found {
            Some(i) => {
                ks.set(i, (id.to_owned(), plain_hex));
                assert(ks@.map_values(|p: (String, String)| (p.0@, p.1@)) =~= old(self).entries().update(i as int, (id@, v)));
            },
            None => {
                ks.push((id.to_owned(), plain_hex));
                assert(ks@.map_values(|p: (String, String)| (p.0@, p.1@)) =~= old(self).entries().push((id@, v)));
            },
        }
        self.keys = KeyList { v: ks };
    }

    pub fn has(&self, id: &str) -> (r: bool)
        ensures
            r == (key_index(self.entries(), id@) is Some),
    {
        self.find(id).is_some()
    }

    pub fn is_empty(&self) -> (r: bool)
        ensures
            r == (self.entries().len() == 0),
    {
        self.keys.v.len() == 0
    }

    /// The plaintext of key `id`.
    fn key(&self, id: &str) -> (r: Result<&str>)
        ensures
            match lookup(self.entries(), id@) {
                Some(k) => r matches Ok(s) && s@ == k,
                None => r matches Err(Error::MasterKeyNotLoaded(m)) && m@ == id@,
            },
    {
        proof {
            crate::props::lemma_key_index(self.entries(), id@);
        }
        match self.find(id) {
            Some(i) => {
                assert(self.entries()[i as int] == (self.keys.v@[i as int].0@, self.keys.v@[i as int].1@));
                Ok(self.keys.v[i].1.as_str())
            },
            None => {
                let idc = chars_of(id);
                Err(Error::MasterKeyNotLoaded(string_of(idc.as_slice())))
            },
        }
    }
}

impl Default for KeyRing {
    fn default() -> (r: Self)
        ensures
            r.entries() == Seq::<(Seq<char>, Seq<char>)>::empty(),
            r.active() is None,
    {
        KeyRing::new()
    }
}

impl Clone for KeyRing {
    fn clone(&self) -> (r: Self)
        ensures
            r.entries() == self.entries(),
            r.active() == self.active(),
    {
        proof {
            use_type_invariant(&self.keys);
        }
        let mut keys: Vec<(String, String)> = Vec::new();
        let mut i: usize = 0;
        while i < self.keys.v.len()
            invariant
                i <= self.keys.v@.len(),
                keys@.map_values(|p: (String, String)| (p.0@, p.1@)) =~= self.entries().take(i as int),
            decreases self.keys.v@.len() - i,
        {
            let ghost before = keys@;
            let a = self.keys.v[i].0.clone();
            let b = self.keys.v[i].1.clone();
            keys.push((a, b));
            proof {
                assert(keys@ == before.push((a, b)));
                assert(self.entries()[i as int] == (a@, b@));
                assert(keys@.map_values(|p: (String, String)| (p.0@, p.1@)) =~= before.map_values(
                    |p: (String, String)| (p.0@, p.1@),
                ).push((a@, b@)));
            }
            i = i + 1;
        }
        assert(self.entries().take(self.keys.v@.len() as int) =~= self.entries());
        KeyRing { keys: KeyList { v: keys }, active_id: self.active_id.clone() }
    }
}

// ---------------------------------------------------------------------------
// Chunk ciphers
// ---------------------------------------------------------------------------

/// A required string member: `Err(Json)` when missing or not a string.
pub open spec fn req_str(doc: Seq<u8>, key: Seq<char>) -> core::result::Result<Seq<char>, ErrKind> {
    match json_str_member(doc, key) {
        Some(Some(s)) => Ok(s),
        _ => Err(ErrKind::Json),
    }
}

/// Base64 field decoding: `Err(Crypto)` when not Base64.
pub open spec fn b64_field(s: Seq<char>) -> core::result::Result<Seq<u8>, ErrKind> {
    match b64_bytes(s) {
        Some(b) => Ok(b),
        None => Err(ErrKind::Crypto),
    }
}

/// AES-256-GCM chunk decryption from `{"salt","iv","ct"}` (Base64), with the
/// key derived from `password` by PBKDF2-HMAC-SHA512 in `iterations` rounds.
pub open spec fn gcm_decrypt_spec(password: Seq<u8>, doc: Seq<u8>, iterations: u32) -> core::result::Result<Seq<u8>, ErrKind> {
    match (req_str(doc, "salt"@), req_str(doc, "iv"@), req_str(doc, "ct"@)) {
        (Ok(s), Ok(i), Ok(c)) => match (b64_field(s), b64_field(i), b64_field(c)) {
            (Ok(salt), Ok(iv), Ok(ct)) => if iv.len() != 12 {
                Err(ErrKind::Crypto)
            } else {
                match gcm_open(pbkdf2_sha512_32(password, salt, iterations), iv, ct) {
                    Some(p) => Ok(p),
                    None => Err(ErrKind::Crypto),
                }
            },
            (Err(e), _, _) => Err(e),
            (_, Err(e), _) => Err(e),
            (_, _, Err(e)) => Err(e),
        },
        _ => Err(ErrKind::Json),
    }
}

fn required_str(doc: &[u8], key: &str) -> (r: Result<String>)
    ensures
        match req_str(doc@, key@) {
            Ok(s) => r matches Ok(t) && t@ == s,
            Err(k) => r matches Err(e) && kind(e) == k,
        },
{
    match json_str(doc, key) {
        Some(Some(s)) => Ok(s),
        _ => Err(Error::Json(message("missing or invalid field ", chars_of(key).as_slice()))),
    }
}

fn b64(s: &str) -> (r: Result<Vec<u8>>)
    ensures
        match b64_field(s@) {
            Ok(b) => r matches Ok(v) && v@ == b,
            Err(k) => r matches Err(e) && kind(e) == k,
        },
{
    match b64_decode(s) {
        Some(v) => Ok(v),
        None => Err(Error::Crypto(message("base64: invalid input", &[]))),
    }
}

fn gcm_decrypt(password: &[u8], doc: &[u8], iterations: u32) -> (r: Result<Vec<u8>>)
    ensures
        match gcm_decrypt_spec(password@, doc@, iterations) {
            Ok(p) => r matches Ok(v) && v@ == p,
            Err(k) => r matches Err(e) && kind(e) == k,
        },
{
    let s = required_str(doc, "salt")?;
    let i = required_str(doc, "iv")?;
    let c = required_str(doc, "ct")?;
    let salt = b64(s.as_str())?;
    let iv = b64(i.as_str())?;
    let ct = b64(c.as_str())?;
    let key = pbkdf2_sha512(password, salt.as_slice(), iterations);
    if iv.len() != 12 {
        return Err(Error::Crypto(message("invalid GCM IV length", &[])));
    }
    match aes256gcm_decrypt(key.as_slice(), iv.as_slice(), ct.as_slice()) {
        Some(p) => Ok(p),
        None => Err(Error::Crypto(message("GCM authentication failed (wrong key or password?)", &[]))),
    }
}

/// A frame that holds `plain` sealed with the key derived from `password`
/// and `salt`, under the nonce `iv`: the frame of the three Base64 texts,
/// each of which decodes back, and whose cipher text opens to `plain`.
pub open spec fn sealed_frame(password: Seq<u8>, plain: Seq<u8>, iterations: u32, salt: Seq<u8>, iv: Seq<u8>, out: Seq<char>) -> bool {
    let key = pbkdf2_sha512_32(password, salt, iterations);
    let ct = gcm_seal(key, iv, plain);
    &&& salt.len() == 32 && iv.len() == 12
    &&& ct.len() == plain.len() + 16
    &&& gcm_open(key, iv, ct) == Some(plain)
    &&& b64_bytes(b64_text(salt)) == Some(salt) && b64_bytes(b64_text(iv)) == Some(iv) && b64_bytes(b64_text(ct)) == Some(ct)
    &&& b64_text(salt).len() == 44 && b64_text(iv).len() == 16 && b64_text(ct).len() == (ct.len() + 2) / 3 * 4
    &&& crate::crypto::json_plain(b64_text(salt)) && crate::crypto::json_plain(b64_text(iv))
        && crate::crypto::json_plain(b64_text(ct))
    &&& crate::crypto::b64_chars(b64_text(salt)) && crate::crypto::b64_chars(b64_text(iv))
        && crate::crypto::b64_chars(b64_text(ct))
    &&& out == gcm_frame(b64_text(salt), b64_text(iv), b64_text(ct))
}

/// What an AES-256-GCM chunk encryption may give, whatever salt and nonce
/// were drawn.
pub open spec fn gcm_encrypted(password: Seq<u8>, plain: Seq<u8>, iterations: u32, out: Seq<char>) -> bool {
    exists|salt: Seq<u8>, iv: Seq<u8>| #[trigger] sealed_frame(password, plain, iterations, salt, iv, out)
}

/// Base64 text is plain JSON string content.
proof fn lemma_b64_plain(t: Seq<char>)
    requires
        crate::crypto::b64_chars(t),
    ensures
        crate::crypto::json_plain(t),
{
    assert forall|i: int| 0 <= i < t.len() implies #[trigger] t[i] != '"' && t[i] != '\\' && t[i] as u32 >= 0x20 by {
        assert(crate::crypto::is_b64_char(t[i]));
    }
}

fn gcm_encrypt(password: &[u8], plain: &[u8], iterations: u32) -> (r: Result<String>)
    ensures
        plain@.len() <= 0x10_0000_0000 ==> r is Ok,
        r matches Ok(s) ==> gcm_encrypted(password@, plain@, iterations, s@),
        r matches Err(e) ==> kind(e) == ErrKind::Crypto,
{
    let seed = random_bytes(36);
    let salt = sha256(seed.as_slice());
    let iv = random_bytes(12);
    let key = pbkdf2_sha512(password, salt.as_slice(), iterations);
    let ct = match aes256gcm_encrypt(key.as_slice(), iv.as_slice(), plain) {
        Some(c) => c,
        None => {
            return Err(Error::Crypto(message("GCM encryption failed", &[])));
        },
    };
    let ts = b64_encode(salt.as_slice());
    let ti = b64_encode(iv.as_slice());
    let tc = b64_encode(ct.as_slice());
    let mut out = chars_of("{\"salt\":\"");
    push_all(&mut out, chars_of(ts.as_str()).as_slice());
    push_all(&mut out, chars_of("\",\"iv\":\"").as_slice());
    push_all(&mut out, chars_of(ti.as_str()).as_slice());
    push_all(&mut out, chars_of("\",\"ct\":\"").as_slice());
    push_all(&mut out, chars_of(tc.as_str()).as_slice());
    push_all(&mut out, chars_of("\"}").as_slice());
    let r = string_of(out.as_slice());
    assert(r@ =~= gcm_frame(b64_text(salt@), b64_text(iv@), b64_text(ct@)));
    proof {
        lemma_b64_plain(ts@);
        lemma_b64_plain(ti@);
        lemma_b64_plain(tc@);
        assert(sealed_frame(password@, plain@, iterations, salt@, iv@, r@));
    }
    Ok(r)
}

/// The fields of an SJCL payload, with SJCL's defaults.
pub struct SjclFields {
    pub iv: Seq<char>,
    pub iter: u32,
    pub ks: u32,
    pub ts: u32,
    pub mode: Seq<char>,
    pub adata: Seq<char>,
    pub salt: Seq<char>,
    pub ct: Seq<char>,
}

/// An optional member with a default: `None` when present but invalid.
pub open spec fn or_default<T>(m: Option<Option<T>>, d: T) -> Option<T> {
    match m {
        Some(Some(v)) => Some(v),
        Some(None) => Some(d),
        None => None,
    }
}

/// The fields of an `sjcl.json.encrypt` payload written as an array: all
/// eight of them, in the order `iv`, `iter`, `ks`, `ts`, `mode`, `adata`,
/// `salt`, `ct`.
pub open spec fn sjcl_array_fields(doc: Seq<u8>) -> Option<SjclFields> {
    match (
        json_str_element(doc, 0),
        json_u32_element(doc, 1),
        json_u32_element(doc, 2),
        json_u32_element(doc, 3),
        json_str_element(doc, 4),
        json_str_element(doc, 5),
        json_str_element(doc, 6),
        json_str_element(doc, 7),
    ) {
        (Some(iv), Some(iter), Some(ks), Some(ts), Some(mode), Some(adata), Some(salt), Some(ct)) => Some(
            SjclFields { iv, iter, ks, ts, mode, adata, salt, ct },
        ),
        _ => None,
    }
}

/// The fields of an `sjcl.json.encrypt` payload: the members of an object
/// (missing ones with their defaults), or the eight elements of an array.
pub open spec fn sjcl_fields(doc: Seq<u8>) -> Option<SjclFields> {
    match json_array_length(doc) {
        Some(n) => if n == 8 {
            sjcl_array_fields(doc)
        } else {
            None
        },
        None => match (
            req_str(doc, "iv"@),
            or_default(json_u32_member(doc, "iter"@), 10000u32),
            or_default(json_u32_member(doc, "ks"@), 128u32),
            or_default(json_u32_member(doc, "ts"@), 64u32),
            or_default(json_str_member(doc, "mode"@), Seq::empty()),
            or_default(json_str_member(doc, "adata"@), Seq::empty()),
            req_str(doc, "salt"@),
            req_str(doc, "ct"@),
        ) {
            (Ok(iv), Some(iter), Some(ks), Some(ts), Some(mode), Some(adata), Ok(salt), Ok(ct)) => Some(
                SjclFields { iv, iter, ks, ts, mode, adata, salt, ct },
            ),
            _ => None,
        },
    }
}

/// Size of CCM's length field for a message of `n` bytes.
pub open spec fn ccm_length_size(n: int) -> int {
    if n < 0x1_0000 {
        2
    } else if n < 0x100_0000 {
        3
    } else {
        4
    }
}

/// The CCM nonce SJCL uses: the IV cut to `15 - L` bytes.
pub open spec fn sjcl_nonce(iv: Seq<u8>, plain_len: int) -> Seq<u8> {
    let l0 = ccm_length_size(plain_len);
    let l = if iv.len() < 15 && l0 < 15 - iv.len() {
        15 - iv.len()
    } else {
        l0
    };
    iv.take(15 - l)
}

/// Decryption of an `sjcl.json.encrypt` payload (CCM mode, 64-bit tag, no
/// associated data), the key derived by PBKDF2-HMAC-SHA256.
pub open spec fn sjcl_decrypt_spec(password: Seq<u8>, doc: Seq<u8>) -> core::result::Result<Seq<u8>, ErrKind> {
    match sjcl_fields(doc) {
        None => Err(ErrKind::Json),
        Some(f) => if f.mode != "ccm"@ || f.adata.len() > 0 || f.ts != 64 {
            Err(ErrKind::Crypto)
        } else {
            match (b64_field(f.salt), b64_field(f.iv), b64_field(f.ct)) {
                (Ok(salt), Ok(iv), Ok(ct)) => if ct.len() < 8 || iv.len() < 7 {
                    Err(ErrKind::Crypto)
                } else {
                    let nonce = sjcl_nonce(iv, ct.len() - 8);
                    let key = pbkdf2_sha256_len(password, salt, f.iter, (f.ks / 8) as nat);
                    if (f.ks == 128 || f.ks == 256) && (nonce.len() == 12 || nonce.len() == 13) {
                        match ccm_open(key, nonce, ct) {
                            Some(p) => Ok(p),
                            None => Err(ErrKind::Crypto),
                        }
                    } else {
                        Err(ErrKind::Crypto)
                    }
                },
                (Err(e), _, _) => Err(e),
                (_, Err(e), _) => Err(e),
                (_, _, Err(e)) => Err(e),
            }
        },
    }
}

fn u32_field(doc: &[u8], key: &str, default: u32) -> (r: Result<u32>)
    ensures
        match or_default(json_u32_member(doc@, key@), default) {
            Some(v) => r == Ok::<u32, Error>(v),
            None => r matches Err(e) && kind(e) == ErrKind::Json,
        },
{
    match json_u32(doc, key) {
        Some(Some(v)) => Ok(v),
        Some(None) => Ok(default),
        None => Err(Error::Json(message("invalid field ", chars_of(key).as_slice()))),
    }
}

fn str_field(doc: &[u8], key: &str) -> (r: Result<String>)
    ensures
        match or_default(json_str_member(doc@, key@), Seq::empty()) {
            Some(v) => r matches Ok(s) && s@ == v,
            None => r matches Err(e) && kind(e) == ErrKind::Json,
        },
{
    match json_str(doc, key) {
        Some(Some(v)) => Ok(v),
        Some(None) => Ok(string_of(&[])),
        None => Err(Error::Json(message("invalid field ", chars_of(key).as_slice()))),
    }
}

/// The fields as a tuple.
pub open spec fn field_tuple(f: SjclFields) -> (Seq<char>, u32, u32, u32, Seq<char>, Seq<char>, Seq<char>, Seq<char>) {
    (f.iv, f.iter, f.ks, f.ts, f.mode, f.adata, f.salt, f.ct)
}

pub open spec fn tuple_view(t: (String, u32, u32, u32, String, String, String, String)) -> (Seq<char>, u32, u32, u32, Seq<char>, Seq<char>, Seq<char>, Seq<char>) {
    (t.0@, t.1, t.2, t.3, t.4@, t.5@, t.6@, t.7@)
}

/// The eight elements of a payload written as an array.
fn sjcl_array(doc: &[u8]) -> (r: Option<(String, u32, u32, u32, String, String, String, String)>)
    ensures
        match sjcl_array_fields(doc@) {
            Some(f) => r matches Some(t) && tuple_view(t) == field_tuple(f),
            None => r is None,
        },
{
    match (
        json_str_at(doc, 0),
        json_u32_at(doc, 1),
        json_u32_at(doc, 2),
        json_u32_at(doc, 3),
        json_str_at(doc, 4),
        json_str_at(doc, 5),
        json_str_at(doc, 6),
        json_str_at(doc, 7),
    ) {
        (Some(a), Some(b), Some(c), Some(d), Some(e), Some(f), Some(g), Some(h)) => Some((a, b, c, d, e, f, g, h)),
        _ => None,
    }
}

/// The members of a payload written as an object, missing ones with their
/// defaults.
fn sjcl_object(doc: &[u8]) -> (r: Option<(String, u32, u32, u32, String, String, String, String)>)
    ensures
        json_array_length(doc@) is None ==> match sjcl_fields(doc@) {
            Some(f) => r matches Some(t) && tuple_view(t) == field_tuple(f),
            None => r is None,
        },
{
    let f_iv = required_str(doc, "iv");
    let f_iter = u32_field(doc, "iter", 10000);
    let f_ks = u32_field(doc, "ks", 128);
    let f_ts = u32_field(doc, "ts", 64);
    let f_mode = str_field(doc, "mode");
    let f_adata = str_field(doc, "adata");
    let f_salt = required_str(doc, "salt");
    let f_ct = required_str(doc, "ct");
    match (f_iv, f_iter, f_ks, f_ts, f_mode, f_adata, f_salt, f_ct) {
        (Ok(a), Ok(b), Ok(c), Ok(d), Ok(e), Ok(f), Ok(g), Ok(h)) => Some((a, b, c, d, e, f, g, h)),
        _ => None,
    }
}

fn sjcl_decrypt(password: &[u8], doc: &[u8]) -> (r: Result<Vec<u8>>)
    ensures
        match sjcl_decrypt_spec(password@, doc@) {
            Ok(p) => r matches Ok(v) && v@ == p,
            Err(k) => r matches Err(e) && kind(e) == k,
        },
{
    let fields = match json_array_len(doc) {
        Some(n) => if n == 8 {
            sjcl_array(doc)
        } else {
            None
        },
        None => sjcl_object(doc),
    };
    let (iv_t, iter, ks, ts, mode, adata, salt_t, ct_t) = match fields {
        Some(f) => f,
        None => {
            return Err(Error::Json(message("invalid SJCL payload", &[])));
        },
    };
    let ccm = chars_of("ccm");
    if !crate::text::eq_chars(chars_of(mode.as_str()).as_slice(), ccm.as_slice()) {
        let mut m = chars_of("SJCL mode '");
        push_all(&mut m, chars_of(mode.as_str()).as_slice());
        return Err(Error::Crypto(message_then(
            m.as_slice(),
            "' not supported (legacy OCB2 data, re-encrypt it from Joplin)",
        )));
    }
    if chars_of(adata.as_str()).len() > 0 {
        return Err(Error::Crypto(message("SJCL adata not supported", &[])));
    }
    if ts != 64 {
        return Err(Error::Crypto(message("unsupported SJCL tag size ", i64_text(ts as i64).as_slice())));
    }
    let salt = b64(salt_t.as_str())?;
    let iv = b64(iv_t.as_str())?;
    let ct = b64(ct_t.as_str())?;
    let tag_len: usize = 8;
    if ct.len() < tag_len || iv.len() < 7 {
        return Err(Error::Crypto(message("SJCL payload too short", &[])));
    }
    let plain_len = ct.len() - tag_len;
    let mut l: usize = 2;
    while l < 4 && !(plain_len < shift_limit(l))
        invariant
            2 <= l <= 4,
            forall|j: int| 2 <= j < l ==> plain_len >= length_limit(j),
        decreases 4 - l,
    {
        l = l + 1;
    }
    proof {
        if l == 3 {
            assert(plain_len >= length_limit(2));
        }
        if l == 4 {
            assert(plain_len >= length_limit(3));
        }
        assert(l == ccm_length_size(plain_len as int));
    }
    if iv.len() < 15 && l < 15 - iv.len() {
        l = 15 - iv.len();
    }
    let nonce = copy_bytes(iv.as_slice(), 0, 15 - l);
    assert(nonce@ =~= sjcl_nonce(iv@, plain_len as int));
    let key = pbkdf2_sha256(password, salt.as_slice(), iter, (ks / 8) as usize);
    let fail = "CCM authentication failed (wrong key or password?)";
    let res = if ks == 128 && nonce.len() == 13 {
        ccm128_13_decrypt(key.as_slice(), nonce.as_slice(), ct.as_slice())
    } else if ks == 128 && nonce.len() == 12 {
        ccm128_12_decrypt(key.as_slice(), nonce.as_slice(), ct.as_slice())
    } else if ks == 256 && nonce.len() == 13 {
        ccm256_13_decrypt(key.as_slice(), nonce.as_slice(), ct.as_slice())
    } else if ks == 256 && nonce.len() == 12 {
        ccm256_12_decrypt(key.as_slice(), nonce.as_slice(), ct.as_slice())
    } else {
        let mut m = i64_text(ks as i64);
        m.push('/');
        push_all(&mut m, i64_text(nonce.len() as i64).as_slice());
        return Err(Error::Crypto(message("unsupported SJCL key/nonce size ", m.as_slice())));
    };
    match res {
        Some(p) => Ok(p),
        None => Err(Error::Crypto(message(fail, &[]))),
    }
}

/// `head` followed by `tail`, as a string.
fn message_then(head: &[char], tail: &str) -> (r: String)
    ensures
        r@ == head@ + tail@,
{
    let mut v = crate::text::copy_range(head, 0, head.len());
    assert(head@.subrange(0, head@.len() as int) =~= head@);
    push_all(&mut v, chars_of(tail).as_slice());
    string_of(v.as_slice())
}

/// `2^(8 l)` for a length field of `l` bytes, `l` being 2 or 3.
pub open spec fn length_limit(l: int) -> int {
    if l <= 2 {
        0x1_0000
    } else {
        0x100_0000
    }
}

/// `2^(8 l)` for `l` in 2..4 (`n >> 8l == 0` is `n < 2^(8l)`).
fn shift_limit(l: usize) -> (r: usize)
    requires
        2 <= l < 4,
    ensures
        r == length_limit(l as int),
{
    if l == 2 {
        0x1_0000
    } else {
        0x100_0000
    }
}

/// SJCL decryption of a UTF-8 text.
pub open spec fn sjcl_utf8_spec(password: Seq<u8>, doc: Seq<u8>) -> core::result::Result<Seq<char>, ErrKind> {
    match sjcl_decrypt_spec(password, doc) {
        Ok(b) => if vstd::utf8::valid_utf8(b) {
            Ok(vstd::utf8::decode_utf8(b))
        } else {
            Err(ErrKind::Crypto)
        },
        Err(e) => Err(e),
    }
}

fn sjcl_utf8(password: &[u8], doc: &[u8]) -> (r: Result<String>)
    ensures
        match sjcl_utf8_spec(password@, doc@) {
            Ok(t) => r matches Ok(s) && s@ == t,
            Err(k) => r matches Err(e) && kind(e) == k,
        },
{
    let b = sjcl_decrypt(password, doc)?;
    match utf8_decode(b.as_slice()) {
        Some(s) => Ok(s),
        None => Err(Error::Crypto(message("invalid UTF-8", &[]))),
    }
}

/// JavaScript's global `unescape()` (used by SJCL1a and SJCL1b): `%uXXXX`
/// and `%XX` escapes of UTF-16 code units decoded, unpaired surrogates
/// replaced.
pub fn js_unescape(s: &str) -> (r: String)
    ensures
        r@ == js_unescape_spec(s@),
{
    string_of(js_unescape_chars(chars_of(s).as_slice()).as_slice())
}

// ---------------------------------------------------------------------------
// Master keys
// ---------------------------------------------------------------------------

/// A master key entry as stored in `info.json` under `masterKeys`.
#[derive(Debug, Clone)]
pub struct MasterKey {
    pub id: String,
    pub created_time: i64,
    pub updated_time: i64,
    pub source_application: String,
    pub encryption_method: u32,
    pub checksum: String,
    pub content: String,
    pub enabled: Option<i64>,
    pub has_been_used: Option<bool>,
}

/// Lowercase hexadecimal text of bytes, two digits a byte.
pub open spec fn hex_lower(b: Seq<u8>) -> Seq<char> {
    Seq::new(
        2 * b.len(),
        |i: int| if i % 2 == 0 { digit_char((b[i / 2] / 16) as int) } else { digit_char((b[i / 2] % 16) as int) },
    )
}

/// Lowercase hexadecimal text of bytes (`hex::encode`).
pub fn hex_encode(b: &[u8]) -> (r: String)
    ensures
        r@ == hex_lower(b@),
{
    let mut out: Vec<char> = Vec::new();
    let mut i: usize = 0;
    while i < b.len()
        invariant
            i <= b@.len(),
            out@ == hex_lower(b@.take(i as int)),
        decreases b@.len() - i,
    {
        let hi = digit_of(b[i] / 16);
        let lo = digit_of(b[i] % 16);
        out.push(hi);
        out.push(lo);
        proof {
            let t = b@.take(i as int + 1);
            assert forall|k: int| 0 <= k < 2 * t.len() implies #[trigger] out@[k] == hex_lower(t)[k] by {
                if k < 2 * i {
                    assert(t[k / 2] == b@.take(i as int)[k / 2]);
                }
            }
        }
        i = i + 1;
        assert(out@ =~= hex_lower(b@.take(i as int)));
    }
    assert(b@.take(b@.len() as int) =~= b@);
    string_of(out.as_slice())
}

/// The hexadecimal digit of a value below 16.
fn digit_of(d: u8) -> (c: char)
    requires
        d < 16,
    ensures
        c == digit_char(d as int),
{
    if d < 10 {
        ((0x30u8 + d) as char)
    } else {
        ((0x61u8 + d - 10) as char)
    }
}

/// What decrypting a master key gives: the hex text of the key (KeyV1), the
/// key text (SJCL3, SJCL4), or the error.
pub open spec fn master_key_spec(method: u32, content: Seq<u8>, password: Seq<u8>) -> core::result::Result<Seq<char>, ErrKind> {
    if method == METHOD_KEY_V1 {
        match gcm_decrypt_spec(password, content, 220_000) {
            Ok(p) => Ok(hex_lower(p)),
            Err(e) => Err(e),
        }
    } else if method == METHOD_SJCL3 || method == METHOD_SJCL4 {
        sjcl_utf8_spec(password, content)
    } else if method == METHOD_SJCL2 {
        Err(ErrKind::Crypto)
    } else {
        Err(ErrKind::Unsupported(method))
    }
}

/// Decrypts a master key with the user's master password; the hex text it
/// gives is the password of item encryption.
pub fn decrypt_master_key(mk: &MasterKey, password: &str) -> (r: Result<String>)
    ensures
        match master_key_spec(mk.encryption_method, vstd::utf8::encode_utf8(mk.content@), password.spec_bytes()) {
            Ok(t) => r matches Ok(s) && s@ == t,
            Err(k) => r matches Err(e) && kind(e) == k,
        },
{
    let m = mk.encryption_method;
    if m == METHOD_KEY_V1 {
        let p = gcm_decrypt(password.as_bytes(), mk.content.as_str().as_bytes(), 220_000)?;
        Ok(hex_encode(p.as_slice()))
    } else if m == METHOD_SJCL3 || m == METHOD_SJCL4 {
        sjcl_utf8(password.as_bytes(), mk.content.as_str().as_bytes())
    } else if m == METHOD_SJCL2 {
        Err(Error::Crypto(message("master key uses legacy OCB2 encryption: open Joplin desktop, it will offer to upgrade it", &[])))
    } else {
        Err(Error::UnsupportedMethod(m))
    }
}

// ---------------------------------------------------------------------------
// Items and files
// ---------------------------------------------------------------------------

/// What one chunk of an encrypted string adds: UTF-16 units (StringV1) or
/// text (legacy methods).
pub open spec fn string_chunk(method: u32, key: Seq<u8>, block: Seq<u8>) -> core::result::Result<(Seq<u16>, Seq<char>), ErrKind> {
    if method == METHOD_STRING_V1 {
        match gcm_decrypt_spec(key, block, 3) {
            Ok(p) => Ok((units_of_le(p), Seq::empty())),
            Err(e) => Err(e),
        }
    } else if method == METHOD_SJCL3 || method == METHOD_SJCL4 {
        match sjcl_utf8_spec(key, block) {
            Ok(t) => Ok((Seq::empty(), t)),
            Err(e) => Err(e),
        }
    } else if method == METHOD_SJCL1A || method == METHOD_SJCL1B {
        match sjcl_utf8_spec(key, block) {
            Ok(t) => Ok((Seq::empty(), js_unescape_spec(t))),
            Err(e) => Err(e),
        }
    } else {
        Err(ErrKind::Unsupported(method))
    }
}

/// The chunks of an encrypted string from byte `pos` on: each is a 6-digit
/// hex length and that many bytes (an empty one is skipped).
pub open spec fn string_chunks(b: Seq<u8>, pos: int, method: u32, key: Seq<u8>) -> core::result::Result<(Seq<u16>, Seq<char>), ErrKind>
    decreases b.len() - pos,
{
    if pos < 0 || pos >= b.len() {
        Ok((Seq::empty(), Seq::empty()))
    } else if !take_ok(b, pos, 6) {
        Err(ErrKind::Crypto)
    } else {
        match hex_num_spec(b.subrange(pos, pos + 6)) {
            None => Err(ErrKind::Crypto),
            Some(n) => if n == 0 {
                string_chunks(b, pos + 6, method, key)
            } else if !take_ok(b, pos + 6, n) {
                Err(ErrKind::Crypto)
            } else {
                match string_chunk(method, key, b.subrange(pos + 6, pos + 6 + n)) {
                    Err(e) => Err(e),
                    Ok((u, t)) => match string_chunks(b, pos + 6 + n, method, key) {
                        Err(e) => Err(e),
                        Ok((u2, t2)) => Ok((u + u2, t + t2)),
                    },
                }
            },
        }
    }
}

/// The text that decrypted chunks make: the UTF-16 units decoded (StringV1)
/// or the text as it came (legacy methods).
pub open spec fn string_result(method: u32, r: core::result::Result<(Seq<u16>, Seq<char>), ErrKind>) -> core::result::Result<Seq<char>, ErrKind> {
    match r {
        Err(e) => Err(e),
        Ok((u, t)) => if method == METHOD_STRING_V1 {
            match decode_utf16(u) {
                Some(s) => Ok(s),
                None => Err(ErrKind::Crypto),
            }
        } else {
            Ok(t)
        },
    }
}

/// The text an encrypted string holds, with the keys `keys`.
pub open spec fn decrypt_string_spec(keys: Seq<(Seq<char>, Seq<char>)>, b: Seq<u8>) -> core::result::Result<Seq<char>, ErrKind> {
    match decode_header_spec(b) {
        None => Err(ErrKind::Crypto),
        Some((m, idb, pos)) => match lookup(keys, vstd::utf8::decode_utf8(idb)) {
            None => Err(ErrKind::MasterKeyNotLoaded),
            Some(k) => string_result(m, string_chunks(b, pos, m, vstd::utf8::encode_utf8(k))),
        },
    }
}

/// What one chunk of an encrypted file adds: bytes (FileV1) or Base64 text
/// (legacy methods).
pub open spec fn file_chunk(method: u32, key: Seq<u8>, block: Seq<u8>) -> core::result::Result<(Seq<u8>, Seq<char>), ErrKind> {
    if method == METHOD_FILE_V1 {
        match gcm_decrypt_spec(key, block, 3) {
            Ok(p) => Ok((p, Seq::empty())),
            Err(e) => Err(e),
        }
    } else if method == METHOD_SJCL3 || method == METHOD_SJCL4 {
        match sjcl_utf8_spec(key, block) {
            Ok(t) => Ok((Seq::empty(), t)),
            Err(e) => Err(e),
        }
    } else if method == METHOD_SJCL1A || method == METHOD_SJCL1B {
        match sjcl_utf8_spec(key, block) {
            Ok(t) => Ok((Seq::empty(), js_unescape_spec(t))),
            Err(e) => Err(e),
        }
    } else {
        Err(ErrKind::Unsupported(method))
    }
}

/// The chunks of an encrypted file from byte `pos` on.
pub open spec fn file_chunks(b: Seq<u8>, pos: int, method: u32, key: Seq<u8>) -> core::result::Result<(Seq<u8>, Seq<char>), ErrKind>
    decreases b.len() - pos,
{
    if pos < 0 || pos >= b.len() {
        Ok((Seq::empty(), Seq::empty()))
    } else if !take_ok(b, pos, 6) {
        Err(ErrKind::Crypto)
    } else {
        match hex_num_spec(b.subrange(pos, pos + 6)) {
            None => Err(ErrKind::Crypto),
            Some(n) => if n == 0 {
                file_chunks(b, pos + 6, method, key)
            } else if !take_ok(b, pos + 6, n) {
                Err(ErrKind::Crypto)
            } else {
                match file_chunk(method, key, b.subrange(pos + 6, pos + 6 + n)) {
                    Err(e) => Err(e),
                    Ok((o, t)) => match file_chunks(b, pos + 6 + n, method, key) {
                        Err(e) => Err(e),
                        Ok((o2, t2)) => Ok((o + o2, t + t2)),
                    },
                }
            },
        }
    }
}

/// The bytes that decrypted chunks make: the Base64 text decoded where a
/// legacy method gave text, else the bytes.
pub open spec fn file_result(r: core::result::Result<(Seq<u8>, Seq<char>), ErrKind>) -> core::result::Result<Seq<u8>, ErrKind> {
    match r {
        Err(e) => Err(e),
        Ok((o, t)) => if t.len() > 0 {
            b64_field(t)
        } else {
            Ok(o)
        },
    }
}

/// The bytes an encrypted file holds, with the keys `keys`.
pub open spec fn decrypt_file_spec(keys: Seq<(Seq<char>, Seq<char>)>, b: Seq<u8>) -> core::result::Result<Seq<u8>, ErrKind> {
    match decode_header_spec(b) {
        None => Err(ErrKind::Crypto),
        Some((m, idb, pos)) => match lookup(keys, vstd::utf8::decode_utf8(idb)) {
            None => Err(ErrKind::MasterKeyNotLoaded),
            Some(k) => file_result(file_chunks(b, pos, m, vstd::utf8::encode_utf8(k))),
        },
    }
}

/// Where the piece of at most `n` bytes that starts at `pos` ends.
pub open spec fn piece_end(len: nat, pos: int, n: int) -> int {
    if pos + n < len {
        pos + n
    } else {
        len as int
    }
}

/// Each sealed piece written as its length in six hex digits and its text.
pub open spec fn frames(blocks: Seq<Seq<char>>) -> Seq<char>
    decreases blocks.len(),
{
    if blocks.len() == 0 {
        Seq::empty()
    } else {
        frames(blocks.drop_last()) + hex_text(blocks.last().len(), 6) + blocks.last()
    }
}

/// Whether `blocks` are the bytes of `plain` from `pos` on, cut into pieces
/// of `n` bytes (the last one shorter), each sealed with `key`.
pub open spec fn sealed_pieces(key: Seq<u8>, plain: Seq<u8>, pos: int, n: int, blocks: Seq<Seq<char>>) -> bool
    decreases blocks.len(),
{
    if blocks.len() == 0 {
        pos >= plain.len()
    } else {
        &&& 0 <= pos < plain.len()
        &&& n > 0
        &&& gcm_encrypted(key, plain.subrange(pos, piece_end(plain.len(), pos, n)), 3, blocks[0])
        &&& sealed_pieces(key, plain, piece_end(plain.len(), pos, n), n, blocks.drop_first())
    }
}

/// Whether `out` is `plain` encrypted with the key `key` of id `id` and the
/// method `method`, in pieces of `n` bytes.
pub open spec fn sealed_text(method: u32, id: Seq<char>, key: Seq<u8>, plain: Seq<u8>, n: int, out: Seq<char>) -> bool {
    let h = encode_header_spec(method, id);
    exists|blocks: Seq<Seq<char>>| #[trigger] sealed_pieces(key, plain, 0, n, blocks) && out == h + frames(blocks)
}

/// What encrypting with the active key gives, whatever the random salts and
/// nonces: `None` for a key ring without an active key that it holds.
pub open spec fn encrypt_outcome(ring_keys: Seq<(Seq<char>, Seq<char>)>, active: Option<Seq<char>>) -> Option<(Seq<char>, Seq<u8>)> {
    match active {
        None => None,
        Some(id) => match lookup(ring_keys, id) {
            None => None,
            Some(k) => Some((id, vstd::utf8::encode_utf8(k))),
        },
    }
}

/// Adds what a decrypted chunk holds to the units and text read so far.
pub open spec fn plus2<A, B>(acc: (Seq<A>, Seq<B>), r: core::result::Result<(Seq<A>, Seq<B>), ErrKind>) -> core::result::Result<(Seq<A>, Seq<B>), ErrKind> {
    match r {
        Err(e) => Err(e),
        Ok((a, b)) => Ok((acc.0 + a, acc.1 + b)),
    }
}

/// Reads the length of the chunk at `pos`: the span of its bytes, empty for
/// an empty chunk.
fn next_chunk(b: &[u8], pos: usize) -> (r: Result<(usize, usize)>)
    requires
        pos < b@.len(),
    ensures
        match r {
            Ok((lo, hi)) => {
                &&& lo == pos + 6
                &&& lo <= hi <= b@.len()
                &&& take_ok(b@, pos as int, 6)
                &&& hex_num_spec(b@.subrange(pos as int, pos + 6)) == Some((hi - lo) as int)
                &&& (hi > lo ==> take_ok(b@, lo as int, hi - lo))
            },
            Err(e) => {
                &&& kind(e) == ErrKind::Crypto
                &&& (!take_ok(b@, pos as int, 6) || match hex_num_spec(b@.subrange(pos as int, pos + 6)) {
                    None => true,
                    Some(n) => n != 0 && !take_ok(b@, pos + 6, n),
                })
            },
        },
{
    let p = take(b, pos, 6)?;
    let n = hex_num(b, pos, p)?;
    if n == 0 {
        return Ok((p, p));
    }
    let e = take(b, p, n)?;
    Ok((p, e))
}

pub proof fn lemma_plus2_assoc<A, B>(acc: (Seq<A>, Seq<B>), x: (Seq<A>, Seq<B>), r: core::result::Result<(Seq<A>, Seq<B>), ErrKind>)
    ensures
        plus2(acc, plus2(x, r)) == plus2((acc.0 + x.0, acc.1 + x.1), r),
{
    match r {
        Ok((a, b)) => {
            assert(acc.0 + (x.0 + a) =~= acc.0 + x.0 + a);
            assert(acc.1 + (x.1 + b) =~= acc.1 + x.1 + b);
        },
        Err(_) => {},
    }
}

/// Reads and decrypts the chunk of an encrypted string at `pos`.
fn string_step(kb: &[u8], b: &[u8], pos: usize, method: u32) -> (r: Result<(usize, Vec<u16>, Vec<char>)>)
    requires
        pos < b@.len(),
    ensures
        match r {
            Ok((np, u, t)) => pos < np <= b@.len() && string_chunks(b@, pos as int, method, kb@)
                == plus2((u@, t@), string_chunks(b@, np as int, method, kb@)),
            Err(e) => string_chunks(b@, pos as int, method, kb@) == Err::<(Seq<u16>, Seq<char>), ErrKind>(kind(e)),
        },
{
    let (lo, hi) = next_chunk(b, pos)?;
    let mut text: Vec<char> = Vec::new();
    if lo == hi {
        let u: Vec<u16> = Vec::new();
        proof {
            match string_chunks(b@, hi as int, method, kb@) {
                Ok((u2, t2)) => {
                    assert(u@ + u2 =~= u2);
                    assert(text@ + t2 =~= t2);
                },
                Err(_) => {},
            }
        }
        return Ok((hi, u, text));
    }
    let block = copy_bytes(b, lo, hi);
    let u = if method == METHOD_STRING_V1 {
        let p = gcm_decrypt(kb, block.as_slice(), 3)?;
        units_from_le(p.as_slice())
    } else if method == METHOD_SJCL3 || method == METHOD_SJCL4 {
        let t = sjcl_utf8(kb, block.as_slice())?;
        text = chars_of(t.as_str());
        Vec::new()
    } else if method == METHOD_SJCL1A || method == METHOD_SJCL1B {
        let t = sjcl_utf8(kb, block.as_slice())?;
        text = js_unescape_chars(chars_of(t.as_str()).as_slice());
        Vec::new()
    } else {
        return Err(Error::UnsupportedMethod(method));
    };
    proof {
        assert(string_chunk(method, kb@, block@) == Ok::<(Seq<u16>, Seq<char>), ErrKind>((u@, text@)));
    }
    Ok((hi, u, text))
}

/// Reads and decrypts the chunk of an encrypted file at `pos`.
fn file_step(kb: &[u8], b: &[u8], pos: usize, method: u32) -> (r: Result<(usize, Vec<u8>, Vec<char>)>)
    requires
        pos < b@.len(),
    ensures
        match r {
            Ok((np, o, t)) => pos < np <= b@.len() && file_chunks(b@, pos as int, method, kb@)
                == plus2((o@, t@), file_chunks(b@, np as int, method, kb@)),
            Err(e) => file_chunks(b@, pos as int, method, kb@) == Err::<(Seq<u8>, Seq<char>), ErrKind>(kind(e)),
        },
{
    let (lo, hi) = next_chunk(b, pos)?;
    let mut text: Vec<char> = Vec::new();
    if lo == hi {
        let o: Vec<u8> = Vec::new();
        proof {
            match file_chunks(b@, hi as int, method, kb@) {
                Ok((o2, t2)) => {
                    assert(o@ + o2 =~= o2);
                    assert(text@ + t2 =~= t2);
                },
                Err(_) => {},
            }
        }
        return Ok((hi, o, text));
    }
    let block = copy_bytes(b, lo, hi);
    let o = if method == METHOD_FILE_V1 {
        gcm_decrypt(kb, block.as_slice(), 3)?
    } else if method == METHOD_SJCL3 || method == METHOD_SJCL4 {
        let t = sjcl_utf8(kb, block.as_slice())?;
        text = chars_of(t.as_str());
        Vec::new()
    } else if method == METHOD_SJCL1A || method == METHOD_SJCL1B {
        let t = sjcl_utf8(kb, block.as_slice())?;
        text = js_unescape_chars(chars_of(t.as_str()).as_slice());
        Vec::new()
    } else {
        return Err(Error::UnsupportedMethod(method));
    };
    proof {
        assert(file_chunk(method, kb@, block@) == Ok::<(Seq<u8>, Seq<char>), ErrKind>((o@, text@)));
    }
    Ok((hi, o, text))
}

/// Seals `plain` in pieces of `n` bytes and writes each piece after `out`.
fn seal_pieces(key: &[u8], plain: &[u8], n: usize, out: &mut Vec<char>) -> (blocks: Ghost<Seq<Seq<char>>>)
    requires
        0 < n <= 0x10_0000,
    ensures
        sealed_pieces(key@, plain@, 0, n as int, blocks@),
        final(out)@ == old(out)@ + frames(blocks@),
{
    let ghost start = out@;
    let mut pos: usize = 0;
    let ghost mut done: Seq<Seq<char>> = Seq::empty();
    assert(out@ =~= start + frames(done));
    while pos < plain.len()
        invariant
            0 < n <= 0x10_0000,
            pos <= plain@.len(),
            out@ == start + frames(done),
            forall|tail: Seq<Seq<char>>| #[trigger] sealed_pieces(key@, plain@, pos as int, n as int, tail) ==> sealed_pieces(
                key@,
                plain@,
                0,
                n as int,
                done + tail,
            ),
        decreases plain@.len() - pos,
    {
        let end = if plain.len() - pos > n { pos + n } else { plain.len() };
        let piece = copy_bytes(plain, pos, end);
        let block = match gcm_encrypt(key, piece.as_slice(), 3) {
            Ok(b) => b,
            Err(_) => {
                proof {
                    assert(false);
                }
                return Ghost(done);
            },
        };
        let cs = chars_of(block.as_str());
        let h = hex_padded(cs.len() as u64, 6);
        let ghost before = done;
        push_all(out, h.as_slice());
        push_all(out, cs.as_slice());
        proof {
            done = before.push(cs@);
            assert(done.drop_last() =~= before);
            assert(out@ =~= start + frames(done));
            assert(piece_end(plain@.len(), pos as int, n as int) == end);
            assert forall|tail: Seq<Seq<char>>| #[trigger] sealed_pieces(key@, plain@, end as int, n as int, tail) implies sealed_pieces(
                key@,
                plain@,
                0,
                n as int,
                done + tail,
            ) by {
                let longer = seq![cs@] + tail;
                assert(longer.drop_first() =~= tail);
                assert(sealed_pieces(key@, plain@, pos as int, n as int, longer));
                assert(before + longer =~= done + tail);
            }
        }
        pos = end;
    }
    proof {
        assert(sealed_pieces(key@, plain@, pos as int, n as int, Seq::<Seq<char>>::empty()));
        assert(done + Seq::<Seq<char>>::empty() =~= done);
    }
    Ghost(done)
}

/// `a` followed by `b`.
fn concat_units(a: &mut Vec<u16>, b: &[u16])
    ensures
        final(a)@ == old(a)@ + b@,
{
    let mut k: usize = 0;
    while k < b.len()
        invariant
            k <= b@.len(),
            a@ == old(a)@ + b@.take(k as int),
        decreases b@.len() - k,
    {
        a.push(b[k]);
        k = k + 1;
        assert(a@ =~= old(a)@ + b@.take(k as int));
    }
    assert(b@.take(b@.len() as int) =~= b@);
}

/// `a` followed by `b`.
fn concat_bytes(a: &mut Vec<u8>, b: &[u8])
    ensures
        final(a)@ == old(a)@ + b@,
{
    let mut k: usize = 0;
    while k < b.len()
        invariant
            k <= b@.len(),
            a@ == old(a)@ + b@.take(k as int),
        decreases b@.len() - k,
    {
        a.push(b[k]);
        k = k + 1;
        assert(a@ =~= old(a)@ + b@.take(k as int));
    }
    assert(b@.take(b@.len() as int) =~= b@);
}

impl KeyRing {
    /// Decrypts an encrypted string (`EncryptionService.decryptString`).
    pub fn decrypt_string(&self, cipher_text: &str) -> (r: Result<String>)
        requires
            !header_panics(cipher_text.spec_bytes()),
        ensures
            match decrypt_string_spec(self.entries(), cipher_text.spec_bytes()) {
                Ok(t) => r matches Ok(s) && s@ == t,
                Err(k) => r matches Err(e) && kind(e) == k,
            },
            match decode_header_spec(cipher_text.spec_bytes()) {
                Some((_, idb, _)) => lookup(self.entries(), vstd::utf8::decode_utf8(idb)) is None ==> (r matches Err(
                    Error::MasterKeyNotLoaded(m),
                ) && m@ == vstd::utf8::decode_utf8(idb)),
                None => true,
            },
    {
        let (header, start) = decode_header(cipher_text)?;
        let key = self.key(header.master_key_id.as_str())?;
        let kb = key.as_bytes();
        let b = cipher_text.as_bytes();
        let method = header.method;
        let mut units: Vec<u16> = Vec::new();
        let mut text: Vec<char> = Vec::new();
        let mut pos = start;
        let ghost whole = string_chunks(b@, start as int, method, kb@);
        assert(plus2((units@, text@), whole) =~= whole) by {
            match whole {
                Ok((u, t)) => {
                    assert(units@ + u =~= u);
                    assert(text@ + t =~= t);
                },
                Err(_) => {},
            }
        }
        while pos < b.len()
            invariant
                start <= pos <= b@.len(),
                whole == string_chunks(b@, start as int, method, kb@),
                whole == plus2((units@, text@), string_chunks(b@, pos as int, method, kb@)),
                decrypt_string_spec(self.entries(), cipher_text.spec_bytes()) == string_result(method, whole),
                match decode_header_spec(cipher_text.spec_bytes()) {
                    Some((_, idb, _)) => lookup(self.entries(), vstd::utf8::decode_utf8(idb)) is Some,
                    None => false,
                },
            decreases b@.len() - pos,
        {
            let (np, u, t) = string_step(kb, b, pos, method)?;
            proof {
                lemma_plus2_assoc((units@, text@), (u@, t@), string_chunks(b@, np as int, method, kb@));
            }
            concat_units(&mut units, u.as_slice());
            push_all(&mut text, t.as_slice());
            pos = np;
        }
        assert(units@ + Seq::<u16>::empty() =~= units@);
        assert(text@ + Seq::<char>::empty() =~= text@);
        if method == METHOD_STRING_V1 {
            match from_units(units.as_slice()) {
                Some(cs) => Ok(string_of(cs.as_slice())),
                None => Err(Error::Crypto(message("invalid UTF-16", &[]))),
            }
        } else {
            Ok(string_of(text.as_slice()))
        }
    }

    /// Decrypts an encrypted resource blob (`decryptFile`).
    pub fn decrypt_file(&self, cipher_text: &str) -> (r: Result<Vec<u8>>)
        requires
            !header_panics(cipher_text.spec_bytes()),
        ensures
            match decrypt_file_spec(self.entries(), cipher_text.spec_bytes()) {
                Ok(t) => r matches Ok(v) && v@ == t,
                Err(k) => r matches Err(e) && kind(e) == k,
            },
            match decode_header_spec(cipher_text.spec_bytes()) {
                Some((_, idb, _)) => lookup(self.entries(), vstd::utf8::decode_utf8(idb)) is None ==> (r matches Err(
                    Error::MasterKeyNotLoaded(m),
                ) && m@ == vstd::utf8::decode_utf8(idb)),
                None => true,
            },
    {
        let (header, start) = decode_header(cipher_text)?;
        let key = self.key(header.master_key_id.as_str())?;
        let kb = key.as_bytes();
        let b = cipher_text.as_bytes();
        let method = header.method;
        let mut out: Vec<u8> = Vec::new();
        let mut legacy: Vec<char> = Vec::new();
        let mut pos = start;
        let ghost whole = file_chunks(b@, start as int, method, kb@);
        assert(plus2((out@, legacy@), whole) =~= whole) by {
            match whole {
                Ok((o, t)) => {
                    assert(out@ + o =~= o);
                    assert(legacy@ + t =~= t);
                },
                Err(_) => {},
            }
        }
        while pos < b.len()
            invariant
                start <= pos <= b@.len(),
                whole == file_chunks(b@, start as int, method, kb@),
                whole == plus2((out@, legacy@), file_chunks(b@, pos as int, method, kb@)),
                decrypt_file_spec(self.entries(), cipher_text.spec_bytes()) == file_result(whole),
                match decode_header_spec(cipher_text.spec_bytes()) {
                    Some((_, idb, _)) => lookup(self.entries(), vstd::utf8::decode_utf8(idb)) is Some,
                    None => false,
                },
            decreases b@.len() - pos,
        {
            let (np, o, t) = file_step(kb, b, pos, method)?;
            proof {
                lemma_plus2_assoc((out@, legacy@), (o@, t@), file_chunks(b@, np as int, method, kb@));
            }
            concat_bytes(&mut out, o.as_slice());
            push_all(&mut legacy, t.as_slice());
            pos = np;
        }
        assert(out@ + Seq::<u8>::empty() =~= out@);
        assert(legacy@ + Seq::<char>::empty() =~= legacy@);
        if legacy.len() > 0 {
            let t = string_of(legacy.as_slice());
            b64(t.as_str())
        } else {
            Ok(out)
        }
    }

    /// Encrypts a text with the active key and the method StringV1
    /// (`EncryptionService.encryptString`).
    pub fn encrypt_string(&self, plain: &str) -> (r: Result<String>)
        requires
            self.active() matches Some(id) ==> vstd::utf8::encode_utf8(id).len() + 2 <= usize::MAX,
        ensures
            match encrypt_outcome(self.entries(), self.active()) {
                None => r matches Err(e) && kind(e) == ErrKind::MasterKeyNotLoaded,
                Some((id, key)) => r matches Ok(s) && sealed_text(
                    METHOD_STRING_V1,
                    id,
                    key,
                    le_of_units(encode_utf16(plain@)),
                    2 * STRING_V1_CHUNK,
                    s@,
                ),
            },
    {
        let id = match self.active_key() {
            Some(a) => a,
            None => {
                return Err(Error::MasterKeyNotLoaded(message("no active master key", &[])));
            },
        };
        let key = self.key(id.as_str())?;
        let units = to_units(chars_of(plain).as_slice());
        let bytes = le_from_units(units.as_slice());
        proof {
            crate::num::lemma_hex_text_len(METHOD_STRING_V1 as nat, 2);
        }
        let head = encode_header(METHOD_STRING_V1, id.as_str());
        let mut out = chars_of(head.as_str());
        let blocks = seal_pieces(key.as_bytes(), bytes.as_slice(), 2 * STRING_V1_CHUNK, &mut out);
        Ok(string_of(out.as_slice()))
    }

    /// Encrypts a resource blob with the active key and the method FileV1,
    /// in pieces of 98304 bytes (131072 Base64 characters).
    pub fn encrypt_file(&self, data: &[u8]) -> (r: Result<String>)
        requires
            self.active() matches Some(id) ==> vstd::utf8::encode_utf8(id).len() + 2 <= usize::MAX,
        ensures
            match encrypt_outcome(self.entries(), self.active()) {
                None => r matches Err(e) && kind(e) == ErrKind::MasterKeyNotLoaded,
                Some((id, key)) => r matches Ok(s) && sealed_text(
                    METHOD_FILE_V1,
                    id,
                    key,
                    data@,
                    FILE_V1_CHUNK / 4 * 3,
                    s@,
                ),
            },
    {
        let id = match self.active_key() {
            Some(a) => a,
            None => {
                return Err(Error::MasterKeyNotLoaded(message("no active master key", &[])));
            },
        };
        let key = self.key(id.as_str())?;
        proof {
            crate::num::lemma_hex_text_len(METHOD_FILE_V1 as nat, 2);
        }
        let head = encode_header(METHOD_FILE_V1, id.as_str());
        let mut out = chars_of(head.as_str());
        let blocks = seal_pieces(key.as_bytes(), data, FILE_V1_CHUNK / 4 * 3, &mut out);
        Ok(string_of(out.as_slice()))
    }
}

} // verus!
