//! The cryptographic primitives and encodings the encryption format is built
//! from, each called from its crate: PBKDF2 (`pbkdf2`), SHA-256 (`sha2`),
//! AES-256-GCM (`aes-gcm`), AES-CCM (`ccm`), Base64 (`base64`), JSON members
//! (`serde_json`) and random bytes (`rand`).
use aes::{Aes128, Aes256};
use aes_gcm::aead::{Aead, KeyInit};
use aes_gcm::Aes256Gcm;
use base64::engine::general_purpose::STANDARD as B64;
use base64::Engine;
use ccm::consts::{U12, U13, U8};
use ccm::Ccm;
use rand::RngCore;
use sha2::{Digest, Sha256, Sha512};
use vstd::prelude::*;

verus! {

/// PBKDF2-HMAC-SHA512 with a 32-byte output.
pub uninterp spec fn pbkdf2_sha512_32(password: Seq<u8>, salt: Seq<u8>, rounds: u32) -> Seq<u8>;

/// PBKDF2-HMAC-SHA256 with an output of `len` bytes.
pub uninterp spec fn pbkdf2_sha256_len(password: Seq<u8>, salt: Seq<u8>, rounds: u32, len: nat) -> Seq<u8>;

/// SHA-256 digest.
pub uninterp spec fn sha256_digest(data: Seq<u8>) -> Seq<u8>;

/// AES-256-GCM encryption: cipher text followed by the 16-byte tag.
pub uninterp spec fn gcm_seal(key: Seq<u8>, nonce: Seq<u8>, plain: Seq<u8>) -> Seq<u8>;

/// AES-256-GCM decryption, `None` when authentication fails.
pub uninterp spec fn gcm_open(key: Seq<u8>, nonce: Seq<u8>, cipher: Seq<u8>) -> Option<Seq<u8>>;

/// AES-CCM decryption with an 8-byte tag (AES-128 or AES-256 after the key
/// length), `None` when authentication fails.
pub uninterp spec fn ccm_open(key: Seq<u8>, nonce: Seq<u8>, cipher: Seq<u8>) -> Option<Seq<u8>>;

/// Standard Base64 encoding, with padding.
pub uninterp spec fn b64_text(data: Seq<u8>) -> Seq<char>;

/// Standard Base64 decoding (canonical padding required).
pub uninterp spec fn b64_bytes(text: Seq<char>) -> Option<Seq<u8>>;

/// The member `key` of the JSON object in `doc` as a string, for documents
/// other than cipher frames: `None` when `doc` is not a JSON object or the
/// member is not a string, `Some(None)` when the member is missing.
pub uninterp spec fn json_str_other(doc: Seq<u8>, key: Seq<char>) -> Option<Option<Seq<char>>>;

/// Whether a text stands between the quotes of a JSON string as it is: no
/// quote, backslash or control character.
pub open spec fn json_plain(s: Seq<char>) -> bool {
    forall|i: int| 0 <= i < s.len() ==> #[trigger] s[i] != '"' && s[i] != '\\' && s[i] as u32 >= 0x20
}

/// The JSON text `{"salt":"..","iv":"..","ct":".."}` of a cipher frame.
pub open spec fn gcm_frame(salt: Seq<char>, iv: Seq<char>, ct: Seq<char>) -> Seq<char> {
    "{\"salt\":\""@ + salt + "\",\"iv\":\""@ + iv + "\",\"ct\":\""@ + ct + "\"}"@
}

/// Whether `doc` is the UTF-8 text of the cipher frame of three plain strings.
pub open spec fn frame_doc(doc: Seq<u8>, f: (Seq<char>, Seq<char>, Seq<char>)) -> bool {
    json_plain(f.0) && json_plain(f.1) && json_plain(f.2) && doc == vstd::utf8::encode_utf8(gcm_frame(f.0, f.1, f.2))
}

/// The member `key` of a cipher frame.
pub open spec fn frame_member(f: (Seq<char>, Seq<char>, Seq<char>), key: Seq<char>) -> Option<Option<Seq<char>>> {
    if key == "salt"@ {
        Some(Some(f.0))
    } else if key == "iv"@ {
        Some(Some(f.1))
    } else if key == "ct"@ {
        Some(Some(f.2))
    } else {
        Some(None)
    }
}

/// The member `key` of the JSON object in `doc` as a string: `None` when
/// `doc` is not a JSON object or the member is not a string, `Some(None)`
/// when the member is missing.
pub open spec fn json_str_member(doc: Seq<u8>, key: Seq<char>) -> Option<Option<Seq<char>>> {
    if exists|f: (Seq<char>, Seq<char>, Seq<char>)| #[trigger] frame_doc(doc, f) {
        frame_member(choose|f: (Seq<char>, Seq<char>, Seq<char>)| #[trigger] frame_doc(doc, f), key)
    } else {
        json_str_other(doc, key)
    }
}

/// The member `key` of the JSON object in `doc` as a `u32`, with the same
/// conventions as [`json_str_member`].
pub uninterp spec fn json_u32_member(doc: Seq<u8>, key: Seq<char>) -> Option<Option<u32>>;

/// A character of the standard Base64 alphabet, or the padding `=`.
pub open spec fn is_b64_char(c: char) -> bool {
    ('A' <= c && c <= 'Z') || ('a' <= c && c <= 'z') || ('0' <= c && c <= '9') || c == '+' || c
        == '/' || c == '='
}

/// Whether every character of `t` is of the Base64 alphabet or `=`.
pub open spec fn b64_chars(t: Seq<char>) -> bool {
    forall|i: int| 0 <= i < t.len() ==> is_b64_char(#[trigger] t[i])
}

/// `pbkdf2::pbkdf2_hmac_array::<Sha512, 32>`.
#[verifier::external_body]
pub(crate) fn pbkdf2_sha512(password: &[u8], salt: &[u8], rounds: u32) -> (r: Vec<u8>)
    ensures
        r@ == pbkdf2_sha512_32(password@, salt@, rounds),
        r@.len() == 32,
{
    pbkdf2::pbkdf2_hmac_array::<Sha512, 32>(password, salt, rounds).to_vec()
}

/// `pbkdf2::pbkdf2_hmac::<Sha256>` into a buffer of `len` bytes.
#[verifier::external_body]
pub(crate) fn pbkdf2_sha256(password: &[u8], salt: &[u8], rounds: u32, len: usize) -> (r: Vec<u8>)
    ensures
        r@ == pbkdf2_sha256_len(password@, salt@, rounds, len as nat),
        r@.len() == len,
{
    let mut key = vec![0u8; len];
    pbkdf2::pbkdf2_hmac::<Sha256>(password, salt, rounds, &mut key);
    key
}

/// `Sha256::digest`.
#[verifier::external_body]
pub(crate) fn sha256(data: &[u8]) -> (r: Vec<u8>)
    ensures
        r@ == sha256_digest(data@),
        r@.len() == 32,
{
    Sha256::digest(data).to_vec()
}

/// `n` bytes from the thread-local random generator (`RngCore::fill_bytes`).
#[verifier::external_body]
pub(crate) fn random_bytes(n: usize) -> (r: Vec<u8>)
    ensures
        r@.len() == n,
{
    let mut b = vec![0u8; n];
    rand::rng().fill_bytes(&mut b);
    b
}

/// `Aes256Gcm::encrypt`. It fails only above 2^36 bytes of plain text; what
/// it returns decrypts, under the same key and nonce, to the plain text.
#[verifier::external_body]
pub(crate) fn aes256gcm_encrypt(key: &[u8], nonce: &[u8], plain: &[u8]) -> (r: Option<Vec<u8>>)
    requires
        key@.len() == 32,
        nonce@.len() == 12,
    ensures
        plain@.len() <= 0x10_0000_0000 ==> r is Some,
        r matches Some(c) ==> c@ == gcm_seal(key@, nonce@, plain@) && c@.len() == plain@.len() + 16
            && gcm_open(key@, nonce@, c@) == Some(plain@),
{
    let cipher = Aes256Gcm::new(aes_gcm::Key::<Aes256Gcm>::from_slice(key));
    cipher.encrypt(aes_gcm::Nonce::from_slice(nonce), plain).ok()
}

/// `Aes256Gcm::decrypt`.
#[verifier::external_body]
pub(crate) fn aes256gcm_decrypt(key: &[u8], nonce: &[u8], cipher: &[u8]) -> (r: Option<Vec<u8>>)
    requires
        key@.len() == 32,
        nonce@.len() == 12,
    ensures
        match gcm_open(key@, nonce@, cipher@) {
            Some(p) => r is Some && r->Some_0@ == p,
            None => r is None,
        },
{
    let c = Aes256Gcm::new(aes_gcm::Key::<Aes256Gcm>::from_slice(key));
    c.decrypt(aes_gcm::Nonce::from_slice(nonce), cipher).ok()
}

/// `Ccm::<Aes128, U8, U13>::decrypt`.
#[verifier::external_body]
pub(crate) fn ccm128_13_decrypt(key: &[u8], nonce: &[u8], cipher: &[u8]) -> (r: Option<Vec<u8>>)
    requires
        key@.len() == 16,
        nonce@.len() == 13,
    ensures
        match ccm_open(key@, nonce@, cipher@) {
            Some(p) => r is Some && r->Some_0@ == p,
            None => r is None,
        },
{
    let c = Ccm::<Aes128, U8, U13>::new_from_slice(key).ok()?;
    c.decrypt(ccm::Nonce::<U13>::from_slice(nonce), cipher).ok()
}

/// `Ccm::<Aes128, U8, U12>::decrypt`.
#[verifier::external_body]
pub(crate) fn ccm128_12_decrypt(key: &[u8], nonce: &[u8], cipher: &[u8]) -> (r: Option<Vec<u8>>)
    requires
        key@.len() == 16,
        nonce@.len() == 12,
    ensures
        match ccm_open(key@, nonce@, cipher@) {
            Some(p) => r is Some && r->Some_0@ == p,
            None => r is None,
        },
{
    let c = Ccm::<Aes128, U8, U12>::new_from_slice(key).ok()?;
    c.decrypt(ccm::Nonce::<U12>::from_slice(nonce), cipher).ok()
}

/// `Ccm::<Aes256, U8, U13>::decrypt`.
#[verifier::external_body]
pub(crate) fn ccm256_13_decrypt(key: &[u8], nonce: &[u8], cipher: &[u8]) -> (r: Option<Vec<u8>>)
    requires
        key@.len() == 32,
        nonce@.len() == 13,
    ensures
        match ccm_open(key@, nonce@, cipher@) {
            Some(p) => r is Some && r->Some_0@ == p,
            None => r is None,
        },
{
    let c = Ccm::<Aes256, U8, U13>::new_from_slice(key).ok()?;
    c.decrypt(ccm::Nonce::<U13>::from_slice(nonce), cipher).ok()
}

/// `Ccm::<Aes256, U8, U12>::decrypt`.
#[verifier::external_body]
pub(crate) fn ccm256_12_decrypt(key: &[u8], nonce: &[u8], cipher: &[u8]) -> (r: Option<Vec<u8>>)
    requires
        key@.len() == 32,
        nonce@.len() == 12,
    ensures
        match ccm_open(key@, nonce@, cipher@) {
            Some(p) => r is Some && r->Some_0@ == p,
            None => r is None,
        },
{
    let c = Ccm::<Aes256, U8, U12>::new_from_slice(key).ok()?;
    c.decrypt(ccm::Nonce::<U12>::from_slice(nonce), cipher).ok()
}

/// `STANDARD.encode`: Base64 characters only, four for every three bytes
/// (the last group padded), and decoding gives the bytes back.
#[verifier::external_body]
pub(crate) fn b64_encode(data: &[u8]) -> (r: String)
    ensures
        r@ == b64_text(data@),
        b64_bytes(r@) == Some(data@),
        r@.len() == (data@.len() + 2) / 3 * 4,
        b64_chars(r@),
{
    B64.encode(data)
}

/// `STANDARD.decode`.
#[verifier::external_body]
pub(crate) fn b64_decode(text: &str) -> (r: Option<Vec<u8>>)
    ensures
        match b64_bytes(text@) {
            Some(b) => r is Some && r->Some_0@ == b,
            None => r is None,
        },
{
    B64.decode(text).ok()
}

/// A string member of a JSON object (`serde_json::from_slice::<Value>`, then
/// `as_object`, `get` and `as_str`). Claimed beyond the name: a cipher frame
/// `{"salt":"…","iv":"…","ct":"…"}` of plain strings (nothing JSON would
/// escape) is read as those three members, as JSON defines it.
#[verifier::external_body]
pub(crate) fn json_str(doc: &[u8], key: &str) -> (r: Option<Option<String>>)
    ensures
        (exists|f: (Seq<char>, Seq<char>, Seq<char>)| #[trigger] frame_doc(doc@, f)) ==> match json_str_member(
            doc@,
            key@,
        ) {
            Some(Some(s)) => r matches Some(Some(t)) && t@ == s,
            Some(None) => r matches Some(None),
            None => r is None,
        },
        !(exists|f: (Seq<char>, Seq<char>, Seq<char>)| #[trigger] frame_doc(doc@, f)) ==> match json_str_other(
            doc@,
            key@,
        ) {
            Some(Some(s)) => r matches Some(Some(t)) && t@ == s,
            Some(None) => r matches Some(None),
            None => r is None,
        },
{
    let v: serde_json::Value = serde_json::from_slice(doc).ok()?;
    let obj = v.as_object()?;
    match obj.get(key) {
        None => Some(None),
        Some(m) => Some(Some(m.as_str()?.to_string())),
    }
}

/// A `u32` member of a JSON object (`serde_json::Value::get` then `as_u64`).
#[verifier::external_body]
pub(crate) fn json_u32(doc: &[u8], key: &str) -> (r: Option<Option<u32>>)
    ensures
        r == json_u32_member(doc@, key@),
{
    let v: serde_json::Value = serde_json::from_slice(doc).ok()?;
    let obj = v.as_object()?;
    match obj.get(key) {
        None => Some(None),
        Some(m) => Some(Some(u32::try_from(m.as_u64()?).ok()?)),
    }
}

/// `String::from_utf8_lossy`: exact decoding for valid UTF-8.
#[verifier::external_body]
pub(crate) fn utf8_lossy(bytes: &[u8]) -> (r: String)
    ensures
        vstd::utf8::valid_utf8(bytes@) ==> r@ == vstd::utf8::decode_utf8(bytes@),
{
    String::from_utf8_lossy(bytes).into_owned()
}

/// `String::from_utf8`.
#[verifier::external_body]
pub(crate) fn utf8_decode(bytes: &[u8]) -> (r: Option<String>)
    ensures
        r is Some <==> vstd::utf8::valid_utf8(bytes@),
        r matches Some(s) ==> s@ == vstd::utf8::decode_utf8(bytes@),
{
    String::from_utf8(bytes.to_vec()).ok()
}

/// Whether a text is a JSON document (`serde_json::from_slice::<Value>`
/// succeeds).
pub uninterp spec fn is_json(doc: Seq<u8>) -> bool;

/// Whether `doc` parses as JSON.
#[verifier::external_body]
pub(crate) fn json_valid(doc: &[u8]) -> (r: bool)
    ensures
        r == is_json(doc@),
{
    serde_json::from_slice::<serde_json::Value>(doc).is_ok()
}

/// The number of elements of `doc` when it is a JSON array.
pub uninterp spec fn json_array_length(doc: Seq<u8>) -> Option<usize>;

/// Element `i` of the JSON array in `doc` as a string: `None` when `doc` is
/// not a JSON array, has no element `i`, or that element is not a string.
pub uninterp spec fn json_str_element(doc: Seq<u8>, i: usize) -> Option<Seq<char>>;

/// Element `i` of the JSON array in `doc` as a `u32`, with the same
/// conventions as [`json_str_element`].
pub uninterp spec fn json_u32_element(doc: Seq<u8>, i: usize) -> Option<u32>;

/// The length of a JSON array (`serde_json::from_slice::<Value>`, then
/// `as_array` and `len`).
#[verifier::external_body]
pub(crate) fn json_array_len(doc: &[u8]) -> (r: Option<usize>)
    ensures
        r == json_array_length(doc@),
{
    let v: serde_json::Value = serde_json::from_slice(doc).ok()?;
    Some(v.as_array()?.len())
}

/// A string element of a JSON array (`as_array`, `get` and `as_str`).
#[verifier::external_body]
pub(crate) fn json_str_at(doc: &[u8], i: usize) -> (r: Option<String>)
    ensures
        match json_str_element(doc@, i) {
            Some(s) => r matches Some(t) && t@ == s,
            None => r is None,
        },
{
    let v: serde_json::Value = serde_json::from_slice(doc).ok()?;
    Some(v.as_array()?.get(i)?.as_str()?.to_string())
}

/// A `u32` element of a JSON array (`as_array`, `get`, `as_u64`, then
/// `u32::try_from`).
#[verifier::external_body]
pub(crate) fn json_u32_at(doc: &[u8], i: usize) -> (r: Option<u32>)
    ensures
        r == json_u32_element(doc@, i),
{
    let v: serde_json::Value = serde_json::from_slice(doc).ok()?;
    u32::try_from(v.as_array()?.get(i)?.as_u64()?).ok()
}

} // verus!
