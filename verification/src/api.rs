//! What the Joplin Server client computes: the paths of its requests and the
//! error a failed request reports, and the shapes of its replies.
use vstd::prelude::*;

use crate::error::Error;

verus! {

pub const LOCK_SYNC: i64 = 1;
pub const LOCK_CLIENT_DESKTOP: i64 = 1;
pub const LOCK_CLIENT_MOBILE: i64 = 2;

/// A login session.
#[derive(Debug, Clone)]
pub struct Session {
    pub id: String,
    pub user_id: String,
}

/// One change of the delta API.
#[derive(Debug, Clone)]
pub struct DeltaItem {
    pub item_name: String,
    /// 1 = create, 2 = update, 3 = delete
    pub change_type: i64,
    pub jop_updated_time: Option<i64>,
}

/// A page of changes, and where the next one starts.
#[derive(Debug, Clone)]
pub struct DeltaPage {
    pub items: Vec<DeltaItem>,
    pub cursor: String,
    pub has_more: bool,
}

/// `s` without the character `c` at either end, repeated.
pub open spec fn trim_char(s: Seq<char>, c: char) -> Seq<char>
    decreases s.len(),
{
    if s.len() > 0 && s[0] == c {
        trim_char(s.drop_first(), c)
    } else if s.len() > 0 && s.last() == c {
        trim_char(s.drop_last(), c)
    } else {
        s
    }
}

/// `s` without trailing `c`.
pub open spec fn trim_end_char(s: Seq<char>, c: char) -> Seq<char>
    decreases s.len(),
{
    if s.len() > 0 && s.last() == c {
        trim_end_char(s.drop_last(), c)
    } else {
        s
    }
}

/// The bounds of `s[lo..hi]` without `c` at either end.
fn trim_char_range(s: &[char], c: char) -> (r: (usize, usize))
    ensures
        r.0 <= r.1 <= s@.len(),
        s@.subrange(r.0 as int, r.1 as int) == trim_char(s@, c),
{
    let mut a: usize = 0;
    let mut b = s.len();
    assert(s@.subrange(0, s@.len() as int) =~= s@);
    while a < b && (s[a] == c || s[b - 1] == c)
        invariant
            a <= b <= s@.len(),
            trim_char(s@, c) == trim_char(s@.subrange(a as int, b as int), c),
        decreases b - a,
    {
        let ghost t = s@.subrange(a as int, b as int);
        if s[a] == c {
            assert(t.drop_first() =~= s@.subrange(a + 1, b as int));
            a = a + 1;
        } else {
            assert(t.drop_last() =~= s@.subrange(a as int, b - 1));
            b = b - 1;
        }
    }
    (a, b)
}

/// The path of a file's item (`api/items/root:/<name>:`), its name without
/// slashes at either end.
pub fn item_path(name: &str) -> (r: String)
    ensures
        r@ == "api/items/root:/"@ + trim_char(name@, '/') + ":"@,
{
    let cs = crate::text::chars_of(name);
    let (a, b) = trim_char_range(cs.as_slice(), '/');
    let mut out = crate::text::chars_of("api/items/root:/");
    crate::text::push_all(&mut out, crate::text::copy_range(cs.as_slice(), a, b).as_slice());
    crate::text::push_all(&mut out, crate::text::chars_of(":").as_slice());
    crate::text::string_of(out.as_slice())
}

/// A server address without trailing slashes.
pub fn base_url(url: &str) -> (r: String)
    ensures
        r@ == trim_end_char(url@, '/'),
{
    let cs = crate::text::chars_of(url);
    let mut n = cs.len();
    assert(cs@.take(n as int) =~= url@);
    while n > 0 && cs[n - 1] == '/'
        invariant
            n <= cs@.len(),
            cs@ == url@,
            trim_end_char(url@, '/') == trim_end_char(cs@.take(n as int), '/'),
        decreases n,
    {
        assert(cs@.take(n as int).drop_last() =~= cs@.take(n - 1));
        n = n - 1;
    }
    let t = crate::text::copy_range(cs.as_slice(), 0, n);
    assert(t@ =~= cs@.take(n as int));
    crate::text::string_of(t.as_slice())
}

/// The path of this client's sync lock (`api/locks/<type>_<client>_<id>`).
pub fn lock_path(client_type: i64, client_id: &str) -> (r: String)
    ensures
        r@ == "api/locks/"@ + crate::num::decimal_text(LOCK_SYNC as int) + "_"@ + crate::num::decimal_text(client_type as int)
            + "_"@ + client_id@,
{
    let mut out = crate::text::chars_of("api/locks/");
    crate::text::push_all(&mut out, crate::num::i64_text(LOCK_SYNC).as_slice());
    crate::text::push_all(&mut out, crate::text::chars_of("_").as_slice());
    crate::text::push_all(&mut out, crate::num::i64_text(client_type).as_slice());
    crate::text::push_all(&mut out, crate::text::chars_of("_").as_slice());
    crate::text::push_all(&mut out, crate::text::chars_of(client_id).as_slice());
    crate::text::string_of(out.as_slice())
}

/// A string member of a JSON object, `None` when missing or not a string.
pub open spec fn member_text(doc: Seq<u8>, key: Seq<char>) -> Option<Seq<char>> {
    match crate::crypto::json_str_member(doc, key) {
        Some(Some(s)) => Some(s),
        _ => None,
    }
}

/// The code and message of a failed request's reply: from its JSON members
/// `code` and `error` (the whole text when `error` is missing), else its
/// first 500 characters.
pub open spec fn reply_error(text: Seq<char>) -> (Option<Seq<char>>, Seq<char>) {
    let doc = vstd::utf8::encode_utf8(text);
    if crate::crypto::is_json(doc) {
        (
            member_text(doc, "code"@),
            match member_text(doc, "error"@) {
                Some(m) => m,
                None => text,
            },
        )
    } else {
        (None, if text.len() <= 500 { text } else { text.take(500) })
    }
}

/// The error of a request that failed with `status` and the reply `text`.
pub fn server_error(status: u16, text: &str) -> (r: Error)
    ensures
        r matches Error::Server { status: s, code, message } && s == status
            && crate::item::opt_view(code) == reply_error(text@).0 && message@ == reply_error(text@).1,
{
    let doc = text.as_bytes();
    if crate::crypto::json_valid(doc) {
        let code = match crate::crypto::json_str(doc, "code") {
            Some(Some(c)) => Some(c),
            _ => None,
        };
        let message = match crate::crypto::json_str(doc, "error") {
            Some(Some(m)) => m,
            _ => text.to_owned(),
        };
        Error::Server { status, code, message }
    } else {
        let cs = crate::text::chars_of(text);
        let n = if cs.len() <= 500 { cs.len() } else { 500 };
        let t = crate::text::copy_range(cs.as_slice(), 0, n);
        assert(t@ =~= (if text@.len() <= 500 { text@ } else { text@.take(500) }));
        Error::Server { status, code: None, message: crate::text::string_of(t.as_slice()) }
    }
}

/// Whether a request is sent again: a first attempt refused with 403 means
/// the session expired, so the client logs in again and retries once.
pub fn retries(status: u16, attempt: u32) -> (r: bool)
    ensures
        r == (status == 403 && attempt == 0),
{
    status == 403 && attempt == 0
}

} // verus!
