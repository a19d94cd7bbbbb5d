//! Joplin items in their generic form, read from and written to the
//! `<id>.md` text that the sync target stores for each item:
//!
//! ```text
//! Title
//!
//! Body (notes only, may span many lines)
//!
//! id: 0123456789abcdef0123456789abcdef
//! parent_id: ...
//! type_: 1
//! ```
//!
//! Unknown properties are kept, in their order, so that items written by
//! newer Joplin clients survive being read and written again.
pub use crate::props::Props;
use vstd::prelude::*;

use crate::error::{message, Error, Result};
use crate::num::{decimal_text, digit_value, i64_text, parse_i64, parse_i64_spec};
use crate::props::{
    insert_all, insert_entry, key_index, lookup, props_clone, props_contains, props_get,
    props_insert, props_len, props_new, props_pairs,
};
use crate::stamp::{in_four_digit_years, rfc3339_millis, rfc3339_to_millis, utc_millis_text, utc_text};
pub use crate::stamp::{new_id, now_ms};
use crate::text::{
    chars_of, copy_range, find_char, index_of, join, join_chars, push_all, replace_all, replace_chars,
    split_chars, split_on, string_of, trim, trim_range, views, eq_chars, starts_with, join_range,
};

verus! {

pub const TYPE_NOTE: i64 = 1;
pub const TYPE_FOLDER: i64 = 2;
pub const TYPE_RESOURCE: i64 = 4;
pub const TYPE_TAG: i64 = 5;
pub const TYPE_NOTE_TAG: i64 = 6;
pub const TYPE_MASTER_KEY: i64 = 9;
pub const TYPE_REVISION: i64 = 13;

/// A Joplin item. `props` holds every `key: value` line (unescaped), in order,
/// `type_` included.
#[derive(Debug)]
pub struct RawItem {
    pub title: Option<String>,
    pub body: Option<String>,
    pub props: Props,
}

/// The mathematical content of an item.
pub struct ItemView {
    pub title: Option<Seq<char>>,
    pub body: Option<Seq<char>>,
    pub props: Seq<(Seq<char>, Seq<char>)>,
}

pub open spec fn opt_view(o: Option<String>) -> Option<Seq<char>> {
    match o {
        Some(s) => Some(s@),
        None => None,
    }
}

impl View for RawItem {
    type V = ItemView;

    open spec fn view(&self) -> ItemView {
        ItemView { title: opt_view(self.title), body: opt_view(self.body), props: self.props.entries() }
    }
}

impl Clone for RawItem {
    fn clone(&self) -> (r: Self)
        ensures
            r@ == self@,
    {
        RawItem { title: self.title.clone(), body: self.body.clone(), props: props_clone(&self.props) }
    }
}

impl Default for RawItem {
    fn default() -> (r: Self)
        ensures
            r@ == (ItemView { title: None, body: None, props: Seq::empty() }),
    {
        RawItem { title: None, body: None, props: props_new() }
    }
}

// ---------------------------------------------------------------------------
// Escaping of property values
// ---------------------------------------------------------------------------

/// Escaping of a property value: a literal `\n` or `\r` gets a second
/// backslash, then line breaks become `\n` and `\r`.
pub open spec fn escape_spec(v: Seq<char>) -> Seq<char> {
    replace_all(
        replace_all(
            replace_all(replace_all(v, seq!['\\', 'n'], seq!['\\', '\\', 'n']), seq!['\\', 'r'], seq!['\\', '\\', 'r']),
            seq!['\n'],
            seq!['\\', 'n'],
        ),
        seq!['\r'],
        seq!['\\', 'r'],
    )
}

/// Unescaping of a property value, in Joplin's replacement order.
pub open spec fn unescape_spec(v: Seq<char>) -> Seq<char> {
    replace_all(
        replace_all(
            replace_all(replace_all(v, seq!['\\', 'n'], seq!['\n']), seq!['\\', 'r'], seq!['\r']),
            seq!['\\', '\n'],
            seq!['\\', 'n'],
        ),
        seq!['\\', '\r'],
        seq!['\\', 'r'],
    )
}

/// Two characters as a vector.
fn pair(a: char, b: char) -> (r: Vec<char>)
    ensures
        r@ == seq![a, b],
{
    let mut r = Vec::new();
    r.push(a);
    r.push(b);
    assert(r@ =~= seq![a, b]);
    r
}

/// One character as a vector.
fn single(a: char) -> (r: Vec<char>)
    ensures
        r@ == seq![a],
{
    let mut r = Vec::new();
    r.push(a);
    assert(r@ =~= seq![a]);
    r
}

/// Three characters as a vector.
fn triple(a: char, b: char, c: char) -> (r: Vec<char>)
    ensures
        r@ == seq![a, b, c],
{
    let mut r = Vec::new();
    r.push(a);
    r.push(b);
    r.push(c);
    assert(r@ =~= seq![a, b, c]);
    r
}

fn escape_prop(v: &[char]) -> (r: Vec<char>)
    ensures
        r@ == escape_spec(v@),
{
    let a = replace_chars(v, pair('\\', 'n').as_slice(), triple('\\', '\\', 'n').as_slice());
    let b = replace_chars(a.as_slice(), pair('\\', 'r').as_slice(), triple('\\', '\\', 'r').as_slice());
    let c = replace_chars(b.as_slice(), single('\n').as_slice(), pair('\\', 'n').as_slice());
    replace_chars(c.as_slice(), single('\r').as_slice(), pair('\\', 'r').as_slice())
}

fn unescape_prop(v: &[char]) -> (r: Vec<char>)
    ensures
        r@ == unescape_spec(v@),
{
    let a = replace_chars(v, pair('\\', 'n').as_slice(), single('\n').as_slice());
    let b = replace_chars(a.as_slice(), pair('\\', 'r').as_slice(), single('\r').as_slice());
    let c = replace_chars(b.as_slice(), pair('\\', '\n').as_slice(), pair('\\', 'n').as_slice());
    replace_chars(c.as_slice(), pair('\\', '\r').as_slice(), pair('\\', 'r').as_slice())
}


// ---------------------------------------------------------------------------
// Reading an item
// ---------------------------------------------------------------------------

/// A line with nothing but white space.
pub open spec fn is_blank(l: Seq<char>) -> bool {
    trim(l).len() == 0
}

/// Index of the last blank line, -1 if there is none.
pub open spec fn last_blank(lines: Seq<Seq<char>>) -> int
    decreases lines.len(),
{
    if lines.len() == 0 {
        -1
    } else if is_blank(lines.last()) {
        lines.len() - 1
    } else {
        last_blank(lines.drop_last())
    }
}

/// Properties whose value is stored without unescaping.
pub open spec fn keeps_raw(k: Seq<char>) -> bool {
    k == "body"@ || (k.len() > 0 && k.last() == '_')
}

/// Whether a property line has the `:` that separates key and value.
pub open spec fn has_colon(l: Seq<char>) -> bool {
    index_of(trim(l), ':') is Some
}

/// The `(key, value)` of a property line `key: value`.
pub open spec fn prop_of_line(l: Seq<char>) -> (Seq<char>, Seq<char>) {
    let t = trim(l);
    let p = index_of(t, ':').unwrap();
    let k = trim(t.take(p));
    let raw = trim(t.skip(p + 1));
    (
        k,
        if keeps_raw(k) {
            raw
        } else {
            unescape_spec(raw)
        },
    )
}

/// A Joplin item id: 32 hexadecimal digits.
pub open spec fn is_item_id(id: Seq<char>) -> bool {
    id.len() == 32 && forall|i: int| 0 <= i < 32 ==> (#[trigger] digit_value(id[i], 16)) is Some
}

/// The item that `content` holds, if it is a valid item text: every property
/// line has a `:`, `type_` is an integer, and `id`, when present and not
/// empty, is an item id. The first line is the title, the body starts on the
/// third line (notes only) and runs up to the blank line before the
/// properties.
pub open spec fn parse_spec(content: Seq<char>) -> Option<ItemView> {
    let lines = split_on(content, '\n');
    let k = last_blank(lines);
    let pl = lines.skip(k + 1);
    if !(forall|i: int| 0 <= i < pl.len() ==> has_colon(#[trigger] pl[i])) {
        None
    } else {
        let props = insert_all(pl.map_values(|l: Seq<char>| prop_of_line(l)));
        let ty = match lookup(props, "type_"@) {
            Some(t) => parse_i64_spec(t),
            None => None,
        };
        match ty {
            None => None,
            Some(ty) => {
                if (match lookup(props, "id"@) {
                    Some(id) => id.len() > 0 && !is_item_id(id),
                    None => false,
                }) {
                    None
                } else {
                    let bl = if k > 0 {
                        lines.take(k)
                    } else {
                        Seq::empty()
                    };
                    let note = ty == 1;
                    Some(
                        ItemView {
                            title: if bl.len() > 0 {
                                Some(bl[0])
                            } else {
                                None
                            },
                            body: if bl.len() > 0 {
                                if note {
                                    Some(
                                        join(
                                            if bl.len() > 2 {
                                                bl.skip(2)
                                            } else {
                                                Seq::empty()
                                            },
                                            seq!['\n'],
                                        ),
                                    )
                                } else {
                                    None
                                }
                            } else if note && key_index(props, "encryption_cipher_text"@) is None {
                                Some(Seq::empty())
                            } else {
                                None
                            },
                            props,
                        },
                    )
                }
            },
        }
    }
}

/// One more than the index of the last blank line (0 when there is none).
fn after_last_blank(lines: &Vec<Vec<char>>) -> (k1: usize)
    ensures
        k1 as int == last_blank(views(lines@)) + 1,
        k1 <= lines@.len(),
{
    let ghost lv = views(lines@);
    let mut i = lines.len();
    assert(lv.take(i as int) =~= lv);
    while i > 0
        invariant
            i <= lines@.len(),
            lv == views(lines@),
            last_blank(lv) == last_blank(lv.take(i as int)),
        decreases i,
    {
        let line = &lines[i - 1];
        let (a, b) = trim_range(line.as_slice(), 0, line.len());
        proof {
            assert(line@.subrange(0, line@.len() as int) =~= line@);
            assert(lv.take(i as int).last() == line@);
            assert(lv.take(i as int).drop_last() =~= lv.take(i - 1));
        }
        if a == b {
            return i;
        }
        i = i - 1;
    }
    i
}

/// Key and value of a property line, `None` when it has no `:`.
fn line_prop(line: &[char]) -> (r: Option<(Vec<char>, Vec<char>)>)
    ensures
        r is None <==> !has_colon(line@),
        r matches Some(kv) ==> (kv.0@, kv.1@) == prop_of_line(line@),
{
    let (a, b) = trim_range(line, 0, line.len());
    proof {
        assert(line@.subrange(0, line@.len() as int) =~= line@);
    }
    let ghost t = trim(line@);
    match find_char(line, a, b, ':') {
        None => {
            proof {
                crate::text::lemma_index_of_none(t, ':');
            }
            None
        },
        Some(p) => {
            proof {
                crate::text::lemma_index_of_found(t, ':', p - a);
                assert(t.take(p - a) =~= line@.subrange(a as int, p as int));
                assert(t.skip(p - a + 1) =~= line@.subrange(p + 1, b as int));
            }
            let (ka, kb) = trim_range(line, a, p);
            let (va, vb) = trim_range(line, p + 1, b);
            let key = copy_range(line, ka, kb);
            let raw = copy_range(line, va, vb);
            let body_key = chars_of("body");
            let keep = eq_chars(key.as_slice(), body_key.as_slice()) || (key.len() > 0 && key[key.len() - 1] == '_');
            if keep {
                Some((key, raw))
            } else {
                let v = unescape_prop(raw.as_slice());
                Some((key, v))
            }
        },
    }
}

/// Whether `id` is an item id.
fn check_item_id(id: &[char]) -> (r: bool)
    ensures
        r == is_item_id(id@),
{
    if id.len() != 32 {
        return false;
    }
    let mut i: usize = 0;
    while i < 32
        invariant
            id@.len() == 32,
            i <= 32,
            forall|j: int| 0 <= j < i ==> (#[trigger] digit_value(id@[j], 16)) is Some,
        decreases 32 - i,
    {
        let u = id[i] as u32;
        if !((0x30 <= u && u <= 0x39) || (0x61 <= u && u <= 0x66) || (0x41 <= u && u <= 0x46)) {
            assert(digit_value(id@[i as int], 16) is None);
            return false;
        }
        i = i + 1;
    }
    true
}

impl RawItem {
    /// Reads the text of a `<id>.md` sync file.
    pub fn parse(content: &str) -> (r: Result<RawItem>)
        ensures
            match parse_spec(content@) {
                Some(v) => r is Ok && r->Ok_0@ == v,
                None => r matches Err(Error::Format(_)),
            },
    {
        let cs = chars_of(content);
        let lines = split_chars(cs.as_slice(), '\n');
        let ghost lv = views(lines@);
        assert(lv =~= split_on(content@, '\n'));
        let k1 = after_last_blank(&lines);
        let n = lines.len();
        let ghost pl = lv.skip(k1 as int);
        let ghost pairs = pl.map_values(|l: Seq<char>| prop_of_line(l));
        let mut props = props_new();
        let mut j = k1;
        assert(pairs.take(0) =~= Seq::<(Seq<char>, Seq<char>)>::empty());
        while j < n
            invariant
                k1 <= j <= n,
                n == lines@.len(),
                lv == views(lines@),
                lv == split_on(content@, '\n'),
                k1 as int == last_blank(lv) + 1,
                pl == lv.skip(k1 as int),
                pairs == pl.map_values(|l: Seq<char>| prop_of_line(l)),
                forall|i: int| 0 <= i < j - k1 ==> has_colon(#[trigger] pl[i]),
                props.entries() == insert_all(pairs.take(j - k1)),
            decreases n - j,
        {
            assert(pl[j - k1] == lines@[j as int]@);
            match line_prop(lines[j].as_slice()) {
                None => {
                    proof {
                        let lines_s = split_on(content@, '\n');
                        assert(lines_s == lv);
                        assert(last_blank(lines_s) + 1 == k1);
                        assert(lines_s.skip(last_blank(lines_s) + 1) == pl);
                        assert(!has_colon(pl[j - k1]));
                        assert(!(forall|i: int| 0 <= i < pl.len() ==> has_colon(#[trigger] pl[i])));
                        assert(parse_spec(content@) is None);
                    }
                    let msg = message("invalid property line: ", lines[j].as_slice());
                    return Err(Error::Format(msg));
                },
                Some(kv) => {
                    let (key, value) = kv;
                    let ghost before = props.entries();
                    props_insert(&mut props, string_of(key.as_slice()), string_of(value.as_slice()));
                    proof {
                        assert(pairs.take(j - k1 + 1).drop_last() =~= pairs.take(j - k1));
                        assert(pairs.take(j - k1 + 1).last() == pairs[j - k1]);
                    }
                },
            }
            j = j + 1;
        }
        assert(pairs.take(n - k1) =~= pairs);
        let ghost es = props.entries();
        assert(es == insert_all(pairs));
        let ty: i64 = match props_get(&props, "type_") {
            Some(t) => {
                let tc = chars_of(t.as_str());
                match parse_i64(tc.as_slice()) {
                    Some(v) => v,
                    None => {
                        return Err(Error::Format(message("missing type_", &[])));
                    },
                }
            },
            None => {
                return Err(Error::Format(message("missing type_", &[])));
            },
        };
        match props_get(&props, "id") {
            Some(id) => {
                let ic = chars_of(id.as_str());
                if ic.len() > 0 && !check_item_id(ic.as_slice()) {
                    return Err(Error::Format(message("invalid item id: ", ic.as_slice())));
                }
            },
            None => {},
        }
        let mut title: Option<String> = None;
        let mut body: Option<String> = None;
        if k1 >= 2 {
            let k = k1 - 1;
            title = Some(string_of(lines[0].as_slice()));
            if ty == TYPE_NOTE {
                if k > 2 {
                    let b = join_range(lines.as_slice(), 2, k, single('\n').as_slice());
                    proof {
                        assert(lv.take(k as int).skip(2) =~= views(lines@.subrange(2, k as int)));
                    }
                    body = Some(string_of(b.as_slice()));
                } else {
                    let e: Vec<char> = Vec::new();
                    proof {
                        assert(join(Seq::<Seq<char>>::empty(), seq!['\n']) =~= e@);
                    }
                    body = Some(string_of(e.as_slice()));
                }
            }
        } else if ty == TYPE_NOTE && !props_contains(&props, "encryption_cipher_text") {
            let e: Vec<char> = Vec::new();
            body = Some(string_of(e.as_slice()));
        }
        let r = RawItem { title, body, props };
        proof {
            if k1 >= 2 {
                assert(lv.take(k1 - 1)[0] == lv[0]);
            }
        }
        Ok(r)
    }
}

// ---------------------------------------------------------------------------
// Writing an item
// ---------------------------------------------------------------------------

/// The text of a property line.
pub open spec fn prop_line(e: (Seq<char>, Seq<char>)) -> Seq<char> {
    e.0 + seq![':', ' '] + escape_spec(e.1)
}

/// The text of an item: title, body (when not empty) and property lines,
/// separated by a blank line.
pub open spec fn serialize_spec(v: ItemView) -> Seq<char> {
    let p1 = match v.title {
        Some(t) => seq![t],
        None => Seq::empty(),
    };
    let p2 = match v.body {
        Some(b) => if b.len() > 0 {
            seq![b]
        } else {
            Seq::empty()
        },
        None => Seq::empty(),
    };
    let p3 = if v.props.len() > 0 {
        seq![join(v.props.map_values(|e: (Seq<char>, Seq<char>)| prop_line(e)), seq!['\n'])]
    } else {
        Seq::empty()
    };
    join(p1 + p2 + p3, seq!['\n', '\n'])
}

// ---------------------------------------------------------------------------
// Property access
// ---------------------------------------------------------------------------

/// The value of property `k`, empty when absent.
pub open spec fn prop_value(es: Seq<(Seq<char>, Seq<char>)>, k: Seq<char>) -> Seq<char> {
    match lookup(es, k) {
        Some(v) => v,
        None => Seq::empty(),
    }
}

/// An integer property: its value, 0 when it is not an `i64` numeral.
pub open spec fn int_or_zero(s: Seq<char>) -> int {
    match parse_i64_spec(s) {
        Some(v) => v,
        None => 0,
    }
}

/// A timestamp property in milliseconds: 0 when empty or not RFC 3339.
pub open spec fn time_value(s: Seq<char>) -> int {
    if s.len() == 0 {
        0
    } else {
        match rfc3339_millis(s) {
            Some(v) => v as int,
            None => 0,
        }
    }
}

/// The text of a timestamp property: empty for 0, RFC 3339 in UTC otherwise.
pub open spec fn time_text(ms: i64) -> Seq<char> {
    if ms == 0 {
        Seq::empty()
    } else {
        utc_millis_text(ms)
    }
}

/// Whether an item is an encrypted envelope.
pub open spec fn is_encrypted_spec(es: Seq<(Seq<char>, Seq<char>)>) -> bool {
    prop_value(es, "encryption_applied"@) == "1"@ && "JED"@.len() <= prop_value(
        es,
        "encryption_cipher_text"@,
    ).len() && prop_value(es, "encryption_cipher_text"@).take("JED"@.len() as int) == "JED"@
}

/// Formats a timestamp property (`""` for 0).
pub fn format_time(ms: i64) -> (r: String)
    ensures
        r@ == time_text(ms),
        in_four_digit_years(ms) ==> time_value(r@) == ms,
{
    if ms == 0 {
        let e: Vec<char> = Vec::new();
        return string_of(e.as_slice());
    }
    let r = utc_text(ms);
    r
}

/// Reads a timestamp property (0 when empty or invalid).
pub fn parse_time(s: &str) -> (r: i64)
    ensures
        r == time_value(s@),
{
    let c = chars_of(s);
    if c.len() == 0 {
        return 0;
    }
    match rfc3339_to_millis(s) {
        Some(v) => v,
        None => 0,
    }
}

impl RawItem {
    /// The value of a property, `""` when absent.
    pub fn get(&self, key: &str) -> (r: &str)
        ensures
            r@ == prop_value(self@.props, key@),
    {
        match props_get(&self.props, key) {
            Some(v) => v.as_str(),
            None => {
                proof {
                    reveal_strlit("");
                }
                ""
            },
        }
    }

    /// Sets a property, keeping its place when it exists, last otherwise.
    pub fn set(&mut self, key: &str, value: &str)
        ensures
            final(self)@ == (ItemView { props: insert_entry(old(self)@.props, key@, value@), ..old(self)@ }),
    {
        props_insert(&mut self.props, key.to_owned(), value.to_owned());
    }

    pub fn id(&self) -> (r: &str)
        ensures
            r@ == prop_value(self@.props, "id"@),
    {
        self.get("id")
    }

    /// The `type_` property as a number (0 when not a number).
    pub fn item_type(&self) -> (r: i64)
        ensures
            r == int_or_zero(prop_value(self@.props, "type_"@)),
    {
        self.integer("type_")
    }

    /// An integer property (0 when not a number).
    pub fn integer(&self, key: &str) -> (r: i64)
        ensures
            r == int_or_zero(prop_value(self@.props, key@)),
    {
        let c = chars_of(self.get(key));
        match parse_i64(c.as_slice()) {
            Some(v) => v,
            None => 0,
        }
    }

    /// A timestamp property as milliseconds since the Unix epoch.
    pub fn time(&self, key: &str) -> (r: i64)
        ensures
            r == time_value(prop_value(self@.props, key@)),
    {
        parse_time(self.get(key))
    }

    /// Sets a timestamp property; reading it back gives `ms` again.
    pub fn set_time(&mut self, key: &str, ms: i64)
        ensures
            final(self)@ == (ItemView {
                props: insert_entry(old(self)@.props, key@, time_text(ms)),
                ..old(self)@
            }),
            in_four_digit_years(ms) ==> time_value(prop_value(final(self)@.props, key@)) == ms,
    {
        let t = format_time(ms);
        self.set(key, t.as_str());
        proof {
            crate::props::lemma_lookup_insert(old(self)@.props, key@, t@, key@);
        }
    }

    /// Encrypted envelope: `encryption_applied` is "1" and the cipher text
    /// starts with `JED`.
    pub fn is_encrypted(&self) -> (r: bool)
        ensures
            r == is_encrypted_spec(self@.props),
    {
        let applied = chars_of(self.get("encryption_applied"));
        let one = chars_of("1");
        let ct = chars_of(self.get("encryption_cipher_text"));
        let jed = chars_of("JED");
        eq_chars(applied.as_slice(), one.as_slice()) && starts_with(ct.as_slice(), jed.as_slice())
    }

    /// The item's text, as Joplin writes it.
    pub fn serialize(&self) -> (r: String)
        ensures
            r@ == serialize_spec(self@),
            crate::props::unique_keys(self@.props),
            crate::readback::carried(self@) ==> parse_spec(r@) == Some(self@),
    {
        let mut parts: Vec<Vec<char>> = Vec::new();
        let ghost v = self@;
        match &self.title {
            Some(t) => {
                parts.push(chars_of(t.as_str()));
            },
            None => {},
        }
        match &self.body {
            Some(b) => {
                let bc = chars_of(b.as_str());
                if bc.len() > 0 {
                    parts.push(bc);
                }
            },
            None => {},
        }
        let ghost before = views(parts@);
        let pairs = props_pairs(&self.props);
        let ghost lines_spec = v.props.map_values(|e: (Seq<char>, Seq<char>)| prop_line(e));
        if pairs.len() > 0 {
            let mut lines: Vec<Vec<char>> = Vec::new();
            let mut i: usize = 0;
            while i < pairs.len()
                invariant
                    i <= pairs@.len(),
                    pairs@.len() == v.props.len(),
                    forall|j: int|
                        0 <= j < pairs@.len() ==> (#[trigger] pairs@[j]).0@ == v.props[j].0 && pairs@[j].1@ == v.props[j].1,
                    lines_spec == v.props.map_values(|e: (Seq<char>, Seq<char>)| prop_line(e)),
                    views(lines@) == lines_spec.take(i as int),
                decreases pairs@.len() - i,
            {
                let mut line = chars_of(pairs[i].0.as_str());
                push_all(&mut line, pair(':', ' ').as_slice());
                let vc = chars_of(pairs[i].1.as_str());
                let esc = escape_prop(vc.as_slice());
                push_all(&mut line, esc.as_slice());
                proof {
                    let e = v.props[i as int];
                    assert(pairs@[i as int].0@ == e.0 && pairs@[i as int].1@ == e.1);
                    assert(line@ =~= prop_line(e));
                    assert(lines_spec[i as int] == prop_line(e));
                }
                let ghost lv0 = views(lines@);
                let ghost l = line@;
                lines.push(line);
                assert(views(lines@) =~= lv0.push(l));
                assert(lines_spec.take(i + 1) =~= lines_spec.take(i as int).push(lines_spec[i as int]));
                i = i + 1;
            }
            assert(lines_spec.take(pairs@.len() as int) =~= lines_spec);
            let joined = join_chars(lines.as_slice(), single('\n').as_slice());
            parts.push(joined);
        }
        let nn = pair('\n', '\n');
        let out = join_chars(parts.as_slice(), nn.as_slice());
        proof {
            let p1 = match v.title {
                Some(t) => seq![t],
                None => Seq::<Seq<char>>::empty(),
            };
            let p2 = match v.body {
                Some(b) => if b.len() > 0 {
                    seq![b]
                } else {
                    Seq::<Seq<char>>::empty()
                },
                None => Seq::<Seq<char>>::empty(),
            };
            let p3 = if v.props.len() > 0 {
                seq![join(lines_spec, seq!['\n'])]
            } else {
                Seq::<Seq<char>>::empty()
            };
            assert(before =~= p1 + p2);
            assert(views(parts@) =~= p1 + p2 + p3);
            if crate::readback::carried(v) {
                crate::readback::lemma_item_round_trip(v);
            }
        }
        string_of(out.as_slice())
    }
}

/// What a read of property `k` gives right after it was set to `v`.
pub proof fn lemma_get_after_set(es: Seq<(Seq<char>, Seq<char>)>, k: Seq<char>, v: Seq<char>, q: Seq<char>)
    ensures
        prop_value(insert_entry(es, k, v), q) == if q == k {
            v
        } else {
            prop_value(es, q)
        },
{
    crate::props::lemma_lookup_insert(es, k, v, q);
}

// ---------------------------------------------------------------------------
// Envelopes and new items
// ---------------------------------------------------------------------------

/// Field order used by Joplin (SQLite column order) for new notes.
pub const NOTE_FIELDS: [&'static str; 28] = [
    "id",
    "parent_id",
    "created_time",
    "updated_time",
    "is_conflict",
    "latitude",
    "longitude",
    "altitude",
    "author",
    "source_url",
    "is_todo",
    "todo_due",
    "todo_completed",
    "source",
    "source_application",
    "application_data",
    "order",
    "user_created_time",
    "user_updated_time",
    "encryption_cipher_text",
    "encryption_applied",
    "markup_language",
    "is_shared",
    "share_id",
    "conflict_original_id",
    "master_key_id",
    "user_data",
    "deleted_time",
];

/// Field order used by Joplin for new folders.
pub const FOLDER_FIELDS: [&'static str; 14] = [
    "id",
    "created_time",
    "updated_time",
    "user_created_time",
    "user_updated_time",
    "encryption_cipher_text",
    "encryption_applied",
    "parent_id",
    "is_shared",
    "share_id",
    "master_key_id",
    "icon",
    "user_data",
    "deleted_time",
];

/// Field order used by Joplin for new resources (attachments).
pub const RESOURCE_FIELDS: [&'static str; 22] = [
    "id",
    "title",
    "mime",
    "filename",
    "created_time",
    "updated_time",
    "user_created_time",
    "user_updated_time",
    "file_extension",
    "encryption_cipher_text",
    "encryption_applied",
    "encryption_blob_encrypted",
    "size",
    "is_shared",
    "share_id",
    "master_key_id",
    "user_data",
    "blob_updated_time",
    "ocr_text",
    "ocr_details",
    "ocr_status",
    "ocr_error",
];

/// Properties kept in clear text in an encrypted envelope (`type_` is
/// written last, separately).
pub open spec fn is_envelope_key(k: Seq<char>) -> bool {
    k == "id"@ || k == "note_id"@ || k == "tag_id"@ || k == "parent_id"@ || k == "share_id"@ || k
        == "updated_time"@ || k == "deleted_time"@ || k == "is_locked"@ || k
        == "extracted_resource_ids"@
}

/// The entries of `es` whose key is kept in an envelope, in order.
pub open spec fn envelope_kept(es: Seq<(Seq<char>, Seq<char>)>) -> Seq<(Seq<char>, Seq<char>)>
    decreases es.len(),
{
    if es.len() == 0 {
        Seq::empty()
    } else if is_envelope_key(es.last().0) {
        envelope_kept(es.drop_last()).push(es.last())
    } else {
        envelope_kept(es.drop_last())
    }
}

/// The envelope of an item encrypted as `ct`: the kept properties, then the
/// cipher text, `encryption_applied: 1` and the item's type.
pub open spec fn envelope_spec(v: ItemView, ct: Seq<char>) -> ItemView {
    ItemView {
        title: None,
        body: None,
        props: insert_entry(
            insert_entry(
                insert_entry(insert_all(envelope_kept(v.props)), "encryption_cipher_text"@, ct),
                "encryption_applied"@,
                "1"@,
            ),
            "type_"@,
            prop_value(v.props, "type_"@),
        ),
    }
}

/// The value Joplin gives a field of a new item.
pub open spec fn field_default(f: Seq<char>) -> Seq<char> {
    if f == "latitude"@ || f == "longitude"@ {
        "0.00000000"@
    } else if f == "altitude"@ {
        "0.0000"@
    } else if f == "is_conflict"@ || f == "is_todo"@ || f == "todo_due"@ || f == "todo_completed"@
        || f == "order"@ || f == "encryption_applied"@ || f == "is_shared"@ || f == "deleted_time"@ {
        "0"@
    } else if f == "markup_language"@ {
        "1"@
    } else {
        Seq::empty()
    }
}

/// A new item of type `ty` with the given fields at their defaults.
pub open spec fn new_item_spec(ty: i64, fields: Seq<Seq<char>>) -> ItemView {
    ItemView {
        title: Some(Seq::empty()),
        body: None,
        props: insert_entry(
            insert_all(fields.map_values(|f: Seq<char>| (f, field_default(f)))),
            "type_"@,
            decimal_text(ty as int),
        ),
    }
}

pub open spec fn str_views(v: Seq<&str>) -> Seq<Seq<char>> {
    v.map_values(|s: &str| s@)
}

/// Whether `a` equals the text of `b`.
fn is(a: &[char], b: &str) -> (r: bool)
    ensures
        r == (a@ == b@),
{
    let bc = chars_of(b);
    eq_chars(a, bc.as_slice())
}

fn envelope_key(k: &[char]) -> (r: bool)
    ensures
        r == is_envelope_key(k@),
{
    is(k, "id") || is(k, "note_id") || is(k, "tag_id") || is(k, "parent_id") || is(k, "share_id")
        || is(k, "updated_time") || is(k, "deleted_time") || is(k, "is_locked") || is(
        k,
        "extracted_resource_ids",
    )
}

fn default_of(f: &[char]) -> (r: &'static str)
    ensures
        r@ == field_default(f@),
{
    if is(f, "latitude") || is(f, "longitude") {
        "0.00000000"
    } else if is(f, "altitude") {
        "0.0000"
    } else if is(f, "is_conflict") || is(f, "is_todo") || is(f, "todo_due") || is(f, "todo_completed")
        || is(f, "order") || is(f, "encryption_applied") || is(f, "is_shared") || is(
        f,
        "deleted_time",
    ) {
        "0"
    } else if is(f, "markup_language") {
        "1"
    } else {
        proof {
            reveal_strlit("");
        }
        ""
    }
}

impl RawItem {
    /// The reduced, encrypted envelope of an item.
    pub fn encrypted_envelope(&self, cipher_text: String) -> (r: RawItem)
        ensures
            r@ == envelope_spec(self@, cipher_text@),
    {
        let pairs = props_pairs(&self.props);
        let ghost es = self@.props;
        let mut props = props_new();
        let mut i: usize = 0;
        assert(es.take(0) =~= Seq::<(Seq<char>, Seq<char>)>::empty());
        while i < pairs.len()
            invariant
                i <= pairs@.len(),
                pairs@.len() == es.len(),
                forall|j: int|
                    0 <= j < pairs@.len() ==> (#[trigger] pairs@[j]).0@ == es[j].0 && pairs@[j].1@
                        == es[j].1,
                props.entries() == insert_all(envelope_kept(es.take(i as int))),
            decreases pairs@.len() - i,
        {
            let k = chars_of(pairs[i].0.as_str());
            proof {
                assert(pairs@[i as int].0@ == es[i as int].0);
                assert(es.take(i + 1).drop_last() =~= es.take(i as int));
                assert(es.take(i + 1).last() == es[i as int]);
            }
            if envelope_key(k.as_slice()) {
                props_insert(&mut props, pairs[i].0.clone(), pairs[i].1.clone());
                proof {
                    let kept = envelope_kept(es.take(i as int));
                    assert(envelope_kept(es.take(i + 1)) == kept.push(es[i as int]));
                    assert(kept.push(es[i as int]).drop_last() =~= kept);
                }
            }
            i = i + 1;
        }
        assert(es.take(pairs@.len() as int) =~= es);
        props_insert(&mut props, "encryption_cipher_text".to_owned(), cipher_text);
        props_insert(&mut props, "encryption_applied".to_owned(), "1".to_owned());
        props_insert(&mut props, "type_".to_owned(), self.get("type_").to_owned());
        RawItem { title: None, body: None, props }
    }

    /// A new item of type `item_type` with Joplin's default field set.
    pub fn new_with_fields(item_type: i64, fields: &[&str]) -> (r: RawItem)
        ensures
            r@ == new_item_spec(item_type, str_views(fields@)),
    {
        let ghost fs = str_views(fields@);
        let ghost pairs = fs.map_values(|f: Seq<char>| (f, field_default(f)));
        let mut props = props_new();
        let mut i: usize = 0;
        assert(pairs.take(0) =~= Seq::<(Seq<char>, Seq<char>)>::empty());
        while i < fields.len()
            invariant
                i <= fields@.len(),
                fs == str_views(fields@),
                pairs == fs.map_values(|f: Seq<char>| (f, field_default(f))),
                props.entries() == insert_all(pairs.take(i as int)),
            decreases fields@.len() - i,
        {
            let f = fields[i];
            let fc = chars_of(f);
            let d = default_of(fc.as_slice());
            props_insert(&mut props, f.to_owned(), d.to_owned());
            proof {
                assert(pairs.take(i + 1).drop_last() =~= pairs.take(i as int));
                assert(pairs.take(i + 1).last() == pairs[i as int]);
                assert(pairs[i as int] == (f@, field_default(f@)));
            }
            i = i + 1;
        }
        assert(pairs.take(fields@.len() as int) =~= pairs);
        let t = i64_text(item_type);
        props_insert(&mut props, "type_".to_owned(), string_of(t.as_slice()));
        let e: Vec<char> = Vec::new();
        RawItem { title: Some(string_of(e.as_slice())), body: None, props }
    }
}

} // verus!
