//! What the local store decides, apart from the database: how a note's text
//! maps to a Joplin title and body, new and edited items, folder icons, the
//! trash's parent chains and restore targets, and the list of pending
//! deletions.
use vstd::prelude::*;

use crate::item::{RawItem, ItemView, TYPE_FOLDER, TYPE_NOTE, TYPE_RESOURCE, TYPE_TAG, TYPE_NOTE_TAG};
use crate::text::{index_of, is_ws, replace_all, trim, trim_end, trim_start};

verus! {

/// Item types kept locally. Revisions, master keys (read from `info.json`)
/// and other internal types stay on the server only.
pub const STORED_TYPES: [i64; 5] = [TYPE_NOTE, TYPE_FOLDER, TYPE_RESOURCE, TYPE_TAG, TYPE_NOTE_TAG];

// ---------------------------------------------------------------------------
// A note's text: the first line is the Joplin title, the rest the body
// ---------------------------------------------------------------------------

/// `\r\n` made `\n`.
pub open spec fn unix_lines(t: Seq<char>) -> Seq<char> {
    replace_all(t, seq!['\r', '\n'], seq!['\n'])
}

/// The title and body of a note's text: the first line without trailing
/// white space, and what follows the first line break.
pub open spec fn split_text_spec(text: Seq<char>) -> (Seq<char>, Seq<char>) {
    let t = unix_lines(text);
    match index_of(t, '\n') {
        Some(i) => (trim_end(t.take(i)), t.skip(i + 1)),
        None => (trim_end(t), Seq::empty()),
    }
}

/// A note's text from its title and body.
pub open spec fn join_text_spec(title: Seq<char>, body: Seq<char>) -> Seq<char> {
    if body.len() == 0 {
        title
    } else {
        title + seq!['\n'] + body
    }
}

/// Splits a note's text into the Joplin title (first line) and body (the rest).
pub fn split_text(text: &str) -> (r: (String, String))
    ensures
        (r.0@, r.1@) == split_text_spec(text@),
{
    let cs = crate::text::chars_of(text);
    let crlf = crate::text::chars_of("\r\n");
    let lf = crate::text::chars_of("\n");
    proof {
        reveal_strlit("\r\n");
        reveal_strlit("\n");
        assert(crlf@ =~= seq!['\r', '\n']);
        assert(lf@ =~= seq!['\n']);
    }
    let t = crate::text::replace_chars(cs.as_slice(), crlf.as_slice(), lf.as_slice());
    proof {
        crate::text::lemma_index_of_props(t@, '\n');
    }
    match crate::text::find_char(t.as_slice(), 0, t.len(), '\n') {
        Some(i) => {
            let b = crate::text::trim_end_range(t.as_slice(), 0, i);
            let title = crate::text::copy_range(t.as_slice(), 0, b);
            let body = crate::text::copy_range(t.as_slice(), i + 1, t.len());
            proof {
                assert(t@.subrange(0, i as int) =~= t@.take(i as int));
                assert(body@ =~= t@.skip(i + 1));
            }
            (crate::text::string_of(title.as_slice()), crate::text::string_of(body.as_slice()))
        },
        None => {
            let b = crate::text::trim_end_range(t.as_slice(), 0, t.len());
            let title = crate::text::copy_range(t.as_slice(), 0, b);
            proof {
                assert(t@.subrange(0, t@.len() as int) =~= t@);
            }
            (crate::text::string_of(title.as_slice()), String::new())
        },
    }
}

/// Joins a title and a body into a note's text.
pub fn join_text(title: &str, body: &str) -> (r: String)
    ensures
        r@ == join_text_spec(title@, body@),
{
    let b = crate::text::chars_of(body);
    let mut out = crate::text::chars_of(title);
    if b.len() > 0 {
        out.push('\n');
        crate::text::push_all(&mut out, b.as_slice());
    }
    crate::text::string_of(out.as_slice())
}

/// Whether no `\r` is directly followed by `\n`.
pub open spec fn no_crlf(s: Seq<char>) -> bool {
    forall|i: int| 0 <= i < s.len() - 1 ==> !(s[i] == '\r' && #[trigger] s[i + 1] == '\n')
}

proof fn lemma_unix_lines_keeps(s: Seq<char>)
    requires
        no_crlf(s),
    ensures
        unix_lines(s) == s,
    decreases s.len(),
{
    if s.len() > 0 {
        let pat = seq!['\r', '\n'];
        if pat.len() <= s.len() && s.take(pat.len() as int) == pat {
            assert(s.take(2)[0] == s[0] && s.take(2)[1] == s[1]);
            assert(s[0] == '\r' && s[1] == '\n');
            assert(!(s[0] == '\r' && s[0int + 1] == '\n'));
        }
        let t = s.drop_first();
        assert(no_crlf(t)) by {
            assert forall|i: int| 0 <= i < t.len() - 1 implies !(t[i] == '\r' && #[trigger] t[i + 1] == '\n') by {
                assert(t[i] == s[i + 1] && t[i + 1] == s[i + 1 + 1]);
            }
        }
        lemma_unix_lines_keeps(t);
        assert(seq![s[0]] + t =~= s);
    }
}

/// A text whose first line has no trailing white space, that has no `\r\n`,
/// and that does not end with its first line break, comes back from a split
/// into title and body and a join.
pub proof fn lemma_split_join(text: Seq<char>)
    requires
        no_crlf(text),
        trim_end(text.take(match index_of(text, '\n') { Some(i) => i, None => text.len() as int })) == text.take(
            match index_of(text, '\n') { Some(i) => i, None => text.len() as int },
        ),
        index_of(text, '\n') matches Some(i) ==> i + 1 < text.len(),
    ensures
        join_text_spec(split_text_spec(text).0, split_text_spec(text).1) == text,
{
    lemma_unix_lines_keeps(text);
    crate::text::lemma_index_of_props(text, '\n');
    match index_of(text, '\n') {
        Some(i) => {
            assert(text.take(i) + seq!['\n'] + text.skip(i + 1) =~= text);
        },
        None => {
            assert(text.take(text.len() as int) =~= text);
        },
    }
}

/// A title of one line without trailing white space and a body without
/// `\r\n` come back from a join and a split.
pub proof fn lemma_join_split(title: Seq<char>, body: Seq<char>)
    requires
        forall|i: int| 0 <= i < title.len() ==> title[i] != '\n',
        trim_end(title) == title,
        no_crlf(body),
    ensures
        split_text_spec(join_text_spec(title, body)) == (title, body),
{
    if body.len() == 0 {
        assert(no_crlf(title)) by {
            assert forall|i: int| 0 <= i < title.len() - 1 implies !(title[i] == '\r' && #[trigger] title[i + 1] == '\n') by {
                assert(title[i + 1] != '\n');
            }
        }
        lemma_unix_lines_keeps(title);
        crate::text::lemma_index_of_none(title, '\n');
        assert(title.take(title.len() as int) =~= title);
    } else {
        let t = title + seq!['\n'] + body;
        if title.len() > 0 {
            assert(!is_ws(title.last())) by {
                if is_ws(title.last()) {
                    assert(trim_end(title) == trim_end(title.drop_last()));
                    lemma_trim_end_shorter(title.drop_last());
                }
            }
        }
        assert(no_crlf(t)) by {
            assert forall|i: int| 0 <= i < t.len() - 1 implies !(t[i] == '\r' && #[trigger] t[i + 1] == '\n') by {
                if i < title.len() - 1 {
                    assert(t[i + 1] == title[i + 1]);
                } else if i == title.len() - 1 {
                    assert(t[i] == title.last());
                } else if i == title.len() {
                    assert(t[i] == '\n');
                } else {
                    assert(t[i] == body[i - title.len() - 1]);
                    assert(t[i + 1] == body[i - title.len() - 1 + 1]);
                }
            }
        }
        lemma_unix_lines_keeps(t);
        assert forall|j: int| 0 <= j < title.len() implies t[j] != '\n' by {
            assert(t[j] == title[j]);
        }
        crate::text::lemma_index_of_found(t, '\n', title.len() as int);
        assert(t.take(title.len() as int) =~= title);
        assert(t.skip(title.len() as int + 1) =~= body);
    }
}

/// Trimming the end never lengthens a text.
proof fn lemma_trim_end_shorter(s: Seq<char>)
    ensures
        trim_end(s).len() <= s.len(),
    decreases s.len(),
{
    if s.len() > 0 && is_ws(s.last()) {
        lemma_trim_end_shorter(s.drop_last());
    }
}

// ---------------------------------------------------------------------------
// Listings
// ---------------------------------------------------------------------------

#[derive(Debug, Clone)]
pub struct NoteSummary {
    pub id: String,
    pub parent_id: String,
    pub title: String,
    pub preview: String,
    pub updated_time: i64,
    pub is_conflict: bool,
    pub encrypted: bool,
}

#[derive(Debug, Clone)]
pub struct Note {
    pub id: String,
    pub parent_id: String,
    /// Full editable text: first line is the Joplin title, the rest is the body.
    pub text: String,
    pub updated_time: i64,
    pub created_time: i64,
    pub encrypted: bool,
}

#[derive(Debug, Clone)]
pub struct Folder {
    pub id: String,
    pub parent_id: String,
    pub title: String,
    pub icon: String,
    pub note_count: i64,
}

/// A note or folder in Joplin's trash.
#[derive(Debug, Clone)]
pub struct TrashItem {
    pub id: String,
    pub parent_id: String,
    pub title: String,
    pub is_folder: bool,
    pub deleted_time: i64,
    pub encrypted: bool,
}

/// An item edited here, with the time of its last synchronisation.
#[derive(Debug)]
pub struct DirtyItem {
    pub raw: RawItem,
    pub sync_time: i64,
}

/// The text of an optional title or body, empty when absent.
pub open spec fn text_or_empty(o: Option<Seq<char>>) -> Seq<char> {
    match o {
        Some(s) => s,
        None => Seq::empty(),
    }
}

fn str_or_empty(o: &Option<String>) -> (r: &str)
    ensures
        r@ == text_or_empty(crate::item::opt_view(*o)),
{
    match o {
        Some(s) => s.as_str(),
        None => {
            proof {
                reveal_strlit("");
            }
            ""
        },
    }
}

/// The note an item holds, `None` when it is not a note: its text joins
/// title and body, its time is the later of the user's and the system's.
pub fn note_of(it: &RawItem, encrypted: bool) -> (r: Option<Note>)
    ensures
        crate::item::int_or_zero(crate::item::prop_value(it@.props, "type_"@)) != TYPE_NOTE ==> r is None,
        crate::item::int_or_zero(crate::item::prop_value(it@.props, "type_"@)) == TYPE_NOTE ==> (r matches Some(n)
            && n.id@ == crate::item::prop_value(it@.props, "id"@)
            && n.parent_id@ == crate::item::prop_value(it@.props, "parent_id"@)
            && n.text@ == join_text_spec(text_or_empty(it@.title), text_or_empty(it@.body))
            && n.updated_time == later(
                crate::item::time_value(crate::item::prop_value(it@.props, "user_updated_time"@)),
                crate::item::time_value(crate::item::prop_value(it@.props, "updated_time"@)),
            )
            && n.created_time == crate::item::time_value(crate::item::prop_value(it@.props, "user_created_time"@))
            && n.encrypted == encrypted),
{
    if it.item_type() != TYPE_NOTE {
        return None;
    }
    let uut = it.time("user_updated_time");
    let ut = it.time("updated_time");
    Some(
        Note {
            id: it.id().to_owned(),
            parent_id: it.get("parent_id").to_owned(),
            text: join_text(str_or_empty(&it.title), str_or_empty(&it.body)),
            updated_time: if uut >= ut { uut } else { ut },
            created_time: it.time("user_created_time"),
            encrypted,
        },
    )
}

/// The larger of two times.
pub open spec fn later(a: int, b: int) -> int {
    if a >= b {
        a
    } else {
        b
    }
}

// ---------------------------------------------------------------------------
// Titles and folder icons
// ---------------------------------------------------------------------------

/// Line breaks made spaces, then trimmed.
pub open spec fn single_line_spec(s: Seq<char>) -> Seq<char> {
    trim(s.map_values(|c: char| if c == '\n' || c == '\r' { ' ' } else { c }))
}

/// A title on one line.
pub fn single_line(s: &str) -> (r: String)
    ensures
        r@ == single_line_spec(s@),
{
    let cs = crate::text::chars_of(s);
    let mut out: Vec<char> = Vec::new();
    let mut i: usize = 0;
    while i < cs.len()
        invariant
            i <= cs@.len(),
            cs@ == s@,
            out@ == cs@.take(i as int).map_values(|c: char| if c == '\n' || c == '\r' { ' ' } else { c }),
        decreases cs@.len() - i,
    {
        let c = cs[i];
        out.push(if c == '\n' || c == '\r' { ' ' } else { c });
        i = i + 1;
        assert(out@ =~= cs@.take(i as int).map_values(|c: char| if c == '\n' || c == '\r' { ' ' } else { c }));
    }
    assert(cs@.take(cs@.len() as int) =~= cs@);
    let (a, b) = crate::text::trim_range(out.as_slice(), 0, out.len());
    assert(out@.subrange(0, out@.len() as int) =~= out@);
    crate::text::string_of(crate::text::copy_range(out.as_slice(), a, b).as_slice())
}

/// The emoji of a folder icon: Joplin stores `{"emoji":"🏦","name":"bank",
/// "type":1}` (the member `emoji` when the text is a JSON object), very old
/// clients the bare emoji (kept when at most 8 characters).
pub open spec fn folder_emoji_spec(icon: Seq<char>) -> Seq<char> {
    let t = trim(icon);
    if t.len() == 0 {
        Seq::empty()
    } else if t[0] == '{' {
        match crate::crypto::json_str_member(vstd::utf8::encode_utf8(t), "emoji"@) {
            Some(Some(e)) => e,
            _ => Seq::empty(),
        }
    } else if t.len() <= 8 {
        t
    } else {
        Seq::empty()
    }
}

/// The emoji of a folder icon (empty for image icons and unreadable ones).
pub fn folder_emoji(icon: &str) -> (r: String)
    ensures
        r@ == folder_emoji_spec(icon@),
{
    let cs = crate::text::chars_of(icon);
    let (a, b) = crate::text::trim_range(cs.as_slice(), 0, cs.len());
    assert(cs@.subrange(0, cs@.len() as int) =~= icon@);
    let t = crate::text::copy_range(cs.as_slice(), a, b);
    if t.len() == 0 {
        return String::new();
    }
    if t[0] == '{' {
        let s = crate::text::string_of(t.as_slice());
        match crate::crypto::json_str(s.as_str().as_bytes(), "emoji") {
            Some(Some(e)) => e,
            _ => String::new(),
        }
    } else if t.len() <= 8 {
        crate::text::string_of(t.as_slice())
    } else {
        String::new()
    }
}

// ---------------------------------------------------------------------------
// Timestamps of an edit
// ---------------------------------------------------------------------------

/// An item with `updated_time` and `user_updated_time` set to `now`.
pub open spec fn touched(v: ItemView, now: i64) -> ItemView {
    ItemView {
        props: crate::props::insert_entry(
            crate::props::insert_entry(v.props, "updated_time"@, crate::item::time_text(now)),
            "user_updated_time"@,
            crate::item::time_text(now),
        ),
        ..v
    }
}

/// An item with `updated_time` set to `now` (a change by the system: a
/// move, the trash).
pub open spec fn touched_system(v: ItemView, now: i64) -> ItemView {
    ItemView { props: crate::props::insert_entry(v.props, "updated_time"@, crate::item::time_text(now)), ..v }
}

/// Marks an item as edited by the user at `now`.
pub fn touch_at(it: &mut RawItem, now: i64)
    ensures
        final(it)@ == touched(old(it)@, now),
{
    it.set_time("updated_time", now);
    it.set_time("user_updated_time", now);
}

/// Marks an item as edited by the user now.
pub fn touch(it: &mut RawItem)
    ensures
        exists|now: i64| final(it)@ == touched(old(it)@, now),
{
    let now = crate::stamp::now_ms();
    touch_at(it, now);
}

/// Marks an item as changed by the system now.
pub fn touch_system(it: &mut RawItem)
    ensures
        exists|now: i64| final(it)@ == touched_system(old(it)@, now),
{
    let now = crate::stamp::now_ms();
    it.set_time("updated_time", now);
    assert(final(it)@ == touched_system(old(it)@, now));
}

// ---------------------------------------------------------------------------
// Editing a note's text
// ---------------------------------------------------------------------------

/// An item with the title and body of a note's text.
pub open spec fn with_text(v: ItemView, text: Seq<char>) -> ItemView {
    ItemView { title: Some(split_text_spec(text).0), body: Some(split_text_spec(text).1), ..v }
}

/// Gives a note the title and body of `text`, then marks it edited; `false`
/// (the note untouched) when title and body are already those.
pub fn apply_text(it: &mut RawItem, text: &str) -> (changed: bool)
    ensures
        ({
            let (t, b) = split_text_spec(text@);
            let same = old(it)@.title == Some(t) && old(it)@.body == Some(b);
            &&& changed == !same
            &&& same ==> final(it)@ == old(it)@
            &&& !same ==> exists|now: i64| final(it)@ == #[trigger] touched(with_text(old(it)@, text@), now)
        }),
{
    let (title, body) = split_text(text);
    let same_title = match &it.title {
        Some(t) => crate::text::eq_chars(crate::text::chars_of(t.as_str()).as_slice(), crate::text::chars_of(title.as_str()).as_slice()),
        None => false,
    };
    let same_body = match &it.body {
        Some(b) => crate::text::eq_chars(crate::text::chars_of(b.as_str()).as_slice(), crate::text::chars_of(body.as_str()).as_slice()),
        None => false,
    };
    if same_title && same_body {
        return false;
    }
    it.title = Some(title);
    it.body = Some(body);
    touch(it);
    true
}

/// Strips the line breaks at the end of a text.
pub open spec fn trim_end_newlines(s: Seq<char>) -> Seq<char>
    decreases s.len(),
{
    if s.len() > 0 && s.last() == '\n' {
        trim_end_newlines(s.drop_last())
    } else {
        s
    }
}

/// A note's text with a line appended.
pub open spec fn appended_spec(existing: Seq<char>, line: Seq<char>) -> Seq<char> {
    if existing.len() == 0 {
        line
    } else {
        trim_end_newlines(existing) + seq!['\n'] + line
    }
}

/// Appends a line of text at the end of a note's text.
pub fn appended_text(existing: &str, line: &str) -> (r: String)
    ensures
        r@ == appended_spec(existing@, line@),
{
    let e = crate::text::chars_of(existing);
    let l = crate::text::chars_of(line);
    if e.len() == 0 {
        return crate::text::string_of(l.as_slice());
    }
    let mut n = e.len();
    assert(e@.take(n as int) =~= e@);
    while n > 0 && e[n - 1] == '\n'
        invariant
            n <= e@.len(),
            trim_end_newlines(e@) == trim_end_newlines(e@.take(n as int)),
        decreases n,
    {
        assert(e@.take(n as int).drop_last() =~= e@.take(n - 1));
        n = n - 1;
    }
    let mut out = crate::text::copy_range(e.as_slice(), 0, n);
    assert(out@ =~= e@.take(n as int));
    out.push('\n');
    crate::text::push_all(&mut out, l.as_slice());
    crate::text::string_of(out.as_slice())
}

// ---------------------------------------------------------------------------
// New items
// ---------------------------------------------------------------------------

/// A new item of type `ty` with the fields `fields` (their order and
/// defaults), then `id` and the four creation and edit times at `now`.
pub open spec fn stamped_item(ty: i64, fields: Seq<Seq<char>>, id: Seq<char>, now: i64) -> Seq<(Seq<char>, Seq<char>)> {
    let t = crate::item::time_text(now);
    crate::props::insert_entry(
        crate::props::insert_entry(
            crate::props::insert_entry(
                crate::props::insert_entry(
                    crate::props::insert_entry(crate::item::new_item_spec(ty, fields).props, "id"@, id),
                    "created_time"@,
                    t,
                ),
                "updated_time"@,
                t,
            ),
            "user_created_time"@,
            t,
        ),
        "user_updated_time"@,
        t,
    )
}

/// The properties of a new folder.
pub open spec fn folder_props(id: Seq<char>, parent_id: Seq<char>, now: i64) -> Seq<(Seq<char>, Seq<char>)> {
    crate::props::insert_entry(
        stamped_item(TYPE_FOLDER, crate::item::str_views(crate::item::FOLDER_FIELDS@), id, now),
        "parent_id"@,
        parent_id,
    )
}

/// A new folder item: Joplin's folder fields, the given id, parent and
/// time, and the title on one line.
pub fn folder_item(id: &str, parent_id: &str, title: &str, now: i64) -> (r: RawItem)
    ensures
        r@ == (ItemView { title: Some(single_line_spec(title@)), body: None, props: folder_props(id@, parent_id@, now) }),
{
    let mut it = RawItem::new_with_fields(TYPE_FOLDER, &crate::item::FOLDER_FIELDS);
    it.set("id", id);
    it.set_time("created_time", now);
    it.set_time("updated_time", now);
    it.set_time("user_created_time", now);
    it.set_time("user_updated_time", now);
    it.set("parent_id", parent_id);
    it.title = Some(single_line(title));
    it
}

/// Creates a folder item with a new id, now; with the folder as listed.
pub fn new_folder(title: &str, parent_id: &str) -> (r: (RawItem, Folder))
    ensures
        exists|now: i64| r.0@ == (ItemView {
            title: Some(single_line_spec(title@)),
            body: None,
            props: #[trigger] folder_props(r.1.id@, parent_id@, now),
        }),
        crate::stamp::is_new_id(r.1.id@),
        r.1.parent_id@ == parent_id@,
        r.1.title@ == single_line_spec(title@),
        r.1.icon@.len() == 0,
        r.1.note_count == 0,
{
    let now = crate::stamp::now_ms();
    let id = crate::stamp::new_id();
    let it = folder_item(id.as_str(), parent_id, title, now);
    let f = Folder {
        id,
        parent_id: parent_id.to_owned(),
        title: single_line(title),
        icon: String::new(),
        note_count: 0,
    };
    let r = (it, f);
    assert(r.0@ == (ItemView {
        title: Some(single_line_spec(title@)),
        body: None,
        props: folder_props(r.1.id@, parent_id@, now),
    }));
    r
}

/// The properties of a new note, before its title and body.
pub open spec fn note_props(id: Seq<char>, parent_id: Seq<char>, now: i64) -> Seq<(Seq<char>, Seq<char>)> {
    crate::props::insert_entry(
        crate::props::insert_entry(
            crate::props::insert_entry(
                crate::props::insert_entry(
                    stamped_item(TYPE_NOTE, crate::item::str_views(crate::item::NOTE_FIELDS@), id, now),
                    "parent_id"@,
                    parent_id,
                ),
                "source"@,
                "omanote"@,
            ),
            "source_application"@,
            "app.omanote"@,
        ),
        "order"@,
        crate::num::decimal_text(now as int),
    )
}

/// A new note item: Joplin's note fields, the given id, folder and time
/// (`order` too), Omanote as its source, and the title and body of `text`.
pub fn note_item(id: &str, parent_id: &str, text: &str, now: i64) -> (r: RawItem)
    ensures
        r@ == (ItemView {
            title: Some(split_text_spec(text@).0),
            body: Some(split_text_spec(text@).1),
            props: note_props(id@, parent_id@, now),
        }),
{
    let mut it = RawItem::new_with_fields(TYPE_NOTE, &crate::item::NOTE_FIELDS);
    it.set("id", id);
    it.set_time("created_time", now);
    it.set_time("updated_time", now);
    it.set_time("user_created_time", now);
    it.set_time("user_updated_time", now);
    it.set("parent_id", parent_id);
    it.set("source", "omanote");
    it.set("source_application", "app.omanote");
    let order = crate::text::string_of(crate::num::i64_text(now).as_slice());
    it.set("order", order.as_str());
    let (title, body) = split_text(text);
    it.title = Some(title);
    it.body = Some(body);
    it
}

/// Creates a note item with a new id, now.
pub fn new_note(parent_id: &str, text: &str) -> (r: RawItem)
    ensures
        exists|id: Seq<char>, now: i64| crate::stamp::is_new_id(id) && r@ == (ItemView {
            title: Some(split_text_spec(text@).0),
            body: Some(split_text_spec(text@).1),
            props: #[trigger] note_props(id, parent_id@, now),
        }),
{
    let now = crate::stamp::now_ms();
    let id = crate::stamp::new_id();
    note_item(id.as_str(), parent_id, text, now)
}

/// The properties of a new attachment.
pub open spec fn resource_props(
    id: Seq<char>,
    mime: Seq<char>,
    filename: Seq<char>,
    ext: Seq<char>,
    size: nat,
    now: i64,
) -> Seq<(Seq<char>, Seq<char>)> {
    crate::props::insert_entry(
        crate::props::insert_entry(
            crate::props::insert_entry(
                crate::props::insert_entry(
                    crate::props::insert_entry(
                        stamped_item(TYPE_RESOURCE, crate::item::str_views(crate::item::RESOURCE_FIELDS@), id, now),
                        "mime"@,
                        mime,
                    ),
                    "filename"@,
                    filename,
                ),
                "file_extension"@,
                ext,
            ),
            "size"@,
            crate::num::decimal_text(size as int),
        ),
        "blob_updated_time"@,
        crate::num::decimal_text(now as int),
    )
}

/// A new attachment item: Joplin's resource fields, the given id, type,
/// file name (its title too), extension, size and time.
pub fn resource_item(id: &str, mime: &str, filename: &str, ext: &str, size: usize, now: i64) -> (r: RawItem)
    ensures
        r@ == (ItemView {
            title: Some(filename@),
            body: None,
            props: resource_props(id@, mime@, filename@, ext@, size as nat, now),
        }),
{
    let mut it = RawItem::new_with_fields(TYPE_RESOURCE, &crate::item::RESOURCE_FIELDS);
    it.set("id", id);
    it.set_time("created_time", now);
    it.set_time("updated_time", now);
    it.set_time("user_created_time", now);
    it.set_time("user_updated_time", now);
    it.set("mime", mime);
    it.set("filename", filename);
    it.set("file_extension", ext);
    let sz = crate::text::string_of(crate::num::digits(size as u64, 10).as_slice());
    it.set("size", sz.as_str());
    let blob = crate::text::string_of(crate::num::i64_text(now).as_slice());
    it.set("blob_updated_time", blob.as_str());
    it.title = Some(filename.to_owned());
    it
}

// ---------------------------------------------------------------------------
// The trash
// ---------------------------------------------------------------------------

/// The parent of folder `id` in a list of `(folder, parent)` pairs (the
/// last pair of that folder, as a map built from the list keeps it).
pub open spec fn parent_in(parents: Seq<(Seq<char>, Seq<char>)>, id: Seq<char>) -> Option<Seq<char>>
    decreases parents.len(),
{
    if parents.len() == 0 {
        None
    } else if parents.last().0 == id {
        Some(parents.last().1)
    } else {
        parent_in(parents.drop_last(), id)
    }
}

/// Whether the parent chain from `id` reaches `root` within `steps` folders;
/// a chain that leaves the known folders reaches the top (`root` empty).
pub open spec fn reaches(parents: Seq<(Seq<char>, Seq<char>)>, root: Seq<char>, id: Seq<char>, steps: nat) -> bool
    decreases steps,
{
    if steps == 0 {
        false
    } else if id == root {
        true
    } else {
        match parent_in(parents, id) {
            Some(p) => reaches(parents, root, p, (steps - 1) as nat),
            None => root.len() == 0,
        }
    }
}

pub open spec fn pair_views(v: Seq<(String, String)>) -> Seq<(Seq<char>, Seq<char>)> {
    v.map_values(|p: (String, String)| (p.0@, p.1@))
}

fn parent_of(parents: &[(String, String)], id: &[char]) -> (r: Option<usize>)
    ensures
        match parent_in(pair_views(parents@), id@) {
            Some(p) => r matches Some(i) && i < parents@.len() && parents@[i as int].1@ == p,
            None => r is None,
        },
{
    let mut i = parents.len();
    assert(parents@.take(parents@.len() as int) =~= parents@);
    while i > 0
        invariant
            i <= parents@.len(),
            parent_in(pair_views(parents@), id@) == parent_in(pair_views(parents@.take(i as int)), id@),
        decreases i,
    {
        let ghost pv = pair_views(parents@.take(i as int));
        assert(pv.last() == (parents@[i - 1].0@, parents@[i - 1].1@));
        if crate::text::eq_chars(crate::text::chars_of(parents[i - 1].0.as_str()).as_slice(), id) {
            return Some(i - 1);
        }
        assert(pv.drop_last() =~= pair_views(parents@.take(i - 1)));
        i = i - 1;
    }
    None
}

/// The trashed items that lie under `root`, in their order.
pub open spec fn trash_under(parents: Seq<(Seq<char>, Seq<char>)>, root: Seq<char>, items: Seq<TrashItem>) -> Seq<TrashItem>
    decreases items.len(),
{
    if items.len() == 0 {
        Seq::empty()
    } else {
        let rest = trash_under(parents, root, items.drop_last());
        if reaches(parents, root, items.last().parent_id@, 64) {
            rest.push(items.last())
        } else {
            rest
        }
    }
}

/// The trash as seen from `root`: the items whose parent chain reaches it.
pub fn trashed_under(parents: &[(String, String)], root: &str, items: Vec<TrashItem>) -> (r: Vec<TrashItem>)
    ensures
        r@ == trash_under(pair_views(parents@), root@, items@),
{
    let ghost all = items@;
    let mut src = items;
    let mut back: Vec<TrashItem> = Vec::new();
    while src.len() > 0
        invariant
            back@.len() <= all.len(),
            src@ == all.take(all.len() - back@.len()),
            forall|j: int| 0 <= j < back@.len() ==> back@[j] == all[all.len() - 1 - j],
        decreases src@.len(),
    {
        let ghost n = back@.len();
        let it = src.pop().unwrap();
        back.push(it);
        assert(src@ =~= all.take(all.len() - back@.len()));
    }
    let mut out: Vec<TrashItem> = Vec::new();
    assert(all.take(0) =~= Seq::<TrashItem>::empty());
    while back.len() > 0
        invariant
            back@.len() <= all.len(),
            forall|j: int| 0 <= j < back@.len() ==> back@[j] == all[all.len() - 1 - j],
            out@ == trash_under(pair_views(parents@), root@, all.take(all.len() - back@.len())),
        decreases back@.len(),
    {
        let ghost k = all.len() - back@.len();
        let it = back.pop().unwrap();
        assert(it == all[k]);
        assert(all.take(k + 1).drop_last() =~= all.take(k));
        assert(all.take(k + 1).last() == it);
        if under_root(parents, root, it.parent_id.as_str()) {
            out.push(it);
        }
    }
    assert(all.take(all.len() as int) =~= all);
    out
}

/// Whether a trashed item whose parent is `start` lies under `root` ("" = all
/// of Joplin): its parent chain reaches `root` within 64 folders.
pub fn under_root(parents: &[(String, String)], root: &str, start: &str) -> (r: bool)
    ensures
        r == reaches(pair_views(parents@), root@, start@, 64),
{
    let rc = crate::text::chars_of(root);
    let mut id = crate::text::chars_of(start);
    let mut k: usize = 0;
    assert(parents@.take(parents@.len() as int) =~= parents@);
    while k < 64
        invariant
            k <= 64,
            rc@ == root@,
            reaches(pair_views(parents@), root@, start@, 64) == reaches(pair_views(parents@), root@, id@, (64 - k) as nat),
        decreases 64 - k,
    {
        if crate::text::eq_chars(id.as_slice(), rc.as_slice()) {
            return true;
        }
        match parent_of(parents, id.as_slice()) {
            Some(i) => {
                id = crate::text::chars_of(parents[i].1.as_str());
            },
            None => {
                return rc.len() == 0;
            },
        }
        k = k + 1;
    }
    false
}

/// Whether any folder of `(id, parent, trashed)` triples is `id` and alive.
pub open spec fn alive_in(folders: Seq<(String, String, bool)>, id: Seq<char>) -> bool {
    exists|i: int| 0 <= i < folders.len() && (#[trigger] folders[i]).0@ == id && !folders[i].2
}

/// Where an item taken out of the trash goes, `None` to stay where it was: a
/// folder stays at the top or under a live folder, else goes to
/// `folder_parent`; a note stays in a live folder, else goes to `note_folder`.
pub open spec fn restore_target_spec(
    is_folder: bool,
    parent: Seq<char>,
    folders: Seq<(String, String, bool)>,
    note_folder: Seq<char>,
    folder_parent: Seq<char>,
) -> Option<Seq<char>> {
    if is_folder {
        if parent.len() == 0 || alive_in(folders, parent) {
            None
        } else {
            Some(folder_parent)
        }
    } else if alive_in(folders, parent) {
        None
    } else {
        Some(note_folder)
    }
}

/// The new parent of an item taken out of the trash (`None`: unchanged).
pub fn restore_target(it: &RawItem, folders: &[(String, String, bool)], note_folder: &str, folder_parent: &str) -> (r: Option<String>)
    ensures
        crate::item::opt_view(r) == restore_target_spec(
            crate::item::int_or_zero(crate::item::prop_value(it@.props, "type_"@)) == TYPE_FOLDER,
            crate::item::prop_value(it@.props, "parent_id"@),
            folders@,
            note_folder@,
            folder_parent@,
        ),
{
    let parent = crate::text::chars_of(it.get("parent_id"));
    let mut alive = false;
    let mut i: usize = 0;
    while i < folders.len()
        invariant
            i <= folders@.len(),
            parent@ == crate::item::prop_value(it@.props, "parent_id"@),
            alive == exists|j: int| 0 <= j < i && (#[trigger] folders@[j]).0@ == parent@ && !folders@[j].2,
        decreases folders@.len() - i,
    {
        if !folders[i].2 && crate::text::eq_chars(crate::text::chars_of(folders[i].0.as_str()).as_slice(), parent.as_slice()) {
            alive = true;
        }
        i = i + 1;
    }
    if it.item_type() == TYPE_FOLDER {
        if parent.len() == 0 || alive {
            None
        } else {
            Some(folder_parent.to_owned())
        }
    } else if alive {
        None
    } else {
        Some(note_folder.to_owned())
    }
}

/// Whether an item inside a restored folder comes back with it: it is
/// readable and was trashed (`deleted_time` a positive number).
pub fn comes_back(it: &RawItem, encrypted: bool) -> (r: bool)
    ensures
        r == (!encrypted && crate::item::int_or_zero(crate::item::prop_value(it@.props, "deleted_time"@)) > 0),
{
    !encrypted && it.integer("deleted_time") > 0
}

/// Records an id to delete on the server, once.
pub fn add_pending(ids: &mut Vec<String>, id: &str)
    ensures
        (exists|i: int| 0 <= i < old(ids)@.len() && (#[trigger] old(ids)@[i])@ == id@) ==> final(ids)@ == old(ids)@,
        !(exists|i: int| 0 <= i < old(ids)@.len() && (#[trigger] old(ids)@[i])@ == id@) ==> final(ids)@.len()
            == old(ids)@.len() + 1 && final(ids)@.take(old(ids)@.len() as int) == old(ids)@ && final(ids)@.last()@ == id@,
{
    let idc = crate::text::chars_of(id);
    let mut i: usize = 0;
    while i < ids.len()
        invariant
            i <= ids@.len(),
            ids@ == old(ids)@,
            idc@ == id@,
            forall|j: int| 0 <= j < i ==> (#[trigger] ids@[j])@ != id@,
        decreases ids@.len() - i,
    {
        if crate::text::eq_chars(crate::text::chars_of(ids[i].as_str()).as_slice(), idc.as_slice()) {
            return;
        }
        i = i + 1;
    }
    ids.push(id.to_owned());
    assert(ids@.take(old(ids)@.len() as int) =~= old(ids)@);
}

/// The texts of a list of strings.
pub open spec fn texts(v: Seq<String>) -> Seq<Seq<char>> {
    v.map_values(|x: String| x@)
}

/// The ids left to delete once `id` is done: every other one, in order.
pub open spec fn without_id(ids: Seq<Seq<char>>, id: Seq<char>) -> Seq<Seq<char>> {
    ids.filter(|x: Seq<char>| x != id)
}

/// Forgets an id deleted on the server.
pub fn remove_pending(ids: &mut Vec<String>, id: &str)
    ensures
        texts(final(ids)@) == without_id(texts(old(ids)@), id@),
{
    let idc = crate::text::chars_of(id);
    let mut out: Vec<String> = Vec::new();
    let mut i: usize = 0;
    while i < ids.len()
        invariant
            i <= ids@.len(),
            ids@ == old(ids)@,
            idc@ == id@,
            texts(out@) == without_id(texts(ids@.take(i as int)), id@),
        decreases ids@.len() - i,
    {
        let ghost before = texts(out@);
        let keep = !crate::text::eq_chars(crate::text::chars_of(ids[i].as_str()).as_slice(), idc.as_slice());
        if keep {
            out.push(ids[i].clone());
        }
        proof {
            let t = texts(ids@.take(i + 1));
            assert(t.drop_last() =~= texts(ids@.take(i as int)));
            assert(t.last() == ids@[i as int]@);
            reveal(Seq::filter);
            assert(without_id(t, id@) == (if keep { without_id(t.drop_last(), id@).push(t.last()) } else { without_id(t.drop_last(), id@) }));
            assert(texts(out@) =~= (if keep { before.push(ids@[i as int]@) } else { before }));
        }
        i = i + 1;
    }
    assert(ids@.take(ids@.len() as int) =~= ids@);
    *ids = out;
}

// ---------------------------------------------------------------------------
// Lookups by text
// ---------------------------------------------------------------------------

/// Whether a folder is the one a user names: by id, or by title in any
/// letter case.
pub open spec fn folder_named(f: Folder, key: Seq<char>) -> bool {
    f.id@ == key || crate::text::lowercase_text(f.title@) == crate::text::lowercase_text(key)
}

/// The first folder named `key`.
pub fn find_folder_in(folders: Vec<Folder>, key: &str) -> (r: Option<Folder>)
    ensures
        match r {
            Some(f) => exists|i: int| 0 <= i < folders@.len() && folders@[i] == f && folder_named(f, key@)
                && forall|j: int| 0 <= j < i ==> !folder_named(#[trigger] folders@[j], key@),
            None => forall|j: int| 0 <= j < folders@.len() ==> !folder_named(#[trigger] folders@[j], key@),
        },
{
    let k = crate::text::to_lowercase(key);
    let kc = crate::text::chars_of(k.as_str());
    let keyc = crate::text::chars_of(key);
    let mut i: usize = 0;
    while i < folders.len()
        invariant
            i <= folders@.len(),
            kc@ == crate::text::lowercase_text(key@),
            keyc@ == key@,
            forall|j: int| 0 <= j < i ==> !folder_named(#[trigger] folders@[j], key@),
        decreases folders@.len() - i,
    {
        let f = &folders[i];
        let same_id = crate::text::eq_chars(crate::text::chars_of(f.id.as_str()).as_slice(), keyc.as_slice());
        let t = crate::text::to_lowercase(f.title.as_str());
        let same_title = crate::text::eq_chars(crate::text::chars_of(t.as_str()).as_slice(), kc.as_slice());
        if same_id || same_title {
            let ghost idx = i as int;
            let mut fs = folders;
            let found = fs.swap_remove(i);
            assert(found == folders@[idx]);
            return Some(found);
        }
        i = i + 1;
    }
    None
}

/// Whether a note's text holds the query, in any letter case.
pub fn text_matches(text: &str, query: &str) -> (r: bool)
    ensures
        r == crate::text::occurs(crate::text::lowercase_text(text@), crate::text::lowercase_text(query@)),
{
    let t = crate::text::to_lowercase(text);
    let q = crate::text::to_lowercase(query);
    crate::text::contains_chars(crate::text::chars_of(t.as_str()).as_slice(), crate::text::chars_of(q.as_str()).as_slice())
}

// ---------------------------------------------------------------------------
// Attachments
// ---------------------------------------------------------------------------

/// The last index of `c` in `s`.
pub open spec fn last_index_of(s: Seq<char>, c: char) -> Option<int>
    decreases s.len(),
{
    if s.len() == 0 {
        None
    } else if s.last() == c {
        Some(s.len() - 1)
    } else {
        last_index_of(s.drop_last(), c)
    }
}

/// The last named component among the pieces of a path.
pub open spec fn last_name(parts: Seq<Seq<char>>) -> Option<Seq<char>>
    decreases parts.len(),
{
    if parts.len() == 0 {
        None
    } else if parts.last().len() == 0 || parts.last() == seq!['.'] {
        last_name(parts.drop_last())
    } else if parts.last() == seq!['.', '.'] {
        None
    } else {
        Some(parts.last())
    }
}

/// The file name of a path (`Path::file_name` with `/` separators): its
/// last component, `None` when that is `..` or there is none.
pub open spec fn file_name(p: Seq<char>) -> Option<Seq<char>> {
    last_name(crate::text::split_on(p, '/'))
}

/// The extension of a file name (`Path::extension`): after its last `.`,
/// none when there is no dot or only one leading dot.
pub open spec fn extension(name: Seq<char>) -> Option<Seq<char>> {
    match last_index_of(name, '.') {
        Some(k) => if k == 0 {
            None
        } else {
            Some(name.skip(k + 1))
        },
        None => None,
    }
}

pub open spec fn is_ascii_alnum(c: char) -> bool {
    (0x30 <= c as u32 <= 0x39) || (0x41 <= c as u32 <= 0x5A) || (0x61 <= c as u32 <= 0x7A)
}

/// The extension of a file name, lowercase, when it is short and plain.
pub open spec fn plain_extension(filename: Seq<char>) -> Option<Seq<char>> {
    match file_name(filename) {
        Some(n) => match extension(n) {
            Some(e) => {
                let l = crate::text::lowercase_text(e);
                if l.len() <= 5 && forall|i: int| 0 <= i < l.len() ==> is_ascii_alnum(#[trigger] l[i]) {
                    Some(l)
                } else {
                    None
                }
            },
            None => None,
        },
        None => None,
    }
}

/// The extension an attachment is saved with: the file's own when short and
/// plain, else the image subtype of its MIME type (`jpeg` written `jpg`),
/// else none.
pub open spec fn resource_ext_spec(filename: Seq<char>, mime: Seq<char>) -> Seq<char> {
    match plain_extension(filename) {
        Some(l) => l,
        None => if mime.len() >= 6 && mime.take(6) == "image/"@ {
            replace_all(mime.skip(6), "jpeg"@, "jpg"@)
        } else {
            Seq::empty()
        },
    }
}

/// The extension of a file name's last component, if any.
fn name_extension(filename: &[char]) -> (r: Option<Vec<char>>)
    ensures
        match file_name(filename@) {
            Some(n) => match extension(n) {
                Some(e) => r matches Some(v) && v@ == e,
                None => r is None,
            },
            None => r is None,
        },
{
    let parts = crate::text::split_chars(filename, '/');
    let ghost ps = crate::text::split_on(filename@, '/');
    let mut k = parts.len();
    assert(ps.take(ps.len() as int) =~= ps);
    while k > 0 && (parts[k - 1].len() == 0 || (parts[k - 1].len() == 1 && parts[k - 1][0] == '.'))
        invariant
            k <= parts@.len(),
            parts@.len() == ps.len(),
            forall|i: int| 0 <= i < parts@.len() ==> #[trigger] parts@[i]@ == ps[i],
            last_name(ps) == last_name(ps.take(k as int)),
        decreases k,
    {
        assert(parts@[k - 1]@ == ps[k - 1]);
        assert(ps.take(k as int).last() == ps[k - 1]);
        assert(ps.take(k as int).drop_last() =~= ps.take(k - 1));
        if parts[k - 1].len() == 1 {
            assert(ps[k - 1] =~= seq!['.']);
        }
        k = k - 1;
    }
    if k == 0 {
        return None;
    }
    let name = &parts[k - 1];
    assert(name@ == ps[k - 1]);
    assert(ps.take(k as int).last() == ps[k - 1]);
    if name.len() == 2 && name[0] == '.' && name[1] == '.' {
        assert(name@ =~= seq!['.', '.']);
        return None;
    }
    if name.len() == 1 {
        assert(name@ != seq!['.']);
    }
    if name.len() != 2 {
        assert(name@ != seq!['.', '.']);
    } else {
        assert(!(name@[0] == '.' && name@[1] == '.'));
    }
    assert(file_name(filename@) == Some(name@));
    let mut d = name.len();
    assert(name@.take(name@.len() as int) =~= name@);
    while d > 0 && name[d - 1] != '.'
        invariant
            d <= name@.len(),
            last_index_of(name@, '.') == last_index_of(name@.take(d as int), '.'),
        decreases d,
    {
        assert(name@.take(d as int).drop_last() =~= name@.take(d - 1));
        d = d - 1;
    }
    if d <= 1 {
        if d == 1 {
            assert(name@.take(1).last() == '.');
        }
        return None;
    }
    assert(name@.take(d as int).last() == '.');
    Some(crate::text::copy_range(name.as_slice(), d, name.len()))
}

/// The extension an attachment is saved with.
pub fn resource_extension(filename: &str, mime: &str) -> (r: String)
    ensures
        r@ == resource_ext_spec(filename@, mime@),
{
    let fc = crate::text::chars_of(filename);
    match name_extension(fc.as_slice()) {
        Some(e) => {
            let l = crate::text::to_lowercase(crate::text::string_of(e.as_slice()).as_str());
            let lc = crate::text::chars_of(l.as_str());
            let mut plain = lc.len() <= 5;
            let mut i: usize = 0;
            while i < lc.len()
                invariant
                    i <= lc@.len(),
                    plain == (lc@.len() <= 5 && forall|j: int| 0 <= j < i ==> is_ascii_alnum(#[trigger] lc@[j])),
                decreases lc@.len() - i,
            {
                let u = lc[i] as u32;
                if !((0x30 <= u && u <= 0x39) || (0x41 <= u && u <= 0x5A) || (0x61 <= u && u <= 0x7A)) {
                    plain = false;
                }
                i = i + 1;
            }
            if plain {
                return l;
            }
        },
        None => {},
    }
    let mc = crate::text::chars_of(mime);
    let prefix = crate::text::chars_of("image/");
    proof {
        reveal_strlit("image/");
    }
    if crate::text::starts_with(mc.as_slice(), prefix.as_slice()) {
        let rest = crate::text::copy_range(mc.as_slice(), 6, mc.len());
        assert(rest@ =~= mime@.skip(6));
        let jpeg = crate::text::chars_of("jpeg");
        let jpg = crate::text::chars_of("jpg");
        proof {
            reveal_strlit("jpeg");
        }
        crate::text::string_of(crate::text::replace_chars(rest.as_slice(), jpeg.as_slice(), jpg.as_slice()).as_slice())
    } else {
        proof {
            reveal_strlit("image/");
        }
        String::new()
    }
}

/// A new attachment item with a new id, now, and the extension it is saved
/// with.
pub fn new_resource(size: usize, mime: &str, filename: &str) -> (r: (RawItem, String))
    ensures
        r.1@ == resource_ext_spec(filename@, mime@),
        exists|id: Seq<char>, now: i64| crate::stamp::is_new_id(id) && r.0@ == (ItemView {
            title: Some(filename@),
            body: None,
            props: #[trigger] resource_props(id, mime@, filename@, r.1@, size as nat, now),
        }),
{
    let id = crate::stamp::new_id();
    let ext = resource_extension(filename, mime);
    let now = crate::stamp::now_ms();
    let it = resource_item(id.as_str(), mime, filename, ext.as_str(), size, now);
    let r = (it, ext);
    assert(r.0@ == (ItemView {
        title: Some(filename@),
        body: None,
        props: resource_props(id@, mime@, filename@, r.1@, size as nat, now),
    }));
    r
}

// ---------------------------------------------------------------------------
// The folder tree as a list
// ---------------------------------------------------------------------------

/// The folders under `parent`, depth first: from the folder at index `j` on,
/// each child of `parent` with its `depth` followed by its own subtree one
/// level deeper. `fuel` bounds how deep the walk goes.
pub open spec fn outline_from(all: Seq<Folder>, parent: Seq<char>, depth: nat, fuel: nat, j: int) -> Seq<(int, nat)>
    decreases fuel, all.len() - j,
{
    if fuel == 0 || j < 0 || j >= all.len() {
        Seq::empty()
    } else {
        (if all[j].parent_id@ == parent {
            seq![(j, depth)] + outline_from(all, all[j].id@, depth + 1, (fuel - 1) as nat, 0)
        } else {
            Seq::empty()
        }) + outline_from(all, parent, depth, fuel, j + 1)
    }
}

/// Index of the first folder with id `id`.
pub open spec fn folder_index(all: Seq<Folder>, id: Seq<char>) -> Option<int>
    decreases all.len(),
{
    if all.len() == 0 {
        None
    } else if all.last().id@ == id && folder_index(all.drop_last(), id) is None {
        Some(all.len() - 1)
    } else {
        folder_index(all.drop_last(), id)
    }
}

/// The folder tree as the app and the command line list it: for the whole
/// of Joplin every top-level folder and its subtree; otherwise the working
/// notebook `root_id` at depth 0 and its subtree, or nothing when it is
/// unknown. Each entry is an index into `all` and a depth. A parent chain
/// longer than the number of folders can only come from a cycle; the walk
/// stops there.
pub open spec fn outline_spec(all: Seq<Folder>, root_id: Seq<char>, whole: bool) -> Seq<(int, nat)> {
    let fuel = all.len() + 1;
    if whole {
        outline_from(all, Seq::empty(), 0, fuel, 0)
    } else {
        match folder_index(all, root_id) {
            Some(r) => seq![(r, 0nat)] + outline_from(all, all[r].id@, 1, fuel, 0),
            None => Seq::empty(),
        }
    }
}

/// Appends the folders under `parent`, from index `j` on, depth first.
fn outline_walk(all: &Vec<Folder>, parent: &str, depth: usize, fuel: usize, j: usize, out: &mut Vec<(usize, usize)>)
    requires
        j <= all@.len(),
        depth + fuel <= usize::MAX,
    ensures
        final(out)@.len() == old(out)@.len() + outline_from(all@, parent@, depth as nat, fuel as nat, j as int).len(),
        forall|k: int| 0 <= k < old(out)@.len() ==> #[trigger] final(out)@[k] == old(out)@[k],
        forall|k: int| 0 <= k < outline_from(all@, parent@, depth as nat, fuel as nat, j as int).len() ==> (
            final(out)@[old(out)@.len() + k].0 as int, final(out)@[old(out)@.len() + k].1 as nat) == #[trigger] outline_from(
            all@,
            parent@,
            depth as nat,
            fuel as nat,
            j as int,
        )[k],
    decreases fuel, all@.len() - j,
{
    if fuel == 0 || j >= all.len() {
        return;
    }
    let ghost o0 = out@;
    let pc = crate::text::chars_of(parent);
    let f = &all[j];
    if crate::text::eq_chars(crate::text::chars_of(f.parent_id.as_str()).as_slice(), pc.as_slice()) {
        out.push((j, depth));
        outline_walk(all, f.id.as_str(), depth + 1, fuel - 1, 0, out);
    }
    let ghost o1 = out@;
    outline_walk(all, parent, depth, fuel, j + 1, out);
    proof {
        let sub = outline_from(all@, all@[j as int].id@, depth as nat + 1, (fuel - 1) as nat, 0);
        let head = if all@[j as int].parent_id@ == parent@ {
            seq![(j as int, depth as nat)] + sub
        } else {
            Seq::empty()
        };
        let tail = outline_from(all@, parent@, depth as nat, fuel as nat, j as int + 1);
        let o = outline_from(all@, parent@, depth as nat, fuel as nat, j as int);
        assert(o == head + tail);
        assert(o1.len() == o0.len() + head.len());
        assert forall|k: int| 0 <= k < head.len() implies (o1[o0.len() + k].0 as int, o1[o0.len() + k].1 as nat) == #[trigger] head[k] by {
            if k > 0 {
                assert(head[k] == sub[k - 1]);
            }
        }
        assert forall|k: int| 0 <= k < o.len() implies (out@[o0.len() + k].0 as int, out@[o0.len() + k].1 as nat) == #[trigger] o[k] by {
            if k < head.len() {
                assert(out@[o0.len() + k] == o1[o0.len() + k]);
                assert(o[k] == head[k]);
            } else {
                assert(o[k] == tail[k - head.len()]);
                assert(out@[o0.len() + k] == out@[o1.len() + (k - head.len())]);
            }
        }
    }
}

/// The first folder with id `id`.
fn find_index(all: &Vec<Folder>, id: &str) -> (r: Option<usize>)
    ensures
        match folder_index(all@, id@) {
            Some(i) => r == Some(i as usize),
            None => r is None,
        },
{
    let idc = crate::text::chars_of(id);
    let mut i: usize = 0;
    while i < all.len()
        invariant
            i <= all@.len(),
            idc@ == id@,
            folder_index(all@.take(i as int), id@) is None,
        decreases all@.len() - i,
    {
        let hit = crate::text::eq_chars(crate::text::chars_of(all[i].id.as_str()).as_slice(), idc.as_slice());
        assert(all@.take(i as int + 1).drop_last() =~= all@.take(i as int));
        if hit {
            proof {
                lemma_folder_index_prefix(all@, id@, i as int + 1);
            }
            return Some(i);
        }
        i = i + 1;
    }
    proof {
        assert(all@.take(all@.len() as int) =~= all@);
    }
    None
}

/// Where the first folder with id `id` is.
proof fn lemma_folder_index(all: Seq<Folder>, id: Seq<char>)
    ensures
        folder_index(all, id) matches Some(i) ==> 0 <= i < all.len() && all[i].id@ == id,
    decreases all.len(),
{
    if all.len() > 0 {
        lemma_folder_index(all.drop_last(), id);
    }
}

/// A folder found in a prefix is found at the same place in the whole list.
proof fn lemma_folder_index_prefix(all: Seq<Folder>, id: Seq<char>, n: int)
    requires
        0 <= n <= all.len(),
        folder_index(all.take(n), id) is Some,
    ensures
        folder_index(all, id) == folder_index(all.take(n), id),
    decreases all.len() - n,
{
    if n < all.len() {
        assert(all.take(n + 1).drop_last() =~= all.take(n));
        lemma_folder_index_prefix(all, id, n + 1);
    } else {
        assert(all.take(n) =~= all);
    }
}

/// The folder tree as a list of indices into `all` and depths.
pub fn folder_outline(all: &Vec<Folder>, root_id: &str, whole: bool) -> (r: Vec<(usize, usize)>)
    requires
        all@.len() < usize::MAX - 1,
    ensures
        r@.len() == outline_spec(all@, root_id@, whole).len(),
        forall|k: int| 0 <= k < r@.len() ==> (r@[k].0 as int, r@[k].1 as nat) == #[trigger] outline_spec(all@, root_id@, whole)[k],
{
    let mut out: Vec<(usize, usize)> = Vec::new();
    let fuel = all.len() + 1;
    if whole {
        outline_walk(all, "", 0, fuel, 0, &mut out);
        proof {
            reveal_strlit("");
            assert(""@ =~= Seq::<char>::empty());
        }
    } else {
        proof {
            lemma_folder_index(all@, root_id@);
        }
        match find_index(all, root_id) {
            Some(r) => {
                out.push((r, 0));
                outline_walk(all, all[r].id.as_str(), 1, fuel, 0, &mut out);
                proof {
                    let sub = outline_from(all@, all@[r as int].id@, 1, fuel as nat, 0);
                    let o = seq![(r as int, 0nat)] + sub;
                    assert forall|k: int| 0 <= k < o.len() implies (out@[k].0 as int, out@[k].1 as nat) == #[trigger] o[k] by {
                        if k > 0 {
                            assert(o[k] == sub[k - 1]);
                        }
                    }
                }
            },
            None => {},
        }
    }
    out
}

// ---------------------------------------------------------------------------
// Notes named by an id prefix
// ---------------------------------------------------------------------------

/// Whether `id` starts with `key`.
pub open spec fn has_prefix(id: Seq<char>, key: Seq<char>) -> bool {
    key.len() <= id.len() && id.take(key.len() as int) == key
}

/// The ids among `ids` that start with `key`, in order.
pub open spec fn prefix_hits(ids: Seq<Seq<char>>, key: Seq<char>) -> Seq<Seq<char>> {
    ids.filter(|x: Seq<char>| has_prefix(x, key))
}

/// How an id prefix names a note.
#[derive(Debug, Clone)]
pub enum IdMatch {
    /// Exactly one note's id starts with it.
    Unique(String),
    /// No note's id starts with it.
    Missing,
    /// This many notes' ids start with it.
    Ambiguous(usize),
}

/// The note that `key` names among the notes `notes`: the one whose id
/// starts with it, when there is exactly one.
pub fn note_by_prefix(notes: &Vec<NoteSummary>, key: &str) -> (r: IdMatch)
    ensures
        ({
            let h = prefix_hits(notes@.map_values(|n: NoteSummary| n.id@), key@);
            &&& h.len() == 0 ==> r is Missing
            &&& h.len() == 1 ==> (r matches IdMatch::Unique(id) && id@ == h[0])
            &&& h.len() > 1 ==> (r matches IdMatch::Ambiguous(n) && n == h.len())
        }),
{
    let ghost ids = notes@.map_values(|n: NoteSummary| n.id@);
    let kc = crate::text::chars_of(key);
    let mut count: usize = 0;
    let mut first: Option<String> = None;
    let mut i: usize = 0;
    while i < notes.len()
        invariant
            i <= notes@.len(),
            ids == notes@.map_values(|n: NoteSummary| n.id@),
            kc@ == key@,
            count == prefix_hits(ids.take(i as int), key@).len(),
            count <= i,
            count == 0 <==> first is None,
            first matches Some(f) ==> f@ == prefix_hits(ids.take(i as int), key@)[0],
        decreases notes@.len() - i,
    {
        let id = crate::text::chars_of(notes[i].id.as_str());
        let hit = crate::text::starts_with(id.as_slice(), kc.as_slice());
        assert(ids.take(i as int + 1).drop_last() =~= ids.take(i as int));
        assert(ids.take(i as int + 1).last() == ids[i as int]);
        assert(ids[i as int] == notes@[i as int].id@);
        assert(prefix_hits(ids.take(i as int + 1), key@) == if has_prefix(ids[i as int], key@) {
            prefix_hits(ids.take(i as int), key@).push(ids[i as int])
        } else {
            prefix_hits(ids.take(i as int), key@)
        }) by {
            reveal(Seq::filter);
        }
        if hit {
            if count == 0 {
                first = Some(crate::text::string_of(id.as_slice()));
            }
            count = count + 1;
        }
        i = i + 1;
    }
    assert(ids.take(notes@.len() as int) =~= ids);
    if count == 0 {
        IdMatch::Missing
    } else if count == 1 {
        match first {
            Some(f) => IdMatch::Unique(f),
            None => IdMatch::Missing,
        }
    } else {
        IdMatch::Ambiguous(count)
    }
}

/// Whether moving a folder under `parent` would put it inside itself:
/// `subtree` lists the folder and every folder under it.
pub fn moves_into_itself(subtree: &Vec<String>, parent: &str) -> (r: bool)
    ensures
        r == exists|i: int| 0 <= i < subtree@.len() && (#[trigger] subtree@[i])@ == parent@,
{
    let pc = crate::text::chars_of(parent);
    let mut i: usize = 0;
    while i < subtree.len()
        invariant
            i <= subtree@.len(),
            pc@ == parent@,
            forall|j: int| 0 <= j < i ==> (#[trigger] subtree@[j])@ != parent@,
        decreases subtree@.len() - i,
    {
        if crate::text::eq_chars(crate::text::chars_of(subtree[i].as_str()).as_slice(), pc.as_slice()) {
            return true;
        }
        i = i + 1;
    }
    false
}

} // verus!
