//! What synchronisation with Joplin Server decides: the state `info.json`
//! gives (E2EE, the active master key), unlocking master keys, reading and
//! decrypting remote items, writing items for upload, conflict copies, and
//! what to do with each change the server reports.
use indexmap::IndexMap;
use vstd::prelude::*;
use vstd::string::StringSliceAdditionalSpecFns;

use crate::api::DeltaItem;
use crate::e2ee::{decrypt_string_spec, KeyRing, MasterKey, master_key_spec};
use crate::error::{kind, ErrKind, Error, Result};
use crate::item::{int_or_zero, is_encrypted_spec, parse_spec, prop_value, time_value, ItemView, RawItem, TYPE_NOTE, TYPE_RESOURCE};
use crate::props::{insert_entry, key_index, lookup};

verus! {

/// The sync target version Omanote speaks.
pub const SUPPORTED_SYNC_VERSION: i64 = 3;

/// A value of `info.json` with the time it was last changed.
#[derive(Debug, Clone, Default)]
pub struct TimedValue<T> {
    pub value: T,
    pub updated_time: i64,
}

/// What Omanote reads of Joplin's `info.json`.
#[derive(Debug, Clone)]
pub struct SyncInfo {
    pub version: i64,
    pub e2ee: Option<TimedValue<bool>>,
    pub active_master_key_id: Option<TimedValue<String>>,
    pub master_keys: Vec<MasterKey>,
    pub app_min_version: Option<String>,
}

impl Default for SyncInfo {
    fn default() -> (r: Self)
        ensures
            r.version == 0,
            r.e2ee is None,
            r.active_master_key_id is None,
            r.master_keys@.len() == 0,
            r.app_min_version is None,
    {
        SyncInfo { version: 0, e2ee: None, active_master_key_id: None, master_keys: Vec::new(), app_min_version: None }
    }
}

/// Whether some master key has id `id`.
pub open spec fn has_master_key(keys: Seq<MasterKey>, id: Seq<char>) -> bool {
    exists|i: int| 0 <= i < keys.len() && (#[trigger] keys[i]).id@ == id
}

impl SyncInfo {
    /// Whether end-to-end encryption is on (off when not said).
    pub open spec fn e2ee_spec(&self) -> bool {
        match self.e2ee {
            Some(v) => v.value,
            None => false,
        }
    }

    /// The active master key id, when it is set and one of the master keys.
    pub open spec fn active_key_spec(&self) -> Option<Seq<char>> {
        match self.active_master_key_id {
            Some(v) => if v.value@.len() > 0 && has_master_key(self.master_keys@, v.value@) {
                Some(v.value@)
            } else {
                None
            },
            None => None,
        }
    }

    pub fn e2ee_enabled(&self) -> (r: bool)
        ensures
            r == self.e2ee_spec(),
    {
        match &self.e2ee {
            Some(v) => v.value,
            None => false,
        }
    }

    pub fn active_key_id(&self) -> (r: Option<&str>)
        ensures
            match self.active_key_spec() {
                Some(id) => r matches Some(s) && s@ == id,
                None => r is None,
            },
    {
        match &self.active_master_key_id {
            Some(v) => {
                let id = v.value.as_str();
                if id.is_empty() || !has_key_id(&self.master_keys, id) {
                    None
                } else {
                    Some(id)
                }
            },
            None => None,
        }
    }
}

/// Whether some master key has id `id`.
fn has_key_id(keys: &Vec<MasterKey>, id: &str) -> (r: bool)
    ensures
        r == has_master_key(keys@, id@),
{
    let idc = crate::text::chars_of(id);
    let mut i: usize = 0;
    while i < keys.len()
        invariant
            i <= keys@.len(),
            idc@ == id@,
            forall|j: int| 0 <= j < i ==> (#[trigger] keys@[j]).id@ != id@,
        decreases keys@.len() - i,
    {
        let mc = crate::text::chars_of(keys[i].id.as_str());
        if crate::text::eq_chars(mc.as_slice(), idc.as_slice()) {
            assert(keys@[i as int].id@ == id@);
            return true;
        }
        i = i + 1;
    }
    false
}

/// What a synchronisation did.
#[derive(Debug, Clone)]
pub struct SyncReport {
    pub uploaded: usize,
    pub downloaded: usize,
    pub deleted_local: usize,
    pub deleted_remote: usize,
    pub conflicts: usize,
    pub still_encrypted: usize,
    /// E2EE is on but the master password is missing or wrong.
    pub needs_password: bool,
    pub errors: Vec<String>,
}

impl Default for SyncReport {
    fn default() -> (r: Self)
        ensures
            r.uploaded == 0 && r.downloaded == 0 && r.deleted_local == 0 && r.deleted_remote == 0
                && r.conflicts == 0 && r.still_encrypted == 0 && !r.needs_password && r.errors@.len() == 0,
    {
        SyncReport {
            uploaded: 0,
            downloaded: 0,
            deleted_local: 0,
            deleted_remote: 0,
            conflicts: 0,
            still_encrypted: 0,
            needs_password: false,
            errors: Vec::new(),
        }
    }
}

pub open spec fn is_hex_digit(c: char) -> bool {
    (0x30 <= c as u32 <= 0x39) || (0x61 <= c as u32 <= 0x66) || (0x41 <= c as u32 <= 0x46)
}

/// The id of a sync file `<id>.md`: 32 hexadecimal digits.
pub open spec fn item_path_spec(name: Seq<char>) -> Option<Seq<char>> {
    if name.len() >= 3 && name.skip(name.len() - 3) == ".md"@ {
        let id = name.take(name.len() - 3);
        if id.len() == 32 && forall|i: int| 0 <= i < id.len() ==> is_hex_digit(#[trigger] id[i]) {
            Some(id)
        } else {
            None
        }
    } else {
        None
    }
}

/// The item id a sync file name holds, if it is an item file.
pub fn is_item_path(name: &str) -> (r: Option<String>)
    ensures
        crate::item::opt_view(r) == item_path_spec(name@),
{
    let cs = crate::text::chars_of(name);
    let n = cs.len();
    let md = crate::text::chars_of(".md");
    proof {
        reveal_strlit(".md");
    }
    if n < 3 || cs[n - 3] != '.' || cs[n - 2] != 'm' || cs[n - 1] != 'd' {
        if n >= 3 {
            assert(name@.skip(n - 3)[0] == cs@[n - 3]);
            assert(name@.skip(n - 3)[1] == cs@[n - 2]);
            assert(name@.skip(n - 3)[2] == cs@[n - 1]);
        }
        return None;
    }
    assert(name@.skip(n - 3) =~= ".md"@);
    if n - 3 != 32 {
        return None;
    }
    let mut i: usize = 0;
    while i < 32
        invariant
            i <= 32,
            n == 35,
            cs@ == name@,
            cs@.len() == n,
            forall|j: int| 0 <= j < i ==> is_hex_digit(#[trigger] cs@[j]),
        decreases 32 - i,
    {
        let u = cs[i] as u32;
        if !((0x30 <= u && u <= 0x39) || (0x61 <= u && u <= 0x66) || (0x41 <= u && u <= 0x46)) {
            assert(!is_hex_digit(name@.take(32)[i as int]));
            return None;
        }
        i = i + 1;
    }
    let id = crate::text::copy_range(cs.as_slice(), 0, 32);
    assert(id@ =~= name@.take(32));
    Some(crate::text::string_of(id.as_slice()))
}

// ---------------------------------------------------------------------------
// Master keys
// ---------------------------------------------------------------------------

/// The keys and the count after trying each master key with the password in
/// turn: a key already held counts; one that decrypts is added and counts.
pub open spec fn unlock_spec(
    ring: Seq<(Seq<char>, Seq<char>)>,
    mks: Seq<MasterKey>,
    password: Seq<u8>,
) -> (Seq<(Seq<char>, Seq<char>)>, nat)
    decreases mks.len(),
{
    if mks.len() == 0 {
        (ring, 0)
    } else {
        let (r0, n0) = unlock_spec(ring, mks.drop_last(), password);
        let mk = mks.last();
        if key_index(r0, mk.id@) is Some {
            (r0, n0 + 1)
        } else {
            match master_key_spec(mk.encryption_method, vstd::utf8::encode_utf8(mk.content@), password) {
                Ok(plain) => (insert_entry(r0, mk.id@, plain), n0 + 1),
                Err(_) => (r0, n0),
            }
        }
    }
}

proof fn lemma_unlock_count(ring: Seq<(Seq<char>, Seq<char>)>, mks: Seq<MasterKey>, password: Seq<u8>)
    ensures
        unlock_spec(ring, mks, password).1 <= mks.len(),
    decreases mks.len(),
{
    if mks.len() > 0 {
        lemma_unlock_count(ring, mks.drop_last(), password);
    }
}

/// Decrypts every master key with `password` into the key ring, then makes
/// the active key of `info.json` the ring's active key when the ring holds
/// it; returns how many keys the ring holds of those listed.
pub fn unlock_keys(info: &SyncInfo, password: &str, keys: &mut KeyRing) -> (r: usize)
    ensures
        (final(keys).entries(), r as nat) == unlock_spec(
            old(keys).entries(),
            info.master_keys@,
            password.spec_bytes(),
        ),
        final(keys).active() == (match info.active_key_spec() {
            Some(id) => if key_index(final(keys).entries(), id) is Some {
                Some(id)
            } else {
                None
            },
            None => None,
        }),
{
    let mut ok: usize = 0;
    let mut i: usize = 0;
    while i < info.master_keys.len()
        invariant
            i <= info.master_keys@.len(),
            (keys.entries(), ok as nat) == unlock_spec(old(keys).entries(), info.master_keys@.take(i as int), password.spec_bytes()),
        decreases info.master_keys@.len() - i,
    {
        let mk = &info.master_keys[i];
        let ghost before = info.master_keys@.take(i as int);
        proof {
            assert(info.master_keys@.take(i + 1).drop_last() =~= before);
            assert(info.master_keys@.take(i + 1).last() == *mk);
            lemma_unlock_count(old(keys).entries(), before, password.spec_bytes());
        }
        if keys.has(mk.id.as_str()) {
            ok = ok + 1;
        } else {
            match crate::e2ee::decrypt_master_key(mk, password) {
                Ok(plain) => {
                    keys.insert(mk.id.as_str(), plain);
                    ok = ok + 1;
                },
                Err(_) => {},
            }
        }
        i = i + 1;
    }
    assert(info.master_keys@.take(info.master_keys@.len() as int) =~= info.master_keys@);
    let active = match info.active_key_id() {
        Some(id) => if keys.has(id) {
            Some(id.to_owned())
        } else {
            None
        },
        None => None,
    };
    keys.set_active(active);
    ok
}

// ---------------------------------------------------------------------------
// Remote items
// ---------------------------------------------------------------------------

/// An item decrypted from an envelope: the envelope's `updated_time` is
/// authoritative, and the item no longer says it is encrypted.
pub open spec fn opened(plain: ItemView, envelope: ItemView) -> ItemView {
    ItemView {
        props: insert_entry(
            insert_entry(
                insert_entry(plain.props, "updated_time"@, prop_value(envelope.props, "updated_time"@)),
                "encryption_cipher_text"@,
                Seq::empty(),
            ),
            "encryption_applied"@,
            "0"@,
        ),
        ..plain
    }
}

/// The cipher text of an envelope.
pub open spec fn cipher_of(envelope: ItemView) -> Seq<u8> {
    vstd::utf8::encode_utf8(prop_value(envelope.props, "encryption_cipher_text"@))
}

/// Whether reading a remote item would slice an encryption header inside a
/// character.
pub open spec fn remote_panics(content: Seq<char>) -> bool {
    parse_spec(content) matches Some(env) && is_encrypted_spec(env.props) && crate::e2ee::header_panics(cipher_of(env))
}

/// What reading a remote item gives: the item and whether it is still
/// encrypted (its key is not loaded), or the error.
pub open spec fn open_remote_spec(entries: Seq<(Seq<char>, Seq<char>)>, content: Seq<char>) -> core::result::Result<(ItemView, bool), ErrKind> {
    match parse_spec(content) {
        None => Err(ErrKind::Format),
        Some(env) => if !is_encrypted_spec(env.props) {
            Ok((env, false))
        } else {
            match decrypt_string_spec(entries, cipher_of(env)) {
                Ok(plain) => match parse_spec(plain) {
                    Some(v) => Ok((opened(v, env), false)),
                    None => Err(ErrKind::Format),
                },
                Err(ErrKind::MasterKeyNotLoaded) => Ok((env, true)),
                Err(k) => Err(k),
            }
        },
    }
}

/// Reads a remote item and, when its key is loaded, decrypts it.
pub fn open_remote(keys: &KeyRing, content: &str) -> (r: Result<(RawItem, bool)>)
    requires
        !remote_panics(content@),
    ensures
        match open_remote_spec(keys.entries(), content@) {
            Ok((v, enc)) => r matches Ok(p) && p.0@ == v && p.1 == enc,
            Err(k) => r matches Err(e) && kind(e) == k,
        },
{
    let envelope = RawItem::parse(content)?;
    if !envelope.is_encrypted() {
        return Ok((envelope, false));
    }
    let ghost env = envelope@;
    let ct = envelope.get("encryption_cipher_text");
    assert(ct.spec_bytes() == cipher_of(env));
    match keys.decrypt_string(ct) {
        Ok(plain) => {
            assert(decrypt_string_spec(keys.entries(), cipher_of(env)) == Ok::<Seq<char>, ErrKind>(plain@));
            let mut it = RawItem::parse(plain.as_str())?;
            let ghost pv = it@;
            it.set("updated_time", envelope.get("updated_time"));
            proof {
                reveal_strlit("");
                assert(""@ =~= Seq::<char>::empty());
            }
            it.set("encryption_cipher_text", "");
            it.set("encryption_applied", "0");
            assert(it@ == opened(pv, env));
            return Ok((it, false));
        },
        Err(Error::MasterKeyNotLoaded(m)) => {
            assert(decrypt_string_spec(keys.entries(), cipher_of(env)) == Err::<Seq<char>, ErrKind>(ErrKind::MasterKeyNotLoaded));
            Ok((envelope, true))
        },
        Err(e) => Err(e),
    }
}

/// Whether opening a remote item would panic in the header of its cipher
/// text; the caller stops there as the decryption would.
pub fn remote_would_panic(content: &str) -> (r: bool)
    ensures
        r == remote_panics(content@),
{
    match RawItem::parse(content) {
        Ok(env) => env.is_encrypted() && crate::e2ee::header_panics_at(env.get("encryption_cipher_text")),
        Err(_) => false,
    }
}

// ---------------------------------------------------------------------------
// Upload
// ---------------------------------------------------------------------------

/// Whether the key ring can encrypt with its active key (its id fits the
/// header's length field).
pub open spec fn active_id_fits(keys: KeyRing) -> bool {
    keys.active() matches Some(id) ==> vstd::utf8::encode_utf8(id).len() + 2 <= usize::MAX
}

/// What the upload text of an item is, given whether end-to-end encryption
/// is on: the item's text, or the text of its envelope around a StringV1
/// encryption of that text with the active key.
pub open spec fn item_text_ok(keys: KeyRing, e2ee: bool, it: ItemView, r: Result<String>) -> bool {
    &&& !e2ee ==> (r matches Ok(s) && s@ == crate::item::serialize_spec(it))
    &&& e2ee ==> match crate::e2ee::encrypt_outcome(keys.entries(), keys.active()) {
        None => r matches Err(e) && kind(e) == ErrKind::MasterKeyNotLoaded,
        Some((id, key)) => r matches Ok(s) && exists|ct: Seq<char>|
            #[trigger] crate::e2ee::sealed_text(
                crate::e2ee::METHOD_STRING_V1,
                id,
                key,
                crate::utf16::le_of_units(crate::utf16::encode_utf16(crate::item::serialize_spec(it))),
                2 * crate::e2ee::STRING_V1_CHUNK,
                ct,
            ) && s@ == crate::item::serialize_spec(crate::item::envelope_spec(it, ct)),
    }
}

/// Writes an item for upload, end-to-end encryption being on or off.
pub fn item_text(keys: &KeyRing, e2ee: bool, it: &RawItem) -> (r: Result<String>)
    requires
        active_id_fits(*keys),
    ensures
        item_text_ok(*keys, e2ee, it@, r),
{
    if !e2ee {
        return Ok(it.serialize());
    }
    let text = it.serialize();
    let cipher = keys.encrypt_string(text.as_str())?;
    let ghost ct = cipher@;
    let env = it.encrypted_envelope(cipher);
    let r = env.serialize();
    proof {
        let (id, key) = crate::e2ee::encrypt_outcome(keys.entries(), keys.active())->Some_0;
        assert(crate::e2ee::sealed_text(
            crate::e2ee::METHOD_STRING_V1,
            id,
            key,
            crate::utf16::le_of_units(crate::utf16::encode_utf16(crate::item::serialize_spec(it@))),
            2 * crate::e2ee::STRING_V1_CHUNK,
            ct,
        ));
    }
    Ok(r)
}

/// Writes an item for upload: as it is, or under E2EE as the envelope of its
/// encrypted text.
pub fn serialize_for_sync(keys: &KeyRing, info: &SyncInfo, it: &RawItem) -> (r: Result<String>)
    requires
        active_id_fits(*keys),
    ensures
        item_text_ok(*keys, info.e2ee_spec(), it@, r),
{
    item_text(keys, info.e2ee_enabled(), it)
}

/// The conflict copy of a note edited here while it changed on the server:
/// the same item under a new id, flagged as a conflict of the original and
/// updated at `now`.
pub open spec fn conflict_copy_spec(local: ItemView, id: Seq<char>, now: i64) -> ItemView {
    ItemView {
        props: insert_entry(
            insert_entry(
                insert_entry(insert_entry(local.props, "id"@, id), "is_conflict"@, "1"@),
                "conflict_original_id"@,
                prop_value(local.props, "id"@),
            ),
            "updated_time"@,
            crate::item::time_text(now),
        ),
        ..local
    }
}

/// The conflict copy of `local` with id `id`, at `now`.
pub fn conflict_copy_at(local: &RawItem, id: &str, now: i64) -> (r: RawItem)
    ensures
        r@ == conflict_copy_spec(local@, id@, now),
{
    let mut copy = local.clone();
    copy.set("id", id);
    copy.set("is_conflict", "1");
    copy.set("conflict_original_id", local.id());
    copy.set_time("updated_time", now);
    copy
}

/// The conflict copy of `local`, with a new id, now.
pub fn conflict_copy(local: &RawItem) -> (r: RawItem)
    ensures
        exists|id: Seq<char>, now: i64| crate::stamp::is_new_id(id) && r@ == #[trigger] conflict_copy_spec(local@, id, now),
{
    let id = crate::stamp::new_id();
    let now = crate::stamp::now_ms();
    conflict_copy_at(local, id.as_str(), now)
}

/// What to do with an item edited here.
#[derive(Debug, Clone, Copy, PartialEq, Eq, Structural)]
pub enum UploadStep {
    /// The server's copy changed since the last sync: keep it, and for a note
    /// upload a conflict copy of the local version first.
    Conflict { copy_note: bool },
    /// A new attachment: its file goes up first, then the item.
    BlobThenItem,
    /// Upload the item.
    Item,
}

/// The step for an edited item, given the server's copy if there is one.
pub open spec fn upload_step_spec(local: ItemView, sync_time: i64, remote: Option<ItemView>) -> UploadStep {
    let conflict = match remote {
        Some(r) => time_value(prop_value(r.props, "updated_time"@)) > sync_time,
        None => false,
    };
    let ty = int_or_zero(prop_value(local.props, "type_"@));
    if conflict {
        UploadStep::Conflict { copy_note: ty == TYPE_NOTE }
    } else if ty == TYPE_RESOURCE && sync_time == 0 {
        UploadStep::BlobThenItem
    } else {
        UploadStep::Item
    }
}

pub open spec fn opt_item(o: Option<&RawItem>) -> Option<ItemView> {
    match o {
        Some(r) => Some(r@),
        None => None,
    }
}

/// What to do with an item edited here.
pub fn upload_step(d: &crate::store::DirtyItem, remote: Option<&RawItem>) -> (r: UploadStep)
    ensures
        r == upload_step_spec(d.raw@, d.sync_time, opt_item(remote)),
{
    let conflict = match remote {
        Some(rm) => rm.time("updated_time") > d.sync_time,
        None => false,
    };
    let ty = d.raw.item_type();
    if conflict {
        UploadStep::Conflict { copy_note: ty == TYPE_NOTE }
    } else if ty == TYPE_RESOURCE && d.sync_time == 0 {
        UploadStep::BlobThenItem
    } else {
        UploadStep::Item
    }
}

// ---------------------------------------------------------------------------
// Download
// ---------------------------------------------------------------------------

/// What to do with the last change of an item in a page of the delta.
#[derive(Debug, Clone, Copy, PartialEq, Eq, Structural)]
pub enum DeltaStep {
    /// Nothing: deleted remotely but edited here (it will be uploaded again),
    /// unknown here, or already at the server's time.
    Skip,
    /// Deleted remotely: delete it here too.
    RemoveLocal,
    /// Download it.
    Fetch,
}

/// The step for a change of type `change_type` (3: deletion) with the
/// server's time `jop_updated`, given the local time and dirtiness.
pub open spec fn delta_step_spec(change_type: i64, jop_updated: Option<i64>, local: Option<(i64, bool)>) -> DeltaStep {
    if change_type == 3 {
        match local {
            Some((_, false)) => DeltaStep::RemoveLocal,
            _ => DeltaStep::Skip,
        }
    } else {
        match (local, jop_updated) {
            (Some((lu, _)), Some(j)) => if lu == j {
                DeltaStep::Skip
            } else {
                DeltaStep::Fetch
            },
            _ => DeltaStep::Fetch,
        }
    }
}

pub fn delta_step(change_type: i64, jop_updated: Option<i64>, local: Option<(i64, bool)>) -> (r: DeltaStep)
    ensures
        r == delta_step_spec(change_type, jop_updated, local),
{
    if change_type == 3 {
        match local {
            Some((_, false)) => DeltaStep::RemoveLocal,
            _ => DeltaStep::Skip,
        }
    } else {
        match (local, jop_updated) {
            (Some((lu, _)), Some(j)) => if lu == j {
                DeltaStep::Skip
            } else {
                DeltaStep::Fetch
            },
            _ => DeltaStep::Fetch,
        }
    }
}

/// What to do with a downloaded item.
#[derive(Debug, Clone, Copy, PartialEq, Eq, Structural)]
pub enum FetchedStep {
    /// Not kept locally (its type), or not newer than the local copy.
    Ignore,
    /// Store the server's copy.
    Store,
    /// A note edited here changed remotely: keep a conflict copy of the local
    /// version, then store the server's copy.
    ConflictThenStore,
}

/// Whether items of type `ty` are kept locally.
pub open spec fn stored_type(ty: int) -> bool {
    ty == 1 || ty == 2 || ty == 4 || ty == 5 || ty == 6
}

pub open spec fn fetched_step_spec(remote: ItemView, local: Option<(ItemView, bool)>) -> FetchedStep {
    if !stored_type(int_or_zero(prop_value(remote.props, "type_"@))) {
        FetchedStep::Ignore
    } else {
        match local {
            None => FetchedStep::Store,
            Some((l, dirty)) => if time_value(prop_value(remote.props, "updated_time"@)) <= time_value(
                prop_value(l.props, "updated_time"@),
            ) {
                FetchedStep::Ignore
            } else if dirty && int_or_zero(prop_value(l.props, "type_"@)) == TYPE_NOTE {
                FetchedStep::ConflictThenStore
            } else {
                FetchedStep::Store
            },
        }
    }
}

pub open spec fn opt_local(o: Option<(&RawItem, bool)>) -> Option<(ItemView, bool)> {
    match o {
        Some((r, d)) => Some((r@, d)),
        None => None,
    }
}

/// The step for a downloaded item, given the local copy and whether it was
/// edited here.
pub fn fetched_step(remote: &RawItem, local: Option<(&RawItem, bool)>) -> (r: FetchedStep)
    ensures
        r == fetched_step_spec(remote@, opt_local(local)),
{
    let ty = remote.item_type();
    let mut stored = false;
    let mut i: usize = 0;
    while i < 5
        invariant
            i <= 5,
            stored == exists|j: int| 0 <= j < i && crate::store::STORED_TYPES@[j] == ty,
        decreases 5 - i,
    {
        if crate::store::STORED_TYPES[i] == ty {
            stored = true;
        }
        i = i + 1;
    }
    assert(stored == stored_type(ty as int)) by {
        assert(crate::store::STORED_TYPES@ =~= seq![1i64, 2, 4, 5, 6]);
        if stored_type(ty as int) {
            if ty == 1 { assert(crate::store::STORED_TYPES@[0] == ty); }
            if ty == 2 { assert(crate::store::STORED_TYPES@[1] == ty); }
            if ty == 4 { assert(crate::store::STORED_TYPES@[2] == ty); }
            if ty == 5 { assert(crate::store::STORED_TYPES@[3] == ty); }
            if ty == 6 { assert(crate::store::STORED_TYPES@[4] == ty); }
        }
    }
    if !stored {
        return FetchedStep::Ignore;
    }
    match local {
        None => FetchedStep::Store,
        Some((l, dirty)) => if remote.time("updated_time") <= l.time("updated_time") {
            FetchedStep::Ignore
        } else if dirty && l.item_type() == TYPE_NOTE {
            FetchedStep::ConflictThenStore
        } else {
            FetchedStep::Store
        },
    }
}

/// An item downloaded while its key was missing, decrypted now if it can be.
pub fn open_pending(keys: &KeyRing, envelope: &RawItem) -> (r: Option<RawItem>)
    requires
        !remote_panics(crate::item::serialize_spec(envelope@)),
    ensures
        match open_remote_spec(keys.entries(), crate::item::serialize_spec(envelope@)) {
            Ok((v, false)) => r matches Some(p) && p@ == v,
            _ => r is None,
        },
{
    match open_remote(keys, envelope.serialize().as_str()) {
        Ok((plain, false)) => Some(plain),
        _ => None,
    }
}

// ---------------------------------------------------------------------------
// A page of the delta, collapsed to the last change of each item
// ---------------------------------------------------------------------------

/// The entries of an `IndexMap<String, (i64, Option<i64>)>`, in order.
pub uninterp spec fn change_entries(m: IndexMap<String, (i64, Option<i64>)>) -> Seq<(Seq<char>, (i64, Option<i64>))>;

/// Index of the entry with key `k`.
pub open spec fn change_index(es: Seq<(Seq<char>, (i64, Option<i64>))>, k: Seq<char>) -> Option<int>
    decreases es.len(),
{
    if es.len() == 0 {
        None
    } else if es[0].0 == k {
        Some(0)
    } else {
        match change_index(es.drop_first(), k) {
            Some(i) => Some(i + 1),
            None => None,
        }
    }
}

/// The entries without the one of key `k`, the others in order.
pub open spec fn without_key(es: Seq<(Seq<char>, (i64, Option<i64>))>, k: Seq<char>) -> Seq<(Seq<char>, (i64, Option<i64>))> {
    match change_index(es, k) {
        Some(i) => es.remove(i),
        None => es,
    }
}

/// The entries with `k` set to `v`: in its place when present, last otherwise.
pub open spec fn put_change(es: Seq<(Seq<char>, (i64, Option<i64>))>, k: Seq<char>, v: (i64, Option<i64>)) -> Seq<(Seq<char>, (i64, Option<i64>))> {
    match change_index(es, k) {
        Some(i) => es.update(i, (k, v)),
        None => es.push((k, v)),
    }
}

/// `IndexMap::new`.
#[verifier::external_body]
fn changes_new() -> (m: IndexMap<String, (i64, Option<i64>)>)
    ensures
        change_entries(m) == Seq::<(Seq<char>, (i64, Option<i64>))>::empty(),
{
    IndexMap::new()
}

/// `IndexMap::shift_remove`: the entry of `k` goes, the others keep their order.
#[verifier::external_body]
fn changes_shift_remove(m: &mut IndexMap<String, (i64, Option<i64>)>, k: &str)
    ensures
        change_entries(*final(m)) == without_key(change_entries(*old(m)), k@),
{
    m.shift_remove(k);
}

/// `IndexMap::insert`: a new key goes last, a known one keeps its place.
#[verifier::external_body]
fn changes_insert(m: &mut IndexMap<String, (i64, Option<i64>)>, k: String, v: (i64, Option<i64>))
    ensures
        change_entries(*final(m)) == put_change(change_entries(*old(m)), k@, v),
{
    m.insert(k, v);
}

/// `IndexMap::iter`, each entry copied out.
#[verifier::external_body]
fn changes_list(m: &IndexMap<String, (i64, Option<i64>)>) -> (r: Vec<(String, (i64, Option<i64>))>)
    ensures
        r@.len() == change_entries(*m).len(),
        forall|i: int| 0 <= i < r@.len() ==> (#[trigger] r@[i]).0@ == change_entries(*m)[i].0 && r@[i].1 == change_entries(*m)[i].1,
{
    m.iter().map(|(k, v)| (k.clone(), *v)).collect()
}

/// The last change of each item of a page, in the order of those last
/// changes; other files are left out.
pub open spec fn latest_changes(items: Seq<DeltaItem>) -> Seq<(Seq<char>, (i64, Option<i64>))>
    decreases items.len(),
{
    if items.len() == 0 {
        Seq::empty()
    } else {
        let c = latest_changes(items.drop_last());
        let ch = items.last();
        match item_path_spec(ch.item_name@) {
            Some(id) => put_change(without_key(c, id), id, (ch.change_type, ch.jop_updated_time)),
            None => c,
        }
    }
}

/// The last change of each item of a page of the delta, with its type and
/// the server's time of the item.
pub fn latest_of_page(items: &Vec<DeltaItem>) -> (r: Vec<(String, (i64, Option<i64>))>)
    ensures
        r@.len() == latest_changes(items@).len(),
        forall|i: int| 0 <= i < r@.len() ==> (#[trigger] r@[i]).0@ == latest_changes(items@)[i].0 && r@[i].1 == latest_changes(items@)[i].1,
{
    let mut m = changes_new();
    let mut i: usize = 0;
    while i < items.len()
        invariant
            i <= items@.len(),
            change_entries(m) == latest_changes(items@.take(i as int)),
        decreases items@.len() - i,
    {
        let ch = &items[i];
        proof {
            assert(items@.take(i + 1).drop_last() =~= items@.take(i as int));
            assert(items@.take(i + 1).last() == *ch);
        }
        match is_item_path(ch.item_name.as_str()) {
            Some(id) => {
                changes_shift_remove(&mut m, id.as_str());
                changes_insert(&mut m, id, (ch.change_type, ch.jop_updated_time));
            },
            None => {},
        }
        i = i + 1;
    }
    assert(items@.take(items@.len() as int) =~= items@);
    changes_list(&m)
}

/// Where the entry of key `k` is, when there is one.
proof fn lemma_change_index(es: Seq<(Seq<char>, (i64, Option<i64>))>, k: Seq<char>)
    ensures
        match change_index(es, k) {
            Some(i) => 0 <= i < es.len() && es[i].0 == k,
            None => forall|j: int| 0 <= j < es.len() ==> es[j].0 != k,
        },
    decreases es.len(),
{
    if es.len() > 0 {
        lemma_change_index(es.drop_first(), k);
        if es[0].0 != k {
            match change_index(es.drop_first(), k) {
                Some(i) => {
                    assert(es[i + 1] == es.drop_first()[i]);
                },
                None => {
                    assert forall|j: int| 0 <= j < es.len() implies es[j].0 != k by {
                        if j > 0 {
                            assert(es[j] == es.drop_first()[j - 1]);
                        }
                    }
                },
            }
        }
    }
}

/// Whether no two entries have the same key.
pub open spec fn distinct_keys(es: Seq<(Seq<char>, (i64, Option<i64>))>) -> bool {
    forall|a: int, b: int| 0 <= a < b < es.len() ==> es[a].0 != es[b].0
}

/// Removing the entry of `id` from entries with distinct keys: what stays
/// comes from them, has distinct keys and no key `id`, and every entry of
/// another key stays.
proof fn lemma_without_key(c: Seq<(Seq<char>, (i64, Option<i64>))>, id: Seq<char>)
    requires
        distinct_keys(c),
    ensures
        distinct_keys(without_key(c, id)),
        forall|a: int| 0 <= a < without_key(c, id).len() ==> #[trigger] without_key(c, id)[a].0 != id,
        forall|a: int| 0 <= a < without_key(c, id).len() ==> exists|a2: int| 0 <= a2 < c.len() && #[trigger] without_key(c, id)[a] == c[a2],
        forall|a2: int| 0 <= a2 < c.len() && #[trigger] c[a2].0 != id ==> exists|a: int| 0 <= a < without_key(c, id).len() && without_key(c, id)[a] == c[a2],
{
    lemma_change_index(c, id);
    let w = without_key(c, id);
    match change_index(c, id) {
        Some(x) => {
            assert forall|a: int| 0 <= a < w.len() implies exists|a2: int| 0 <= a2 < c.len() && #[trigger] w[a] == c[a2] by {
                if a < x {
                    assert(w[a] == c[a]);
                } else {
                    assert(w[a] == c[a + 1]);
                }
            }
            assert forall|a: int| 0 <= a < w.len() implies #[trigger] w[a].0 != id by {
                if a < x {
                    assert(w[a] == c[a]);
                } else {
                    assert(w[a] == c[a + 1]);
                }
            }
            assert forall|a: int, b: int| 0 <= a < b < w.len() implies w[a].0 != w[b].0 by {
                let a2 = if a < x { a } else { a + 1 };
                let b2 = if b < x { b } else { b + 1 };
                assert(w[a] == c[a2] && w[b] == c[b2]);
            }
            assert forall|a2: int| 0 <= a2 < c.len() && #[trigger] c[a2].0 != id implies exists|a: int| 0 <= a < w.len() && w[a] == c[a2] by {
                if a2 < x {
                    assert(w[a2] == c[a2]);
                } else {
                    assert(a2 != x);
                    assert(w[a2 - 1] == c[a2]);
                }
            }
        },
        None => {
            assert forall|a: int| 0 <= a < w.len() implies exists|a2: int| 0 <= a2 < c.len() && #[trigger] w[a] == c[a2] by {
                assert(w[a] == c[a]);
            }
        },
    }
}

/// A page collapsed to its last changes holds each item once.
proof fn lemma_latest_distinct(items: Seq<DeltaItem>)
    ensures
        distinct_keys(latest_changes(items)),
    decreases items.len(),
{
    if items.len() > 0 {
        let c = latest_changes(items.drop_last());
        lemma_latest_distinct(items.drop_last());
        match item_path_spec(items.last().item_name@) {
            Some(id) => {
                lemma_without_key(c, id);
                let w = without_key(c, id);
                lemma_change_index(w, id);
                let r = latest_changes(items);
                assert(r == w.push((id, (items.last().change_type, items.last().jop_updated_time))));
                assert forall|a: int, b: int| 0 <= a < b < r.len() implies r[a].0 != r[b].0 by {
                    if b == w.len() {
                        assert(r[a] == w[a]);
                    } else {
                        assert(r[a] == w[a] && r[b] == w[b]);
                    }
                }
            },
            None => {
            },
        }
    }
}

/// Whether the item of a page at `i` is a change of item `id` after which
/// the page holds no other change of it.
pub open spec fn last_change_at(items: Seq<DeltaItem>, id: Seq<char>, i: int) -> bool {
    &&& 0 <= i < items.len()
    &&& item_path_spec(items[i].item_name@) == Some(id)
    &&& forall|j: int| i < j < items.len() ==> item_path_spec(#[trigger] items[j].item_name@) != Some(id)
}

/// Whether entry `e` is the last change of its item in the page, with the
/// type and time of that change.
pub open spec fn is_last_change(items: Seq<DeltaItem>, e: (Seq<char>, (i64, Option<i64>))) -> bool {
    exists|i: int| #[trigger] last_change_at(items, e.0, i) && e.1 == (items[i].change_type, items[i].jop_updated_time)
}

/// Whether some entry has key `id`.
pub open spec fn has_key(es: Seq<(Seq<char>, (i64, Option<i64>))>, id: Seq<char>) -> bool {
    exists|a: int| 0 <= a < es.len() && #[trigger] es[a].0 == id
}

/// A last change of a page stays the last one when a change of another
/// item, or a file that is no item, comes after it.
proof fn lemma_last_change_extend(items: Seq<DeltaItem>, e: (Seq<char>, (i64, Option<i64>)))
    requires
        items.len() > 0,
        is_last_change(items.drop_last(), e),
        item_path_spec(items.last().item_name@) != Some(e.0),
    ensures
        is_last_change(items, e),
{
    let d = items.drop_last();
    let n = items.len() - 1;
    let i = choose|i: int| #[trigger] last_change_at(d, e.0, i) && e.1 == (d[i].change_type, d[i].jop_updated_time);
    assert(items[i] == d[i]);
    assert forall|j: int| i < j < items.len() implies item_path_spec(#[trigger] items[j].item_name@) != Some(e.0) by {
        if j < n {
            assert(items[j] == d[j]);
            assert(item_path_spec(d[j].item_name@) != Some(e.0));
        } else {
            assert(items[j] == items.last());
        }
    }
    assert(last_change_at(items, e.0, i));
}

/// Each entry of a collapsed page has the type and time of the last change
/// of its item.
#[verifier::rlimit(30)]
proof fn lemma_latest_last(items: Seq<DeltaItem>)
    ensures
        forall|a: int| 0 <= a < latest_changes(items).len() ==> is_last_change(items, #[trigger] latest_changes(items)[a]),
    decreases items.len(),
{
    let r = latest_changes(items);
    if items.len() > 0 {
        let d = items.drop_last();
        let n = items.len() - 1;
        let c = latest_changes(d);
        lemma_latest_last(d);
        lemma_latest_distinct(d);
        let ch = items.last();
        let p = item_path_spec(ch.item_name@);
        match p {
            Some(id) => {
                lemma_without_key(c, id);
                let w = without_key(c, id);
                lemma_change_index(w, id);
                assert(r == w.push((id, (ch.change_type, ch.jop_updated_time))));
                assert forall|a: int| 0 <= a < r.len() implies is_last_change(items, #[trigger] r[a]) by {
                    if a == w.len() {
                        assert(items[n] == ch);
                        assert(r[a] == (id, (ch.change_type, ch.jop_updated_time)));
                        assert(last_change_at(items, r[a].0, n));
                        assert(r[a].1 == (items[n].change_type, items[n].jop_updated_time));
                    } else {
                        assert(r[a] == w[a]);
                        assert(w[a].0 != id);
                        let a2 = choose|a2: int| 0 <= a2 < c.len() && #[trigger] w[a] == c[a2];
                        assert(r[a] == c[a2]);
                        assert(is_last_change(d, c[a2]));
                        assert(item_path_spec(items.last().item_name@) != Some(c[a2].0));
                        lemma_last_change_extend(items, c[a2]);
                    }
                }
            },
            None => {
                assert(r == c);
                assert forall|a: int| 0 <= a < r.len() implies is_last_change(items, #[trigger] r[a]) by {
                    assert(r[a] == c[a]);
                    assert(is_last_change(d, c[a]));
                    assert(item_path_spec(items.last().item_name@) != Some(c[a].0));
                    lemma_last_change_extend(items, c[a]);
                }
            },
        }
    }
}

/// Every item that a page changes has an entry in the collapsed page.
#[verifier::rlimit(30)]
proof fn lemma_latest_all(items: Seq<DeltaItem>)
    ensures
        forall|i: int|
            0 <= i < items.len() && (#[trigger] item_path_spec(items[i].item_name@)) is Some ==> has_key(
                latest_changes(items),
                item_path_spec(items[i].item_name@)->0,
            ),
    decreases items.len(),
{
    let r = latest_changes(items);
    if items.len() > 0 {
        let d = items.drop_last();
        let n = items.len() - 1;
        let c = latest_changes(d);
        lemma_latest_all(d);
        lemma_latest_distinct(d);
        let ch = items.last();
        let p = item_path_spec(ch.item_name@);
        match p {
            Some(id) => {
                lemma_without_key(c, id);
                let w = without_key(c, id);
                lemma_change_index(w, id);
                assert(r == w.push((id, (ch.change_type, ch.jop_updated_time))));
                assert(r[w.len() as int].0 == id);
                assert forall|i: int| 0 <= i < items.len() && (#[trigger] item_path_spec(items[i].item_name@)) is Some
                    implies has_key(r, item_path_spec(items[i].item_name@)->0) by {
                    let k = item_path_spec(items[i].item_name@)->0;
                    if i == n || k == id {
                        assert(r[w.len() as int].0 == id);
                        if i == n {
                            assert(items[i] == ch);
                        }
                    } else {
                        assert(items[i] == d[i]);
                        assert(item_path_spec(d[i].item_name@) is Some);
                        assert(has_key(c, k));
                        let a2 = choose|a2: int| 0 <= a2 < c.len() && #[trigger] c[a2].0 == k;
                        assert(c[a2].0 != id);
                        let a = choose|a: int| 0 <= a < w.len() && w[a] == c[a2];
                        assert(r[a] == w[a]);
                    }
                }
            },
            None => {
                assert(r == c);
                assert forall|i: int| 0 <= i < items.len() && (#[trigger] item_path_spec(items[i].item_name@)) is Some
                    implies has_key(r, item_path_spec(items[i].item_name@)->0) by {
                    if i == n {
                        assert(items[i] == ch);
                    } else {
                        assert(items[i] == d[i]);
                        assert(item_path_spec(d[i].item_name@) is Some);
                    }
                }
            },
        }
    }
}

/// A page collapsed to its last changes holds each item once, with the type
/// and time of the last change of it, and every item the page changes.
pub proof fn lemma_latest_changes(items: Seq<DeltaItem>)
    ensures
        distinct_keys(latest_changes(items)),
        forall|a: int| 0 <= a < latest_changes(items).len() ==> is_last_change(items, #[trigger] latest_changes(items)[a]),
        forall|i: int|
            0 <= i < items.len() && (#[trigger] item_path_spec(items[i].item_name@)) is Some ==> has_key(
                latest_changes(items),
                item_path_spec(items[i].item_name@)->0,
            ),
{
    lemma_latest_distinct(items);
    lemma_latest_last(items);
    lemma_latest_all(items);
}

/// The key to sync with: under end-to-end encryption, the active master key
/// of `info.json` when the ring holds it; otherwise none.
pub open spec fn sync_key_spec(info: SyncInfo, entries: Seq<(Seq<char>, Seq<char>)>) -> Option<Seq<char>> {
    if info.e2ee_spec() {
        match info.active_key_spec() {
            Some(id) => if key_index(entries, id) is Some {
                Some(id)
            } else {
                None
            },
            None => None,
        }
    } else {
        None
    }
}

/// The active key a sync works with, and whether the master password is
/// needed: under end-to-end encryption without a usable key, nothing is
/// uploaded and the report asks for the password.
pub fn sync_keys(info: &SyncInfo, keys: &KeyRing) -> (r: (Option<String>, bool))
    ensures
        crate::item::opt_view(r.0) == sync_key_spec(*info, keys.entries()),
        r.1 == (info.e2ee_spec() && sync_key_spec(*info, keys.entries()) is None),
{
    if info.e2ee_enabled() {
        let active = match info.active_key_id() {
            Some(id) => if keys.has(id) {
                Some(crate::text::string_of(crate::text::chars_of(id).as_slice()))
            } else {
                None
            },
            None => None,
        };
        let needs = active.is_none();
        (active, needs)
    } else {
        (None, false)
    }
}

/// A server copy newer than the last sync conflicts with the local edit,
/// whatever the local item's own time; a note gets a conflict copy.
pub proof fn lemma_newer_server_copy_conflicts(local: ItemView, sync_time: i64, remote: ItemView)
    requires
        time_value(prop_value(remote.props, "updated_time"@)) > sync_time,
    ensures
        upload_step_spec(local, sync_time, Some(remote)) == (UploadStep::Conflict {
            copy_note: int_or_zero(prop_value(local.props, "type_"@)) == 1,
        }),
{
}

/// Without a server copy newer than the last sync, an edit goes up: a new
/// attachment with its file first, anything else as the item alone.
pub proof fn lemma_unchanged_server_copy_uploads(local: ItemView, sync_time: i64, remote: Option<ItemView>)
    requires
        remote matches Some(r) ==> time_value(prop_value(r.props, "updated_time"@)) <= sync_time,
    ensures
        upload_step_spec(local, sync_time, remote) == if int_or_zero(prop_value(local.props, "type_"@)) == 4
            && sync_time == 0 {
            UploadStep::BlobThenItem
        } else {
            UploadStep::Item
        },
{
}

/// Whether items of type `ty` are kept locally: notes, folders, attachments,
/// tags and note tags.
pub open spec fn kept_type(ty: int) -> bool {
    ty == 1 || ty == 2 || ty == 4 || ty == 5 || ty == 6
}

/// A server copy of a kept item that is newer than the local one is always
/// stored: as it is when nothing changed here, after a conflict copy when a
/// note was edited here; an item unknown here is stored too.
pub proof fn lemma_newer_remote_stored(remote: ItemView, local: ItemView, dirty: bool)
    requires
        kept_type(int_or_zero(prop_value(remote.props, "type_"@))),
        time_value(prop_value(remote.props, "updated_time"@)) > time_value(prop_value(local.props, "updated_time"@)),
    ensures
        fetched_step_spec(remote, Some((local, dirty))) != FetchedStep::Ignore,
        !dirty ==> fetched_step_spec(remote, Some((local, dirty))) == FetchedStep::Store,
        dirty && int_or_zero(prop_value(local.props, "type_"@)) == 1 ==> fetched_step_spec(remote, Some((local, dirty)))
            == FetchedStep::ConflictThenStore,
        dirty && int_or_zero(prop_value(local.props, "type_"@)) != 1 ==> fetched_step_spec(remote, Some((local, dirty)))
            == FetchedStep::Store,
        fetched_step_spec(remote, None) == FetchedStep::Store,
{
}

/// A server copy no newer than the local one, or of a type not kept here,
/// changes nothing.
pub proof fn lemma_older_remote_ignored(remote: ItemView, local: Option<(ItemView, bool)>)
    requires
        !kept_type(int_or_zero(prop_value(remote.props, "type_"@))) || (local matches Some((l, _)) && time_value(
            prop_value(remote.props, "updated_time"@),
        ) <= time_value(prop_value(l.props, "updated_time"@))),
    ensures
        fetched_step_spec(remote, local) == FetchedStep::Ignore,
{
}

} // verus!
