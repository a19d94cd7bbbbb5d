//! The upload half of a sync run, as a sequence of steps: each step takes the
//! answer to the last request and gives the next request to the server or to
//! the local store. Under end-to-end encryption every item text and every
//! attachment put on the server is encrypted, and without a usable master
//! key nothing is put or deleted.
use vstd::prelude::*;

use crate::e2ee::{encrypt_outcome, sealed_text, KeyRing, FILE_V1_CHUNK, METHOD_FILE_V1, METHOD_STRING_V1, STRING_V1_CHUNK};
use crate::error::Error;
use crate::item::{envelope_spec, prop_value, serialize_spec, ItemView, RawItem};
use crate::store::DirtyItem;
use crate::sync::{
    active_id_fits, conflict_copy, item_text, open_remote, remote_would_panic, sync_key_spec,
    sync_keys, upload_step, SyncInfo, UploadStep,
};
use crate::text::{chars_of, push_all, string_of};
use crate::utf16::{encode_utf16, le_of_units};

verus! {

/// The text of an encrypted item: the envelope of a StringV1 encryption of
/// an item's text with a master key, marked `encryption_applied: 1`.
pub open spec fn encrypted_item_text(s: Seq<char>) -> bool {
    exists|v: ItemView, id: Seq<char>, key: Seq<u8>, ct: Seq<char>|
        #[trigger] sealed_text(METHOD_STRING_V1, id, key, le_of_units(encode_utf16(serialize_spec(v))), 2 * STRING_V1_CHUNK, ct)
            && s == serialize_spec(envelope_spec(v, ct))
            && prop_value(envelope_spec(v, ct).props, "encryption_applied"@) == "1"@
}

/// The file of an attachment as it goes to the server.
pub enum BlobBody {
    /// The bytes as they are.
    Plain(Vec<u8>),
    /// A FileV1 encryption of the bytes.
    Sealed(String),
}

/// An attachment body that is a FileV1 encryption with a master key.
pub open spec fn encrypted_blob(b: BlobBody) -> bool {
    b matches BlobBody::Sealed(s) && exists|id: Seq<char>, key: Seq<u8>, data: Seq<u8>|
        #[trigger] sealed_text(METHOD_FILE_V1, id, key, data, FILE_V1_CHUNK / 4 * 3, s@)
}

/// What the run asks for next.
pub enum UploadAction {
    /// Read the pending deletions and the items edited here; answer `Pending`.
    ReadPending,
    /// Delete `<id>.md` on the server, then forget the pending deletion.
    Delete { id: String },
    /// Get `<id>.md` from the server; answer `Remote`.
    Fetch { id: String },
    /// Store a conflict copy locally.
    StoreLocal { item: RawItem },
    /// Keep the server's version of an item locally.
    StoreRemote { item: RawItem, encrypted: bool },
    /// Read the local file of attachment `id`; answer `Blob`.
    ReadBlob { id: String },
    /// Put the file of attachment `id` on the server as `.resource/<id>`.
    PutBlob { id: String, body: BlobBody },
    /// Put `<id>.md` on the server, then mark the item synced at `updated`.
    PutItem { id: String, text: String, updated: i64 },
    /// Reading the server's copy of `<id>.md` would cut an encryption header
    /// inside a character.
    Halt { id: String },
    /// The run stops with this error.
    Fail(Error),
    /// Nothing more to upload.
    Finished,
}

/// The answer to the last request.
pub enum UploadEvent {
    /// The request was carried out.
    Done,
    /// The pending deletions and the items edited here.
    Pending { deletions: Vec<String>, dirty: Vec<DirtyItem> },
    /// The server's `<id>.md`, if there is one.
    Remote(Option<String>),
    /// The attachment's local file, if there is one.
    Blob(Option<Vec<u8>>),
}

/// Whether an action puts encrypted data only, when end-to-end encryption
/// is on.
pub open spec fn lawful(a: UploadAction, e2ee: bool) -> bool {
    match a {
        UploadAction::PutItem { text, .. } => e2ee ==> encrypted_item_text(text@),
        UploadAction::PutBlob { body, .. } => e2ee ==> encrypted_blob(body),
        _ => true,
    }
}

/// Whether an action changes the server.
pub open spec fn changes_server(a: UploadAction) -> bool {
    a is Delete || a is PutItem || a is PutBlob
}

enum Stage {
    Begin,
    Listing,
    Running,
    AwaitRemote,
    AwaitBlob,
    Over,
}

struct RunState {
    allowed: bool,
    e2ee: bool,
    stage: Stage,
    deletions: Vec<String>,
    d: usize,
    dirty: Vec<DirtyItem>,
    i: usize,
    /// Actions already decided, the next one last.
    queue: Vec<UploadAction>,
    uploaded: usize,
    deleted: usize,
    conflicts: usize,
    errors: Vec<String>,
}

impl RunState {
    spec fn wf(&self) -> bool {
        &&& self.d <= self.deletions@.len()
        &&& self.i <= self.dirty@.len()
        &&& self.deleted <= self.d
        &&& self.uploaded <= self.i
        &&& self.conflicts <= self.i
        &&& (self.stage is AwaitRemote || self.stage is AwaitBlob) ==> self.i < self.dirty@.len()
        &&& (self.stage is Begin || self.stage is Listing) ==> self.uploaded == 0 && self.deleted == 0
            && self.conflicts == 0 && self.queue@.len() == 0
        &&& forall|k: int|
            0 <= k < self.queue@.len() ==> lawful(#[trigger] self.queue@[k], self.e2ee) && (changes_server(
                self.queue@[k],
            ) ==> self.allowed)
        &&& !self.allowed ==> self.uploaded == 0 && self.deleted == 0 && (self.stage is Begin || self.stage is Over)
    }

    spec fn steps_ok(&self, old: RunState, a: UploadAction) -> bool {
        &&& self.wf()
        &&& self.allowed == old.allowed
        &&& self.e2ee == old.e2ee
        &&& lawful(a, old.e2ee)
        &&& changes_server(a) ==> old.allowed
    }

    /// The next decided action, deletion or item; the end when there is none.
    fn advance(&mut self) -> (a: UploadAction)
        requires
            old(self).wf(),
            old(self).stage is Running,
        ensures
            final(self).steps_ok(*old(self), a),
    {
        if self.queue.len() > 0 {
            let a = self.queue.pop().unwrap();
            assert(old(self).queue@[old(self).queue@.len() - 1] == a);
            assert forall|k: int| 0 <= k < self.queue@.len() implies lawful(#[trigger] self.queue@[k], self.e2ee)
                && (changes_server(self.queue@[k]) ==> self.allowed) by {
                assert(self.queue@[k] == old(self).queue@[k]);
            }
            return a;
        }
        if self.d < self.deletions.len() {
            let id = self.deletions[self.d].clone();
            self.d = self.d + 1;
            self.deleted = self.deleted + 1;
            return UploadAction::Delete { id };
        }
        if self.i < self.dirty.len() {
            let id = chars_of(self.dirty[self.i].raw.id());
            self.stage = Stage::AwaitRemote;
            return UploadAction::Fetch { id: string_of(id.as_slice()) };
        }
        self.stage = Stage::Over;
        UploadAction::Finished
    }

    /// Puts `a` before the actions already decided.
    fn queue_next(&mut self, a: UploadAction)
        requires
            old(self).wf(),
            lawful(a, old(self).e2ee),
            changes_server(a) ==> old(self).allowed,
            !(old(self).stage is Begin || old(self).stage is Listing),
        ensures
            final(self).wf(),
            final(self).allowed == old(self).allowed,
            final(self).e2ee == old(self).e2ee,
            final(self).stage == old(self).stage,
            final(self).i == old(self).i,
            final(self).dirty@ == old(self).dirty@,
            final(self).uploaded == old(self).uploaded,
            final(self).conflicts == old(self).conflicts,
    {
        self.queue.push(a);
        assert forall|k: int| 0 <= k < self.queue@.len() implies lawful(#[trigger] self.queue@[k], self.e2ee)
            && (changes_server(self.queue@[k]) ==> self.allowed) by {
            if k < old(self).queue@.len() {
                assert(self.queue@[k] == old(self).queue@[k]);
            }
        }
    }

    /// The upload of `it`: its text, or the error that stops the run.
    fn put_item(&mut self, keys: &KeyRing, it: &RawItem)
        requires
            old(self).wf(),
            old(self).allowed,
            active_id_fits(*keys),
            !(old(self).stage is Begin || old(self).stage is Listing),
        ensures
            final(self).wf(),
            final(self).allowed == old(self).allowed,
            final(self).e2ee == old(self).e2ee,
            final(self).stage == old(self).stage,
            final(self).i == old(self).i,
            final(self).dirty@ == old(self).dirty@,
            final(self).uploaded == old(self).uploaded,
            final(self).conflicts == old(self).conflicts,
    {
        let r = item_text(keys, self.e2ee, it);
        match r {
            Ok(text) => {
                proof {
                    if self.e2ee {
                        let (id, key) = encrypt_outcome(keys.entries(), keys.active())->Some_0;
                        let ct = choose|ct: Seq<char>|
                            #[trigger] sealed_text(
                                METHOD_STRING_V1,
                                id,
                                key,
                                le_of_units(encode_utf16(serialize_spec(it@))),
                                2 * STRING_V1_CHUNK,
                                ct,
                            ) && text@ == serialize_spec(envelope_spec(it@, ct));
                        lemma_envelope_applied(it@, ct);
                        assert(sealed_text(
                            METHOD_STRING_V1,
                            id,
                            key,
                            le_of_units(encode_utf16(serialize_spec(it@))),
                            2 * STRING_V1_CHUNK,
                            ct,
                        ));
                    }
                }
                let id = string_of(chars_of(it.id()).as_slice());
                let updated = it.time("updated_time");
                self.queue_next(UploadAction::PutItem { id, text, updated });
            },
            Err(e) => {
                self.queue_next(UploadAction::Fail(e));
            },
        }
    }

    /// Decides on the current item, given the server's copy.
    fn on_remote(&mut self, keys: &KeyRing, content: Option<String>) -> (a: UploadAction)
        requires
            old(self).wf(),
            old(self).stage is AwaitRemote,
            active_id_fits(*keys),
        ensures
            final(self).steps_ok(*old(self), a),
    {
        let idx = self.i;
        let n = self.dirty.len();
        let remote = match content {
            Some(c) => {
                if remote_would_panic(c.as_str()) {
                    self.stage = Stage::Over;
                    return UploadAction::Halt { id: string_of(chars_of(self.dirty[idx].raw.id()).as_slice()) };
                }
                match open_remote(keys, c.as_str()) {
                    Ok(r) => Some(r),
                    Err(e) => {
                        let mut m = chars_of(self.dirty[idx].raw.id());
                        push_all(&mut m, chars_of(".md: ").as_slice());
                        push_all(&mut m, chars_of(e.describe().as_str()).as_slice());
                        self.errors.push(string_of(m.as_slice()));
                        self.i = self.i + 1;
                        self.stage = Stage::Running;
                        return self.advance();
                    },
                }
            },
            None => None,
        };
        let step = match &remote {
            Some(r) => upload_step(&self.dirty[idx], Some(&r.0)),
            None => upload_step(&self.dirty[idx], None),
        };
        match step {
            UploadStep::Conflict { copy_note } => {
                let (remote_item, remote_encrypted) = match remote {
                    Some(r) => r,
                    None => {
                        return UploadAction::Finished;
                    },
                };
                self.stage = Stage::Running;
                self.i = self.i + 1;
                self.conflicts = self.conflicts + 1;
                self.queue_next(UploadAction::StoreRemote { item: remote_item, encrypted: remote_encrypted });
                if copy_note {
                    let copy = conflict_copy(&self.dirty[idx].raw);
                    self.put_item(keys, &copy);
                    self.uploaded = self.uploaded + 1;
                    self.queue_next(UploadAction::StoreLocal { item: copy });
                }
                self.advance()
            },
            UploadStep::BlobThenItem => {
                self.stage = Stage::AwaitBlob;
                UploadAction::ReadBlob { id: string_of(chars_of(self.dirty[idx].raw.id()).as_slice()) }
            },
            UploadStep::Item => {
                self.stage = Stage::Running;
                let it = self.dirty[idx].raw.clone();
                self.put_item(keys, &it);
                self.uploaded = self.uploaded + 1;
                self.i = self.i + 1;
                self.advance()
            },
        }
    }

    /// Uploads the current attachment's file, then the item.
    fn on_blob(&mut self, keys: &KeyRing, bytes: Option<Vec<u8>>) -> (a: UploadAction)
        requires
            old(self).wf(),
            old(self).stage is AwaitBlob,
            active_id_fits(*keys),
        ensures
            final(self).steps_ok(*old(self), a),
    {
        let idx = self.i;
        let n = self.dirty.len();
        let mut it = self.dirty[idx].raw.clone();
        self.stage = Stage::Running;
        match bytes {
            None => {
                self.put_item(keys, &it);
            },
            Some(b) => {
                let body = if self.e2ee {
                    match keys.encrypt_file(b.as_slice()) {
                        Ok(s) => {
                            let ghost text = s@;
                            let sealed = BlobBody::Sealed(s);
                            proof {
                                let (id, key) = encrypt_outcome(keys.entries(), keys.active())->Some_0;
                                assert(sealed_text(METHOD_FILE_V1, id, key, b@, FILE_V1_CHUNK / 4 * 3, text));
                                assert(sealed matches BlobBody::Sealed(t) && t@ == text);
                            }
                            sealed
                        },
                        Err(e) => {
                            self.stage = Stage::Over;
                            return UploadAction::Fail(e);
                        },
                    }
                } else {
                    BlobBody::Plain(b)
                };
                assert(self.e2ee ==> encrypted_blob(body));
                it.set("encryption_blob_encrypted", if self.e2ee { "1" } else { "0" });
                self.put_item(keys, &it);
                let id = string_of(chars_of(it.id()).as_slice());
                self.queue_next(UploadAction::PutBlob { id, body });
            },
        }
        self.uploaded = self.uploaded + 1;
        self.i = self.i + 1;
        self.advance()
    }

    fn next(&mut self, keys: &KeyRing, ev: UploadEvent) -> (a: UploadAction)
        requires
            old(self).wf(),
            active_id_fits(*keys),
        ensures
            final(self).steps_ok(*old(self), a),
            !old(self).allowed ==> a is Finished,
    {
        match self.stage {
            Stage::Begin => {
                if self.allowed {
                    self.stage = Stage::Listing;
                    UploadAction::ReadPending
                } else {
                    self.stage = Stage::Over;
                    UploadAction::Finished
                }
            },
            Stage::Listing => match ev {
                UploadEvent::Pending { deletions, dirty } => {
                    self.deletions = deletions;
                    self.dirty = dirty;
                    self.d = 0;
                    self.i = 0;
                    self.stage = Stage::Running;
                    self.advance()
                },
                _ => UploadAction::ReadPending,
            },
            Stage::Running => self.advance(),
            Stage::AwaitRemote => match ev {
                UploadEvent::Remote(content) => self.on_remote(keys, content),
                _ => UploadAction::Fetch { id: string_of(chars_of(self.dirty[self.i].raw.id()).as_slice()) },
            },
            Stage::AwaitBlob => match ev {
                UploadEvent::Blob(bytes) => self.on_blob(keys, bytes),
                _ => UploadAction::ReadBlob { id: string_of(chars_of(self.dirty[self.i].raw.id()).as_slice()) },
            },
            Stage::Over => UploadAction::Finished,
        }
    }
}

/// An envelope says it is encrypted.
pub proof fn lemma_envelope_applied(v: ItemView, ct: Seq<char>)
    ensures
        prop_value(envelope_spec(v, ct).props, "encryption_applied"@) == "1"@,
{
    let t = prop_value(v.props, "type_"@);
    let e0 = crate::props::insert_entry(
        crate::props::insert_all(crate::item::envelope_kept(v.props)),
        "encryption_cipher_text"@,
        ct,
    );
    let e1 = crate::props::insert_entry(e0, "encryption_applied"@, "1"@);
    reveal_strlit("type_");
    reveal_strlit("encryption_applied");
    assert("type_"@ != "encryption_applied"@) by {
        assert("type_"@.len() != "encryption_applied"@.len());
    }
    crate::props::lemma_lookup_insert(e1, "type_"@, t, "encryption_applied"@);
    crate::props::lemma_lookup_insert(e0, "encryption_applied"@, "1"@, "encryption_applied"@);
}

/// The upload half of a sync run.
pub struct UploadRun {
    state: RunState,
}

impl UploadRun {
    #[verifier::type_invariant]
    spec fn inv(&self) -> bool {
        self.state.wf()
    }

    /// Whether the run may change the server.
    pub closed spec fn allowed(&self) -> bool {
        self.state.allowed
    }

    /// Whether end-to-end encryption is on.
    pub closed spec fn e2ee(&self) -> bool {
        self.state.e2ee
    }

    pub closed spec fn uploaded_spec(&self) -> nat {
        self.state.uploaded as nat
    }

    pub closed spec fn deleted_spec(&self) -> nat {
        self.state.deleted as nat
    }

    pub closed spec fn conflicts_spec(&self) -> nat {
        self.state.conflicts as nat
    }

    pub closed spec fn errors_spec(&self) -> Seq<String> {
        self.state.errors@
    }

    /// A run that changes the server only when it may.
    pub fn new(e2ee: bool, allowed: bool) -> (r: Self)
        ensures
            r.allowed() == allowed,
            r.e2ee() == e2ee,
            r.uploaded_spec() == 0,
            r.deleted_spec() == 0,
            r.conflicts_spec() == 0,
            r.errors_spec().len() == 0,
    {
        UploadRun {
            state: RunState {
                allowed,
                e2ee,
                stage: Stage::Begin,
                deletions: Vec::new(),
                d: 0,
                dirty: Vec::new(),
                i: 0,
                queue: Vec::new(),
                uploaded: 0,
                deleted: 0,
                conflicts: 0,
                errors: Vec::new(),
            },
        }
    }

    /// The run of a sync with `info.json` and the loaded keys, the active
    /// key to set, and whether the master password is needed. Under
    /// end-to-end encryption without the active master key loaded, the
    /// password is needed and the run changes nothing on the server.
    pub fn start(info: &SyncInfo, keys: &KeyRing) -> (r: (UploadRun, Option<String>, bool))
        ensures
            crate::item::opt_view(r.1) == sync_key_spec(*info, keys.entries()),
            r.2 == (info.e2ee_spec() && sync_key_spec(*info, keys.entries()) is None),
            r.0.allowed() == !r.2,
            r.0.e2ee() == info.e2ee_spec(),
            r.0.uploaded_spec() == 0,
            r.0.deleted_spec() == 0,
            r.0.conflicts_spec() == 0,
            r.0.errors_spec().len() == 0,
    {
        let (active, needs_password) = sync_keys(info, keys);
        (UploadRun::new(info.e2ee_enabled(), !needs_password), active, needs_password)
    }

    /// The next request, given the answer to the last one. Every item text
    /// and attachment it puts is encrypted when end-to-end encryption is on;
    /// a run that may not change the server only ever finishes, and has
    /// uploaded and deleted nothing.
    pub fn step(&mut self, keys: &KeyRing, ev: UploadEvent) -> (a: UploadAction)
        requires
            active_id_fits(*keys),
        ensures
            final(self).allowed() == old(self).allowed(),
            final(self).e2ee() == old(self).e2ee(),
            lawful(a, old(self).e2ee()),
            changes_server(a) ==> old(self).allowed(),
            !old(self).allowed() ==> a is Finished && final(self).uploaded_spec() == 0 && final(self).deleted_spec()
                == 0,
    {
        proof {
            use_type_invariant(&*self);
        }
        let mut st = RunState {
            allowed: self.state.allowed,
            e2ee: self.state.e2ee,
            stage: Stage::Over,
            deletions: Vec::new(),
            d: 0,
            dirty: Vec::new(),
            i: 0,
            queue: Vec::new(),
            uploaded: 0,
            deleted: 0,
            conflicts: 0,
            errors: Vec::new(),
        };
        std::mem::swap(&mut st, &mut self.state);
        let a = st.next(keys, ev);
        self.state = st;
        a
    }

    /// Items uploaded so far.
    pub fn uploaded(&self) -> (r: usize)
        ensures
            r == self.uploaded_spec(),
            !self.allowed() ==> r == 0,
    {
        proof {
            use_type_invariant(self);
        }
        self.state.uploaded
    }

    /// Server items deleted so far.
    pub fn deleted_remote(&self) -> (r: usize)
        ensures
            r == self.deleted_spec(),
            !self.allowed() ==> r == 0,
    {
        proof {
            use_type_invariant(self);
        }
        self.state.deleted
    }

    /// Conflicts met so far.
    pub fn conflicts(&self) -> (r: usize)
        ensures
            r == self.conflicts_spec(),
    {
        self.state.conflicts
    }

    /// Items whose server copy could not be read, each with the error.
    pub fn errors(&self) -> (r: &Vec<String>)
        ensures
            r@ == self.errors_spec(),
    {
        &self.state.errors
    }
}

} // verus!
