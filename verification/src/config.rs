//! Settings shared by the app, the CLI and the MCP server.
use vstd::prelude::*;

verus! {

/// The app's identifier; the app keeps its data under this name.
pub const APP_ID: &'static str = "app.omanote";
pub const DB_FILE: &'static str = "omanote.sqlite";

/// The settings.
#[derive(Debug, Clone)]
pub struct Config {
    pub server_url: String,
    pub email: String,
    /// Joplin notebook used as Omanote's root (its sub-notebooks are the folders).
    pub root_folder_id: String,
    pub client_id: String,
    pub hotkey: String,
    pub sync_interval_secs: u64,
    /// Local mode: notes only on this device, no Joplin Server (yet).
    pub local_only: bool,
    /// Work on every Joplin notebook instead of `root_folder_id` only.
    pub whole_joplin: bool,
}

impl Default for Config {
    fn default() -> (r: Self)
        ensures
            r.server_url@.len() == 0 && r.email@.len() == 0 && r.root_folder_id@.len() == 0
                && r.client_id@.len() == 0,
            r.hotkey@ == "Alt+A"@,
            r.sync_interval_secs == 120,
            !r.local_only && !r.whole_joplin,
    {
        Config {
            server_url: String::new(),
            email: String::new(),
            root_folder_id: String::new(),
            client_id: String::new(),
            hotkey: "Alt+A".to_owned(),
            sync_interval_secs: 120,
            local_only: false,
            whole_joplin: false,
        }
    }
}

impl Config {
    /// Top of the tree Omanote shows: the working notebook, or "" (all of Joplin).
    pub fn tree_root(&self) -> (r: &str)
        ensures
            r@ == (if self.whole_joplin { Seq::empty() } else { self.root_folder_id@ }),
    {
        if self.whole_joplin {
            proof {
                reveal_strlit("");
            }
            ""
        } else {
            self.root_folder_id.as_str()
        }
    }

    /// Ready to use: connected to a server, or explicitly in local mode.
    pub fn is_configured(&self) -> (r: bool)
        ensures
            r == (self.server_url@.len() > 0 || self.local_only),
    {
        !self.server_url.as_str().is_empty() || self.local_only
    }
}

/// The id the command line takes its lock with: the first 29 bytes of the
/// app's client id followed by `cli`, or `omanotecli` then `cli` when the id
/// is shorter or 29 bytes would cut a character.
pub open spec fn cli_client_id_spec(client_id: Seq<char>) -> Seq<char> {
    let b = vstd::utf8::encode_utf8(client_id);
    (if crate::e2ee::take_ok(b, 0, 29) {
        vstd::utf8::decode_utf8(b.subrange(0, 29))
    } else {
        "omanotecli"@
    }) + "cli"@
}

/// The id the command line takes its lock with.
pub fn cli_client_id(client_id: &str) -> (r: String)
    ensures
        r@ == cli_client_id_spec(client_id@),
{
    let b = client_id.as_bytes();
    let mut out: Vec<char>;
    if b.len() >= 29 && (b.len() == 29 || b[29] < 0x80 || b[29] >= 0xC0) {
        let mut head: Vec<u8> = Vec::new();
        let mut i: usize = 0;
        while i < 29
            invariant
                i <= 29 <= b@.len(),
                head@ =~= b@.subrange(0, i as int),
            decreases 29 - i,
        {
            head.push(b[i]);
            i = i + 1;
        }
        proof {
            vstd::utf8::encode_utf8_valid_utf8(client_id@);
            crate::e2ee::lemma_slice_valid(b@, 0, 29);
        }
        out = match crate::crypto::utf8_decode(head.as_slice()) {
            Some(s) => crate::text::chars_of(s.as_str()),
            None => Vec::new(),
        };
    } else {
        out = crate::text::chars_of("omanotecli");
    }
    crate::text::push_all(&mut out, crate::text::chars_of("cli").as_slice());
    crate::text::string_of(out.as_slice())
}

/// Why connecting to a server is refused.
#[derive(Debug, Clone, Copy, PartialEq, Eq, Structural)]
pub enum SetupRefusal {
    /// The account uses end-to-end encryption and no master password was given.
    MasterPasswordRequired,
    /// No master key opened with the master password given.
    WrongMasterPassword,
}

/// A master password as given: `None` when missing or empty.
pub open spec fn given_password(master: Option<String>) -> Option<Seq<char>> {
    match master {
        Some(p) if p@.len() > 0 => Some(p@),
        _ => None,
    }
}

/// The master password that connecting works with: the one given, unless it
/// is empty; an account with end-to-end encryption needs one.
pub fn setup_master(e2ee: bool, master: Option<String>) -> (r: Result<Option<String>, SetupRefusal>)
    ensures
        e2ee && given_password(master) is None ==> r == Err::<Option<String>, SetupRefusal>(
            SetupRefusal::MasterPasswordRequired,
        ),
        !(e2ee && given_password(master) is None) ==> (r matches Ok(m) && crate::item::opt_view(m)
            == given_password(master)),
{
    let given = match master {
        Some(p) => if crate::text::chars_of(p.as_str()).len() > 0 {
            Some(p)
        } else {
            None
        },
        None => None,
    };
    if e2ee && given.is_none() {
        Err(SetupRefusal::MasterPasswordRequired)
    } else {
        Ok(given)
    }
}

/// A server address as typed: without white space around it and without
/// trailing slashes.
pub open spec fn typed_url(url: Seq<char>) -> Seq<char> {
    crate::api::trim_end_char(crate::text::trim(url), '/')
}

/// Text without the white space around it.
fn trimmed(s: &str) -> (r: String)
    ensures
        r@ == crate::text::trim(s@),
{
    let cs = crate::text::chars_of(s);
    let (a, b) = crate::text::trim_range(cs.as_slice(), 0, cs.len());
    assert(cs@.subrange(0, cs@.len() as int) =~= s@);
    crate::text::string_of(crate::text::copy_range(cs.as_slice(), a, b).as_slice())
}

/// The settings after connecting to `server_url` as `email`, once the
/// master keys have been tried (`unlocked` tells whether one opened). A
/// different server or account means the local data is reset (the flag) and
/// the working notebook forgotten; a missing client id is made.
pub fn setup_config(old: &Config, server_url: &str, email: &str, e2ee: bool, unlocked: bool) -> (r: Result<
    (Config, bool),
    SetupRefusal,
>)
    ensures
        e2ee && !unlocked ==> r matches Err(SetupRefusal::WrongMasterPassword),
        !(e2ee && !unlocked) ==> (r matches Ok((c, reset)) && {
            let url = typed_url(server_url@);
            let em = crate::text::trim(email@);
            &&& reset == (old.server_url@ != url || old.email@ != em)
            &&& c.server_url@ == url && c.email@ == em
            &&& c.root_folder_id@ == (if reset {
                Seq::<char>::empty()
            } else {
                old.root_folder_id@
            })
            &&& (if old.client_id@.len() == 0 {
                crate::stamp::is_new_id(c.client_id@)
            } else {
                c.client_id@ == old.client_id@
            })
            &&& c.hotkey@ == old.hotkey@ && c.sync_interval_secs == old.sync_interval_secs
            &&& c.local_only == old.local_only && c.whole_joplin == old.whole_joplin
        }),
{
    if e2ee && !unlocked {
        return Err(SetupRefusal::WrongMasterPassword);
    }
    let t = trimmed(server_url);
    let url = crate::api::base_url(t.as_str());
    let em = trimmed(email);
    let same_url = crate::text::eq_chars(
        crate::text::chars_of(old.server_url.as_str()).as_slice(),
        crate::text::chars_of(url.as_str()).as_slice(),
    );
    let same_email = crate::text::eq_chars(
        crate::text::chars_of(old.email.as_str()).as_slice(),
        crate::text::chars_of(em.as_str()).as_slice(),
    );
    let reset = !same_url || !same_email;
    let root = if reset {
        String::new()
    } else {
        old.root_folder_id.clone()
    };
    let client_id = if crate::text::chars_of(old.client_id.as_str()).len() == 0 {
        crate::stamp::new_id()
    } else {
        old.client_id.clone()
    };
    let c = Config {
        server_url: url,
        email: em,
        root_folder_id: root,
        client_id,
        hotkey: old.hotkey.clone(),
        sync_interval_secs: old.sync_interval_secs,
        local_only: old.local_only,
        whole_joplin: old.whole_joplin,
    };
    Ok((c, reset))
}

} // verus!
