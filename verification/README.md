# omanote

The core of Omanote, a quick-notes app that syncs with Joplin Server: the
Joplin item format, Joplin's end-to-end encryption, what the local store and
the synchroniser decide, note timers and Omarchy theme palettes. Every
function in `src/` has a contract that Verus proves; the calls into outside
crates (AES, PBKDF2, Base64, JSON, chrono, uuid, indexmap, rand) stand behind
small trusted wrappers in `crypto.rs`, `props.rs`, `stamp.rs`, `sync.rs`,
`text.rs` and `timer.rs`, each with a doc comment that says what it assumes.

## Layout

- `src/` — the verified library.
  - `item.rs`, `props.rs`, `num.rs`, `text.rs`, `stamp.rs`: items and their
    `<id>.md` text, the ordered property map, integer and timestamp fields.
  - `crypto.rs`, `utf16.rs`, `e2ee.rs`: the encryption format (StringV1,
    FileV1, the SJCL methods, master keys).
  - `store.rs`, `sync.rs`, `api.rs`, `config.rs`, `mcp.rs`: the decisions of
    the local store, of synchronisation, of the server client, of account
    setup and of the MCP server.
  - `upload.rs`: the upload half of a sync run, step by step; `app/` answers
    each request it makes.
  - `timer.rs`, `theme.rs`: note timers and theme palettes.
  - `desktop.rs`: what the desktop app decides around them (launch
    arguments, the working notebook, trash order, timer commands,
    notifications, OCR languages).
  - `roundtrip.rs`, `escaping.rs`, `readback.rs`: laws that span functions.
- `tests/` — tests run against the compiled library.
- `app/` — the command line, the MCP server, SQLite storage, the HTTP client,
  the async synchroniser and other I/O, written around the library.

The Tauri desktop shell (window, tray, shortcuts, OCR and screen capture,
and the event plumbing around sync) is not part of this crate; the decisions
it makes stand in `desktop.rs` and `config.rs`.

## Laws proved

- Decrypting a StringV1 or FileV1 text encrypted with a loaded master key
  gives the text or bytes back (`roundtrip::lemma_string_round_trip`,
  `roundtrip::lemma_file_round_trip`).
- Reading the encryption header written for a method and key id gives them
  back (`roundtrip::lemma_header_read`).
- Decoding the UTF-16 units of a text gives it back
  (`utf16::lemma_utf16_round_trip`).
- Parsing the text written for an item gives the item back, for items the
  format carries (`readback::lemma_item_round_trip`, stated for every item
  by `RawItem::serialize`, whose properties never repeat a key: a type
  invariant of `props::Props`); property values and
  property lines read back (`escaping::lemma_escape_round_trip`,
  `escaping::lemma_prop_line_round_trip`).
- A property read right after it was set gives the value set
  (`item::lemma_get_after_set`).
- A note's text split into title and body and joined again is unchanged, and
  the other way round (`store::lemma_split_join`, `store::lemma_join_split`).
- Time spent paused does not count on a timer (`timer::lemma_pause_resume`).
- A master key ring and a theme palette never hold a key twice (type
  invariants of `e2ee::KeyList` and `theme::Palette`).
- Under end-to-end encryption every item text and attachment a sync puts on
  the server is encrypted, and without the active master key a sync puts and
  deletes nothing (`UploadRun::start`, `UploadRun::step`).
- A page of server changes collapses to one entry per item, the last change
  of it (`sync::lemma_latest_changes`).
