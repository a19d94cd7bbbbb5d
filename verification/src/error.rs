//! Errors of the library.
use vstd::prelude::*;

verus! {

/// What can go wrong while reading, decrypting or synchronising items.
#[derive(Debug)]
pub enum Error {
    /// The text of an item is not in Joplin's format.
    Format(String),
    /// Decryption or encryption failed.
    Crypto(String),
    /// The master key with this id has not been unlocked.
    MasterKeyNotLoaded(String),
    /// The encryption method number is not supported.
    UnsupportedMethod(u32),
    /// The server answered with an error status.
    Server { status: u16, code: Option<String>, message: String },
    /// A transport failure, described.
    Network(String),
    /// A local database failure, described.
    Db(String),
    /// A JSON document could not be read or written.
    Json(String),
    /// A synchronisation precondition does not hold.
    Sync(String),
}

/// The variant of an error, without its details.
pub enum ErrKind {
    Format,
    Crypto,
    MasterKeyNotLoaded,
    Unsupported(u32),
    Server,
    Network,
    Db,
    Json,
    Sync,
}

/// The variant of `e`.
pub open spec fn kind(e: Error) -> ErrKind {
    match e {
        Error::Format(_) => ErrKind::Format,
        Error::Crypto(_) => ErrKind::Crypto,
        Error::MasterKeyNotLoaded(_) => ErrKind::MasterKeyNotLoaded,
        Error::UnsupportedMethod(m) => ErrKind::Unsupported(m),
        Error::Server { .. } => ErrKind::Server,
        Error::Network(_) => ErrKind::Network,
        Error::Db(_) => ErrKind::Db,
        Error::Json(_) => ErrKind::Json,
        Error::Sync(_) => ErrKind::Sync,
    }
}

/// `Result` with the library's error.
pub type Result<T> = core::result::Result<T, Error>;

/// A `String` made of `prefix` followed by `detail`.
pub fn message(prefix: &str, detail: &[char]) -> (r: String)
    ensures
        r@ == prefix@ + detail@,
{
    let mut v = crate::text::chars_of(prefix);
    crate::text::push_all(&mut v, detail);
    crate::text::string_of(v.as_slice())
}

impl Error {
    /// The error as a sentence.
    pub fn describe(&self) -> (r: String)
        ensures
            r@ == describe_spec(*self),
    {
        match self {
            Error::Format(m) => message("invalid item format: ", crate::text::chars_of(m.as_str()).as_slice()),
            Error::Crypto(m) => message("encryption error: ", crate::text::chars_of(m.as_str()).as_slice()),
            Error::MasterKeyNotLoaded(m) => message("master key not loaded: ", crate::text::chars_of(m.as_str()).as_slice()),
            Error::UnsupportedMethod(n) => message("unsupported encryption method: ", crate::num::digits(*n as u64, 10).as_slice()),
            Error::Server { status, message: m, .. } => {
                let mut d = crate::num::digits(*status as u64, 10);
                crate::text::push_all(&mut d, crate::text::chars_of(": ").as_slice());
                crate::text::push_all(&mut d, crate::text::chars_of(m.as_str()).as_slice());
                message("server error ", d.as_slice())
            },
            Error::Network(m) => message("network error: ", crate::text::chars_of(m.as_str()).as_slice()),
            Error::Db(m) => message("database error: ", crate::text::chars_of(m.as_str()).as_slice()),
            Error::Json(m) => message("json error: ", crate::text::chars_of(m.as_str()).as_slice()),
            Error::Sync(m) => message("sync error: ", crate::text::chars_of(m.as_str()).as_slice()),
        }
    }
}

/// The sentence of an error.
pub open spec fn describe_spec(e: Error) -> Seq<char> {
    match e {
        Error::Format(m) => "invalid item format: "@ + m@,
        Error::Crypto(m) => "encryption error: "@ + m@,
        Error::MasterKeyNotLoaded(m) => "master key not loaded: "@ + m@,
        Error::UnsupportedMethod(n) => "unsupported encryption method: "@ + crate::num::decimal_text(n as int),
        Error::Server { status, message: m, .. } => "server error "@ + crate::num::decimal_text(status as int) + ": "@ + m@,
        Error::Network(m) => "network error: "@ + m@,
        Error::Db(m) => "database error: "@ + m@,
        Error::Json(m) => "json error: "@ + m@,
        Error::Sync(m) => "sync error: "@ + m@,
    }
}

} // verus!
