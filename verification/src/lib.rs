//! Omanote's core: Joplin items and their text format, Joplin's end-to-end
//! encryption, what the local store and synchronisation with Joplin Server
//! decide, note timers and Omarchy theme palettes, each with a contract
//! proved by Verus.
pub mod api;
pub mod config;
pub mod desktop;
pub mod crypto;
pub mod e2ee;
pub mod error;
pub mod item;
pub mod mcp;
pub mod num;
pub mod props;
pub mod stamp;
pub mod store;
pub mod sync;
pub mod text;
pub mod theme;
pub mod upload;
pub mod timer;
pub mod utf16;

pub mod escaping;
pub mod readback;
pub mod roundtrip;

pub use error::{Error, Result};
