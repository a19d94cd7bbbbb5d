//! The rules of the MCP server (JSON-RPC 2.0 over stdio): which request
//! methods it answers and which tools it offers.
use vstd::prelude::*;

use crate::text::{chars_of, eq_chars};

verus! {

/// JSON-RPC error code of a request that is not JSON.
pub const PARSE_ERROR: i64 = -32700;

/// JSON-RPC error code of a method the server does not know.
pub const METHOD_NOT_FOUND: i64 = -32601;

/// How many notes `list_notes` gives when the call sets no limit.
pub const DEFAULT_NOTE_LIMIT: u64 = 50;

/// A request method.
#[derive(Debug, Clone, Copy, PartialEq, Eq, Structural)]
pub enum Method {
    Initialize,
    Ping,
    ListTools,
    CallTool,
    Unknown,
}

/// A tool of the server.
#[derive(Debug, Clone, Copy, PartialEq, Eq, Structural)]
pub enum Tool {
    ListFolders,
    ListNotes,
    SearchNotes,
    ReadNote,
    CreateNote,
    UpdateNote,
    AppendToNote,
    MoveNote,
    TrashNote,
    Sync,
}

/// The method a request names.
pub open spec fn method_spec(name: Seq<char>) -> Method {
    if name == "initialize"@ {
        Method::Initialize
    } else if name == "ping"@ {
        Method::Ping
    } else if name == "tools/list"@ {
        Method::ListTools
    } else if name == "tools/call"@ {
        Method::CallTool
    } else {
        Method::Unknown
    }
}

/// The tool a call names, if the server has it.
pub open spec fn tool_spec(name: Seq<char>) -> Option<Tool> {
    if name == "list_folders"@ {
        Some(Tool::ListFolders)
    } else if name == "list_notes"@ {
        Some(Tool::ListNotes)
    } else if name == "search_notes"@ {
        Some(Tool::SearchNotes)
    } else if name == "read_note"@ {
        Some(Tool::ReadNote)
    } else if name == "create_note"@ {
        Some(Tool::CreateNote)
    } else if name == "update_note"@ {
        Some(Tool::UpdateNote)
    } else if name == "append_to_note"@ {
        Some(Tool::AppendToNote)
    } else if name == "move_note"@ {
        Some(Tool::MoveNote)
    } else if name == "trash_note"@ {
        Some(Tool::TrashNote)
    } else if name == "sync"@ {
        Some(Tool::Sync)
    } else {
        None
    }
}

/// Whether `a` is the text `b`.
fn is(a: &str, b: &str) -> (r: bool)
    ensures
        r == (a@ == b@),
{
    eq_chars(chars_of(a).as_slice(), chars_of(b).as_slice())
}

/// The method a request names.
pub fn method_of(name: &str) -> (r: Method)
    ensures
        r == method_spec(name@),
{
    if is(name, "initialize") {
        Method::Initialize
    } else if is(name, "ping") {
        Method::Ping
    } else if is(name, "tools/list") {
        Method::ListTools
    } else if is(name, "tools/call") {
        Method::CallTool
    } else {
        Method::Unknown
    }
}

/// The tool a call names, if the server has it.
pub fn tool_of(name: &str) -> (r: Option<Tool>)
    ensures
        r == tool_spec(name@),
{
    if is(name, "list_folders") {
        Some(Tool::ListFolders)
    } else if is(name, "list_notes") {
        Some(Tool::ListNotes)
    } else if is(name, "search_notes") {
        Some(Tool::SearchNotes)
    } else if is(name, "read_note") {
        Some(Tool::ReadNote)
    } else if is(name, "create_note") {
        Some(Tool::CreateNote)
    } else if is(name, "update_note") {
        Some(Tool::UpdateNote)
    } else if is(name, "append_to_note") {
        Some(Tool::AppendToNote)
    } else if is(name, "move_note") {
        Some(Tool::MoveNote)
    } else if is(name, "trash_note") {
        Some(Tool::TrashNote)
    } else if is(name, "sync") {
        Some(Tool::Sync)
    } else {
        None
    }
}

/// How the server answers a message.
#[derive(Debug, Clone, Copy, PartialEq, Eq, Structural)]
pub enum Reply {
    /// A notification (no id): no answer.
    Silent,
    /// A result for the method.
    Result(Method),
    /// An error with this JSON-RPC code.
    Error(i64),
}

/// The answer to a message with or without an id, naming `method`.
pub fn reply_to(has_id: bool, method: &str) -> (r: Reply)
    ensures
        r == (if !has_id {
            Reply::Silent
        } else if method_spec(method@) == Method::Unknown {
            Reply::Error(METHOD_NOT_FOUND)
        } else {
            Reply::Result(method_spec(method@))
        }),
{
    if !has_id {
        return Reply::Silent;
    }
    match method_of(method) {
        Method::Unknown => Reply::Error(METHOD_NOT_FOUND),
        m => Reply::Result(m),
    }
}

} // verus!
