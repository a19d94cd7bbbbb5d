use omanote::mcp::{method_of, reply_to, tool_of, Method, Reply, Tool, DEFAULT_NOTE_LIMIT, METHOD_NOT_FOUND, PARSE_ERROR};

#[test]
fn methods_and_tools() {
    assert_eq!(method_of("initialize"), Method::Initialize);
    assert_eq!(method_of("ping"), Method::Ping);
    assert_eq!(method_of("tools/list"), Method::ListTools);
    assert_eq!(method_of("tools/call"), Method::CallTool);
    assert_eq!(method_of("resources/list"), Method::Unknown);
    assert_eq!(tool_of("append_to_note"), Some(Tool::AppendToNote));
    assert_eq!(tool_of("sync"), Some(Tool::Sync));
    assert_eq!(tool_of("delete_everything"), None);
    assert_eq!((PARSE_ERROR, METHOD_NOT_FOUND, DEFAULT_NOTE_LIMIT), (-32700, -32601, 50));
}

#[test]
fn replies_to_messages() {

    assert_eq!(reply_to(false, "initialize"), Reply::Silent);
    assert_eq!(reply_to(true, "tools/list"), Reply::Result(Method::ListTools));
    assert_eq!(reply_to(true, "nope"), Reply::Error(METHOD_NOT_FOUND));
}
