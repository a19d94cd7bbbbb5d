use omanote::api::{base_url, item_path, lock_path, retries, server_error};
use omanote::config::{cli_client_id, Config};
use omanote::Error;

#[test]
fn request_paths() {
    assert_eq!(item_path("info.json"), "api/items/root:/info.json:");
    assert_eq!(item_path("/.resource/abc/"), "api/items/root:/.resource/abc:");
    assert_eq!(item_path(""), "api/items/root:/:");
    assert_eq!(lock_path(1, "abc"), "api/locks/1_1_abc");
    assert_eq!(base_url("https://example.com//"), "https://example.com");
}

#[test]
fn server_errors() {
    match server_error(400, r#"{"code":"resyncRequired","error":"Please resync"}"#) {
        Error::Server { status, code, message } => {
            assert_eq!(status, 400);
            assert_eq!(code.as_deref(), Some("resyncRequired"));
            assert_eq!(message, "Please resync");
        }
        other => panic!("{other:?}"),
    }
    match server_error(500, "[1,2]") {
        Error::Server { code, message, .. } => {
            assert_eq!(code, None);
            assert_eq!(message, "[1,2]");
        }
        other => panic!("{other:?}"),
    }
    let long = "x".repeat(600);
    match server_error(502, &long) {
        Error::Server { message, .. } => assert_eq!(message.len(), 500),
        other => panic!("{other:?}"),
    }
}

#[test]
fn config_defaults() {
    let c = Config::default();
    assert_eq!(c.hotkey, "Alt+A");
    assert_eq!(c.sync_interval_secs, 120);
    assert!(!c.is_configured());
    assert_eq!(c.tree_root(), "");
    let d = Config { root_folder_id: "r".into(), local_only: true, ..Config::default() };
    assert!(d.is_configured());
    assert_eq!(d.tree_root(), "r");
    let e = Config { whole_joplin: true, ..d.clone() };
    assert_eq!(e.tree_root(), "");
}

#[test]
fn expired_session_is_retried_once() {
    assert!(retries(403, 0));
    assert!(!retries(403, 1));
    assert!(!retries(404, 0));
    assert!(!retries(200, 0));
}

#[test]
fn command_line_lock_id() {
    assert_eq!(cli_client_id("0123456789abcdef0123456789abcdef"), "0123456789abcdef0123456789abccli");
    assert_eq!(cli_client_id("short"), "omanoteclicli");
    assert_eq!(cli_client_id(""), "omanoteclicli");
}
