use omanote::e2ee::{decode_header, encode_header, is_encrypted_text, KeyRing, Header, MasterKey, decrypt_master_key, METHOD_SJCL2, METHOD_KEY_V1, METHOD_STRING_V1, STRING_V1_CHUNK};
use omanote::e2ee::js_unescape;
use omanote::Error;

const MK_ID: &str = "0123456789abcdef0123456789abcdef";

fn ring() -> KeyRing {
    let mut r = KeyRing::new();
    r.insert(MK_ID, "ab".repeat(256));
    r.active_id = Some(MK_ID.into());
    r
}

#[test]
fn string_v1_round_trip_with_surrogates_across_chunks() {
    let r = ring();
    // Put an emoji (surrogate pair) exactly across the chunk boundary.
    let mut s = "a".repeat(STRING_V1_CHUNK - 1);
    s.push_str("😀 ciao àèì");
    let enc = r.encrypt_string(&s).unwrap();
    assert!(enc.starts_with("JED01000022"));
    assert_eq!(r.decrypt_string(&enc).unwrap(), s);
}

#[test]
fn file_v1_round_trip() {
    let r = ring();
    let data: Vec<u8> = (0..300_000u32).map(|i| (i % 251) as u8).collect();
    let enc = r.encrypt_file(&data).unwrap();
    assert_eq!(r.decrypt_file(&enc).unwrap(), data);
}

#[test]
fn header() {
    let h = encode_header(10, MK_ID);
    let (d, pos) = decode_header(&h).unwrap();
    assert_eq!(d, Header { method: 10, master_key_id: MK_ID.into() });
    assert_eq!(pos, h.len());
}

#[test]
fn unescape_js() {
    assert_eq!(js_unescape("%E0%u00e8%20x%ZZ"), "à\u{e8} x%ZZ");
}

#[test]
fn empty_string_round_trip() {
    let r = ring();
    let enc = r.encrypt_string("").unwrap();
    assert_eq!(enc, "JED010000220a0123456789abcdef0123456789abcdef");
    assert_eq!(r.decrypt_string(&enc).unwrap(), "");
}

#[test]
fn short_string_round_trip() {
    let r = ring();
    let enc = r.encrypt_string("Hello, wörld").unwrap();
    assert!(is_encrypted_text(&enc));
    assert_eq!(r.decrypt_string(&enc).unwrap(), "Hello, wörld");
}

#[test]
fn missing_key_is_reported() {
    let r = ring();
    let enc = r.encrypt_string("secret").unwrap();
    let other = KeyRing::new();
    assert!(matches!(other.decrypt_string(&enc), Err(Error::MasterKeyNotLoaded(_))));
    assert!(matches!(other.encrypt_string("x"), Err(Error::MasterKeyNotLoaded(_))));
}

#[test]
fn wrong_key_fails_authentication() {
    let r = ring();
    let enc = r.encrypt_string("secret").unwrap();
    let mut other = KeyRing::new();
    other.insert(MK_ID, "cd".repeat(256));
    assert!(matches!(other.decrypt_string(&enc), Err(Error::Crypto(_))));
}

#[test]
fn bad_headers_are_rejected() {
    assert!(matches!(decode_header("XYZ01"), Err(Error::Crypto(_))));
    assert!(matches!(decode_header("JED"), Err(Error::Crypto(_))));
    assert!(matches!(decode_header("JED01000010xx"), Err(Error::Crypto(_))));
    assert!(!is_encrypted_text("JEDxx"));
    assert!(is_encrypted_text("JED01"));
}

#[test]
fn unknown_method_is_unsupported() {
    let r = ring();
    let h = encode_header(6, MK_ID);
    let text = format!("{h}000003abc");
    assert!(matches!(r.decrypt_string(&text), Err(Error::UnsupportedMethod(6))));
}

#[test]
fn key_ring_basics() {
    let mut r = KeyRing::new();
    assert!(r.is_empty());
    r.insert("a", "1".into());
    r.insert("a", "2".into());
    assert!(r.has("a"));
    assert!(!r.has("b"));
    assert!(!r.is_empty());
}

#[test]
fn master_key_errors() {
    let mk = MasterKey {
        id: MK_ID.into(),
        created_time: 0,
        updated_time: 0,
        source_application: String::new(),
        encryption_method: METHOD_SJCL2,
        checksum: String::new(),
        content: "{}".into(),
        enabled: None,
        has_been_used: None,
    };
    assert!(matches!(decrypt_master_key(&mk, "pw"), Err(Error::Crypto(_))));
    let mk7 = MasterKey { encryption_method: 7, ..mk.clone() };
    assert!(matches!(decrypt_master_key(&mk7, "pw"), Err(Error::UnsupportedMethod(7))));
    let bad = MasterKey { encryption_method: METHOD_KEY_V1, content: "not json".into(), ..mk };
    assert!(decrypt_master_key(&bad, "pw").is_err());
    assert_eq!(METHOD_STRING_V1, 10);
}

#[test]
fn missing_master_key_is_named() {
    let enc = ring().encrypt_string("secret").unwrap();
    let empty = KeyRing::new();
    assert!(matches!(empty.decrypt_string(&enc), Err(Error::MasterKeyNotLoaded(id)) if id == MK_ID));
    let enc = ring().encrypt_file(b"secret").unwrap();
    assert!(matches!(empty.decrypt_file(&enc), Err(Error::MasterKeyNotLoaded(id)) if id == MK_ID));
}

#[test]
fn sjcl_payload_as_object_or_array() {
    let mk = |content: &str| MasterKey {
        id: MK_ID.into(),
        created_time: 0,
        updated_time: 0,
        source_application: String::new(),
        encryption_method: omanote::e2ee::METHOD_SJCL4,
        checksum: String::new(),
        content: content.into(),
        enabled: None,
        has_been_used: None,
    };
    let object = r#"{"iv":"AAAAAAAAAAAAAAAAAAAAAA==","iter":1000,"ks":128,"ts":96,"mode":"ccm","adata":"","salt":"AAAAAAAAAAA=","ct":"AAAAAAAAAAAAAAAAAAAAAA=="}"#;
    let array = r#"["AAAAAAAAAAAAAAAAAAAAAA==",1000,128,96,"ccm","","AAAAAAAAAAA=","AAAAAAAAAAAAAAAAAAAAAA=="]"#;
    for content in [object, array] {
        match decrypt_master_key(&mk(content), "pw") {
            Err(Error::Crypto(m)) => assert_eq!(m, "unsupported SJCL tag size 96"),
            _ => panic!("expected the tag size to be refused"),
        }
    }
    let short = r#"["AAAAAAAAAAAAAAAAAAAAAA==",1000,128,64,"ccm","","AAAAAAAAAAA="]"#;
    assert!(matches!(decrypt_master_key(&mk(short), "pw"), Err(Error::Json(_))));
    let gcm = r#"{"iv":"AAAAAAAAAAAAAAAAAAAAAA==","salt":"AAAAAAAAAAA=","ct":"AAAAAAAAAAAAAAAAAAAAAA==","mode":"gcm"}"#;
    match decrypt_master_key(&mk(gcm), "pw") {
        Err(Error::Crypto(m)) => {
            assert_eq!(m, "SJCL mode 'gcm' not supported (legacy OCB2 data, re-encrypt it from Joplin)")
        }
        _ => panic!("expected the mode to be refused"),
    }
}
