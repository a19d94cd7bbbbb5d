use omanote::item::{format_time, parse_time, RawItem, FOLDER_FIELDS, NOTE_FIELDS, TYPE_FOLDER, TYPE_NOTE};

const NOTE: &str = "My title\n\nLine one\n\nLine three\n\nid: 0123456789abcdef0123456789abcdef\nparent_id: fedcba9876543210fedcba9876543210\ncreated_time: 2024-03-01T10:20:30.123Z\nupdated_time: 2024-03-02T10:20:30.456Z\nauthor: a\\nb\nfuture_field: keep me\ntype_: 1";

#[test]
fn round_trip_note() {
    let item = RawItem::parse(NOTE).unwrap();
    assert_eq!(item.title.as_deref(), Some("My title"));
    assert_eq!(item.body.as_deref(), Some("Line one\n\nLine three"));
    assert_eq!(item.get("author"), "a\nb");
    assert_eq!(item.get("future_field"), "keep me");
    assert_eq!(item.time("updated_time"), 1709374830456);
    assert_eq!(item.serialize(), NOTE);
}

#[test]
fn empty_body_note() {
    let s = "Title\n\nid: 0123456789abcdef0123456789abcdef\ntype_: 1";
    let item = RawItem::parse(s).unwrap();
    assert_eq!(item.body.as_deref(), Some(""));
    assert_eq!(item.serialize(), s);
}

#[test]
fn folder_has_no_body() {
    let s = "Work\n\nid: 0123456789abcdef0123456789abcdef\ntype_: 2";
    let item = RawItem::parse(s).unwrap();
    assert_eq!(item.title.as_deref(), Some("Work"));
    assert_eq!(item.body, None);
    assert_eq!(item.serialize(), s);
}

#[test]
fn encrypted_item_has_only_props() {
    let s = "id: 0123456789abcdef0123456789abcdef\nparent_id: \nupdated_time: 2024-03-02T10:20:30.456Z\nencryption_cipher_text: JED01000022...\nencryption_applied: 1\ntype_: 1";
    let item = RawItem::parse(s).unwrap();
    assert_eq!(item.title, None);
    assert!(item.is_encrypted());
    assert_eq!(item.serialize(), s);
}

#[test]
fn literal_backslash_n_round_trips() {
    let mut item = RawItem::new_with_fields(TYPE_FOLDER, &FOLDER_FIELDS);
    item.set("user_data", "C:\\new\nline");
    let parsed = RawItem::parse(&item.serialize()).unwrap();
    assert_eq!(parsed.get("user_data"), "C:\\new\nline");
}

#[test]
fn rejects_bad_id() {
    assert!(RawItem::parse("x\n\nid: ../../etc\ntype_: 1").is_err());
}

#[test]
fn set_then_get_gives_the_value() {
    let mut item = RawItem::parse(NOTE).unwrap();
    item.set("author", "someone");
    assert_eq!(item.get("author"), "someone");
    assert_eq!(item.get("future_field"), "keep me");
    item.set("brand_new", "x");
    assert_eq!(item.get("brand_new"), "x");
    assert_eq!(item.get("missing"), "");
}

#[test]
fn time_reads_back() {
    let mut item = RawItem::parse(NOTE).unwrap();
    item.set_time("updated_time", 1_700_000_000_123);
    assert_eq!(item.time("updated_time"), 1_700_000_000_123);
    assert_eq!(item.get("updated_time"), "2023-11-14T22:13:20.123Z");
    item.set_time("deleted_time", 0);
    assert_eq!(item.get("deleted_time"), "");
    assert_eq!(item.time("deleted_time"), 0);
    assert_eq!(format_time(0), "");
    assert_eq!(parse_time("not a time"), 0);
    assert_eq!(parse_time(&format_time(1_709_374_830_456)), 1_709_374_830_456);
}

#[test]
fn integers_and_types() {
    let item = RawItem::parse(NOTE).unwrap();
    assert_eq!(item.item_type(), TYPE_NOTE);
    assert_eq!(item.id(), "0123456789abcdef0123456789abcdef");
    assert_eq!(item.integer("author"), 0);
    let folder = RawItem::new_with_fields(TYPE_FOLDER, &FOLDER_FIELDS);
    assert_eq!(folder.item_type(), TYPE_FOLDER);
    assert_eq!(folder.get("deleted_time"), "0");
    assert_eq!(folder.get("icon"), "");
}

#[test]
fn envelope_keeps_only_clear_fields() {
    let item = RawItem::parse(NOTE).unwrap();
    let env = item.encrypted_envelope("JED01xyz".to_string());
    assert!(env.is_encrypted());
    assert_eq!(env.title, None);
    assert_eq!(env.get("id"), "0123456789abcdef0123456789abcdef");
    assert_eq!(env.get("parent_id"), "fedcba9876543210fedcba9876543210");
    assert_eq!(env.get("author"), "");
    assert_eq!(env.get("type_"), "1");
    assert_eq!(env.get("encryption_cipher_text"), "JED01xyz");
}

#[test]
fn escaped_values_read_back() {
    let mut item = RawItem::new_with_fields(TYPE_FOLDER, &FOLDER_FIELDS);
    item.set("user_data", "a\\rb\r\nc\\\\n");
    let parsed = RawItem::parse(&item.serialize()).unwrap();
    assert_eq!(parsed.get("user_data"), "a\\rb\r\nc\\\\n");
    // A backslash right before a line break does not survive the format.
    item.set("user_data", "x\\\ny");
    let parsed = RawItem::parse(&item.serialize()).unwrap();
    assert_eq!(parsed.get("user_data"), "x\\ny");
}

#[test]
fn written_note_reads_back() {
    let mut item = RawItem::new_with_fields(TYPE_NOTE, &NOTE_FIELDS);
    item.title = Some("Groceries".to_string());
    item.body = Some("milk\n\n- eggs\n".to_string());
    item.set("id", "0123456789abcdef0123456789abcdef");
    item.set("author", "me\nyou");
    let parsed = RawItem::parse(&item.serialize()).unwrap();
    assert_eq!(parsed.title.as_deref(), Some("Groceries"));
    assert_eq!(parsed.body.as_deref(), Some("milk\n\n- eggs\n"));
    assert_eq!(parsed.get("author"), "me\nyou");
    assert_eq!(parsed.get("id"), "0123456789abcdef0123456789abcdef");
    assert_eq!(parsed.serialize(), item.serialize());
}

#[test]
fn value_ending_in_a_line_break_reads_back() {
    let mut item = RawItem::new_with_fields(TYPE_FOLDER, &FOLDER_FIELDS);
    item.set("user_data", "last line\n");
    let parsed = RawItem::parse(&item.serialize()).unwrap();
    assert_eq!(parsed.get("user_data"), "last line\n");
}
