use omanote::api::DeltaItem;
use omanote::e2ee::{KeyRing, MasterKey};
use omanote::item::RawItem;
use omanote::store::{note_item, DirtyItem};
use omanote::sync::{
    conflict_copy_at, delta_step, fetched_step, is_item_path, latest_of_page, open_remote, serialize_for_sync,
    unlock_keys, upload_step, DeltaStep, FetchedStep, SyncInfo, SyncReport, TimedValue, UploadStep,
};

#[test]
fn item_paths() {
    assert_eq!(is_item_path("0123456789abcdef0123456789abcdef.md").as_deref(), Some("0123456789abcdef0123456789abcdef"));
    assert_eq!(is_item_path("info.json"), None);
    assert_eq!(is_item_path(".resource/0123456789abcdef0123456789abcdef"), None);
    assert_eq!(is_item_path("locks/1_1_abc.json"), None);
}

fn info() -> SyncInfo {
    SyncInfo {
        version: 3,
        e2ee: Some(TimedValue { value: true, updated_time: 1 }),
        active_master_key_id: Some(TimedValue { value: "aaaabbbbccccddddeeeeffff00001111".into(), updated_time: 1 }),
        master_keys: vec![MasterKey {
            id: "aaaabbbbccccddddeeeeffff00001111".into(),
            created_time: 1,
            updated_time: 1,
            source_application: "x".into(),
            encryption_method: 8,
            checksum: String::new(),
            content: "{}".into(),
            enabled: None,
            has_been_used: Some(true),
        }],
        app_min_version: Some("3.0.0".into()),
    }
}

#[test]
fn parses_info_json() {
    let info = info();
    assert!(info.e2ee_enabled());
    assert_eq!(info.active_key_id(), Some("aaaabbbbccccddddeeeeffff00001111"));
}

#[test]
fn info_defaults() {
    let d = SyncInfo::default();
    assert!(!d.e2ee_enabled());
    assert_eq!(d.active_key_id(), None);
    let mut other = info();
    other.active_master_key_id = Some(TimedValue { value: "ffff".into(), updated_time: 1 });
    assert_eq!(other.active_key_id(), None);
    let r = SyncReport::default();
    assert_eq!(r.uploaded, 0);
    assert!(!r.needs_password);
}

#[test]
fn unlocking_counts_keys_held() {
    let info = info();
    let mut keys = KeyRing::new();
    // The content is no GCM payload: the key stays locked.
    assert_eq!(unlock_keys(&info, "pw", &mut keys), 0);
    assert!(keys.active_id.is_none());
    keys.insert("aaaabbbbccccddddeeeeffff00001111", "ab".repeat(256));
    assert_eq!(unlock_keys(&info, "pw", &mut keys), 1);
    assert_eq!(keys.active_id.as_deref(), Some("aaaabbbbccccddddeeeeffff00001111"));
}

#[test]
fn remote_items_round_trip_through_encryption() {
    let mut keys = KeyRing::new();
    keys.insert("aaaabbbbccccddddeeeeffff00001111", "ab".repeat(256));
    keys.active_id = Some("aaaabbbbccccddddeeeeffff00001111".into());
    let it = note_item("0123456789abcdef0123456789abcdef", "p", "Secret\nbody", 1_700_000_000_000);
    let plain = serialize_for_sync(&keys, &SyncInfo::default(), &it).unwrap();
    assert_eq!(plain, it.serialize());
    let sealed = serialize_for_sync(&keys, &info(), &it).unwrap();
    let env = RawItem::parse(&sealed).unwrap();
    assert!(env.is_encrypted());
    let (opened, still) = open_remote(&keys, &sealed).unwrap();
    assert!(!still);
    assert_eq!(opened.title.as_deref(), Some("Secret"));
    assert_eq!(opened.body.as_deref(), Some("body"));
    assert_eq!(opened.get("encryption_applied"), "0");
    let (_, still) = open_remote(&KeyRing::new(), &sealed).unwrap();
    assert!(still);
}

#[test]
fn conflicts_and_steps() {
    let local = note_item("0123456789abcdef0123456789abcdef", "p", "Mine", 1_000);
    let copy = conflict_copy_at(&local, "ffffffffffffffffffffffffffffffff", 2_000);
    assert_eq!(copy.id(), "ffffffffffffffffffffffffffffffff");
    assert_eq!(copy.get("is_conflict"), "1");
    assert_eq!(copy.get("conflict_original_id"), "0123456789abcdef0123456789abcdef");
    assert_eq!(copy.time("updated_time"), 2_000);

    let d = DirtyItem { raw: local.clone(), sync_time: 1_000 };
    let newer = note_item("0123456789abcdef0123456789abcdef", "p", "Theirs", 3_000);
    assert_eq!(upload_step(&d, Some(&newer)), UploadStep::Conflict { copy_note: true });
    assert_eq!(upload_step(&d, None), UploadStep::Item);
    assert_eq!(upload_step(&d, Some(&local)), UploadStep::Item);

    assert_eq!(delta_step(3, None, Some((5, true))), DeltaStep::Skip);
    assert_eq!(delta_step(3, None, Some((5, false))), DeltaStep::RemoveLocal);
    assert_eq!(delta_step(2, Some(5), Some((5, false))), DeltaStep::Skip);
    assert_eq!(delta_step(2, Some(6), Some((5, false))), DeltaStep::Fetch);
    assert_eq!(delta_step(1, None, None), DeltaStep::Fetch);

    assert_eq!(fetched_step(&newer, None), FetchedStep::Store);
    assert_eq!(fetched_step(&newer, Some((&local, true))), FetchedStep::ConflictThenStore);
    assert_eq!(fetched_step(&local, Some((&newer, false))), FetchedStep::Ignore);
}

#[test]
fn pages_collapse_to_last_changes() {
    let ch = |name: &str, t: i64, u: Option<i64>| DeltaItem { item_name: name.to_string(), change_type: t, jop_updated_time: u };
    let a = "0123456789abcdef0123456789abcdef.md";
    let b = "ffffffffffffffffffffffffffffffff.md";
    let items = vec![ch(a, 1, Some(1)), ch("info.json", 2, None), ch(b, 1, Some(2)), ch(a, 2, Some(3))];
    let latest = latest_of_page(&items);
    assert_eq!(latest.len(), 2);
    assert_eq!(latest[0].0, "ffffffffffffffffffffffffffffffff");
    assert_eq!(latest[1], ("0123456789abcdef0123456789abcdef".to_string(), (2, Some(3))));
}

#[test]
fn sync_key_choice() {
    let mut ring = KeyRing::new();
    assert_eq!(omanote::sync::sync_keys(&SyncInfo::default(), &ring), (None, false));
    assert_eq!(omanote::sync::sync_keys(&info(), &ring), (None, true));
    ring.insert("aaaabbbbccccddddeeeeffff00001111", "ab".into());
    assert_eq!(
        omanote::sync::sync_keys(&info(), &ring),
        (Some("aaaabbbbccccddddeeeeffff00001111".to_string()), false)
    );
}
