use omanote::e2ee::{KeyRing, MasterKey};
use omanote::item::RawItem;
use omanote::store::DirtyItem;
use omanote::sync::{SyncInfo, TimedValue};
use omanote::upload::{BlobBody, UploadAction, UploadEvent, UploadRun};

fn info(e2ee: bool) -> SyncInfo {
    SyncInfo {
        version: 3,
        e2ee: Some(TimedValue { value: e2ee, updated_time: 1 }),
        active_master_key_id: Some(TimedValue { value: "aaaabbbbccccddddeeeeffff00001111".into(), updated_time: 1 }),
        master_keys: vec![MasterKey {
            id: "aaaabbbbccccddddeeeeffff00001111".into(),
            created_time: 1,
            updated_time: 1,
            source_application: "x".into(),
            encryption_method: 8,
            checksum: String::new(),
            content: "{}".into(),
            enabled: None,
            has_been_used: Some(true),
        }],
        app_min_version: Some("3.0.0".into()),
    }
}

fn note(id: &str) -> RawItem {
    RawItem::parse(&format!("Title\n\nBody\n\nid: {id}\nupdated_time: 2024-01-01T00:00:00.000Z\ntype_: 1")).unwrap()
}

#[test]
fn no_key_no_upload() {
    let keys = KeyRing::new();
    let (mut run, active, needs_password) = UploadRun::start(&info(true), &keys);
    assert!(needs_password);
    assert_eq!(active, None);
    assert!(matches!(run.step(&keys, UploadEvent::Done), UploadAction::Finished));
    assert!(matches!(run.step(&keys, UploadEvent::Done), UploadAction::Finished));
    assert_eq!(run.uploaded(), 0);
    assert_eq!(run.deleted_remote(), 0);
}

#[test]
fn plain_run_deletes_then_uploads() {
    let keys = KeyRing::new();
    let (mut run, _, needs_password) = UploadRun::start(&info(false), &keys);
    assert!(!needs_password);
    assert!(matches!(run.step(&keys, UploadEvent::Done), UploadAction::ReadPending));
    let it = note("0123456789abcdef0123456789abcdef");
    let dirty = vec![DirtyItem { raw: it.clone(), sync_time: 0 }];
    let ev = UploadEvent::Pending { deletions: vec!["ffffffffffffffffffffffffffffffff".into()], dirty };
    match run.step(&keys, ev) {
        UploadAction::Delete { id } => assert_eq!(id, "ffffffffffffffffffffffffffffffff"),
        _ => panic!("expected a deletion"),
    }
    match run.step(&keys, UploadEvent::Done) {
        UploadAction::Fetch { id } => assert_eq!(id, "0123456789abcdef0123456789abcdef"),
        _ => panic!("expected a fetch"),
    }
    match run.step(&keys, UploadEvent::Remote(None)) {
        UploadAction::PutItem { id, text, updated } => {
            assert_eq!(id, "0123456789abcdef0123456789abcdef");
            assert_eq!(text, it.serialize());
            assert_eq!(updated, 1_704_067_200_000);
        }
        _ => panic!("expected an upload"),
    }
    assert!(matches!(run.step(&keys, UploadEvent::Done), UploadAction::Finished));
    assert_eq!(run.uploaded(), 1);
    assert_eq!(run.deleted_remote(), 1);
    assert_eq!(run.conflicts(), 0);
}

#[test]
fn newer_server_copy_is_a_conflict() {
    let keys = KeyRing::new();
    let mut run = UploadRun::new(false, true);
    assert!(matches!(run.step(&keys, UploadEvent::Done), UploadAction::ReadPending));
    let it = note("0123456789abcdef0123456789abcdef");
    let dirty = vec![DirtyItem { raw: it, sync_time: 1 }];
    let fetch = run.step(&keys, UploadEvent::Pending { deletions: vec![], dirty });
    assert!(matches!(fetch, UploadAction::Fetch { .. }));
    let remote = "Server\n\nBody\n\nid: 0123456789abcdef0123456789abcdef\nupdated_time: 2025-01-01T00:00:00.000Z\ntype_: 1";
    assert!(matches!(run.step(&keys, UploadEvent::Remote(Some(remote.into()))), UploadAction::StoreLocal { .. }));
    match run.step(&keys, UploadEvent::Done) {
        UploadAction::PutItem { text, .. } => assert!(text.contains("is_conflict: 1")),
        _ => panic!("expected the conflict copy"),
    }
    match run.step(&keys, UploadEvent::Done) {
        UploadAction::StoreRemote { item, encrypted } => {
            assert_eq!(item.title.as_deref(), Some("Server"));
            assert!(!encrypted);
        }
        _ => panic!("expected the server's copy to be kept"),
    }
    assert!(matches!(run.step(&keys, UploadEvent::Done), UploadAction::Finished));
    assert_eq!(run.conflicts(), 1);
    assert_eq!(run.uploaded(), 1);
}

#[test]
fn attachment_file_goes_first() {
    let keys = KeyRing::new();
    let mut run = UploadRun::new(false, true);
    run.step(&keys, UploadEvent::Done);
    let res = RawItem::parse("photo.png\n\nid: 0123456789abcdef0123456789abcdef\ntype_: 4").unwrap();
    let dirty = vec![DirtyItem { raw: res, sync_time: 0 }];
    run.step(&keys, UploadEvent::Pending { deletions: vec![], dirty });
    match run.step(&keys, UploadEvent::Remote(None)) {
        UploadAction::ReadBlob { id } => assert_eq!(id, "0123456789abcdef0123456789abcdef"),
        _ => panic!("expected the file to be read"),
    }
    match run.step(&keys, UploadEvent::Blob(Some(vec![1, 2, 3]))) {
        UploadAction::PutBlob { body: BlobBody::Plain(b), .. } => assert_eq!(b, vec![1, 2, 3]),
        _ => panic!("expected the file to go up"),
    }
    match run.step(&keys, UploadEvent::Done) {
        UploadAction::PutItem { text, .. } => assert!(text.contains("encryption_blob_encrypted: 0")),
        _ => panic!("expected the item"),
    }
}

#[test]
fn encrypted_run_without_key_fails() {
    let keys = KeyRing::new();
    let mut run = UploadRun::new(true, true);
    run.step(&keys, UploadEvent::Done);
    let dirty = vec![DirtyItem { raw: note("0123456789abcdef0123456789abcdef"), sync_time: 0 }];
    run.step(&keys, UploadEvent::Pending { deletions: vec![], dirty });
    assert!(matches!(run.step(&keys, UploadEvent::Remote(None)), UploadAction::Fail(_)));
}
