use omanote::store::{trashed_under, TrashItem};
use omanote::item::{RawItem, TYPE_FOLDER, TYPE_NOTE, TYPE_RESOURCE};
use omanote::store::{
    add_pending, appended_text, comes_back, folder_emoji, folder_item, join_text, new_folder, new_note,
    new_resource, note_item, note_of, remove_pending, resource_extension, restore_target, single_line,
    split_text, text_matches, touch_at, under_root, apply_text, folder_outline, note_by_prefix, Folder, IdMatch, find_folder_in, STORED_TYPES,
};

#[test]
fn folder_icons() {
    assert_eq!(folder_emoji(r#"{"emoji":"🏦","name":"bank","type":1}"#), "🏦");
    assert_eq!(folder_emoji(r#"{"emoji":"","name":"","type":2,"dataUrl":"data:image/png;base64,AAA"}"#), "");
    assert_eq!(folder_emoji("🏠"), "🏠");
    assert_eq!(folder_emoji("not json and far too long"), "");
    assert_eq!(folder_emoji(""), "");
}

#[test]
fn text_split_round_trip() {
    let cases = [("", ""), ("title only", "title only"), ("t\nb", "t\nb"), ("t\n\nb\n", "t\n\nb\n"), ("t\n", "t")];
    for (input, expected) in cases {
        let (a, b) = split_text(input);
        assert_eq!(join_text(&a, &b), expected);
    }
}

#[test]
fn split_text_edges() {
    assert_eq!(split_text("Title  \r\nbody\r\nmore"), ("Title".to_string(), "body\nmore".to_string()));
    assert_eq!(split_text("only  "), ("only".to_string(), String::new()));
    assert_eq!(join_text("t", ""), "t");
    assert_eq!(join_text("t", "b"), "t\nb");
}

#[test]
fn titles_are_single_lines() {
    assert_eq!(single_line("  a\nb\rc  "), "a b c");
    assert_eq!(single_line("\n"), "");
}

#[test]
fn new_items_carry_their_fields() {
    let f = folder_item("0123456789abcdef0123456789abcdef", "parent", "My\nFolder", 1_700_000_000_000);
    assert_eq!(f.item_type(), TYPE_FOLDER);
    assert_eq!(f.title.as_deref(), Some("My Folder"));
    assert_eq!(f.get("parent_id"), "parent");
    assert_eq!(f.time("user_updated_time"), 1_700_000_000_000);

    let n = note_item("0123456789abcdef0123456789abcdef", "p", "Shopping\n- milk", 1_700_000_000_000);
    assert_eq!(n.item_type(), TYPE_NOTE);
    assert_eq!(n.title.as_deref(), Some("Shopping"));
    assert_eq!(n.body.as_deref(), Some("- milk"));
    assert_eq!(n.get("source_application"), "app.omanote");
    assert_eq!(n.get("order"), "1700000000000");
    let parsed = RawItem::parse(&n.serialize()).unwrap();
    assert_eq!(parsed.get("parent_id"), "p");

    let (r, ext) = new_resource(42, "image/jpeg", "photo.JPEG");
    assert_eq!(ext, "jpeg");
    assert_eq!(r.item_type(), TYPE_RESOURCE);
    assert_eq!(r.get("size"), "42");
    assert_eq!(r.get("file_extension"), "jpeg");
    assert_eq!(r.id().len(), 32);

    let (it, folder) = new_folder("Work", "");
    assert_eq!(it.id(), folder.id);
    assert_eq!(folder.title, "Work");
    let note = new_note(&folder.id, "A\nB");
    assert_eq!(note.get("parent_id"), folder.id);
}

#[test]
fn attachment_extensions() {
    assert_eq!(resource_extension("a/b/report.PDF", "application/pdf"), "pdf");
    assert_eq!(resource_extension("archive.tar.gz", ""), "gz");
    assert_eq!(resource_extension(".bashrc", "image/png"), "png");
    assert_eq!(resource_extension("noext", "image/jpeg"), "jpg");
    assert_eq!(resource_extension("x.toolong", "text/plain"), "");
    assert_eq!(resource_extension("x.a-b", "image/gif"), "gif");
    assert_eq!(resource_extension("dir/", "image/webp"), "webp");
}

#[test]
fn notes_from_items() {
    let n = note_item("0123456789abcdef0123456789abcdef", "p", "Shopping\n- milk", 1_700_000_000_000);
    let note = note_of(&n, false).unwrap();
    assert_eq!(note.text, "Shopping\n- milk");
    assert_eq!(note.updated_time, 1_700_000_000_000);
    let f = folder_item("0123456789abcdef0123456789abcdef", "", "F", 1);
    assert!(note_of(&f, false).is_none());
}

#[test]
fn editing_text() {
    let mut n = note_item("0123456789abcdef0123456789abcdef", "p", "Shopping\n- milk", 1_000);
    assert!(!apply_text(&mut n, "Shopping\n- milk"));
    assert_eq!(n.time("updated_time"), 1_000);
    assert!(apply_text(&mut n, "Shopping\n- bread"));
    assert_eq!(n.body.as_deref(), Some("- bread"));
    assert!(n.time("updated_time") > 1_000);
    touch_at(&mut n, 5_000);
    assert_eq!(n.time("updated_time"), 5_000);
    assert_eq!(n.time("user_updated_time"), 5_000);
    assert_eq!(appended_text("", "x"), "x");
    assert_eq!(appended_text("a\n\n", "x"), "a\nx");
}

#[test]
fn trash_chains() {
    let parents = vec![
        ("work".to_string(), "".to_string()),
        ("projects".to_string(), "work".to_string()),
        ("loop".to_string(), "loop".to_string()),
    ];
    assert!(under_root(&parents, "", "projects"));
    assert!(under_root(&parents, "work", "projects"));
    assert!(!under_root(&parents, "home", "projects"));
    assert!(under_root(&parents, "", "unknown"));
    assert!(!under_root(&parents, "work", "loop"));
}

#[test]
fn restore_targets() {
    let folders = vec![
        ("home".to_string(), "".to_string(), false),
        ("old".to_string(), "".to_string(), true),
    ];
    let mut note = note_item("0123456789abcdef0123456789abcdef", "old", "N", 1);
    assert_eq!(restore_target(&note, &folders, "home", ""), Some("home".to_string()));
    note.set("parent_id", "home");
    assert_eq!(restore_target(&note, &folders, "fallback", ""), None);
    let f = folder_item("0123456789abcdef0123456789abcdef", "", "F", 1);
    assert_eq!(restore_target(&f, &folders, "home", "top"), None);
    let g = folder_item("0123456789abcdef0123456789abcdef", "gone", "G", 1);
    assert_eq!(restore_target(&g, &folders, "home", "top"), Some("top".to_string()));
    let mut c = note_item("0123456789abcdef0123456789abcdef", "home", "C", 1);
    c.set("deleted_time", "12");
    assert!(comes_back(&c, false));
    assert!(!comes_back(&c, true));
}

#[test]
fn pending_deletions() {
    let mut ids: Vec<String> = Vec::new();
    add_pending(&mut ids, "a");
    add_pending(&mut ids, "b");
    add_pending(&mut ids, "a");
    assert_eq!(ids, vec!["a".to_string(), "b".to_string()]);
    remove_pending(&mut ids, "a");
    assert_eq!(ids, vec!["b".to_string()]);
}

#[test]
fn lookups_ignore_case() {
    assert!(text_matches("Shopping\n- MILK", "milk"));
    assert!(!text_matches("Shopping", "bread"));
    let folders = vec![Folder { id: "1".into(), parent_id: "".into(), title: "Work".into(), icon: "".into(), note_count: 0 }];
    assert_eq!(find_folder_in(folders.clone(), "WORK").map(|f| f.id), Some("1".to_string()));
    assert_eq!(find_folder_in(folders.clone(), "1").map(|f| f.title), Some("Work".to_string()));
    assert!(find_folder_in(folders, "home").is_none());
    assert_eq!(STORED_TYPES, [1, 2, 4, 5, 6]);
}

fn folder(id: &str, parent: &str) -> Folder {
    Folder { id: id.into(), parent_id: parent.into(), title: id.to_uppercase(), icon: String::new(), note_count: 0 }
}

#[test]
fn folder_tree_is_listed_depth_first() {
    let all = vec![folder("b", "a"), folder("a", ""), folder("c", ""), folder("d", "b"), folder("e", "a")];
    assert_eq!(folder_outline(&all, "", true), vec![(1, 0), (0, 1), (3, 2), (4, 1), (2, 0)]);
    assert_eq!(folder_outline(&all, "a", false), vec![(1, 0), (0, 1), (3, 2), (4, 1)]);
    assert_eq!(folder_outline(&all, "zz", false), vec![]);
    // A cycle of parents stops once the walk is deeper than the folder count.
    let looped = vec![folder("x", "y"), folder("y", "x")];
    assert_eq!(folder_outline(&looped, "x", false).len(), 4);
}

fn summary(id: &str) -> omanote::store::NoteSummary {
    omanote::store::NoteSummary {
        id: id.into(),
        parent_id: String::new(),
        title: String::new(),
        preview: String::new(),
        updated_time: 0,
        is_conflict: false,
        encrypted: false,
    }
}

#[test]
fn notes_named_by_id_prefix() {
    let notes = vec![summary("abc123"), summary("abd456"), summary("ffe000")];
    assert!(matches!(note_by_prefix(&notes, "abc"), IdMatch::Unique(id) if id == "abc123"));
    assert!(matches!(note_by_prefix(&notes, "ab"), IdMatch::Ambiguous(2)));
    assert!(matches!(note_by_prefix(&notes, "zz"), IdMatch::Missing));
    assert!(matches!(note_by_prefix(&notes, "ffe000"), IdMatch::Unique(id) if id == "ffe000"));
}

#[test]
fn folder_cannot_move_into_itself() {
    let subtree = vec!["a".to_string(), "b".to_string()];
    assert!(omanote::store::moves_into_itself(&subtree, "b"));
    assert!(!omanote::store::moves_into_itself(&subtree, "c"));
}

#[test]
fn trash_is_filtered_by_root() {
    let parents = vec![("b".to_string(), "a".to_string()), ("a".to_string(), String::new())];
    let item = |id: &str, parent: &str| TrashItem {
        id: id.into(),
        parent_id: parent.into(),
        title: id.into(),
        is_folder: false,
        deleted_time: 1,
        encrypted: false,
    };
    let items = vec![item("n1", "b"), item("n2", "c"), item("n3", "a")];
    let kept: Vec<String> = trashed_under(&parents, "a", items).into_iter().map(|t| t.id).collect();
    assert_eq!(kept, vec!["n1".to_string(), "n3".to_string()]);
}
