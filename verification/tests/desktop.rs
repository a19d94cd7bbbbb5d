use omanote::desktop::{can_sync, sync_changed, sync_interval, unlock_before_sync};
use omanote::desktop::{
    apply_timer_command, clears_finished, launch_action, notification_text, ocr_langs, root_choice, trash_order, Launch,
    RootChoice,
};
use omanote::timer::{Command, Kind, Timer};

fn args(v: &[&str]) -> Vec<String> {
    v.iter().map(|s| s.to_string()).collect()
}

#[test]
fn launch_arguments() {
    assert_eq!(launch_action(&args(&["omanote", "--new", "--toggle"])), Launch::Toggle);
    assert_eq!(launch_action(&args(&["omanote", "--capture", "--new"])), Launch::NewNote);
    assert_eq!(launch_action(&args(&["omanote", "--capture"])), Launch::Capture);
    assert_eq!(launch_action(&args(&["omanote"])), Launch::Show);
}

#[test]
fn working_notebook_choice() {
    assert!(matches!(root_choice(Some("abc".into()), Some("New".into())), RootChoice::Existing(id) if id == "abc"));
    assert!(matches!(root_choice(Some(String::new()), Some(" Work ".into())), RootChoice::Create(t) if t == " Work "));
    assert!(matches!(root_choice(None, Some("  ".into())), RootChoice::Missing));
    assert!(matches!(root_choice(None, None), RootChoice::Missing));
}

#[test]
fn folder_goes_to_trash_bottom_up() {
    let tree = args(&["root", "child", "grandchild"]);
    let notes = args(&["n1", "n2"]);
    assert_eq!(trash_order(&tree, &notes), args(&["n1", "n2", "grandchild", "child", "root"]));
}

#[test]
fn timer_commands_drive_the_timer() {
    let t = apply_timer_command(None, &Command::Countdown { ms: 1000, title: "tea".into() }, 0).unwrap();
    assert_eq!(t.kind, Kind::Countdown);
    let t = apply_timer_command(Some(t), &Command::Pause, 400).unwrap();
    assert!(!t.running);
    assert_eq!(t.elapsed(9000), 400);
    let t = apply_timer_command(Some(t), &Command::Restart, 9000).unwrap();
    assert!(t.running);
    assert_eq!(t.elapsed(9100), 100);
    assert!(apply_timer_command(Some(t), &Command::Stop, 9200).is_none());
    assert!(apply_timer_command(None, &Command::Pause, 0).is_none());
}

#[test]
fn finished_countdown_is_cleared() {
    let mut t = Timer::start(&Command::Countdown { ms: 10, title: String::new() }, 0).unwrap();
    assert!(!clears_finished(&Some(t.clone())));
    assert_eq!(t.advance(20), Some("done"));
    assert!(clears_finished(&Some(t)));
    assert!(!clears_finished(&None));
}

#[test]
fn notifications_are_translated() {
    assert_eq!(notification_text("it", "work_done", ""), "Fine lavoro: pausa!");
    assert_eq!(notification_text("fr", "rest_done", ""), "Fin de la pause : au travail !");
    assert_eq!(notification_text("xx", "done", "Pasta"), "Pasta — Time's up");
    assert_eq!(notification_text("pl", "done", "Pranie"), "Pranie — Czas minął");
}

#[test]
fn ocr_languages() {
    assert_eq!(ocr_langs(Some("jpn+eng"), "eng\n"), "jpn+eng");
    let listing = "List of available languages in \"/usr/share/tessdata/\" (4):\neng\nosd\npol\r\nita \n";
    assert_eq!(ocr_langs(None, listing), "eng+ita+pol");
    assert_eq!(ocr_langs(Some("  "), listing), "eng+ita+pol");
    assert_eq!(ocr_langs(None, "osd\n"), "eng");
}

#[test]
fn sync_decisions() {
    assert_eq!(sync_interval(10), 30);
    assert_eq!(sync_interval(120), 120);
    assert!(!can_sync(""));
    assert!(can_sync("https://joplin.example.com"));
    assert!(unlock_before_sync(true, &None));
    assert!(!unlock_before_sync(true, &Some("k".into())));
    assert!(!unlock_before_sync(false, &None));
    let mut r = omanote::sync::SyncReport::default();
    assert!(!sync_changed(&r));
    r.uploaded = 3;
    assert!(!sync_changed(&r));
    r.conflicts = 1;
    assert!(sync_changed(&r));
}
