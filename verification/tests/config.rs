use omanote::config::{setup_config, setup_master, Config, SetupRefusal};

#[test]
fn master_password_for_setup() {
    assert_eq!(setup_master(true, None), Err(SetupRefusal::MasterPasswordRequired));
    assert_eq!(setup_master(true, Some(String::new())), Err(SetupRefusal::MasterPasswordRequired));
    assert_eq!(setup_master(true, Some("pw".into())), Ok(Some("pw".to_string())));
    assert_eq!(setup_master(false, Some(String::new())), Ok(None));
}

#[test]
fn settings_after_setup() {
    let mut old = Config::default();
    old.server_url = "https://joplin.example.com".into();
    old.email = "me@example.com".into();
    old.root_folder_id = "0123456789abcdef0123456789abcdef".into();
    old.client_id = "c1".into();
    assert!(matches!(setup_config(&old, "x", "y", true, false), Err(SetupRefusal::WrongMasterPassword)));
    let (c, reset) = setup_config(&old, "  https://joplin.example.com// ", " me@example.com ", true, true).unwrap();
    assert!(!reset);
    assert_eq!(c.server_url, "https://joplin.example.com");
    assert_eq!(c.email, "me@example.com");
    assert_eq!(c.root_folder_id, old.root_folder_id);
    assert_eq!(c.client_id, "c1");
    let (c, reset) = setup_config(&old, "https://other.example.com", "me@example.com", false, false).unwrap();
    assert!(reset);
    assert_eq!(c.root_folder_id, "");
    let (c, _) = setup_config(&Config::default(), "https://a", "b", false, false).unwrap();
    assert_eq!(c.client_id.len(), 32);
}
