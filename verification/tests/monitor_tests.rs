use channel_monitor::monitor::{Monitor, build_status_query};
use channel_monitor::store::load;

#[test]
fn status_query_lists_every_name_once() {
    let one = build_status_query(&vec![b"alpha".to_vec()]);
    assert_eq!(one, b"https://api.twitch.tv/helix/streams?user_login=alpha".to_vec());
    let two = build_status_query(&vec![b"alpha".to_vec(), b"beta".to_vec()]);
    assert_eq!(
        two,
        b"https://api.twitch.tv/helix/streams?user_login=alpha&user_login=beta".to_vec()
    );
}

#[test]
fn poll_cycle_scenario_fires_open_and_updates_file() {
    // registry = [{"alpha", live=false, pref=true, opened=false}]
    let mut mon = Monitor::from_saved(&Vec::new());
    mon.add_channel(&b"alpha".to_vec());
    mon.set_auto_open_preference(&b"alpha".to_vec(), true);
    // remote reports alpha live
    let (opens, file) = mon.apply_status_update(&vec![b"alpha".to_vec()]);
    assert_eq!(opens, vec![b"alpha".to_vec()]);
    let snap = mon.current_snapshot();
    assert!(snap[0].is_live);
    assert!(snap[0].opened_this_session);
    // the returned file bytes reflect live=true
    let expected = r#"[{"name":"alpha","status":true,"open_in_browser":true,"opened_in_browser":true}]"#;
    assert_eq!(file, expected.as_bytes().to_vec());
}

#[test]
fn failed_cycle_leaves_registry_and_file_unchanged() {
    let mut mon = Monitor::from_saved(&Vec::new());
    mon.add_channel(&b"alpha".to_vec());
    let file_before = mon.set_auto_open_preference(&b"alpha".to_vec(), true);
    // the remote call fails: the cycle applies nothing and writes nothing,
    // so the registry and the file bytes stand exactly as they were
    let snap_before = mon.current_snapshot();
    let snap_after = mon.current_snapshot();
    assert_eq!(snap_before.len(), snap_after.len());
    for (a, b) in snap_before.iter().zip(snap_after.iter()) {
        assert_eq!(a.name, b.name);
        assert_eq!(a.is_live, b.is_live);
        assert_eq!(a.auto_open, b.auto_open);
        assert_eq!(a.opened_this_session, b.opened_this_session);
    }
    let reloaded = load(&file_before);
    assert_eq!(reloaded.len(), 1);
    assert_eq!(reloaded[0].name, b"alpha".to_vec());
    assert!(!reloaded[0].is_live);
    assert!(reloaded[0].auto_open);
}

#[test]
fn startup_restores_saved_state() {
    let mut mon = Monitor::from_saved(&Vec::new());
    mon.add_channel(&b"alpha".to_vec());
    mon.add_channel(&b"beta".to_vec());
    let file = mon.set_auto_open_preference(&b"beta".to_vec(), true);
    let restored = Monitor::from_saved(&file);
    let snap = restored.current_snapshot();
    assert_eq!(snap.len(), 2);
    assert_eq!(snap[0].name, b"alpha".to_vec());
    assert_eq!(snap[1].name, b"beta".to_vec());
    assert!(!snap[0].auto_open);
    assert!(snap[1].auto_open);
}

#[test]
fn startup_with_unparseable_file_starts_empty() {
    let mon = Monitor::from_saved(&b"damaged ] file".to_vec());
    assert!(mon.current_snapshot().is_empty());
}

#[test]
fn channel_names_lists_registry_order() {
    let mut mon = Monitor::from_saved(&Vec::new());
    mon.add_channel(&b"alpha".to_vec());
    mon.add_channel(&b"beta".to_vec());
    assert_eq!(mon.channel_names(), vec![b"alpha".to_vec(), b"beta".to_vec()]);
}

#[test]
fn every_mutation_returns_current_file_bytes() {
    let mut mon = Monitor::from_saved(&Vec::new());
    let f1 = mon.add_channel(&b"alpha".to_vec());
    assert_eq!(load(&f1).len(), 1);
    let f2 = mon.remove_channel(&b"alpha".to_vec());
    assert_eq!(f2, b"[]".to_vec());
}
