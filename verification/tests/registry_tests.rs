use channel_monitor::entry::Channel;
use channel_monitor::registry::Registry;

fn names(reg: &Registry) -> Vec<Vec<u8>> {
    reg.snapshot().iter().map(|c| c.name.clone()).collect()
}

#[test]
fn add_and_remove_keep_insertion_order() {
    let mut reg = Registry::new();
    reg.add(&b"alpha".to_vec());
    reg.add(&b"beta".to_vec());
    reg.add(&b"gamma".to_vec());
    reg.remove(&b"beta".to_vec());
    reg.add(&b"delta".to_vec());
    assert_eq!(names(&reg), vec![b"alpha".to_vec(), b"gamma".to_vec(), b"delta".to_vec()]);
}

#[test]
fn add_trims_whitespace() {
    let mut reg = Registry::new();
    reg.add(&b"  alpha \t\r\n".to_vec());
    assert_eq!(names(&reg), vec![b"alpha".to_vec()]);
}

#[test]
fn blank_add_is_noop() {
    let mut reg = Registry::new();
    reg.add(&b"alpha".to_vec());
    reg.add(&b"".to_vec());
    reg.add(&b"   \t \n ".to_vec());
    assert_eq!(reg.snapshot().len(), 1);
}

#[test]
fn new_entry_starts_offline_with_defaults() {
    let mut reg = Registry::new();
    reg.add(&b"alpha".to_vec());
    let snap = reg.snapshot();
    assert_eq!(snap.len(), 1);
    assert!(!snap[0].is_live);
    assert!(!snap[0].auto_open);
    assert!(!snap[0].opened_this_session);
}

#[test]
fn remove_of_missing_name_is_noop() {
    let mut reg = Registry::new();
    reg.add(&b"alpha".to_vec());
    reg.remove(&b"beta".to_vec());
    assert_eq!(names(&reg), vec![b"alpha".to_vec()]);
}

#[test]
fn remove_deletes_every_duplicate() {
    let mut reg = Registry::new();
    reg.add(&b"alpha".to_vec());
    reg.add(&b"beta".to_vec());
    reg.add(&b"alpha".to_vec());
    reg.remove(&b"alpha".to_vec());
    assert_eq!(names(&reg), vec![b"beta".to_vec()]);
}

#[test]
fn update_preference_touches_only_matching_entry() {
    let mut reg = Registry::new();
    reg.add(&b"alpha".to_vec());
    reg.add(&b"beta".to_vec());
    reg.update_preference(&b"beta".to_vec(), true);
    let snap = reg.snapshot();
    assert!(!snap[0].auto_open);
    assert!(snap[1].auto_open);
}

#[test]
fn status_update_sets_liveness_by_membership() {
    let mut reg = Registry::new();
    reg.add(&b"alpha".to_vec());
    reg.add(&b"beta".to_vec());
    let live = vec![b"alpha".to_vec()];
    let opens = reg.apply_status_update(&live);
    assert!(opens.is_empty());
    let snap = reg.snapshot();
    assert!(snap[0].is_live);
    assert!(!snap[1].is_live);
    assert_eq!(snap[0].name, b"alpha".to_vec());
    assert_eq!(snap[1].name, b"beta".to_vec());
    assert!(!snap[1].auto_open);
    assert!(!snap[1].opened_this_session);
}

#[test]
fn transition_fires_once_and_not_again_while_live() {
    let mut reg = Registry::new();
    reg.add(&b"alpha".to_vec());
    reg.update_preference(&b"alpha".to_vec(), true);
    let live = vec![b"alpha".to_vec()];
    let opens = reg.apply_status_update(&live);
    assert_eq!(opens, vec![b"alpha".to_vec()]);
    let snap = reg.snapshot();
    assert!(snap[0].is_live);
    assert!(snap[0].opened_this_session);
    // a later cycle that keeps the channel live must not re-fire
    let opens2 = reg.apply_status_update(&live);
    assert!(opens2.is_empty());
    assert!(reg.snapshot()[0].opened_this_session);
}

#[test]
fn going_offline_resets_session_and_rearms_exactly_one_more_firing() {
    let mut reg = Registry::new();
    reg.add(&b"alpha".to_vec());
    reg.update_preference(&b"alpha".to_vec(), true);
    let live = vec![b"alpha".to_vec()];
    let none_live: Vec<Vec<u8>> = vec![];
    assert_eq!(reg.apply_status_update(&live), vec![b"alpha".to_vec()]);
    let opens_off = reg.apply_status_update(&none_live);
    assert!(opens_off.is_empty());
    let snap = reg.snapshot();
    assert!(!snap[0].is_live);
    assert!(!snap[0].opened_this_session);
    // re-armed: the next offline-to-live transition fires exactly once more
    assert_eq!(reg.apply_status_update(&live), vec![b"alpha".to_vec()]);
    assert!(reg.apply_status_update(&live).is_empty());
}

#[test]
fn no_open_without_preference() {
    let mut reg = Registry::new();
    reg.add(&b"alpha".to_vec());
    let live = vec![b"alpha".to_vec()];
    assert!(reg.apply_status_update(&live).is_empty());
    assert!(reg.snapshot()[0].is_live);
    assert!(!reg.snapshot()[0].opened_this_session);
}

#[test]
fn entry_duplicate_copies_all_fields() {
    let c = Channel {
        name: b"alpha".to_vec(),
        is_live: true,
        auto_open: true,
        opened_this_session: true,
    };
    let d = c.duplicate();
    assert_eq!(d.name, c.name);
    assert_eq!(d.is_live, c.is_live);
    assert_eq!(d.auto_open, c.auto_open);
    assert_eq!(d.opened_this_session, c.opened_this_session);
}
