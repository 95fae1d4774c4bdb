use channel_monitor::entry::Channel;
use channel_monitor::store::{save, load};

fn entry(name: &[u8], is_live: bool, auto_open: bool, opened: bool) -> Channel {
    Channel { name: name.to_vec(), is_live, auto_open, opened_this_session: opened }
}

fn assert_same(a: &[Channel], b: &[Channel]) {
    assert_eq!(a.len(), b.len());
    for (x, y) in a.iter().zip(b.iter()) {
        assert_eq!(x.name, y.name);
        assert_eq!(x.is_live, y.is_live);
        assert_eq!(x.auto_open, y.auto_open);
        assert_eq!(x.opened_this_session, y.opened_this_session);
    }
}

#[test]
fn save_writes_exact_json_text() {
    let entries = vec![entry(b"alpha", false, true, false), entry(b"beta", true, false, true)];
    let bytes = save(&entries);
    let expected = r#"[{"name":"alpha","status":false,"open_in_browser":true,"opened_in_browser":false},{"name":"beta","status":true,"open_in_browser":false,"opened_in_browser":true}]"#;
    assert_eq!(bytes, expected.as_bytes().to_vec());
}

#[test]
fn save_of_empty_registry_is_empty_array() {
    let bytes = save(&Vec::new());
    assert_eq!(bytes, b"[]".to_vec());
}

#[test]
fn save_output_is_real_json() {
    let entries = vec![entry(b"alpha", true, false, false)];
    let bytes = save(&entries);
    let value: serde_json::Value = serde_json::from_slice(&bytes).unwrap();
    let list = value.as_array().unwrap();
    assert_eq!(list.len(), 1);
    assert_eq!(list[0].get("name").unwrap().as_str().unwrap(), "alpha");
    assert_eq!(list[0].get("status").unwrap().as_bool().unwrap(), true);
    assert_eq!(list[0].get("open_in_browser").unwrap().as_bool().unwrap(), false);
    assert_eq!(list[0].get("opened_in_browser").unwrap().as_bool().unwrap(), false);
}

#[test]
fn round_trip_reproduces_entries() {
    let entries = vec![
        entry(b"alpha", false, true, false),
        entry(b"beta", true, true, true),
        entry(b"gamma", false, false, false),
    ];
    let loaded = load(&save(&entries));
    assert_same(&entries, &loaded);
}

#[test]
fn round_trip_of_empty_registry() {
    let loaded = load(&save(&Vec::new()));
    assert!(loaded.is_empty());
}

#[test]
fn round_trip_escapes_quotes_and_backslashes() {
    let entries = vec![entry(b"a\"b\\c", true, false, false)];
    let bytes = save(&entries);
    let loaded = load(&bytes);
    assert_same(&entries, &loaded);
    // and the escaping is the JSON one, readable by any JSON parser
    let value: serde_json::Value = serde_json::from_slice(&bytes).unwrap();
    assert_eq!(value.as_array().unwrap()[0].get("name").unwrap().as_str().unwrap(), "a\"b\\c");
}

#[test]
fn load_of_garbage_is_empty() {
    assert!(load(&b"".to_vec()).is_empty());
    assert!(load(&b"not json at all".to_vec()).is_empty());
    assert!(load(&b"{\"name\":\"alpha\"}".to_vec()).is_empty());
    assert!(load(&b"[".to_vec()).is_empty());
    assert!(load(&b"[{\"name\":\"alpha\"".to_vec()).is_empty());
}

#[test]
fn load_rejects_trailing_bytes() {
    let mut bytes = save(&vec![entry(b"alpha", false, false, false)]);
    bytes.push(b' ');
    assert!(load(&bytes).is_empty());
}
