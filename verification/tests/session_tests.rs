use vaultcore::{authenticate, generate_session_id, get_session_id_from_cookie_value, SessionStore};

#[test]
fn insert_get_remove_round_trip() {
    let mut store = SessionStore::new();
    store.insert(7, b"alice".to_vec());
    assert_eq!(store.get(7), Some(b"alice".to_vec()));
    store.remove(7);
    assert_eq!(store.get(7), None);
}

#[test]
fn insert_overwrites_silently() {
    let mut store = SessionStore::new();
    store.insert(7, b"alice".to_vec());
    store.insert(7, b"bob".to_vec());
    assert_eq!(store.get(7), Some(b"bob".to_vec()));
}

#[test]
fn remove_of_missing_id_is_idempotent() {
    let mut store = SessionStore::new();
    store.remove(42);
    store.insert(1, b"alice".to_vec());
    store.remove(42);
    assert_eq!(store.get(1), Some(b"alice".to_vec()));
}

#[test]
fn generated_id_misses_every_live_session() {
    let mut store = SessionStore::new();
    store.insert(1, b"a".to_vec());
    store.insert(2, b"b".to_vec());
    store.insert(3, b"c".to_vec());
    for _ in 0..32 {
        let id = generate_session_id(&store);
        assert_eq!(store.get(id), None);
    }
}

#[test]
fn cookie_value_parses_as_decimal() {
    assert_eq!(get_session_id_from_cookie_value(b"0"), Some(0));
    assert_eq!(get_session_id_from_cookie_value(b"123456789"), Some(123456789));
    assert_eq!(
        get_session_id_from_cookie_value(b"18446744073709551615"),
        Some(u64::MAX)
    );
}

#[test]
fn bad_cookie_values_are_rejected() {
    assert_eq!(get_session_id_from_cookie_value(b""), None);
    assert_eq!(get_session_id_from_cookie_value(b"12a4"), None);
    assert_eq!(get_session_id_from_cookie_value(b"-1"), None);
    assert_eq!(get_session_id_from_cookie_value(b" 12"), None);
    // one past the largest 64-bit value
    assert_eq!(get_session_id_from_cookie_value(b"18446744073709551616"), None);
}

#[test]
fn authenticate_resolves_live_sessions_only() {
    let mut store = SessionStore::new();
    store.insert(99, b"alice".to_vec());
    let session = authenticate(&store, b"99").expect("live session");
    assert_eq!(session.session_id, 99);
    assert_eq!(session.username, b"alice".to_vec());
    assert!(authenticate(&store, b"100").is_none());
    assert!(authenticate(&store, b"not-a-number").is_none());
}
