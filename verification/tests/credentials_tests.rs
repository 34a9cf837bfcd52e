use argon2::{Argon2, PasswordHasher};
use vaultcore::{is_valid_credentials, load_users_from_csv};

fn phc_hash(password: &[u8]) -> Vec<u8> {
    Argon2::default()
        .hash_password_with_salt(password, b"a-test-salt-of-16b")
        .expect("hashing")
        .to_string()
        .into_bytes()
}

#[test]
fn records_are_one_per_line_split_at_the_single_pipe() {
    let users = load_users_from_csv(b"alice|h1\nbob|h2\n");
    assert_eq!(users.len(), 2);
    assert_eq!(users[0].username, b"alice".to_vec());
    assert_eq!(users[0].password, b"h1".to_vec());
    assert_eq!(users[1].username, b"bob".to_vec());
    assert_eq!(users[1].password, b"h2".to_vec());
}

#[test]
fn lines_without_exactly_two_fields_are_ignored() {
    let users = load_users_from_csv(b"noseparator\na|b|c\n\ncarol|h3");
    assert_eq!(users.len(), 1);
    assert_eq!(users[0].username, b"carol".to_vec());
    assert_eq!(users[0].password, b"h3".to_vec());
}

#[test]
fn empty_fields_are_kept_as_records() {
    let users = load_users_from_csv(b"|\n");
    assert_eq!(users.len(), 1);
    assert_eq!(users[0].username, b"".to_vec());
    assert_eq!(users[0].password, b"".to_vec());
}

#[test]
fn correct_password_verifies_against_stored_hash() {
    let mut store = Vec::from(b"alice|".as_slice());
    store.extend_from_slice(&phc_hash(b"open-sesame"));
    store.push(b'\n');
    let users = load_users_from_csv(&store);
    assert!(is_valid_credentials(&users, b"alice", b"open-sesame"));
}

#[test]
fn wrong_password_and_unknown_user_fail_alike() {
    let mut store = Vec::from(b"alice|".as_slice());
    store.extend_from_slice(&phc_hash(b"open-sesame"));
    store.push(b'\n');
    let users = load_users_from_csv(&store);
    assert!(!is_valid_credentials(&users, b"alice", b"wrong"));
    assert!(!is_valid_credentials(&users, b"mallory", b"open-sesame"));
}

#[test]
fn malformed_stored_hash_fails_that_lookup_only() {
    let mut store = Vec::from(b"alice|not-a-phc-hash\nbob|".as_slice());
    store.extend_from_slice(&phc_hash(b"hunter2"));
    store.push(b'\n');
    let users = load_users_from_csv(&store);
    assert!(!is_valid_credentials(&users, b"alice", b"anything"));
    assert!(is_valid_credentials(&users, b"bob", b"hunter2"));
}

#[test]
fn first_matching_record_wins_on_duplicate_usernames() {
    let mut store = Vec::from(b"alice|".as_slice());
    store.extend_from_slice(&phc_hash(b"first-password"));
    store.extend_from_slice(b"\nalice|");
    store.extend_from_slice(&phc_hash(b"second-password"));
    store.push(b'\n');
    let users = load_users_from_csv(&store);
    assert!(is_valid_credentials(&users, b"alice", b"first-password"));
    assert!(!is_valid_credentials(&users, b"alice", b"second-password"));
}
