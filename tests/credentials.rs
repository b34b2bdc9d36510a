use pinroar::credential::{to_hex, verify_password, AuthError, CredentialStore, UserRecord};
use pinroar::text::chars_of;

#[test]
fn created_user_verifies_with_its_password() {
    let mut store = CredentialStore::new();
    let r = store.create_user("alice".to_string(), "alice@example.com".to_string(), "hunter22", 1_700_000_000_000_000_000);
    assert_eq!(r, Ok(()));
    let rec = store.load_user("alice").unwrap();
    assert_eq!(rec.username, "alice");
    assert_eq!(rec.email, "alice@example.com");
    assert_eq!(rec.salt.len(), 32);
    assert_eq!(rec.password_hash.len(), 32);
    assert_ne!(rec.password_hash, b"hunter22".to_vec());
    assert!(verify_password(&rec, "hunter22"));
}

#[test]
fn wrong_password_is_rejected() {
    let mut store = CredentialStore::new();
    store.create_user("bob".to_string(), "b@x.org".to_string(), "pw", 1_700_000_000_000_000_000).unwrap();
    let rec = store.load_user("bob").unwrap();
    assert!(!verify_password(&rec, "pwx"));
    assert!(!verify_password(&rec, ""));
}

#[test]
fn second_signup_with_same_name_fails() {
    let mut store = CredentialStore::new();
    store.create_user("carol".to_string(), "c@x.org".to_string(), "one", 1_700_000_000_000_000_000).unwrap();
    let first = store.load_user("carol").unwrap();
    let r = store.create_user("carol".to_string(), "other@x.org".to_string(), "two", 1_700_000_000_000_000_000);
    assert_eq!(r, Err(AuthError::UsernameTaken));
    let again = store.load_user("carol").unwrap();
    assert_eq!(again.password_hash, first.password_hash);
    assert_eq!(again.salt, first.salt);
    assert_eq!(again.email, "c@x.org");
    assert!(verify_password(&again, "one"));
}

#[test]
fn empty_name_or_password_is_invalid() {
    let mut store = CredentialStore::new();
    assert_eq!(
        store.create_user("".to_string(), "e@x.org".to_string(), "pw", 1_700_000_000_000_000_000),
        Err(AuthError::InvalidInput)
    );
    assert_eq!(
        store.create_user("dave".to_string(), "e@x.org".to_string(), "", 1_700_000_000_000_000_000),
        Err(AuthError::InvalidInput)
    );
    assert_eq!(store.load_user("dave").err(), Some(AuthError::NotFound));
}

#[test]
fn unknown_user_is_not_found() {
    let store = CredentialStore::new();
    assert_eq!(store.load_user("nobody").err(), Some(AuthError::NotFound));
}

#[test]
fn same_salt_gives_same_hash() {
    let mut store = CredentialStore::new();
    let salt = "0123456789abcdef".to_string();
    store
        .create_user_with_salt("erin".to_string(), "e@x.org".to_string(), "secret", salt.clone())
        .unwrap();
    store
        .create_user_with_salt("frank".to_string(), "f@x.org".to_string(), "secret", salt.clone())
        .unwrap();
    let e = store.load_user("erin").unwrap();
    let f = store.load_user("frank").unwrap();
    assert_eq!(e.salt, salt);
    assert_eq!(e.password_hash, f.password_hash);
    assert!(verify_password(&f, "secret"));
}

#[test]
fn short_salt_is_invalid() {
    let mut store = CredentialStore::new();
    let r = store.create_user_with_salt(
        "gina".to_string(),
        "g@x.org".to_string(),
        "pw",
        "short".to_string(),
    );
    assert_eq!(r, Err(AuthError::InvalidInput));
    assert!(store.load_user("gina").is_err());
}

#[test]
fn record_with_malformed_salt_never_verifies() {
    let rec = UserRecord {
        username: "h".to_string(),
        email: "h@x.org".to_string(),
        salt: "abc".to_string(),
        password_hash: vec![0u8; 32],
    };
    assert!(!verify_password(&rec, "anything"));
}

#[test]
fn hex_encoding_of_bytes() {
    assert_eq!(to_hex(&vec![0x00, 0x0f, 0xa5, 0xff]), "000fa5ff");
    assert_eq!(to_hex(&vec![]), "");
}

#[test]
fn salt_under_sixteen_bytes_is_invalid() {
    let mut store = CredentialStore::new();
    let r = store.create_user_with_salt(
        "ivan".to_string(),
        "i@x.org".to_string(),
        "pw",
        "0123456789abcde".to_string(),
    );
    assert_eq!(r, Err(AuthError::InvalidInput));
}

#[test]
fn hash_of_wrong_length_never_verifies() {
    let mut store = CredentialStore::new();
    let salt = "0123456789abcdef".to_string();
    store.create_user_with_salt("jo".to_string(), "j@x.org".to_string(), "pw", salt).unwrap();
    let mut rec = store.load_user("jo").unwrap();
    assert!(verify_password(&rec, "pw"));
    rec.password_hash.push(0);
    assert!(!verify_password(&rec, "pw"));
}

#[test]
fn restored_record_is_kept_as_is() {
    let mut store = CredentialStore::new();
    let rec = UserRecord {
        username: "kim".to_string(),
        email: "k@x.org".to_string(),
        salt: "0123456789abcdef".to_string(),
        password_hash: vec![9; 32],
    };
    assert_eq!(store.restore_user(rec), Ok(()));
    assert_eq!(store.load_user("kim").unwrap().password_hash, vec![9; 32]);
    let again = UserRecord {
        username: "kim".to_string(),
        email: "other".to_string(),
        salt: "0123456789abcdef".to_string(),
        password_hash: vec![1; 32],
    };
    assert_eq!(store.restore_user(again), Err(AuthError::UsernameTaken));
    assert_eq!(store.load_user("kim").unwrap().email, "k@x.org");
}

#[test]
fn characters_of_a_string() {
    assert_eq!(chars_of("añ✓"), vec!['a', 'ñ', '✓']);
}
