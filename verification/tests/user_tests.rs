use vault_sync::error::UserError;
use vault_sync::request::{SyncHeader, SyncRequest};
use vault_sync::user::{
    add_user, compute_hash, create_pass_hash, del_user, passwd, user_exists, user_list, AuthStore,
};

#[test]
fn add_user_registers_and_refuses_duplicates() {
    let mut store = AuthStore::new();
    let args = vec!["alice".to_string(), "secret".to_string()];
    assert!(!user_exists("alice", &store));
    add_user(&args, &mut store).unwrap();
    assert!(user_exists("alice", &store));
    // the stored credential carries a 16-character salt suffix after the
    // 64-character digest
    assert_eq!(store.entries[0].1.chars().count(), 80);
    let again = add_user(&args, &mut store);
    assert!(matches!(again, Err(UserError::Duplicate(_))));
    assert_eq!(store.entries.len(), 1);
}

#[test]
fn stored_credential_verifies_by_its_own_salt() {
    let mut store = AuthStore::new();
    add_user(
        &vec!["carol".to_string(), "pw".to_string()],
        &mut store,
    )
    .unwrap();
    let stored = store.entries[0].1.clone();
    // recomputing under the carried salt reproduces the credential exactly
    assert_eq!(compute_hash("carol", "pw", &stored), stored);
    assert_ne!(compute_hash("carol", "other", &stored), stored);
}

#[test]
fn passwd_replaces_the_credential_for_known_users_only() {
    let mut store = AuthStore::new();
    add_user(&vec!["dave".to_string(), "one".to_string()], &mut store).unwrap();
    let before = store.entries[0].1.clone();
    passwd(&vec!["dave".to_string(), "two".to_string()], &mut store).unwrap();
    let after = store.entries[0].1.clone();
    assert_eq!(compute_hash("dave", "two", &after), after);
    assert_ne!(before, after);
    // an unknown name changes nothing, silently
    passwd(&vec!["nobody".to_string(), "x".to_string()], &mut store).unwrap();
    assert_eq!(store.entries.len(), 1);
    assert_eq!(store.entries[0].1, after);
}

#[test]
fn user_list_and_del_user() {
    let mut store = AuthStore::new();
    assert!(user_list(&store).is_none());
    add_user(&vec!["a".to_string(), "1".to_string()], &mut store).unwrap();
    add_user(&vec!["b".to_string(), "2".to_string()], &mut store).unwrap();
    let names = user_list(&store).unwrap();
    assert_eq!(names, vec!["a".to_string(), "b".to_string()]);
    del_user("a", &mut store).unwrap();
    assert!(!user_exists("a", &store));
    assert!(user_exists("b", &store));
    assert_eq!(user_list(&store).unwrap(), vec!["b".to_string()]);
}

#[test]
fn compute_hash_appends_the_extracted_salt() {
    let stored = create_pass_hash("erin", "pw", "0123456789abcdef");
    let re = compute_hash("erin", "pw", &stored);
    assert!(re.ends_with("0123456789abcdef"));
    assert_eq!(re, stored);
}

#[test]
fn into_output_type_keeps_bytes_and_key() {
    let header = SyncHeader {
        sync_key: "key-123".to_string(),
    };
    let generic: SyncRequest<Vec<u8>> =
        SyncRequest::from_header_and_body(header, vec![1, 2, 3]);
    let typed: SyncRequest<String> = generic.into_output_type();
    assert_eq!(typed.data, vec![1, 2, 3]);
    assert_eq!(typed.sync_key, "key-123");
}
