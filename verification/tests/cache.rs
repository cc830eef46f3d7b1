use conf_sync::fingerprint::ScopeSet;
use conf_sync::index::{JSONTokens, TokenInfo};
use conf_sync::storage::KeychainStorage;
use conf_sync::StorageError;
use conf_sync::FilterResponse;

fn scopes(names: &[&str]) -> Vec<String> {
    names.iter().map(|s| s.to_string()).collect()
}

fn token(tag: &str, expiry: Option<i64>) -> TokenInfo {
    TokenInfo {
        access_token: Some(format!("access-{}", tag)),
        refresh_token: Some(format!("refresh-{}", tag)),
        expires_at: expiry,
        id_token: None,
    }
}

#[test]
fn fingerprint_is_order_independent() {
    let a = scopes(&["read", "write", "admin"]);
    let b = scopes(&["admin", "read", "write"]);
    let fa = ScopeSet::from(&a);
    let fb = ScopeSet::from(&b);
    assert_eq!(fa.hash, fb.hash);
    assert_eq!(fa.filter, fb.filter);
}

#[test]
fn fingerprint_distinguishes_scopes() {
    let a = scopes(&["alpha"]);
    let b = scopes(&["beta"]);
    let fa = ScopeSet::from(&a);
    let fb = ScopeSet::from(&b);
    assert_ne!(fa.hash, fb.hash);
}

#[test]
fn filter_subset_never_false_negative() {
    let small = scopes(&["read"]);
    let big = scopes(&["read", "write", "admin"]);
    let fs = ScopeSet::from(&small);
    let fb = ScopeSet::from(&big);
    assert_eq!(fs.filter.is_subset_of(fb.filter), FilterResponse::Maybe);
    let same = ScopeSet::from(&big);
    assert_eq!(fb.filter.is_subset_of(same.filter), FilterResponse::Maybe);
}

#[test]
fn empty_cache_lookup_returns_nothing() {
    let storage = KeychainStorage::new(None);
    let req = scopes(&["anything", "at", "all"]);
    assert!(storage.get(&req).is_none());
}

#[test]
fn overwrite_leaves_one_record() {
    let mut index = JSONTokens::new();
    let s = scopes(&["x"]);
    index.set(ScopeSet::from(&s), token("one", None)).unwrap();
    index.set(ScopeSet::from(&s), token("two", None)).unwrap();
    assert_eq!(index.len(), 1);
    let got = index.get(ScopeSet::from(&s)).unwrap();
    assert_eq!(got.access_token.as_deref(), Some("access-two"));
    assert_eq!(got.refresh_token.as_deref(), Some("refresh-two"));
}

#[test]
fn subset_retrieval_finds_superset_record() {
    let mut storage = KeychainStorage::new(None);
    let stored = scopes(&["read", "write", "admin"]);
    storage.set(&stored, token("wide", Some(99))).unwrap();
    let req = scopes(&["read"]);
    let got = storage.get(&req).unwrap();
    assert_eq!(got.access_token.as_deref(), Some("access-wide"));
    assert_eq!(got.expires_at, Some(99));
}

#[test]
fn no_record_is_a_superset() {
    let mut storage = KeychainStorage::new(None);
    let stored = scopes(&["read"]);
    storage.set(&stored, token("narrow", None)).unwrap();
    let req = scopes(&["read", "write"]);
    assert!(storage.get(&req).is_none());
}

#[test]
fn exact_round_trip_through_save_and_load() {
    let mut storage = KeychainStorage::new(Some("keystorage".to_string()));
    let stored = scopes(&["a", "b"]);
    let snapshot = storage
        .set(&stored, token("rt", Some(77)))
        .unwrap()
        .expect("a configured file yields a snapshot");

    let mut reloaded = KeychainStorage::new(Some("keystorage".to_string()));
    reloaded.hydrate_content(Some(&snapshot)).unwrap();
    let req = scopes(&["b", "a"]);
    let got = reloaded.get(&req).expect("order-independent retrieval after persistence");
    assert_eq!(got.access_token.as_deref(), Some("access-rt"));
    assert_eq!(got.refresh_token.as_deref(), Some("refresh-rt"));
    assert_eq!(got.expires_at, Some(77));
}

#[test]
fn distinct_scope_sets_keep_one_record_each() {
    let mut storage = KeychainStorage::new(None);
    let names = ["one", "two", "three", "four", "five", "six"];
    for n in names.iter() {
        let s = scopes(&[n, "shared"]);
        storage.set(&s, token(n, None)).unwrap();
    }
    for n in names.iter() {
        let s = scopes(&[n, "shared"]);
        let got = storage.get(&s).unwrap();
        assert_eq!(got.access_token.unwrap(), format!("access-{}", n));
    }
    assert_eq!(storage.keychain_plan().len(), names.len());
}

#[test]
fn hydrate_merges_into_existing_records() {
    let mut first = KeychainStorage::new(Some("f".to_string()));
    let s1 = scopes(&["left"]);
    let snapshot = first.set(&s1, token("l", None)).unwrap().unwrap();

    let mut second = KeychainStorage::new(None);
    let s2 = scopes(&["right"]);
    second.set(&s2, token("r", None)).unwrap();
    second.hydrate_content(Some(&snapshot)).unwrap();

    assert!(second.get(&s1).is_some());
    assert!(second.get(&s2).is_some());
}

#[test]
fn hydrate_of_missing_file_is_not_an_error() {
    let mut storage = KeychainStorage::new(None);
    assert!(storage.hydrate_content(None).is_ok());
    assert!(storage.get(&scopes(&["any"])).is_none());
}

#[test]
fn hydrate_of_malformed_content_is_a_serialization_error() {
    let mut storage = KeychainStorage::new(None);
    let err = storage.hydrate_content(Some("not a valid file")).unwrap_err();
    assert_eq!(err, StorageError::Serialization);
}

#[test]
fn hydrate_failure_leaves_index_unchanged() {
    let mut storage = KeychainStorage::new(None);
    let s = scopes(&["kept"]);
    storage.set(&s, token("k", None)).unwrap();
    assert!(storage.hydrate_content(Some("garbage")).is_err());
    assert!(storage.get(&s).is_some());
    assert_eq!(storage.keychain_plan().len(), 1);
}
