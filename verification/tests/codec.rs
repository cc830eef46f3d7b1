use conf_sync::codec::{parse_index_str, u64_to_dec};
use conf_sync::index::TokenInfo;
use conf_sync::keychain::Keychain;
use conf_sync::storage::{serialize_index, KeychainStorage};
use conf_sync::fingerprint::ScopeSet;
use conf_sync::index::JSONTokens;

fn scopes(names: &[&str]) -> Vec<String> {
    names.iter().map(|s| s.to_string()).collect()
}

#[test]
fn empty_index_round_trips() {
    let index = JSONTokens::new();
    let text = serialize_index(&index);
    let parsed = parse_index_str(&text).expect("canonical encoding parses");
    assert!(parsed.is_empty());
}

#[test]
fn awkward_characters_round_trip() {
    let mut index = JSONTokens::new();
    let s = scopes(&["quote\"back\\slash", "newline\nscope", "uni\u{1F511}code"]);
    let tok = TokenInfo {
        access_token: Some("pay\"load\\with\nnoise".to_string()),
        refresh_token: None,
        expires_at: Some(-5),
        id_token: Some(String::new()),
    };
    index.set(ScopeSet::from(&s), tok).unwrap();
    let text = serialize_index(&index);
    let parsed = parse_index_str(&text).expect("canonical encoding parses");
    assert_eq!(parsed.len(), 1);
    let (got_scopes, got_token) = &parsed[0];
    assert_eq!(got_scopes, &s);
    assert_eq!(got_token.access_token.as_deref(), Some("pay\"load\\with\nnoise"));
    assert_eq!(got_token.refresh_token, None);
    assert_eq!(got_token.expires_at, Some(-5));
    assert_eq!(got_token.id_token.as_deref(), Some(""));
}

#[test]
fn trailing_garbage_is_rejected() {
    let index = JSONTokens::new();
    let mut text = serialize_index(&index);
    text.push('x');
    assert!(parse_index_str(&text).is_none());
}

#[test]
fn truncated_content_is_rejected() {
    let mut storage = KeychainStorage::new(Some("f".to_string()));
    let snapshot = storage
        .set(&scopes(&["a"]), TokenInfo {
            access_token: Some("t".to_string()),
            refresh_token: None,
            expires_at: None,
            id_token: None,
        })
        .unwrap()
        .unwrap();
    let truncated: String = snapshot.chars().take(snapshot.chars().count() - 1).collect();
    assert!(parse_index_str(&truncated).is_none());
}

#[test]
fn decimal_rendering_is_exact() {
    assert_eq!(u64_to_dec(0), "0");
    assert_eq!(u64_to_dec(7), "7");
    assert_eq!(u64_to_dec(1234567890), "1234567890");
    assert_eq!(u64_to_dec(u64::MAX), "18446744073709551615");
}

#[test]
fn keychain_key_is_decimal_hash_and_value_is_record_shaped() {
    let mut storage = KeychainStorage::new(None);
    let s = scopes(&["read"]);
    storage
        .set(&s, TokenInfo {
            access_token: Some("a".to_string()),
            refresh_token: None,
            expires_at: None,
            id_token: None,
        })
        .unwrap();
    let plan = storage.keychain_plan();
    assert_eq!(plan.len(), 1);
    let fp = ScopeSet::from(&s);
    assert_eq!(plan[0].0, u64_to_dec(fp.hash.0));
    assert!(!plan[0].1.is_empty());
}

#[test]
fn write_once_policy_skips_existing_entries() {
    assert!(Keychain::should_write(false));
    assert!(!Keychain::should_write(true));
}
