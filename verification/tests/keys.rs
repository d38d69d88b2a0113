use bifrost_api::apikeys::{key_from_bytes, key_record};
use bifrost_api::enrollment::token_from_bytes;
use bifrost_api::apikeys::{
    display_prefix, extract_bearer, generate_key, hash_key, key_name, DISPLAY_PREFIX_LEN, KEY_PREFIX,
};
use bifrost_api::auth::{
    clear_session_cookie, extract_cookie, is_kiosk_user_agent, session_cookie, KIOSK_KEY_COOKIE,
    SESSION_COOKIE,
};
use bifrost_api::enrollment::{enrolled_device_name, generate_token};

#[test]
fn generated_keys_are_prefixed_and_unique() {
    let a = generate_key();
    let b = generate_key();
    assert!(a.starts_with(KEY_PREFIX));
    assert_eq!(a.len(), KEY_PREFIX.len() + 64);
    assert_ne!(a, b, "two generated keys must differ");
}

#[test]
fn hash_is_deterministic_and_distinguishes_keys() {
    let key = generate_key();
    assert_eq!(hash_key(&key), hash_key(&key), "hash must be stable");
    assert_ne!(
        hash_key(&key),
        hash_key(&generate_key()),
        "different keys must hash differently"
    );
    let h = hash_key(&key);
    assert_eq!(h.len(), 64);
    assert!(!h.contains(&key));
}

#[test]
fn extract_bearer_reads_token_and_rejects_garbage() {
    assert_eq!(extract_bearer(Some("Bearer bfr_abc123")), Some("bfr_abc123".to_string()));
    assert_eq!(extract_bearer(Some("Bearer ")), None);
    assert_eq!(extract_bearer(Some("Basic abc")), None);
    assert_eq!(extract_bearer(None), None);
}

#[test]
fn display_prefix_is_recognisable() {
    let key = generate_key();
    let prefix = display_prefix(&key);
    assert!(prefix.starts_with("bfr_"));
    assert_eq!(prefix.len(), DISPLAY_PREFIX_LEN);
}

#[test]
fn hash_key_is_the_hex_of_sha256() {
    // The SHA-256 of "abc" and of the empty string, in lower-case hex.
    assert_eq!(
        hash_key("abc"),
        "ba7816bf8f01cfea414140de5dae2223b00361a396177a9cb410ff61f20015ad"
    );
    assert_eq!(
        hash_key(""),
        "e3b0c44298fc1c149afbf4c8996fb92427ae41e4649b934ca495991b7852b855"
    );
}

#[test]
fn generated_keys_are_lower_case_hex_after_the_prefix() {
    let k = generate_key();
    assert!(k[KEY_PREFIX.len()..].chars().all(|c| c.is_ascii_digit() || ('a'..='f').contains(&c)));
}

#[test]
fn bearer_token_is_trimmed() {
    assert_eq!(extract_bearer(Some("Bearer   tok  ")), Some("tok".to_string()));
    assert_eq!(extract_bearer(Some("bearer tok")), None);
}

#[test]
fn key_names_are_trimmed_and_required() {
    assert_eq!(key_name("  Hall tablet "), Some("Hall tablet".to_string()));
    assert_eq!(key_name("   "), None);
}

#[test]
fn generated_tokens_are_unique_and_long() {
    let a = generate_token();
    let b = generate_token();
    assert_eq!(a.len(), 48, "24 bytes → 48 hex chars");
    assert_ne!(a, b, "two tokens must differ");
    assert!(a.chars().all(|c| c.is_ascii_hexdigit()));
}

#[test]
fn enrolled_devices_get_a_name() {
    assert_eq!(enrolled_device_name(Some(" Kitchen ")), "Kitchen");
    assert_eq!(enrolled_device_name(Some("  ")), "Paired device");
    assert_eq!(enrolled_device_name(None), "Paired device");
}

#[test]
fn cookies_are_read_by_name() {
    let h = "theme=dark; bifrost_session=abc123 ; bfr_key=bfr_xyz";
    assert_eq!(extract_cookie(Some(h), SESSION_COOKIE), Some("abc123".to_string()));
    assert_eq!(extract_cookie(Some(h), KIOSK_KEY_COOKIE), Some("bfr_xyz".to_string()));
    assert_eq!(extract_cookie(Some(h), "missing"), None);
    assert_eq!(extract_cookie(None, SESSION_COOKIE), None);
}

#[test]
fn session_cookies_are_set_and_cleared() {
    assert_eq!(
        session_cookie("s1"),
        "bifrost_session=s1; HttpOnly; SameSite=Strict; Path=/; Max-Age=604800"
    );
    assert_eq!(clear_session_cookie(), "bifrost_session=; HttpOnly; Path=/; Max-Age=0");
}

#[test]
fn kiosk_user_agents_are_recognised() {
    assert!(is_kiosk_user_agent(Some("Mozilla/5.0 BifrostKiosk/1.2")));
    assert!(!is_kiosk_user_agent(Some("curl/8")));
    assert!(!is_kiosk_user_agent(None));
}

#[test]
fn keys_and_tokens_are_their_bytes_in_hex() {
    assert_eq!(key_from_bytes(&[0x00, 0xab, 0x10]), "bfr_00ab10");
    assert_eq!(key_from_bytes(&[]), "bfr_");
    assert_eq!(token_from_bytes(&[0xff, 0x01]), "ff01");
}

#[test]
fn a_key_record_stores_the_hash_and_prefix() {
    let key = key_from_bytes(&[7u8; 32]);
    let rec = key_record("  Home Assistant ", "id-1".into(), key.clone()).unwrap();
    assert_eq!(rec.name, "Home Assistant");
    assert_eq!(rec.id, "id-1");
    assert_eq!(rec.key, key);
    assert_eq!(rec.key_hash, hash_key(&key));
    assert_eq!(rec.prefix, "bfr_07070707");
    assert!(key_record("   ", "id-2".into(), key).is_none());
}
