use argon2::password_hash::SaltString;
use argon2::{Argon2, PasswordHasher};
use bifrost_api::apikeys::{hash_key, new_key, DISPLAY_PREFIX_LEN, KEY_PREFIX};
use bifrost_api::auth::{login_outcome, login_refusal, login_verdict, new_session, LoginOutcome};

fn stored_hash(password: &str) -> String {
    let salt = SaltString::from_b64("c29tZXNhbHRzb21lc2FsdA").unwrap();
    Argon2::default().hash_password(password.as_bytes(), &salt).unwrap().to_string()
}

#[test]
fn the_right_password_logs_in() {
    let h = stored_hash("hunter2");
    assert_eq!(login_outcome(Some(&h), "hunter2"), LoginOutcome::Granted);
    assert_eq!(login_refusal(LoginOutcome::Granted), None);
}

#[test]
fn a_wrong_password_is_refused() {
    let h = stored_hash("hunter2");
    assert_eq!(login_outcome(Some(&h), "hunter3"), LoginOutcome::WrongPassword);
    assert_eq!(login_refusal(LoginOutcome::WrongPassword), Some((401, "wrong password")));
}

#[test]
fn missing_or_garbled_hashes_are_reported() {
    assert_eq!(login_outcome(None, "x"), LoginOutcome::NotConfigured);
    assert_eq!(login_outcome(Some("not a phc string"), "x"), LoginOutcome::BadHash);
    assert_eq!(login_refusal(LoginOutcome::NotConfigured), Some((401, "not configured")));
    assert_eq!(login_refusal(LoginOutcome::BadHash), Some((500, "bad hash")));
}

#[test]
fn login_verdicts_follow_the_checks_in_order() {
    assert_eq!(login_verdict(None), LoginOutcome::NotConfigured);
    assert_eq!(login_verdict(Some((false, true))), LoginOutcome::BadHash);
    assert_eq!(login_verdict(Some((true, true))), LoginOutcome::Granted);
    assert_eq!(login_verdict(Some((true, false))), LoginOutcome::WrongPassword);
}

fn is_uuid_text(s: &str) -> bool {
    s.len() == 36
        && s.chars().enumerate().all(|(i, c)| {
            if [8, 13, 18, 23].contains(&i) {
                c == '-'
            } else {
                c.is_ascii_digit() || ('a'..='f').contains(&c)
            }
        })
}

#[test]
fn sessions_get_fresh_ids_in_their_cookie() {
    let (id, cookie) = new_session();
    assert!(is_uuid_text(&id), "{id}");
    assert_eq!(
        cookie,
        format!("bifrost_session={id}; HttpOnly; SameSite=Strict; Path=/; Max-Age=604800")
    );
    let (other, _) = new_session();
    assert_ne!(id, other);
}

#[test]
fn new_keys_carry_their_hash_and_prefix() {
    let k = new_key("  Hall tablet ").unwrap();
    assert_eq!(k.name, "Hall tablet");
    assert!(is_uuid_text(&k.id));
    assert!(k.key.starts_with(KEY_PREFIX));
    assert_eq!(k.key_hash, hash_key(&k.key));
    assert_eq!(k.prefix, &k.key[..DISPLAY_PREFIX_LEN]);
    assert!(new_key("   ").is_none());
}
