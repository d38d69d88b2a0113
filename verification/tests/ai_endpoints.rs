use bifrost_api::ai_endpoints::{
    default_true, has_key, key_update, known_role, normalize_base_url, probe_result,
    valid_base_url, validate_endpoint, EndpointError, KeyUpdate, ProbeOutcome,
};

#[test]
fn valid_base_url_accepts_http_and_https() {
    assert!(valid_base_url("http://localhost:8080/v1"));
    assert!(valid_base_url("https://api.example.com"));
    assert!(!valid_base_url("localhost:8080"));
    assert!(!valid_base_url("ftp://x"));
    assert!(!valid_base_url("https://"));
    assert!(!valid_base_url(""));
}

#[test]
fn base_url_length_counts_bytes_after_trimming() {
    assert!(valid_base_url("  http://xy  "));
    // A one-character host after either scheme is enough.
    assert!(valid_base_url("http://x"));
    assert!(!valid_base_url("http://"));
    assert!(valid_base_url("https://x"));
    // Nine bytes: one non-ASCII character after the scheme is enough.
    assert!(valid_base_url("https://é"));
}

#[test]
fn roles_are_the_three_pipeline_stages() {
    assert!(known_role("transcription"));
    assert!(known_role("chat"));
    assert!(known_role("tts"));
    assert!(!known_role("vision"));
    assert!(default_true());
}

#[test]
fn endpoint_writes_are_checked_in_order() {
    let ok = validate_endpoint("chat", " http://h/v1 ", " gpt ").ok().unwrap();
    assert_eq!(ok.base_url, "http://h/v1");
    assert_eq!(ok.model, "gpt");
    assert_eq!(validate_endpoint("vision", "x", "").err(), Some(EndpointError::UnknownRole));
    assert_eq!(validate_endpoint("chat", "x", "").err(), Some(EndpointError::BadBaseUrl));
    assert_eq!(validate_endpoint("chat", "http://h/v1", "  ").err(), Some(EndpointError::MissingModel));
}

#[test]
fn key_updates_have_three_states() {
    assert_eq!(key_update(None), KeyUpdate::Keep);
    assert_eq!(key_update(Some("")), KeyUpdate::Clear);
    assert_eq!(key_update(Some("sk-1")), KeyUpdate::Replace("sk-1".to_string()));
    assert!(has_key(Some("sk")));
    assert!(!has_key(Some("")));
    assert!(!has_key(None));
}

#[test]
fn stored_urls_lose_trailing_slashes() {
    assert_eq!(normalize_base_url("http://h/v1//"), "http://h/v1");
    assert_eq!(normalize_base_url("http://h"), "http://h");
}

#[test]
fn probe_outcomes_read_as_messages() {
    assert_eq!(probe_result(ProbeOutcome::Status { code: 200, text: "200 OK".to_string() }), Ok(()));
    assert_eq!(
        probe_result(ProbeOutcome::Status { code: 401, text: "401 Unauthorized".to_string() }),
        Err("the endpoint rejected the API key (401)".to_string())
    );
    assert_eq!(
        probe_result(ProbeOutcome::Status { code: 404, text: "404 Not Found".to_string() }),
        Err("the endpoint returned 404 Not Found".to_string())
    );
    assert_eq!(probe_result(ProbeOutcome::ConnectFailed), Err("couldn't connect to the endpoint".to_string()));
    assert_eq!(probe_result(ProbeOutcome::TimedOut), Err("the endpoint timed out".to_string()));
    assert_eq!(probe_result(ProbeOutcome::Other("boom".to_string())), Err("boom".to_string()));
}
