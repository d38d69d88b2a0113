use bifrost_api::dashboards::{check_bg_upload, media_type, BG_MEDIA_MAX_BYTES};
use bifrost_api::dedup::{is_self_shadow, shadow_plan, HwRow};
use bifrost_api::dev::{dev_guard, entity_domain, journal_limit, raw_source, RawSource};
use bifrost_api::feeds::{overfetch, recent_cache_key, recent_limit, MAX_LIMIT};
use bifrost_api::generic::{classify_control_error, set_control_status, SetControlOutcome};

fn hw(id: &str, hw_id: &str, native: bool) -> HwRow {
    HwRow { id: id.into(), hw_id: hw_id.into(), native }
}

#[test]
fn integration_copy_is_shadowed_by_native_on_hw_match() {
    let plan = shadow_plan(&vec![hw("l-native", "mac:aabbccddeeff", true), hw("l-ha", "mac:aabbccddeeff", false)]);
    // Native wins: the copy points at it, the native stays visible.
    assert_eq!(plan, vec![("l-ha".to_string(), "l-native".to_string())]);
}

#[test]
fn no_native_side_means_no_shadow() {
    assert!(shadow_plan(&vec![hw("l-a", "mac:aabbccddeeff", false), hw("l-b", "mac:aabbccddeeff", false)]).is_empty());
}

#[test]
fn mismatched_hw_ids_are_not_de_duped() {
    assert!(shadow_plan(&vec![hw("l-native", "mac:111111111111", true), hw("l-ha", "mac:222222222222", false)]).is_empty());
}

#[test]
fn removing_native_resurfaces_the_integration_copy() {
    let before = shadow_plan(&vec![hw("l-native", "mac:aabbccddeeff", true), hw("l-ha", "mac:aabbccddeeff", false)]);
    assert_eq!(before, vec![("l-ha".to_string(), "l-native".to_string())]);
    // Once the native device is gone the copy is planned under nothing.
    assert!(shadow_plan(&vec![hw("l-ha", "mac:aabbccddeeff", false)]).is_empty());
}

#[test]
fn the_smallest_native_id_is_canonical() {
    let plan = shadow_plan(&vec![
        hw("ha-1", "x", false),
        hw("n-b", "x", true),
        hw("n-a", "x", true),
        hw("ha-2", "x", false),
    ]);
    assert_eq!(
        plan,
        vec![("ha-1".to_string(), "n-a".to_string()), ("ha-2".to_string(), "n-a".to_string())]
    );
}

#[test]
fn cannot_shadow_self() {
    assert!(is_self_shadow("l-a", &Some("l-a".into())));
    assert!(!is_self_shadow("l-a", &Some("l-b".into())));
    assert!(!is_self_shadow("l-a", &None));
}

#[test]
fn background_uploads_are_checked_by_type_and_size() {
    assert_eq!(media_type(Some(" Image/PNG ; charset=x")), "image/png");
    assert_eq!(media_type(None), "");
    assert_eq!(check_bg_upload("image/png", 10), None);
    assert_eq!(check_bg_upload("image/png", 0), Some((422, "empty upload".to_string())));
    let (code, _) = check_bg_upload("text/plain", 10).unwrap();
    assert_eq!(code, 415);
    assert_eq!(BG_MEDIA_MAX_BYTES, 25 * 1024 * 1024);
}

#[test]
fn feed_limits_are_clamped() {
    assert_eq!(recent_limit(None), 6);
    assert_eq!(recent_limit(Some(0)), 1);
    assert_eq!(recent_limit(Some(99)), MAX_LIMIT);
    assert_eq!(recent_limit(Some(12)), 12);
    assert_eq!(overfetch(6), 30);
    assert_eq!(recent_cache_key("plex", "tv", 6), "plex:tv:6");
}

#[test]
fn diagnostic_routes_are_gated() {
    assert_eq!(dev_guard(false, true), Some(404));
    assert_eq!(dev_guard(true, false), Some(401));
    assert_eq!(dev_guard(true, true), None);
    assert_eq!(journal_limit(None), 200);
    assert_eq!(journal_limit(Some(50)), 50);
    assert_eq!(journal_limit(Some(9000)), 500);
    assert_eq!(raw_source("hue"), RawSource::HueResource);
    assert_eq!(raw_source("ha"), RawSource::HaEntity);
    assert_eq!(raw_source("govee"), RawSource::Unsupported);
    assert_eq!(entity_domain("light.kitchen"), "light");
    assert_eq!(entity_domain("nodot"), "nodot");
}

#[test]
fn control_errors_map_to_statuses() {
    assert_eq!(
        classify_control_error("no service mapping for fan".into()),
        SetControlOutcome::BadCommand("no service mapping for fan".into())
    );
    assert_eq!(classify_control_error("timeout".into()), SetControlOutcome::ProviderError);
    assert_eq!(set_control_status(&SetControlOutcome::Done), 204);
    assert_eq!(set_control_status(&SetControlOutcome::BadCommand(String::new())), 422);
    assert_eq!(set_control_status(&SetControlOutcome::ProviderError), 502);
}
