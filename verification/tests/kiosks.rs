use bifrost_api::kiosks::SchedulerMemory;
use bifrost_api::kiosks::{
    checkin_label, clamp_presence_timeout, combined_desired_awake, desired_awake_at, fmt_hhmm,
    kiosk_tick, normalize_schedule, parse_hhmm, presence_grace_secs, presence_verdict,
    schedule_verdict, validate_command, DisplayCommand, KioskCommand, ScheduleError,
};

#[test]
fn parse_hhmm_accepts_valid_clock_times() {
    assert_eq!(parse_hhmm("00:00"), Some(0));
    assert_eq!(parse_hhmm("07:30"), Some(450));
    assert_eq!(parse_hhmm("23:59"), Some(1439));
    assert_eq!(parse_hhmm(" 9:05 "), Some(545));
}

#[test]
fn parse_hhmm_rejects_malformed_or_out_of_range() {
    assert_eq!(parse_hhmm("24:00"), None);
    assert_eq!(parse_hhmm("12:60"), None);
    assert_eq!(parse_hhmm("12"), None);
    assert_eq!(parse_hhmm("noon"), None);
    assert_eq!(parse_hhmm(""), None);
}

#[test]
fn fmt_hhmm_zero_pads_and_roundtrips() {
    assert_eq!(fmt_hhmm(0), "00:00");
    assert_eq!(fmt_hhmm(545), "09:05");
    assert_eq!(fmt_hhmm(1439), "23:59");
    for m in [0u16, 61, 450, 720, 1439] {
        assert_eq!(parse_hhmm(&fmt_hhmm(m)), Some(m));
    }
}

#[test]
fn desired_awake_within_a_wrapping_overnight_window() {
    let (sleep, wake) = (23 * 60, 7 * 60);
    assert!(!desired_awake_at(sleep, wake, 23 * 60));
    assert!(!desired_awake_at(sleep, wake, 3 * 60));
    assert!(desired_awake_at(sleep, wake, 7 * 60));
    assert!(desired_awake_at(sleep, wake, 12 * 60));
    assert!(desired_awake_at(sleep, wake, 22 * 60 + 59));
}

#[test]
fn desired_awake_within_a_same_day_window() {
    let (sleep, wake) = (60, 300);
    assert!(desired_awake_at(sleep, wake, 0));
    assert!(!desired_awake_at(sleep, wake, 60));
    assert!(!desired_awake_at(sleep, wake, 240));
    assert!(desired_awake_at(sleep, wake, 300));
    assert!(desired_awake_at(sleep, wake, 600));
}

#[test]
fn desired_awake_equal_endpoints_is_always_awake() {
    assert!(desired_awake_at(600, 600, 600));
    assert!(desired_awake_at(600, 600, 0));
}

#[test]
fn combined_quiet_hours_is_a_hard_sleep_override() {
    let c = combined_desired_awake;
    assert_eq!(c(Some(false), Some(true)), Some(false));
    assert_eq!(c(Some(false), None), Some(false));
}

#[test]
fn combined_presence_governs_outside_quiet_hours() {
    let c = combined_desired_awake;
    assert_eq!(c(Some(true), Some(true)), Some(true));
    assert_eq!(c(Some(true), Some(false)), Some(false));
    assert_eq!(c(None, Some(true)), Some(true));
    assert_eq!(c(None, Some(false)), Some(false));
}

#[test]
fn combined_falls_back_to_schedule_and_none_when_ungoverned() {
    let c = combined_desired_awake;
    assert_eq!(c(Some(true), None), Some(true));
    assert_eq!(c(None, None), None);
}

#[test]
fn swapped_window_is_the_complement() {
    // Sleeping 23:00→07:00 and sleeping 07:00→23:00 are awake at opposite times.
    for now in [0u16, 60, 419, 420, 720, 1379, 1380, 1439] {
        assert_eq!(desired_awake_at(1380, 420, now), !desired_awake_at(420, 1380, now));
    }
}

#[test]
fn schedule_verdict_needs_enabled_and_distinct_parsable_times() {
    assert_eq!(schedule_verdict(true, Some("23:00"), Some("07:00"), 180), Some(false));
    assert_eq!(schedule_verdict(true, Some("23:00"), Some("07:00"), 720), Some(true));
    assert_eq!(schedule_verdict(false, Some("23:00"), Some("07:00"), 180), None);
    assert_eq!(schedule_verdict(true, Some("07:00"), Some("07:00"), 180), None);
    assert_eq!(schedule_verdict(true, Some("late"), Some("07:00"), 180), None);
    assert_eq!(schedule_verdict(true, None, Some("07:00"), 180), None);
}

#[test]
fn presence_verdict_follows_the_room_with_grace() {
    assert_eq!(presence_verdict(true, true, Some(true), false), Some(true));
    assert_eq!(presence_verdict(true, true, Some(false), true), Some(true));
    assert_eq!(presence_verdict(true, true, Some(false), false), Some(false));
    assert_eq!(presence_verdict(true, true, None, true), None);
    assert_eq!(presence_verdict(false, true, Some(true), true), None);
    assert_eq!(presence_verdict(true, false, Some(true), true), None);
}

#[test]
fn tick_sends_a_command_only_on_a_change() {
    let t = kiosk_tick(None, Some(false), None);
    assert!(t.governed);
    assert_eq!(t.desired, Some(false));
    assert_eq!(t.command, Some(DisplayCommand::Sleep));
    // The same verdict again is quiet.
    let t2 = kiosk_tick(t.desired, Some(false), None);
    assert_eq!(t2.command, None);
    // A flip to awake wakes the screen.
    let t3 = kiosk_tick(Some(false), Some(true), Some(true));
    assert_eq!(t3.command, Some(DisplayCommand::Wake));
    // Ungoverned: nothing to do.
    let t4 = kiosk_tick(Some(true), None, None);
    assert!(!t4.governed);
    assert_eq!(t4.command, None);
    assert_eq!(DisplayCommand::Sleep.as_string(), "sleep");
    assert_eq!(DisplayCommand::Wake.as_string(), "wake");
}

#[test]
fn presence_timeout_is_clamped_and_grace_never_negative() {
    assert_eq!(clamp_presence_timeout(5), 30);
    assert_eq!(clamp_presence_timeout(300), 300);
    assert_eq!(clamp_presence_timeout(99999), 3600);
    assert_eq!(presence_grace_secs(-4), 0);
    assert_eq!(presence_grace_secs(120), 120);
}

#[test]
fn normalize_schedule_rewrites_times_and_requires_a_window_when_enabled() {
    assert_eq!(
        normalize_schedule(true, Some(" 9:05"), Some("7:00")),
        Ok((Some("09:05".to_string()), Some("07:00".to_string())))
    );
    assert_eq!(
        normalize_schedule(true, Some("07:00"), Some("7:00")),
        Err(ScheduleError::NeedsDistinctTimes)
    );
    assert_eq!(normalize_schedule(true, None, Some("07:00")), Err(ScheduleError::NeedsDistinctTimes));
    assert_eq!(normalize_schedule(false, Some("bogus"), None), Ok((None, None)));
}

#[test]
fn validate_command_accepts_the_four_commands_trimmed() {
    assert_eq!(validate_command(" sleep "), Some("sleep".to_string()));
    assert_eq!(validate_command("wake"), Some("wake".to_string()));
    assert_eq!(validate_command("lock"), Some("lock".to_string()));
    assert_eq!(validate_command("update"), Some("update".to_string()));
    assert_eq!(validate_command("reboot"), None);
    assert_eq!(validate_command(""), None);
}

#[test]
fn checkin_label_prefers_the_trimmed_name_then_the_key() {
    assert_eq!(checkin_label(Some("  Kitchen "), Some("key".to_string())), "Kitchen");
    assert_eq!(checkin_label(Some("   "), Some("Hall tablet".to_string())), "Hall tablet");
    assert_eq!(checkin_label(None, None), "Kiosk");
}

#[test]
fn broadcast_commands_are_addressed_by_kiosk_id() {
    let c = KioskCommand { kiosk_id: "k1".to_string(), command: "sleep".to_string() };
    assert!(c.is_for("k1"));
    assert!(!c.is_for("k2"));
}

#[test]
fn scheduler_sends_changes_retries_failures_and_forgets_ungoverned() {
    let mut m = SchedulerMemory::new();
    let tick = |a: Option<bool>, b: Option<bool>| vec![("k1".to_string(), a), ("k2".to_string(), b)];
    // First tick: both governed, both owed their state; k2's queue fails.
    let v = tick(Some(false), Some(true));
    assert_eq!(m.commands(&v), vec![Some(false), Some(true)]);
    m.settle(&v, &vec![true, false]);
    // Same verdicts: k1 is quiet, k2 is retried.
    assert_eq!(m.commands(&v), vec![None, Some(true)]);
    m.settle(&v, &vec![false, true]);
    assert_eq!(m.commands(&v), vec![None, None]);
    // k1 stops being governed and is forgotten; governed again it is re-sent.
    let v2 = tick(None, Some(true));
    assert_eq!(m.commands(&v2), vec![None, None]);
    m.settle(&v2, &vec![false, false]);
    assert_eq!(m.last.len(), 1);
    assert_eq!(m.commands(&v), vec![Some(false), None]);
    // A change of verdict is sent.
    assert_eq!(m.commands(&tick(Some(false), Some(false))), vec![Some(false), Some(false)]);
}
