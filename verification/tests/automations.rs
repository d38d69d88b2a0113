use bifrost_api::automations::{
    apply_patch, check_rule_durations, check_rule_shape, check_rule_subject, device_edge,
    device_trigger_table, fill_reference, in_cooldown, inherit_originals, is_valid_hour_plan,
    light_patch_diverges, observe_hold_light, observe_hold_power, plan_desired, plan_mode,
    plan_verdict_at, release_from_snapshot, schedule_pass, seed_stay, snapshot_target_ids,
    take_due, cancel_left, timer_edge, validate_rule, ActionStep, ActionTargets, HoldObservation,
    HoldRelease, LightStatePatch, RestoreEntry, RuleAction, RuleShape,
    ScheduleTracker, StaySubject, StayTimers, SubjectLookup, TimerEdge, TimerRule, TriggerDeviceDomain,
    TriggerKind,
};
use bifrost_api::automations::room_occupancy;
use bifrost_api::automations::{HeldDevice, HoldRef, HoldWatch};
use bifrost_api::automations::{HoldStep, HoldTable};
use bifrost_api::automations::{schedule_off_writes, OffWrite};
use bifrost_api::automations::{device_event_step, room_event_step, sensor_event_step, EdgeMemory};
use bifrost_api::lights::{Color, LightState};

fn bits(v: f32) -> u32 {
    v.to_bits()
}

fn colour(x: f32, y: f32, b: f32) -> Color {
    Color { x: bits(x), y: bits(y), brightness: bits(b) }
}

fn patch() -> LightStatePatch {
    LightStatePatch { on: None, brightness: None, color: None, color_temp_mirek: None, effect: None, reachable: None }
}

/// Brightness more than 2 points apart; colour more than 0.02 apart on
/// either coordinate — the float tolerances, decided on the f32 values.
fn apart(reference: &LightState, p: &LightStatePatch) -> (bool, bool) {
    let b = match (p.brightness, reference.brightness) {
        (Some(a), Some(r)) => (f32::from_bits(a) - f32::from_bits(r)).abs() > 2.0,
        _ => false,
    };
    let c = match (p.color, reference.color) {
        (Some(a), Some(r)) => {
            (f32::from_bits(a.x) - f32::from_bits(r.x)).abs() > 0.02
                || (f32::from_bits(a.y) - f32::from_bits(r.y)).abs() > 0.02
        }
        _ => false,
    };
    (b, c)
}

fn diverges(reference: &LightState, p: &LightStatePatch) -> bool {
    let (b, c) = apart(reference, p);
    light_patch_diverges(reference, p, b, c)
}

#[test]
fn light_patch_divergence_is_toleranced() {
    let held = LightState { on: true, brightness: Some(bits(50.0)), color_temp_mirek: Some(300), ..Default::default() };
    assert!(diverges(&held, &LightStatePatch { on: Some(false), ..patch() }));
    assert!(!diverges(&held, &LightStatePatch { on: Some(true), ..patch() }));
    assert!(!diverges(&held, &LightStatePatch { brightness: Some(bits(51.5)), ..patch() }));
    assert!(diverges(&held, &LightStatePatch { brightness: Some(bits(80.0)), ..patch() }));
    assert!(!diverges(&held, &LightStatePatch { color_temp_mirek: Some(305), ..patch() }));
    assert!(diverges(&held, &LightStatePatch { color_temp_mirek: Some(400), ..patch() }));
    assert!(!diverges(&held, &LightStatePatch { color: Some(colour(0.5, 0.4, 0.8)), ..patch() }));
    assert!(!diverges(&held, &LightStatePatch { on: Some(false), reachable: Some(false), ..patch() }));
    let held_off = LightState { on: false, brightness: Some(bits(50.0)), ..Default::default() };
    assert!(!diverges(&held_off, &LightStatePatch { brightness: Some(bits(100.0)), ..patch() }));
    assert!(diverges(&held_off, &LightStatePatch { on: Some(true), ..patch() }));
}

#[test]
fn colour_divergence_is_toleranced() {
    let held = LightState { on: true, color: Some(colour(0.5, 0.4, 0.8)), ..Default::default() };
    assert!(!diverges(&held, &LightStatePatch { color: Some(colour(0.51, 0.41, 0.8)), ..patch() }));
    assert!(diverges(&held, &LightStatePatch { color: Some(colour(0.2, 0.7, 0.8)), ..patch() }));
}

#[test]
fn effect_divergence_compares_names_and_clear_tokens() {
    let held = LightState { on: true, effect: Some("Flames".into()), ..Default::default() };
    assert!(!diverges(&held, &LightStatePatch { effect: Some("Flames".into()), ..patch() }));
    assert!(diverges(&held, &LightStatePatch { effect: Some("Aurora".into()), ..patch() }));
    assert!(diverges(&held, &LightStatePatch { effect: Some("no_effect".into()), ..patch() }));
    let cleared = LightState { on: true, effect: Some("off".into()), ..Default::default() };
    assert!(!diverges(&cleared, &LightStatePatch { effect: Some("no_effect".into()), ..patch() }));
}

#[test]
fn cooldown_compares_against_the_utc_stamp() {
    let now = chrono::Utc::now();
    let recent = (now - chrono::Duration::seconds(10)).format("%Y-%m-%d %H:%M:%S").to_string();
    let old = (now - chrono::Duration::seconds(500)).format("%Y-%m-%d %H:%M:%S").to_string();
    let t = now.timestamp();
    assert!(in_cooldown(60, &Some(recent.clone()), t));
    assert!(!in_cooldown(60, &Some(old), t));
    assert!(!in_cooldown(60, &None, t));
    assert!(!in_cooldown(0, &Some(recent), t));
}

#[test]
fn cooldown_reads_a_fixed_stamp() {
    // 2024-01-01 00:00:00 UTC is 1704067200.
    let stamp = Some("2024-01-01 00:00:00".to_string());
    assert!(in_cooldown(60, &stamp, 1_704_067_200 + 59));
    assert!(!in_cooldown(60, &stamp, 1_704_067_200 + 60));
    assert!(!in_cooldown(60, &Some("yesterday".to_string()), 1_704_067_200));
}

fn power_on() -> RuleAction {
    RuleAction::Power { device_id: "nope".into(), on: true }
}

fn timer(hour_modes: &str, actions: Vec<RuleAction>, restore: Option<u32>, cooldown: u32) -> RuleShape {
    RuleShape {
        kind: TriggerKind::Schedule,
        hour_modes: hour_modes.into(),
        threshold_event: false,
        stay_secs: None,
        steps: vec![ActionStep { actions }],
        cooldown_secs: cooldown,
        restore_secs: restore,
    }
}

#[test]
fn create_validates_the_timer_plan_and_power_only_actions() {
    let plan = "W".repeat(24);
    assert_eq!(
        check_rule_shape(&timer("WS", vec![power_on()], None, 0)),
        Err("a timer plan must be exactly 24 hours of on / off".to_string())
    );
    assert!(check_rule_shape(&timer(&"A".repeat(24), vec![power_on()], None, 0)).is_err());
    let dim = RuleAction::Light {
        light_id: "l1".into(),
        state: LightState { on: true, brightness: Some(bits(40.0)), ..Default::default() },
    };
    assert_eq!(
        check_rule_shape(&timer(&plan, vec![dim], None, 0)),
        Err("a timer only switches power — pick rooms, lights, or switches".to_string())
    );
    assert!(check_rule_shape(&timer(&plan, vec![RuleAction::Scene { scene_id: "s1".into() }], None, 0)).is_err());
    assert_eq!(
        check_rule_shape(&timer(&plan, vec![power_on()], Some(600), 0)),
        Err("a timer rule already turns its devices off when its off hours begin".to_string())
    );
    assert_eq!(
        check_rule_shape(&timer(&plan, vec![power_on()], None, 600)),
        Err("a timer fires at most once an hour — cooldown doesn't apply".to_string())
    );
    let half = format!("{}{}", "W".repeat(12), "S".repeat(12));
    let pure = RuleAction::Light { light_id: "l1".into(), state: LightState { on: true, ..Default::default() } };
    assert_eq!(validate_rule(&timer(&half, vec![power_on(), pure], None, 0), &SubjectLookup::NoSubject), Ok(()));
}

fn sensor_rule(threshold: bool, stay: Option<u32>, restore: Option<u32>) -> RuleShape {
    RuleShape {
        kind: TriggerKind::Sensor,
        hour_modes: String::new(),
        threshold_event: threshold,
        stay_secs: stay,
        steps: vec![ActionStep { actions: vec![power_on()] }],
        cooldown_secs: 0,
        restore_secs: restore,
    }
}

#[test]
fn rule_checks_run_in_order() {
    let empty = RuleShape { steps: vec![ActionStep { actions: vec![] }], ..sensor_rule(false, None, None) };
    assert_eq!(check_rule_shape(&empty), Err("an automation needs at least one action".to_string()));
    let dev = RuleShape { kind: TriggerKind::Device, ..sensor_rule(true, None, None) };
    assert_eq!(
        check_rule_shape(&dev),
        Err("a device's power is on/off — pick a turns-on/off trigger".to_string())
    );
    let room = RuleShape { kind: TriggerKind::Room, ..sensor_rule(true, None, None) };
    assert!(check_rule_shape(&room).is_err());
    let motion = sensor_rule(false, None, None);
    assert_eq!(check_rule_subject(&motion, &SubjectLookup::SensorKind(None)), Err("unknown sensor".to_string()));
    assert_eq!(
        check_rule_subject(&motion, &SubjectLookup::SensorKind(Some("illuminance".into()))),
        Err("a numeric sensor needs a threshold trigger (rises above / drops below)".to_string())
    );
    assert_eq!(
        check_rule_subject(&sensor_rule(true, None, None), &SubjectLookup::SensorKind(Some("motion".into()))),
        Err("a motion/contact sensor needs a detected/cleared trigger".to_string())
    );
    assert_eq!(check_rule_subject(&motion, &SubjectLookup::SensorKind(Some("motion".into()))), Ok(()));
    assert_eq!(check_rule_subject(&motion, &SubjectLookup::DeviceExists(false)), Err("unknown device".to_string()));
    assert!(check_rule_subject(&motion, &SubjectLookup::RoomOccupancyKnown(false)).is_err());
    assert_eq!(
        check_rule_durations(&sensor_rule(false, Some(10), None)),
        Err("a stays-for duration must be between 30 seconds and 24 hours".to_string())
    );
    assert_eq!(
        check_rule_durations(&sensor_rule(false, Some(60), Some(86401))),
        Err("the put-things-back delay must be between 30 seconds and 24 hours".to_string())
    );
    // The shape is checked before the subject.
    assert_eq!(validate_rule(&empty, &SubjectLookup::SensorKind(None)), Err("an automation needs at least one action".to_string()));
    assert_eq!(
        validate_rule(&sensor_rule(false, Some(10), None), &SubjectLookup::SensorKind(Some("contact".into()))),
        Err("a stays-for duration must be between 30 seconds and 24 hours".to_string())
    );
}

#[test]
fn plans_are_read_hour_by_hour() {
    let plan = format!("{}{}{}", "W".repeat(8), "A".repeat(8), "S".repeat(8));
    assert!(is_valid_hour_plan(&plan));
    assert!(!is_valid_hour_plan("WS"));
    assert!(!is_valid_hour_plan(&"X".repeat(24)));
    assert_eq!(plan_mode(&plan, 0), Some('W'));
    assert_eq!(plan_mode(&plan, 23), Some('S'));
    assert_eq!(plan_mode(&plan, 24), None);
    assert_eq!(plan_desired('W', None), Some(true));
    assert_eq!(plan_desired('S', Some(true)), Some(false));
    assert_eq!(plan_desired('A', Some(true)), Some(true));
    assert_eq!(plan_desired('A', None), None);
    assert_eq!(plan_verdict_at(&plan, 3), Some(true));
    assert_eq!(plan_verdict_at(&plan, 10), None);
    assert_eq!(plan_verdict_at(&plan, 20), Some(false));
}

#[test]
fn timer_edges_fire_on_changes_only() {
    assert_eq!(timer_edge(None, true), Some(TimerEdge::FireOn));
    assert_eq!(timer_edge(None, false), None);
    assert_eq!(timer_edge(Some(true), true), None);
    assert_eq!(timer_edge(Some(true), false), Some(TimerEdge::PowerOff));
    assert_eq!(timer_edge(Some(false), true), Some(TimerEdge::FireOn));
    assert!(device_edge(None, true));
    assert!(device_edge(Some(false), true));
    assert!(!device_edge(Some(true), true));
}

fn rule(id: &str, plan: &str) -> TimerRule {
    TimerRule { id: id.into(), hour_modes: plan.into() }
}

#[test]
fn schedule_pass_acts_on_edges_once_an_hour() {
    let plan = format!("{}{}", "S".repeat(10), "W".repeat(14));
    let mut t = ScheduleTracker { hour: None, prev: vec![] };
    // First observation inside off hours: nothing to do.
    let e = schedule_pass(&mut t, 5, false, Some(vec![rule("r1", &plan)]));
    assert!(e.is_empty());
    assert_eq!(t.hour, Some(5));
    // The same hour again is skipped.
    assert!(schedule_pass(&mut t, 5, false, Some(vec![rule("r1", &plan)])).is_empty());
    // The on hour fires once.
    let e = schedule_pass(&mut t, 10, false, Some(vec![rule("r1", &plan)]));
    assert_eq!(e, vec![("r1".to_string(), TimerEdge::FireOn)]);
    let e = schedule_pass(&mut t, 11, false, Some(vec![rule("r1", &plan)]));
    assert!(e.is_empty());
    // A failed read leaves the memory alone.
    assert!(schedule_pass(&mut t, 12, false, None).is_empty());
    assert_eq!(t.hour, Some(11));
    assert_eq!(t.prev, vec![("r1".to_string(), true)]);
    // Off hours after an observed on power the targets off.
    let e = schedule_pass(&mut t, 2, false, Some(vec![rule("r1", &plan)]));
    assert_eq!(e, vec![("r1".to_string(), TimerEdge::PowerOff)]);
    // A rule gone from the schedule is forgotten.
    let e = schedule_pass(&mut t, 3, false, Some(vec![]));
    assert!(e.is_empty());
    assert!(t.prev.is_empty());
}

#[test]
fn hold_snapshots_cover_each_device_once() {
    let acts = vec![
        ActionTargets::Light("l1".into()),
        ActionTargets::Room { lights: vec!["l2".into(), "l1".into()], powers: vec!["p1".into()] },
        ActionTargets::App,
        ActionTargets::Toggle(TriggerDeviceDomain::Power, "p1".into()),
        ActionTargets::Toggle(TriggerDeviceDomain::Media, "tv".into()),
        ActionTargets::Scene { lights: vec!["l3".into()], powers: vec!["p2".into()] },
    ];
    let (lights, powers) = snapshot_target_ids(&acts);
    assert_eq!(lights, vec!["l1".to_string(), "l2".to_string(), "l3".to_string()]);
    assert_eq!(powers, vec!["p1".to_string(), "p2".to_string()]);
}

fn light_entry(id: &str, on: bool) -> RestoreEntry {
    RestoreEntry::Light { light_id: id.into(), state: LightState { on, ..Default::default() } }
}

fn power_entry(id: &str, on: bool) -> RestoreEntry {
    RestoreEntry::Power { device_id: id.into(), on }
}

fn is_light_entry(e: &RestoreEntry, id: &str, on: bool) -> bool {
    matches!(e, RestoreEntry::Light { light_id, state } if light_id == id && state.on == on)
}

#[test]
fn manual_changes_release_one_device_from_a_hold() {
    match release_from_snapshot(vec![light_entry("l1", true), power_entry("p1", false)], false, "p1") {
        HoldRelease::Keep(v) => {
            assert_eq!(v.len(), 1);
            assert!(is_light_entry(&v[0], "l1", true));
        }
        _ => panic!("the light must stay held"),
    }
    assert!(matches!(release_from_snapshot(vec![power_entry("p1", true)], false, "p1"), HoldRelease::DeleteHold));
    assert!(matches!(release_from_snapshot(vec![power_entry("p1", true)], true, "p1"), HoldRelease::Untouched));
}

#[test]
fn overlapping_holds_inherit_the_first_captured_original() {
    let pending = vec![light_entry("l1", false), light_entry("l1", true)];
    let snap = inherit_originals(vec![light_entry("l1", true), power_entry("p1", true)], &pending);
    assert_eq!(snap.len(), 2);
    assert!(is_light_entry(&snap[0], "l1", false));
    assert!(matches!(&snap[1], RestoreEntry::Power { device_id, on: true } if device_id == "p1"));
}

#[test]
fn held_devices_settle_fill_or_release() {
    let reference = LightState { on: true, brightness: Some(bits(50.0)), ..Default::default() };
    let echo = LightStatePatch { brightness: Some(bits(45.0)), ..patch() };
    let (b, c) = apart(&reference, &echo);
    assert_eq!(observe_hold_light(&reference, 1_000, 500, &echo, b, c), HoldObservation::Settle);
    assert_eq!(observe_hold_light(&reference, 1_000, 2_000, &echo, b, c), HoldObservation::Release);
    let dark = LightStatePatch { reachable: Some(false), ..patch() };
    assert_eq!(observe_hold_light(&reference, 0, 2_000, &dark, false, false), HoldObservation::Ignore);
    let same = LightStatePatch { on: Some(true), ..patch() };
    assert_eq!(observe_hold_light(&reference, 0, 2_000, &same, false, false), HoldObservation::Fill);
    assert_eq!(observe_hold_power(true, 1_000, 10, false), HoldObservation::Settle);
    assert_eq!(observe_hold_power(true, 0, 10, true), HoldObservation::Ignore);
    assert_eq!(observe_hold_power(true, 0, 10, false), HoldObservation::Release);
}

#[test]
fn references_adopt_unseen_dimensions_and_settle_echoes() {
    let mut r = LightState { on: true, brightness: Some(bits(50.0)), ..Default::default() };
    fill_reference(&mut r, &LightStatePatch { brightness: Some(bits(90.0)), color_temp_mirek: Some(300), ..patch() });
    assert_eq!(r.brightness, Some(bits(50.0)));
    assert_eq!(r.color_temp_mirek, Some(300));
    apply_patch(&mut r, &LightStatePatch { on: Some(false), brightness: Some(bits(45.0)), ..patch() });
    assert!(!r.on);
    assert_eq!(r.brightness, Some(bits(45.0)));
    assert_eq!(r.color_temp_mirek, Some(300));
}

#[test]
fn stay_timers_arm_cancel_and_fire() {
    let mut t = StayTimers { pending: vec![] };
    let r1 = "r1".to_string();
    seed_stay(&mut t, &r1, Some((false, 600)), StaySubject::Sensor("motion".into()), false, 1_000);
    assert_eq!(t.pending.len(), 1);
    assert_eq!(t.pending[0].1.fire_at, 601_000);
    // A running timer keeps its deadline.
    seed_stay(&mut t, &r1, Some((false, 30)), StaySubject::Sensor("motion".into()), false, 5_000);
    assert_eq!(t.pending[0].1.fire_at, 601_000);
    // A subject not in the watched state arms nothing.
    seed_stay(&mut t, &"r2".to_string(), Some((true, 60)), StaySubject::Room("office".into()), false, 0);
    assert_eq!(t.pending.len(), 1);
    seed_stay(&mut t, &"r3".to_string(), Some((true, 1)), StaySubject::Device(TriggerDeviceDomain::Power, "door".into()), true, 0);
    assert_eq!(t.pending.len(), 2);
    // Motion on another sensor does not cancel; on this one it does.
    cancel_left(&mut t, &StaySubject::Sensor("hall".into()), Some(true));
    assert_eq!(t.pending.len(), 2);
    cancel_left(&mut t, &StaySubject::Sensor("motion".into()), Some(true));
    assert_eq!(t.pending.len(), 1);
    let due = take_due(&mut t, 999);
    assert!(due.is_empty());
    let due = take_due(&mut t, 1_000);
    assert_eq!(due.len(), 1);
    assert_eq!(due[0].0, "r3");
    assert!(t.pending.is_empty());
}

#[test]
fn device_triggers_name_their_tables() {
    assert_eq!(device_trigger_table(TriggerDeviceDomain::Light), "lights");
    assert_eq!(device_trigger_table(TriggerDeviceDomain::Media), "media_devices");
    assert_eq!(device_trigger_table(TriggerDeviceDomain::Power), "power_devices");
}

#[test]
fn room_occupancy_prefers_the_engines_own_readings() {
    assert_eq!(room_occupancy(&vec![]), None);
    // The stored reading says occupied, the fresher engine reading says clear.
    assert_eq!(room_occupancy(&vec![(Some(false), true)]), Some(false));
    assert_eq!(room_occupancy(&vec![(None, true), (Some(false), false)]), Some(true));
    assert_eq!(room_occupancy(&vec![(None, false), (Some(true), false)]), Some(true));
}

fn held_light(id: &str, grace_until: u64, r: LightState) -> HeldDevice {
    HeldDevice { is_light: true, id: id.to_string(), grace_until, reference: HoldRef::Light(r) }
}

fn held_power(id: &str, grace_until: u64, on: bool) -> HeldDevice {
    HeldDevice { is_light: false, id: id.to_string(), grace_until, reference: HoldRef::Power(on) }
}

fn light_ref<'a>(w: &'a HoldWatch, id: &str) -> Option<&'a LightState> {
    w.held.iter().find(|d| d.is_light && d.id == id).and_then(|d| match &d.reference {
        HoldRef::Light(r) => Some(r),
        HoldRef::Power(_) => None,
    })
}

#[test]
fn hold_watch_unreachable_light_is_ignored() {
    let mut w = HoldWatch::new();
    w.watch(held_light("lamp", 0, LightState { on: true, ..Default::default() }));
    let gone = LightStatePatch { on: Some(false), reachable: Some(false), ..patch() };
    assert!(!w.observe_light("lamp", &gone, 10, false, false));
    assert!(light_ref(&w, "lamp").unwrap().on);
}

#[test]
fn hold_watch_power_flip_releases_only_that_device() {
    let mut w = HoldWatch::new();
    w.watch(held_power("plug", 100, true));
    w.watch(held_power("fan", 100, true));
    w.watch(held_light("plug", 100, LightState { on: true, ..Default::default() }));
    // Inside grace a reading settles the reference.
    assert!(!w.observe_power("plug", false, 50));
    assert!(!w.observe_power("plug", false, 150));
    // After grace, only a flip away from the reference releases.
    assert!(w.observe_power("plug", true, 200));
    assert_eq!(w.held.len(), 2);
    assert!(w.held.iter().any(|d| !d.is_light && d.id == "fan"));
    assert!(light_ref(&w, "plug").is_some());
}

#[test]
fn hold_watch_rewatch_replaces_reference() {
    let mut w = HoldWatch::new();
    w.watch(held_power("plug", 0, true));
    w.watch(held_power("plug", 0, false));
    assert_eq!(w.held.len(), 1);
    assert!(!w.observe_power("plug", false, 10));
    assert!(w.observe_power("plug", true, 10));
    w.unwatch(false, "plug");
    assert!(w.is_empty());
}

#[test]
fn settled_echo_never_diverges() {
    let r = LightState { on: true, brightness: Some(bits(50.0)), color_temp_mirek: Some(250), effect: Some("candle".to_string()), ..Default::default() };
    let p = LightStatePatch { brightness: Some(bits(10.0)), color_temp_mirek: Some(400), effect: Some("fire".to_string()), ..patch() };
    let mut settled = r.clone();
    apply_patch(&mut settled, &p);
    assert!(!light_patch_diverges(&settled, &p, false, false));
    assert!(light_patch_diverges(&r, &p, true, false));
}

#[test]
fn fill_twice_is_fill_once() {
    let r = LightState { on: true, brightness: Some(bits(50.0)), ..Default::default() };
    let p = LightStatePatch { brightness: Some(bits(10.0)), color_temp_mirek: Some(400), ..patch() };
    let mut once = r.clone();
    fill_reference(&mut once, &p);
    let mut twice = once.clone();
    fill_reference(&mut twice, &p);
    assert_eq!(once.brightness, Some(bits(50.0)));
    assert_eq!(once.color_temp_mirek, Some(400));
    assert_eq!(twice.brightness, once.brightness);
    assert_eq!(twice.color_temp_mirek, once.color_temp_mirek);
}

/// A pushed light patch against the watch, with the float tolerance verdicts
/// taken against the light's current reference.
fn observe(w: &mut HoldWatch, id: &str, p: &LightStatePatch, now: u64) -> bool {
    let (b, c) = match light_ref(w, id) {
        Some(r) => apart(r, p),
        None => (false, false),
    };
    w.observe_light(id, p, now, b, c)
}

const GRACE_MS: u64 = 15_000;
const AFTER_GRACE_MS: u64 = 60_000;

fn off_light_snapshot() -> Vec<RestoreEntry> {
    vec![RestoreEntry::Light { light_id: "l1".into(), state: LightState { on: false, ..Default::default() } }]
}

#[test]
fn manual_change_releases_a_held_light() {
    let mut w = HoldWatch::new();
    w.watch(held_light("l1", GRACE_MS, LightState { on: true, brightness: Some(bits(50.0)), ..Default::default() }));
    // The rule's own poll echo (identical state) keeps the hold.
    let echo = LightStatePatch { on: Some(true), brightness: Some(bits(50.0)), ..patch() };
    assert!(!observe(&mut w, "l1", &echo, AFTER_GRACE_MS), "an echo must not release the hold");
    // A manual brightness nudge releases the device; it was the snapshot's
    // only entry, so the whole hold goes.
    let nudge = LightStatePatch { brightness: Some(bits(90.0)), ..patch() };
    assert!(observe(&mut w, "l1", &nudge, AFTER_GRACE_MS), "a manual change must release the device");
    assert!(matches!(release_from_snapshot(off_light_snapshot(), true, "l1"), HoldRelease::DeleteHold));
    assert!(w.is_empty(), "a released device must leave the watch");
}

#[test]
fn echo_within_grace_settles_the_reference() {
    let mut w = HoldWatch::new();
    w.watch(held_light("l1", GRACE_MS, LightState { on: true, brightness: Some(bits(50.0)), ..Default::default() }));
    let rounded = LightStatePatch { on: Some(true), brightness: Some(bits(45.0)), ..patch() };
    assert!(!observe(&mut w, "l1", &rounded, 0), "a grace-window echo must never release");
    let later = LightStatePatch { brightness: Some(bits(45.0)), ..patch() };
    assert!(!observe(&mut w, "l1", &later, AFTER_GRACE_MS), "the settled echo value is the reference");
    assert!(!w.is_empty());
}

#[test]
fn unseen_dimension_adopts_then_diverges() {
    let mut w = HoldWatch::new();
    // The reference knows nothing about colour (the rule only touched power).
    w.watch(held_light("l1", GRACE_MS, LightState { on: true, ..Default::default() }));
    let first = LightStatePatch { color: Some(colour(0.5, 0.4, 0.8)), ..patch() };
    assert!(!observe(&mut w, "l1", &first, AFTER_GRACE_MS), "first sight of a dimension must adopt");
    let second = LightStatePatch { color: Some(colour(0.2, 0.7, 0.8)), ..patch() };
    assert!(observe(&mut w, "l1", &second, AFTER_GRACE_MS), "a colour change past baseline must release");
    assert!(matches!(release_from_snapshot(off_light_snapshot(), true, "l1"), HoldRelease::DeleteHold));
}

#[test]
fn manual_power_flip_releases_only_that_device() {
    let mut w = HoldWatch::new();
    // The plug's cached state is on; the snapshot holds a light and the plug.
    w.watch(held_power("p1", GRACE_MS, true));
    let snapshot = vec![
        RestoreEntry::Light { light_id: "l1".into(), state: LightState { on: false, ..Default::default() } },
        RestoreEntry::Power { device_id: "p1".into(), on: false },
    ];
    assert!(!w.observe_power("p1", true, AFTER_GRACE_MS), "an echo of the cached state keeps the hold");
    assert!(w.observe_power("p1", false, AFTER_GRACE_MS), "a manual flip releases");
    match release_from_snapshot(snapshot, false, "p1") {
        HoldRelease::Keep(kept) => {
            assert_eq!(kept.len(), 1);
            assert!(matches!(&kept[0], RestoreEntry::Light { light_id, .. } if light_id == "l1"));
        }
        _ => panic!("the untouched light must stay held"),
    }
}

#[test]
fn restore_clears_the_devices_watch() {
    let mut w = HoldWatch::new();
    w.watch(held_light("l1", GRACE_MS, LightState { on: true, brightness: Some(bits(50.0)), ..Default::default() }));
    for e in off_light_snapshot() {
        match e {
            RestoreEntry::Light { light_id, .. } => w.unwatch(true, &light_id),
            RestoreEntry::Power { device_id, .. } => w.unwatch(false, &device_id),
        }
    }
    assert!(w.is_empty(), "a completed restore must stop watching its devices");
}

fn plan_only(hour: usize, mode: char) -> String {
    let mut plan: Vec<u8> = vec![b'S'; 24];
    plan[hour] = mode as u8;
    String::from_utf8(plan).unwrap()
}

#[test]
fn timer_on_edge_powers_on_and_off_edge_powers_off() {
    let rules = || Some(vec![rule("r1", &plan_only(9, 'W'))]);
    let mut t = ScheduleTracker { hour: None, prev: vec![] };
    // 09:00: the first observation while active reconciles: fire.
    assert_eq!(schedule_pass(&mut t, 9, false, rules()), vec![("r1".to_string(), TimerEdge::FireOn)]);
    // Re-evaluating the same hour (forced) is a level, not an edge.
    assert!(schedule_pass(&mut t, 9, true, rules()).is_empty(), "a held level must not re-fire");
    // 10:00 (Off): the same targets power off.
    assert_eq!(schedule_pass(&mut t, 10, false, rules()), vec![("r1".to_string(), TimerEdge::PowerOff)]);
}

#[test]
fn timer_first_observation_while_off_does_not_act() {
    let rules = || Some(vec![rule("r1", &"S".repeat(24))]);
    let mut t = ScheduleTracker { hour: None, prev: vec![] };
    assert!(schedule_pass(&mut t, 10, false, rules()).is_empty(), "a boot inside Off hours must not act");
    // The verdict is recorded, so the next On edge still fires.
    assert!(schedule_pass(&mut t, 10, true, rules()).is_empty());
    assert_eq!(t.prev, vec![("r1".to_string(), false)]);
}

#[test]
fn disabling_a_timer_stops_managing_its_devices() {
    let mut t = ScheduleTracker { hour: None, prev: vec![] };
    let e = schedule_pass(&mut t, 0, false, Some(vec![rule("r1", &"W".repeat(24))]));
    assert_eq!(e, vec![("r1".to_string(), TimerEdge::FireOn)]);
    // Disabled: the rule leaves the schedule set; nothing is powered off.
    assert!(schedule_pass(&mut t, 0, true, Some(vec![])).is_empty(), "disabling doesn't power anything off");
    assert!(t.prev.is_empty(), "a dropped rule leaves the verdict map");
}

#[test]
fn hour_gate_and_failed_reads_leave_the_verdict_map_alone() {
    let mut t = ScheduleTracker { hour: None, prev: vec![] };
    schedule_pass(&mut t, 9, false, Some(vec![rule("r1", &"W".repeat(24))]));
    assert_eq!(t.prev, vec![("r1".to_string(), true)]);
    // Same hour, unforced: the pass is skipped, even with the rule deleted.
    assert!(schedule_pass(&mut t, 9, false, Some(vec![])).is_empty());
    assert_eq!(t.prev, vec![("r1".to_string(), true)], "a same-hour tick must skip the pass");
    // A failed rules read leaves the verdicts untouched.
    assert!(schedule_pass(&mut t, 10, false, None).is_empty());
    assert_eq!(t.prev, vec![("r1".to_string(), true)], "a failed read must not wipe verdicts");
}

#[test]
fn clear_for_arms_fires_after_the_wait_and_cancels_on_motion() {
    let mut t = StayTimers { pending: vec![] };
    let r1 = "r1".to_string();
    let m1 = || StaySubject::Sensor("m1".into());
    // The falling edge arms the timer; motion again cancels it.
    seed_stay(&mut t, &r1, Some((false, 1)), m1(), false, 0);
    assert_eq!(t.pending.len(), 1);
    cancel_left(&mut t, &m1(), Some(true));
    assert!(t.pending.is_empty(), "motion must cancel the timer");
    // Arm again; after the wait the timer is due.
    seed_stay(&mut t, &r1, Some((false, 1)), m1(), false, 10_000);
    assert!(take_due(&mut t, 10_999).is_empty());
    let due = take_due(&mut t, 11_000);
    assert_eq!(due.len(), 1);
    assert_eq!(due[0].0, "r1");
    assert!(t.pending.is_empty());
}

#[test]
fn startup_seed_arms_clear_for_on_an_already_clear_sensor() {
    let mut t = StayTimers { pending: vec![] };
    seed_stay(&mut t, &"r1".to_string(), Some((false, 600)), StaySubject::Sensor("m1".into()), false, 0);
    assert!(t.pending.iter().any(|(id, _)| id == "r1"), "restart with an empty room must re-arm the off-timer");
}

#[test]
fn held_for_arms_on_rising_edge_and_fires_while_still_held() {
    let mut t = StayTimers { pending: vec![] };
    let r1 = "r1".to_string();
    let door = || StaySubject::Sensor("door".into());
    seed_stay(&mut t, &r1, Some((true, 1)), door(), true, 0);
    assert_eq!(t.pending.len(), 1);
    cancel_left(&mut t, &door(), Some(false));
    assert!(t.pending.is_empty(), "closing must cancel the timer");
    seed_stay(&mut t, &r1, Some((true, 1)), door(), true, 5_000);
    let due = take_due(&mut t, 6_000);
    assert_eq!(due.len(), 1, "held timer must fire while still open");
}

#[test]
fn room_occupancy_edge_fires_room_rules_not_per_sensor_noise() {
    // Two presence sensors in one room, seeded clear and detecting.
    let mut prev = room_occupancy(&vec![(Some(false), false), (Some(true), true)]);
    assert_eq!(prev, Some(true));
    let mut fired_empty = false;
    for (m1, m2) in [(true, true), (false, true), (false, false)] {
        let now = room_occupancy(&vec![(Some(m1), m1), (Some(m2), m2)]).unwrap();
        if device_edge(prev, now) && !now {
            fired_empty = true;
        }
        if (m1, m2) == (false, true) {
            assert!(!fired_empty, "room never became empty");
        }
        prev = Some(now);
    }
    assert!(fired_empty, "the aggregate empty edge must fire");
}

#[test]
fn device_power_edge_fires_device_rules_and_stays_baselined() {
    // Startup baselined the TV as off; it coming on is an edge, a repeated
    // on-snapshot is not.
    let baseline = Some(false);
    assert!(device_edge(baseline, true), "power edge must fire");
    assert!(!device_edge(Some(true), true), "an unchanged snapshot must not re-fire");
}

#[test]
fn a_re_fire_during_a_pending_hold_keeps_the_original_snapshot() {
    let mut t = HoldTable { holds: vec![] };
    assert_eq!(t.schedule("r1", 100, vec![light_entry("l1", true)]), HoldStep::Created);
    assert_eq!(t.holds.len(), 1);
    // Re-firing only moves the restore time.
    assert_eq!(t.schedule("r1", 500, vec![light_entry("l1", false)]), HoldStep::Extended);
    assert_eq!(t.holds.len(), 1);
    assert_eq!(t.holds[0].restore_at, 500);
    assert!(is_light_entry(&t.holds[0].snapshot[0], "l1", true));
    // Nothing capturable: no hold.
    assert_eq!(t.schedule("r2", 100, vec![]), HoldStep::Skipped);
    assert_eq!(t.holds.len(), 1);
    // A second rule over the same light inherits the first capture.
    assert_eq!(t.schedule("r2", 300, vec![light_entry("l1", false), power_entry("p1", true)]), HoldStep::Created);
    assert_eq!(t.holds.len(), 2);
    assert_eq!(t.holds[1].rule_id, "r2");
    assert!(is_light_entry(&t.holds[1].snapshot[0], "l1", true));
    assert!(matches!(&t.holds[1].snapshot[1], RestoreEntry::Power { device_id, on: true } if device_id == "p1"));
    assert_eq!(t.entries().len(), 3);
}

#[test]
fn engine_steps_apply_edges_and_cancel_left_timers() {
    let mut mem = EdgeMemory { prev: vec![] };
    let mut t = StayTimers { pending: vec![] };
    // A first reading of a device no rule watches is no edge.
    assert_eq!(device_event_step(&mut mem, &mut t, TriggerDeviceDomain::Media, "tv1", false, false), None);
    // The TV coming on is an edge from off; the same snapshot again is not.
    assert_eq!(device_event_step(&mut mem, &mut t, TriggerDeviceDomain::Media, "tv1", true, true), Some(Some(false)));
    assert_eq!(device_event_step(&mut mem, &mut t, TriggerDeviceDomain::Media, "tv1", true, true), None);
    // A sensor: empty reports change nothing; a disabled sensor records but
    // does not trigger; motion cancels its "clear for" timer.
    seed_stay(&mut t, &"r1".to_string(), Some((false, 600)), StaySubject::Sensor("m1".into()), false, 0);
    assert_eq!(sensor_event_step(&mut mem, &mut t, "m1", None, true), None);
    assert_eq!(sensor_event_step(&mut mem, &mut t, "m1", Some(false), false), None);
    assert_eq!(t.pending.len(), 1);
    assert_eq!(sensor_event_step(&mut mem, &mut t, "m1", Some(true), true), Some(Some(false)));
    assert!(t.pending.is_empty(), "motion must cancel the timer");
    // A level on an enabled sensor still passes (the rule's own event
    // decides); the previous reading is handed along.
    assert_eq!(sensor_event_step(&mut mem, &mut t, "m1", Some(true), true), Some(Some(true)));
    // Rooms: only a change of the aggregate is an edge.
    assert_eq!(room_event_step(&mut mem, &mut t, "office", Some(true)), Some(None));
    assert_eq!(room_event_step(&mut mem, &mut t, "office", Some(true)), None);
    assert_eq!(room_event_step(&mut mem, &mut t, "office", None), None);
    assert_eq!(room_event_step(&mut mem, &mut t, "office", Some(false)), Some(Some(true)));
    assert_eq!(mem.prev.len(), 3);
}

#[test]
fn a_watch_built_by_its_methods_is_consistent() {
    let mut w = HoldWatch::new();
    w.watch(held_power("p1", 0, true));
    w.watch(held_power("p1", 0, false));
    w.watch(held_light("p1", 0, LightState::default()));
    assert!(w.is_wf());
    w.held.push(held_power("p1", 0, true));
    assert!(!w.is_wf());
}

#[test]
fn a_timer_off_edge_powers_down_its_own_targets() {
    let acts = vec![
        RuleAction::Room { room_id: "office".into(), state: LightState { on: true, ..Default::default() } },
        RuleAction::Scene { scene_id: "s1".into() },
        RuleAction::Light { light_id: "l2".into(), state: LightState { on: true, ..Default::default() } },
        power_on(),
    ];
    assert_eq!(
        schedule_off_writes(&acts),
        vec![OffWrite::Room("office".into()), OffWrite::Light("l2".into()), OffWrite::Power("nope".into())]
    );
}
