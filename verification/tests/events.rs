use bifrost_api::events::{
    subscriber_label, subscriber_user_agent, StreamRegistry, HEARTBEAT_SECS, KEEP_ALIVE_SECS,
};

const NOW: u64 = 1_700_000_000_000;

#[test]
fn a_registered_subscriber_appears_and_leaves_with_its_guard() {
    let mut reg = StreamRegistry::new();
    assert!(reg.snapshot().is_empty());

    let id = reg.register("kiosk:Kitchen".into(), Some("kiosk-1".into()), "BifrostKiosk/1".into());
    let live = reg.snapshot();
    assert_eq!(live.len(), 1);
    assert_eq!(live[0].label, "kiosk:Kitchen");
    assert_eq!(live[0].user_agent, "BifrostKiosk/1");
    assert_eq!(live[0].kiosk_id.as_deref(), Some("kiosk-1"));
    assert_eq!(live[0].idle_secs, None);
    assert_eq!(live[0].events_sent, 0);

    reg.deregister(id);
    assert!(reg.snapshot().is_empty(), "a hung-up client must leave the registry");
}

#[test]
fn counters_separate_events_beats_and_dropped_backlog() {
    let mut reg = StreamRegistry::new();
    let id = reg.register("session".into(), None, "curl".into());
    reg.record_event(id);
    reg.record_event(id);
    reg.record_beat(id);
    reg.record_lag(id, 7);

    let snap = reg.snapshot();
    let s = &snap[0];
    assert_eq!(s.events_sent, 2);
    assert_eq!(s.beats_sent, 1);
    assert_eq!(s.lagged, 7);
    assert_eq!(s.idle_secs, Some(0), "a write sets the idle clock");
}

#[test]
fn subscribers_get_distinct_ids_and_a_stable_order() {
    let mut reg = StreamRegistry::new();
    let a = reg.register("session".into(), None, "one".into());
    let b = reg.register("session".into(), None, "two".into());
    let snap = reg.snapshot();
    assert_eq!(snap.len(), 2);
    assert!(snap[0].id < snap[1].id, "listed oldest-first by id");
    assert_ne!(a, b);

    reg.deregister(a);
    let snap = reg.snapshot();
    assert_eq!(snap.len(), 1);
    assert_eq!(snap[0].user_agent, "two");
}

#[test]
fn keep_alive_interval_is_reasonable() {
    let secs: u64 = KEEP_ALIVE_SECS;
    assert_eq!(secs, 15);
    assert!(secs < 60);
}

#[test]
fn lagged_events_are_counted_and_dropped_not_silently_swallowed() {
    let mut reg = StreamRegistry::new();
    let id = reg.register_at("session".into(), None, "curl".into(), NOW);
    reg.record_lag(id, 4);
    let snap = reg.snapshot_at(NOW);
    assert_eq!(snap[0].lagged, 4);
    // A drop is not a write: the idle clock has not started.
    assert_eq!(snap[0].idle_secs, None);
}

#[test]
fn snapshot_ages_are_in_whole_seconds() {
    let mut reg = StreamRegistry::new();
    let id = reg.register_at("session".into(), None, "curl".into(), NOW);
    reg.record_beat_at(id, NOW + 2_500);
    let snap = reg.snapshot_at(NOW + 10_999);
    assert_eq!(snap[0].connected_secs, 10);
    assert_eq!(snap[0].idle_secs, Some(8));
    // A clock that went backwards reads as zero, not as a huge age.
    let snap = reg.snapshot_at(NOW - 5);
    assert_eq!(snap[0].connected_secs, 0);
    assert_eq!(snap[0].idle_secs, Some(0));
}

#[test]
fn counters_of_unknown_subscribers_change_nothing() {
    let mut reg = StreamRegistry::new();
    let id = reg.register_at("session".into(), None, "curl".into(), NOW);
    reg.record_event_at(id + 100, NOW);
    reg.deregister(id + 100);
    let snap = reg.snapshot_at(NOW);
    assert_eq!(snap.len(), 1);
    assert_eq!(snap[0].events_sent, 0);
    assert_eq!(snap[0].idle_secs, None);
}

#[test]
fn the_clock_stamps_connections_after_the_epoch() {
    let mut reg = StreamRegistry::new();
    reg.register("session".into(), None, "curl".into());
    assert!(reg.live[0].connected_at > 1_600_000_000_000);
}

#[test]
fn subscriber_labels_and_agents() {
    assert_eq!(subscriber_label(Some("Kitchen")), "kiosk:Kitchen");
    assert_eq!(subscriber_label(None), "session");
    assert_eq!(subscriber_user_agent(None), "unknown");
    assert_eq!(subscriber_user_agent(Some("curl/8")), "curl/8");
    let long = "x".repeat(200);
    assert_eq!(subscriber_user_agent(Some(&long)).len(), 120);
    assert_eq!(HEARTBEAT_SECS, 20);
}

#[test]
fn live_ids_are_the_registered_ones_not_hung_up_oldest_first() {
    let mut reg = StreamRegistry::new();
    let a = reg.register_at("session".into(), None, "a".into(), NOW);
    let b = reg.register_at("session".into(), None, "b".into(), NOW);
    let c = reg.register_at("session".into(), None, "c".into(), NOW);
    reg.deregister(b);
    reg.record_event_at(c, NOW);
    reg.deregister(b);
    let d = reg.register_at("session".into(), None, "d".into(), NOW);
    let ids: Vec<u64> = reg.snapshot_at(NOW).iter().map(|s| s.id).collect();
    assert_eq!(ids, vec![a, c, d]);
    assert_eq!((a, c, d), (0, 2, 3));
}
