use bifrost_api::media_list::assemble_media_list;
use std::collections::HashMap;

use bifrost_api::media::{
    apply_composite_power, backing_authority, best_remote_per_group, classify_command_error,
    classify_favorite_error, control_routes, derive_companions, group_status, group_surfaces,
    kind_rank, map_group_result, merge_companion_into, now_playing_score, plan_media_merge,
    play_favorite_status, receiver_binding_error, resolve_composite_power, route_across_backings,
    route_power, route_source, route_transport, route_volume, set_media_status,
    stored_receiver_source, Backing, GroupOutcome, MediaCapabilities,
    MediaDeviceRow, MediaState, MergePlan, MergeTarget, NowPlaying, PairedRemote, PlayFavoriteOutcome,
    PlayState, PowerSignal, ProviderDomain, RemoteState, RouteReason, SetMediaOutcome,
    SurfaceCandidate,
};
use bifrost_api::routing::{MediaCommand, TransportCmd};

fn backing(id: &str, transport: bool, sources: bool, receiver_bound: bool, now_playing: bool) -> Backing {
    backing_pri(id, transport, sources, receiver_bound, now_playing, 1)
}

fn backing_pri(
    id: &str,
    transport: bool,
    sources: bool,
    receiver_bound: bool,
    now_playing: bool,
    priority: u8,
) -> Backing {
    Backing {
        id: id.into(),
        name: id.into(),
        capabilities: MediaCapabilities { transport, sources, ..Default::default() },
        receiver_id: if receiver_bound { Some(format!("recv-{id}")) } else { None },
        receiver_bound,
        has_now_playing: now_playing,
        volume: 0,
        priority,
    }
}

fn backing_vol(id: &str, volume: u8) -> Backing {
    Backing {
        id: id.into(),
        name: id.into(),
        capabilities: MediaCapabilities::default(),
        receiver_id: None,
        receiver_bound: false,
        has_now_playing: false,
        volume,
        priority: 1,
    }
}

fn cmd() -> MediaCommand {
    MediaCommand::empty()
}

fn routed(c: &MediaCommand, backings: &Vec<Backing>) -> HashMap<String, MediaCommand> {
    route_across_backings(c, backings).into_iter().collect()
}

#[test]
fn volume_routes_to_the_backing_carrying_audio() {
    let backings = vec![backing_vol("tv", 0), backing_vol("audio", 50)];
    let c = MediaCommand { volume: Some(30), ..cmd() };
    let routed = routed(&c, &backings);
    assert_eq!(routed["audio"].volume, Some(30));
    assert!(!routed.contains_key("tv"));
}

fn sig(reachable: bool, on: bool) -> PowerSignal {
    PowerSignal { reachable, on }
}

#[test]
fn on_media_view_overrides_a_stale_off_primary() {
    let r = resolve_composite_power(sig(true, false), &[sig(true, true)], &[]);
    assert!(r.reachable && r.on);
    let r = resolve_composite_power(sig(true, true), &[sig(true, false)], &[]);
    assert!(r.reachable && r.on);
    let r = resolve_composite_power(sig(true, false), &[sig(true, false)], &[]);
    assert!(r.reachable && !r.on);
}

#[test]
fn reachable_remote_does_not_override_a_reachable_media_view() {
    let r = resolve_composite_power(sig(true, false), &[], &[sig(true, true)]);
    assert!(r.reachable && !r.on);
}

#[test]
fn unreachable_primary_falls_back_to_reachable_remote() {
    let r = resolve_composite_power(sig(false, false), &[], &[sig(true, true)]);
    assert!(r.reachable && r.on);
    let r = resolve_composite_power(sig(false, false), &[], &[sig(true, false)]);
    assert!(r.reachable && !r.on);
}

#[test]
fn fully_offline_composite_stays_unreachable() {
    let r = resolve_composite_power(sig(false, false), &[sig(false, false)], &[sig(false, false)]);
    assert!(!r.reachable && !r.on);
    let r = resolve_composite_power(sig(false, false), &[], &[]);
    assert!(!r.reachable && !r.on);
}

fn np(title: Option<&str>, play_state: Option<PlayState>) -> Option<NowPlaying> {
    Some(NowPlaying { title: title.map(String::from), artist: None, album: None, play_state })
}

#[test]
fn now_playing_score_prefers_active_content_over_idle() {
    let none: Option<NowPlaying> = None;
    let empty = np(None, None);
    let idle_title = np(Some("X"), Some(PlayState::Stopped));
    let playing_title = np(Some("X"), Some(PlayState::Playing));
    let playing_no_title = np(None, Some(PlayState::Playing));
    assert!(now_playing_score(&playing_title) > now_playing_score(&idle_title));
    assert!(now_playing_score(&idle_title) > now_playing_score(&playing_no_title));
    assert!(now_playing_score(&playing_no_title) > now_playing_score(&empty));
    assert_eq!(now_playing_score(&empty), now_playing_score(&none));
    assert_eq!(now_playing_score(&none), 0);
}

fn paired(id: &str, priority: u8) -> PairedRemote {
    PairedRemote { group_id: "grp".into(), remote_id: id.into(), priority, state: None }
}

fn best_for(entries: &[(String, String)], group: &str) -> Option<String> {
    entries.iter().find(|(g, _)| g == group).map(|(_, r)| r.clone())
}

#[test]
fn composite_surfaces_the_native_remote_regardless_of_merge_order() {
    let native_first = best_remote_per_group(&vec![paired("native", 1), paired("ha", 0)]);
    assert_eq!(best_for(&native_first, "grp").as_deref(), Some("native"));
    let ha_first = best_remote_per_group(&vec![paired("ha", 0), paired("native", 1)]);
    assert_eq!(best_for(&ha_first, "grp").as_deref(), Some("native"));
}

#[test]
fn equal_priority_remotes_break_ties_deterministically() {
    let a = best_remote_per_group(&vec![paired("zulu", 1), paired("alpha", 1)]);
    let b = best_remote_per_group(&vec![paired("alpha", 1), paired("zulu", 1)]);
    assert_eq!(best_for(&a, "grp").as_deref(), Some("alpha"));
    assert_eq!(best_for(&b, "grp").as_deref(), Some("alpha"));
}

#[test]
fn backing_authority_puts_native_above_its_ha_twin() {
    // smarttv, onkyo and sonos are native media/audio providers; ha is the
    // integration.
    let smarttv = Some(ProviderDomain::Media);
    let onkyo = Some(ProviderDomain::Audio);
    let sonos = Some(ProviderDomain::Audio);
    let ha = Some(ProviderDomain::Integration);
    assert!(backing_authority(smarttv) > backing_authority(ha));
    assert!(backing_authority(onkyo) > backing_authority(ha));
    assert!(backing_authority(sonos) > backing_authority(ha));
    assert_eq!(backing_authority(onkyo), backing_authority(smarttv));
    // An unknown provider type counts as native.
    assert_eq!(backing_authority(None), 1);
}

#[test]
fn media_routes_volume_to_the_receiver_bound_backing_not_the_primary() {
    let backings = vec![
        backing("tv", false, false, false, false),
        backing("speaker", true, false, true, true),
    ];
    let c = MediaCommand {
        power: Some(true),
        volume: Some(30),
        mute: Some(true),
        source: None,
        transport: Some(TransportCmd::Toggle),
    };
    let routed = routed(&c, &backings);
    assert_eq!(routed["speaker"].volume, Some(30));
    assert_eq!(routed["speaker"].mute, Some(true));
    assert_eq!(routed["speaker"].transport, Some(TransportCmd::Toggle));
    assert_eq!(routed["tv"].power, Some(true));
    assert_eq!(routed["tv"].volume, None);
}

#[test]
fn media_routes_to_primary_when_no_backing_owns_the_field() {
    let backings = vec![
        backing("primary", false, true, false, false),
        backing("comp", false, false, false, false),
    ];
    let c = MediaCommand { volume: Some(50), source: Some("hdmi1".into()), ..cmd() };
    let routed = routed(&c, &backings);
    assert_eq!(routed["primary"].volume, Some(50));
    assert_eq!(routed["primary"].source.as_deref(), Some("hdmi1"));
}

#[test]
fn higher_priority_backing_wins_contested_controls() {
    let backings = vec![
        backing_pri("ha", true, true, false, false, 0),
        backing_pri("native_tv", true, true, false, false, 1),
    ];
    let c = MediaCommand {
        power: Some(true),
        source: Some("hdmi2".into()),
        transport: Some(TransportCmd::Play),
        ..cmd()
    };
    let routed = routed(&c, &backings);
    assert_eq!(routed["native_tv"].power, Some(true));
    assert_eq!(routed["native_tv"].source.as_deref(), Some("hdmi2"));
    assert_eq!(routed["native_tv"].transport, Some(TransportCmd::Play));
    assert!(!routed.contains_key("ha"));
}

#[test]
fn routed_parts_come_in_ascending_id_order_and_skip_empty_commands() {
    let backings = vec![
        backing("zeta", false, true, false, false),
        backing("alpha", true, false, true, false),
    ];
    let c = MediaCommand { volume: Some(5), source: Some("tv".into()), ..cmd() };
    let parts = route_across_backings(&c, &backings);
    let ids: Vec<&str> = parts.iter().map(|(k, _)| k.as_str()).collect();
    assert_eq!(ids, vec!["alpha", "zeta"]);
    assert!(route_across_backings(&cmd(), &backings).is_empty());
}

#[test]
fn route_reasons_explain_each_control() {
    let backings = vec![backing("tv", false, false, false, false), backing("spk", true, true, true, true)];
    assert_eq!(route_volume(&backings), (1, RouteReason::BoundToReceiver));
    assert_eq!(route_transport(&backings), (1, RouteReason::CurrentlyPlaying));
    assert_eq!(route_source(&backings), (1, RouteReason::SourceCapable));
    assert_eq!(route_power(&backings), (0, RouteReason::MostAuthoritative));
    let quiet = vec![backing("tv", false, false, false, false)];
    assert_eq!(route_volume(&quiet), (0, RouteReason::NoAudioSource));
    assert_eq!(route_transport(&quiet), (0, RouteReason::NoTransportCapable));
    assert_eq!(route_source(&quiet), (0, RouteReason::NoSourceCapable));
    assert_eq!(RouteReason::CarryingAudio.text(), "carrying audio (volume > 0)");
}

#[test]
fn control_routes_list_each_control_and_the_remote() {
    let backings = vec![backing("tv", false, false, false, false), backing("spk", true, true, true, true)];
    let rows = control_routes(&backings, Some("AVR".to_string()), Some(("r1".to_string(), "Remote".to_string())));
    assert_eq!(rows.len(), 5);
    assert_eq!(rows[0].control, "power");
    assert_eq!(rows[0].device_id, "tv");
    assert_eq!(rows[1].control, "volume / mute");
    assert_eq!(rows[1].device_id, "spk");
    assert_eq!(rows[1].reason, "bound to a receiver → AVR");
    assert_eq!(rows[2].reason, "currently playing");
    assert_eq!(rows[3].reason, "most authoritative source-capable");
    assert_eq!(rows[4].control, "remote keys / apps");
    assert_eq!(rows[4].reason, "highest-authority paired remote");
    assert!(control_routes(&vec![], None, None).is_empty());
}

#[test]
fn surfaces_prefer_authority_then_kind_then_id() {
    let cand = |g: &str, id: &str, authority: u8, kind: &str| SurfaceCandidate {
        group_id: g.into(),
        id: id.into(),
        authority,
        kind_rank: kind_rank(kind),
    };
    let rows = vec![
        cand("g1", "speaker-1", 1, "speaker"),
        cand("g1", "tv-ha", 0, "tv"),
        cand("g1", "tv-native", 1, "tv"),
        cand("g2", "b", 1, "receiver"),
        cand("g2", "a", 1, "receiver"),
    ];
    let s = group_surfaces(&rows);
    assert_eq!(best_for(&s, "g1").as_deref(), Some("tv-native"));
    assert_eq!(best_for(&s, "g2").as_deref(), Some("a"));
    assert_eq!(s.len(), 2);
    assert_eq!(kind_rank("tv"), 3);
    assert_eq!(kind_rank("receiver"), 2);
    assert_eq!(kind_rank("speaker"), 1);
    assert_eq!(kind_rank("fridge"), 0);
}

fn row(id: &str, group: Option<&str>) -> MediaDeviceRow {
    MediaDeviceRow {
        id: id.into(),
        provider_id: "p".into(),
        device_id: id.into(),
        name: id.into(),
        kind: "tv".into(),
        capabilities: MediaCapabilities::default(),
        state: MediaState {
            power: false,
            reachable: None,
            volume: 0,
            mute: false,
            source: None,
            source_list: vec![],
            now_playing: None,
            group_coordinator: None,
        },
        last_seen: None,
        enabled: true,
        glyph: None,
        hw_id: None,
        shadowed_by: None,
        shadow_auto: false,
        room_id: None,
        inherited_room_id: None,
        receiver_id: None,
        receiver_source: None,
        receiver_name: None,
        group_id: group.map(String::from),
        companion_of: None,
        remote_id: None,
    }
}

#[test]
fn companions_point_at_their_surface() {
    let mut rows = vec![row("tv", Some("g")), row("cast", Some("g")), row("solo", None)];
    derive_companions(&mut rows, &vec![("g".to_string(), "tv".to_string())]);
    assert_eq!(rows[0].companion_of, None);
    assert_eq!(rows[1].companion_of.as_deref(), Some("tv"));
    assert_eq!(rows[2].companion_of, None);
}

#[test]
fn a_companion_fills_what_the_surface_lacks() {
    let mut tv = row("tv", Some("g"));
    tv.state.source_list = vec!["hdmi1".into()];
    let mut cast = row("cast", Some("g"));
    cast.state.volume = 35;
    cast.state.mute = true;
    cast.state.source = Some("Netflix".into());
    cast.state.source_list = vec!["hdmi1".into(), "Netflix".into()];
    cast.state.now_playing = np(Some("Show"), Some(PlayState::Playing));
    cast.capabilities.transport = true;
    cast.receiver_id = Some("avr".into());
    merge_companion_into(&mut tv, &cast);
    assert_eq!(tv.state.volume, 35);
    assert!(tv.state.mute);
    assert_eq!(tv.state.source.as_deref(), Some("Netflix"));
    assert_eq!(tv.state.source_list, vec!["hdmi1".to_string(), "Netflix".to_string()]);
    assert_eq!(tv.state.now_playing, np(Some("Show"), Some(PlayState::Playing)));
    assert!(tv.capabilities.transport);
    assert_eq!(tv.receiver_id.as_deref(), Some("avr"));
    assert_eq!(tv.id, "tv");
}

#[test]
fn composite_power_is_written_onto_the_row() {
    let mut tv = row("tv", Some("g"));
    tv.state.reachable = Some(false);
    let remote = PowerSignal::remote(&RemoteState { on: true, reachable: Some(true) });
    apply_composite_power(&mut tv, &[], &[remote]);
    assert!(tv.state.power);
    assert_eq!(tv.state.reachable, Some(true));
    assert_eq!(PowerSignal::media(&row("x", None)), sig(true, false));
}

#[test]
fn service_errors_map_to_statuses() {
    assert_eq!(map_group_result(Ok(())), GroupOutcome::Done);
    assert_eq!(
        map_group_result(Err("grouping not supported".into())),
        GroupOutcome::BadRequest("grouping not supported".into())
    );
    assert_eq!(map_group_result(Err("cannot group with itself".into())), GroupOutcome::BadRequest("cannot group with itself".into()));
    assert_eq!(map_group_result(Err("timeout".into())), GroupOutcome::Unreachable);
    assert_eq!(group_status(&GroupOutcome::BadRequest(String::new())), 422);
    assert_eq!(group_status(&GroupOutcome::Unreachable), 502);
    assert_eq!(classify_command_error("unknown source".into()), SetMediaOutcome::BadCommand("unknown source".into()));
    assert_eq!(classify_command_error("socket closed".into()), SetMediaOutcome::ProviderError);
    assert_eq!(set_media_status(&SetMediaOutcome::Done), 204);
    assert_eq!(set_media_status(&SetMediaOutcome::BadCommand(String::new())), 422);
    assert_eq!(classify_favorite_error("unknown favorite".into()), PlayFavoriteOutcome::BadFavorite("unknown favorite".into()));
    assert_eq!(classify_favorite_error("down".into()), PlayFavoriteOutcome::Unreachable);
    assert_eq!(play_favorite_status(&PlayFavoriteOutcome::Unreachable), 502);
}

#[test]
fn receiver_bindings_are_checked() {
    assert_eq!(receiver_binding_error("tv", &None, None), None);
    assert_eq!(
        receiver_binding_error("tv", &Some("tv".into()), Some(false)),
        Some("a device cannot be its own receiver".to_string())
    );
    assert_eq!(receiver_binding_error("tv", &Some("avr".into()), None), Some("unknown receiver device".to_string()));
    assert_eq!(
        receiver_binding_error("tv", &Some("avr".into()), Some(true)),
        Some("that device is itself bound to a receiver; pick a standalone receiver".to_string())
    );
    assert_eq!(receiver_binding_error("tv", &Some("avr".into()), Some(false)), None);
    assert_eq!(stored_receiver_source(&None, Some("hdmi1".into())), None);
    assert_eq!(stored_receiver_source(&Some("avr".into()), Some("hdmi1".into())), Some("hdmi1".to_string()));
}

#[test]
fn merge_plans_found_join_or_fold_groups() {
    let t = |g: Option<&str>, shadowed: bool| Some(MergeTarget { group_id: g.map(String::from), shadowed });
    assert_eq!(plan_media_merge("a", None, None, None), MergePlan::Unmerge);
    assert_eq!(
        plan_media_merge("a", Some("a".into()), t(None, false), None),
        MergePlan::Reject("a device cannot be merged into itself".into())
    );
    assert_eq!(plan_media_merge("a", Some("b".into()), None, None), MergePlan::Reject("unknown target device".into()));
    assert_eq!(
        plan_media_merge("a", Some("b".into()), t(None, true), None),
        MergePlan::Reject("that device is a hidden duplicate".into())
    );
    assert_eq!(
        plan_media_merge("a", Some("b".into()), t(None, false), None),
        MergePlan::JoinGroup { create: true, into: "b".into() }
    );
    assert_eq!(
        plan_media_merge("a", Some("b".into()), t(Some("g"), false), Some("h".into())),
        MergePlan::FoldGroup { create: false, into: "g".into(), from: "h".into() }
    );
    assert_eq!(plan_media_merge("a", Some("b".into()), t(Some("g"), false), Some("g".into())), MergePlan::AlreadyGrouped { create: false });
    // A standalone target whose id already names the device's group still
    // gets that group written first.
    assert_eq!(plan_media_merge("a", Some("b".into()), t(None, false), Some("b".into())), MergePlan::AlreadyGrouped { create: true });
}

#[test]
fn the_media_list_resolves_surfaces_companions_remotes_and_receivers() {
    let mut tv = row("tv", Some("g"));
    tv.state.reachable = Some(false);
    tv.receiver_id = Some("avr".into());
    let mut cast = row("cast", Some("g"));
    cast.state.power = true;
    cast.state.reachable = Some(true);
    cast.state.source = Some("Netflix".into());
    let mut avr = row("avr", None);
    avr.name = "Living AVR".into();
    avr.state.volume = 42;
    let mut devs = vec![tv, cast, avr];
    let surfaces = vec![("g".to_string(), "tv".to_string())];
    let paired = vec![
        PairedRemote { group_id: "g".into(), remote_id: "ha-remote".into(), priority: 0, state: None },
        PairedRemote {
            group_id: "g".into(),
            remote_id: "native-remote".into(),
            priority: 1,
            state: Some(RemoteState { on: false, reachable: Some(true) }),
        },
    ];
    assemble_media_list(&mut devs, &surfaces, &paired);
    // The cast view is the TV's companion; its content and power reach the TV.
    assert_eq!(devs[1].companion_of.as_deref(), Some("tv"));
    assert_eq!(devs[0].companion_of, None);
    assert_eq!(devs[0].state.source.as_deref(), Some("Netflix"));
    assert!(devs[0].state.power);
    assert_eq!(devs[0].state.reachable, Some(true));
    assert_eq!(devs[0].remote_id.as_deref(), Some("native-remote"));
    // The TV is bound to the receiver: volume and name come from it.
    assert_eq!(devs[0].state.volume, 42);
    assert_eq!(devs[0].receiver_name.as_deref(), Some("Living AVR"));
    // A row without a group gets no remote.
    assert_eq!(devs[2].remote_id, None);
}
