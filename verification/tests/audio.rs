use bifrost_api::audio::assemble_audio_list;
use std::collections::HashMap;

use bifrost_api::audio::{
    companion_link_error, map_group_result, merge_companion_into, overlay_receiver_volumes,
    route_across_backings, AudioCapabilities, AudioCommand, AudioDeviceRow, AudioState, Backing,
    CompanionTarget,
};
use bifrost_api::media::GroupOutcome;
use bifrost_api::routing::{MediaCommand, TransportCmd};

fn backing(id: &str, transport: bool, sources: bool, receiver_bound: bool, now_playing: bool) -> Backing {
    Backing {
        id: id.into(),
        capabilities: AudioCapabilities { transport, sources, ..Default::default() },
        receiver_bound,
        has_now_playing: now_playing,
    }
}

#[test]
fn audio_routes_volume_to_the_receiver_bound_backing_not_the_primary() {
    let backings = vec![
        backing("tv", false, false, false, false),
        backing("speaker", true, false, true, true),
    ];
    let cmd = AudioCommand {
        power: Some(true),
        volume: Some(30),
        mute: Some(true),
        source: None,
        transport: Some(TransportCmd::Toggle),
    };
    let routed: HashMap<String, AudioCommand> = route_across_backings(&cmd, &backings).into_iter().collect();
    assert_eq!(routed["speaker"].volume, Some(30));
    assert_eq!(routed["speaker"].mute, Some(true));
    assert_eq!(routed["speaker"].transport, Some(TransportCmd::Toggle));
    assert_eq!(routed["tv"].power, Some(true));
    assert_eq!(routed["tv"].volume, None);
}

#[test]
fn audio_routes_to_primary_when_no_backing_owns_the_field() {
    let backings = vec![
        backing("primary", false, true, false, false),
        backing("comp", false, false, false, false),
    ];
    let cmd = AudioCommand { volume: Some(50), source: Some("hdmi1".into()), ..MediaCommand::empty() };
    let routed: HashMap<String, AudioCommand> = route_across_backings(&cmd, &backings).into_iter().collect();
    assert_eq!(routed["primary"].volume, Some(50));
    assert_eq!(routed["primary"].source.as_deref(), Some("hdmi1"));
}

#[test]
fn audio_transport_falls_back_to_the_first_capable_backing() {
    let backings = vec![
        backing("primary", false, false, false, false),
        backing("a", true, false, false, false),
        backing("b", true, false, false, false),
    ];
    let cmd = AudioCommand { transport: Some(TransportCmd::Next), ..MediaCommand::empty() };
    let parts = route_across_backings(&cmd, &backings);
    assert_eq!(parts.len(), 1);
    assert_eq!(parts[0].0, "a");
    assert_eq!(parts[0].1.transport, Some(TransportCmd::Next));
}

fn row(id: &str, receiver: Option<&str>, volume: u8, mute: bool) -> AudioDeviceRow {
    AudioDeviceRow {
        id: id.into(),
        provider_id: "p".into(),
        device_id: id.into(),
        name: id.into(),
        kind: "speaker".into(),
        capabilities: AudioCapabilities::default(),
        state: AudioState {
            power: true,
            reachable: None,
            volume,
            mute,
            source: None,
            source_list: vec![],
            now_playing: None,
        },
        last_seen: None,
        enabled: true,
        glyph: None,
        hw_id: None,
        shadowed_by: None,
        shadow_auto: false,
        room_id: None,
        receiver_id: receiver.map(String::from),
        receiver_source: None,
        companion_of: None,
    }
}

#[test]
fn bound_sources_show_their_receivers_volume() {
    let mut devs = vec![
        row("spk", Some("avr"), 10, false),
        row("avr", None, 42, true),
        row("lost", Some("gone"), 7, false),
    ];
    overlay_receiver_volumes(&mut devs);
    assert_eq!((devs[0].state.volume, devs[0].state.mute), (42, true));
    assert_eq!((devs[1].state.volume, devs[1].state.mute), (42, true));
    assert_eq!((devs[2].state.volume, devs[2].state.mute), (7, false));
}

#[test]
fn an_audio_companion_fills_what_the_primary_lacks() {
    let mut p = row("p", None, 10, false);
    p.state.source_list = vec!["aux".into()];
    let mut c = row("c", Some("avr"), 50, true);
    c.state.source = Some("bt".into());
    c.state.source_list = vec!["bt".into(), "aux".into()];
    c.capabilities.sources = true;
    merge_companion_into(&mut p, &c);
    assert_eq!(p.state.source.as_deref(), Some("bt"));
    assert_eq!(p.state.source_list, vec!["aux".to_string(), "bt".to_string()]);
    // Volume stays the primary's own.
    assert_eq!(p.state.volume, 10);
    assert!(p.capabilities.sources);
    assert_eq!(p.receiver_id.as_deref(), Some("avr"));
}

#[test]
fn companion_links_are_checked() {
    let t = |is_companion: bool, shadowed: bool| Some(CompanionTarget { is_companion, shadowed });
    assert_eq!(companion_link_error("a", &None, None, 3), None);
    assert_eq!(
        companion_link_error("a", &Some("a".into()), t(false, false), 0),
        Some("a device cannot be its own companion".to_string())
    );
    assert_eq!(companion_link_error("a", &Some("b".into()), None, 0), Some("unknown primary device".to_string()));
    assert_eq!(
        companion_link_error("a", &Some("b".into()), t(true, false), 0),
        Some("that device is itself merged into another; pick a standalone primary".to_string())
    );
    assert_eq!(
        companion_link_error("a", &Some("b".into()), t(false, true), 0),
        Some("that device is a hidden duplicate".to_string())
    );
    assert_eq!(
        companion_link_error("a", &Some("b".into()), t(false, false), 2),
        Some("this device already has companions merged into it".to_string())
    );
    assert_eq!(companion_link_error("a", &Some("b".into()), t(false, false), 0), None);
}

#[test]
fn audio_grouping_errors_map_like_media() {
    assert_eq!(map_group_result(Ok(())), GroupOutcome::Done);
    assert_eq!(map_group_result(Err("x does not support groups".into())), GroupOutcome::BadRequest("x does not support groups".into()));
    assert_eq!(map_group_result(Err("refused".into())), GroupOutcome::Unreachable);
}

#[test]
fn the_audio_list_merges_companions_then_shows_receiver_volumes() {
    let mut primary = row("p", Some("avr"), 10, false);
    primary.state.source_list = vec!["aux".into()];
    let mut comp = row("c", None, 60, false);
    comp.companion_of = Some("p".into());
    comp.state.source = Some("bt".into());
    comp.state.source_list = vec!["bt".into()];
    let avr = row("avr", None, 33, true);
    let mut devs = vec![primary, comp, avr];
    assemble_audio_list(&mut devs);
    assert_eq!(devs.len(), 3);
    assert_eq!(devs[0].state.source.as_deref(), Some("bt"));
    assert_eq!(devs[0].state.source_list, vec!["aux".to_string(), "bt".to_string()]);
    // The primary is bound to the receiver: it shows the receiver's volume.
    assert_eq!((devs[0].state.volume, devs[0].state.mute), (33, true));
    // The companion stays listed, marked, with its own state.
    assert_eq!(devs[1].companion_of.as_deref(), Some("p"));
    assert_eq!(devs[1].state.volume, 60);
}
