use bifrost_api::mcp::{
    group_result_text, join_names, light_args, parse_transport, resolve, resolve_favorite,
    unknown_transport_message, MediaFavorite, Named, SetMediaRequest,
};
use bifrost_api::media::GroupOutcome;
use bifrost_api::routing::TransportCmd;

fn named(pairs: &[(&str, &str)]) -> Vec<Named> {
    pairs
        .iter()
        .map(|(id, name)| Named { id: id.to_string(), name: name.to_string() })
        .collect()
}

#[test]
fn resolve_matches_exact_id_first() {
    let items = named(&[("id-1", "Office"), ("id-2", "id-1")]);
    assert_eq!(resolve("room", "id-1", &items).unwrap(), "id-1");
}

#[test]
fn resolve_prefers_exact_name_over_substring() {
    let items = named(&[("id-1", "Office"), ("id-2", "Office Desk")]);
    assert_eq!(resolve("room", "office", &items).unwrap(), "id-1");
}

#[test]
fn resolve_matches_case_insensitive_substring() {
    let items = named(&[("id-1", "Living Room"), ("id-2", "Kitchen")]);
    assert_eq!(resolve("room", "living", &items).unwrap(), "id-1");
}

#[test]
fn resolve_no_match_lists_available_names() {
    let items = named(&[("id-1", "Office"), ("id-2", "Kitchen")]);
    let text = resolve("room", "garage", &items).unwrap_err();
    assert!(text.contains("Office") && text.contains("Kitchen"), "{text}");
    assert_eq!(text, "no room matching 'garage'. Available: Office, Kitchen");
}

#[test]
fn resolve_ambiguous_substring_lists_candidates() {
    let items = named(&[("id-1", "Office Desk"), ("id-2", "Office Shelf")]);
    let text = resolve("light", "office", &items).unwrap_err();
    assert!(text.contains("Office Desk") && text.contains("Office Shelf"), "{text}");
}

#[test]
fn resolve_favorite_by_title_substring() {
    let favs = vec![
        MediaFavorite { id: "FV:2/1".into(), title: "Smooth Jazz Radio".into(), subtitle: None },
        MediaFavorite { id: "FV:2/2".into(), title: "Morning News".into(), subtitle: None },
    ];
    assert_eq!(resolve_favorite("jazz", &favs).unwrap(), "FV:2/1");
}

#[test]
fn parse_transport_accepts_known_commands_only() {
    assert_eq!(parse_transport("Play"), Some(TransportCmd::Play));
    assert_eq!(parse_transport(" toggle "), Some(TransportCmd::Toggle));
    assert_eq!(parse_transport("rewind"), None);
}

#[test]
fn resolve_trims_and_lower_cases_the_query() {
    let items = named(&[("id-1", "Living Room"), ("id-2", "Kitchen")]);
    assert_eq!(resolve("room", "  KITCHEN ", &items).unwrap(), "id-2");
}

#[test]
fn resolve_with_nothing_listed_says_none() {
    let text = resolve("scene", "x", &vec![]).unwrap_err();
    assert_eq!(text, "no scene matching 'x'. Available: (none)");
    assert_eq!(join_names(&vec![]), "(none)");
    assert_eq!(join_names(&named(&[("a", "One"), ("b", "Two"), ("c", "Three")])), "One, Two, Three");
}

#[test]
fn light_args_default_on_and_drop_an_empty_effect() {
    assert_eq!(
        light_args(None, Some("#ff8800".to_string()), None),
        Ok((true, Some((255, 136, 0)), None))
    );
    assert_eq!(light_args(Some(false), None, Some(String::new())), Ok((false, None, None)));
    assert_eq!(
        light_args(None, None, Some("candle".to_string())),
        Ok((true, None, Some("candle".to_string())))
    );
    assert_eq!(
        light_args(None, Some("nope".to_string()), None),
        Err("invalid hex color 'nope'; use e.g. #ff8800".to_string())
    );
}

#[test]
fn set_media_requests_parse_their_transport_word() {
    let req = SetMediaRequest {
        device: "tv".to_string(),
        power: Some(true),
        volume: Some(20),
        mute: None,
        source: None,
        transport: Some("Pause".to_string()),
    };
    let cmd = req.into_command().unwrap();
    assert_eq!(cmd.transport, Some(TransportCmd::Pause));
    assert_eq!(cmd.power, Some(true));
    assert_eq!(cmd.volume, Some(20));
    let bad = SetMediaRequest {
        device: "tv".to_string(),
        power: None,
        volume: None,
        mute: None,
        source: None,
        transport: Some("rewind".to_string()),
    };
    assert_eq!(bad.into_command().unwrap_err(), unknown_transport_message("rewind"));
    assert_eq!(
        unknown_transport_message("rewind"),
        "unknown transport command 'rewind'; use play, pause, stop, next, previous or toggle"
    );
}

#[test]
fn grouping_outcomes_read_as_text() {
    assert_eq!(group_result_text(GroupOutcome::Done), Some("ok".to_string()));
    assert_eq!(group_result_text(GroupOutcome::NotFound), Some("not found".to_string()));
    assert_eq!(
        group_result_text(GroupOutcome::BadRequest("no".to_string())),
        Some("no".to_string())
    );
    assert_eq!(group_result_text(GroupOutcome::Unreachable), Some("unreachable".to_string()));
    assert_eq!(group_result_text(GroupOutcome::Db), None);
}
