use bifrost_api::groups::{check_group_scene, deal_palette, parse_palette, scene_plan, scene_target, tally};
use bifrost_api::lights::Color;
use bifrost_api::palette_scenes::{parse_hex_color, rgb_to_hex, room_scene_palette, validate_scene, SceneError};

#[test]
fn palette_scenes_parses_valid_hex_colors() {
    assert_eq!(parse_hex_color("#ff8800"), Some((255, 136, 0)));
    assert_eq!(parse_hex_color("#FFFFFF"), Some((255, 255, 255)));
    assert_eq!(parse_hex_color("#000000"), Some((0, 0, 0)));
}

#[test]
fn palette_scenes_rejects_malformed_hex_colors() {
    assert_eq!(parse_hex_color("ff8800"), None);
    assert_eq!(parse_hex_color("#fff"), None);
    assert_eq!(parse_hex_color("#gg0000"), None);
    assert_eq!(parse_hex_color("#ff88001"), None);
}

#[test]
fn groups_parses_valid_hex_colors() {
    assert_eq!(bifrost_api::groups::parse_hex_color("#ff8800"), Some((255, 136, 0)));
    assert_eq!(bifrost_api::groups::parse_hex_color("#FFFFFF"), Some((255, 255, 255)));
    assert_eq!(bifrost_api::groups::parse_hex_color("#000000"), Some((0, 0, 0)));
}

#[test]
fn groups_rejects_malformed_hex_colors() {
    assert_eq!(bifrost_api::groups::parse_hex_color("ff8800"), None);
    assert_eq!(bifrost_api::groups::parse_hex_color("#fff"), None);
    assert_eq!(bifrost_api::groups::parse_hex_color("#gg0000"), None);
    assert_eq!(bifrost_api::groups::parse_hex_color("#ff88001"), None);
}

#[test]
fn rgb_to_hex_roundtrips_through_parse() {
    let hex = rgb_to_hex(255, 136, 0);
    assert_eq!(hex, "#ff8800");
    assert_eq!(parse_hex_color(&hex), Some((255, 136, 0)));
}

#[test]
fn rgb_to_hex_writes_lower_case_two_digit_pairs() {
    assert_eq!(rgb_to_hex(0, 0, 0), "#000000");
    assert_eq!(rgb_to_hex(10, 171, 255), "#0aabff");
    for (r, g, b) in [(1u8, 2u8, 3u8), (254, 128, 17), (171, 205, 239)] {
        assert_eq!(parse_hex_color(&rgb_to_hex(r, g, b)), Some((r, g, b)));
    }
}

#[test]
fn mixed_case_digits_parse() {
    assert_eq!(parse_hex_color("#AbCdEf"), Some((171, 205, 239)));
}

#[test]
fn validate_scene_names_the_first_failing_check() {
    let good = vec!["#ff0000".to_string(), "#00ff00".to_string()];
    assert_eq!(validate_scene("Sunset", true, &good), Ok(()));
    assert_eq!(
        validate_scene("   ", true, &good),
        Err(SceneError::Validation("scene name is required".to_string()))
    );
    assert_eq!(
        validate_scene("Sunset", false, &good),
        Err(SceneError::Validation("brightness must be 1-100".to_string()))
    );
    let bad = vec!["#ff0000".to_string(), "red".to_string(), "#zz".to_string()];
    assert_eq!(
        validate_scene("Sunset", true, &bad),
        Err(SceneError::Validation("'red' is not a #rrggbb color".to_string()))
    );
}

#[test]
fn palettes_skip_bad_colours_and_deal_round_robin() {
    let palette = vec!["#ff0000".to_string(), "nope".to_string(), "#0000ff".to_string()];
    assert_eq!(parse_palette(&palette), vec![(255, 0, 0), (0, 0, 255)]);
    assert_eq!(
        deal_palette(&palette, 3),
        vec![Some((255, 0, 0)), Some((0, 0, 255)), Some((255, 0, 0))]
    );
    assert_eq!(deal_palette(&vec!["bad".to_string()], 2), vec![None, None]);
    assert_eq!(deal_palette(&palette, 0), vec![]);
}

#[test]
fn tally_counts_applied_and_failed() {
    assert_eq!(tally(&vec![true, false, true, true]), (3, 1));
    assert_eq!(tally(&vec![]), (0, 0));
}

#[test]
fn room_captures_keep_distinct_colours_in_order() {
    let lit = vec![Some((255, 0, 0)), None, Some((0, 0, 255)), Some((255, 0, 0))];
    assert_eq!(room_scene_palette(&lit), Ok(vec!["#ff0000".to_string(), "#0000ff".to_string()]));
    assert_eq!(room_scene_palette(&vec![None]), Ok(vec![]));
    assert_eq!(room_scene_palette(&vec![]), Err("no lights in this room are on".to_string()));
}

#[test]
fn group_scenes_are_validated_with_their_own_wording() {
    let good = vec!["#ff0000".to_string()];
    assert_eq!(check_group_scene("Evening", true, &good), None);
    assert_eq!(check_group_scene("", true, &good), Some("scene name is required".to_string()));
    assert_eq!(check_group_scene("Evening", false, &good), Some("brightness must be 1-100".to_string()));
    assert_eq!(
        check_group_scene("Evening", true, &vec!["#12345".to_string()]),
        Some("'#12345' is not a #rrggbb colour".to_string())
    );
}

#[test]
fn a_scene_turns_each_member_on_in_its_dealt_colour() {
    let red = Color { x: 1, y: 2, brightness: 3 };
    let blue = Color { x: 4, y: 5, brightness: 6 };
    let b = Some(40.0f32.to_bits());
    let t = scene_target(b, Some(red));
    assert!(t.on);
    assert_eq!(t.brightness, b);
    assert_eq!(t.color, Some(red));
    assert_eq!(t.color_temp_mirek, None);
    assert_eq!(t.effect, None);
    let plan = scene_plan(b, &vec![red, blue], 3).unwrap();
    assert_eq!(plan.len(), 3);
    assert_eq!(plan[0].color, Some(red));
    assert_eq!(plan[1].color, Some(blue));
    assert_eq!(plan[2].color, Some(red));
    assert!(plan.iter().all(|s| s.on && s.brightness == b && s.color_temp_mirek.is_none()));
    // Without valid colours the lights keep theirs.
    let plain = scene_plan(None, &vec![], 2).unwrap();
    assert!(plain.iter().all(|s| s.color.is_none() && s.brightness.is_none()));
}

#[test]
fn a_scene_on_an_empty_group_is_not_found() {
    assert!(scene_plan(Some(1), &vec![], 0).is_none());
}
