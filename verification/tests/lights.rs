use bifrost_api::lights::{
    is_clear_effect, is_power_only, merge_light_state, set_light_status, Color, LightState,
    SetLightOutcome,
};
use bifrost_api::power::{
    commanded_state, kind_str, parse_kind, set_power_status, PowerKind, SetPowerOutcome,
};

/// sRGB (0–255) to CIE xy with brightness, the floats stored as bit patterns.
fn color_from_rgb(r: u8, g: u8, b: u8) -> Color {
    let lin = |c: u8| {
        let v = c as f32 / 255.0;
        if v > 0.04045 {
            ((v + 0.055) / 1.055).powf(2.4)
        } else {
            v / 12.92
        }
    };
    let (r, g, b) = (lin(r), lin(g), lin(b));
    let x = r * 0.4124 + g * 0.3576 + b * 0.1805;
    let y = r * 0.2126 + g * 0.7152 + b * 0.0722;
    let z = r * 0.0193 + g * 0.1192 + b * 0.9505;
    let sum = x + y + z;
    let (cx, cy) = if sum > 0.0 { (x / sum, y / sum) } else { (0.3127, 0.3290) };
    Color { x: cx.to_bits(), y: cy.to_bits(), brightness: y.to_bits() }
}

fn effecting() -> LightState {
    LightState {
        on: true,
        brightness: Some(80.0f32.to_bits()),
        effect: Some("Flames".into()),
        ..Default::default()
    }
}

#[test]
fn brightness_only_write_preserves_the_running_effect() {
    let new = LightState { on: true, brightness: Some(20.0f32.to_bits()), ..Default::default() };
    let merged = merge_light_state(effecting(), &new);
    assert_eq!(merged.brightness, Some(20.0f32.to_bits()));
    assert_eq!(merged.effect.as_deref(), Some("Flames"));
    assert!(merged.color.is_none());
}

#[test]
fn on_off_write_preserves_the_running_effect() {
    let new = LightState { on: false, ..Default::default() };
    let merged = merge_light_state(effecting(), &new);
    assert!(!merged.on);
    assert_eq!(merged.effect.as_deref(), Some("Flames"));
}

#[test]
fn setting_a_colour_clears_the_effect_and_temp() {
    let mut base = effecting();
    base.color_temp_mirek = None;
    let new = LightState { on: true, color: Some(color_from_rgb(255, 0, 0)), ..Default::default() };
    let merged = merge_light_state(base, &new);
    assert!(merged.color.is_some());
    assert!(merged.effect.is_none());
    assert!(merged.color_temp_mirek.is_none());
}

#[test]
fn setting_temp_clears_colour_and_effect() {
    let base = LightState { on: true, color: Some(color_from_rgb(0, 255, 0)), ..Default::default() };
    let new = LightState { on: true, color_temp_mirek: Some(250), ..Default::default() };
    let merged = merge_light_state(base, &new);
    assert_eq!(merged.color_temp_mirek, Some(250));
    assert!(merged.color.is_none());
    assert!(merged.effect.is_none());
}

#[test]
fn a_clear_effect_token_clears_the_effect() {
    let new = LightState { on: true, effect: Some("no_effect".into()), ..Default::default() };
    let merged = merge_light_state(effecting(), &new);
    assert!(merged.effect.is_none());
}

#[test]
fn a_named_effect_replaces_colour_and_temp() {
    let base = LightState {
        on: true,
        color_temp_mirek: Some(300),
        reachable: Some(true),
        transport: Some("lan".into()),
        ..Default::default()
    };
    let new = LightState { on: true, effect: Some("candle".into()), ..Default::default() };
    let merged = merge_light_state(base, &new);
    assert_eq!(merged.effect.as_deref(), Some("candle"));
    assert_eq!(merged.color_temp_mirek, None);
    // What the write does not carry is kept.
    assert_eq!(merged.reachable, Some(true));
    assert_eq!(merged.transport.as_deref(), Some("lan"));
}

#[test]
fn an_off_token_only_stops_the_effect() {
    let base = LightState { on: true, color_temp_mirek: Some(300), ..Default::default() };
    let new = LightState { on: true, effect: Some("off".into()), ..Default::default() };
    let merged = merge_light_state(base, &new);
    assert_eq!(merged.effect, None);
    assert_eq!(merged.color_temp_mirek, Some(300));
    assert!(is_clear_effect("off"));
    assert!(is_clear_effect("no_effect"));
    assert!(!is_clear_effect("Flames"));
}

#[test]
fn power_only_states_set_nothing_but_power() {
    assert!(is_power_only(&LightState { on: true, reachable: Some(true), ..Default::default() }));
    assert!(!is_power_only(&effecting()));
    assert!(!is_power_only(&LightState { on: true, color_temp_mirek: Some(200), ..Default::default() }));
}

#[test]
fn command_outcomes_map_to_statuses() {
    assert_eq!(set_light_status(SetLightOutcome::Done), 204);
    assert_eq!(set_light_status(SetLightOutcome::NotFound), 404);
    assert_eq!(set_light_status(SetLightOutcome::ProviderError), 502);
    assert_eq!(set_light_status(SetLightOutcome::Db), 500);
    assert_eq!(set_power_status(SetPowerOutcome::Done), 204);
    assert_eq!(set_power_status(SetPowerOutcome::NotFound), 404);
}

#[test]
fn power_kinds_roundtrip_through_their_names() {
    for k in [PowerKind::Switch, PowerKind::Outlet, PowerKind::Fan, PowerKind::Toggle, PowerKind::Generic] {
        assert_eq!(parse_kind(kind_str(k)), k);
    }
    assert_eq!(kind_str(PowerKind::Outlet), "outlet");
    assert_eq!(parse_kind("lamp"), PowerKind::Generic);
    let s = commanded_state(true);
    assert!(s.on);
    assert_eq!(s.reachable, Some(true));
}
