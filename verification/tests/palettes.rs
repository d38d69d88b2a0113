use bifrost_api::palettes::{dedupe_palettes, stale_palettes, PaletteColor, ProviderPalette, StoredPalette};

fn palette(id: &str, name: &str, n_colors: usize) -> ProviderPalette {
    ProviderPalette {
        provider_id: id.to_string(),
        name: name.to_string(),
        colors: (0..n_colors)
            .map(|i| PaletteColor {
                xy: Some(((0.3 + i as f32 * 0.01).to_bits(), 0.3f32.to_bits())),
                mirek: None,
                brightness: None,
            })
            .collect(),
    }
}

#[test]
fn dedupe_keeps_one_per_name_richest_copy_stable_winner() {
    let kept = dedupe_palettes(vec![
        palette("c-rid", "Nightlight", 2),
        palette("a-rid", "Nightlight", 1),
        palette("b-rid", "Nightlight", 2),
        palette("z-rid", "Savanna sunset", 6),
    ]);
    assert_eq!(kept.len(), 2);
    assert_eq!(kept[0].name, "Nightlight");
    assert_eq!(kept[0].provider_id, "b-rid");
    assert_eq!(kept[0].colors.len(), 2);
    assert_eq!(kept[1].name, "Savanna sunset");
}

#[test]
fn dedupe_lists_names_in_order_and_keeps_singletons() {
    let kept = dedupe_palettes(vec![
        palette("x", "Zebra", 1),
        palette("y", "Arctic", 3),
        palette("w", "Arctic", 3),
    ]);
    let names: Vec<&str> = kept.iter().map(|p| p.name.as_str()).collect();
    assert_eq!(names, vec!["Arctic", "Zebra"]);
    assert_eq!(kept[0].provider_id, "w");
    assert_eq!(kept[0].colors, palette("w", "Arctic", 3).colors);
    assert!(dedupe_palettes(vec![]).is_empty());
}

fn stored(id: &str, source: &str, source_id: Option<&str>) -> StoredPalette {
    StoredPalette { id: id.into(), source: source.into(), source_id: source_id.map(String::from) }
}

fn rows() -> Vec<StoredPalette> {
    vec![
        stored("p1", "hue", Some("keep-rid")),
        stored("p2", "hue", Some("loser-rid")),
        stored("p3", "hue", Some("deleted-rid")),
        stored("p4", "user", None),
        stored("p5", "wled", Some("other-rid")),
    ]
}

#[test]
fn sync_prunes_dedupe_losers_and_provider_deletions_only() {
    let kept = vec![palette("keep-rid", "Nightlight", 2)];
    // The dedupe loser and the provider deletion go; the user palette and
    // the other source's row stay.
    assert_eq!(stale_palettes("hue", true, &kept, &rows()), vec!["p2".to_string(), "p3".to_string()]);
}

#[test]
fn incomplete_discovery_never_prunes() {
    let one = vec![stored("p1", "hue", Some("rid"))];
    assert!(stale_palettes("hue", false, &vec![], &one).is_empty());
    let kept = vec![palette("keep-rid", "Nightlight", 2)];
    assert!(stale_palettes("hue", false, &kept, &rows()).is_empty());
}

#[test]
fn empty_but_successful_discovery_never_prunes_either() {
    let one = vec![stored("p1", "hue", Some("rid"))];
    assert!(stale_palettes("hue", true, &vec![], &one).is_empty());
    assert!(stale_palettes("hue", true, &vec![], &rows()).is_empty());
}
