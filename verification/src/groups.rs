//! Light groups: how a palette scene's colours are dealt out to the group's
//! lights, and the tally of a fan-out write.
use vstd::prelude::*;
pub use crate::palette_scenes::parse_hex_color;
use crate::palette_scenes::hex_color_spec;
use crate::text::{push_char, trim, trimmed};
use crate::lights::{Color, LightState};
use vstd::string::*;

verus! {

/// The colours of a palette that parse, in order (malformed entries are
/// skipped).
pub open spec fn palette_colors(palette: Seq<String>) -> Seq<(u8, u8, u8)>
    decreases palette.len(),
{
    if palette.len() == 0 {
        Seq::empty()
    } else {
        let rest = palette_colors(palette.drop_last());
        match hex_color_spec(palette.last()@) {
            Some(c) => rest.push(c),
            None => rest,
        }
    }
}

/// The colours of a palette that parse.
pub fn parse_palette(palette: &Vec<String>) -> (r: Vec<(u8, u8, u8)>)
    ensures
        r@ == palette_colors(palette@),
{
    let mut out: Vec<(u8, u8, u8)> = Vec::new();
    let mut i: usize = 0;
    assert(palette@.subrange(0, 0) =~= Seq::<String>::empty());
    while i < palette.len()
        invariant
            i <= palette@.len(),
            out@ == palette_colors(palette@.subrange(0, i as int)),
        decreases palette@.len() - i,
    {
        let c = parse_hex_color(palette[i].as_str());
        if let Some(rgb) = c {
            out.push(rgb);
        }
        proof {
            let next = palette@.subrange(0, i + 1);
            assert(next.drop_last() =~= palette@.subrange(0, i as int));
            assert(next.last() == palette@[i as int]);
        }
        i = i + 1;
    }
    assert(palette@.subrange(0, palette@.len() as int) =~= palette@);
    out
}

/// Deal a palette round-robin over `members` lights (ordered by name): light
/// `i` gets colour `i mod n` of the `n` valid colours, or none without any.
pub fn deal_palette(palette: &Vec<String>, members: usize) -> (r: Vec<Option<(u8, u8, u8)>>)
    ensures
        r@.len() == members,
        forall|i: int| 0 <= i < members ==> #[trigger] r@[i] == {
            let cs = palette_colors(palette@);
            if cs.len() == 0 {
                None
            } else {
                Some(cs[i % (cs.len() as int)])
            }
        },
{
    let colors = parse_palette(palette);
    let mut out: Vec<Option<(u8, u8, u8)>> = Vec::new();
    let mut i: usize = 0;
    while i < members
        invariant
            i <= members,
            colors@ == palette_colors(palette@),
            out@.len() == i,
            forall|k: int| 0 <= k < i ==> #[trigger] out@[k] == {
                let cs = palette_colors(palette@);
                if cs.len() == 0 {
                    None
                } else {
                    Some(cs[k % (cs.len() as int)])
                }
            },
        decreases members - i,
    {
        if colors.len() == 0 {
            out.push(None);
        } else {
            out.push(Some(colors[i % colors.len()]));
        }
        i = i + 1;
    }
    out
}

/// The state a scene sends to one light: on, at the scene's brightness, in
/// its dealt colour, with no colour temperature and nothing else set.
pub open spec fn scene_target_spec(brightness: Option<u32>, color: Option<Color>) -> LightState {
    LightState {
        on: true,
        brightness,
        color,
        color_temp_mirek: None,
        reachable: None,
        effect: None,
        transport: None,
        ip: None,
    }
}

/// The state a scene sends to one light, given the scene's brightness (as
/// `f32` bits) and the colour dealt to the light.
pub fn scene_target(brightness: Option<u32>, color: Option<Color>) -> (s: LightState)
    ensures
        s == scene_target_spec(brightness, color),
{
    LightState {
        on: true,
        brightness,
        color,
        color_temp_mirek: None,
        reachable: None,
        effect: None,
        transport: None,
        ip: None,
    }
}

/// Applying a scene to `members` lights (ordered by name) with the scene's
/// brightness and its valid colours: `None` (not found) for a group without
/// members; otherwise light `i` gets the scene state in colour
/// `i mod n` of the `n` colours, or no colour without any.
pub fn scene_plan(brightness: Option<u32>, colors: &Vec<Color>, members: usize) -> (r: Option<Vec<LightState>>)
    ensures
        r is None <==> members == 0,
        r matches Some(v) ==> {
            &&& v@.len() == members
            &&& forall|i: int| 0 <= i < members ==> #[trigger] v@[i] == scene_target_spec(
                brightness,
                if colors@.len() == 0 { None } else { Some(colors@[i % (colors@.len() as int)]) },
            )
        },
{
    if members == 0 {
        return None;
    }
    let mut out: Vec<LightState> = Vec::new();
    let mut i: usize = 0;
    while i < members
        invariant
            i <= members,
            out@.len() == i,
            forall|k: int| 0 <= k < i ==> #[trigger] out@[k] == scene_target_spec(
                brightness,
                if colors@.len() == 0 { None } else { Some(colors@[k % (colors@.len() as int)]) },
            ),
        decreases members - i,
    {
        let c = if colors.len() == 0 {
            None
        } else {
            Some(colors[i % colors.len()])
        };
        out.push(scene_target(brightness, c));
        i = i + 1;
    }
    Some(out)
}

/// How many of a fan-out's writes succeeded and how many failed.
pub fn tally(results: &Vec<bool>) -> (r: (usize, usize))
    ensures
        r.0 == results@.filter(|ok: bool| ok).len(),
        r.0 + r.1 == results@.len(),
{
    let ghost is_ok = |ok: bool| ok;
    let mut applied: usize = 0;
    let mut i: usize = 0;
    proof {
        reveal(Seq::filter);
        assert(results@.subrange(0, 0) =~= Seq::<bool>::empty());
    }
    while i < results.len()
        invariant
            i <= results@.len(),
            is_ok == (|ok: bool| ok),
            applied == results@.subrange(0, i as int).filter(is_ok).len(),
            applied <= i,
        decreases results@.len() - i,
    {
        proof {
            reveal(Seq::filter);
            let next = results@.subrange(0, i + 1);
            assert(next.drop_last() =~= results@.subrange(0, i as int));
            assert(next.last() == results@[i as int]);
        }
        if results[i] {
            applied = applied + 1;
        }
        i = i + 1;
    }
    assert(results@.subrange(0, results@.len() as int) =~= results@);
    (applied, results.len() - applied)
}

/// The texts of the group-scene validation errors: a blank name, an
/// out-of-range brightness, and a bad colour `c`.
pub open spec fn group_scene_error_text(which: int, c: Seq<char>) -> Seq<char> {
    if which == 0 {
        "scene name is required"@
    } else if which == 1 {
        "brightness must be 1-100"@
    } else {
        seq!['\''] + c + "' is not a #rrggbb colour"@
    }
}

/// Validate a new group scene: a non-blank name, a brightness inside
/// `[1, 100]` (`brightness_in_range`, decided by the caller on the float),
/// and a palette of "#rrggbb" colours; the first failing check gives the
/// 422 message.
pub fn check_group_scene(name: &str, brightness_in_range: bool, palette: &Vec<String>) -> (r: Option<String>)
    ensures
        r is None <==> (trim(name@).len() > 0 && brightness_in_range && forall|i: int|
            0 <= i < palette@.len() ==> hex_color_spec(#[trigger] palette@[i]@) is Some),
        r matches Some(m) ==> (if trim(name@).len() == 0 {
            m@ == group_scene_error_text(0, seq![])
        } else if !brightness_in_range {
            m@ == group_scene_error_text(1, seq![])
        } else {
            exists|i: int|
                0 <= i < palette@.len() && hex_color_spec(#[trigger] palette@[i]@) is None && (
                forall|j: int| 0 <= j < i ==> hex_color_spec(#[trigger] palette@[j]@) is Some)
                    && m@ == group_scene_error_text(2, palette@[i]@)
        }),
{
    let t = trimmed(name);
    if t.as_str().is_empty() {
        return Some(String::from_str("scene name is required"));
    }
    if !brightness_in_range {
        return Some(String::from_str("brightness must be 1-100"));
    }
    let mut i: usize = 0;
    while i < palette.len()
        invariant
            trim(name@).len() > 0,
            brightness_in_range,
            i <= palette@.len(),
            forall|j: int| 0 <= j < i ==> hex_color_spec(#[trigger] palette@[j]@) is Some,
        decreases palette@.len() - i,
    {
        if parse_hex_color(palette[i].as_str()).is_none() {
            let mut m = String::new();
            push_char(&mut m, '\'');
            m.append(palette[i].as_str());
            m.append("' is not a #rrggbb colour");
            assert(m@ =~= group_scene_error_text(2, palette@[i as int]@));
            assert(0 <= i < palette@.len() && hex_color_spec(palette@[i as int]@) is None && (
                forall|j: int| 0 <= j < i ==> hex_color_spec(#[trigger] palette@[j]@) is Some)
                    && m@ == group_scene_error_text(2, palette@[i as int]@));
            return Some(m);
        }
        i = i + 1;
    }
    None
}

} // verus!
