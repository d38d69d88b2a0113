//! "#rrggbb" colours: parsing (shared by the group scenes, palette scenes and
//! the assistant tools), formatting, and palette-scene input validation.
use vstd::prelude::*;
use vstd::string::*;
use crate::media::{contains_string, views};
use crate::text::{chars_of, push_char, trim, trim_bounds};

verus! {

pub open spec fn is_hex_digit(c: char) -> bool {
    ('0' <= c && c <= '9') || ('a' <= c && c <= 'f') || ('A' <= c && c <= 'F')
}

pub open spec fn hex_val(c: char) -> int {
    if '0' <= c && c <= '9' {
        (c as int) - ('0' as int)
    } else if 'a' <= c && c <= 'f' {
        (c as int) - ('a' as int) + 10
    } else {
        (c as int) - ('A' as int) + 10
    }
}

/// The byte written by the two hex digits `s[i]`, `s[i + 1]`.
pub open spec fn hex_byte(s: Seq<char>, i: int) -> int {
    hex_val(s[i]) * 16 + hex_val(s[i + 1])
}

/// `parse_hex_color`: a `#` followed by exactly six ASCII hex digits
/// (either case), read as three bytes.
pub open spec fn hex_color_spec(s: Seq<char>) -> Option<(u8, u8, u8)> {
    if s.len() == 7 && s[0] == '#' && (forall|i: int| 1 <= i < 7 ==> #[trigger] is_hex_digit(s[i])) {
        Some((hex_byte(s, 1) as u8, hex_byte(s, 3) as u8, hex_byte(s, 5) as u8))
    } else {
        None
    }
}

fn hex_digit_value(c: char) -> (r: Option<u8>)
    ensures
        r matches Some(x) ==> is_hex_digit(c) && x == hex_val(c),
        r is None ==> !is_hex_digit(c),
{
    if '0' <= c && c <= '9' {
        Some((c as u32 - '0' as u32) as u8)
    } else if 'a' <= c && c <= 'f' {
        Some((c as u32 - 'a' as u32 + 10) as u8)
    } else if 'A' <= c && c <= 'F' {
        Some((c as u32 - 'A' as u32 + 10) as u8)
    } else {
        None
    }
}

/// Parse "#rrggbb" (case-insensitive); `None` for anything else.
pub fn parse_hex_color(s: &str) -> (r: Option<(u8, u8, u8)>)
    ensures
        r == hex_color_spec(s@),
{
    let v = chars_of(s);
    if v.len() != 7 || v[0] != '#' {
        return None;
    }
    let mut vals: Vec<u8> = Vec::new();
    let mut i: usize = 1;
    while i < 7
        invariant
            v@ == s@,
            v@.len() == 7,
            1 <= i <= 7,
            vals@.len() == i - 1,
            forall|k: int| 1 <= k < i ==> #[trigger] is_hex_digit(v@[k]),
            forall|k: int| 1 <= k < i ==> vals@[k - 1] == hex_val(#[trigger] v@[k]),
        decreases 7 - i,
    {
        match hex_digit_value(v[i]) {
            Some(x) => vals.push(x),
            None => return None,
        }
        i = i + 1;
    }
    assert(is_hex_digit(v@[1]) && is_hex_digit(v@[2]) && is_hex_digit(v@[3]));
    assert(is_hex_digit(v@[4]) && is_hex_digit(v@[5]) && is_hex_digit(v@[6]));
    assert(vals@[0] == hex_val(v@[1]) && vals@[1] == hex_val(v@[2]));
    assert(vals@[2] == hex_val(v@[3]) && vals@[3] == hex_val(v@[4]));
    assert(vals@[4] == hex_val(v@[5]) && vals@[5] == hex_val(v@[6]));
    assert(0 <= hex_val(v@[1]) < 16 && 0 <= hex_val(v@[2]) < 16);
    assert(0 <= hex_val(v@[3]) < 16 && 0 <= hex_val(v@[4]) < 16);
    assert(0 <= hex_val(v@[5]) < 16 && 0 <= hex_val(v@[6]) < 16);
    let r = vals[0] * 16 + vals[1];
    let g = vals[2] * 16 + vals[3];
    let b = vals[4] * 16 + vals[5];
    Some((r, g, b))
}

/// The lowercase hex digit of `d < 16`.
pub open spec fn hex_char(d: int) -> char {
    if d < 10 {
        ((('0' as int) + d) as u32) as char
    } else {
        ((('a' as int) + d - 10) as u32) as char
    }
}

fn nibble_char(d: u8) -> (c: char)
    requires
        d < 16,
    ensures
        c == hex_char(d as int),
{
    let digits: Vec<char> = vec![
        '0', '1', '2', '3', '4', '5', '6', '7', '8', '9', 'a', 'b', 'c', 'd', 'e', 'f',
    ];
    let c = digits[d as usize];
    assert(c == hex_char(d as int));
    c
}

/// `format!("#{r:02x}{g:02x}{b:02x}")`.
pub open spec fn rgb_hex_spec(r: u8, g: u8, b: u8) -> Seq<char> {
    seq![
        '#',
        hex_char(r as int / 16),
        hex_char(r as int % 16),
        hex_char(g as int / 16),
        hex_char(g as int % 16),
        hex_char(b as int / 16),
        hex_char(b as int % 16),
    ]
}

/// Format an RGB triple as lowercase "#rrggbb".
pub fn rgb_to_hex(r: u8, g: u8, b: u8) -> (s: String)
    ensures
        s@ == rgb_hex_spec(r, g, b),
{
    let mut s = String::new();
    push_char(&mut s, '#');
    push_char(&mut s, nibble_char(r / 16));
    push_char(&mut s, nibble_char(r % 16));
    push_char(&mut s, nibble_char(g / 16));
    push_char(&mut s, nibble_char(g % 16));
    push_char(&mut s, nibble_char(b / 16));
    push_char(&mut s, nibble_char(b % 16));
    assert(s@ =~= rgb_hex_spec(r, g, b));
    s
}

proof fn lemma_hex_char(d: int)
    requires
        0 <= d < 16,
    ensures
        is_hex_digit(hex_char(d)),
        hex_val(hex_char(d)) == d,
{
}

/// Formatting a colour and parsing it back gives the same colour.
pub proof fn lemma_rgb_hex_roundtrip(r: u8, g: u8, b: u8)
    ensures
        hex_color_spec(rgb_hex_spec(r, g, b)) == Some((r, g, b)),
{
    let s = rgb_hex_spec(r, g, b);
    lemma_hex_char(r as int / 16);
    lemma_hex_char(r as int % 16);
    lemma_hex_char(g as int / 16);
    lemma_hex_char(g as int % 16);
    lemma_hex_char(b as int / 16);
    lemma_hex_char(b as int % 16);
    assert forall|i: int| 1 <= i < 7 implies #[trigger] is_hex_digit(s[i]) by {}
}

/// Why a palette-scene write was refused.
#[derive(Clone, Debug, PartialEq, Eq)]
pub enum SceneError {
    Validation(String),
    NotFound,
    Db,
}

/// Validate a new palette scene: a non-blank name, a brightness inside
/// `[1, 100]` (`brightness_in_range`, decided by the caller on the float),
/// and a palette of "#rrggbb" colours. The first failing check names the
/// error.
pub fn validate_scene(name: &str, brightness_in_range: bool, palette: &Vec<String>) -> (r: Result<
    (),
    SceneError,
>)
    ensures
        r is Ok <==> (trim(name@).len() > 0 && brightness_in_range && forall|i: int|
            0 <= i < palette@.len() ==> hex_color_spec(#[trigger] palette@[i]@) is Some),
        r matches Err(SceneError::Validation(m)) ==> (if trim(name@).len() == 0 {
            m@ == scene_error_text(0, seq![])
        } else if !brightness_in_range {
            m@ == scene_error_text(1, seq![])
        } else {
            exists|i: int|
                0 <= i < palette@.len() && hex_color_spec(#[trigger] palette@[i]@) is None && (
                forall|j: int| 0 <= j < i ==> hex_color_spec(#[trigger] palette@[j]@) is Some)
                    && m@ == scene_error_text(2, palette@[i]@)
        }),
        r matches Err(e) ==> e is Validation,
{
    let v = chars_of(name);
    let (lo, hi) = trim_bounds(&v, 0, v.len());
    assert(v@.subrange(0, v@.len() as int) =~= v@);
    if lo == hi {
        return Err(SceneError::Validation(scene_error(0, "")));
    }
    if !brightness_in_range {
        return Err(SceneError::Validation(scene_error(1, "")));
    }
    assert(trim(name@).len() > 0);
    let mut i: usize = 0;
    while i < palette.len()
        invariant
            trim(name@).len() > 0,
            brightness_in_range,
            i <= palette@.len(),
            forall|j: int| 0 <= j < i ==> hex_color_spec(#[trigger] palette@[j]@) is Some,
        decreases palette@.len() - i,
    {
        if parse_hex_color(palette[i].as_str()).is_none() {
            assert(hex_color_spec(palette@[i as int]@) is None);
            let m = scene_error(2, palette[i].as_str());
            assert(m@ == scene_error_text(2, palette@[i as int]@));
            assert(trim(name@).len() > 0);
            assert(0 <= i < palette@.len() && hex_color_spec(palette@[i as int]@) is None && (
                forall|j: int| 0 <= j < i ==> hex_color_spec(#[trigger] palette@[j]@) is Some)
                    && m@ == scene_error_text(2, palette@[i as int]@));
            return Err(SceneError::Validation(m));
        }
        i = i + 1;
    }
    Ok(())
}

/// The texts of the scene validation errors: a blank name, an out-of-range
/// brightness, and a bad colour `c`.
pub open spec fn scene_error_text(which: int, c: Seq<char>) -> Seq<char> {
    if which == 0 {
        "scene name is required"@
    } else if which == 1 {
        "brightness must be 1-100"@
    } else {
        seq!['\''] + c + "' is not a #rrggbb color"@
    }
}

fn scene_error(which: u8, c: &str) -> (s: String)
    requires
        which <= 2,
    ensures
        s@ == scene_error_text(which as int, if which == 2 { c@ } else { seq![] }),
{
    if which == 0 {
        String::from_str("scene name is required")
    } else if which == 1 {
        String::from_str("brightness must be 1-100")
    } else {
        let mut s = String::new();
        push_char(&mut s, '\'');
        s.append(c);
        s.append("' is not a #rrggbb color");
        assert(s@ =~= seq!['\''] + c@ + "' is not a #rrggbb color"@);
        s
    }
}

// ── Capturing a room as a scene ──────────────────────────────────────────────

/// The palette of a room capture: the distinct "#rrggbb" colours of the lit
/// lights, in the order first seen (a lit light without a colour adds none).
pub open spec fn lit_palette(lit: Seq<Option<(u8, u8, u8)>>) -> Seq<Seq<char>>
    decreases lit.len(),
{
    if lit.len() == 0 {
        Seq::empty()
    } else {
        let d = lit_palette(lit.drop_last());
        match lit.last() {
            Some((r, g, b)) => if d.contains(rgb_hex_spec(r, g, b)) {
                d
            } else {
                d.push(rgb_hex_spec(r, g, b))
            },
            None => d,
        }
    }
}

/// The palette a room capture saves, from the colours of its lit lights
/// (one entry per lit light); refused when no light is on.
pub fn room_scene_palette(lit: &Vec<Option<(u8, u8, u8)>>) -> (r: Result<Vec<String>, String>)
    ensures
        lit@.len() == 0 ==> (r matches Err(m) && m@ == "no lights in this room are on"@),
        lit@.len() > 0 ==> (r matches Ok(p) && views(p@) == lit_palette(lit@)),
{
    if lit.len() == 0 {
        return Err(String::from_str("no lights in this room are on"));
    }
    let mut out: Vec<String> = Vec::new();
    let mut i: usize = 0;
    assert(lit@.subrange(0, 0) =~= Seq::<Option<(u8, u8, u8)>>::empty());
    assert(views(out@) =~= Seq::<Seq<char>>::empty());
    while i < lit.len()
        invariant
            i <= lit@.len(),
            views(out@) == lit_palette(lit@.subrange(0, i as int)),
        decreases lit@.len() - i,
    {
        proof {
            let next = lit@.subrange(0, i + 1);
            assert(next.drop_last() =~= lit@.subrange(0, i as int));
            assert(next.last() == lit@[i as int]);
        }
        if let Some((r, g, b)) = lit[i] {
            let hex = rgb_to_hex(r, g, b);
            if !contains_string(&out, &hex) {
                let ghost before = out@;
                out.push(hex);
                assert(views(out@) =~= views(before).push(rgb_hex_spec(r, g, b)));
            }
        }
        i = i + 1;
    }
    assert(lit@.subrange(0, lit@.len() as int) =~= lit@);
    Ok(out)
}

} // verus!
