//! Light state: the merge of a (possibly partial) write onto a light's
//! current state, where colour, colour temperature and a dynamic effect are
//! mutually exclusive modes, and the status of a light command.
use vstd::prelude::*;
use crate::text::str_eq;

verus! {

/// A CIE xy colour with its brightness; each is held as the bit pattern of
/// its `f32` value (`f32::to_bits`), which the logic here only carries along.
#[derive(Clone, Copy, Debug, PartialEq, Eq, Structural)]
pub struct Color {
    pub x: u32,
    pub y: u32,
    pub brightness: u32,
}

/// A light's state. `brightness` (0–100) is held as the bit pattern of its
/// `f32` value.
#[derive(Clone, Debug, PartialEq, Eq)]
pub struct LightState {
    pub on: bool,
    pub brightness: Option<u32>,
    pub color: Option<Color>,
    pub color_temp_mirek: Option<u16>,
    pub reachable: Option<bool>,
    pub effect: Option<String>,
    pub transport: Option<String>,
    pub ip: Option<String>,
}

impl Default for LightState {
    fn default() -> (s: LightState)
        ensures
            !s.on && s.brightness is None && s.color is None && s.color_temp_mirek is None
                && s.reachable is None && s.effect is None && s.transport is None && s.ip is None,
    {
        LightState {
            on: false,
            brightness: None,
            color: None,
            color_temp_mirek: None,
            reachable: None,
            effect: None,
            transport: None,
            ip: None,
        }
    }
}

/// The effect names that stop a running effect.
pub open spec fn clear_effect_spec(e: Seq<char>) -> bool {
    e == "no_effect"@ || e == "off"@
}

/// Whether `effect` is one of the names that stop a running effect.
pub fn is_clear_effect(effect: &str) -> (r: bool)
    ensures
        r == clear_effect_spec(effect@),
{
    str_eq(effect, "no_effect") || str_eq(effect, "off")
}

/// What merging the write `new` onto the state `old` gives: power always
/// follows the write; brightness and reachability when the write has them;
/// of the three exclusive modes the write's colour wins, then its colour
/// temperature, then its effect (a clear token only stops the effect); a
/// write naming no mode keeps the running one.
pub open spec fn merged_light(old: LightState, new: LightState, m: LightState) -> bool {
    &&& m.on == new.on
    &&& m.brightness == (if new.brightness is Some { new.brightness } else { old.brightness })
    &&& m.reachable == (if new.reachable is Some { new.reachable } else { old.reachable })
    &&& m.transport == old.transport && m.ip == old.ip
    &&& if new.color is Some {
        m.color == new.color && m.color_temp_mirek is None && m.effect is None
    } else if new.color_temp_mirek is Some {
        m.color_temp_mirek == new.color_temp_mirek && m.color is None && m.effect is None
    } else {
        match new.effect {
            Some(e) => if clear_effect_spec(e@) {
                m.effect is None && m.color == old.color && m.color_temp_mirek == old.color_temp_mirek
            } else {
                (m.effect matches Some(me) && me@ == e@) && m.color is None && m.color_temp_mirek is None
            },
            None => m.effect == old.effect && m.color == old.color && m.color_temp_mirek == old.color_temp_mirek,
        }
    }
}

/// Merge an incoming write onto the light's current state (`merged`).
pub fn merge_light_state(merged: LightState, new: &LightState) -> (r: LightState)
    ensures
        merged_light(merged, *new, r),
{
    let mut m = merged;
    m.on = new.on;
    if new.brightness.is_some() {
        m.brightness = new.brightness;
    }
    if new.reachable.is_some() {
        m.reachable = new.reachable;
    }
    if new.color.is_some() {
        m.color = new.color;
        m.color_temp_mirek = None;
        m.effect = None;
    } else if new.color_temp_mirek.is_some() {
        m.color_temp_mirek = new.color_temp_mirek;
        m.color = None;
        m.effect = None;
    } else {
        match &new.effect {
            Some(e) => {
                if is_clear_effect(e.as_str()) {
                    m.effect = None;
                } else {
                    m.effect = Some(e.clone());
                    m.color = None;
                    m.color_temp_mirek = None;
                }
            },
            None => {},
        }
    }
    m
}

/// A write that names none of the three modes keeps the running effect.
pub proof fn lemma_modeless_write_keeps_effect(old: LightState, new: LightState, m: LightState)
    requires
        merged_light(old, new, m),
        new.color is None,
        new.color_temp_mirek is None,
        new.effect is None,
    ensures
        m.effect == old.effect,
        m.color == old.color,
        m.color_temp_mirek == old.color_temp_mirek,
{
}

/// After any merge at most one of colour, colour temperature and effect is
/// set, provided the state merged onto was in at most one mode.
pub proof fn lemma_merge_keeps_one_mode(old: LightState, new: LightState, m: LightState)
    requires
        merged_light(old, new, m),
        at_most_one_mode(old),
    ensures
        at_most_one_mode(m),
{
}

/// At most one of the exclusive modes is set.
pub open spec fn at_most_one_mode(s: LightState) -> bool {
    (if s.color is Some { 1int } else { 0int }) + (if s.color_temp_mirek is Some { 1int } else { 0int })
        + (if s.effect is Some { 1int } else { 0int }) <= 1
}

/// A state that only switches power: it sets none of brightness, colour,
/// colour temperature or effect.
pub open spec fn power_only_spec(s: LightState) -> bool {
    s.brightness is None && s.color is None && s.color_temp_mirek is None && s.effect is None
}

/// Whether a light state only switches power.
pub fn is_power_only(s: &LightState) -> (r: bool)
    ensures
        r == power_only_spec(*s),
{
    s.brightness.is_none() && s.color.is_none() && s.color_temp_mirek.is_none() && s.effect.is_none()
}

/// Outcome of driving one light.
#[derive(Clone, Copy, Debug, PartialEq, Eq, Structural)]
pub enum SetLightOutcome {
    Done,
    NotFound,
    ProviderError,
    Db,
}

/// The HTTP status a light command answers with.
pub fn set_light_status(outcome: SetLightOutcome) -> (code: u16)
    ensures
        code == match outcome {
            SetLightOutcome::Done => 204u16,
            SetLightOutcome::NotFound => 404u16,
            SetLightOutcome::ProviderError => 502u16,
            SetLightOutcome::Db => 500u16,
        },
{
    match outcome {
        SetLightOutcome::Done => 204,
        SetLightOutcome::NotFound => 404,
        SetLightOutcome::ProviderError => 502,
        SetLightOutcome::Db => 500,
    }
}

} // verus!
