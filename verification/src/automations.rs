//! Automation rules: the checks a rule must pass before it is stored, the
//! hour plans of timer rules and the edges they act on, the cooldown gate,
//! the stays-for timers, and the timed holds (what a hold snapshots, how
//! overlapping holds share the true original, and when a manual change
//! releases a held device).
use vstd::prelude::*;
use crate::lights::{LightState, clear_effect_spec, is_clear_effect, is_power_only, power_only_spec};
use crate::text::str_eq;

verus! {

/// The domains a device trigger can watch.
#[derive(Clone, Copy, Debug, PartialEq, Eq, Structural)]
pub enum TriggerDeviceDomain {
    Light,
    Media,
    Power,
}

/// The table a device-trigger domain lives in.
pub fn device_trigger_table(domain: TriggerDeviceDomain) -> (r: &'static str)
    ensures
        r@ == match domain {
            TriggerDeviceDomain::Light => "lights"@,
            TriggerDeviceDomain::Media => "media_devices"@,
            TriggerDeviceDomain::Power => "power_devices"@,
        },
{
    match domain {
        TriggerDeviceDomain::Light => "lights",
        TriggerDeviceDomain::Media => "media_devices",
        TriggerDeviceDomain::Power => "power_devices",
    }
}

/// Whether a stored rule defaults to enabled when the body omits the flag.
pub fn default_true() -> (r: bool)
    ensures
        r,
{
    true
}

// ── Hour plans ───────────────────────────────────────────────────────────────

/// The mode of one hour of a plan: on ('W'), off ('S'), or aware ('A', a
/// kiosk display mode that follows presence).
pub open spec fn is_plan_char(c: char) -> bool {
    c == 'W' || c == 'S' || c == 'A'
}

/// A plan is exactly 24 hour modes.
pub open spec fn valid_plan_spec(plan: Seq<char>) -> bool {
    plan.len() == 24 && forall|i: int| 0 <= i < 24 ==> is_plan_char(#[trigger] plan[i])
}

/// Whether `plan` is a well-formed 24-hour plan.
pub fn is_valid_hour_plan(plan: &str) -> (r: bool)
    ensures
        r == valid_plan_spec(plan@),
{
    let v = crate::text::chars_of(plan);
    if v.len() != 24 {
        return false;
    }
    let mut i: usize = 0;
    while i < 24
        invariant
            v@ == plan@,
            v@.len() == 24,
            i <= 24,
            forall|k: int| 0 <= k < i ==> is_plan_char(#[trigger] v@[k]),
        decreases 24 - i,
    {
        let c = v[i];
        if !(c == 'W' || c == 'S' || c == 'A') {
            assert(!is_plan_char(v@[i as int]));
            return false;
        }
        i = i + 1;
    }
    true
}

/// The mode a plan gives for `hour`, when the plan has a valid mode there.
pub open spec fn plan_mode_spec(plan: Seq<char>, hour: int) -> Option<char> {
    if 0 <= hour < plan.len() && is_plan_char(plan[hour]) {
        Some(plan[hour])
    } else {
        None
    }
}

pub fn plan_mode(plan: &str, hour: usize) -> (r: Option<char>)
    ensures
        r == plan_mode_spec(plan@, hour as int),
{
    let v = crate::text::chars_of(plan);
    if hour < v.len() {
        let c = v[hour];
        if c == 'W' || c == 'S' || c == 'A' {
            return Some(c);
        }
    }
    None
}

/// Whether a mode wants its targets on: on hours do, off hours do not, and
/// an aware hour follows `aware` (unknown without it).
pub open spec fn plan_desired_spec(mode: char, aware: Option<bool>) -> Option<bool> {
    if mode == 'W' {
        Some(true)
    } else if mode == 'S' {
        Some(false)
    } else if mode == 'A' {
        aware
    } else {
        None
    }
}

pub fn plan_desired(mode: char, aware: Option<bool>) -> (r: Option<bool>)
    ensures
        r == plan_desired_spec(mode, aware),
{
    if mode == 'W' {
        Some(true)
    } else if mode == 'S' {
        Some(false)
    } else if mode == 'A' {
        aware
    } else {
        None
    }
}

// ── Rules as the checks read them ────────────────────────────────────────────

/// One action of a rule.
pub enum RuleAction {
    Light { light_id: String, state: LightState },
    Room { room_id: String, state: LightState },
    Power { device_id: String, on: bool },
    Scene { scene_id: String },
    App { remote_id: String, app: String },
    Toggle { domain: TriggerDeviceDomain, device_id: String },
}

/// A group of actions (its own conditions are evaluated elsewhere).
pub struct ActionStep {
    pub actions: Vec<RuleAction>,
}

/// What kind of input triggers a rule.
#[derive(Clone, Copy, Debug, PartialEq, Eq, Structural)]
pub enum TriggerKind {
    Manual,
    Sensor,
    Device,
    Room,
    Schedule,
}

/// A rule body as its checks read it.
pub struct RuleShape {
    pub kind: TriggerKind,
    /// The hour plan of a timer rule.
    pub hour_modes: String,
    /// The trigger event is a threshold crossing (rises above / drops below).
    pub threshold_event: bool,
    /// The stays-for duration of the trigger event, if it has one.
    pub stay_secs: Option<u32>,
    pub steps: Vec<ActionStep>,
    pub cooldown_secs: u32,
    pub restore_secs: Option<u32>,
}

pub open spec fn action_power_only(a: RuleAction) -> bool {
    match a {
        RuleAction::Power { .. } => true,
        RuleAction::Light { state, .. } => power_only_spec(state),
        RuleAction::Room { state, .. } => power_only_spec(state),
        _ => false,
    }
}

pub open spec fn has_action(steps: Seq<ActionStep>) -> bool {
    exists|i: int| 0 <= i < steps.len() && (#[trigger] steps[i]).actions@.len() > 0
}

pub open spec fn all_power_only(steps: Seq<ActionStep>) -> bool {
    forall|i: int, j: int| 0 <= i < steps.len() && 0 <= j < steps[i].actions@.len() ==> action_power_only(#[trigger] steps[i].actions@[j])
}

fn any_action(steps: &Vec<ActionStep>) -> (r: bool)
    ensures
        r == has_action(steps@),
{
    let mut i: usize = 0;
    while i < steps.len()
        invariant
            i <= steps@.len(),
            forall|k: int| 0 <= k < i ==> (#[trigger] steps@[k]).actions@.len() == 0,
        decreases steps@.len() - i,
    {
        if steps[i].actions.len() > 0 {
            return true;
        }
        i = i + 1;
    }
    false
}

fn power_only_actions(steps: &Vec<ActionStep>) -> (r: bool)
    ensures
        r == all_power_only(steps@),
{
    let mut i: usize = 0;
    while i < steps.len()
        invariant
            i <= steps@.len(),
            forall|a: int, b: int| 0 <= a < i && 0 <= b < steps@[a].actions@.len() ==> action_power_only(#[trigger] steps@[a].actions@[b]),
        decreases steps@.len() - i,
    {
        let acts = &steps[i].actions;
        let mut j: usize = 0;
        while j < acts.len()
            invariant
                i < steps@.len(),
                acts@ == steps@[i as int].actions@,
                j <= acts@.len(),
                forall|b: int| 0 <= b < j ==> action_power_only(#[trigger] acts@[b]),
            decreases acts@.len() - j,
        {
            let ok = match &acts[j] {
                RuleAction::Power { .. } => true,
                RuleAction::Light { state, .. } => is_power_only(state),
                RuleAction::Room { state, .. } => is_power_only(state),
                _ => false,
            };
            if !ok {
                return false;
            }
            j = j + 1;
        }
        i = i + 1;
    }
    true
}

fn has_aware_hour(plan: &str) -> (r: bool)
    ensures
        r == plan@.contains('A'),
{
    let v = crate::text::chars_of(plan);
    let mut i: usize = 0;
    while i < v.len()
        invariant
            v@ == plan@,
            i <= v@.len(),
            forall|k: int| 0 <= k < i ==> v@[k] != 'A',
        decreases v@.len() - i,
    {
        if v[i] == 'A' {
            return true;
        }
        i = i + 1;
    }
    false
}

/// The first refusal a rule meets before its trigger subject is looked up.
pub open spec fn shape_error(b: RuleShape) -> Option<Seq<char>> {
    if !has_action(b.steps@) {
        Some("an automation needs at least one action"@)
    } else if b.kind == TriggerKind::Device && b.threshold_event {
        Some("a device's power is on/off — pick a turns-on/off trigger"@)
    } else if b.kind == TriggerKind::Room && b.threshold_event {
        Some("a room's occupancy is occupied/empty — pick an occupancy trigger"@)
    } else if b.kind == TriggerKind::Schedule {
        if !valid_plan_spec(b.hour_modes@) || b.hour_modes@.contains('A') {
            Some("a timer plan must be exactly 24 hours of on / off"@)
        } else if !all_power_only(b.steps@) {
            Some("a timer only switches power — pick rooms, lights, or switches"@)
        } else if b.restore_secs is Some {
            Some("a timer rule already turns its devices off when its off hours begin"@)
        } else if b.cooldown_secs != 0 {
            Some("a timer fires at most once an hour — cooldown doesn't apply"@)
        } else {
            None
        }
    } else {
        None
    }
}

/// A timer only switches power: a schedule rule is refused whenever one of
/// its actions is a light or room action whose state sets a brightness, a
/// colour, a colour temperature or an effect, or is a scene, app or toggle
/// action.
pub proof fn lemma_timer_refuses_attribute_actions(b: RuleShape, i: int, j: int)
    requires
        b.kind == TriggerKind::Schedule,
        0 <= i < b.steps@.len(),
        0 <= j < b.steps@[i].actions@.len(),
        match b.steps@[i].actions@[j] {
            RuleAction::Light { state, .. } => state.brightness is Some || state.color is Some || state.color_temp_mirek is Some || state.effect is Some,
            RuleAction::Room { state, .. } => state.brightness is Some || state.color is Some || state.color_temp_mirek is Some || state.effect is Some,
            RuleAction::Power { .. } => false,
            _ => true,
        },
    ensures
        shape_error(b) is Some,
{
    assert(b.steps@[i].actions@.len() > 0);
    assert(has_action(b.steps@));
    assert(!action_power_only(b.steps@[i].actions@[j]));
}

/// A timer whose plan is a full day of on/off hours, whose actions all
/// just switch power (a light or room action only turning on or off), and
/// which has neither a timed hold nor a cooldown, passes the shape checks.
pub proof fn lemma_power_only_timer_passes(b: RuleShape)
    requires
        b.kind == TriggerKind::Schedule,
        has_action(b.steps@),
        valid_plan_spec(b.hour_modes@),
        !b.hour_modes@.contains('A'),
        forall|i: int, j: int| 0 <= i < b.steps@.len() && 0 <= j < b.steps@[i].actions@.len() ==> match #[trigger] b.steps@[i].actions@[j] {
            RuleAction::Light { state, .. } => state.brightness is None && state.color is None && state.color_temp_mirek is None && state.effect is None,
            RuleAction::Room { state, .. } => state.brightness is None && state.color is None && state.color_temp_mirek is None && state.effect is None,
            RuleAction::Power { .. } => true,
            _ => false,
        },
        b.restore_secs is None,
        b.cooldown_secs == 0,
    ensures
        shape_error(b) is None,
{
}

fn msg(s: &str) -> (r: Result<(), String>)
    ensures
        r matches Err(m) && m@ == s@,
{
    Err(s.to_owned())
}

pub open spec fn is_err_with(r: Result<(), String>, e: Option<Seq<char>>) -> bool {
    match e {
        None => r is Ok,
        Some(m) => r matches Err(x) && x@ == m,
    }
}

/// The checks a rule body must pass before its trigger subject is looked
/// up: at least one action; a device or room trigger is not a threshold;
/// a timer has a 24-hour on/off plan, only switches power, and has neither
/// a timed hold nor a cooldown.
pub fn check_rule_shape(b: &RuleShape) -> (r: Result<(), String>)
    ensures
        is_err_with(r, shape_error(*b)),
{
    if !any_action(&b.steps) {
        return msg("an automation needs at least one action");
    }
    match b.kind {
        TriggerKind::Device => {
            if b.threshold_event {
                return msg("a device's power is on/off — pick a turns-on/off trigger");
            }
        },
        TriggerKind::Room => {
            if b.threshold_event {
                return msg("a room's occupancy is occupied/empty — pick an occupancy trigger");
            }
        },
        TriggerKind::Schedule => {
            if !is_valid_hour_plan(b.hour_modes.as_str()) || has_aware_hour(b.hour_modes.as_str()) {
                return msg("a timer plan must be exactly 24 hours of on / off");
            }
            if !power_only_actions(&b.steps) {
                return msg("a timer only switches power — pick rooms, lights, or switches");
            }
            if b.restore_secs.is_some() {
                return msg("a timer rule already turns its devices off when its off hours begin");
            }
            if b.cooldown_secs != 0 {
                return msg("a timer fires at most once an hour — cooldown doesn't apply");
            }
        },
        _ => {},
    }
    Ok(())
}

/// What the store says of a rule's trigger subject.
pub enum SubjectLookup {
    /// A manual or timer rule has no subject to look up.
    NoSubject,
    /// The sensor's kind, `None` for an unknown sensor.
    SensorKind(Option<String>),
    /// Whether the device exists.
    DeviceExists(bool),
    /// Whether the room's occupancy is known (it has presence sensors).
    RoomOccupancyKnown(bool),
}

/// Sensor kinds whose reading is a number.
pub open spec fn numeric_kind(kind: Seq<char>) -> bool {
    kind == "illuminance"@ || kind == "temperature"@ || kind == "humidity"@
}

/// The refusal a rule meets on its looked-up subject: an unknown sensor, a
/// sensor whose reading type does not suit the trigger, an unknown device,
/// or a room without presence sensors.
pub open spec fn subject_error(b: RuleShape, l: SubjectLookup) -> Option<Seq<char>> {
    match l {
        SubjectLookup::SensorKind(None) => Some("unknown sensor"@),
        SubjectLookup::SensorKind(Some(k)) => if numeric_kind(k@) != b.threshold_event {
            if numeric_kind(k@) {
                Some("a numeric sensor needs a threshold trigger (rises above / drops below)"@)
            } else {
                Some("a motion/contact sensor needs a detected/cleared trigger"@)
            }
        } else {
            None
        },
        SubjectLookup::DeviceExists(false) => Some("unknown device"@),
        SubjectLookup::RoomOccupancyKnown(false) => Some("that room has no motion or occupancy sensors, so it can't trigger"@),
        _ => None,
    }
}

pub fn check_rule_subject(b: &RuleShape, l: &SubjectLookup) -> (r: Result<(), String>)
    ensures
        is_err_with(r, subject_error(*b, *l)),
{
    match l {
        SubjectLookup::SensorKind(None) => msg("unknown sensor"),
        SubjectLookup::SensorKind(Some(k)) => {
            let ks = k.as_str();
            let numeric = str_eq(ks, "illuminance") || str_eq(ks, "temperature") || str_eq(ks, "humidity");
            if numeric != b.threshold_event {
                if numeric {
                    msg("a numeric sensor needs a threshold trigger (rises above / drops below)")
                } else {
                    msg("a motion/contact sensor needs a detected/cleared trigger")
                }
            } else {
                Ok(())
            }
        },
        SubjectLookup::DeviceExists(false) => msg("unknown device"),
        SubjectLookup::RoomOccupancyKnown(false) => msg("that room has no motion or occupancy sensors, so it can't trigger"),
        _ => Ok(()),
    }
}

/// The shortest and longest stays-for and put-things-back durations.
pub const MIN_HOLD_SECS: u32 = 30;
pub const MAX_HOLD_SECS: u32 = 86400;

/// The refusal a rule meets on its durations.
pub open spec fn duration_error(b: RuleShape) -> Option<Seq<char>> {
    match b.stay_secs {
        Some(s) if !(MIN_HOLD_SECS <= s <= MAX_HOLD_SECS) => Some("a stays-for duration must be between 30 seconds and 24 hours"@),
        _ => match b.restore_secs {
            Some(s) if !(MIN_HOLD_SECS <= s <= MAX_HOLD_SECS) => Some("the put-things-back delay must be between 30 seconds and 24 hours"@),
            _ => None,
        },
    }
}

pub fn check_rule_durations(b: &RuleShape) -> (r: Result<(), String>)
    ensures
        is_err_with(r, duration_error(*b)),
{
    if let Some(s) = b.stay_secs {
        if !(MIN_HOLD_SECS <= s && s <= MAX_HOLD_SECS) {
            return msg("a stays-for duration must be between 30 seconds and 24 hours");
        }
    }
    if let Some(s) = b.restore_secs {
        if !(MIN_HOLD_SECS <= s && s <= MAX_HOLD_SECS) {
            return msg("the put-things-back delay must be between 30 seconds and 24 hours");
        }
    }
    Ok(())
}

/// The first refusal of a rule, in the order the checks run: its shape,
/// then its subject, then its durations.
pub open spec fn rule_error(b: RuleShape, l: SubjectLookup) -> Option<Seq<char>> {
    if shape_error(b) is Some {
        shape_error(b)
    } else if subject_error(b, l) is Some {
        subject_error(b, l)
    } else {
        duration_error(b)
    }
}

/// Validate a rule body against its looked-up trigger subject.
pub fn validate_rule(b: &RuleShape, l: &SubjectLookup) -> (r: Result<(), String>)
    ensures
        is_err_with(r, rule_error(*b, *l)),
{
    check_rule_shape(b)?;
    check_rule_subject(b, l)?;
    check_rule_durations(b)
}

// ── Cooldown ─────────────────────────────────────────────────────────────────

/// What chrono reads a "%Y-%m-%d %H:%M:%S" UTC stamp as: its Unix seconds,
/// `None` when the text does not parse.
pub uninterp spec fn utc_stamp_seconds(s: Seq<char>) -> Option<int>;

/// `chrono::NaiveDateTime::parse_from_str` with the stored stamp format,
/// read as UTC: the stamp's Unix seconds, or `None` when it does not parse.
#[verifier::external_body]
fn parse_utc_stamp(s: &str) -> (r: Option<i64>)
    ensures
        match r {
            Some(v) => utc_stamp_seconds(s@) == Some(v as int),
            None => utc_stamp_seconds(s@) is None,
        },
{
    match chrono::NaiveDateTime::parse_from_str(s, "%Y-%m-%d %H:%M:%S") {
        Ok(t) => Some(t.and_utc().timestamp()),
        Err(_) => None,
    }
}

/// Whether a rule that last fired at `last` (a UTC stamp) is still inside a
/// cooldown of `cooldown_secs` at the Unix second `now`.
pub open spec fn cooldown_spec(cooldown_secs: u32, last: Option<Seq<char>>, now: int) -> bool {
    cooldown_secs != 0 && match last {
        None => false,
        Some(s) => match utc_stamp_seconds(s) {
            None => false,
            Some(t) => now - t < cooldown_secs,
        },
    }
}

/// Whether a rule is inside its cooldown: it has one, its last-fired stamp
/// parses, and fewer than `cooldown_secs` seconds have passed since.
pub fn in_cooldown(cooldown_secs: u32, last_fired_at: &Option<String>, now_secs: i64) -> (r: bool)
    ensures
        r == cooldown_spec(cooldown_secs, match *last_fired_at { Some(s) => Some(s@), None => None }, now_secs as int),
{
    if cooldown_secs == 0 {
        return false;
    }
    let last = match last_fired_at {
        None => return false,
        Some(s) => match parse_utc_stamp(s.as_str()) {
            None => return false,
            Some(t) => t,
        },
    };
    (now_secs as i128) - (last as i128) < (cooldown_secs as i128)
}

// ── Timed holds ──────────────────────────────────────────────────────────────

/// The devices one action touches, with the room members and scene entries
/// it expands to already looked up.
pub enum ActionTargets {
    Light(String),
    Power(String),
    /// A room's effective light and power members.
    Room { lights: Vec<String>, powers: Vec<String> },
    /// The lights and power devices a scene drives.
    Scene { lights: Vec<String>, powers: Vec<String> },
    /// An app launch has no state to restore.
    App,
    Toggle(TriggerDeviceDomain, String),
}

pub open spec fn strs(v: Seq<String>) -> Seq<Seq<char>> {
    v.map_values(|s: String| s@)
}

/// The light ids an action touches, in order.
pub open spec fn light_wants(a: ActionTargets) -> Seq<Seq<char>> {
    match a {
        ActionTargets::Light(id) => seq![id@],
        ActionTargets::Room { lights, .. } => strs(lights@),
        ActionTargets::Scene { lights, .. } => strs(lights@),
        ActionTargets::Toggle(TriggerDeviceDomain::Light, id) => seq![id@],
        _ => Seq::empty(),
    }
}

/// The power device ids an action touches, in order.
pub open spec fn power_wants(a: ActionTargets) -> Seq<Seq<char>> {
    match a {
        ActionTargets::Power(id) => seq![id@],
        ActionTargets::Room { powers, .. } => strs(powers@),
        ActionTargets::Scene { powers, .. } => strs(powers@),
        ActionTargets::Toggle(TriggerDeviceDomain::Power, id) => seq![id@],
        _ => Seq::empty(),
    }
}

pub open spec fn all_light_wants(acts: Seq<ActionTargets>) -> Seq<Seq<char>>
    decreases acts.len(),
{
    if acts.len() == 0 {
        Seq::empty()
    } else {
        all_light_wants(acts.drop_last()) + light_wants(acts.last())
    }
}

pub open spec fn all_power_wants(acts: Seq<ActionTargets>) -> Seq<Seq<char>>
    decreases acts.len(),
{
    if acts.len() == 0 {
        Seq::empty()
    } else {
        all_power_wants(acts.drop_last()) + power_wants(acts.last())
    }
}

/// `s` with every repeat of an earlier entry dropped.
pub open spec fn dedup(s: Seq<Seq<char>>) -> Seq<Seq<char>>
    decreases s.len(),
{
    if s.len() == 0 {
        Seq::empty()
    } else {
        let d = dedup(s.drop_last());
        if d.contains(s.last()) {
            d
        } else {
            d.push(s.last())
        }
    }
}

proof fn lemma_dedup_append(a: Seq<Seq<char>>, b: Seq<Seq<char>>)
    ensures
        dedup(a + b) == dedup_onto(dedup(a), b),
    decreases b.len(),
{
    if b.len() == 0 {
        assert(a + b =~= a);
    } else {
        lemma_dedup_append(a, b.drop_last());
        assert((a + b).drop_last() =~= a + b.drop_last());
        assert((a + b).last() == b.last());
    }
}

/// `d` extended with the entries of `b` it does not yet hold, in order.
pub open spec fn dedup_onto(d: Seq<Seq<char>>, b: Seq<Seq<char>>) -> Seq<Seq<char>>
    decreases b.len(),
{
    if b.len() == 0 {
        d
    } else {
        let e = dedup_onto(d, b.drop_last());
        if e.contains(b.last()) {
            e
        } else {
            e.push(b.last())
        }
    }
}

fn push_new(out: &mut Vec<String>, id: &String)
    ensures
        strs(final(out)@) == (if strs(old(out)@).contains(id@) {
            strs(old(out)@)
        } else {
            strs(old(out)@).push(id@)
        }),
{
    let mut i: usize = 0;
    while i < out.len()
        invariant
            i <= out@.len(),
            forall|k: int| 0 <= k < i ==> (#[trigger] out@[k])@ != id@,
        decreases out@.len() - i,
    {
        if str_eq(out[i].as_str(), id.as_str()) {
            assert(strs(out@)[i as int] == id@);
            return;
        }
        i = i + 1;
    }
    proof {
        if strs(out@).contains(id@) {
            let k = choose|k: int| 0 <= k < strs(out@).len() && strs(out@)[k] == id@;
            assert(out@[k]@ == id@);
        }
    }
    let ghost before = out@;
    out.push(id.clone());
    assert(strs(out@) =~= strs(before).push(id@));
}

fn push_all_new(out: &mut Vec<String>, ids: &Vec<String>)
    ensures
        strs(final(out)@) == dedup_onto(strs(old(out)@), strs(ids@)),
{
    let ghost start = strs(out@);
    let mut i: usize = 0;
    assert(strs(ids@).subrange(0, 0) =~= Seq::<Seq<char>>::empty());
    while i < ids.len()
        invariant
            i <= ids@.len(),
            strs(out@) == dedup_onto(start, strs(ids@).subrange(0, i as int)),
        decreases ids@.len() - i,
    {
        push_new(out, &ids[i]);
        proof {
            let next = strs(ids@).subrange(0, i + 1);
            assert(next.drop_last() =~= strs(ids@).subrange(0, i as int));
            assert(next.last() == ids@[i as int]@);
        }
        i = i + 1;
    }
    assert(strs(ids@).subrange(0, ids@.len() as int) =~= strs(ids@));
}

fn push_one_new(out: &mut Vec<String>, id: &String)
    ensures
        strs(final(out)@) == dedup_onto(strs(old(out)@), seq![id@]),
{
    let ghost d = strs(out@);
    push_new(out, id);
    proof {
        let one = seq![id@];
        assert(one.drop_last() =~= Seq::<Seq<char>>::empty());
        assert(dedup_onto(d, one.drop_last()) == d);
        assert(one.last() == id@);
    }
}

/// The devices a timed hold snapshots: every light and power device the
/// actions touch (rooms and scenes expanded), each once, in the order first
/// touched. Media and app launches have no state to restore.
pub fn snapshot_target_ids(actions: &Vec<ActionTargets>) -> (r: (Vec<String>, Vec<String>))
    ensures
        strs(r.0@) == dedup(all_light_wants(actions@)),
        strs(r.1@) == dedup(all_power_wants(actions@)),
{
    let mut lights: Vec<String> = Vec::new();
    let mut powers: Vec<String> = Vec::new();
    let mut i: usize = 0;
    assert(actions@.subrange(0, 0) =~= Seq::<ActionTargets>::empty());
    while i < actions.len()
        invariant
            i <= actions@.len(),
            strs(lights@) == dedup(all_light_wants(actions@.subrange(0, i as int))),
            strs(powers@) == dedup(all_power_wants(actions@.subrange(0, i as int))),
        decreases actions@.len() - i,
    {
        let ghost pre = actions@.subrange(0, i as int);
        let ghost a = actions@[i as int];
        let ghost l0 = strs(lights@);
        let ghost p0 = strs(powers@);
        match &actions[i] {
            ActionTargets::Light(id) => {
                push_one_new(&mut lights, id);
                proof { assert(dedup_onto(p0, Seq::<Seq<char>>::empty()) == p0); }
            },
            ActionTargets::Power(id) => {
                push_one_new(&mut powers, id);
                proof { assert(dedup_onto(l0, Seq::<Seq<char>>::empty()) == l0); }
            },
            ActionTargets::Room { lights: ls, powers: ps } => {
                push_all_new(&mut lights, ls);
                push_all_new(&mut powers, ps);
            },
            ActionTargets::Scene { lights: ls, powers: ps } => {
                push_all_new(&mut lights, ls);
                push_all_new(&mut powers, ps);
            },
            ActionTargets::App => {
                proof {
                    assert(dedup_onto(l0, Seq::<Seq<char>>::empty()) == l0);
                    assert(dedup_onto(p0, Seq::<Seq<char>>::empty()) == p0);
                }
            },
            ActionTargets::Toggle(domain, id) => {
                match domain {
                    TriggerDeviceDomain::Light => {
                        push_one_new(&mut lights, id);
                        proof { assert(dedup_onto(p0, Seq::<Seq<char>>::empty()) == p0); }
                    },
                    TriggerDeviceDomain::Power => {
                        push_one_new(&mut powers, id);
                        proof { assert(dedup_onto(l0, Seq::<Seq<char>>::empty()) == l0); }
                    },
                    TriggerDeviceDomain::Media => {
                        proof {
                            assert(dedup_onto(l0, Seq::<Seq<char>>::empty()) == l0);
                            assert(dedup_onto(p0, Seq::<Seq<char>>::empty()) == p0);
                        }
                    },
                }
            },
        }
        proof {
            let next = actions@.subrange(0, i + 1);
            assert(next.drop_last() =~= pre);
            assert(next.last() == a);
            lemma_dedup_append(all_light_wants(pre), light_wants(a));
            lemma_dedup_append(all_power_wants(pre), power_wants(a));
        }
        i = i + 1;
    }
    assert(actions@.subrange(0, actions@.len() as int) =~= actions@);
    (lights, powers)
}

/// One captured device of a timed hold: a light's state or a power device's
/// on/off.
pub enum RestoreEntry {
    Light { light_id: String, state: LightState },
    Power { device_id: String, on: bool },
}

/// The key of a captured device: whether it is a light, and its id.
pub open spec fn entry_key(e: RestoreEntry) -> (bool, Seq<char>) {
    match e {
        RestoreEntry::Light { light_id, .. } => (true, light_id@),
        RestoreEntry::Power { device_id, .. } => (false, device_id@),
    }
}

fn entry_is(e: &RestoreEntry, is_light: bool, id: &str) -> (r: bool)
    ensures
        r == (entry_key(*e) == (is_light, id@)),
{
    match e {
        RestoreEntry::Light { light_id, .. } => is_light && str_eq(light_id.as_str(), id),
        RestoreEntry::Power { device_id, .. } => !is_light && str_eq(device_id.as_str(), id),
    }
}

/// What releasing one device does to a pending hold's snapshot.
pub enum HoldRelease {
    /// The snapshot does not hold the device.
    Untouched,
    /// Nothing else is held: the hold is deleted whole.
    DeleteHold,
    /// The snapshot without the device.
    Keep(Vec<RestoreEntry>),
}

/// Release the device `(is_light, id)` from a pending snapshot.
pub fn release_from_snapshot(entries: Vec<RestoreEntry>, is_light: bool, id: &str) -> (r: HoldRelease)
    ensures
        ({
            let kept = entries@.filter(|e: RestoreEntry| entry_key(e) != (is_light, id@));
            if kept.len() == entries@.len() {
                r is Untouched
            } else if kept.len() == 0 {
                r is DeleteHold
            } else {
                r matches HoldRelease::Keep(v) && v@ == kept
            }
        }),
{
    let ghost orig = entries@;
    let ghost pred = |e: RestoreEntry| entry_key(e) != (is_light, id@);
    let mut rest = entries;
    let mut kept: Vec<RestoreEntry> = Vec::new();
    let mut n: usize = 0;
    let total = rest.len();
    proof {
        reveal(Seq::filter);
        assert(orig.subrange(0, 0) =~= Seq::<RestoreEntry>::empty());
    }
    // Walk the snapshot front to back, keeping every other device.
    let mut i: usize = 0;
    while rest.len() > 0
        invariant
            i + rest@.len() == orig.len(),
            total == orig.len(),
            rest@ == orig.subrange(i as int, orig.len() as int),
            kept@ == orig.subrange(0, i as int).filter(pred),
            pred == (|e: RestoreEntry| entry_key(e) != (is_light, id@)),
        decreases rest@.len(),
    {
        let e = rest.remove(0);
        let drop = entry_is(&e, is_light, id);
        let ghost before = kept@;
        if !drop {
            kept.push(e);
        }
        proof {
            reveal(Seq::filter);
            let next = orig.subrange(0, i + 1);
            assert(next.drop_last() =~= orig.subrange(0, i as int));
            assert(next.last() == orig[i as int]);
            assert(rest@ =~= orig.subrange(i + 1, orig.len() as int));
        }
        i = i + 1;
    }
    assert(orig.subrange(0, orig.len() as int) =~= orig);
    proof {
        orig.lemma_filter_len(pred);
    }
    if kept.len() == total {
        HoldRelease::Untouched
    } else if kept.len() == 0 {
        HoldRelease::DeleteHold
    } else {
        HoldRelease::Keep(kept)
    }
}

// ── Manual-override drop-out ─────────────────────────────────────────────────

/// A pushed partial light state.
pub struct LightStatePatch {
    pub on: Option<bool>,
    pub brightness: Option<u32>,
    pub color: Option<crate::lights::Color>,
    pub color_temp_mirek: Option<u16>,
    pub effect: Option<String>,
    pub reachable: Option<bool>,
}

/// The colour-temperature tolerance of a held light, in mirek.
pub const MIREK_TOLERANCE: u16 = 10;

/// Whether a pushed patch genuinely diverges from a held light's reference.
/// A reachability drop never does; a power flip always does; an off light's
/// attribute echoes never do; otherwise a dimension both carry diverges when
/// it is apart beyond its tolerance: `brightness_apart` and `colour_apart`
/// say so for brightness (more than 2 points) and colour (either coordinate
/// more than 0.02), colour temperature beyond 10 mirek, and an effect when
/// one is a clear token and the other not, or both are different effects.
pub open spec fn diverges_spec(r: LightState, p: LightStatePatch, brightness_apart: bool, colour_apart: bool) -> bool {
    if p.reachable == Some(false) {
        false
    } else if p.on is Some && p.on != Some(r.on) {
        true
    } else if !r.on {
        false
    } else {
        ||| (p.brightness is Some && r.brightness is Some && brightness_apart)
        ||| (p.color is Some && r.color is Some && colour_apart)
        ||| match (p.color_temp_mirek, r.color_temp_mirek) {
            (Some(a), Some(b)) => a - b > MIREK_TOLERANCE || b - a > MIREK_TOLERANCE,
            _ => false,
        }
        ||| match (p.effect, r.effect) {
            (Some(e), Some(re)) => clear_effect_spec(e@) != clear_effect_spec(re@) || (!clear_effect_spec(e@) && e@ != re@),
            _ => false,
        }
    }
}

/// Colour-temperature divergence is symmetric and toleranced: for a held
/// light that is on, a patch that neither flips power nor goes dark
/// diverges whenever the two colour temperatures are more than 10 mirek
/// apart, in either direction; and swapping the patch's and the reference's
/// colour temperature never changes the verdict.
pub proof fn lemma_mirek_divergence_is_symmetric(r: LightState, p: LightStatePatch, a: u16, b: u16, brightness_apart: bool, colour_apart: bool)
    ensures
        ({
            let r1 = LightState { color_temp_mirek: Some(b), ..r };
            let p1 = LightStatePatch { color_temp_mirek: Some(a), ..p };
            let r2 = LightState { color_temp_mirek: Some(a), ..r };
            let p2 = LightStatePatch { color_temp_mirek: Some(b), ..p };
            &&& diverges_spec(r1, p1, brightness_apart, colour_apart) == diverges_spec(r2, p2, brightness_apart, colour_apart)
            &&& (r.on && p.reachable != Some(false) && (p.on is None || p.on == Some(r.on)) && (a as int - b as int > 10 || b as int - a as int > 10))
                ==> diverges_spec(r1, p1, brightness_apart, colour_apart)
            &&& (r.on && p.reachable != Some(false) && (p.on is None || p.on == Some(r.on)) && p.effect is None
                && !brightness_apart && !colour_apart && -10 <= a as int - b as int <= 10)
                ==> !diverges_spec(r1, p1, brightness_apart, colour_apart)
        }),
{
}

pub fn light_patch_diverges(reference: &LightState, patch: &LightStatePatch, brightness_apart: bool, colour_apart: bool) -> (r: bool)
    ensures
        r == diverges_spec(*reference, *patch, brightness_apart, colour_apart),
{
    if patch.reachable == Some(false) {
        return false;
    }
    if let Some(on) = patch.on {
        if on != reference.on {
            return true;
        }
    }
    if !reference.on {
        return false;
    }
    if patch.brightness.is_some() && reference.brightness.is_some() && brightness_apart {
        return true;
    }
    if patch.color.is_some() && reference.color.is_some() && colour_apart {
        return true;
    }
    if let (Some(ct), Some(rct)) = (patch.color_temp_mirek, reference.color_temp_mirek) {
        let d = if ct >= rct {
            ct - rct
        } else {
            rct - ct
        };
        if d > MIREK_TOLERANCE {
            return true;
        }
    }
    if let (Some(e), Some(re)) = (&patch.effect, &reference.effect) {
        let e_clear = is_clear_effect(e.as_str());
        let re_clear = is_clear_effect(re.as_str());
        if e_clear != re_clear || (!e_clear && !str_eq(e.as_str(), re.as_str())) {
            return true;
        }
    }
    false
}

fn clone_opt(o: &Option<String>) -> (r: Option<String>)
    ensures
        r == *o,
{
    match o {
        Some(s) => Some(s.clone()),
        None => None,
    }
}

/// The reference with the patch dimensions it has not seen yet adopted.
pub open spec fn filled_spec(r: LightState, p: LightStatePatch) -> LightState {
    LightState {
        brightness: if r.brightness is None { p.brightness } else { r.brightness },
        color: if r.color is None { p.color } else { r.color },
        color_temp_mirek: if r.color_temp_mirek is None { p.color_temp_mirek } else { r.color_temp_mirek },
        effect: if r.effect is None { p.effect } else { r.effect },
        ..r
    }
}

/// Adopt the patch dimensions the reference has not seen yet (fill-only).
pub fn fill_reference(reference: &mut LightState, patch: &LightStatePatch)
    ensures
        *final(reference) == filled_spec(*old(reference), *patch),
{
    if reference.brightness.is_none() {
        reference.brightness = patch.brightness;
    }
    if reference.color.is_none() {
        reference.color = patch.color;
    }
    if reference.color_temp_mirek.is_none() {
        reference.color_temp_mirek = patch.color_temp_mirek;
    }
    if reference.effect.is_none() {
        reference.effect = clone_opt(&patch.effect);
    }
}

/// The reference with every present patch field settled into it.
pub open spec fn patched_spec(r: LightState, p: LightStatePatch) -> LightState {
    LightState {
        on: match p.on { Some(v) => v, None => r.on },
        brightness: if p.brightness is Some { p.brightness } else { r.brightness },
        color: if p.color is Some { p.color } else { r.color },
        color_temp_mirek: if p.color_temp_mirek is Some { p.color_temp_mirek } else { r.color_temp_mirek },
        effect: if p.effect is Some { p.effect } else { r.effect },
        reachable: if p.reachable is Some { p.reachable } else { r.reachable },
        ..r
    }
}

/// Within the grace window every present patch field settles the reference.
pub fn apply_patch(reference: &mut LightState, patch: &LightStatePatch)
    ensures
        *final(reference) == patched_spec(*old(reference), *patch),
{
    if let Some(v) = patch.on {
        reference.on = v;
    }
    if patch.brightness.is_some() {
        reference.brightness = patch.brightness;
    }
    if patch.color.is_some() {
        reference.color = patch.color;
    }
    if patch.color_temp_mirek.is_some() {
        reference.color_temp_mirek = patch.color_temp_mirek;
    }
    if patch.effect.is_some() {
        reference.effect = clone_opt(&patch.effect);
    }
    if patch.reachable.is_some() {
        reference.reachable = patch.reachable;
    }
}

/// A light that echoes what its grace window settled never reads as a
/// manual change afterwards: the echoed values are not apart from the
/// settled reference, so nothing diverges.
pub proof fn lemma_settled_echo_is_quiet(r: LightState, p: LightStatePatch)
    ensures
        !diverges_spec(patched_spec(r, p), p, false, false),
{
}

/// Adopting unseen dimensions is idempotent: a second identical fill
/// changes nothing.
pub proof fn lemma_fill_is_idempotent(r: LightState, p: LightStatePatch)
    ensures
        filled_spec(filled_spec(r, p), p) == filled_spec(r, p),
{
}

/// A fill never overwrites a dimension the reference already held.
pub proof fn lemma_fill_keeps_seen(r: LightState, p: LightStatePatch)
    ensures
        r.brightness is Some ==> filled_spec(r, p).brightness == r.brightness,
        r.color is Some ==> filled_spec(r, p).color == r.color,
        r.color_temp_mirek is Some ==> filled_spec(r, p).color_temp_mirek == r.color_temp_mirek,
        r.effect is Some ==> filled_spec(r, p).effect == r.effect,
        filled_spec(r, p).on == r.on,
{
}

/// What a pushed event does to a held device.
#[derive(Clone, Copy, Debug, PartialEq, Eq, Structural)]
pub enum HoldObservation {
    /// Nothing changes (not held, a device going dark, or no divergence).
    Ignore,
    /// Inside the grace window the event settles the reference.
    Settle,
    /// No divergence: unseen dimensions are adopted.
    Fill,
    /// A genuine manual change: release the device from every hold.
    Release,
}

/// The decision for a pushed light event on a held light whose grace ends
/// at `grace_until` (milliseconds), at `now`.
pub fn observe_hold_light(reference: &LightState, grace_until: u64, now: u64, patch: &LightStatePatch, brightness_apart: bool, colour_apart: bool) -> (r: HoldObservation)
    ensures
        r == (if patch.reachable == Some(false) {
            HoldObservation::Ignore
        } else if now < grace_until {
            HoldObservation::Settle
        } else if !diverges_spec(*reference, *patch, brightness_apart, colour_apart) {
            HoldObservation::Fill
        } else {
            HoldObservation::Release
        }),
{
    if patch.reachable == Some(false) {
        HoldObservation::Ignore
    } else if now < grace_until {
        HoldObservation::Settle
    } else if !light_patch_diverges(reference, patch, brightness_apart, colour_apart) {
        HoldObservation::Fill
    } else {
        HoldObservation::Release
    }
}

/// The decision for a pushed power event on a held power device: inside
/// grace it settles the reference; after it, only a flip releases.
pub fn observe_hold_power(reference: bool, grace_until: u64, now: u64, on: bool) -> (r: HoldObservation)
    ensures
        r == (if now < grace_until {
            HoldObservation::Settle
        } else if on == reference {
            HoldObservation::Ignore
        } else {
            HoldObservation::Release
        }),
{
    if now < grace_until {
        HoldObservation::Settle
    } else if on == reference {
        HoldObservation::Ignore
    } else {
        HoldObservation::Release
    }
}

// ── The hold watch ───────────────────────────────────────────────────────────

/// What a held device is compared against: a light's state, or a power
/// device's on/off.
pub enum HoldRef {
    Light(LightState),
    Power(bool),
}

/// One device held by a pending timed hold: whether it is a light, its id,
/// until when (milliseconds) its own echoes settle the reference, and the
/// reference.
pub struct HeldDevice {
    pub is_light: bool,
    pub id: String,
    pub grace_until: u64,
    pub reference: HoldRef,
}

pub open spec fn held_key(d: HeldDevice) -> (bool, Seq<char>) {
    (d.is_light, d.id@)
}

/// Replacing one entry in place by one with the same key replaces that
/// key's value in the view.
proof fn lemma_replaced(before: HoldWatch, after: HoldWatch, i: int)
    requires
        before.wf(),
        0 <= i < before.held@.len(),
        after.held@.len() == before.held@.len(),
        forall|j: int| 0 <= j < before.held@.len() && j != i ==> #[trigger] after.held@[j] == before.held@[j],
        held_key(after.held@[i]) == held_key(before.held@[i]),
    ensures
        after.wf(),
        after.view() == before.view().insert(held_key(before.held@[i]), (after.held@[i].grace_until, after.held@[i].reference)),
{
    let k = held_key(before.held@[i]);
    let v = (after.held@[i].grace_until, after.held@[i].reference);
    assert forall|a: int, b: int| 0 <= a < b < after.held@.len() implies held_key(#[trigger] after.held@[a]) != held_key(#[trigger] after.held@[b]) by {
        assert(held_key(after.held@[a]) == held_key(before.held@[a]));
        assert(held_key(after.held@[b]) == held_key(before.held@[b]));
    }
    assert forall|x: (bool, Seq<char>)| #[trigger] after.has(x) == before.has(x) by {
        if after.has(x) {
            let j = choose|j: int| 0 <= j < after.held@.len() && #[trigger] held_key(after.held@[j]) == x;
            assert(held_key(before.held@[j]) == x);
        }
        if before.has(x) {
            let j = choose|j: int| 0 <= j < before.held@.len() && #[trigger] held_key(before.held@[j]) == x;
            assert(held_key(after.held@[j]) == x);
        }
    }
    assert forall|x: (bool, Seq<char>)| #[trigger] after.view().contains_key(x) implies after.view()[x] == before.view().insert(k, v)[x] by {
        let j = choose|j: int| 0 <= j < after.held@.len() && #[trigger] held_key(after.held@[j]) == x;
        after.lemma_entry(j);
        if j != i {
            before.lemma_entry(j);
        }
    }
    assert(after.view() =~= before.view().insert(k, v));
}

/// The devices held by pending timed holds, one entry per device.
pub struct HoldWatch {
    pub held: Vec<HeldDevice>,
}

impl HoldWatch {
    /// No device is held twice.
    pub open spec fn wf(&self) -> bool {
        forall|i: int, j: int| 0 <= i < j < self.held@.len() ==> held_key(#[trigger] self.held@[i]) != held_key(#[trigger] self.held@[j])
    }

    pub open spec fn has(&self, k: (bool, Seq<char>)) -> bool {
        exists|i: int| 0 <= i < self.held@.len() && #[trigger] held_key(self.held@[i]) == k
    }

    /// Each held device's grace deadline and reference, by key.
    pub open spec fn view(&self) -> Map<(bool, Seq<char>), (u64, HoldRef)> {
        Map::new(
            |k: (bool, Seq<char>)| self.has(k),
            |k: (bool, Seq<char>)| {
                let i = choose|i: int| 0 <= i < self.held@.len() && #[trigger] held_key(self.held@[i]) == k;
                (self.held@[i].grace_until, self.held@[i].reference)
            },
        )
    }

    /// Whether no device is held twice (always so for a watch built by
    /// `new`, `watch`, `unwatch` and the `observe_*` calls).
    pub fn is_wf(&self) -> (r: bool)
        ensures
            r == self.wf(),
    {
        let mut j: usize = 0;
        while j < self.held.len()
            invariant
                j <= self.held@.len(),
                forall|a: int, b: int| 0 <= a < b < j ==> held_key(#[trigger] self.held@[a]) != held_key(#[trigger] self.held@[b]),
            decreases self.held@.len() - j,
        {
            let mut i: usize = 0;
            while i < j
                invariant
                    i <= j < self.held@.len(),
                    forall|a: int| 0 <= a < i ==> held_key(#[trigger] self.held@[a]) != held_key(self.held@[j as int]),
                decreases j - i,
            {
                if self.held[i].is_light == self.held[j].is_light && str_eq(self.held[i].id.as_str(), self.held[j].id.as_str()) {
                    proof {
                        assert(held_key(self.held@[i as int]) == held_key(self.held@[j as int]));
                    }
                    return false;
                }
                i = i + 1;
            }
            j = j + 1;
        }
        true
    }

    /// An empty watch.
    pub fn new() -> (w: HoldWatch)
        ensures
            w.wf(),
            w.view() == Map::<(bool, Seq<char>), (u64, HoldRef)>::empty(),
    {
        let w = HoldWatch { held: Vec::new() };
        assert(w.view() =~= Map::<(bool, Seq<char>), (u64, HoldRef)>::empty());
        w
    }

    /// Whether no device is held.
    pub fn is_empty(&self) -> (r: bool)
        ensures
            r == (self.view() == Map::<(bool, Seq<char>), (u64, HoldRef)>::empty()),
    {
        proof {
            if self.held@.len() > 0 {
                assert(self.view().contains_key(held_key(self.held@[0])));
            } else {
                assert(self.view() =~= Map::<(bool, Seq<char>), (u64, HoldRef)>::empty());
            }
        }
        self.held.len() == 0
    }

    fn position(&self, is_light: bool, id: &str) -> (r: Option<usize>)
        requires
            self.wf(),
        ensures
            match r {
                Some(i) => i < self.held@.len() && held_key(self.held@[i as int]) == (is_light, id@),
                None => !self.has((is_light, id@)),
            },
    {
        let mut i: usize = 0;
        while i < self.held.len()
            invariant
                i <= self.held@.len(),
                forall|j: int| 0 <= j < i ==> held_key(#[trigger] self.held@[j]) != (is_light, id@),
            decreases self.held@.len() - i,
        {
            if self.held[i].is_light == is_light && str_eq(self.held[i].id.as_str(), id) {
                return Some(i);
            }
            i = i + 1;
        }
        None
    }

    /// The entry of a held key is the one `view` reads.
    proof fn lemma_entry(&self, i: int)
        requires
            self.wf(),
            0 <= i < self.held@.len(),
        ensures
            self.view().contains_key(held_key(self.held@[i])),
            self.view()[held_key(self.held@[i])] == (self.held@[i].grace_until, self.held@[i].reference),
    {
        let k = held_key(self.held@[i]);
        assert(self.has(k));
        let c = choose|c: int| 0 <= c < self.held@.len() && #[trigger] held_key(self.held@[c]) == k;
        if c != i {
            if c < i {
                assert(held_key(self.held@[c]) != held_key(self.held@[i]));
            } else {
                assert(held_key(self.held@[i]) != held_key(self.held@[c]));
            }
        }
    }

    /// Hold (or re-hold) a device with a fresh reference.
    pub fn watch(&mut self, d: HeldDevice)
        requires
            old(self).wf(),
        ensures
            final(self).wf(),
            final(self).view() == old(self).view().insert(held_key(d), (d.grace_until, d.reference)),
    {
        let ghost k = held_key(d);
        let ghost v = (d.grace_until, d.reference);
        match self.position(d.is_light, d.id.as_str()) {
            Some(i) => {
                let ghost before = *self;
                self.held.set(i, d);
                proof {
                    assert forall|a: int, b: int| 0 <= a < b < self.held@.len() implies held_key(#[trigger] self.held@[a]) != held_key(#[trigger] self.held@[b]) by {
                        assert(held_key(self.held@[a]) == held_key(before.held@[a]));
                        assert(held_key(self.held@[b]) == held_key(before.held@[b]));
                    }
                    assert forall|x: (bool, Seq<char>)| #[trigger] self.has(x) == before.has(x) by {
                        if self.has(x) {
                            let j = choose|j: int| 0 <= j < self.held@.len() && #[trigger] held_key(self.held@[j]) == x;
                            assert(held_key(before.held@[j]) == x);
                        }
                        if before.has(x) {
                            let j = choose|j: int| 0 <= j < before.held@.len() && #[trigger] held_key(before.held@[j]) == x;
                            assert(held_key(self.held@[j]) == x);
                        }
                    }
                    assert forall|x: (bool, Seq<char>)| #[trigger] self.view().contains_key(x) implies self.view()[x] == before.view().insert(k, v)[x] by {
                        let j = choose|j: int| 0 <= j < self.held@.len() && #[trigger] held_key(self.held@[j]) == x;
                        self.lemma_entry(j);
                        if j != i {
                            before.lemma_entry(j);
                        }
                    }
                    assert(self.view() =~= before.view().insert(k, v));
                }
            },
            None => {
                let ghost before = *self;
                self.held.push(d);
                proof {
                    let n = before.held@.len() as int;
                    assert forall|a: int, b: int| 0 <= a < b < self.held@.len() implies held_key(#[trigger] self.held@[a]) != held_key(#[trigger] self.held@[b]) by {
                        if b == n {
                            assert(self.held@[a] == before.held@[a]);
                        } else {
                            assert(self.held@[a] == before.held@[a] && self.held@[b] == before.held@[b]);
                        }
                    }
                    assert forall|x: (bool, Seq<char>)| #[trigger] self.has(x) == (before.has(x) || x == k) by {
                        if self.has(x) {
                            let j = choose|j: int| 0 <= j < self.held@.len() && #[trigger] held_key(self.held@[j]) == x;
                            if j < n {
                                assert(held_key(before.held@[j]) == x);
                            }
                        }
                        if before.has(x) {
                            let j = choose|j: int| 0 <= j < before.held@.len() && #[trigger] held_key(before.held@[j]) == x;
                            assert(held_key(self.held@[j]) == x);
                        }
                        if x == k {
                            assert(held_key(self.held@[n]) == x);
                        }
                    }
                    assert forall|x: (bool, Seq<char>)| #[trigger] self.view().contains_key(x) implies self.view()[x] == before.view().insert(k, v)[x] by {
                        let j = choose|j: int| 0 <= j < self.held@.len() && #[trigger] held_key(self.held@[j]) == x;
                        self.lemma_entry(j);
                        if j < n {
                            assert(self.held@[j] == before.held@[j]);
                            before.lemma_entry(j);
                        }
                    }
                    assert(self.view() =~= before.view().insert(k, v));
                }
            },
        }
    }

    /// Stop holding a device.
    pub fn unwatch(&mut self, is_light: bool, id: &str)
        requires
            old(self).wf(),
        ensures
            final(self).wf(),
            final(self).view() == old(self).view().remove((is_light, id@)),
    {
        let ghost k = (is_light, id@);
        match self.position(is_light, id) {
            Some(i) => {
                let ghost before = *self;
                let _gone = self.held.remove(i);
                proof {
                    let n = before.held@.len() as int;
                    assert forall|j: int| 0 <= j < self.held@.len() implies #[trigger] self.held@[j] == before.held@[if j < i { j } else { j + 1 }] by {}
                    assert forall|a: int, b: int| 0 <= a < b < self.held@.len() implies held_key(#[trigger] self.held@[a]) != held_key(#[trigger] self.held@[b]) by {
                        let a2 = if a < i { a } else { a + 1 };
                        let b2 = if b < i { b } else { b + 1 };
                        assert(self.held@[a] == before.held@[a2]);
                        assert(self.held@[b] == before.held@[b2]);
                    }
                    assert forall|x: (bool, Seq<char>)| #[trigger] self.has(x) == (before.has(x) && x != k) by {
                        if self.has(x) {
                            let j = choose|j: int| 0 <= j < self.held@.len() && #[trigger] held_key(self.held@[j]) == x;
                            let j2 = if j < i { j } else { j + 1 };
                            assert(self.held@[j] == before.held@[j2]);
                            assert(held_key(before.held@[j2]) == x);
                            if x == k {
                                assert(held_key(before.held@[i as int]) == k);
                            }
                        }
                        if before.has(x) && x != k {
                            let j = choose|j: int| 0 <= j < before.held@.len() && #[trigger] held_key(before.held@[j]) == x;
                            if j < i {
                                assert(self.held@[j] == before.held@[j]);
                                assert(held_key(self.held@[j]) == x);
                            } else if j > i {
                                assert(self.held@[j - 1] == before.held@[j]);
                                assert(held_key(self.held@[j - 1]) == x);
                            }
                        }
                    }
                    assert forall|x: (bool, Seq<char>)| #[trigger] self.view().contains_key(x) implies self.view()[x] == before.view().remove(k)[x] by {
                        let j = choose|j: int| 0 <= j < self.held@.len() && #[trigger] held_key(self.held@[j]) == x;
                        self.lemma_entry(j);
                        let j2 = if j < i { j } else { j + 1 };
                        assert(self.held@[j] == before.held@[j2]);
                        before.lemma_entry(j2);
                    }
                    assert(self.view() =~= before.view().remove(k));
                }
            },
            None => {
                assert(self.view() =~= self.view().remove(k));
            },
        }
    }

    /// A pushed light patch against the watch, at `now`: a light not held
    /// (or held as a power device) and a light going dark change nothing;
    /// inside grace the patch settles the reference; after it, a patch that
    /// does not diverge fills unseen dimensions in, and one that does
    /// releases the light (it leaves the watch, and `true` says to release
    /// it from its holds). `brightness_apart` and `colour_apart` are the
    /// float tolerance verdicts of the patch against the reference.
    pub fn observe_light(&mut self, id: &str, patch: &LightStatePatch, now: u64, brightness_apart: bool, colour_apart: bool) -> (released: bool)
        requires
            old(self).wf(),
        ensures
            final(self).wf(),
            ({
                let k = (true, id@);
                let w = old(self).view();
                if !w.contains_key(k) {
                    final(self).view() == w && !released
                } else {
                    let g = w[k].0;
                    match w[k].1 {
                        HoldRef::Power(_) => final(self).view() == w && !released,
                        HoldRef::Light(r) => if patch.reachable == Some(false) {
                            final(self).view() == w && !released
                        } else if now < g {
                            final(self).view() == w.insert(k, (g, HoldRef::Light(patched_spec(r, *patch)))) && !released
                        } else if !diverges_spec(r, *patch, brightness_apart, colour_apart) {
                            final(self).view() == w.insert(k, (g, HoldRef::Light(filled_spec(r, *patch)))) && !released
                        } else {
                            final(self).view() == w.remove(k) && released
                        },
                    }
                }
            }),
    {
        let ghost before = *self;
        let i = match self.position(true, id) {
            None => {
                return false;
            },
            Some(i) => i,
        };
        proof {
            self.lemma_entry(i as int);
        }
        let d = self.held.remove(i);
        let HeldDevice { is_light, id: hid, grace_until, reference } = d;
        match reference {
            HoldRef::Power(on) => {
                self.held.insert(i, HeldDevice { is_light, id: hid, grace_until, reference: HoldRef::Power(on) });
                proof {
                    assert(self.held@ =~= before.held@);
                }
                false
            },
            HoldRef::Light(mut r) => {
                match observe_hold_light(&r, grace_until, now, patch, brightness_apart, colour_apart) {
                    HoldObservation::Ignore => {
                        self.held.insert(i, HeldDevice { is_light, id: hid, grace_until, reference: HoldRef::Light(r) });
                        proof {
                            assert(self.held@ =~= before.held@);
                        }
                        false
                    },
                    HoldObservation::Settle => {
                        apply_patch(&mut r, patch);
                        self.held.insert(i, HeldDevice { is_light, id: hid, grace_until, reference: HoldRef::Light(r) });
                        proof {
                            lemma_replaced(before, *self, i as int);
                        }
                        false
                    },
                    HoldObservation::Fill => {
                        fill_reference(&mut r, patch);
                        self.held.insert(i, HeldDevice { is_light, id: hid, grace_until, reference: HoldRef::Light(r) });
                        proof {
                            lemma_replaced(before, *self, i as int);
                        }
                        false
                    },
                    HoldObservation::Release => {
                        self.held.insert(i, HeldDevice { is_light, id: hid, grace_until, reference: HoldRef::Light(r) });
                        proof {
                            assert(self.held@ =~= before.held@);
                        }
                        self.unwatch(true, id);
                        true
                    },
                }
            },
        }
    }

    /// A pushed power reading against the watch, at `now`: a device not
    /// held (or held as a light) changes nothing; inside grace the reading
    /// settles the reference; after it, only a flip releases the device.
    pub fn observe_power(&mut self, id: &str, on: bool, now: u64) -> (released: bool)
        requires
            old(self).wf(),
        ensures
            final(self).wf(),
            ({
                let k = (false, id@);
                let w = old(self).view();
                if !w.contains_key(k) {
                    final(self).view() == w && !released
                } else {
                    let g = w[k].0;
                    match w[k].1 {
                        HoldRef::Light(_) => final(self).view() == w && !released,
                        HoldRef::Power(r) => if now < g {
                            final(self).view() == w.insert(k, (g, HoldRef::Power(on))) && !released
                        } else if on == r {
                            final(self).view() == w && !released
                        } else {
                            final(self).view() == w.remove(k) && released
                        },
                    }
                }
            }),
    {
        let ghost before = *self;
        let i = match self.position(false, id) {
            None => {
                return false;
            },
            Some(i) => i,
        };
        proof {
            self.lemma_entry(i as int);
        }
        let d = self.held.remove(i);
        let HeldDevice { is_light, id: hid, grace_until, reference } = d;
        match reference {
            HoldRef::Light(r) => {
                self.held.insert(i, HeldDevice { is_light, id: hid, grace_until, reference: HoldRef::Light(r) });
                proof {
                    assert(self.held@ =~= before.held@);
                }
                false
            },
            HoldRef::Power(r) => {
                match observe_hold_power(r, grace_until, now, on) {
                    HoldObservation::Settle => {
                        self.held.insert(i, HeldDevice { is_light, id: hid, grace_until, reference: HoldRef::Power(on) });
                        proof {
                            lemma_replaced(before, *self, i as int);
                        }
                        false
                    },
                    HoldObservation::Release => {
                        self.held.insert(i, HeldDevice { is_light, id: hid, grace_until, reference: HoldRef::Power(r) });
                        proof {
                            assert(self.held@ =~= before.held@);
                        }
                        self.unwatch(false, id);
                        true
                    },
                    _ => {
                        self.held.insert(i, HeldDevice { is_light, id: hid, grace_until, reference: HoldRef::Power(r) });
                        proof {
                            assert(self.held@ =~= before.held@);
                        }
                        false
                    },
                }
            },
        }
    }

}

/// Whether `k` is the first entry of `p` with the key `key`.
pub open spec fn is_first_key(p: Seq<RestoreEntry>, key: (bool, Seq<char>), k: int) -> bool {
    0 <= k < p.len() && entry_key(p[k]) == key && forall|j: int| 0 <= j < k ==> entry_key(#[trigger] p[j]) != key
}

/// The entry a new snapshot keeps for `e`: the first capture of the same
/// device by another pending hold (the true pre-automation state), else `e`.
pub open spec fn inherit_spec(p: Seq<RestoreEntry>, e: RestoreEntry) -> RestoreEntry {
    if exists|k: int| is_first_key(p, entry_key(e), k) {
        p[choose|k: int| is_first_key(p, entry_key(e), k)]
    } else {
        e
    }
}

fn clone_light_state(s: &LightState) -> (r: LightState)
    ensures
        r == *s,
{
    LightState {
        on: s.on,
        brightness: s.brightness,
        color: s.color,
        color_temp_mirek: s.color_temp_mirek,
        reachable: s.reachable,
        effect: clone_opt(&s.effect),
        transport: clone_opt(&s.transport),
        ip: clone_opt(&s.ip),
    }
}

fn clone_entry(e: &RestoreEntry) -> (r: RestoreEntry)
    ensures
        r == *e,
{
    match e {
        RestoreEntry::Light { light_id, state } => RestoreEntry::Light { light_id: light_id.clone(), state: clone_light_state(state) },
        RestoreEntry::Power { device_id, on } => RestoreEntry::Power { device_id: device_id.clone(), on: *on },
    }
}

/// The first entry of `p` with the key of `e`, if any.
fn first_key_index(p: &Vec<RestoreEntry>, e: &RestoreEntry) -> (r: Option<usize>)
    ensures
        match r {
            Some(k) => is_first_key(p@, entry_key(*e), k as int),
            None => !exists|k: int| is_first_key(p@, entry_key(*e), k),
        },
{
    let mut k: usize = 0;
    while k < p.len()
        invariant
            k <= p@.len(),
            forall|j: int| 0 <= j < k ==> entry_key(#[trigger] p@[j]) != entry_key(*e),
        decreases p@.len() - k,
    {
        if key_matches(&p[k], e) {
            return Some(k);
        }
        k = k + 1;
    }
    proof {
        if exists|c: int| is_first_key(p@, entry_key(*e), c) {
            let c = choose|c: int| is_first_key(p@, entry_key(*e), c);
            assert(entry_key(p@[c]) != entry_key(*e));
        }
    }
    None
}

fn key_matches(a: &RestoreEntry, b: &RestoreEntry) -> (r: bool)
    ensures
        r == (entry_key(*a) == entry_key(*b)),
{
    match b {
        RestoreEntry::Light { light_id, .. } => entry_is(a, true, light_id.as_str()),
        RestoreEntry::Power { device_id, .. } => entry_is(a, false, device_id.as_str()),
    }
}

/// Overlapping holds: each device of a new snapshot that another pending
/// hold already captured (`pending`, in capture order) keeps that first
/// capture, since this rule may only be seeing the other rule's output.
pub fn inherit_originals(snapshot: Vec<RestoreEntry>, pending: &Vec<RestoreEntry>) -> (r: Vec<RestoreEntry>)
    ensures
        r@.len() == snapshot@.len(),
        forall|i: int| 0 <= i < r@.len() ==> #[trigger] r@[i] == inherit_spec(pending@, snapshot@[i]),
{
    let ghost orig = snapshot@;
    let mut out: Vec<RestoreEntry> = Vec::new();
    let mut rest = snapshot;
    let n = rest.len();
    let mut i: usize = 0;
    while rest.len() > 0
        invariant
            n == orig.len(),
            i + rest@.len() == orig.len(),
            rest@ == orig.subrange(i as int, orig.len() as int),
            out@.len() == i,
            forall|k: int| 0 <= k < i ==> #[trigger] out@[k] == inherit_spec(pending@, orig[k]),
        decreases rest@.len(),
    {
        let e = rest.remove(0);
        assert(e == orig[i as int]);
        let chosen = match first_key_index(pending, &e) {
            Some(f) => {
                proof {
                    let c = choose|c: int| is_first_key(pending@, entry_key(e), c);
                    if c < f {
                        assert(entry_key(pending@[c]) != entry_key(e));
                    } else if c > f {
                        assert(entry_key(pending@[f as int]) != entry_key(e));
                    }
                }
                clone_entry(&pending[f])
            },
            None => e,
        };
        out.push(chosen);
        i = i + 1;
        assert(rest@ =~= orig.subrange(i as int, orig.len() as int));
    }
    out
}

// ── Pending holds ────────────────────────────────────────────────────────────

/// One rule's pending timed hold: when it restores (Unix seconds) and the
/// states it puts back.
pub struct PendingHold {
    pub rule_id: String,
    pub restore_at: u64,
    pub snapshot: Vec<RestoreEntry>,
}

/// Every entry of the pending holds, hold by hold, in table order.
pub open spec fn all_entries(holds: Seq<PendingHold>) -> Seq<RestoreEntry>
    decreases holds.len(),
{
    if holds.len() == 0 {
        Seq::empty()
    } else {
        all_entries(holds.drop_last()) + holds.last().snapshot@
    }
}

/// The pending holds, at most one per rule.
pub struct HoldTable {
    pub holds: Vec<PendingHold>,
}

/// What scheduling a rule's hold did.
#[derive(Clone, Copy, Debug, PartialEq, Eq, Structural)]
pub enum HoldStep {
    /// The rule's hold was pending: only its restore time moved, its
    /// original snapshot is kept.
    Extended,
    /// Nothing could be captured: no hold.
    Skipped,
    /// A new hold was stored.
    Created,
}

impl HoldTable {
    /// No rule has two pending holds.
    pub open spec fn wf(&self) -> bool {
        forall|i: int, j: int| 0 <= i < j < self.holds@.len() ==> (#[trigger] self.holds@[i]).rule_id@ != (#[trigger] self.holds@[j]).rule_id@
    }

    pub open spec fn holds_rule(&self, rule_id: Seq<char>) -> bool {
        exists|i: int| 0 <= i < self.holds@.len() && #[trigger] self.holds@[i].rule_id@ == rule_id
    }

    /// Every entry of every pending hold, in table order.
    pub fn entries(&self) -> (r: Vec<RestoreEntry>)
        ensures
            r@ == all_entries(self.holds@),
    {
        let mut out: Vec<RestoreEntry> = Vec::new();
        let mut i: usize = 0;
        assert(self.holds@.subrange(0, 0) =~= Seq::<PendingHold>::empty());
        while i < self.holds.len()
            invariant
                i <= self.holds@.len(),
                out@ == all_entries(self.holds@.subrange(0, i as int)),
            decreases self.holds@.len() - i,
        {
            let snap = &self.holds[i].snapshot;
            let ghost before = out@;
            let mut k: usize = 0;
            while k < snap.len()
                invariant
                    k <= snap@.len(),
                    out@ == before + snap@.subrange(0, k as int),
                decreases snap@.len() - k,
            {
                out.push(clone_entry(&snap[k]));
                k = k + 1;
                assert(out@ =~= before + snap@.subrange(0, k as int));
            }
            proof {
                let next = self.holds@.subrange(0, i + 1);
                assert(next.drop_last() =~= self.holds@.subrange(0, i as int));
                assert(next.last() == self.holds@[i as int]);
                assert(snap@.subrange(0, snap@.len() as int) =~= snap@);
            }
            i = i + 1;
        }
        assert(self.holds@.subrange(0, self.holds@.len() as int) =~= self.holds@);
        out
    }

    /// Schedule `rule_id`'s hold to restore at `restore_at`, with `snapshot`
    /// the states its targets are in now. A rule whose hold is pending only
    /// moves its restore time and keeps its original snapshot; an empty
    /// snapshot sets no hold; otherwise a hold is stored whose entries
    /// inherit the first capture of each device by the pending holds.
    pub fn schedule(&mut self, rule_id: &str, restore_at: u64, snapshot: Vec<RestoreEntry>) -> (step: HoldStep)
        requires
            old(self).wf(),
        ensures
            final(self).wf(),
            ({
                let o = old(self).holds@;
                let n = final(self).holds@;
                if old(self).holds_rule(rule_id@) {
                    &&& step == HoldStep::Extended
                    &&& n.len() == o.len()
                    &&& forall|k: int| 0 <= k < o.len() ==> {
                        let a = #[trigger] o[k];
                        let b = n[k];
                        if a.rule_id@ == rule_id@ {
                            b.rule_id == a.rule_id && b.snapshot == a.snapshot && b.restore_at == restore_at
                        } else {
                            b == a
                        }
                    }
                } else if snapshot@.len() == 0 {
                    step == HoldStep::Skipped && n == o
                } else {
                    &&& step == HoldStep::Created
                    &&& n.len() == o.len() + 1
                    &&& n.subrange(0, o.len() as int) == o
                    &&& n.last().rule_id@ == rule_id@
                    &&& n.last().restore_at == restore_at
                    &&& n.last().snapshot@.len() == snapshot@.len()
                    &&& forall|k: int| 0 <= k < snapshot@.len() ==> #[trigger] n.last().snapshot@[k] == inherit_spec(all_entries(o), snapshot@[k])
                }
            }),
    {
        let ghost o = self.holds@;
        let mut i: usize = 0;
        while i < self.holds.len()
            invariant
                i <= self.holds@.len(),
                self.holds@ == o,
                old(self).holds@ == o,
                forall|a: int, b: int| 0 <= a < b < o.len() ==> (#[trigger] o[a]).rule_id@ != (#[trigger] o[b]).rule_id@,
                forall|k: int| 0 <= k < i ==> (#[trigger] o[k]).rule_id@ != rule_id@,
            decreases self.holds@.len() - i,
        {
            if str_eq(self.holds[i].rule_id.as_str(), rule_id) {
                let mut h = self.holds.remove(i);
                h.restore_at = restore_at;
                self.holds.insert(i, h);
                proof {
                    let n = self.holds@;
                    assert(old(self).holds@[i as int].rule_id@ == rule_id@);
                    assert(old(self).holds_rule(rule_id@));
                    assert forall|k: int| 0 <= k < o.len() implies {
                        let a = #[trigger] o[k];
                        let b = n[k];
                        if a.rule_id@ == rule_id@ {
                            b.rule_id == a.rule_id && b.snapshot == a.snapshot && b.restore_at == restore_at
                        } else {
                            b == a
                        }
                    } by {
                        if k != i {
                            assert(n[k] == o[k]);
                        } else {
                            assert(n[k].rule_id == o[k].rule_id);
                        }
                        if k != i as int && o[k].rule_id@ == rule_id@ {
                            if k < i {
                            } else {
                                assert(o[i as int].rule_id@ != o[k].rule_id@);
                            }
                        }
                    }
                    assert forall|a: int, b: int| 0 <= a < b < n.len() implies (#[trigger] n[a]).rule_id@ != (#[trigger] n[b]).rule_id@ by {
                        assert(n[a].rule_id == o[a].rule_id);
                        assert(n[b].rule_id == o[b].rule_id);
                    }
                }
                return HoldStep::Extended;
            }
            i = i + 1;
        }
        if snapshot.len() == 0 {
            return HoldStep::Skipped;
        }
        let pending = self.entries();
        let kept = inherit_originals(snapshot, &pending);
        self.holds.push(PendingHold { rule_id: rule_id.to_string(), restore_at, snapshot: kept });
        proof {
            let n = self.holds@;
            assert(n.subrange(0, o.len() as int) =~= o);
            assert forall|a: int, b: int| 0 <= a < b < n.len() implies (#[trigger] n[a]).rule_id@ != (#[trigger] n[b]).rule_id@ by {
                if b < o.len() {
                    assert(n[a] == o[a] && n[b] == o[b]);
                } else {
                    assert(n[a] == o[a]);
                }
            }
        }
        HoldStep::Created
    }
}

// ── Stays-for timers ─────────────────────────────────────────────────────────

/// What a stays-for timer watches.
pub enum StaySubject {
    Sensor(String),
    Room(String),
    Device(TriggerDeviceDomain, String),
}

pub open spec fn subject_view(s: StaySubject) -> (int, TriggerDeviceDomain, Seq<char>) {
    match s {
        StaySubject::Sensor(id) => (0, TriggerDeviceDomain::Light, id@),
        StaySubject::Room(id) => (1, TriggerDeviceDomain::Light, id@),
        StaySubject::Device(d, id) => (2, d, id@),
    }
}

fn same_subject(a: &StaySubject, b: &StaySubject) -> (r: bool)
    ensures
        r == (subject_view(*a) == subject_view(*b)),
{
    match (a, b) {
        (StaySubject::Sensor(x), StaySubject::Sensor(y)) => str_eq(x.as_str(), y.as_str()),
        (StaySubject::Room(x), StaySubject::Room(y)) => str_eq(x.as_str(), y.as_str()),
        (StaySubject::Device(d, x), StaySubject::Device(e, y)) => *d == *e && str_eq(x.as_str(), y.as_str()),
        _ => false,
    }
}

/// An armed stays-for timer: fire at `fire_at` (milliseconds) provided the
/// subject still reads `watched`.
pub struct PendingStay {
    pub subject: StaySubject,
    pub watched: bool,
    pub fire_at: u64,
}

/// The armed timers, one per rule id.
pub struct StayTimers {
    pub pending: Vec<(String, PendingStay)>,
}

pub open spec fn has_timer(p: Seq<(String, PendingStay)>, rule_id: Seq<char>) -> bool {
    exists|i: int| 0 <= i < p.len() && (#[trigger] p[i]).0@ == rule_id
}

fn find_timer(p: &Vec<(String, PendingStay)>, rule_id: &str) -> (r: bool)
    ensures
        r == has_timer(p@, rule_id@),
{
    let mut i: usize = 0;
    while i < p.len()
        invariant
            i <= p@.len(),
            forall|k: int| 0 <= k < i ==> (#[trigger] p@[k]).0@ != rule_id@,
        decreases p@.len() - i,
    {
        if str_eq(p[i].0.as_str(), rule_id) {
            return true;
        }
        i = i + 1;
    }
    false
}

/// Arm the stay timer of a rule whose subject already reads the watched
/// state (the recovery path after a restart or a rule edit). A rule whose
/// timer is already running keeps its deadline. `stay` is the rule's
/// stays-for `(watched, seconds)`, if it has one.
pub fn seed_stay(timers: &mut StayTimers, rule_id: &String, stay: Option<(bool, u32)>, subject: StaySubject, current: bool, now: u64)
    requires
        now + 4_294_967_295_000 <= u64::MAX,
    ensures
        has_timer(old(timers).pending@, rule_id@) ==> final(timers).pending@ == old(timers).pending@,
        !has_timer(old(timers).pending@, rule_id@) ==> match stay {
            Some((watched, secs)) => if current == watched {
                final(timers).pending@ == old(timers).pending@.push((*rule_id, PendingStay { subject, watched, fire_at: (now + secs * 1000) as u64 }))
            } else {
                final(timers).pending@ == old(timers).pending@
            },
            None => final(timers).pending@ == old(timers).pending@,
        },
{
    if find_timer(&timers.pending, rule_id.as_str()) {
        return;
    }
    if let Some((watched, secs)) = stay {
        if current == watched {
            let fire_at = now + (secs as u64) * 1000;
            timers.pending.push((rule_id.clone(), PendingStay { subject, watched, fire_at }));
        }
    }
}

/// Leaving a watched state cancels the timers on that subject: a reading
/// `now_reading` that is the opposite of a timer's watched state drops it.
pub open spec fn survives(e: (String, PendingStay), subject: StaySubject, now_reading: Option<bool>) -> bool {
    survives_at(e, subject_view(subject), now_reading)
}

/// A stays-for timer survives a reading of the subject `key` unless it
/// watches that subject and the reading left the watched state.
pub open spec fn survives_at(e: (String, PendingStay), key: (int, TriggerDeviceDomain, Seq<char>), now_reading: Option<bool>) -> bool {
    !(subject_view(e.1.subject) == key && now_reading == Some(!e.1.watched))
}

pub fn cancel_left(timers: &mut StayTimers, subject: &StaySubject, now_reading: Option<bool>)
    ensures
        final(timers).pending@ == old(timers).pending@.filter(|e: (String, PendingStay)| survives(e, *subject, now_reading)),
{
    let ghost orig = timers.pending@;
    let ghost pred = |e: (String, PendingStay)| survives(e, *subject, now_reading);
    let mut kept: Vec<(String, PendingStay)> = Vec::new();
    let n = timers.pending.len();
    let mut i: usize = 0;
    proof {
        reveal(Seq::filter);
        assert(orig.subrange(0, 0) =~= Seq::<(String, PendingStay)>::empty());
    }
    while timers.pending.len() > 0
        invariant
            n == orig.len(),
            i + timers.pending@.len() == orig.len(),
            timers.pending@ == orig.subrange(i as int, orig.len() as int),
            kept@ == orig.subrange(0, i as int).filter(pred),
            pred == (|e: (String, PendingStay)| survives(e, *subject, now_reading)),
        decreases timers.pending@.len(),
    {
        let e = timers.pending.remove(0);
        let cancel = same_subject(&e.1.subject, subject) && now_reading == Some(!e.1.watched);
        if !cancel {
            kept.push(e);
        }
        proof {
            reveal(Seq::filter);
            let next = orig.subrange(0, i + 1);
            assert(next.drop_last() =~= orig.subrange(0, i as int));
            assert(next.last() == orig[i as int]);
            assert(timers.pending@ =~= orig.subrange(i + 1, orig.len() as int));
        }
        i = i + 1;
    }
    assert(orig.subrange(0, orig.len() as int) =~= orig);
    timers.pending = kept;
}

// ── Engine edges ─────────────────────────────────────────────────────────────

/// The last reading the engine holds for a subject (sensor, room or
/// device), if any.
pub open spec fn reading_of(p: Seq<(StaySubject, bool)>, k: (int, TriggerDeviceDomain, Seq<char>)) -> Option<bool> {
    if exists|i: int| 0 <= i < p.len() && subject_view(#[trigger] p[i].0) == k {
        Some(p[choose|i: int| 0 <= i < p.len() && subject_view(#[trigger] p[i].0) == k].1)
    } else {
        None
    }
}

pub open spec fn unique_subjects(p: Seq<(StaySubject, bool)>) -> bool {
    forall|i: int, j: int| 0 <= i < j < p.len() ==> subject_view((#[trigger] p[i]).0) != subject_view((#[trigger] p[j]).0)
}

/// With one entry per subject, an entry's reading is its subject's.
proof fn lemma_reading_at(p: Seq<(StaySubject, bool)>, i: int)
    requires
        unique_subjects(p),
        0 <= i < p.len(),
    ensures
        reading_of(p, subject_view(p[i].0)) == Some(p[i].1),
{
    let k = subject_view(p[i].0);
    assert(subject_view(p[i].0) == k);
    let c = choose|c: int| 0 <= c < p.len() && subject_view(#[trigger] p[c].0) == k;
    if c != i {
        if c < i {
            assert(subject_view(p[c].0) != subject_view(p[i].0));
        } else {
            assert(subject_view(p[i].0) != subject_view(p[c].0));
        }
    }
}

fn clone_subject(s: &StaySubject) -> (r: StaySubject)
    ensures
        subject_view(r) == subject_view(*s),
        r == *s,
{
    match s {
        StaySubject::Sensor(x) => StaySubject::Sensor(x.clone()),
        StaySubject::Room(x) => StaySubject::Room(x.clone()),
        StaySubject::Device(d, x) => StaySubject::Device(*d, x.clone()),
    }
}

/// The engine's last reading of each subject, one entry per subject.
pub struct EdgeMemory {
    pub prev: Vec<(StaySubject, bool)>,
}

impl EdgeMemory {
    /// Record `on` as `subject`'s reading, giving back the one it replaces.
    pub fn observe(&mut self, subject: &StaySubject, on: bool) -> (prev: Option<bool>)
        requires
            unique_subjects(old(self).prev@),
        ensures
            unique_subjects(final(self).prev@),
            prev == reading_of(old(self).prev@, subject_view(*subject)),
            forall|k: (int, TriggerDeviceDomain, Seq<char>)| #[trigger] reading_of(final(self).prev@, k) == if k == subject_view(*subject) {
                Some(on)
            } else {
                reading_of(old(self).prev@, k)
            },
    {
        let ghost o = self.prev@;
        let ghost key = subject_view(*subject);
        let mut i: usize = 0;
        while i < self.prev.len()
            invariant
                i <= self.prev@.len(),
                self.prev@ == o,
                old(self).prev@ == o,
                unique_subjects(o),
                key == subject_view(*subject),
                forall|k: int| 0 <= k < i ==> subject_view((#[trigger] o[k]).0) != key,
            decreases self.prev@.len() - i,
        {
            let same = same_subject(&self.prev[i].0, subject);
            proof {
                if !same {
                    assert(subject_view(o[i as int].0) != key);
                }
            }
            if same {
                let old_on = self.prev[i].1;
                self.prev.set(i, (clone_subject(subject), on));
                proof {
                    let n = self.prev@;
                    lemma_reading_at(o, i as int);
                    assert forall|a: int, b: int| 0 <= a < b < n.len() implies subject_view((#[trigger] n[a]).0) != subject_view((#[trigger] n[b]).0) by {
                        assert(subject_view(n[a].0) == subject_view(o[a].0));
                        assert(subject_view(n[b].0) == subject_view(o[b].0));
                    }
                    assert forall|k: (int, TriggerDeviceDomain, Seq<char>)| #[trigger] reading_of(n, k) == if k == key {
                        Some(on)
                    } else {
                        reading_of(o, k)
                    } by {
                        if k == key {
                            lemma_reading_at(n, i as int);
                        } else if exists|j: int| 0 <= j < o.len() && subject_view(#[trigger] o[j].0) == k {
                            let j = choose|j: int| 0 <= j < o.len() && subject_view(#[trigger] o[j].0) == k;
                            assert(j != i);
                            assert(n[j] == o[j]);
                            lemma_reading_at(o, j);
                            lemma_reading_at(n, j);
                        } else {
                            assert forall|j: int| 0 <= j < n.len() implies subject_view(#[trigger] n[j].0) != k by {
                                if j != i {
                                    assert(n[j] == o[j]);
                                }
                            }
                        }
                    }
                }
                return Some(old_on);
            }
            i = i + 1;
        }
        self.prev.push((clone_subject(subject), on));
        proof {
            let n = self.prev@;
            let m = o.len() as int;
            assert forall|a: int, b: int| 0 <= a < b < n.len() implies subject_view((#[trigger] n[a]).0) != subject_view((#[trigger] n[b]).0) by {
                assert(n[a] == o[a]);
                if b < m {
                    assert(n[b] == o[b]);
                }
            }
            assert forall|k: (int, TriggerDeviceDomain, Seq<char>)| #[trigger] reading_of(n, k) == if k == key {
                Some(on)
            } else {
                reading_of(o, k)
            } by {
                if k == key {
                    lemma_reading_at(n, m);
                } else if exists|j: int| 0 <= j < o.len() && subject_view(#[trigger] o[j].0) == k {
                    let j = choose|j: int| 0 <= j < o.len() && subject_view(#[trigger] o[j].0) == k;
                    assert(n[j] == o[j]);
                    lemma_reading_at(o, j);
                    lemma_reading_at(n, j);
                } else {
                    assert forall|j: int| 0 <= j < n.len() implies subject_view(#[trigger] n[j].0) != k by {
                        if j < m {
                            assert(n[j] == o[j]);
                        }
                    }
                }
            }
        }
        None
    }
}

/// A device reading through the engine, from memory `m0` and timers `t0`
/// to `m1` and `t1`, with the edge it yields.
pub open spec fn device_step_spec(
    m0: Seq<(StaySubject, bool)>,
    m1: Seq<(StaySubject, bool)>,
    t0: Seq<(String, PendingStay)>,
    t1: Seq<(String, PendingStay)>,
    domain: TriggerDeviceDomain,
    id: Seq<char>,
    on: bool,
    has_rules: bool,
    edge: Option<Option<bool>>,
) -> bool {
    let key = (2int, domain, id);
    let p = reading_of(m0, key);
    &&& forall|k: (int, TriggerDeviceDomain, Seq<char>)| #[trigger] reading_of(m1, k) == if k == key {
        Some(on)
    } else {
        reading_of(m0, k)
    }
    &&& edge == if p == Some(on) || (!has_rules && p is None) { None } else { Some(p) }
    &&& if edge is Some {
        t1 == t0.filter(|e: (String, PendingStay)| survives_at(e, key, Some(on)))
    } else {
        t1 == t0
    }
}

/// A sensor report through the engine, from memory `m0` and timers `t0`
/// to `m1` and `t1`, with the edge it yields.
pub open spec fn sensor_step_spec(
    m0: Seq<(StaySubject, bool)>,
    m1: Seq<(StaySubject, bool)>,
    t0: Seq<(String, PendingStay)>,
    t1: Seq<(String, PendingStay)>,
    sensor_id: Seq<char>,
    reading: Option<bool>,
    enabled: bool,
    edge: Option<Option<bool>>,
) -> bool {
    let key = (0int, TriggerDeviceDomain::Light, sensor_id);
    let p = reading_of(m0, key);
    match reading {
        None => edge is None && m1 == m0 && t1 == t0,
        Some(on) => {
            &&& forall|k: (int, TriggerDeviceDomain, Seq<char>)| #[trigger] reading_of(m1, k) == if k == key {
                Some(on)
            } else {
                reading_of(m0, k)
            }
            &&& edge == if enabled { Some(p) } else { None }
            &&& if enabled {
                t1 == t0.filter(|e: (String, PendingStay)| survives_at(e, key, Some(on)))
            } else {
                t1 == t0
            }
        },
    }
}

/// A repeated device reading is a level, not an edge: the second of two
/// equal readings yields nothing and cancels no timer.
pub proof fn lemma_device_level_is_no_edge(
    m0: Seq<(StaySubject, bool)>,
    m1: Seq<(StaySubject, bool)>,
    m2: Seq<(StaySubject, bool)>,
    t0: Seq<(String, PendingStay)>,
    t1: Seq<(String, PendingStay)>,
    t2: Seq<(String, PendingStay)>,
    domain: TriggerDeviceDomain,
    id: Seq<char>,
    on: bool,
    r1: bool,
    r2: bool,
    e1: Option<Option<bool>>,
    e2: Option<Option<bool>>,
)
    requires
        device_step_spec(m0, m1, t0, t1, domain, id, on, r1, e1),
        device_step_spec(m1, m2, t1, t2, domain, id, on, r2, e2),
    ensures
        e2 is None,
        t2 == t1,
{
    assert(reading_of(m1, (2int, domain, id)) == Some(on));
}

/// A repeated sensor reading is a level: on the second of two equal
/// reports the previous reading handed to the rules equals the new one, so
/// an edge-triggered rule has nothing to fire on; a disabled sensor yields
/// nothing either way, yet its reading is kept current.
pub proof fn lemma_sensor_level_is_no_edge(
    m0: Seq<(StaySubject, bool)>,
    m1: Seq<(StaySubject, bool)>,
    m2: Seq<(StaySubject, bool)>,
    t0: Seq<(String, PendingStay)>,
    t1: Seq<(String, PendingStay)>,
    t2: Seq<(String, PendingStay)>,
    sensor_id: Seq<char>,
    on: bool,
    en1: bool,
    en2: bool,
    e1: Option<Option<bool>>,
    e2: Option<Option<bool>>,
)
    requires
        sensor_step_spec(m0, m1, t0, t1, sensor_id, Some(on), en1, e1),
        sensor_step_spec(m1, m2, t1, t2, sensor_id, Some(on), en2, e2),
    ensures
        e2 == (if en2 { Some(Some(on)) } else { None }),
        reading_of(m2, (0int, TriggerDeviceDomain::Light, sensor_id)) == Some(on),
{
    assert(reading_of(m1, (0int, TriggerDeviceDomain::Light, sensor_id)) == Some(on));
}

/// A device's power reading through the engine: it becomes the device's
/// reading. An unchanged reading is no edge, nor is a first reading of a
/// device no rule watches; otherwise the edge applies: stays-for timers on
/// the device whose watched state it left are cancelled, and the previous
/// reading is given back for the device's rules to fire or arm on.
pub fn device_event_step(mem: &mut EdgeMemory, timers: &mut StayTimers, domain: TriggerDeviceDomain, id: &str, on: bool, has_rules: bool) -> (edge: Option<Option<bool>>)
    requires
        unique_subjects(old(mem).prev@),
    ensures
        unique_subjects(final(mem).prev@),
        device_step_spec(old(mem).prev@, final(mem).prev@, old(timers).pending@, final(timers).pending@, domain, id@, on, has_rules, edge),
{
    let subject = StaySubject::Device(domain, id.to_string());
    let prev = mem.observe(&subject, on);
    if prev == Some(on) || (!has_rules && prev.is_none()) {
        return None;
    }
    proof {
        assert((|e: (String, PendingStay)| survives(e, subject, Some(on))) =~= (|e: (String, PendingStay)| survives_at(e, subject_view(subject), Some(on))));
    }
    cancel_left(timers, &subject, Some(on));
    Some(prev)
}

/// A sensor's boolean reading through the engine (`None`: an empty report,
/// which changes nothing). The reading is recorded; a disabled sensor
/// triggers nothing; otherwise the edge applies as for a device, always.
pub fn sensor_event_step(mem: &mut EdgeMemory, timers: &mut StayTimers, sensor_id: &str, reading: Option<bool>, enabled: bool) -> (edge: Option<Option<bool>>)
    requires
        unique_subjects(old(mem).prev@),
    ensures
        unique_subjects(final(mem).prev@),
        sensor_step_spec(old(mem).prev@, final(mem).prev@, old(timers).pending@, final(timers).pending@, sensor_id@, reading, enabled, edge),
{
    let on = match reading {
        None => return None,
        Some(on) => on,
    };
    let subject = StaySubject::Sensor(sensor_id.to_string());
    let prev = mem.observe(&subject, on);
    if !enabled {
        return None;
    }
    proof {
        assert((|e: (String, PendingStay)| survives(e, subject, Some(on))) =~= (|e: (String, PendingStay)| survives_at(e, subject_view(subject), Some(on))));
    }
    cancel_left(timers, &subject, Some(on));
    Some(prev)
}

/// A room's aggregate occupancy through the engine (`None`: no member has
/// a reading, which changes nothing). It is recorded; an unchanged value is
/// no edge; otherwise the edge applies as for a device.
pub fn room_event_step(mem: &mut EdgeMemory, timers: &mut StayTimers, room_id: &str, occupied: Option<bool>) -> (edge: Option<Option<bool>>)
    requires
        unique_subjects(old(mem).prev@),
    ensures
        unique_subjects(final(mem).prev@),
        ({
            let key = (1int, TriggerDeviceDomain::Light, room_id@);
            let p = reading_of(old(mem).prev@, key);
            match occupied {
                None => edge is None && final(mem).prev@ == old(mem).prev@ && final(timers).pending@ == old(timers).pending@,
                Some(on) => {
                    &&& forall|k: (int, TriggerDeviceDomain, Seq<char>)| #[trigger] reading_of(final(mem).prev@, k) == if k == key {
                        Some(on)
                    } else {
                        reading_of(old(mem).prev@, k)
                    }
                    &&& edge == if p == Some(on) { None } else { Some(p) }
                    &&& if p != Some(on) {
                        final(timers).pending@ == old(timers).pending@.filter(|e: (String, PendingStay)| survives_at(e, key, Some(on)))
                    } else {
                        final(timers).pending@ == old(timers).pending@
                    }
                },
            }
        }),
{
    let on = match occupied {
        None => return None,
        Some(on) => on,
    };
    let subject = StaySubject::Room(room_id.to_string());
    let prev = mem.observe(&subject, on);
    if prev == Some(on) {
        return None;
    }
    proof {
        assert((|e: (String, PendingStay)| survives(e, subject, Some(on))) =~= (|e: (String, PendingStay)| survives_at(e, subject_view(subject), Some(on))));
    }
    cancel_left(timers, &subject, Some(on));
    Some(prev)
}

/// Remove every timer due at `now` and hand them back (rule id, subject,
/// watched state) in arming order; the rest stay armed.
pub fn take_due(timers: &mut StayTimers, now: u64) -> (due: Vec<(String, PendingStay)>)
    ensures
        due@ == old(timers).pending@.filter(|e: (String, PendingStay)| e.1.fire_at <= now),
        final(timers).pending@ == old(timers).pending@.filter(|e: (String, PendingStay)| e.1.fire_at > now),
{
    let ghost orig = timers.pending@;
    let ghost is_due = |e: (String, PendingStay)| e.1.fire_at <= now;
    let ghost not_due = |e: (String, PendingStay)| e.1.fire_at > now;
    let mut due: Vec<(String, PendingStay)> = Vec::new();
    let mut kept: Vec<(String, PendingStay)> = Vec::new();
    let n = timers.pending.len();
    let mut i: usize = 0;
    proof {
        reveal(Seq::filter);
        assert(orig.subrange(0, 0) =~= Seq::<(String, PendingStay)>::empty());
    }
    while timers.pending.len() > 0
        invariant
            n == orig.len(),
            i + timers.pending@.len() == orig.len(),
            timers.pending@ == orig.subrange(i as int, orig.len() as int),
            due@ == orig.subrange(0, i as int).filter(is_due),
            kept@ == orig.subrange(0, i as int).filter(not_due),
            is_due == (|e: (String, PendingStay)| e.1.fire_at <= now),
            not_due == (|e: (String, PendingStay)| e.1.fire_at > now),
        decreases timers.pending@.len(),
    {
        let e = timers.pending.remove(0);
        if e.1.fire_at <= now {
            due.push(e);
        } else {
            kept.push(e);
        }
        proof {
            reveal(Seq::filter);
            let next = orig.subrange(0, i + 1);
            assert(next.drop_last() =~= orig.subrange(0, i as int));
            assert(next.last() == orig[i as int]);
            assert(timers.pending@ =~= orig.subrange(i + 1, orig.len() as int));
        }
        i = i + 1;
    }
    assert(orig.subrange(0, orig.len() as int) =~= orig);
    timers.pending = kept;
    due
}

// ── Timer (schedule) rules ───────────────────────────────────────────────────

/// What a timer rule's plan edge asks for.
#[derive(Clone, Copy, Debug, PartialEq, Eq, Structural)]
pub enum TimerEdge {
    /// An on hour began: fire the rule (its conditions still gate it).
    FireOn,
    /// An off hour began after an observed on: power its targets off.
    PowerOff,
}

/// The action of one plan verdict against the previous one: a change to
/// active fires; a change to inactive powers off, but only after a verdict
/// was seen (a first observation while inactive does nothing).
pub open spec fn timer_edge_spec(prev: Option<bool>, active: bool) -> Option<TimerEdge> {
    if prev == Some(active) {
        None
    } else if active {
        Some(TimerEdge::FireOn)
    } else if prev is Some {
        Some(TimerEdge::PowerOff)
    } else {
        None
    }
}

pub fn timer_edge(prev: Option<bool>, active: bool) -> (r: Option<TimerEdge>)
    ensures
        r == timer_edge_spec(prev, active),
{
    if prev == Some(active) {
        None
    } else if active {
        Some(TimerEdge::FireOn)
    } else if prev.is_some() {
        Some(TimerEdge::PowerOff)
    } else {
        None
    }
}

/// A write a timer's off edge makes: the room, light or power device
/// switched off (lights and rooms get the plain off state, nothing else).
#[derive(Debug, PartialEq, Eq)]
pub enum OffWrite {
    Room(String),
    Light(String),
    Power(String),
}

pub open spec fn off_write_view(w: OffWrite) -> (int, Seq<char>) {
    match w {
        OffWrite::Room(id) => (0, id@),
        OffWrite::Light(id) => (1, id@),
        OffWrite::Power(id) => (2, id@),
    }
}

/// The off writes for a timer's actions, in order: each room, light and
/// power action's target; scenes, apps and toggles are left alone.
pub open spec fn off_writes_spec(acts: Seq<RuleAction>) -> Seq<(int, Seq<char>)>
    decreases acts.len(),
{
    if acts.len() == 0 {
        Seq::empty()
    } else {
        let rest = off_writes_spec(acts.drop_last());
        match acts.last() {
            RuleAction::Room { room_id, .. } => rest.push((0int, room_id@)),
            RuleAction::Light { light_id, .. } => rest.push((1int, light_id@)),
            RuleAction::Power { device_id, .. } => rest.push((2int, device_id@)),
            _ => rest,
        }
    }
}

/// What a timer rule's off edge does: power down the same targets its
/// actions (all steps, in order) switch on.
pub fn schedule_off_writes(actions: &Vec<RuleAction>) -> (r: Vec<OffWrite>)
    ensures
        r@.map_values(|w: OffWrite| off_write_view(w)) == off_writes_spec(actions@),
{
    let mut out: Vec<OffWrite> = Vec::new();
    let mut i: usize = 0;
    assert(actions@.subrange(0, 0) =~= Seq::<RuleAction>::empty());
    assert(out@.map_values(|w: OffWrite| off_write_view(w)) =~= Seq::<(int, Seq<char>)>::empty());
    while i < actions.len()
        invariant
            i <= actions@.len(),
            out@.map_values(|w: OffWrite| off_write_view(w)) == off_writes_spec(actions@.subrange(0, i as int)),
        decreases actions@.len() - i,
    {
        let ghost before = out@;
        match &actions[i] {
            RuleAction::Room { room_id, .. } => out.push(OffWrite::Room(room_id.clone())),
            RuleAction::Light { light_id, .. } => out.push(OffWrite::Light(light_id.clone())),
            RuleAction::Power { device_id, .. } => out.push(OffWrite::Power(device_id.clone())),
            _ => {},
        }
        proof {
            let next = actions@.subrange(0, i + 1);
            assert(next.drop_last() =~= actions@.subrange(0, i as int));
            assert(next.last() == actions@[i as int]);
            if out@.len() > before.len() {
                assert(out@.map_values(|w: OffWrite| off_write_view(w)) =~= before.map_values(|w: OffWrite| off_write_view(w)).push(off_write_view(out@.last())));
            } else {
                assert(out@ == before);
            }
        }
        i = i + 1;
    }
    assert(actions@.subrange(0, actions@.len() as int) =~= actions@);
    out
}

/// Acting only on edges: once a verdict is recorded, the same verdict again
/// asks for nothing, so a steady plan never re-fires.
pub proof fn lemma_steady_verdict_is_quiet(active: bool)
    ensures
        timer_edge_spec(Some(active), active) is None,
{
}

/// The verdict of a timer rule's plan at `hour`: on hours active, off
/// hours inactive, anything else (an aware hour) no verdict.
pub open spec fn plan_verdict(plan: Seq<char>, hour: int) -> Option<bool> {
    match plan_mode_spec(plan, hour) {
        Some(m) => plan_desired_spec(m, None),
        None => None,
    }
}

pub fn plan_verdict_at(plan: &str, hour: usize) -> (r: Option<bool>)
    ensures
        r == plan_verdict(plan@, hour as int),
{
    match plan_mode(plan, hour) {
        Some(m) => plan_desired(m, None),
        None => None,
    }
}

/// A device's power edge: a reading differing from the previous one (or
/// the first one) is an edge.
pub fn device_edge(prev: Option<bool>, on: bool) -> (r: bool)
    ensures
        r == (prev != Some(on)),
{
    prev != Some(on)
}

/// A room's occupancy as the engine sees it: unknown for a room without
/// presence members, else occupied when any member detects presence, each
/// member read from the engine's latest reading when it has one and from
/// the stored reading otherwise. `members` holds, per member, the engine's
/// reading and the stored one.
pub open spec fn occupancy_spec(members: Seq<(Option<bool>, bool)>) -> Option<bool> {
    if members.len() == 0 {
        None
    } else {
        Some(exists|i: int| 0 <= i < members.len() && #[trigger] member_detects(members[i]))
    }
}

pub open spec fn member_detects(m: (Option<bool>, bool)) -> bool {
    match m.0 {
        Some(b) => b,
        None => m.1,
    }
}

pub fn room_occupancy(members: &Vec<(Option<bool>, bool)>) -> (r: Option<bool>)
    ensures
        r == occupancy_spec(members@),
{
    if members.len() == 0 {
        return None;
    }
    let mut i: usize = 0;
    while i < members.len()
        invariant
            i <= members@.len(),
            forall|k: int| 0 <= k < i ==> !#[trigger] member_detects(members@[k]),
        decreases members@.len() - i,
    {
        let (engine, stored) = members[i];
        let detects = match engine {
            Some(b) => b,
            None => stored,
        };
        if detects {
            assert(member_detects(members@[i as int]));
            return Some(true);
        }
        i = i + 1;
    }
    Some(false)
}

/// A timer rule as the schedule pass reads it.
pub struct TimerRule {
    pub id: String,
    pub hour_modes: String,
}

/// The schedule pass's memory: the hour it last completed a pass for, and
/// each managed timer rule's last plan verdict.
pub struct ScheduleTracker {
    pub hour: Option<usize>,
    pub prev: Vec<(String, bool)>,
}

pub open spec fn unique_ids(p: Seq<(String, bool)>) -> bool {
    forall|i: int, j: int| 0 <= i < j < p.len() ==> (#[trigger] p[i]).0@ != (#[trigger] p[j]).0@
}

pub open spec fn unique_rules(r: Seq<TimerRule>) -> bool {
    forall|i: int, j: int| 0 <= i < j < r.len() ==> (#[trigger] r[i]).id@ != (#[trigger] r[j]).id@
}

/// The recorded verdict of the rule `id`.
pub open spec fn lookup_prev(p: Seq<(String, bool)>, id: Seq<char>) -> Option<bool> {
    if exists|i: int| 0 <= i < p.len() && (#[trigger] p[i]).0@ == id {
        Some(p[choose|i: int| 0 <= i < p.len() && (#[trigger] p[i]).0@ == id].1)
    } else {
        None
    }
}

/// The edges a pass at `hour` acts on, in rule order.
pub open spec fn edges_spec(rules: Seq<TimerRule>, hour: int, old: Seq<(String, bool)>) -> Seq<(Seq<char>, TimerEdge)>
    decreases rules.len(),
{
    if rules.len() == 0 {
        Seq::empty()
    } else {
        let rest = edges_spec(rules.drop_last(), hour, old);
        let r = rules.last();
        match plan_verdict(r.hour_modes@, hour) {
            Some(a) => match timer_edge_spec(lookup_prev(old, r.id@), a) {
                Some(e) => rest.push((r.id@, e)),
                None => rest,
            },
            None => rest,
        }
    }
}

pub open spec fn has_rule(rules: Seq<TimerRule>, id: Seq<char>) -> bool {
    exists|i: int| 0 <= i < rules.len() && (#[trigger] rules[i]).id@ == id
}

/// The verdicts remembered after a pass: each rule still on the schedule
/// keeps its new verdict (or its old one when its hour has none); rules gone
/// from the schedule are forgotten.
pub open spec fn next_prev_spec(rules: Seq<TimerRule>, hour: int, old: Seq<(String, bool)>, new: Seq<(String, bool)>) -> bool {
    &&& unique_ids(new)
    &&& forall|id: Seq<char>| #![trigger lookup_prev(new, id)] lookup_prev(new, id) == if has_rule(rules, id) {
        let r = rules[choose|i: int| 0 <= i < rules.len() && (#[trigger] rules[i]).id@ == id];
        match plan_verdict(r.hour_modes@, hour) {
            Some(a) => Some(a),
            None => lookup_prev(old, id),
        }
    } else {
        None
    }
}

pub(crate) fn find_prev(p: &Vec<(String, bool)>, id: &str) -> (r: Option<bool>)
    requires
        unique_ids(p@),
    ensures
        r == lookup_prev(p@, id@),
{
    let mut i: usize = 0;
    while i < p.len()
        invariant
            i <= p@.len(),
            unique_ids(p@),
            forall|k: int| 0 <= k < i ==> (#[trigger] p@[k]).0@ != id@,
        decreases p@.len() - i,
    {
        if str_eq(p[i].0.as_str(), id) {
            proof {
                let c = choose|c: int| 0 <= c < p@.len() && (#[trigger] p@[c]).0@ == id@;
                if c < i {
                    assert(p@[c].0@ != p@[i as int].0@);
                } else if c > i {
                    assert(p@[i as int].0@ != p@[c].0@);
                }
            }
            return Some(p[i].1);
        }
        i = i + 1;
    }
    None
}

/// One timer pass from tracker state `before` (hour of the last pass, the
/// remembered verdicts) to `after`, at `hour`, with the rules read (`None`:
/// the read failed) and the edges it yields: a failed read, or an unforced
/// pass in the hour already passed, changes nothing and yields nothing;
/// otherwise the hour is recorded, the verdicts move on and the plan edges
/// come out.
pub open spec fn pass_spec(
    before: (Option<usize>, Seq<(String, bool)>),
    after: (Option<usize>, Seq<(String, bool)>),
    hour: usize,
    force: bool,
    rules: Option<Seq<TimerRule>>,
    edges: Seq<(Seq<char>, TimerEdge)>,
) -> bool {
    match rules {
        Some(rs) => if !force && before.0 == Some(hour) {
            after == before && edges.len() == 0
        } else {
            &&& after.0 == Some(hour)
            &&& next_prev_spec(rs, hour as int, before.1, after.1)
            &&& edges == edges_spec(rs, hour as int, before.1)
        },
        None => after == before && edges.len() == 0,
    }
}

/// Timer passes run at most once an hour: after a pass that read the rules,
/// a second unforced pass in the same hour changes nothing and yields no
/// edges, whatever its own read gives.
pub proof fn lemma_same_hour_pass_is_quiet(
    s0: (Option<usize>, Seq<(String, bool)>),
    s1: (Option<usize>, Seq<(String, bool)>),
    s2: (Option<usize>, Seq<(String, bool)>),
    hour: usize,
    force: bool,
    rules1: Seq<TimerRule>,
    e1: Seq<(Seq<char>, TimerEdge)>,
    rules2: Option<Seq<TimerRule>>,
    e2: Seq<(Seq<char>, TimerEdge)>,
)
    requires
        pass_spec(s0, s1, hour, force, Some(rules1), e1),
        pass_spec(s1, s2, hour, false, rules2, e2),
    ensures
        s2 == s1,
        e2.len() == 0,
{
}

/// One schedule pass at `hour`. Nothing happens when the hour was already
/// passed (unless `force`, the rule-edit path) or when the rules could not
/// be read (`None` — a failed read must not look like "no rules"). Else the
/// pass records the hour and each rule's verdict, forgets rules gone from
/// the schedule, and returns the plan edges to act on, in rule order.
pub fn schedule_pass(t: &mut ScheduleTracker, hour: usize, force: bool, rules: Option<Vec<TimerRule>>) -> (edges: Vec<(String, TimerEdge)>)
    requires
        unique_ids(old(t).prev@),
        match rules {
            Some(rs) => unique_rules(rs@),
            None => true,
        },
    ensures
        unique_ids(final(t).prev@),
        match rules {
            Some(rs) => if !force && old(t).hour == Some(hour) {
                final(t).prev@ == old(t).prev@ && final(t).hour == old(t).hour && edges@.len() == 0
            } else {
                &&& final(t).hour == Some(hour)
                &&& next_prev_spec(rs@, hour as int, old(t).prev@, final(t).prev@)
                &&& edges@.map_values(|e: (String, TimerEdge)| (e.0@, e.1)) == edges_spec(rs@, hour as int, old(t).prev@)
            },
            None => final(t).prev@ == old(t).prev@ && final(t).hour == old(t).hour && edges@.len() == 0,
        },
        pass_spec(
            (old(t).hour, old(t).prev@),
            (final(t).hour, final(t).prev@),
            hour,
            force,
            match rules { Some(rs) => Some(rs@), None => None },
            edges@.map_values(|e: (String, TimerEdge)| (e.0@, e.1)),
        ),
{
    let mut edges: Vec<(String, TimerEdge)> = Vec::new();
    if !force && t.hour == Some(hour) {
        return edges;
    }
    let rules = match rules {
        None => return edges,
        Some(r) => r,
    };
    t.hour = Some(hour);
    let ghost old_prev = t.prev@;
    let mut next: Vec<(String, bool)> = Vec::new();
    let mut i: usize = 0;
    assert(rules@.subrange(0, 0) =~= Seq::<TimerRule>::empty());
    while i < rules.len()
        invariant
            i <= rules@.len(),
            unique_rules(rules@),
            unique_ids(old_prev),
            t.prev@ == old_prev,
            unique_ids(next@),
            forall|k: int| 0 <= k < next@.len() ==> has_rule(rules@.subrange(0, i as int), (#[trigger] next@[k]).0@),
            forall|id: Seq<char>| #![trigger lookup_prev(next@, id)] lookup_prev(next@, id) == if has_rule(rules@.subrange(0, i as int), id) {
                let r = rules@[choose|j: int| 0 <= j < rules@.len() && (#[trigger] rules@[j]).id@ == id];
                match plan_verdict(r.hour_modes@, hour as int) {
                    Some(a) => Some(a),
                    None => lookup_prev(old_prev, id),
                }
            } else {
                None
            },
            edges@.map_values(|e: (String, TimerEdge)| (e.0@, e.1)) == edges_spec(rules@.subrange(0, i as int), hour as int, old_prev),
        decreases rules@.len() - i,
    {
        let id = &rules[i].id;
        let verdict = plan_verdict_at(rules[i].hour_modes.as_str(), hour);
        let before = find_prev(&t.prev, id.as_str());
        let ghost next0 = next@;
        let ghost edges0 = edges@;
        match verdict {
            Some(a) => {
                match timer_edge(before, a) {
                    Some(e) => {
                        edges.push((id.clone(), e));
                        assert(edges@.subrange(0, edges0.len() as int) =~= edges0);
                    },
                    None => {},
                }
                next.push((id.clone(), a));
            },
            None => {
                if let Some(b) = before {
                    next.push((id.clone(), b));
                }
            },
        }
        proof {
            lemma_schedule_step(rules@, i as int, hour as int, old_prev, next0, next@, edges0, edges@);
        }
        i = i + 1;
    }
    proof {
        assert(rules@.subrange(0, rules@.len() as int) =~= rules@);
    }
    t.prev = next;
    edges
}

proof fn lemma_schedule_step(
    rules: Seq<TimerRule>,
    i: int,
    hour: int,
    old_prev: Seq<(String, bool)>,
    next0: Seq<(String, bool)>,
    next1: Seq<(String, bool)>,
    edges0: Seq<(String, TimerEdge)>,
    edges1: Seq<(String, TimerEdge)>,
)
    requires
        0 <= i < rules.len(),
        unique_rules(rules),
        unique_ids(next0),
        forall|k: int| 0 <= k < next0.len() ==> has_rule(rules.subrange(0, i), (#[trigger] next0[k]).0@),
        forall|id: Seq<char>| #![trigger lookup_prev(next0, id)] lookup_prev(next0, id) == if has_rule(rules.subrange(0, i), id) {
            let r = rules[choose|j: int| 0 <= j < rules.len() && (#[trigger] rules[j]).id@ == id];
            match plan_verdict(r.hour_modes@, hour) {
                Some(a) => Some(a),
                None => lookup_prev(old_prev, id),
            }
        } else {
            None
        },
        edges0.map_values(|e: (String, TimerEdge)| (e.0@, e.1)) == edges_spec(rules.subrange(0, i), hour, old_prev),
        ({
            let r = rules[i];
            match plan_verdict(r.hour_modes@, hour) {
                Some(a) => next1 == next0.push((r.id, a)) && match timer_edge_spec(lookup_prev(old_prev, r.id@), a) {
                    Some(e) => edges1.len() == edges0.len() + 1 && edges1.subrange(0, edges0.len() as int) == edges0
                        && edges1.last().0@ == r.id@ && edges1.last().1 == e,
                    None => edges1 == edges0,
                },
                None => edges1 == edges0 && match lookup_prev(old_prev, r.id@) {
                    Some(b) => next1 == next0.push((r.id, b)),
                    None => next1 == next0,
                },
            }
        }),
    ensures
        unique_ids(next1),
        forall|k: int| 0 <= k < next1.len() ==> has_rule(rules.subrange(0, i + 1), (#[trigger] next1[k]).0@),
        forall|id: Seq<char>| #![trigger lookup_prev(next1, id)] lookup_prev(next1, id) == if has_rule(rules.subrange(0, i + 1), id) {
            let r = rules[choose|j: int| 0 <= j < rules.len() && (#[trigger] rules[j]).id@ == id];
            match plan_verdict(r.hour_modes@, hour) {
                Some(a) => Some(a),
                None => lookup_prev(old_prev, id),
            }
        } else {
            None
        },
        edges1.map_values(|e: (String, TimerEdge)| (e.0@, e.1)) == edges_spec(rules.subrange(0, i + 1), hour, old_prev),
{
    let r = rules[i];
    let pre = rules.subrange(0, i);
    let post = rules.subrange(0, i + 1);
    assert(post.drop_last() =~= pre);
    assert(post.last() == r);
    // The new rule's id is not among the earlier ones.
    assert(!has_rule(pre, r.id@)) by {
        if has_rule(pre, r.id@) {
            let j = choose|j: int| 0 <= j < pre.len() && (#[trigger] pre[j]).id@ == r.id@;
            assert(rules[j].id@ != rules[i].id@);
        }
    }
    assert forall|id: Seq<char>| has_rule(post, id) <==> (has_rule(pre, id) || id == r.id@) by {
        if has_rule(post, id) && id != r.id@ {
            let j = choose|j: int| 0 <= j < post.len() && (#[trigger] post[j]).id@ == id;
            assert(pre[j].id@ == id);
        }
        if has_rule(pre, id) {
            let j = choose|j: int| 0 <= j < pre.len() && (#[trigger] pre[j]).id@ == id;
            assert(post[j].id@ == id);
        }
        if id == r.id@ {
            assert(post[i].id@ == id);
        }
    }
    // The rule chosen for `r.id` is `r` itself.
    let c = choose|j: int| 0 <= j < rules.len() && (#[trigger] rules[j]).id@ == r.id@;
    assert(0 <= c < rules.len() && rules[c].id@ == r.id@);
    if c != i {
        if c < i {
            assert(rules[c].id@ != rules[i].id@);
        } else {
            assert(rules[i].id@ != rules[c].id@);
        }
    }
    if next1 != next0 {
        let pushed = next1.last();
        assert(next1 == next0.push(pushed));
        assert forall|k: int| 0 <= k < next0.len() implies (#[trigger] next0[k]).0@ != r.id@ by {
            assert(has_rule(pre, next0[k].0@));
        }
        assert forall|x: int, y: int| 0 <= x < y < next1.len() implies (#[trigger] next1[x]).0@ != (#[trigger] next1[y]).0@ by {
            if y == next0.len() {
                assert(next1[x] == next0[x]);
            } else {
                assert(next1[x] == next0[x] && next1[y] == next0[y]);
            }
        }
        assert forall|id: Seq<char>| #![trigger lookup_prev(next1, id)] lookup_prev(next1, id) == if id == r.id@ {
            Some(pushed.1)
        } else {
            lookup_prev(next0, id)
        } by {
            if id == r.id@ {
                let k = next0.len() as int;
                assert(next1[k].0@ == id);
                let cc = choose|x: int| 0 <= x < next1.len() && (#[trigger] next1[x]).0@ == id;
                if cc != k {
                    assert(next1[cc] == next0[cc]);
                }
            } else {
                if exists|x: int| 0 <= x < next0.len() && (#[trigger] next0[x]).0@ == id {
                    let x = choose|x: int| 0 <= x < next0.len() && (#[trigger] next0[x]).0@ == id;
                    assert(next1[x] == next0[x]);
                    let cc = choose|x: int| 0 <= x < next1.len() && (#[trigger] next1[x]).0@ == id;
                    if cc != x {
                        if cc < next0.len() {
                            assert(next1[cc] == next0[cc]);
                        }
                    }
                } else {
                    if exists|x: int| 0 <= x < next1.len() && (#[trigger] next1[x]).0@ == id {
                        let x = choose|x: int| 0 <= x < next1.len() && (#[trigger] next1[x]).0@ == id;
                        if x < next0.len() {
                            assert(next1[x] == next0[x]);
                        }
                    }
                }
            }
        }
        assert forall|k: int| 0 <= k < next1.len() implies has_rule(post, (#[trigger] next1[k]).0@) by {
            if k < next0.len() {
                assert(next1[k] == next0[k]);
                assert(has_rule(pre, next0[k].0@));
            }
        }
    } else {
        assert forall|k: int| 0 <= k < next1.len() implies has_rule(post, (#[trigger] next1[k]).0@) by {
            assert(has_rule(pre, next0[k].0@));
        }
    }
    if edges1 != edges0 {
        assert(edges1 =~= edges0.push(edges1.last()));
        assert(edges1.map_values(|e: (String, TimerEdge)| (e.0@, e.1)) =~= edges0.map_values(|e: (String, TimerEdge)| (e.0@, e.1)).push((r.id@, edges1.last().1)));
    }
}

} // verus!
