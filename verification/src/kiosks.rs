//! Kiosk display-power policy: "HH:MM" clock parsing and formatting, the
//! quiet-hours window, the combination of schedule and presence verdicts,
//! the scheduler's edge-triggered per-kiosk step, and the small validators
//! of the kiosk management endpoints.
use vstd::prelude::*;
use vstd::string::*;
use crate::automations::{find_prev, lookup_prev, unique_ids};
use crate::text::{find_char, find_from, lemma_find_from_bounds, lemma_find_none, lemma_find_unique, all_digits, digit_val, is_digit, chars_of, dec_value, is_ws, parse_magnitude, parse_unsigned, push_char, range_eq, str_eq, string_of, string_of_range, trim, trim_bounds, trim_end, trim_start};

verus! {

/// A controller command pushed to a kiosk over its live stream; each
/// connection keeps the commands whose `kiosk_id` is its own.
#[derive(Clone, Debug)]
pub struct KioskCommand {
    pub kiosk_id: String,
    pub command: String,
}

impl KioskCommand {
    /// Whether this broadcast command is addressed to `kiosk_id`.
    pub fn is_for(&self, kiosk_id: &str) -> (r: bool)
        ensures
            r == (self.kiosk_id@ == kiosk_id@),
    {
        str_eq(self.kiosk_id.as_str(), kiosk_id)
    }
}

/// `parse_hhmm`: trim, split at the first `:`, parse both halves as `u16`,
/// and accept hours below 24 and minutes below 60.
pub open spec fn hhmm_spec(s: Seq<char>) -> Option<u16> {
    let t = trim(s);
    let k = find_from(t, ':', 0);
    if k >= t.len() {
        None
    } else {
        match (
            parse_unsigned(t.subrange(0, k), 65535),
            parse_unsigned(t.subrange(k + 1, t.len() as int), 65535),
        ) {
            (Some(h), Some(m)) => if h < 24 && m < 60 {
                Some((h * 60 + m) as u16)
            } else {
                None
            },
            _ => None,
        }
    }
}

/// `u16::from_str` on `v[lo..hi]`.
pub fn parse_u16_range(v: &Vec<char>, lo: usize, hi: usize) -> (r: Option<u16>)
    requires
        lo <= hi <= v@.len(),
    ensures
        r matches Some(x) ==> parse_unsigned(v@.subrange(lo as int, hi as int), 65535) == Some(
            x as nat,
        ),
        r is None ==> parse_unsigned(v@.subrange(lo as int, hi as int), 65535) is None,
{
    let ghost s = v@.subrange(lo as int, hi as int);
    let mut start = lo;
    if hi - lo > 1 && v[lo] == '+' {
        start = lo + 1;
        assert(s.drop_first() =~= v@.subrange(start as int, hi as int));
    } else {
        assert(s =~= v@.subrange(start as int, hi as int));
    }
    match parse_magnitude(v, start, hi, 65535) {
        Some(x) => Some(x as u16),
        None => None,
    }
}

/// Parse a "HH:MM" 24-hour clock string into minutes since midnight.
pub fn parse_hhmm(s: &str) -> (r: Option<u16>)
    ensures
        r == hhmm_spec(s@),
        r matches Some(m) ==> m < 1440,
{
    let v = chars_of(s);
    let (lo, hi) = trim_bounds(&v, 0, v.len());
    assert(v@.subrange(0, v@.len() as int) =~= v@);
    let ghost t = v@.subrange(lo as int, hi as int);
    let k = find_char(&v, ':', lo);
    proof {
        lemma_find_from_bounds(v@, ':', lo as int);
        lemma_find_from_bounds(t, ':', 0);
        // The first ':' of the trimmed range is the first ':' at or after `lo`.
        if k < hi {
            assert(t[k - lo] == ':');
            assert forall|j: int| 0 <= j < k - lo implies t[j] != ':' by {
                assert(t[j] == v@[lo + j]);
            }
            lemma_find_unique(t, ':', k - lo);
        } else {
            assert forall|j: int| 0 <= j < t.len() implies t[j] != ':' by {
                assert(t[j] == v@[lo + j]);
            }
            lemma_find_none(t, ':');
        }
    }
    if k >= hi {
        return None;
    }
    assert(t.subrange(0, k - lo) =~= v@.subrange(lo as int, k as int));
    assert(t.subrange(k - lo + 1, t.len() as int) =~= v@.subrange(k + 1, hi as int));
    let h = parse_u16_range(&v, lo, k);
    let m = parse_u16_range(&v, k + 1, hi);
    match (h, m) {
        (Some(h), Some(m)) => {
            if h < 24 && m < 60 {
                Some(h * 60 + m)
            } else {
                None
            }
        },
        _ => None,
    }
}

/// The character of decimal digit `d`.
pub open spec fn digit_char(d: int) -> char {
    if d == 0 {
        '0'
    } else if d == 1 {
        '1'
    } else if d == 2 {
        '2'
    } else if d == 3 {
        '3'
    } else if d == 4 {
        '4'
    } else if d == 5 {
        '5'
    } else if d == 6 {
        '6'
    } else if d == 7 {
        '7'
    } else if d == 8 {
        '8'
    } else {
        '9'
    }
}

pub fn digit_to_char(d: u64) -> (c: char)
    requires
        d < 10,
    ensures
        c == digit_char(d as int),
{
    if d == 0 {
        '0'
    } else if d == 1 {
        '1'
    } else if d == 2 {
        '2'
    } else if d == 3 {
        '3'
    } else if d == 4 {
        '4'
    } else if d == 5 {
        '5'
    } else if d == 6 {
        '6'
    } else if d == 7 {
        '7'
    } else if d == 8 {
        '8'
    } else {
        '9'
    }
}

/// The decimal digits of `n` (no leading zeros; "0" for zero).
pub open spec fn dec_digits(n: nat) -> Seq<char>
    decreases n,
{
    if n < 10 {
        seq![digit_char(n as int)]
    } else {
        dec_digits(n / 10).push(digit_char((n % 10) as int))
    }
}

/// `format!("{:02}", n)`: the digits of `n`, zero-padded to width two.
pub open spec fn pad2(n: nat) -> Seq<char> {
    if n < 10 {
        seq!['0', digit_char(n as int)]
    } else {
        dec_digits(n)
    }
}

/// Appends the decimal digits of `n` to `s`.
pub fn push_decimal(s: &mut String, n: u64)
    ensures
        final(s)@ == old(s)@ + dec_digits(n as nat),
    decreases n,
{
    if n >= 10 {
        push_decimal(s, n / 10);
    }
    let c = digit_to_char(n % 10);
    push_char(s, c);
    proof {
        if n >= 10 {
            assert(old(s)@ + dec_digits(n as nat) =~= (old(s)@ + dec_digits((n / 10) as nat)).push(
                c,
            ));
        } else {
            assert(old(s)@ + dec_digits(n as nat) =~= old(s)@.push(c));
        }
    }
}

/// Appends `n` zero-padded to width two.
pub fn push_pad2(s: &mut String, n: u64)
    ensures
        final(s)@ == old(s)@ + pad2(n as nat),
{
    if n < 10 {
        push_char(s, '0');
        let c = digit_to_char(n);
        push_char(s, c);
        assert(old(s)@ + pad2(n as nat) =~= old(s)@.push('0').push(c));
    } else {
        push_decimal(s, n);
    }
}

/// `fmt_hhmm`: zero-padded hours, a colon, zero-padded minutes.
pub open spec fn fmt_spec(min: nat) -> Seq<char> {
    pad2(min / 60) + seq![':'] + pad2(min % 60)
}

/// Format minutes since midnight as a zero-padded "HH:MM".
pub fn fmt_hhmm(min: u16) -> (s: String)
    ensures
        s@ == fmt_spec(min as nat),
{
    let mut s = String::new();
    push_pad2(&mut s, (min / 60) as u64);
    push_char(&mut s, ':');
    push_pad2(&mut s, (min % 60) as u64);
    assert(s@ =~= fmt_spec(min as nat));
    s
}

/// A digit character reads back as its digit and is no separator.
pub proof fn lemma_digit_char(d: int)
    requires
        0 <= d < 10,
    ensures
        digit_val(digit_char(d)) == d,
        is_digit(digit_char(d)),
        !is_ws(digit_char(d)),
        digit_char(d) != ':',
        digit_char(d) != '+',
        digit_char(d) != '-',
{
}

proof fn lemma_pad2_small(n: nat)
    requires
        n < 100,
    ensures
        pad2(n).len() == 2,
        all_digits(pad2(n)),
        dec_value(pad2(n)) == n,
        !is_ws(pad2(n)[0]),
        !is_ws(pad2(n)[1]),
        pad2(n)[0] != ':',
        pad2(n)[1] != ':',
        pad2(n)[0] != '+',
{
    let p = pad2(n);
    let hi: int = if n < 10 { 0 } else { (n / 10) as int };
    let lo: int = if n < 10 { n as int } else { (n % 10) as int };
    lemma_digit_char(lo);
    lemma_digit_char(hi);
    if n < 10 {
        assert(p =~= seq!['0', digit_char(lo)]);
        assert(digit_char(hi) == '0');
    } else {
        assert(dec_digits(n / 10) == seq![digit_char((n / 10) as int)]);
        assert(p =~= seq![digit_char(hi), digit_char(lo)]);
    }
    assert(p.drop_last() =~= seq![digit_char(hi)]);
    assert(seq![digit_char(hi)].drop_last() =~= Seq::<char>::empty());
    assert(dec_value(Seq::<char>::empty()) == 0);
    assert(seq![digit_char(hi)].last() == digit_char(hi));
    assert(dec_value(seq![digit_char(hi)]) == dec_value(Seq::<char>::empty()) * 10 + digit_val(
        digit_char(hi),
    ));
    assert(dec_value(p) == hi * 10 + lo);
}

/// Formatting a time of day and parsing it back gives the same minute.
pub proof fn lemma_fmt_parse_roundtrip(min: u16)
    requires
        min < 1440,
    ensures
        hhmm_spec(fmt_spec(min as nat)) == Some(min),
{
    let h = (min / 60) as nat;
    let m = (min % 60) as nat;
    lemma_pad2_small(h);
    lemma_pad2_small(m);
    let s = fmt_spec(min as nat);
    assert(s.len() == 5);
    assert(s[0] == pad2(h)[0]);
    assert(s[1] == pad2(h)[1]);
    assert(s[2] == ':');
    assert(s[3] == pad2(m)[0]);
    assert(s[4] == pad2(m)[1]);
    assert(trim_start(s) == s);
    assert(trim_end(s) == s);
    lemma_find_unique(s, ':', 2);
    assert(s.subrange(0, 2) =~= pad2(h));
    assert(s.subrange(3, 5) =~= pad2(m));
}

/// Whether the display should be awake at `now` (minutes since midnight)
/// given a quiet window `[sleep, wake)`; the window wraps past midnight when
/// `sleep > wake`, and equal endpoints mean an empty window.
pub open spec fn awake_spec(sleep: int, wake: int, now: int) -> bool {
    if sleep < wake {
        !(sleep <= now && now < wake)
    } else if sleep > wake {
        !(now >= sleep || now < wake)
    } else {
        true
    }
}

pub fn desired_awake_at(sleep: u16, wake: u16, now: u16) -> (awake: bool)
    ensures
        awake == awake_spec(sleep as int, wake as int, now as int),
{
    let asleep = if sleep < wake {
        now >= sleep && now < wake
    } else if sleep > wake {
        now >= sleep || now < wake
    } else {
        false
    };
    !asleep
}

/// Swapping the ends of a non-empty quiet window turns every sleeping minute
/// into a waking one and vice versa.
pub proof fn lemma_swapped_window_complements(sleep: u16, wake: u16, now: u16)
    requires
        sleep != wake,
    ensures
        awake_spec(sleep as int, wake as int, now as int) == !awake_spec(
            wake as int,
            sleep as int,
            now as int,
        ),
{
}

/// The quiet window includes its start and excludes its end: at the sleep
/// minute the display sleeps, at the wake minute it is awake (for any
/// non-empty window, wrapping or not).
pub proof fn lemma_window_bounds(sleep: u16, wake: u16)
    requires
        sleep != wake,
    ensures
        !awake_spec(sleep as int, wake as int, sleep as int),
        awake_spec(sleep as int, wake as int, wake as int),
{
}

/// Whether the display should be awake: asleep during quiet hours, else as
/// presence says when known, else as the schedule says (`None`: nothing
/// governs it).
pub open spec fn combined_spec(schedule_awake: Option<bool>, present: Option<bool>) -> Option<
    bool,
> {
    if schedule_awake == Some(false) {
        Some(false)
    } else if present is Some {
        present
    } else {
        schedule_awake
    }
}

/// Quiet hours are a hard override: asleep by schedule is asleep whatever
/// presence says; outside them a presence reading governs; with neither the
/// schedule's verdict (or nothing) stands.
pub proof fn lemma_quiet_hours_override(schedule_awake: Option<bool>, present: Option<bool>)
    ensures
        schedule_awake == Some(false) ==> combined_spec(schedule_awake, present) == Some(false),
        schedule_awake != Some(false) && present is Some ==> combined_spec(schedule_awake, present) == present,
        present is None ==> combined_spec(schedule_awake, present) == schedule_awake,
{
}

pub fn combined_desired_awake(schedule_awake: Option<bool>, present: Option<bool>) -> (r: Option<
    bool,
>)
    ensures
        r == combined_spec(schedule_awake, present),
{
    if schedule_awake == Some(false) {
        return Some(false);
    }
    if let Some(p) = present {
        return Some(p);
    }
    schedule_awake
}

/// The quiet-hours verdict of one kiosk row: governed only when the schedule
/// is enabled and both stored times parse to distinct minutes.
pub open spec fn schedule_verdict_spec(
    enabled: bool,
    sleep_at: Option<Seq<char>>,
    wake_at: Option<Seq<char>>,
    now_min: u16,
) -> Option<bool> {
    if !enabled {
        None
    } else {
        let s = match sleep_at {
            Some(t) => hhmm_spec(t),
            None => None,
        };
        let w = match wake_at {
            Some(t) => hhmm_spec(t),
            None => None,
        };
        match (s, w) {
            (Some(s), Some(w)) => if s != w {
                Some(awake_spec(s as int, w as int, now_min as int))
            } else {
                None
            },
            _ => None,
        }
    }
}

pub open spec fn opt_view(o: Option<&str>) -> Option<Seq<char>> {
    match o {
        Some(s) => Some(s@),
        None => None,
    }
}

pub fn schedule_verdict(
    enabled: bool,
    sleep_at: Option<&str>,
    wake_at: Option<&str>,
    now_min: u16,
) -> (r: Option<bool>)
    ensures
        r == schedule_verdict_spec(enabled, opt_view(sleep_at), opt_view(wake_at), now_min),
{
    if !enabled {
        return None;
    }
    let s = match sleep_at {
        Some(t) => parse_hhmm(t),
        None => None,
    };
    let w = match wake_at {
        Some(t) => parse_hhmm(t),
        None => None,
    };
    match (s, w) {
        (Some(s), Some(w)) => {
            if s != w {
                Some(desired_awake_at(s, w, now_min))
            } else {
                None
            }
        },
        _ => None,
    }
}

/// The presence verdict of one kiosk row: governed only when presence is
/// enabled, a room is assigned, and the room's occupancy is known; an empty
/// room stays "present" while the last occupied sighting is within the grace.
pub open spec fn presence_verdict_spec(
    enabled: bool,
    has_room: bool,
    occupancy: Option<bool>,
    seen_within_grace: bool,
) -> Option<bool> {
    if !enabled || !has_room {
        None
    } else {
        match occupancy {
            Some(true) => Some(true),
            Some(false) => Some(seen_within_grace),
            None => None,
        }
    }
}

pub fn presence_verdict(
    enabled: bool,
    has_room: bool,
    occupancy: Option<bool>,
    seen_within_grace: bool,
) -> (r: Option<bool>)
    ensures
        r == presence_verdict_spec(enabled, has_room, occupancy, seen_within_grace),
{
    if !enabled || !has_room {
        return None;
    }
    match occupancy {
        Some(true) => Some(true),
        Some(false) => Some(seen_within_grace),
        None => None,
    }
}

/// The display-power commands the scheduler sends.
#[derive(Clone, Copy, Debug, PartialEq, Eq)]
pub enum DisplayCommand {
    Sleep,
    Wake,
}

impl DisplayCommand {
    pub open spec fn text(self) -> Seq<char> {
        match self {
            DisplayCommand::Sleep => seq!['s', 'l', 'e', 'e', 'p'],
            DisplayCommand::Wake => seq!['w', 'a', 'k', 'e'],
        }
    }

    /// The wire name of the command.
    pub fn as_string(self) -> (s: String)
        ensures
            s@ == self.text(),
    {
        let v: Vec<char> = match self {
            DisplayCommand::Sleep => vec!['s', 'l', 'e', 'e', 'p'],
            DisplayCommand::Wake => vec!['w', 'a', 'k', 'e'],
        };
        string_of(&v)
    }
}

/// What one scheduler tick decides for one kiosk.
#[derive(Clone, Copy, Debug, PartialEq, Eq)]
pub struct KioskTick {
    /// Whether either policy governs the kiosk (it stays tracked).
    pub governed: bool,
    /// The desired display state, when governed.
    pub desired: Option<bool>,
    /// The command to queue: only on a change of the desired state.
    pub command: Option<DisplayCommand>,
}

/// The command one tick sends: `wake`/`sleep` only when the combined
/// verdict is governed and differs from the last one sent.
pub open spec fn tick_command_spec(
    last_desired: Option<bool>,
    schedule_awake: Option<bool>,
    present: Option<bool>,
) -> Option<DisplayCommand> {
    match combined_spec(schedule_awake, present) {
        Some(awake) => if last_desired == Some(awake) {
            None
        } else if awake {
            Some(DisplayCommand::Wake)
        } else {
            Some(DisplayCommand::Sleep)
        },
        None => None,
    }
}

/// The scheduler's edge-triggered step for one kiosk: combine the verdicts,
/// and send `wake`/`sleep` only when the desired state differs from the last
/// one sent (`last_desired`).
pub fn kiosk_tick(last_desired: Option<bool>, schedule_awake: Option<bool>, present: Option<bool>) -> (t: KioskTick)
    ensures
        t.desired == combined_spec(schedule_awake, present),
        t.governed == (combined_spec(schedule_awake, present) is Some),
        t.command == tick_command_spec(last_desired, schedule_awake, present),
{
    match combined_desired_awake(schedule_awake, present) {
        None => KioskTick { governed: false, desired: None, command: None },
        Some(awake) => {
            let command = if last_desired == Some(awake) {
                None
            } else if awake {
                Some(DisplayCommand::Wake)
            } else {
                Some(DisplayCommand::Sleep)
            };
            KioskTick { governed: true, desired: Some(awake), command }
        },
    }
}

/// Edge triggering: once a tick's desired state is recorded as the last one
/// sent, a tick with the same verdicts sends nothing, and a governed kiosk
/// whose desired state changed always gets the matching command.
pub proof fn lemma_tick_is_edge_triggered(
    last_desired: Option<bool>,
    schedule_awake: Option<bool>,
    present: Option<bool>,
)
    ensures
        tick_command_spec(combined_spec(schedule_awake, present), schedule_awake, present) is None,
        match combined_spec(schedule_awake, present) {
            Some(a) => last_desired != Some(a) ==> tick_command_spec(
                last_desired,
                schedule_awake,
                present,
            ) == Some(
                if a {
                    DisplayCommand::Wake
                } else {
                    DisplayCommand::Sleep
                },
            ),
            None => true,
        },
{
}

/// The presence grace clamp of `PUT …/presence`: `[30, 3600]` seconds.
pub fn clamp_presence_timeout(secs: i64) -> (r: i64)
    ensures
        r == (if secs < 30 {
            30
        } else if secs > 3600 {
            3600
        } else {
            secs
        }),
{
    if secs < 30 {
        30
    } else if secs > 3600 {
        3600
    } else {
        secs
    }
}

/// The stored presence timeout as a grace duration in seconds (negatives
/// read as zero).
pub fn presence_grace_secs(stored: i64) -> (r: u64)
    ensures
        r == (if stored < 0 {
            0
        } else {
            stored
        }),
{
    if stored < 0 {
        0
    } else {
        stored as u64
    }
}

/// Why `PUT …/schedule` is refused.
#[derive(Clone, Copy, Debug, PartialEq, Eq)]
pub enum ScheduleError {
    /// An enabled schedule needs distinct, valid "HH:MM" times.
    NeedsDistinctTimes,
}

pub open spec fn opt_hhmm(o: Option<Seq<char>>) -> Option<u16> {
    match o {
        Some(t) => hhmm_spec(t),
        None => None,
    }
}

pub open spec fn opt_fmt(o: Option<u16>) -> Option<Seq<char>> {
    match o {
        Some(m) => Some(fmt_spec(m as nat)),
        None => None,
    }
}

pub open spec fn opt_string_view(o: Option<String>) -> Option<Seq<char>> {
    match o {
        Some(s) => Some(s@),
        None => None,
    }
}

/// `PUT …/schedule`: both times are parsed and re-formatted zero-padded; an
/// enabled schedule must have two valid, distinct times (a disabled one keeps
/// whatever parsed).
pub fn normalize_schedule(enabled: bool, sleep_at: Option<&str>, wake_at: Option<&str>) -> (r:
    Result<(Option<String>, Option<String>), ScheduleError>)
    ensures
        ({
            let s = opt_hhmm(opt_view(sleep_at));
            let w = opt_hhmm(opt_view(wake_at));
            let ok = !enabled || (s is Some && w is Some && s != w);
            match r {
                Ok((ns, nw)) => ok && opt_string_view(ns) == opt_fmt(s) && opt_string_view(nw)
                    == opt_fmt(w),
                Err(_) => !ok,
            }
        }),
{
    let s = match sleep_at {
        Some(t) => parse_hhmm(t),
        None => None,
    };
    let w = match wake_at {
        Some(t) => parse_hhmm(t),
        None => None,
    };
    let ok = match (s, w) {
        (Some(a), Some(b)) => a != b,
        _ => false,
    };
    if enabled && !ok {
        return Err(ScheduleError::NeedsDistinctTimes);
    }
    let ns = match s {
        Some(m) => Some(fmt_hhmm(m)),
        None => None,
    };
    let nw = match w {
        Some(m) => Some(fmt_hhmm(m)),
        None => None,
    };
    Ok((ns, nw))
}

/// The commands a kiosk performs on check-in.
pub open spec fn valid_command_spec(c: Seq<char>) -> bool {
    c == seq!['s', 'l', 'e', 'e', 'p'] || c == seq!['w', 'a', 'k', 'e'] || c == seq![
        'l',
        'o',
        'c',
        'k',
    ] || c == seq!['u', 'p', 'd', 'a', 't', 'e']
}

/// `POST …/command`: the trimmed command, when it is one of `sleep`, `wake`,
/// `lock`, `update`.
pub fn validate_command(cmd: &str) -> (r: Option<String>)
    ensures
        r matches Some(c) ==> c@ == trim(cmd@) && valid_command_spec(c@),
        r is None ==> !valid_command_spec(trim(cmd@)),
{
    let v = chars_of(cmd);
    let (lo, hi) = trim_bounds(&v, 0, v.len());
    assert(v@.subrange(0, v@.len() as int) =~= v@);
    let sleep: Vec<char> = vec!['s', 'l', 'e', 'e', 'p'];
    let wake: Vec<char> = vec!['w', 'a', 'k', 'e'];
    let lock: Vec<char> = vec!['l', 'o', 'c', 'k'];
    let update: Vec<char> = vec!['u', 'p', 'd', 'a', 't', 'e'];
    if range_eq(&v, lo, hi, &sleep) || range_eq(&v, lo, hi, &wake) || range_eq(&v, lo, hi, &lock)
        || range_eq(&v, lo, hi, &update) {
        Some(string_of_range(&v, lo, hi))
    } else {
        None
    }
}

/// The check-in label: the trimmed app-sent name when non-blank, else the
/// API key's name, else "Kiosk".
pub fn checkin_label(name: Option<&str>, key_name: Option<String>) -> (r: String)
    ensures
        r@ == (match name {
            Some(n) if trim(n@).len() > 0 => trim(n@),
            _ => match key_name {
                Some(k) => k@,
                None => seq!['K', 'i', 'o', 's', 'k'],
            },
        }),
{
    if let Some(n) = name {
        let v = chars_of(n);
        let (lo, hi) = trim_bounds(&v, 0, v.len());
        assert(v@.subrange(0, v@.len() as int) =~= v@);
        if lo < hi {
            return string_of_range(&v, lo, hi);
        }
    }
    match key_name {
        Some(k) => k,
        None => {
            let d: Vec<char> = vec!['K', 'i', 'o', 's', 'k'];
            string_of(&d)
        },
    }
}

// ── The scheduler across ticks ──────────────────────────────────────────────

/// What the display scheduler remembers between ticks: per governed kiosk,
/// the last display state it successfully queued.
pub struct SchedulerMemory {
    pub last: Vec<(String, bool)>,
}

/// A tick's verdicts list each kiosk once.
pub open spec fn unique_kiosks(v: Seq<(String, Option<bool>)>) -> bool {
    forall|i: int, j: int| 0 <= i < j < v.len() ==> (#[trigger] v[i]).0@ != (#[trigger] v[j]).0@
}

/// The command a tick owes a kiosk whose combined verdict is `v.1`: the
/// verdict when it governs and differs from what was last queued.
pub open spec fn command_for(last: Seq<(String, bool)>, v: (String, Option<bool>)) -> Option<bool> {
    match v.1 {
        Some(a) => if lookup_prev(last, v.0@) == Some(a) { None } else { Some(a) },
        None => None,
    }
}

/// What the scheduler remembers of kiosk `id` after a tick over the first
/// `n` verdicts: nothing for an ungoverned or absent kiosk; for a governed
/// one, the state just queued when queueing succeeded, else what it
/// remembered before.
pub open spec fn settled_upto(last: Seq<(String, bool)>, verdicts: Seq<(String, Option<bool>)>, sent: Seq<bool>, n: int, id: Seq<char>) -> Option<bool> {
    if exists|j: int| 0 <= j < n && #[trigger] verdicts[j].0@ == id {
        let j = choose|j: int| 0 <= j < n && #[trigger] verdicts[j].0@ == id;
        match verdicts[j].1 {
            Some(a) => if sent[j] { Some(a) } else { lookup_prev(last, id) },
            None => None,
        }
    } else {
        None
    }
}

/// Kiosk `id` is among the first `n` verdicts.
pub open spec fn listed_before(verdicts: Seq<(String, Option<bool>)>, n: int, id: Seq<char>) -> bool {
    exists|j: int| 0 <= j < n && (#[trigger] verdicts[j]).0@ == id
}

proof fn lemma_lookup_at(p: Seq<(String, bool)>, i: int)
    requires
        unique_ids(p),
        0 <= i < p.len(),
    ensures
        lookup_prev(p, p[i].0@) == Some(p[i].1),
{
    let id = p[i].0@;
    assert(p[i].0@ == id);
    let c = choose|c: int| 0 <= c < p.len() && (#[trigger] p[c]).0@ == id;
    if c != i {
        if c < i {
            assert(p[c].0@ != p[i].0@);
        } else {
            assert(p[i].0@ != p[c].0@);
        }
    }
}

proof fn lemma_lookup_push(p: Seq<(String, bool)>, key: String, v: bool)
    requires
        unique_ids(p),
        forall|k: int| 0 <= k < p.len() ==> (#[trigger] p[k]).0@ != key@,
    ensures
        unique_ids(p.push((key, v))),
        forall|id: Seq<char>| #[trigger] lookup_prev(p.push((key, v)), id) == if id == key@ { Some(v) } else { lookup_prev(p, id) },
{
    let q = p.push((key, v));
    assert forall|a: int, b: int| 0 <= a < b < q.len() implies (#[trigger] q[a]).0@ != (#[trigger] q[b]).0@ by {
        assert(q[a] == p[a]);
        if b < p.len() {
            assert(q[b] == p[b]);
        }
    }
    assert forall|id: Seq<char>| #[trigger] lookup_prev(q, id) == if id == key@ { Some(v) } else { lookup_prev(p, id) } by {
        if id == key@ {
            lemma_lookup_at(q, p.len() as int);
        } else if exists|j: int| 0 <= j < p.len() && (#[trigger] p[j]).0@ == id {
            let j = choose|j: int| 0 <= j < p.len() && (#[trigger] p[j]).0@ == id;
            assert(q[j] == p[j]);
            lemma_lookup_at(p, j);
            lemma_lookup_at(q, j);
        } else {
            assert forall|j: int| 0 <= j < q.len() implies (#[trigger] q[j]).0@ != id by {
                if j < p.len() {
                    assert(q[j] == p[j]);
                }
            }
        }
    }
}

proof fn lemma_settle_step(
    last: Seq<(String, bool)>,
    verdicts: Seq<(String, Option<bool>)>,
    sent: Seq<bool>,
    i: int,
    next0: Seq<(String, bool)>,
    next1: Seq<(String, bool)>,
)
    requires
        unique_kiosks(verdicts),
        0 <= i < verdicts.len(),
        unique_ids(next0),
        forall|k: int| 0 <= k < next0.len() ==> listed_before(verdicts, i, (#[trigger] next0[k]).0@),
        forall|id: Seq<char>| #[trigger] lookup_prev(next0, id) == settled_upto(last, verdicts, sent, i, id),
        next1 == ({
            let val = match verdicts[i].1 {
                Some(a) => if sent[i] { Some(a) } else { lookup_prev(last, verdicts[i].0@) },
                None => None,
            };
            match val {
                Some(b) => next0.push((verdicts[i].0, b)),
                None => next0,
            }
        }),
    ensures
        unique_ids(next1),
        forall|k: int| 0 <= k < next1.len() ==> listed_before(verdicts, i + 1, (#[trigger] next1[k]).0@),
        forall|id: Seq<char>| #[trigger] lookup_prev(next1, id) == settled_upto(last, verdicts, sent, i + 1, id),
{
    let key = verdicts[i].0;
    assert forall|k: int| 0 <= k < next0.len() implies (#[trigger] next0[k]).0@ != key@ by {
        let j = choose|j: int| 0 <= j < i && (#[trigger] verdicts[j]).0@ == next0[k].0@;
        assert(verdicts[j].0@ != verdicts[i].0@);
    }
    let val = match verdicts[i].1 {
        Some(a) => if sent[i] { Some(a) } else { lookup_prev(last, verdicts[i].0@) },
        None => None,
    };
    if let Some(b) = val {
        lemma_lookup_push(next0, key, b);
    }
    assert forall|k: int| 0 <= k < next1.len() implies listed_before(verdicts, i + 1, (#[trigger] next1[k]).0@) by {
        if k < next0.len() {
            assert(next1[k] == next0[k]);
            let j = choose|j: int| 0 <= j < i && (#[trigger] verdicts[j]).0@ == next0[k].0@;
            assert(verdicts[j].0@ == next1[k].0@);
        } else {
            assert(verdicts[i].0@ == next1[k].0@);
        }
    }
    assert forall|id: Seq<char>| #[trigger] lookup_prev(next1, id) == settled_upto(last, verdicts, sent, i + 1, id) by {
        if id == key@ {
            assert(verdicts[i].0@ == id);
            let c = choose|j: int| 0 <= j < i + 1 && #[trigger] verdicts[j].0@ == id;
            if c != i {
                assert(verdicts[c].0@ != verdicts[i].0@);
            }
            assert(!exists|j: int| 0 <= j < i && #[trigger] verdicts[j].0@ == id) by {
                if exists|j: int| 0 <= j < i && #[trigger] verdicts[j].0@ == id {
                    let j = choose|j: int| 0 <= j < i && #[trigger] verdicts[j].0@ == id;
                    assert(verdicts[j].0@ != verdicts[i].0@);
                }
            }
            assert(lookup_prev(next0, id) == None::<bool>);
        } else {
            assert(lookup_prev(next1, id) == lookup_prev(next0, id));
            if exists|j: int| 0 <= j < i && #[trigger] verdicts[j].0@ == id {
                let a = choose|j: int| 0 <= j < i && #[trigger] verdicts[j].0@ == id;
                assert(0 <= a < i + 1 && verdicts[a].0@ == id);
                let b = choose|j: int| 0 <= j < i + 1 && #[trigger] verdicts[j].0@ == id;
                if a != b {
                    if a < b {
                        assert(verdicts[a].0@ != verdicts[b].0@);
                    } else {
                        assert(verdicts[b].0@ != verdicts[a].0@);
                    }
                }
            } else {
                assert(!exists|j: int| 0 <= j < i + 1 && #[trigger] verdicts[j].0@ == id) by {
                    if exists|j: int| 0 <= j < i + 1 && #[trigger] verdicts[j].0@ == id {
                        let j = choose|j: int| 0 <= j < i + 1 && #[trigger] verdicts[j].0@ == id;
                        assert(j != i);
                    }
                }
            }
        }
    }
}

/// Across ticks the scheduler acts on changes only: after a tick, a kiosk
/// whose verdict was queued (or already remembered) is not sent it again
/// while the verdict holds; one whose queueing failed is owed it again; and
/// a kiosk that was not governed is forgotten, so its next verdict is sent.
pub proof fn lemma_scheduler_memory(
    last: Seq<(String, bool)>,
    verdicts: Seq<(String, Option<bool>)>,
    sent: Seq<bool>,
    next: Seq<(String, bool)>,
    i: int,
)
    requires
        unique_kiosks(verdicts),
        sent.len() == verdicts.len(),
        0 <= i < verdicts.len(),
        forall|id: Seq<char>| #[trigger] lookup_prev(next, id) == settled_upto(last, verdicts, sent, verdicts.len() as int, id),
    ensures
        verdicts[i].1 is Some && (sent[i] || command_for(last, verdicts[i]) is None) ==> command_for(next, verdicts[i]) is None,
        verdicts[i].1 is Some && !sent[i] ==> command_for(next, verdicts[i]) == command_for(last, verdicts[i]),
        verdicts[i].1 is None ==> lookup_prev(next, verdicts[i].0@) is None,
{
    let id = verdicts[i].0@;
    assert(verdicts[i].0@ == id);
    let c = choose|j: int| 0 <= j < verdicts.len() && #[trigger] verdicts[j].0@ == id;
    if c != i {
        if c < i {
            assert(verdicts[c].0@ != verdicts[i].0@);
        } else {
            assert(verdicts[i].0@ != verdicts[c].0@);
        }
    }
    assert(lookup_prev(next, id) == settled_upto(last, verdicts, sent, verdicts.len() as int, id));
}

/// One tick's effect on what is remembered of kiosk `id`, given what was
/// remembered before (`before`): a governed kiosk's state once queued, the
/// old memory when queueing failed, nothing for a kiosk not governed.
pub open spec fn settled_from(before: Option<bool>, verdicts: Seq<(String, Option<bool>)>, sent: Seq<bool>, id: Seq<char>) -> Option<bool> {
    if exists|j: int| 0 <= j < verdicts.len() && #[trigger] verdicts[j].0@ == id {
        let j = choose|j: int| 0 <= j < verdicts.len() && #[trigger] verdicts[j].0@ == id;
        match verdicts[j].1 {
            Some(a) => if sent[j] { Some(a) } else { before },
            None => None,
        }
    } else {
        None
    }
}

/// What the scheduler remembers of kiosk `id` after the first `k` ticks
/// (verdicts and queue outcomes) of a run from memory `m0`: the last state
/// successfully queued for it while it stayed governed.
pub open spec fn remembered(m0: Seq<(String, bool)>, ticks: Seq<(Seq<(String, Option<bool>)>, Seq<bool>)>, k: nat, id: Seq<char>) -> Option<bool>
    decreases k,
{
    if k == 0 {
        lookup_prev(m0, id)
    } else {
        settled_from(remembered(m0, ticks, (k - 1) as nat, id), ticks[k - 1].0, ticks[k - 1].1, id)
    }
}

/// A run of ticks: memory `mems[k + 1]` is what `settle` leaves after tick
/// `k` on memory `mems[k]`.
pub open spec fn settled_run(mems: Seq<Seq<(String, bool)>>, ticks: Seq<(Seq<(String, Option<bool>)>, Seq<bool>)>) -> bool {
    &&& mems.len() == ticks.len() + 1
    &&& forall|k: int, id: Seq<char>| 0 <= k < ticks.len() ==> #[trigger] lookup_prev(mems[k + 1], id) == settled_upto(mems[k], (#[trigger] ticks[k]).0, ticks[k].1, ticks[k].0.len() as int, id)
}

proof fn lemma_remembered_upto(mems: Seq<Seq<(String, bool)>>, ticks: Seq<(Seq<(String, Option<bool>)>, Seq<bool>)>, k: nat, id: Seq<char>)
    requires
        settled_run(mems, ticks),
        k <= ticks.len(),
    ensures
        lookup_prev(mems[k as int], id) == remembered(mems[0], ticks, k, id),
    decreases k,
{
    if k > 0 {
        lemma_remembered_upto(mems, ticks, (k - 1) as nat, id);
        let j: int = k - 1;
        assert(lookup_prev(mems[j + 1], id) == settled_upto(mems[j], ticks[j].0, ticks[j].1, ticks[j].0.len() as int, id));
        assert(j + 1 == k as int);
    }
}

/// The scheduler over a run of ticks: what it remembers of a kiosk is the
/// last display state successfully queued for it while it stayed governed
/// (a kiosk that stops being governed is forgotten, a failed send leaves
/// the memory as it was), and the next tick queues a command for a kiosk
/// exactly when its verdict governs and differs from that state.
pub proof fn lemma_scheduler_run(mems: Seq<Seq<(String, bool)>>, ticks: Seq<(Seq<(String, Option<bool>)>, Seq<bool>)>)
    requires
        settled_run(mems, ticks),
    ensures
        forall|id: Seq<char>| #[trigger] lookup_prev(mems.last(), id) == remembered(mems[0], ticks, ticks.len(), id),
        forall|v: (String, Option<bool>)| #[trigger] command_for(mems.last(), v) == match v.1 {
            Some(a) => if remembered(mems[0], ticks, ticks.len(), v.0@) == Some(a) { None } else { Some(a) },
            None => None,
        },
{
    assert forall|id: Seq<char>| #[trigger] lookup_prev(mems.last(), id) == remembered(mems[0], ticks, ticks.len(), id) by {
        lemma_remembered_upto(mems, ticks, ticks.len(), id);
    }
    assert forall|v: (String, Option<bool>)| #[trigger] command_for(mems.last(), v) == match v.1 {
        Some(a) => if remembered(mems[0], ticks, ticks.len(), v.0@) == Some(a) { None } else { Some(a) },
        None => None,
    } by {
        lemma_remembered_upto(mems, ticks, ticks.len(), v.0@);
    }
}

impl SchedulerMemory {
    /// Nothing remembered yet.
    pub fn new() -> (m: SchedulerMemory)
        ensures
            m.last@.len() == 0,
    {
        SchedulerMemory { last: Vec::new() }
    }

    /// Per verdict, the display command to queue this tick: wake
    /// (`Some(true)`), sleep (`Some(false)`) or none.
    pub fn commands(&self, verdicts: &Vec<(String, Option<bool>)>) -> (r: Vec<Option<bool>>)
        requires
            unique_ids(self.last@),
        ensures
            r@.len() == verdicts@.len(),
            forall|i: int| 0 <= i < verdicts@.len() ==> #[trigger] r@[i] == command_for(self.last@, verdicts@[i]),
    {
        let mut out: Vec<Option<bool>> = Vec::new();
        let mut i: usize = 0;
        while i < verdicts.len()
            invariant
                i <= verdicts@.len(),
                unique_ids(self.last@),
                out@.len() == i,
                forall|k: int| 0 <= k < i ==> #[trigger] out@[k] == command_for(self.last@, verdicts@[k]),
            decreases verdicts@.len() - i,
        {
            let c = match verdicts[i].1 {
                Some(a) => {
                    if find_prev(&self.last, verdicts[i].0.as_str()) == Some(a) {
                        None
                    } else {
                        Some(a)
                    }
                },
                None => None,
            };
            out.push(c);
            i = i + 1;
        }
        out
    }

    /// End a tick: `sent[i]` says whether kiosk `i`'s command was queued.
    /// A queued state is remembered; a failed one leaves the old memory so
    /// the next tick retries; kiosks not governed this tick are forgotten,
    /// so one governed again is reconciled afresh.
    pub fn settle(&mut self, verdicts: &Vec<(String, Option<bool>)>, sent: &Vec<bool>)
        requires
            unique_ids(old(self).last@),
            unique_kiosks(verdicts@),
            sent@.len() == verdicts@.len(),
        ensures
            unique_ids(final(self).last@),
            forall|id: Seq<char>| #[trigger] lookup_prev(final(self).last@, id) == settled_upto(old(self).last@, verdicts@, sent@, verdicts@.len() as int, id),
    {
        let ghost last = self.last@;
        let mut next: Vec<(String, bool)> = Vec::new();
        let mut i: usize = 0;
        while i < verdicts.len()
            invariant
                i <= verdicts@.len(),
                self.last@ == last,
                unique_ids(last),
                unique_kiosks(verdicts@),
                sent@.len() == verdicts@.len(),
                unique_ids(next@),
                forall|k: int| 0 <= k < next@.len() ==> listed_before(verdicts@, i as int, (#[trigger] next@[k]).0@),
                forall|id: Seq<char>| #[trigger] lookup_prev(next@, id) == settled_upto(last, verdicts@, sent@, i as int, id),
            decreases verdicts@.len() - i,
        {
            let ghost next0 = next@;
            let val = match verdicts[i].1 {
                Some(a) => {
                    if sent[i] {
                        Some(a)
                    } else {
                        find_prev(&self.last, verdicts[i].0.as_str())
                    }
                },
                None => None,
            };
            if let Some(b) = val {
                next.push((verdicts[i].0.clone(), b));
            }
            proof {
                lemma_settle_step(last, verdicts@, sent@, i as int, next0, next@);
            }
            i = i + 1;
        }
        self.last = next;
    }
}

} // verus!
