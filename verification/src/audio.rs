//! Audio devices: the overlay of a companion's state onto its primary, the
//! receiver volume overlay of a device list, the routing of one command
//! across a composite's backings, and the checks on a companion link.
use vstd::prelude::*;
use crate::media::{NowPlaying, union_append, union_into, views, GroupOutcome, map_group_result as map_media_group_result};
use crate::routing::{MediaCommand, Targets, assemble_parts, assembled, targets_of};
use crate::text::str_eq;

verus! {

/// An audio command is the same sparse command as a media one.
pub type AudioCommand = MediaCommand;

/// The capabilities an audio device offers.
#[derive(Clone, Copy, Debug, PartialEq, Eq, Structural)]
pub struct AudioCapabilities {
    pub transport: bool,
    pub sources: bool,
    pub favorites: bool,
    pub now_playing: bool,
}

impl Default for AudioCapabilities {
    fn default() -> (c: AudioCapabilities)
        ensures
            !c.transport && !c.sources && !c.favorites && !c.now_playing,
    {
        AudioCapabilities { transport: false, sources: false, favorites: false, now_playing: false }
    }
}

/// An audio device's cached state.
#[derive(Debug, PartialEq, Eq)]
pub struct AudioState {
    pub power: bool,
    pub reachable: Option<bool>,
    pub volume: u8,
    pub mute: bool,
    pub source: Option<String>,
    pub source_list: Vec<String>,
    pub now_playing: Option<NowPlaying>,
}

/// One audio device as the API returns it.
pub struct AudioDeviceRow {
    pub id: String,
    pub provider_id: String,
    pub device_id: String,
    pub name: String,
    pub kind: String,
    pub capabilities: AudioCapabilities,
    pub state: AudioState,
    pub last_seen: Option<String>,
    pub enabled: bool,
    pub glyph: Option<String>,
    pub hw_id: Option<String>,
    pub shadowed_by: Option<String>,
    pub shadow_auto: bool,
    pub room_id: Option<String>,
    /// The audio device whose volume/mute this source routes to.
    pub receiver_id: Option<String>,
    /// The receiver input to select when this source becomes active.
    pub receiver_source: Option<String>,
    /// The primary this device is merged into as a companion, if any.
    pub companion_of: Option<String>,
}

fn clone_opt(o: &Option<String>) -> (r: Option<String>)
    ensures
        r == *o,
{
    match o {
        Some(s) => Some(s.clone()),
        None => None,
    }
}

fn clone_now_playing(o: &Option<NowPlaying>) -> (r: Option<NowPlaying>)
    ensures
        r == *o,
{
    match o {
        Some(n) => Some(
            NowPlaying {
                title: clone_opt(&n.title),
                artist: clone_opt(&n.artist),
                album: clone_opt(&n.album),
                play_state: n.play_state,
            },
        ),
        None => None,
    }
}

/// The state half of the companion overlay.
pub open spec fn merged_audio_state(o: AudioState, n: AudioState, c: AudioState) -> bool {
    &&& n.now_playing == (if o.now_playing is None {
        c.now_playing
    } else {
        o.now_playing
    })
    &&& n.source == (if o.source is None {
        c.source
    } else {
        o.source
    })
    &&& views(n.source_list@) == union_append(views(o.source_list@), views(c.source_list@))
    &&& n.power == o.power && n.reachable == o.reachable && n.volume == o.volume && n.mute == o.mute
}

fn merge_audio_state(primary: &mut AudioState, companion: &AudioState)
    ensures
        merged_audio_state(*old(primary), *final(primary), *companion),
{
    if primary.now_playing.is_none() {
        primary.now_playing = clone_now_playing(&companion.now_playing);
    }
    if primary.source.is_none() {
        primary.source = clone_opt(&companion.source);
    }
    union_into(&mut primary.source_list, &companion.source_list);
}

/// `n` is the primary `o` with the companion `c` overlaid: the state as
/// `merged_audio_state` says, a missing receiver binding taken from the
/// companion, the union of capabilities, everything else kept.
pub open spec fn row_merged(o: AudioDeviceRow, n: AudioDeviceRow, c: AudioDeviceRow) -> bool {
    &&& merged_audio_state(o.state, n.state, c.state)
    &&& (if o.receiver_id is None {
        n.receiver_id == c.receiver_id && n.receiver_source == c.receiver_source
    } else {
        n.receiver_id == o.receiver_id && n.receiver_source == o.receiver_source
    })
    &&& n.capabilities.transport == (o.capabilities.transport || c.capabilities.transport)
    &&& n.capabilities.sources == (o.capabilities.sources || c.capabilities.sources)
    &&& n.capabilities.favorites == (o.capabilities.favorites || c.capabilities.favorites)
    &&& n.capabilities.now_playing == (o.capabilities.now_playing || c.capabilities.now_playing)
    &&& n.id == o.id && n.provider_id == o.provider_id && n.device_id == o.device_id
    &&& n.name == o.name && n.kind == o.kind && n.last_seen == o.last_seen && n.enabled == o.enabled
    &&& n.glyph == o.glyph && n.hw_id == o.hw_id && n.shadowed_by == o.shadowed_by
    &&& n.shadow_auto == o.shadow_auto && n.room_id == o.room_id && n.companion_of == o.companion_of
}

/// Overlay a companion's complementary state onto its primary: a missing
/// now-playing and source, the union of source lists, a missing receiver
/// binding, and the union of capabilities.
pub fn merge_companion_into(primary: &mut AudioDeviceRow, companion: &AudioDeviceRow)
    ensures
        row_merged(*old(primary), *final(primary), *companion),
{
    merge_audio_state(&mut primary.state, &companion.state);
    if primary.receiver_id.is_none() {
        primary.receiver_id = clone_opt(&companion.receiver_id);
        primary.receiver_source = clone_opt(&companion.receiver_source);
    }
    primary.capabilities.transport = primary.capabilities.transport || companion.capabilities.transport;
    primary.capabilities.sources = primary.capabilities.sources || companion.capabilities.sources;
    primary.capabilities.favorites = primary.capabilities.favorites || companion.capabilities.favorites;
    primary.capabilities.now_playing = primary.capabilities.now_playing || companion.capabilities.now_playing;
}

/// The index of the last device of `devs` with the id `id`, if any.
pub open spec fn last_with_id(devs: Seq<AudioDeviceRow>, id: Seq<char>) -> Option<int>
    decreases devs.len(),
{
    if devs.len() == 0 {
        None
    } else if devs.last().id@ == id {
        Some(devs.len() - 1)
    } else {
        last_with_id(devs.drop_last(), id)
    }
}

fn find_last_id(devs: &Vec<AudioDeviceRow>, id: &str) -> (r: Option<usize>)
    ensures
        match r {
            Some(k) => last_with_id(devs@, id@) == Some(k as int) && k < devs@.len(),
            None => last_with_id(devs@, id@) is None,
        },
{
    let mut i: usize = devs.len();
    assert(devs@.subrange(0, devs@.len() as int) =~= devs@);
    while i > 0
        invariant
            i <= devs@.len(),
            last_with_id(devs@, id@) == last_with_id(devs@.subrange(0, i as int), id@),
        decreases i,
    {
        let ghost pre = devs@.subrange(0, i as int);
        assert(pre.drop_last() =~= devs@.subrange(0, i - 1));
        if str_eq(devs[i - 1].id.as_str(), id) {
            return Some(i - 1);
        }
        i = i - 1;
    }
    assert(devs@.subrange(0, 0) =~= Seq::<AudioDeviceRow>::empty());
    None
}

/// `n` is `o` with at most its volume and mute changed.
pub open spec fn same_but_volume(o: AudioDeviceRow, n: AudioDeviceRow) -> bool {
    &&& n.id == o.id && n.provider_id == o.provider_id && n.device_id == o.device_id
    &&& n.name == o.name && n.kind == o.kind && n.capabilities == o.capabilities
    &&& n.last_seen == o.last_seen && n.enabled == o.enabled && n.glyph == o.glyph
    &&& n.hw_id == o.hw_id && n.shadowed_by == o.shadowed_by && n.shadow_auto == o.shadow_auto
    &&& n.room_id == o.room_id && n.receiver_id == o.receiver_id
    &&& n.receiver_source == o.receiver_source && n.companion_of == o.companion_of
    &&& n.state.power == o.state.power && n.state.reachable == o.state.reachable
    &&& n.state.source == o.state.source && n.state.source_list == o.state.source_list
    &&& n.state.now_playing == o.state.now_playing
}

/// The volume and mute `o` shows in the list `devs`: its receiver's (the
/// last row with that id), else its own.
pub open spec fn shows_receiver_volume(devs: Seq<AudioDeviceRow>, o: AudioDeviceRow, n: AudioDeviceRow) -> bool {
    match o.receiver_id {
        Some(rid) => match last_with_id(devs, rid@) {
            Some(k) => n.state.volume == devs[k].state.volume && n.state.mute == devs[k].state.mute,
            None => n.state.volume == o.state.volume && n.state.mute == o.state.mute,
        },
        None => n.state.volume == o.state.volume && n.state.mute == o.state.mute,
    }
}

/// `n` is the list `o` with every bound source showing its receiver's
/// volume and mute.
pub open spec fn overlaid(o: Seq<AudioDeviceRow>, n: Seq<AudioDeviceRow>) -> bool {
    &&& n.len() == o.len()
    &&& forall|i: int| 0 <= i < o.len() ==> same_but_volume(#[trigger] o[i], n[i]) && shows_receiver_volume(o, o[i], n[i])
}

/// A bound source shows its receiver's volume and mute (the receiver owns
/// volume), taken from the receiver's row in the same list (the last row
/// with that id); a source whose receiver is not listed is left as it is.
pub fn overlay_receiver_volumes(devices: &mut Vec<AudioDeviceRow>)
    ensures
        overlaid(old(devices)@, final(devices)@),
{
    let ghost orig = devices@;
    // Snapshot every device's (volume, mute) before any is overwritten.
    let mut vm: Vec<(u8, bool)> = Vec::new();
    let mut j: usize = 0;
    while j < devices.len()
        invariant
            j <= devices@.len(),
            devices@ == orig,
            vm@.len() == j,
            forall|k: int| 0 <= k < j ==> #[trigger] vm@[k] == (orig[k].state.volume, orig[k].state.mute),
        decreases devices@.len() - j,
    {
        vm.push((devices[j].state.volume, devices[j].state.mute));
        j = j + 1;
    }
    let mut i: usize = 0;
    while i < devices.len()
        invariant
            devices@.len() == orig.len(),
            vm@.len() == orig.len(),
            i <= orig.len(),
            forall|k: int| 0 <= k < orig.len() ==> #[trigger] vm@[k] == (orig[k].state.volume, orig[k].state.mute),
            forall|k: int| i <= k < orig.len() ==> #[trigger] devices@[k] == orig[k],
            forall|k: int| 0 <= k < i ==> same_but_volume(#[trigger] orig[k], devices@[k]) && shows_receiver_volume(orig, orig[k], devices@[k]),
        decreases orig.len() - i,
    {
        let hit = match &devices[i].receiver_id {
            Some(rid) => {
                let found = find_last_id(devices, rid.as_str());
                proof {
                    // The ids are untouched so far, so the lookup sees the original list.
                    assert(forall|k: int| 0 <= k < orig.len() ==> (#[trigger] devices@[k]).id == orig[k].id);
                    lemma_same_ids_same_lookup(devices@, orig, rid@);
                }
                found
            },
            None => None,
        };
        match hit {
            Some(k) => {
                let (v, m) = vm[k];
                let mut d = devices.remove(i);
                d.state.volume = v;
                d.state.mute = m;
                devices.insert(i, d);
            },
            None => {},
        }
        i = i + 1;
    }
}

proof fn lemma_same_ids_same_lookup(a: Seq<AudioDeviceRow>, b: Seq<AudioDeviceRow>, id: Seq<char>)
    requires
        a.len() == b.len(),
        forall|k: int| 0 <= k < a.len() ==> (#[trigger] a[k]).id == b[k].id,
    ensures
        last_with_id(a, id) == last_with_id(b, id),
    decreases a.len(),
{
    if a.len() > 0 {
        assert(a.last().id == b.last().id);
        lemma_same_ids_same_lookup(a.drop_last(), b.drop_last(), id);
    }
}

// ── The device list ──────────────────────────────────────────────────────────

/// `b` is a copy of `a` (its source list equal element by element).
pub open spec fn row_copy(a: AudioDeviceRow, b: AudioDeviceRow) -> bool {
    &&& b.id == a.id && b.provider_id == a.provider_id && b.device_id == a.device_id
    &&& b.name == a.name && b.kind == a.kind && b.capabilities == a.capabilities
    &&& b.last_seen == a.last_seen && b.enabled == a.enabled && b.glyph == a.glyph
    &&& b.hw_id == a.hw_id && b.shadowed_by == a.shadowed_by && b.shadow_auto == a.shadow_auto
    &&& b.room_id == a.room_id && b.receiver_id == a.receiver_id
    &&& b.receiver_source == a.receiver_source && b.companion_of == a.companion_of
    &&& b.state.power == a.state.power && b.state.reachable == a.state.reachable
    &&& b.state.volume == a.state.volume && b.state.mute == a.state.mute
    &&& b.state.source == a.state.source && b.state.source_list@ == a.state.source_list@
    &&& b.state.now_playing == a.state.now_playing
}

pub(crate) fn clone_strings(v: &Vec<String>) -> (r: Vec<String>)
    ensures
        r@ == v@,
{
    let mut r: Vec<String> = Vec::new();
    let mut i: usize = 0;
    while i < v.len()
        invariant
            i <= v@.len(),
            r@ == v@.subrange(0, i as int),
        decreases v@.len() - i,
    {
        r.push(v[i].clone());
        i = i + 1;
        assert(r@ =~= v@.subrange(0, i as int));
    }
    assert(v@.subrange(0, v@.len() as int) =~= v@);
    r
}

fn clone_row(d: &AudioDeviceRow) -> (r: AudioDeviceRow)
    ensures
        row_copy(*d, r),
{
    AudioDeviceRow {
        id: d.id.clone(),
        provider_id: d.provider_id.clone(),
        device_id: d.device_id.clone(),
        name: d.name.clone(),
        kind: d.kind.clone(),
        capabilities: d.capabilities,
        state: AudioState {
            power: d.state.power,
            reachable: d.state.reachable,
            volume: d.state.volume,
            mute: d.state.mute,
            source: clone_opt(&d.state.source),
            source_list: clone_strings(&d.state.source_list),
            now_playing: clone_now_playing(&d.state.now_playing),
        },
        last_seen: clone_opt(&d.last_seen),
        enabled: d.enabled,
        glyph: clone_opt(&d.glyph),
        hw_id: clone_opt(&d.hw_id),
        shadowed_by: clone_opt(&d.shadowed_by),
        shadow_auto: d.shadow_auto,
        room_id: clone_opt(&d.room_id),
        receiver_id: clone_opt(&d.receiver_id),
        receiver_source: clone_opt(&d.receiver_source),
        companion_of: clone_opt(&d.companion_of),
    }
}

/// The companions of a list: its rows merged into another, in order.
pub open spec fn companions(devs: Seq<AudioDeviceRow>) -> Seq<AudioDeviceRow> {
    devs.filter(|d: AudioDeviceRow| d.companion_of is Some)
}

/// `k` is the first row of `devs` with the id `id`.
pub open spec fn is_first_id(devs: Seq<AudioDeviceRow>, id: Seq<char>, k: int) -> bool {
    0 <= k < devs.len() && devs[k].id@ == id && forall|j: int| 0 <= j < k ==> (#[trigger] devs[j]).id@ != id
}

/// One merge of the list assembly: the companion `c` is overlaid onto the
/// first row whose id it names; with no such row nothing changes.
pub open spec fn merge_step(a: Seq<AudioDeviceRow>, b: Seq<AudioDeviceRow>, c: AudioDeviceRow) -> bool {
    match c.companion_of {
        Some(pid) => if exists|k: int| is_first_id(a, pid@, k) {
            let t = choose|k: int| is_first_id(a, pid@, k);
            &&& b.len() == a.len()
            &&& forall|i: int| 0 <= i < a.len() && i != t ==> #[trigger] b[i] == a[i]
            &&& row_merged(a[t], b[t], c)
        } else {
            b == a
        },
        None => b == a,
    }
}

/// `end` is `start` with the companions `cs` merged in, one after another.
pub open spec fn merged_in_order(start: Seq<AudioDeviceRow>, cs: Seq<AudioDeviceRow>, end: Seq<AudioDeviceRow>) -> bool {
    exists|trace: Seq<Seq<AudioDeviceRow>>| {
        &&& trace.len() == cs.len() + 1
        &&& trace[0] == start
        &&& trace[cs.len() as int] == end
        &&& forall|k: int| 0 <= k < cs.len() ==> #[trigger] merge_step(trace[k], trace[k + 1], cs[k])
    }
}

fn companion_rows(devs: &Vec<AudioDeviceRow>) -> (r: Vec<AudioDeviceRow>)
    ensures
        r@.len() == companions(devs@).len(),
        forall|k: int| 0 <= k < r@.len() ==> row_copy(companions(devs@)[k], #[trigger] r@[k]),
{
    let ghost pred = |d: AudioDeviceRow| d.companion_of is Some;
    let mut r: Vec<AudioDeviceRow> = Vec::new();
    let mut i: usize = 0;
    proof {
        reveal(Seq::filter);
        assert(devs@.subrange(0, 0) =~= Seq::<AudioDeviceRow>::empty());
    }
    while i < devs.len()
        invariant
            i <= devs@.len(),
            pred == (|d: AudioDeviceRow| d.companion_of is Some),
            r@.len() == devs@.subrange(0, i as int).filter(pred).len(),
            forall|k: int| 0 <= k < r@.len() ==> row_copy(devs@.subrange(0, i as int).filter(pred)[k], #[trigger] r@[k]),
        decreases devs@.len() - i,
    {
        proof {
            reveal(Seq::filter);
            let next = devs@.subrange(0, i + 1);
            assert(next.drop_last() =~= devs@.subrange(0, i as int));
            assert(next.last() == devs@[i as int]);
        }
        if devs[i].companion_of.is_some() {
            let c = clone_row(&devs[i]);
            r.push(c);
        }
        i = i + 1;
    }
    assert(devs@.subrange(0, devs@.len() as int) =~= devs@);
    r
}

fn find_first_id(devs: &Vec<AudioDeviceRow>, id: &str) -> (r: Option<usize>)
    ensures
        match r {
            Some(k) => is_first_id(devs@, id@, k as int),
            None => !exists|k: int| is_first_id(devs@, id@, k),
        },
{
    let mut i: usize = 0;
    while i < devs.len()
        invariant
            i <= devs@.len(),
            forall|j: int| 0 <= j < i ==> (#[trigger] devs@[j]).id@ != id@,
        decreases devs@.len() - i,
    {
        if str_eq(devs[i].id.as_str(), id) {
            return Some(i);
        }
        i = i + 1;
    }
    proof {
        if exists|k: int| is_first_id(devs@, id@, k) {
            let k = choose|k: int| is_first_id(devs@, id@, k);
            assert(devs@[k].id@ == id@);
        }
    }
    None
}

/// The first row with an id is the only one.
proof fn lemma_first_id_unique(devs: Seq<AudioDeviceRow>, id: Seq<char>, k: int, m: int)
    requires
        is_first_id(devs, id, k),
        is_first_id(devs, id, m),
    ensures
        k == m,
{
    if k < m {
        assert(devs[k].id@ != id);
    } else if m < k {
        assert(devs[m].id@ != id);
    }
}

/// A merge with a copy of a companion is a merge with the companion.
proof fn lemma_merged_with_copy(o: AudioDeviceRow, n: AudioDeviceRow, c: AudioDeviceRow, c2: AudioDeviceRow)
    requires
        row_merged(o, n, c2),
        row_copy(c, c2),
    ensures
        row_merged(o, n, c),
{
    assert(views(c2.state.source_list@) == views(c.state.source_list@));
}

/// Assemble the audio device list from the stored rows: every companion
/// (taken as stored) is merged into its primary, in list order, and then
/// every bound source shows its receiver's volume and mute.
pub fn assemble_audio_list(devices: &mut Vec<AudioDeviceRow>)
    ensures
        exists|merged: Seq<AudioDeviceRow>| merged_in_order(old(devices)@, companions(old(devices)@), merged) && #[trigger] overlaid(merged, final(devices)@),
{
    let ghost start = devices@;
    let comps = companion_rows(devices);
    let ghost cs = companions(start);
    let ghost mut trace: Seq<Seq<AudioDeviceRow>> = seq![start];
    let mut k: usize = 0;
    while k < comps.len()
        invariant
            k <= comps@.len(),
            comps@.len() == cs.len(),
            cs == companions(start),
            forall|x: int| 0 <= x < comps@.len() ==> row_copy(cs[x], #[trigger] comps@[x]),
            trace.len() == k + 1,
            trace[0] == start,
            trace[k as int] == devices@,
            forall|j: int| 0 <= j < k ==> #[trigger] merge_step(trace[j], trace[j + 1], cs[j]),
        decreases comps@.len() - k,
    {
        let ghost before = devices@;
        let c = &comps[k];
        assert(row_copy(cs[k as int], comps@[k as int]));
        match &c.companion_of {
            Some(pid) => {
                match find_first_id(devices, pid.as_str()) {
                    Some(t) => {
                        let mut d = devices.remove(t);
                        merge_companion_into(&mut d, c);
                        devices.insert(t, d);
                        proof {
                            let cc = cs[k as int];
                            lemma_merged_with_copy(before[t as int], devices@[t as int], cc, *c);
                            let ch = choose|x: int| is_first_id(before, pid@, x);
                            lemma_first_id_unique(before, pid@, ch, t as int);
                            assert forall|i: int| 0 <= i < before.len() && i != t implies #[trigger] devices@[i] == before[i] by {}
                            assert(merge_step(before, devices@, cc));
                        }
                    },
                    None => {
                        assert(merge_step(before, devices@, cs[k as int]));
                    },
                }
            },
            None => {
                assert(merge_step(before, devices@, cs[k as int]));
            },
        }
        proof {
            trace = trace.push(devices@);
            assert forall|j: int| 0 <= j < k + 1 implies #[trigger] merge_step(trace[j], trace[j + 1], cs[j]) by {
                if j < k {
                    assert(trace[j] == trace.drop_last()[j]);
                    assert(trace[j + 1] == trace.drop_last()[j + 1]);
                }
            }
        }
        k = k + 1;
    }
    let ghost merged = devices@;
    assert(merged_in_order(start, cs, merged));
    overlay_receiver_volumes(devices);
    assert(overlaid(merged, devices@));
}

// ── Command routing across a composite's backings ───────────────────────────

/// One backing entity of a composite audio device, for command routing.
pub struct Backing {
    pub id: String,
    pub capabilities: AudioCapabilities,
    /// This backing routes its volume/mute to a receiver.
    pub receiver_bound: bool,
    /// This backing is the one reporting playback.
    pub has_now_playing: bool,
}

/// A property a backing may have, that decides where a field goes.
#[derive(Clone, Copy, Debug, PartialEq, Eq, Structural)]
pub enum Owns {
    ReceiverBound,
    Playing,
    Transport,
    Sources,
}

pub open spec fn owns(b: Backing, p: Owns) -> bool {
    match p {
        Owns::ReceiverBound => b.receiver_bound,
        Owns::Playing => b.capabilities.transport && b.has_now_playing,
        Owns::Transport => b.capabilities.transport,
        Owns::Sources => b.capabilities.sources,
    }
}

pub open spec fn any_owns(bs: Seq<Backing>, p: Owns) -> bool {
    exists|j: int| 0 <= j < bs.len() && owns(#[trigger] bs[j], p)
}

/// The first backing with property `p`, or the primary (0) when none has it.
pub open spec fn first_owner(bs: Seq<Backing>, p: Owns) -> int {
    if any_owns(bs, p) {
        choose|r: int| 0 <= r < bs.len() && owns(bs[r], p) && forall|j: int| 0 <= j < r ==> !owns(#[trigger] bs[j], p)
    } else {
        0
    }
}

fn owns_exec(b: &Backing, p: Owns) -> (r: bool)
    ensures
        r == owns(*b, p),
{
    match p {
        Owns::ReceiverBound => b.receiver_bound,
        Owns::Playing => b.capabilities.transport && b.has_now_playing,
        Owns::Transport => b.capabilities.transport,
        Owns::Sources => b.capabilities.sources,
    }
}

/// The first backing with property `p`, if any.
fn find_owner(bs: &Vec<Backing>, p: Owns) -> (r: Option<usize>)
    ensures
        match r {
            Some(k) => k < bs@.len() && any_owns(bs@, p) && k == first_owner(bs@, p),
            None => !any_owns(bs@, p),
        },
{
    let mut i: usize = 0;
    while i < bs.len()
        invariant
            i <= bs@.len(),
            forall|j: int| 0 <= j < i ==> !owns(#[trigger] bs@[j], p),
        decreases bs@.len() - i,
    {
        if owns_exec(&bs[i], p) {
            proof {
                assert(0 <= i < bs@.len() && owns(bs@[i as int], p) && forall|j: int| 0 <= j < i ==> !owns(#[trigger] bs@[j], p));
                let f = first_owner(bs@, p);
                if f < i {
                    assert(!owns(bs@[f], p));
                } else if f > i {
                    assert(!owns(bs@[i as int], p));
                }
            }
            return Some(i);
        }
        i = i + 1;
    }
    None
}

/// Where transport goes: the first backing playing, else the first one
/// with transport, else the primary.
pub open spec fn audio_transport_target(bs: Seq<Backing>) -> int {
    if any_owns(bs, Owns::Playing) {
        first_owner(bs, Owns::Playing)
    } else {
        first_owner(bs, Owns::Transport)
    }
}

/// When some backing has property `p`, the first owner is the earliest
/// backing that has it.
proof fn lemma_first_owner(bs: Seq<Backing>, p: Owns)
    requires
        any_owns(bs, p),
    ensures
        0 <= first_owner(bs, p) < bs.len(),
        owns(bs[first_owner(bs, p)], p),
        forall|j: int| 0 <= j < first_owner(bs, p) ==> !owns(#[trigger] bs[j], p),
    decreases bs.len(),
{
    let t = bs.drop_last();
    if any_owns(t, p) {
        lemma_first_owner(t, p);
        let f = first_owner(t, p);
        assert(t[f] == bs[f]);
        assert forall|j: int| 0 <= j < f implies !owns(#[trigger] bs[j], p) by {
            assert(t[j] == bs[j]);
        }
    } else {
        let n = bs.len() - 1;
        let w = choose|j: int| 0 <= j < bs.len() && owns(#[trigger] bs[j], p);
        if w < n {
            assert(t[w] == bs[w]);
        }
        assert forall|j: int| 0 <= j < n implies !owns(#[trigger] bs[j], p) by {
            assert(t[j] == bs[j]);
        }
        assert(0 <= n < bs.len() && owns(bs[n], p) && forall|j: int| 0 <= j < n ==> !owns(#[trigger] bs[j], p));
    }
}

/// Audio transport goes to a backing that controls playback: whenever any
/// backing has transport capability the target has it (one that only
/// reports playback is never chosen); the first backing that both controls
/// transport and reports playback comes first, else the first with
/// transport; with none, the primary.
pub proof fn lemma_audio_transport_has_transport(bs: Seq<Backing>)
    requires
        bs.len() > 0,
    ensures
        0 <= audio_transport_target(bs) < bs.len(),
        (exists|j: int| 0 <= j < bs.len() && (#[trigger] bs[j]).capabilities.transport) ==> bs[audio_transport_target(bs)].capabilities.transport,
        !(exists|j: int| 0 <= j < bs.len() && (#[trigger] bs[j]).capabilities.transport) ==> audio_transport_target(bs) == 0,
        (exists|j: int| 0 <= j < bs.len() && (#[trigger] bs[j]).capabilities.transport && bs[j].has_now_playing) ==> {
            &&& bs[audio_transport_target(bs)].has_now_playing
            &&& forall|j: int| 0 <= j < audio_transport_target(bs) ==> !((#[trigger] bs[j]).capabilities.transport && bs[j].has_now_playing)
        },
        !(exists|j: int| 0 <= j < bs.len() && (#[trigger] bs[j]).capabilities.transport && bs[j].has_now_playing) ==>
            forall|j: int| 0 <= j < audio_transport_target(bs) ==> !(#[trigger] bs[j]).capabilities.transport,
{
    if exists|j: int| 0 <= j < bs.len() && (#[trigger] bs[j]).capabilities.transport && bs[j].has_now_playing {
        let w = choose|j: int| 0 <= j < bs.len() && (#[trigger] bs[j]).capabilities.transport && bs[j].has_now_playing;
        assert(owns(bs[w], Owns::Playing));
        lemma_first_owner(bs, Owns::Playing);
        let f = first_owner(bs, Owns::Playing);
        assert forall|j: int| 0 <= j < f implies !((#[trigger] bs[j]).capabilities.transport && bs[j].has_now_playing) by {
            assert(!owns(bs[j], Owns::Playing));
        }
    } else {
        assert(!any_owns(bs, Owns::Playing));
        if exists|j: int| 0 <= j < bs.len() && (#[trigger] bs[j]).capabilities.transport {
            let w = choose|j: int| 0 <= j < bs.len() && (#[trigger] bs[j]).capabilities.transport;
            assert(owns(bs[w], Owns::Transport));
            lemma_first_owner(bs, Owns::Transport);
            let f = first_owner(bs, Owns::Transport);
            assert forall|j: int| 0 <= j < f implies !(#[trigger] bs[j]).capabilities.transport by {
                assert(!owns(bs[j], Owns::Transport));
            }
        } else {
            assert(!any_owns(bs, Owns::Transport));
        }
    }
}

/// The targets of `cmd` across the audio backings `bs`: volume/mute to the
/// first receiver-bound backing, transport as above, source to the first
/// backing with selectable inputs, power to the primary; each falling back
/// to the primary.
pub open spec fn audio_targets(cmd: MediaCommand, bs: Seq<Backing>) -> Targets {
    targets_of(
        cmd,
        bs[first_owner(bs, Owns::ReceiverBound)].id@,
        bs[audio_transport_target(bs)].id@,
        bs[first_owner(bs, Owns::Sources)].id@,
        bs[0].id@,
    )
}

fn owner_or_primary(bs: &Vec<Backing>, p: Owns) -> (r: usize)
    requires
        bs@.len() > 0,
    ensures
        r < bs@.len(),
        r == first_owner(bs@, p),
{
    match find_owner(bs, p) {
        Some(k) => k,
        None => 0,
    }
}

/// Split `cmd` across a composite's backings (`backings[0]` is the
/// primary): one part per target backing, in ascending id order.
pub fn route_across_backings(cmd: &AudioCommand, backings: &Vec<Backing>) -> (parts: Vec<(String, AudioCommand)>)
    requires
        backings@.len() > 0,
    ensures
        assembled(parts@, *cmd, audio_targets(*cmd, backings@)),
{
    let v = owner_or_primary(backings, Owns::ReceiverBound);
    let t = match find_owner(backings, Owns::Playing) {
        Some(k) => k,
        None => owner_or_primary(backings, Owns::Transport),
    };
    let s = owner_or_primary(backings, Owns::Sources);
    assemble_parts(cmd, &backings[v].id, &backings[t].id, &backings[s].id, &backings[0].id)
}

// ── Outcomes and checks ──────────────────────────────────────────────────────

/// Map a provider grouping call's result, as for media devices: a "not
/// supported" provider or a rejected request is the caller's mistake.
pub fn map_group_result(res: Result<(), String>) -> (r: GroupOutcome)
    ensures
        match res {
            Ok(()) => r == GroupOutcome::Done,
            Err(e) => if crate::text::contains_sub(e@, "not support"@) || crate::text::contains_sub(e@, "itself"@) {
                r == GroupOutcome::BadRequest(e)
            } else {
                r == GroupOutcome::Unreachable
            },
        },
{
    map_media_group_result(res)
}

/// The merge target as stored: whether it is itself a companion, and
/// whether it is a hidden duplicate.
pub struct CompanionTarget {
    pub is_companion: bool,
    pub shadowed: bool,
}

/// Why linking `id` as a companion of `primary_id` is refused, if it is:
/// self-merge, an unknown primary, a primary that is itself a companion, a
/// hidden duplicate, or a device that already has companions (no chains).
/// Unlinking (`None`) is never refused.
pub fn companion_link_error(id: &str, primary_id: &Option<String>, target: Option<CompanionTarget>, own_companions: u64) -> (r: Option<String>)
    ensures
        match *primary_id {
            None => r is None,
            Some(pid) => if pid@ == id@ {
                r matches Some(m) && m@ == "a device cannot be its own companion"@
            } else {
                match target {
                    None => r matches Some(m) && m@ == "unknown primary device"@,
                    Some(t) => if t.is_companion {
                        r matches Some(m) && m@ == "that device is itself merged into another; pick a standalone primary"@
                    } else if t.shadowed {
                        r matches Some(m) && m@ == "that device is a hidden duplicate"@
                    } else if own_companions > 0 {
                        r matches Some(m) && m@ == "this device already has companions merged into it"@
                    } else {
                        r is None
                    },
                }
            },
        },
{
    match primary_id {
        None => None,
        Some(pid) => {
            if str_eq(pid.as_str(), id) {
                return Some("a device cannot be its own companion".to_owned());
            }
            match target {
                None => Some("unknown primary device".to_owned()),
                Some(t) => {
                    if t.is_companion {
                        Some("that device is itself merged into another; pick a standalone primary".to_owned())
                    } else if t.shadowed {
                        Some("that device is a hidden duplicate".to_owned())
                    } else if own_companions > 0 {
                        Some("this device already has companions merged into it".to_owned())
                    } else {
                        None
                    }
                },
            }
        },
    }
}

} // verus!
