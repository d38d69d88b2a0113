//! Assembling the media device list from the stored rows: deriving each
//! composite's companions, merging them into their surface, resolving each
//! surface's remote and composite power, and showing bound sources their
//! receiver's volume.
use vstd::prelude::*;
use crate::audio::clone_strings;
use crate::media::{best_remote_per_group, best_remotes_of, clone_now_playing, clone_opt, derive_companions, derived_companion, has_key, lookup, lookup_spec, media_row_merged, media_signal, merge_companion_into, names_remote, same_but_companion, views, wins_remote_group, MediaDeviceRow, MediaState, PairedRemote, PowerSignal, apply_composite_power, with_composite_power};
use crate::text::str_eq;

verus! {

// ── Copies ───────────────────────────────────────────────────────────────────

/// `b` is a copy of `a` (its source list equal element by element).
pub open spec fn media_row_copy(a: MediaDeviceRow, b: MediaDeviceRow) -> bool {
    &&& b.state.source_list@ == a.state.source_list@
    &&& b == MediaDeviceRow { state: MediaState { source_list: b.state.source_list, ..a.state }, ..a }
}

fn clone_media_row(d: &MediaDeviceRow) -> (r: MediaDeviceRow)
    ensures
        media_row_copy(*d, r),
{
    MediaDeviceRow {
        id: d.id.clone(),
        provider_id: d.provider_id.clone(),
        device_id: d.device_id.clone(),
        name: d.name.clone(),
        kind: d.kind.clone(),
        capabilities: d.capabilities,
        state: MediaState {
            power: d.state.power,
            reachable: d.state.reachable,
            volume: d.state.volume,
            mute: d.state.mute,
            source: clone_opt(&d.state.source),
            source_list: clone_strings(&d.state.source_list),
            now_playing: clone_now_playing(&d.state.now_playing),
            group_coordinator: clone_opt(&d.state.group_coordinator),
        },
        last_seen: clone_opt(&d.last_seen),
        enabled: d.enabled,
        glyph: clone_opt(&d.glyph),
        hw_id: clone_opt(&d.hw_id),
        shadowed_by: clone_opt(&d.shadowed_by),
        shadow_auto: d.shadow_auto,
        room_id: clone_opt(&d.room_id),
        inherited_room_id: clone_opt(&d.inherited_room_id),
        receiver_id: clone_opt(&d.receiver_id),
        receiver_source: clone_opt(&d.receiver_source),
        receiver_name: clone_opt(&d.receiver_name),
        group_id: clone_opt(&d.group_id),
        companion_of: clone_opt(&d.companion_of),
        remote_id: clone_opt(&d.remote_id),
    }
}

/// The companions of a list: its rows merged into a surface, in order.
pub open spec fn media_companions(devs: Seq<MediaDeviceRow>) -> Seq<MediaDeviceRow> {
    devs.filter(|d: MediaDeviceRow| d.companion_of is Some)
}

fn companion_rows(devs: &Vec<MediaDeviceRow>) -> (r: Vec<MediaDeviceRow>)
    ensures
        r@.len() == media_companions(devs@).len(),
        forall|k: int| 0 <= k < r@.len() ==> media_row_copy(media_companions(devs@)[k], #[trigger] r@[k]),
{
    let ghost pred = |d: MediaDeviceRow| d.companion_of is Some;
    let mut r: Vec<MediaDeviceRow> = Vec::new();
    let mut i: usize = 0;
    proof {
        reveal(Seq::filter);
        assert(devs@.subrange(0, 0) =~= Seq::<MediaDeviceRow>::empty());
    }
    while i < devs.len()
        invariant
            i <= devs@.len(),
            pred == (|d: MediaDeviceRow| d.companion_of is Some),
            r@.len() == devs@.subrange(0, i as int).filter(pred).len(),
            forall|k: int| 0 <= k < r@.len() ==> media_row_copy(devs@.subrange(0, i as int).filter(pred)[k], #[trigger] r@[k]),
        decreases devs@.len() - i,
    {
        proof {
            reveal(Seq::filter);
            let next = devs@.subrange(0, i + 1);
            assert(next.drop_last() =~= devs@.subrange(0, i as int));
            assert(next.last() == devs@[i as int]);
        }
        if devs[i].companion_of.is_some() {
            let c = clone_media_row(&devs[i]);
            r.push(c);
        }
        i = i + 1;
    }
    assert(devs@.subrange(0, devs@.len() as int) =~= devs@);
    r
}

// ── Merging companions ───────────────────────────────────────────────────────

/// `k` is the first row of `devs` with the id `id`.
pub open spec fn is_first_media_id(devs: Seq<MediaDeviceRow>, id: Seq<char>, k: int) -> bool {
    0 <= k < devs.len() && devs[k].id@ == id && forall|j: int| 0 <= j < k ==> (#[trigger] devs[j]).id@ != id
}

/// One merge: the companion `c` is overlaid onto the first row whose id it
/// names; with no such row nothing changes.
pub open spec fn media_merge_step(a: Seq<MediaDeviceRow>, b: Seq<MediaDeviceRow>, c: MediaDeviceRow) -> bool {
    match c.companion_of {
        Some(pid) => if exists|k: int| is_first_media_id(a, pid@, k) {
            let t = choose|k: int| is_first_media_id(a, pid@, k);
            &&& b.len() == a.len()
            &&& forall|i: int| 0 <= i < a.len() && i != t ==> #[trigger] b[i] == a[i]
            &&& media_row_merged(a[t], b[t], c)
        } else {
            b == a
        },
        None => b == a,
    }
}

/// `end` is `start` with the companions `cs` merged in, one after another.
pub open spec fn media_merged_in_order(start: Seq<MediaDeviceRow>, cs: Seq<MediaDeviceRow>, end: Seq<MediaDeviceRow>) -> bool {
    exists|trace: Seq<Seq<MediaDeviceRow>>| {
        &&& trace.len() == cs.len() + 1
        &&& trace[0] == start
        &&& trace[cs.len() as int] == end
        &&& forall|k: int| 0 <= k < cs.len() ==> #[trigger] media_merge_step(trace[k], trace[k + 1], cs[k])
    }
}

fn find_first_media_id(devs: &Vec<MediaDeviceRow>, id: &str) -> (r: Option<usize>)
    ensures
        match r {
            Some(k) => is_first_media_id(devs@, id@, k as int),
            None => !exists|k: int| is_first_media_id(devs@, id@, k),
        },
{
    let mut i: usize = 0;
    while i < devs.len()
        invariant
            i <= devs@.len(),
            forall|j: int| 0 <= j < i ==> (#[trigger] devs@[j]).id@ != id@,
        decreases devs@.len() - i,
    {
        if str_eq(devs[i].id.as_str(), id) {
            return Some(i);
        }
        i = i + 1;
    }
    proof {
        if exists|k: int| is_first_media_id(devs@, id@, k) {
            let k = choose|k: int| is_first_media_id(devs@, id@, k);
            assert(devs@[k].id@ == id@);
        }
    }
    None
}

proof fn lemma_first_media_id_unique(devs: Seq<MediaDeviceRow>, id: Seq<char>, k: int, m: int)
    requires
        is_first_media_id(devs, id, k),
        is_first_media_id(devs, id, m),
    ensures
        k == m,
{
    if k < m {
        assert(devs[k].id@ != id);
    } else if m < k {
        assert(devs[m].id@ != id);
    }
}

proof fn lemma_media_merged_with_copy(o: MediaDeviceRow, n: MediaDeviceRow, c: MediaDeviceRow, c2: MediaDeviceRow)
    requires
        media_row_merged(o, n, c2),
        media_row_copy(c, c2),
    ensures
        media_row_merged(o, n, c),
{
    assert(views(c2.state.source_list@) == views(c.state.source_list@));
}

/// Merge the companions `comps` (copies of `media_companions(devices)`)
/// into their surfaces, in order.
fn merge_companions(devices: &mut Vec<MediaDeviceRow>, comps: &Vec<MediaDeviceRow>, Ghost(cs): Ghost<Seq<MediaDeviceRow>>)
    requires
        comps@.len() == cs.len(),
        forall|x: int| 0 <= x < comps@.len() ==> media_row_copy(cs[x], #[trigger] comps@[x]),
    ensures
        media_merged_in_order(old(devices)@, cs, final(devices)@),
{
    let ghost start = devices@;
    let ghost mut trace: Seq<Seq<MediaDeviceRow>> = seq![start];
    let mut k: usize = 0;
    while k < comps.len()
        invariant
            k <= comps@.len(),
            comps@.len() == cs.len(),
            forall|x: int| 0 <= x < comps@.len() ==> media_row_copy(cs[x], #[trigger] comps@[x]),
            trace.len() == k + 1,
            trace[0] == start,
            trace[k as int] == devices@,
            forall|j: int| 0 <= j < k ==> #[trigger] media_merge_step(trace[j], trace[j + 1], cs[j]),
        decreases comps@.len() - k,
    {
        let ghost before = devices@;
        let c = &comps[k];
        assert(media_row_copy(cs[k as int], comps@[k as int]));
        match &c.companion_of {
            Some(pid) => {
                match find_first_media_id(devices, pid.as_str()) {
                    Some(t) => {
                        let mut d = devices.remove(t);
                        merge_companion_into(&mut d, c);
                        devices.insert(t, d);
                        proof {
                            let cc = cs[k as int];
                            lemma_media_merged_with_copy(before[t as int], devices@[t as int], cc, *c);
                            let ch = choose|x: int| is_first_media_id(before, pid@, x);
                            lemma_first_media_id_unique(before, pid@, ch, t as int);
                            assert forall|i: int| 0 <= i < before.len() && i != t implies #[trigger] devices@[i] == before[i] by {}
                            assert(media_merge_step(before, devices@, cc));
                        }
                    },
                    None => {
                        assert(media_merge_step(before, devices@, cs[k as int]));
                    },
                }
            },
            None => {
                assert(media_merge_step(before, devices@, cs[k as int]));
            },
        }
        proof {
            trace = trace.push(devices@);
            assert forall|j: int| 0 <= j < k + 1 implies #[trigger] media_merge_step(trace[j], trace[j + 1], cs[j]) by {
                if j < k {
                    assert(trace[j] == trace.drop_last()[j]);
                    assert(trace[j + 1] == trace.drop_last()[j + 1]);
                }
            }
        }
        k = k + 1;
    }
}

// ── Composite remote and power ───────────────────────────────────────────────

/// What a paired remote's cached state contributes.
pub open spec fn remote_signal_of(p: PairedRemote) -> PowerSignal {
    match p.state {
        Some(rs) => PowerSignal { reachable: rs.reachable != Some(false), on: rs.on },
        None => PowerSignal { reachable: false, on: false },
    }
}

/// Whether `c` is a companion of the surface `id`.
pub open spec fn is_member_of(c: MediaDeviceRow, id: Seq<char>) -> bool {
    match c.companion_of {
        Some(x) => x@ == id,
        None => false,
    }
}

/// The signals of the surface `id`'s companions, in order.
pub open spec fn member_signals(cs: Seq<MediaDeviceRow>, id: Seq<char>) -> Seq<PowerSignal> {
    cs.filter(|c: MediaDeviceRow| is_member_of(c, id)).map_values(|c: MediaDeviceRow| media_signal(c))
}

/// Whether `p` is a remote of the group `g` that reports a state.
pub open spec fn reports_for(p: PairedRemote, g: Seq<char>) -> bool {
    p.group_id@ == g && p.state is Some
}

/// The signals of a group's paired remotes that report a state, in order
/// (none for a device without a group).
pub open spec fn remote_signals(paired: Seq<PairedRemote>, group: Option<String>) -> Seq<PowerSignal> {
    match group {
        Some(g) => paired.filter(|p: PairedRemote| reports_for(p, g@)).map_values(|p: PairedRemote| remote_signal_of(p)),
        None => Seq::empty(),
    }
}

/// `r` is the remote surfaced for `group`: none without a group or when no
/// remote is paired to it, else the one that wins the group.
pub open spec fn surfaced_remote(paired: Seq<PairedRemote>, group: Option<String>, r: Option<String>) -> bool {
    match group {
        None => r is None,
        Some(g) => match r {
            None => forall|i: int| 0 <= i < paired.len() ==> (#[trigger] paired[i]).group_id@ != g@,
            Some(x) => exists|w: int|
                0 <= w < paired.len() && (#[trigger] paired[w]).group_id@ == g@ && paired[w].remote_id@ == x@
                    && wins_remote_group(paired, paired.len() as int, w),
        },
    }
}

/// `n` is the row `o` after the composite pass: a companion is left alone;
/// a surface gets its group's remote and the composite power of itself, its
/// companions `cs` and its remotes.
pub open spec fn composite_row(o: MediaDeviceRow, n: MediaDeviceRow, cs: Seq<MediaDeviceRow>, paired: Seq<PairedRemote>) -> bool {
    if o.companion_of is Some {
        n == o
    } else {
        &&& surfaced_remote(paired, o.group_id, n.remote_id)
        &&& n == with_composite_power(MediaDeviceRow { remote_id: n.remote_id, ..o }, member_signals(cs, o.id@), remote_signals(paired, o.group_id))
    }
}

/// `c` is the list `b` after the composite pass.
pub open spec fn composed(b: Seq<MediaDeviceRow>, cs: Seq<MediaDeviceRow>, paired: Seq<PairedRemote>, c: Seq<MediaDeviceRow>) -> bool {
    &&& c.len() == b.len()
    &&& forall|i: int| 0 <= i < b.len() ==> #[trigger] composite_row(b[i], c[i], cs, paired)
}

proof fn lemma_lookup_found(entries: Seq<(String, String)>, key: Seq<char>)
    ensures
        match lookup_spec(entries, key) {
            Some(x) => exists|e: int| 0 <= e < entries.len() && (#[trigger] entries[e]).0@ == key && entries[e].1 == x,
            None => forall|e: int| 0 <= e < entries.len() ==> (#[trigger] entries[e]).0@ != key,
        },
    decreases entries.len(),
{
    if entries.len() > 0 {
        let rest = entries.drop_first();
        lemma_lookup_found(rest, key);
        if entries[0].0@ != key {
            match lookup_spec(rest, key) {
                Some(x) => {
                    let e = choose|e: int| 0 <= e < rest.len() && (#[trigger] rest[e]).0@ == key && rest[e].1 == x;
                    assert(entries[e + 1] == rest[e]);
                },
                None => {
                    assert forall|e: int| 0 <= e < entries.len() implies (#[trigger] entries[e]).0@ != key by {
                        if e > 0 {
                            assert(entries[e] == rest[e - 1]);
                        }
                    }
                },
            }
        }
    }
}

/// The remote a group's lookup in `best_remote_per_group`'s answer gives is
/// the surfaced one.
proof fn lemma_surfaced(paired: Seq<PairedRemote>, ids: Seq<(String, String)>, group: Option<String>, r: Option<String>)
    requires
        best_remotes_of(paired, ids),
        r == match group {
            Some(g) => lookup_spec(ids, g@),
            None => None,
        },
    ensures
        surfaced_remote(paired, group, r),
{
    match group {
        None => {},
        Some(g) => {
            lemma_lookup_found(ids, g@);
            match r {
                Some(x) => {
                    let e = choose|e: int| 0 <= e < ids.len() && (#[trigger] ids[e]).0@ == g@ && ids[e].1 == x;
                    assert(names_remote(paired, ids[e]));
                },
                None => {
                    assert forall|i: int| 0 <= i < paired.len() implies (#[trigger] paired[i]).group_id@ != g@ by {
                        assert(has_key(ids, paired[i].group_id@));
                    }
                },
            }
        },
    }
}

fn member_signal_vec(comps: &Vec<MediaDeviceRow>, id: &String, Ghost(cs): Ghost<Seq<MediaDeviceRow>>) -> (r: Vec<PowerSignal>)
    requires
        comps@.len() == cs.len(),
        forall|x: int| 0 <= x < comps@.len() ==> media_row_copy(cs[x], #[trigger] comps@[x]),
    ensures
        r@ == member_signals(cs, id@),
{
    let ghost pred = |c: MediaDeviceRow| is_member_of(c, id@);
    let ghost f = |c: MediaDeviceRow| media_signal(c);
    let mut r: Vec<PowerSignal> = Vec::new();
    let mut k: usize = 0;
    proof {
        reveal(Seq::filter);
        assert(cs.subrange(0, 0) =~= Seq::<MediaDeviceRow>::empty());
        assert(cs.subrange(0, 0).filter(pred).map_values(f) =~= Seq::<PowerSignal>::empty());
    }
    while k < comps.len()
        invariant
            k <= comps@.len(),
            comps@.len() == cs.len(),
            forall|x: int| 0 <= x < comps@.len() ==> media_row_copy(cs[x], #[trigger] comps@[x]),
            pred == (|c: MediaDeviceRow| is_member_of(c, id@)),
            f == (|c: MediaDeviceRow| media_signal(c)),
            r@ == cs.subrange(0, k as int).filter(pred).map_values(f),
        decreases comps@.len() - k,
    {
        let ghost before = r@;
        let ghost pre = cs.subrange(0, k as int);
        let ghost next = cs.subrange(0, k + 1);
        proof {
            reveal(Seq::filter);
            assert(next.drop_last() =~= pre);
            assert(next.last() == cs[k as int]);
            assert(media_row_copy(cs[k as int], comps@[k as int]));
        }
        let hit = match &comps[k].companion_of {
            Some(x) => str_eq(x.as_str(), id.as_str()),
            None => false,
        };
        if hit {
            r.push(PowerSignal { reachable: comps[k].state.reachable != Some(false), on: comps[k].state.power });
            proof {
                assert(next.filter(pred) == pre.filter(pred).push(cs[k as int]));
                assert(r@ =~= next.filter(pred).map_values(f));
            }
        } else {
            proof {
                assert(next.filter(pred) == pre.filter(pred));
            }
        }
        k = k + 1;
    }
    assert(cs.subrange(0, cs.len() as int) =~= cs);
    r
}

fn remote_signal_vec(paired: &Vec<PairedRemote>, group: &Option<String>) -> (r: Vec<PowerSignal>)
    ensures
        r@ == remote_signals(paired@, *group),
{
    let mut r: Vec<PowerSignal> = Vec::new();
    let g = match group {
        None => {
            assert(r@ =~= Seq::<PowerSignal>::empty());
            return r;
        },
        Some(g) => g,
    };
    let ghost pred = |p: PairedRemote| reports_for(p, g@);
    let ghost f = |p: PairedRemote| remote_signal_of(p);
    let mut k: usize = 0;
    proof {
        reveal(Seq::filter);
        assert(paired@.subrange(0, 0) =~= Seq::<PairedRemote>::empty());
        assert(paired@.subrange(0, 0).filter(pred).map_values(f) =~= Seq::<PowerSignal>::empty());
    }
    while k < paired.len()
        invariant
            k <= paired@.len(),
            pred == (|p: PairedRemote| reports_for(p, g@)),
            f == (|p: PairedRemote| remote_signal_of(p)),
            r@ == paired@.subrange(0, k as int).filter(pred).map_values(f),
        decreases paired@.len() - k,
    {
        let ghost pre = paired@.subrange(0, k as int);
        let ghost next = paired@.subrange(0, k + 1);
        proof {
            reveal(Seq::filter);
            assert(next.drop_last() =~= pre);
            assert(next.last() == paired@[k as int]);
        }
        let hit = str_eq(paired[k].group_id.as_str(), g.as_str());
        match paired[k].state {
            Some(rs) if hit => {
                r.push(PowerSignal::remote(&rs));
                proof {
                    assert(next.filter(pred) == pre.filter(pred).push(paired@[k as int]));
                    assert(r@ =~= next.filter(pred).map_values(f));
                }
            },
            _ => {
                proof {
                    assert(next.filter(pred) == pre.filter(pred));
                }
            },
        }
        k = k + 1;
    }
    assert(paired@.subrange(0, paired@.len() as int) =~= paired@);
    r
}

/// The composite pass: each surface gets its group's remote and its
/// composite power from its companions (`comps`, copies of `cs`) and its
/// paired remotes.
fn compose_surfaces(devices: &mut Vec<MediaDeviceRow>, comps: &Vec<MediaDeviceRow>, Ghost(cs): Ghost<Seq<MediaDeviceRow>>, paired: &Vec<PairedRemote>)
    requires
        comps@.len() == cs.len(),
        forall|x: int| 0 <= x < comps@.len() ==> media_row_copy(cs[x], #[trigger] comps@[x]),
    ensures
        composed(old(devices)@, cs, paired@, final(devices)@),
{
    let ghost orig = devices@;
    let remote_ids = best_remote_per_group(paired);
    let mut i: usize = 0;
    while i < devices.len()
        invariant
            devices@.len() == orig.len(),
            i <= orig.len(),
            comps@.len() == cs.len(),
            forall|x: int| 0 <= x < comps@.len() ==> media_row_copy(cs[x], #[trigger] comps@[x]),
            best_remotes_of(paired@, remote_ids@),
            forall|k: int| i <= k < orig.len() ==> #[trigger] devices@[k] == orig[k],
            forall|k: int| 0 <= k < i ==> #[trigger] composite_row(orig[k], devices@[k], cs, paired@),
        decreases orig.len() - i,
    {
        if devices[i].companion_of.is_none() {
            let rid = match &devices[i].group_id {
                Some(g) => lookup(&remote_ids, g.as_str()),
                None => None,
            };
            proof {
                lemma_surfaced(paired@, remote_ids@, orig[i as int].group_id, rid);
            }
            let members = member_signal_vec(comps, &devices[i].id, Ghost(cs));
            let remotes = remote_signal_vec(paired, &devices[i].group_id);
            let mut d = devices.remove(i);
            let ghost o = d;
            d.remote_id = rid;
            apply_composite_power(&mut d, members.as_slice(), remotes.as_slice());
            devices.insert(i, d);
            proof {
                assert(composite_row(orig[i as int], devices@[i as int], cs, paired@));
            }
        }
        proof {
            assert forall|k: int| 0 <= k < i + 1 implies #[trigger] composite_row(orig[k], devices@[k], cs, paired@) by {
                if k == i {
                    if orig[k].companion_of is Some {
                        assert(devices@[k] == orig[k]);
                    }
                }
            }
        }
        i = i + 1;
    }
}

// ── Receiver overlay ─────────────────────────────────────────────────────────

/// The index of the last row of `devs` with the id `id`, if any.
pub open spec fn last_media_with_id(devs: Seq<MediaDeviceRow>, id: Seq<char>) -> Option<int>
    decreases devs.len(),
{
    if devs.len() == 0 {
        None
    } else if devs.last().id@ == id {
        Some(devs.len() - 1)
    } else {
        last_media_with_id(devs.drop_last(), id)
    }
}

/// The row `o` of the list `devs` as shown: a source bound to a listed
/// receiver shows that receiver's volume, mute and name (the last row with
/// the receiver's id); any other row is shown as it is.
pub open spec fn receiver_shown(devs: Seq<MediaDeviceRow>, o: MediaDeviceRow) -> MediaDeviceRow {
    match o.receiver_id {
        Some(rid) => match last_media_with_id(devs, rid@) {
            Some(k) => MediaDeviceRow {
                state: MediaState { volume: devs[k].state.volume, mute: devs[k].state.mute, ..o.state },
                receiver_name: Some(devs[k].name),
                ..o
            },
            None => o,
        },
        None => o,
    }
}

/// `n` is the list `o` with every bound source showing its receiver.
pub open spec fn media_overlaid(o: Seq<MediaDeviceRow>, n: Seq<MediaDeviceRow>) -> bool {
    &&& n.len() == o.len()
    &&& forall|i: int| 0 <= i < o.len() ==> #[trigger] n[i] == receiver_shown(o, o[i])
}

proof fn lemma_same_ids_same_last(a: Seq<MediaDeviceRow>, b: Seq<MediaDeviceRow>, id: Seq<char>)
    requires
        a.len() == b.len(),
        forall|k: int| 0 <= k < a.len() ==> (#[trigger] a[k]).id == b[k].id,
    ensures
        last_media_with_id(a, id) == last_media_with_id(b, id),
    decreases a.len(),
{
    if a.len() > 0 {
        assert(a.last().id == b.last().id);
        lemma_same_ids_same_last(a.drop_last(), b.drop_last(), id);
    }
}

fn find_last_media_id(devs: &Vec<MediaDeviceRow>, id: &str) -> (r: Option<usize>)
    ensures
        match r {
            Some(k) => last_media_with_id(devs@, id@) == Some(k as int) && k < devs@.len(),
            None => last_media_with_id(devs@, id@) is None,
        },
{
    let mut i: usize = devs.len();
    assert(devs@.subrange(0, devs@.len() as int) =~= devs@);
    while i > 0
        invariant
            i <= devs@.len(),
            last_media_with_id(devs@, id@) == last_media_with_id(devs@.subrange(0, i as int), id@),
        decreases i,
    {
        let ghost pre = devs@.subrange(0, i as int);
        assert(pre.drop_last() =~= devs@.subrange(0, i - 1));
        if str_eq(devs[i - 1].id.as_str(), id) {
            return Some(i - 1);
        }
        i = i - 1;
    }
    assert(devs@.subrange(0, 0) =~= Seq::<MediaDeviceRow>::empty());
    None
}

/// Show every bound source its receiver's volume, mute and name, read from
/// the receiver's row in the same list.
fn overlay_media_receivers(devices: &mut Vec<MediaDeviceRow>)
    ensures
        media_overlaid(old(devices)@, final(devices)@),
{
    let ghost orig = devices@;
    let mut shown: Vec<(u8, bool, String)> = Vec::new();
    let mut j: usize = 0;
    while j < devices.len()
        invariant
            j <= devices@.len(),
            devices@ == orig,
            shown@.len() == j,
            forall|k: int| 0 <= k < j ==> #[trigger] shown@[k] == (orig[k].state.volume, orig[k].state.mute, orig[k].name),
        decreases devices@.len() - j,
    {
        shown.push((devices[j].state.volume, devices[j].state.mute, devices[j].name.clone()));
        j = j + 1;
    }
    let mut i: usize = 0;
    while i < devices.len()
        invariant
            devices@.len() == orig.len(),
            shown@.len() == orig.len(),
            i <= orig.len(),
            forall|k: int| 0 <= k < orig.len() ==> #[trigger] shown@[k] == (orig[k].state.volume, orig[k].state.mute, orig[k].name),
            forall|k: int| i <= k < orig.len() ==> #[trigger] devices@[k] == orig[k],
            forall|k: int| 0 <= k < i ==> #[trigger] devices@[k] == receiver_shown(orig, orig[k]),
            forall|k: int| 0 <= k < orig.len() ==> (#[trigger] devices@[k]).id == orig[k].id,
        decreases orig.len() - i,
    {
        let hit = match &devices[i].receiver_id {
            Some(rid) => {
                let found = find_last_media_id(devices, rid.as_str());
                proof {
                    lemma_same_ids_same_last(devices@, orig, rid@);
                }
                found
            },
            None => None,
        };
        match hit {
            Some(k) => {
                let v = shown[k].0;
                let m = shown[k].1;
                let name = shown[k].2.clone();
                let mut d = devices.remove(i);
                d.state.volume = v;
                d.state.mute = m;
                d.receiver_name = Some(name);
                devices.insert(i, d);
            },
            None => {},
        }
        proof {
            assert(devices@[i as int] == receiver_shown(orig, orig[i as int]));
        }
        i = i + 1;
    }
}

// ── The whole list ───────────────────────────────────────────────────────────

/// `a` is `o` with every row's derived `companion_of` set from `surfaces`.
pub open spec fn derived_list(o: Seq<MediaDeviceRow>, surfaces: Seq<(String, String)>, a: Seq<MediaDeviceRow>) -> bool {
    &&& a.len() == o.len()
    &&& forall|i: int| 0 <= i < o.len() ==> same_but_companion(#[trigger] o[i], a[i]) && a[i].companion_of == derived_companion(o[i], surfaces)
}

/// The steps of the list assembly, through the intermediate lists `a`
/// (companions derived), `b` (companions merged) and `c` (composites
/// resolved), ending in `fin`.
pub open spec fn assembly_steps(
    o: Seq<MediaDeviceRow>,
    surfaces: Seq<(String, String)>,
    paired: Seq<PairedRemote>,
    a: Seq<MediaDeviceRow>,
    b: Seq<MediaDeviceRow>,
    c: Seq<MediaDeviceRow>,
    fin: Seq<MediaDeviceRow>,
) -> bool {
    &&& derived_list(o, surfaces, a)
    &&& media_merged_in_order(a, media_companions(a), b)
    &&& composed(b, media_companions(a), paired, c)
    &&& media_overlaid(c, fin)
}

/// Assemble the media device list from the stored rows, each group's
/// surface (`surfaces`, from `group_surfaces`) and the paired remotes:
/// derive the companions, merge each (as stored) into its surface in list
/// order, give each surface its group's remote and composite power, and
/// show bound sources their receiver.
pub fn assemble_media_list(devices: &mut Vec<MediaDeviceRow>, surfaces: &Vec<(String, String)>, paired: &Vec<PairedRemote>)
    ensures
        exists|a: Seq<MediaDeviceRow>, b: Seq<MediaDeviceRow>, c: Seq<MediaDeviceRow>|
            #[trigger] assembly_steps(old(devices)@, surfaces@, paired@, a, b, c, final(devices)@),
{
    let ghost o = devices@;
    derive_companions(devices, surfaces);
    let ghost a = devices@;
    assert(derived_list(o, surfaces@, a));
    let comps = companion_rows(devices);
    let ghost cs = media_companions(a);
    merge_companions(devices, &comps, Ghost(cs));
    let ghost b = devices@;
    compose_surfaces(devices, &comps, Ghost(cs), paired);
    let ghost c = devices@;
    overlay_media_receivers(devices);
    assert(assembly_steps(o, surfaces@, paired@, a, b, c, devices@));
}

} // verus!
