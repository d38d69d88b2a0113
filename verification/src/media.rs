//! Composite media devices: the derived surface of a device group, the
//! overlay of a companion's state onto its surface, the power/reachability
//! resolution across a composite's members, the pick of its control remote,
//! and the routing of one command across its backings.
use vstd::prelude::*;
use vstd::string::*;
use crate::routing::{MediaCommand, Targets, assemble_parts, assembled, targets_of};
use crate::text::{contains_sub, push_str, str_contains, chars_eq, chars_lt, chars_of, lemma_seq_lt_asym, lemma_seq_lt_irreflexive, lemma_seq_lt_total, lemma_seq_lt_trans, seq_lt, str_eq};

verus! {

/// The capabilities a media device offers.
#[derive(Clone, Copy, Debug, PartialEq, Eq, Structural)]
pub struct MediaCapabilities {
    pub transport: bool,
    pub sources: bool,
    pub favorites: bool,
    pub now_playing: bool,
    pub grouping: bool,
}

impl Default for MediaCapabilities {
    fn default() -> (c: MediaCapabilities)
        ensures
            !c.transport && !c.sources && !c.favorites && !c.now_playing && !c.grouping,
    {
        MediaCapabilities {
            transport: false,
            sources: false,
            favorites: false,
            now_playing: false,
            grouping: false,
        }
    }
}

/// Playback state of a now-playing snapshot.
#[derive(Clone, Copy, Debug, PartialEq, Eq, Structural)]
pub enum PlayState {
    Playing,
    Paused,
    Stopped,
    Idle,
}

/// What a device reports as playing.
#[derive(Debug, PartialEq, Eq)]
pub struct NowPlaying {
    pub title: Option<String>,
    pub artist: Option<String>,
    pub album: Option<String>,
    pub play_state: Option<PlayState>,
}

/// A media device's cached state.
#[derive(Debug, PartialEq, Eq)]
pub struct MediaState {
    pub power: bool,
    pub reachable: Option<bool>,
    pub volume: u8,
    pub mute: bool,
    pub source: Option<String>,
    pub source_list: Vec<String>,
    pub now_playing: Option<NowPlaying>,
    pub group_coordinator: Option<String>,
}

/// One media device as the API returns it.
pub struct MediaDeviceRow {
    pub id: String,
    pub provider_id: String,
    pub device_id: String,
    pub name: String,
    pub kind: String,
    pub capabilities: MediaCapabilities,
    pub state: MediaState,
    pub last_seen: Option<String>,
    pub enabled: bool,
    pub glyph: Option<String>,
    pub hw_id: Option<String>,
    pub shadowed_by: Option<String>,
    pub shadow_auto: bool,
    pub room_id: Option<String>,
    pub inherited_room_id: Option<String>,
    /// The media device whose volume/mute this source routes to.
    pub receiver_id: Option<String>,
    /// The receiver input to select when this source becomes active.
    pub receiver_source: Option<String>,
    /// Derived: the bound receiver's display name.
    pub receiver_name: Option<String>,
    /// The composite group this row belongs to.
    pub group_id: Option<String>,
    /// Derived: the group's surface id when this row is not the surface.
    pub companion_of: Option<String>,
    /// The paired remote surfaced for control.
    pub remote_id: Option<String>,
}

// ── Surface selection ────────────────────────────────────────────────────────

pub open spec fn kind_rank_spec(kind: Seq<char>) -> u8 {
    if kind == "tv"@ {
        3
    } else if kind == "receiver"@ {
        2
    } else if kind == "speaker"@ {
        1
    } else {
        0
    }
}

/// Rank a device kind for surface selection: tv > receiver > speaker > other.
pub fn kind_rank(kind: &str) -> (r: u8)
    ensures
        r == kind_rank_spec(kind@),
{
    if str_eq(kind, "tv") {
        3
    } else if str_eq(kind, "receiver") {
        2
    } else if str_eq(kind, "speaker") {
        1
    } else {
        0
    }
}

/// The kind of provider a device comes from, as the registry classifies it.
#[derive(Clone, Copy, Debug, PartialEq, Eq, Structural)]
pub enum ProviderDomain {
    Lights,
    Media,
    Audio,
    Power,
    Sensors,
    Remote,
    Feed,
    Integration,
}

/// Authority of a backing for contested controls: an integration copy (0)
/// ranks below a native provider (1); an unknown provider type counts native.
pub fn backing_authority(domain: Option<ProviderDomain>) -> (r: u8)
    ensures
        r == (if domain == Some(ProviderDomain::Integration) {
            0u8
        } else {
            1u8
        }),
{
    match domain {
        Some(ProviderDomain::Integration) => 0,
        _ => 1,
    }
}

/// One group member considered for the group's surface.
pub struct SurfaceCandidate {
    pub group_id: String,
    pub id: String,
    pub authority: u8,
    pub kind_rank: u8,
}

/// Whether candidate `a` beats `b` as a surface: higher (authority, rank),
/// then the smaller id.
pub open spec fn beats(a: SurfaceCandidate, b: SurfaceCandidate) -> bool {
    a.authority > b.authority || (a.authority == b.authority && a.kind_rank > b.kind_rank) || (
    a.authority == b.authority && a.kind_rank == b.kind_rank && seq_lt(a.id@, b.id@))
}

/// Member `i` of `rows` (up to index `n`) is beaten by no member of its group.
pub open spec fn wins_group(rows: Seq<SurfaceCandidate>, n: int, i: int) -> bool {
    forall|j: int| #![trigger rows[j]] 0 <= j < n && rows[j].group_id@ == rows[i].group_id@ ==> !beats(rows[j], rows[i])
}

/// Some entry of `entries` has the key `key`.
pub open spec fn has_key(entries: Seq<(String, String)>, key: Seq<char>) -> bool {
    exists|e: int| 0 <= e < entries.len() && (#[trigger] entries[e]).0@ == key
}

/// `entry` names a member of `rows` (up to index `n`) that wins its group.
pub open spec fn names_surface(rows: Seq<SurfaceCandidate>, n: int, entry: (String, String)) -> bool {
    exists|i: int| 0 <= i < n && (#[trigger] rows[i]).group_id@ == entry.0@ && rows[i].id@ == entry.1@ && wins_group(rows, n, i)
}

/// `entries` maps each group of `rows` (up to index `n`) to the member that
/// no other member of the group beats.
pub open spec fn surfaces_of(rows: Seq<SurfaceCandidate>, n: int, entries: Seq<(String, String)>) -> bool {
    &&& forall|e: int, f: int| 0 <= e < f < entries.len() ==> #[trigger] entries[e].0@ != #[trigger] entries[f].0@
    &&& forall|e: int| 0 <= e < entries.len() ==> names_surface(rows, n, #[trigger] entries[e])
    &&& forall|i: int| 0 <= i < n ==> has_key(entries, (#[trigger] rows[i]).group_id@)
}

/// What ranks a surface candidate: its group, id, authority and kind rank.
pub open spec fn candidate_key(c: SurfaceCandidate) -> (Seq<char>, Seq<char>, u8, u8) {
    (c.group_id@, c.id@, c.authority, c.kind_rank)
}

/// Some candidate of `rows` has the rank key `k`.
pub open spec fn lists_candidate(rows: Seq<SurfaceCandidate>, k: (Seq<char>, Seq<char>, u8, u8)) -> bool {
    exists|j: int| 0 <= j < rows.len() && #[trigger] candidate_key(rows[j]) == k
}

/// Every candidate of `a` is listed (by rank key) in `b`.
pub open spec fn candidates_within(a: Seq<SurfaceCandidate>, b: Seq<SurfaceCandidate>) -> bool {
    forall|i: int| 0 <= i < a.len() ==> lists_candidate(b, #[trigger] candidate_key(a[i]))
}

/// A group's surface is stable: it does not depend on the order the
/// members are listed in, so two listings of the same members derive the
/// same surface.
pub proof fn lemma_surface_ignores_order(
    rows1: Seq<SurfaceCandidate>,
    rows2: Seq<SurfaceCandidate>,
    s1: Seq<(String, String)>,
    s2: Seq<(String, String)>,
    e1: int,
    e2: int,
)
    requires
        surfaces_of(rows1, rows1.len() as int, s1),
        surfaces_of(rows2, rows2.len() as int, s2),
        candidates_within(rows1, rows2),
        candidates_within(rows2, rows1),
        0 <= e1 < s1.len(),
        0 <= e2 < s2.len(),
        s1[e1].0@ == s2[e2].0@,
    ensures
        s1[e1].1@ == s2[e2].1@,
{
    assert(names_surface(rows1, rows1.len() as int, s1[e1]));
    assert(names_surface(rows2, rows2.len() as int, s2[e2]));
    let i1 = choose|i: int| 0 <= i < rows1.len() && (#[trigger] rows1[i]).group_id@ == s1[e1].0@ && rows1[i].id@ == s1[e1].1@ && wins_group(rows1, rows1.len() as int, i);
    let i2 = choose|i: int| 0 <= i < rows2.len() && (#[trigger] rows2[i]).group_id@ == s2[e2].0@ && rows2[i].id@ == s2[e2].1@ && wins_group(rows2, rows2.len() as int, i);
    assert(lists_candidate(rows2, candidate_key(rows1[i1])));
    let j2 = choose|j: int| 0 <= j < rows2.len() && #[trigger] candidate_key(rows2[j]) == candidate_key(rows1[i1]);
    assert(lists_candidate(rows1, candidate_key(rows2[i2])));
    let j1 = choose|j: int| 0 <= j < rows1.len() && #[trigger] candidate_key(rows1[j]) == candidate_key(rows2[i2]);
    assert(!beats(rows2[j2], rows2[i2]));
    assert(!beats(rows1[j1], rows1[i1]));
    if rows1[i1].id@ != rows2[i2].id@ {
        lemma_seq_lt_total(rows1[i1].id@, rows2[i2].id@);
    }
}

fn beats_exec(a: &SurfaceCandidate, b: &SurfaceCandidate) -> (r: bool)
    ensures
        r == beats(*a, *b),
{
    if a.authority != b.authority {
        return a.authority > b.authority;
    }
    if a.kind_rank != b.kind_rank {
        return a.kind_rank > b.kind_rank;
    }
    let ai = chars_of(a.id.as_str());
    let bi = chars_of(b.id.as_str());
    chars_lt(&ai, &bi)
}

proof fn lemma_beats_asym(a: SurfaceCandidate, b: SurfaceCandidate)
    requires
        beats(a, b),
    ensures
        !beats(b, a),
{
    if a.authority == b.authority && a.kind_rank == b.kind_rank {
        lemma_seq_lt_asym(a.id@, b.id@);
    }
}

proof fn lemma_beats_trans(a: SurfaceCandidate, b: SurfaceCandidate, c: SurfaceCandidate)
    requires
        beats(a, b),
        beats(b, c),
    ensures
        beats(a, c),
{
    if a.authority == b.authority && b.authority == c.authority && a.kind_rank == b.kind_rank
        && b.kind_rank == c.kind_rank {
        lemma_seq_lt_trans(a.id@, b.id@, c.id@);
    }
}

/// Each group's derived surface: the member with the highest authority, then
/// the highest kind rank, ties broken on the smallest id.
pub fn group_surfaces(rows: &Vec<SurfaceCandidate>) -> (r: Vec<(String, String)>)
    ensures
        surfaces_of(rows@, rows@.len() as int, r@),
{
    let mut best: Vec<(String, String)> = Vec::new();
    let mut best_idx: Vec<usize> = Vec::new();
    let mut i: usize = 0;
    while i < rows.len()
        invariant
            i <= rows@.len(),
            best_idx@.len() == best@.len(),
            forall|e: int| 0 <= e < best@.len() ==> (#[trigger] best_idx@[e]) < i && rows@[best_idx@[e] as int].group_id@ == best@[e].0@ && rows@[best_idx@[e] as int].id@ == best@[e].1@ && wins_group(rows@, i as int, best_idx@[e] as int),
            forall|e: int, f: int| 0 <= e < f < best@.len() ==> #[trigger] best@[e].0@ != #[trigger] best@[f].0@,
            forall|j: int| 0 <= j < i ==> has_key(best@, (#[trigger] rows@[j]).group_id@),
        decreases rows@.len() - i,
    {
        let g = chars_of(rows[i].group_id.as_str());
        let (found, e) = find_key(&best, &g);
        let ghost old_best = best@;
        let ghost old_idx = best_idx@;
        if found {
            let cur = best_idx[e];
            if beats_exec(&rows[i], &rows[cur]) {
                proof {
                    lemma_new_surface(rows@, i as int, cur as int);
                    assert forall|e2: int| 0 <= e2 < old_best.len() && e2 != e implies wins_group(rows@, i + 1, #[trigger] old_idx[e2] as int) by {
                        lemma_extend_surface(rows@, i as int, old_idx[e2] as int);
                    }
                }
                best.set(e, (rows[i].group_id.clone(), rows[i].id.clone()));
                best_idx.set(e, i);
            } else {
                proof {
                    assert forall|e2: int| 0 <= e2 < old_best.len() implies wins_group(rows@, i + 1, #[trigger] old_idx[e2] as int) by {
                        lemma_extend_surface(rows@, i as int, old_idx[e2] as int);
                    }
                }
            }
            proof {
                assert forall|j: int| 0 <= j < i + 1 implies has_key(best@, (#[trigger] rows@[j]).group_id@) by {
                    if j == i {
                        assert(best@[e as int].0@ == rows@[j].group_id@);
                    } else {
                        let e3 = choose|e3: int| 0 <= e3 < old_best.len() && (#[trigger] old_best[e3]).0@ == rows@[j].group_id@;
                        assert(best@[e3].0@ == rows@[j].group_id@);
                    }
                }
            }
        } else {
            proof {
                assert forall|j: int| 0 <= j < i implies (#[trigger] rows@[j]).group_id@ != rows@[i as int].group_id@ by {
                    let e3 = choose|e3: int| 0 <= e3 < old_best.len() && (#[trigger] old_best[e3]).0@ == rows@[j].group_id@;
                    assert(old_best[e3].0@ != g@);
                }
                lemma_new_surface_fresh(rows@, i as int);
                assert forall|e2: int| 0 <= e2 < old_best.len() implies wins_group(rows@, i + 1, #[trigger] old_idx[e2] as int) by {
                    lemma_extend_surface(rows@, i as int, old_idx[e2] as int);
                }
            }
            best.push((rows[i].group_id.clone(), rows[i].id.clone()));
            best_idx.push(i);
            proof {
                assert forall|j: int| 0 <= j < i + 1 implies has_key(best@, (#[trigger] rows@[j]).group_id@) by {
                    if j == i {
                        assert(best@[old_best.len() as int].0@ == rows@[j].group_id@);
                    } else {
                        let e3 = choose|e3: int| 0 <= e3 < old_best.len() && (#[trigger] old_best[e3]).0@ == rows@[j].group_id@;
                        assert(best@[e3].0@ == rows@[j].group_id@);
                    }
                }
            }
        }
        i = i + 1;
    }
    proof {
        assert forall|e: int| 0 <= e < best@.len() implies names_surface(rows@, rows@.len() as int, #[trigger] best@[e]) by {
            let k = best_idx@[e] as int;
            assert(rows@[k].group_id@ == best@[e].0@);
        }
    }
    best
}

/// Where `key` is among the keys of `entries`: `(true, e)` at its index,
/// else `(false, _)` when no key equals it.
fn find_key(entries: &Vec<(String, String)>, key: &Vec<char>) -> (r: (bool, usize))
    ensures
        r.0 ==> r.1 < entries@.len() && entries@[r.1 as int].0@ == key@,
        !r.0 ==> forall|f: int| 0 <= f < entries@.len() ==> #[trigger] entries@[f].0@ != key@,
{
    let mut e: usize = 0;
    while e < entries.len()
        invariant
            e <= entries@.len(),
            forall|f: int| 0 <= f < e ==> #[trigger] entries@[f].0@ != key@,
        decreases entries@.len() - e,
    {
        let k = chars_of(entries[e].0.as_str());
        if chars_eq(&k, key) {
            return (true, e);
        }
        e = e + 1;
    }
    (false, 0)
}

/// A member that beats its group's current best also wins the group.
proof fn lemma_new_surface(rows: Seq<SurfaceCandidate>, i: int, cur: int)
    requires
        0 <= cur < i < rows.len(),
        rows[cur].group_id@ == rows[i].group_id@,
        wins_group(rows, i, cur),
        beats(rows[i], rows[cur]),
    ensures
        wins_group(rows, i + 1, i),
{
    assert forall|j: int| #![trigger rows[j]] 0 <= j < i + 1 && rows[j].group_id@ == rows[i].group_id@ implies !beats(rows[j], rows[i]) by {
        if j < i {
            if beats(rows[j], rows[i]) {
                lemma_beats_trans(rows[j], rows[i], rows[cur]);
            }
        } else if beats(rows[j], rows[j]) {
            lemma_beats_asym(rows[j], rows[j]);
        }
    }
}

/// The first member seen of its group wins it.
proof fn lemma_new_surface_fresh(rows: Seq<SurfaceCandidate>, i: int)
    requires
        0 <= i < rows.len(),
        forall|j: int| 0 <= j < i ==> (#[trigger] rows[j]).group_id@ != rows[i].group_id@,
    ensures
        wins_group(rows, i + 1, i),
{
    assert forall|j: int| #![trigger rows[j]] 0 <= j < i + 1 && rows[j].group_id@ == rows[i].group_id@ implies !beats(rows[j], rows[i]) by {
        if beats(rows[j], rows[j]) {
            lemma_beats_asym(rows[j], rows[j]);
        }
    }
}

/// A winner stays a winner when the next member does not beat it.
proof fn lemma_extend_surface(rows: Seq<SurfaceCandidate>, i: int, k: int)
    requires
        0 <= k < i < rows.len(),
        wins_group(rows, i, k),
        rows[i].group_id@ == rows[k].group_id@ ==> !beats(rows[i], rows[k]),
    ensures
        wins_group(rows, i + 1, k),
{
    assert forall|j: int| #![trigger rows[j]] 0 <= j < i + 1 && rows[j].group_id@ == rows[k].group_id@ implies !beats(rows[j], rows[k]) by {
        if j < i {
            assert(rows[j] == rows[j]);
        }
    }
}

/// `n` is `o` with at most its derived `companion_of` changed.
pub open spec fn same_but_companion(o: MediaDeviceRow, n: MediaDeviceRow) -> bool {
    n == MediaDeviceRow { companion_of: n.companion_of, ..o }
}

/// The derived `companion_of` of a row: its group's surface, unless the row
/// is that surface (or has no group, or its group has no surface).
pub open spec fn derived_companion(o: MediaDeviceRow, surfaces: Seq<(String, String)>) -> Option<String> {
    match o.group_id {
        Some(g) => match lookup_spec(surfaces, g@) {
            Some(s) => if s@ == o.id@ {
                None
            } else {
                Some(s)
            },
            None => None,
        },
        None => None,
    }
}

/// Set each row's derived `companion_of`: its group's surface, unless the
/// row is that surface (or has no group, or its group has no surface).
pub fn derive_companions(rows: &mut Vec<MediaDeviceRow>, surfaces: &Vec<(String, String)>)
    ensures
        final(rows)@.len() == old(rows)@.len(),
        forall|i: int| 0 <= i < final(rows)@.len() ==> same_but_companion(#[trigger] old(rows)@[i], final(rows)@[i])
            && final(rows)@[i].companion_of == derived_companion(old(rows)@[i], surfaces@),
{
    let ghost orig = rows@;
    let mut i: usize = 0;
    while i < rows.len()
        invariant
            rows@.len() == orig.len(),
            i <= rows@.len(),
            forall|k: int| i <= k < rows@.len() ==> #[trigger] rows@[k] == orig[k],
            forall|k: int| 0 <= k < i ==> same_but_companion(#[trigger] orig[k], rows@[k]) && rows@[k].companion_of == derived_companion(orig[k], surfaces@),
        decreases rows@.len() - i,
    {
        let mut row = rows.remove(i);
        let companion = match &row.group_id {
            Some(g) => match lookup(surfaces, g.as_str()) {
                Some(s) => {
                    if str_eq(s.as_str(), row.id.as_str()) {
                        None
                    } else {
                        Some(s)
                    }
                },
                None => None,
            },
            None => None,
        };
        row.companion_of = companion;
        rows.insert(i, row);
        i = i + 1;
    }
}

/// The value of the first entry of `entries` whose key is `key`.
pub open spec fn lookup_spec(entries: Seq<(String, String)>, key: Seq<char>) -> Option<String>
    decreases entries.len(),
{
    if entries.len() == 0 {
        None
    } else if entries[0].0@ == key {
        Some(entries[0].1)
    } else {
        lookup_spec(entries.drop_first(), key)
    }
}

/// Look `key` up in an association list.
pub fn lookup(entries: &Vec<(String, String)>, key: &str) -> (r: Option<String>)
    ensures
        r == lookup_spec(entries@, key@),
{
    let mut i: usize = 0;
    assert(entries@.subrange(0, entries@.len() as int) =~= entries@);
    while i < entries.len()
        invariant
            i <= entries@.len(),
            lookup_spec(entries@, key@) == lookup_spec(entries@.subrange(i as int, entries@.len() as int), key@),
        decreases entries@.len() - i,
    {
        proof {
            let s = entries@.subrange(i as int, entries@.len() as int);
            assert(s.drop_first() =~= entries@.subrange(i + 1, entries@.len() as int));
        }
        if str_eq(entries[i].0.as_str(), key) {
            return Some(entries[i].1.clone());
        }
        i = i + 1;
    }
    None
}

// ── Companion overlay ────────────────────────────────────────────────────────

pub open spec fn has_content(n: NowPlaying) -> bool {
    n.title is Some || n.artist is Some || n.album is Some
}

pub open spec fn is_active(n: NowPlaying) -> bool {
    n.play_state == Some(PlayState::Playing) || n.play_state == Some(PlayState::Paused)
}

/// How much real "what's playing" a snapshot carries: content counts two,
/// active playback one, no snapshot zero.
pub open spec fn now_playing_score_spec(np: Option<NowPlaying>) -> int {
    match np {
        None => 0,
        Some(n) => (if has_content(n) {
            2int
        } else {
            0int
        }) + (if is_active(n) {
            1int
        } else {
            0int
        }),
    }
}

pub fn now_playing_score(np: &Option<NowPlaying>) -> (r: u8)
    ensures
        r == now_playing_score_spec(*np),
{
    match np {
        None => 0,
        Some(n) => {
            let content = n.title.is_some() || n.artist.is_some() || n.album.is_some();
            let active = n.play_state == Some(PlayState::Playing) || n.play_state == Some(
                PlayState::Paused,
            );
            (if content {
                2
            } else {
                0
            }) + (if active {
                1
            } else {
                0
            })
        },
    }
}

/// Content outranks activity: any snapshot with content scores above every
/// snapshot without.
pub proof fn lemma_content_outranks_activity(a: NowPlaying, b: NowPlaying)
    requires
        has_content(a),
        !has_content(b),
    ensures
        now_playing_score_spec(Some(a)) > now_playing_score_spec(Some(b)),
{
}

/// Paused playback counts as active, like playing: a snapshot paused
/// scores exactly as the same snapshot playing, and strictly above the same
/// snapshot stopped or without a play state; any snapshot outscores none.
pub proof fn lemma_paused_counts_as_active(n: NowPlaying)
    ensures
        now_playing_score_spec(Some(NowPlaying { play_state: Some(PlayState::Paused), ..n }))
            == now_playing_score_spec(Some(NowPlaying { play_state: Some(PlayState::Playing), ..n })),
        now_playing_score_spec(Some(NowPlaying { play_state: Some(PlayState::Paused), ..n }))
            > now_playing_score_spec(Some(NowPlaying { play_state: Some(PlayState::Stopped), ..n })),
        now_playing_score_spec(Some(NowPlaying { play_state: Some(PlayState::Paused), ..n }))
            > now_playing_score_spec(Some(NowPlaying { play_state: None, ..n })),
        now_playing_score_spec(Some(NowPlaying { play_state: Some(PlayState::Stopped), ..n }))
            == now_playing_score_spec(Some(NowPlaying { play_state: None, ..n })),
        now_playing_score_spec(Some(n)) >= now_playing_score_spec(None),
{
}

pub open spec fn views(v: Seq<String>) -> Seq<Seq<char>> {
    v.map_values(|s: String| s@)
}

/// `a` extended with the entries of `b` it does not already hold, in order.
pub open spec fn union_append(a: Seq<Seq<char>>, b: Seq<Seq<char>>) -> Seq<Seq<char>>
    decreases b.len(),
{
    if b.len() == 0 {
        a
    } else {
        let a2 = if a.contains(b[0]) {
            a
        } else {
            a.push(b[0])
        };
        union_append(a2, b.drop_first())
    }
}

pub(crate) fn contains_string(v: &Vec<String>, s: &String) -> (r: bool)
    ensures
        r == views(v@).contains(s@),
{
    let mut i: usize = 0;
    while i < v.len()
        invariant
            i <= v@.len(),
            forall|k: int| 0 <= k < i ==> #[trigger] v@[k]@ != s@,
        decreases v@.len() - i,
    {
        if str_eq(v[i].as_str(), s.as_str()) {
            assert(views(v@)[i as int] == s@);
            return true;
        }
        i = i + 1;
    }
    proof {
        if views(v@).contains(s@) {
            let k = choose|k: int| 0 <= k < views(v@).len() && views(v@)[k] == s@;
            assert(v@[k]@ == s@);
        }
    }
    false
}

/// Append to `dst` each entry of `src` it does not already hold.
pub fn union_into(dst: &mut Vec<String>, src: &Vec<String>)
    ensures
        views(final(dst)@) == union_append(views(old(dst)@), views(src@)),
{
    let mut i: usize = 0;
    assert(views(src@).subrange(0, src@.len() as int) =~= views(src@));
    while i < src.len()
        invariant
            i <= src@.len(),
            union_append(views(old(dst)@), views(src@)) == union_append(views(dst@), views(src@).subrange(i as int, src@.len() as int)),
        decreases src@.len() - i,
    {
        let ghost before = dst@;
        if !contains_string(dst, &src[i]) {
            dst.push(src[i].clone());
            assert(views(dst@) =~= views(before).push(src@[i as int]@));
        }
        proof {
            let rest = views(src@).subrange(i as int, src@.len() as int);
            assert(rest[0] == src@[i as int]@);
            assert(rest.drop_first() =~= views(src@).subrange(i + 1, src@.len() as int));
        }
        i = i + 1;
    }
    assert(views(src@).subrange(src@.len() as int, src@.len() as int) =~= Seq::<Seq<char>>::empty());
}

pub(crate) fn clone_opt(o: &Option<String>) -> (r: Option<String>)
    ensures
        r == *o,
{
    match o {
        Some(s) => Some(s.clone()),
        None => None,
    }
}

pub(crate) fn clone_now_playing(o: &Option<NowPlaying>) -> (r: Option<NowPlaying>)
    ensures
        r == *o,
{
    match o {
        Some(n) => Some(
            NowPlaying {
                title: clone_opt(&n.title),
                artist: clone_opt(&n.artist),
                album: clone_opt(&n.album),
                play_state: n.play_state,
            },
        ),
        None => None,
    }
}

/// The state half of the companion overlay.
pub open spec fn merged_state(o: MediaState, n: MediaState, c: MediaState) -> bool {
    &&& n.now_playing == (if now_playing_score_spec(c.now_playing) > now_playing_score_spec(o.now_playing) {
        c.now_playing
    } else {
        o.now_playing
    })
    &&& n.source == (if o.source is None {
        c.source
    } else {
        o.source
    })
    &&& views(n.source_list@) == union_append(views(o.source_list@), views(c.source_list@))
    &&& (if o.volume == 0 && c.volume > 0 {
        n.volume == c.volume && n.mute == c.mute
    } else {
        n.volume == o.volume && n.mute == o.mute
    })
    &&& n.group_coordinator == (if o.group_coordinator is None {
        c.group_coordinator
    } else {
        o.group_coordinator
    })
    &&& n.power == o.power && n.reachable == o.reachable
}

fn merge_companion_state(primary: &mut MediaState, companion: &MediaState)
    ensures
        merged_state(*old(primary), *final(primary), *companion),
{
    if now_playing_score(&companion.now_playing) > now_playing_score(&primary.now_playing) {
        primary.now_playing = clone_now_playing(&companion.now_playing);
    }
    if primary.source.is_none() {
        primary.source = clone_opt(&companion.source);
    }
    union_into(&mut primary.source_list, &companion.source_list);
    if primary.volume == 0 && companion.volume > 0 {
        primary.volume = companion.volume;
        primary.mute = companion.mute;
    }
    if primary.group_coordinator.is_none() {
        primary.group_coordinator = clone_opt(&companion.group_coordinator);
    }
}

/// `n` is the surface `o` with the companion `c` overlaid: the state as
/// `merged_state` says, a missing receiver binding taken from the companion,
/// the union of capabilities, everything else kept.
pub open spec fn media_row_merged(o: MediaDeviceRow, n: MediaDeviceRow, c: MediaDeviceRow) -> bool {
    &&& merged_state(o.state, n.state, c.state)
    &&& (if o.receiver_id is None {
        n.receiver_id == c.receiver_id && n.receiver_source == c.receiver_source
    } else {
        n.receiver_id == o.receiver_id && n.receiver_source == o.receiver_source
    })
    &&& n.capabilities.transport == (o.capabilities.transport || c.capabilities.transport)
    &&& n.capabilities.sources == (o.capabilities.sources || c.capabilities.sources)
    &&& n.capabilities.favorites == (o.capabilities.favorites || c.capabilities.favorites)
    &&& n.capabilities.now_playing == (o.capabilities.now_playing || c.capabilities.now_playing)
    &&& n.capabilities.grouping == (o.capabilities.grouping || c.capabilities.grouping)
    &&& n.id == o.id && n.provider_id == o.provider_id && n.device_id == o.device_id
    &&& n.name == o.name && n.kind == o.kind && n.last_seen == o.last_seen && n.enabled == o.enabled
    &&& n.glyph == o.glyph && n.hw_id == o.hw_id && n.shadowed_by == o.shadowed_by
    &&& n.shadow_auto == o.shadow_auto && n.room_id == o.room_id && n.inherited_room_id == o.inherited_room_id
    &&& n.receiver_name == o.receiver_name && n.group_id == o.group_id
    &&& n.companion_of == o.companion_of && n.remote_id == o.remote_id
}

/// Overlay a companion's complementary state onto its surface: the richer
/// now-playing, a missing source, the union of source lists, the real volume
/// when the surface reads zero, a missing group coordinator, a missing
/// receiver binding, and the union of capabilities.
pub fn merge_companion_into(primary: &mut MediaDeviceRow, companion: &MediaDeviceRow)
    ensures
        media_row_merged(*old(primary), *final(primary), *companion),
{
    merge_companion_state(&mut primary.state, &companion.state);
    if primary.receiver_id.is_none() {
        primary.receiver_id = clone_opt(&companion.receiver_id);
        primary.receiver_source = clone_opt(&companion.receiver_source);
    }
    primary.capabilities.transport = primary.capabilities.transport || companion.capabilities.transport;
    primary.capabilities.sources = primary.capabilities.sources || companion.capabilities.sources;
    primary.capabilities.favorites = primary.capabilities.favorites || companion.capabilities.favorites;
    primary.capabilities.now_playing = primary.capabilities.now_playing || companion.capabilities.now_playing;
    primary.capabilities.grouping = primary.capabilities.grouping || companion.capabilities.grouping;
}

// ── Composite power ──────────────────────────────────────────────────────────

/// One member's contribution to a composite's power/reachability.
#[derive(Clone, Copy, Debug, PartialEq, Eq, Structural)]
pub struct PowerSignal {
    pub reachable: bool,
    pub on: bool,
}

/// A paired remote's cached state.
#[derive(Clone, Copy, Debug, PartialEq, Eq, Structural)]
pub struct RemoteState {
    pub on: bool,
    pub reachable: Option<bool>,
}

impl PowerSignal {
    /// A media view's signal: reachable unless it reports unreachable.
    pub fn media(d: &MediaDeviceRow) -> (s: PowerSignal)
        ensures
            s.reachable == (d.state.reachable != Some(false)),
            s.on == d.state.power,
    {
        PowerSignal { reachable: d.state.reachable != Some(false), on: d.state.power }
    }

    /// A paired remote's signal.
    pub fn remote(rs: &RemoteState) -> (s: PowerSignal)
        ensures
            s.reachable == (rs.reachable != Some(false)),
            s.on == rs.on,
    {
        PowerSignal { reachable: rs.reachable != Some(false), on: rs.on }
    }
}

pub open spec fn any_reachable(s: Seq<PowerSignal>) -> bool {
    exists|i: int| 0 <= i < s.len() && (#[trigger] s[i]).reachable
}

pub open spec fn any_reachable_on(s: Seq<PowerSignal>) -> bool {
    exists|i: int| 0 <= i < s.len() && (#[trigger] s[i]).reachable && s[i].on
}

/// The composite's `(reachable, on)`: any reachable media view decides (on
/// when any reachable one is on); else any reachable remote does; else the
/// primary as it is.
pub open spec fn composite_power_spec(primary: PowerSignal, media: Seq<PowerSignal>, remotes: Seq<PowerSignal>) -> PowerSignal {
    let all = seq![primary] + media;
    if any_reachable(all) {
        PowerSignal { reachable: true, on: any_reachable_on(all) }
    } else if any_reachable(remotes) {
        PowerSignal { reachable: true, on: any_reachable_on(remotes) }
    } else {
        primary
    }
}

fn scan_signals(s: &[PowerSignal]) -> (r: (bool, bool))
    ensures
        r.0 == any_reachable(s@),
        r.1 == any_reachable_on(s@),
{
    let mut reach = false;
    let mut on = false;
    let mut i: usize = 0;
    while i < s.len()
        invariant
            i <= s@.len(),
            reach == any_reachable(s@.subrange(0, i as int)),
            on == any_reachable_on(s@.subrange(0, i as int)),
        decreases s@.len() - i,
    {
        proof {
            let a = s@.subrange(0, i as int);
            let b = s@.subrange(0, i + 1);
            assert forall|k: int| 0 <= k < a.len() implies a[k] == b[k] by {}
            if any_reachable(b) && !any_reachable(a) {
                let k = choose|k: int| 0 <= k < b.len() && (#[trigger] b[k]).reachable;
                assert(k == i);
            }
            if any_reachable_on(b) && !any_reachable_on(a) {
                let k = choose|k: int| 0 <= k < b.len() && (#[trigger] b[k]).reachable && b[k].on;
                assert(k == i);
            }
            if any_reachable(a) {
                let k = choose|k: int| 0 <= k < a.len() && (#[trigger] a[k]).reachable;
                assert(b[k].reachable);
            }
            if any_reachable_on(a) {
                let k = choose|k: int| 0 <= k < a.len() && (#[trigger] a[k]).reachable && a[k].on;
                assert(b[k].reachable && b[k].on);
            }
            if s@[i as int].reachable {
                assert(b[i as int].reachable);
            }
        }
        if s[i].reachable {
            reach = true;
            if s[i].on {
                on = true;
            }
        }
        i = i + 1;
    }
    assert(s@.subrange(0, s@.len() as int) =~= s@);
    (reach, on)
}

/// Resolve a composite's effective `(reachable, on)` from its media views
/// (the primary first) and its paired remotes.
pub fn resolve_composite_power(primary: PowerSignal, media_members: &[PowerSignal], remotes: &[PowerSignal]) -> (r: PowerSignal)
    ensures
        r == composite_power_spec(primary, media_members@, remotes@),
{
    let mut all: Vec<PowerSignal> = Vec::new();
    all.push(primary);
    let mut i: usize = 0;
    while i < media_members.len()
        invariant
            i <= media_members@.len(),
            all@ == seq![primary] + media_members@.subrange(0, i as int),
        decreases media_members@.len() - i,
    {
        all.push(media_members[i]);
        i = i + 1;
        assert(all@ =~= seq![primary] + media_members@.subrange(0, i as int));
    }
    assert(media_members@.subrange(0, media_members@.len() as int) =~= media_members@);
    let (reach, on) = scan_signals(all.as_slice());
    if reach {
        return PowerSignal { reachable: true, on };
    }
    let (rreach, ron) = scan_signals(remotes);
    if rreach {
        return PowerSignal { reachable: true, on: ron };
    }
    primary
}

/// With no reachable media view, a reachable remote makes the composite
/// reachable; while any media view is reachable, remotes never change the
/// verdict.
pub proof fn lemma_media_views_outrank_remotes(primary: PowerSignal, media: Seq<PowerSignal>, r1: Seq<PowerSignal>, r2: Seq<PowerSignal>)
    requires
        any_reachable(seq![primary] + media),
    ensures
        composite_power_spec(primary, media, r1) == composite_power_spec(primary, media, r2),
{
}

/// Which media view is the primary does not matter: swapping the primary
/// with a member gives the same composite power whenever anything (a media
/// view or a remote) is reachable. (With nothing reachable the primary's
/// own reading is left as it is, so there the primary does matter.)
pub proof fn lemma_primary_choice_is_irrelevant(p: PowerSignal, q: PowerSignal, rest: Seq<PowerSignal>, remotes: Seq<PowerSignal>)
    requires
        any_reachable(seq![p] + (seq![q] + rest)) || any_reachable(remotes),
    ensures
        composite_power_spec(p, seq![q] + rest, remotes) == composite_power_spec(q, seq![p] + rest, remotes),
{
    let a = seq![p] + (seq![q] + rest);
    let b = seq![q] + (seq![p] + rest);
    lemma_swapped_signals(a, b);
    lemma_swapped_signals(b, a);
}

/// `b` is `a` with its first two signals swapped: whatever is reachable
/// (and on) in `a` is so in `b`.
proof fn lemma_swapped_signals(a: Seq<PowerSignal>, b: Seq<PowerSignal>)
    requires
        a.len() >= 2,
        b.len() == a.len(),
        b[0] == a[1],
        b[1] == a[0],
        forall|i: int| 2 <= i < a.len() ==> #[trigger] b[i] == a[i],
    ensures
        any_reachable(a) ==> any_reachable(b),
        any_reachable_on(a) ==> any_reachable_on(b),
{
    if any_reachable(a) {
        let k = choose|k: int| 0 <= k < a.len() && (#[trigger] a[k]).reachable;
        let j = if k == 0 { 1 } else if k == 1 { 0 } else { k };
        assert(b[j] == a[k]);
    }
    if any_reachable_on(a) {
        let k = choose|k: int| 0 <= k < a.len() && (#[trigger] a[k]).reachable && a[k].on;
        let j = if k == 0 { 1 } else if k == 1 { 0 } else { k };
        assert(b[j] == a[k]);
    }
}

/// The signal a media view contributes.
pub open spec fn media_signal(d: MediaDeviceRow) -> PowerSignal {
    PowerSignal { reachable: d.state.reachable != Some(false), on: d.state.power }
}

/// `device` with the composite power resolution overlaid: unchanged without
/// members, else its reachability and power resolved from its own signal,
/// its media members' and its remotes'.
pub open spec fn with_composite_power(o: MediaDeviceRow, media: Seq<PowerSignal>, remotes: Seq<PowerSignal>) -> MediaDeviceRow {
    if media.len() == 0 && remotes.len() == 0 {
        o
    } else {
        let p = composite_power_spec(media_signal(o), media, remotes);
        MediaDeviceRow { state: MediaState { reachable: Some(p.reachable), power: p.on, ..o.state }, ..o }
    }
}

/// Overlay the composite power resolution onto `device` (no change for a
/// device without members).
pub fn apply_composite_power(device: &mut MediaDeviceRow, media_members: &[PowerSignal], remotes: &[PowerSignal])
    ensures
        *final(device) == with_composite_power(*old(device), media_members@, remotes@),
{
    if media_members.len() == 0 && remotes.len() == 0 {
        return;
    }
    let resolved = resolve_composite_power(PowerSignal::media(device), media_members, remotes);
    device.state.reachable = Some(resolved.reachable);
    device.state.power = resolved.on;
}

// ── Paired remotes ───────────────────────────────────────────────────────────

/// One remote paired to a media composite.
pub struct PairedRemote {
    pub group_id: String,
    pub remote_id: String,
    pub priority: u8,
    pub state: Option<RemoteState>,
}

/// Whether remote `a` is preferred to `b`: higher priority, then smaller id.
pub open spec fn remote_beats(a: PairedRemote, b: PairedRemote) -> bool {
    a.priority > b.priority || (a.priority == b.priority && seq_lt(a.remote_id@, b.remote_id@))
}

/// Remote `i` of `paired` is preferred to by no remote of its group.
pub open spec fn wins_remote_group(paired: Seq<PairedRemote>, n: int, i: int) -> bool {
    forall|j: int| #![trigger paired[j]] 0 <= j < n && paired[j].group_id@ == paired[i].group_id@ ==> !remote_beats(paired[j], paired[i])
}

/// `entry` names a remote of `paired` that wins its group.
pub open spec fn names_remote(paired: Seq<PairedRemote>, entry: (String, String)) -> bool {
    exists|i: int| 0 <= i < paired.len() && (#[trigger] paired[i]).group_id@ == entry.0@ && paired[i].remote_id@ == entry.1@ && wins_remote_group(paired, paired.len() as int, i)
}

/// `entries` maps each group of `paired` to the remote of that group that no
/// other remote of the group is preferred to.
pub open spec fn best_remotes_of(paired: Seq<PairedRemote>, entries: Seq<(String, String)>) -> bool {
    &&& forall|e: int, f: int| 0 <= e < f < entries.len() ==> #[trigger] entries[e].0@ != #[trigger] entries[f].0@
    &&& forall|e: int| 0 <= e < entries.len() ==> names_remote(paired, #[trigger] entries[e])
    &&& forall|i: int| 0 <= i < paired.len() ==> has_key(entries, (#[trigger] paired[i]).group_id@)
}

fn remote_beats_exec(a: &PairedRemote, b: &PairedRemote) -> (r: bool)
    ensures
        r == remote_beats(*a, *b),
{
    if a.priority != b.priority {
        return a.priority > b.priority;
    }
    let ai = chars_of(a.remote_id.as_str());
    let bi = chars_of(b.remote_id.as_str());
    chars_lt(&ai, &bi)
}

/// The remote surfaced for control, per composite group: the highest
/// priority one, ties broken on the smallest id.
pub fn best_remote_per_group(paired: &Vec<PairedRemote>) -> (r: Vec<(String, String)>)
    ensures
        best_remotes_of(paired@, r@),
{
    let mut best: Vec<(String, String)> = Vec::new();
    let mut best_idx: Vec<usize> = Vec::new();
    let mut i: usize = 0;
    while i < paired.len()
        invariant
            i <= paired@.len(),
            best_idx@.len() == best@.len(),
            forall|e: int| 0 <= e < best@.len() ==> (#[trigger] best_idx@[e]) < i && paired@[best_idx@[e] as int].group_id@ == best@[e].0@ && paired@[best_idx@[e] as int].remote_id@ == best@[e].1@ && wins_remote_group(paired@, i as int, best_idx@[e] as int),
            forall|e: int, f: int| 0 <= e < f < best@.len() ==> #[trigger] best@[e].0@ != #[trigger] best@[f].0@,
            forall|j: int| 0 <= j < i ==> has_key(best@, (#[trigger] paired@[j]).group_id@),
        decreases paired@.len() - i,
    {
        let g = chars_of(paired[i].group_id.as_str());
        let (found, e) = find_key(&best, &g);
        let ghost old_best = best@;
        let ghost old_idx = best_idx@;
        if found {
            let cur = best_idx[e];
            if remote_beats_exec(&paired[i], &paired[cur]) {
                proof {
                    lemma_new_remote(paired@, i as int, cur as int);
                    assert forall|e2: int| 0 <= e2 < old_best.len() && e2 != e implies wins_remote_group(paired@, i + 1, #[trigger] old_idx[e2] as int) by {
                        lemma_extend_remote(paired@, i as int, old_idx[e2] as int);
                    }
                }
                best.set(e, (paired[i].group_id.clone(), paired[i].remote_id.clone()));
                best_idx.set(e, i);
            } else {
                proof {
                    assert forall|e2: int| 0 <= e2 < old_best.len() implies wins_remote_group(paired@, i + 1, #[trigger] old_idx[e2] as int) by {
                        lemma_extend_remote(paired@, i as int, old_idx[e2] as int);
                    }
                }
            }
            proof {
                assert forall|j: int| 0 <= j < i + 1 implies has_key(best@, (#[trigger] paired@[j]).group_id@) by {
                    if j == i {
                        assert(best@[e as int].0@ == paired@[j].group_id@);
                    } else {
                        let e3 = choose|e3: int| 0 <= e3 < old_best.len() && (#[trigger] old_best[e3]).0@ == paired@[j].group_id@;
                        assert(best@[e3].0@ == paired@[j].group_id@);
                    }
                }
            }
        } else {
            proof {
                assert forall|j: int| 0 <= j < i implies (#[trigger] paired@[j]).group_id@ != paired@[i as int].group_id@ by {
                    let e3 = choose|e3: int| 0 <= e3 < old_best.len() && (#[trigger] old_best[e3]).0@ == paired@[j].group_id@;
                    assert(old_best[e3].0@ != g@);
                }
                lemma_new_remote_fresh(paired@, i as int);
                assert forall|e2: int| 0 <= e2 < old_best.len() implies wins_remote_group(paired@, i + 1, #[trigger] old_idx[e2] as int) by {
                    lemma_extend_remote(paired@, i as int, old_idx[e2] as int);
                }
            }
            best.push((paired[i].group_id.clone(), paired[i].remote_id.clone()));
            best_idx.push(i);
            proof {
                assert forall|j: int| 0 <= j < i + 1 implies has_key(best@, (#[trigger] paired@[j]).group_id@) by {
                    if j == i {
                        assert(best@[old_best.len() as int].0@ == paired@[j].group_id@);
                    } else {
                        let e3 = choose|e3: int| 0 <= e3 < old_best.len() && (#[trigger] old_best[e3]).0@ == paired@[j].group_id@;
                        assert(best@[e3].0@ == paired@[j].group_id@);
                    }
                }
            }
        }
        i = i + 1;
    }
    proof {
        assert forall|e: int| 0 <= e < best@.len() implies names_remote(paired@, #[trigger] best@[e]) by {
            let k = best_idx@[e] as int;
            assert(paired@[k].group_id@ == best@[e].0@);
        }
    }
    best
}

/// What ranks a paired remote: its group, id and priority.
pub open spec fn remote_key(p: PairedRemote) -> (Seq<char>, Seq<char>, u8) {
    (p.group_id@, p.remote_id@, p.priority)
}

/// Some remote of `ps` has the rank key `k`.
pub open spec fn lists_remote(ps: Seq<PairedRemote>, k: (Seq<char>, Seq<char>, u8)) -> bool {
    exists|j: int| 0 <= j < ps.len() && #[trigger] remote_key(ps[j]) == k
}

/// Every remote of `a` is listed (by rank key) in `b`.
pub open spec fn remotes_within(a: Seq<PairedRemote>, b: Seq<PairedRemote>) -> bool {
    forall|i: int| 0 <= i < a.len() ==> lists_remote(b, #[trigger] remote_key(a[i]))
}

/// The surfaced remote does not depend on the order the pairings are
/// listed in (nor on repeats): two listings of the same remotes surface the
/// same remote for a group.
pub proof fn lemma_surfaced_remote_ignores_order(
    p1: Seq<PairedRemote>,
    p2: Seq<PairedRemote>,
    r1: Seq<(String, String)>,
    r2: Seq<(String, String)>,
    e1: int,
    e2: int,
)
    requires
        best_remotes_of(p1, r1),
        best_remotes_of(p2, r2),
        remotes_within(p1, p2),
        remotes_within(p2, p1),
        0 <= e1 < r1.len(),
        0 <= e2 < r2.len(),
        r1[e1].0@ == r2[e2].0@,
    ensures
        r1[e1].1@ == r2[e2].1@,
{
    assert(names_remote(p1, r1[e1]));
    assert(names_remote(p2, r2[e2]));
    let i1 = choose|i: int| 0 <= i < p1.len() && (#[trigger] p1[i]).group_id@ == r1[e1].0@ && p1[i].remote_id@ == r1[e1].1@ && wins_remote_group(p1, p1.len() as int, i);
    let i2 = choose|i: int| 0 <= i < p2.len() && (#[trigger] p2[i]).group_id@ == r2[e2].0@ && p2[i].remote_id@ == r2[e2].1@ && wins_remote_group(p2, p2.len() as int, i);
    assert(lists_remote(p2, remote_key(p1[i1])));
    let j2 = choose|j: int| 0 <= j < p2.len() && #[trigger] remote_key(p2[j]) == remote_key(p1[i1]);
    assert(lists_remote(p1, remote_key(p2[i2])));
    let j1 = choose|j: int| 0 <= j < p1.len() && #[trigger] remote_key(p1[j]) == remote_key(p2[i2]);
    assert(p2[j2].group_id@ == p2[i2].group_id@);
    assert(!remote_beats(p2[j2], p2[i2]));
    assert(p1[j1].group_id@ == p1[i1].group_id@);
    assert(!remote_beats(p1[j1], p1[i1]));
    if p1[i1].remote_id@ != p2[i2].remote_id@ {
        lemma_seq_lt_total(p1[i1].remote_id@, p2[i2].remote_id@);
    }
}

/// A remote preferred to its group's current best also wins the group.
proof fn lemma_new_remote(paired: Seq<PairedRemote>, i: int, cur: int)
    requires
        0 <= cur < i < paired.len(),
        paired[cur].group_id@ == paired[i].group_id@,
        wins_remote_group(paired, i, cur),
        remote_beats(paired[i], paired[cur]),
    ensures
        wins_remote_group(paired, i + 1, i),
{
    assert forall|j: int| #![trigger paired[j]] 0 <= j < i + 1 && paired[j].group_id@ == paired[i].group_id@ implies !remote_beats(paired[j], paired[i]) by {
        if j < i {
            if remote_beats(paired[j], paired[i]) {
                if paired[j].priority == paired[i].priority && paired[i].priority == paired[cur].priority {
                    lemma_seq_lt_trans(paired[j].remote_id@, paired[i].remote_id@, paired[cur].remote_id@);
                }
            }
        } else if remote_beats(paired[j], paired[j]) {
            lemma_seq_lt_irreflexive(paired[j].remote_id@);
        }
    }
}

/// The first remote seen of its group wins it.
proof fn lemma_new_remote_fresh(paired: Seq<PairedRemote>, i: int)
    requires
        0 <= i < paired.len(),
        forall|j: int| 0 <= j < i ==> (#[trigger] paired[j]).group_id@ != paired[i].group_id@,
    ensures
        wins_remote_group(paired, i + 1, i),
{
    assert forall|j: int| #![trigger paired[j]] 0 <= j < i + 1 && paired[j].group_id@ == paired[i].group_id@ implies !remote_beats(paired[j], paired[i]) by {
        if remote_beats(paired[j], paired[j]) {
            lemma_seq_lt_irreflexive(paired[j].remote_id@);
        }
    }
}

/// A winner stays a winner when the next remote does not beat it.
proof fn lemma_extend_remote(paired: Seq<PairedRemote>, i: int, k: int)
    requires
        0 <= k < i < paired.len(),
        wins_remote_group(paired, i, k),
        paired[i].group_id@ == paired[k].group_id@ ==> !remote_beats(paired[i], paired[k]),
    ensures
        wins_remote_group(paired, i + 1, k),
{
    assert forall|j: int| #![trigger paired[j]] 0 <= j < i + 1 && paired[j].group_id@ == paired[k].group_id@ implies !remote_beats(paired[j], paired[k]) by {
        if j < i {
            assert(paired[j] == paired[j]);
        }
    }
}

// ── Command routing across a composite's backings ───────────────────────────

/// One backing entity of a composite device, for command routing.
pub struct Backing {
    pub id: String,
    /// Display name, for the routing diagnostic.
    pub name: String,
    pub capabilities: MediaCapabilities,
    /// The receiver this backing's volume/mute route to, if any.
    pub receiver_id: Option<String>,
    /// This backing routes its volume/mute to a receiver.
    pub receiver_bound: bool,
    /// This backing is the one reporting playback.
    pub has_now_playing: bool,
    /// Last reported volume; non-zero marks the backing carrying audio.
    pub volume: u8,
    /// Authority for a contested control.
    pub priority: u8,
}

/// Which backings may take a contested control.
#[derive(Clone, Copy, Debug, PartialEq, Eq, Structural)]
pub enum Capable {
    CarryingAudio,
    Transport,
    Sources,
    Favorites,
    Any,
}

pub open spec fn capable(b: Backing, c: Capable) -> bool {
    match c {
        Capable::CarryingAudio => b.volume > 0,
        Capable::Transport => b.capabilities.transport,
        Capable::Sources => b.capabilities.sources,
        Capable::Favorites => b.capabilities.favorites,
        Capable::Any => true,
    }
}

pub open spec fn any_capable(bs: Seq<Backing>, c: Capable) -> bool {
    exists|j: int| 0 <= j < bs.len() && capable(#[trigger] bs[j], c)
}

/// `r` is the earliest of the highest-priority backings capable of `c`, or
/// the primary (index 0) when none is.
pub open spec fn picked(bs: Seq<Backing>, c: Capable, r: int) -> bool {
    if any_capable(bs, c) {
        &&& 0 <= r < bs.len() && capable(bs[r], c)
        &&& forall|j: int| 0 <= j < bs.len() && capable(#[trigger] bs[j], c) ==> bs[j].priority <= bs[r].priority
        &&& forall|j: int| 0 <= j < r && capable(#[trigger] bs[j], c) ==> bs[j].priority < bs[r].priority
    } else {
        r == 0
    }
}

/// The backing a contested control capable of `c` goes to.
pub open spec fn pick_spec(bs: Seq<Backing>, c: Capable) -> int {
    choose|r: int| picked(bs, c, r)
}

proof fn lemma_picked_unique(bs: Seq<Backing>, c: Capable, r1: int, r2: int)
    requires
        picked(bs, c, r1),
        picked(bs, c, r2),
    ensures
        r1 == r2,
{
    if any_capable(bs, c) {
        if r1 < r2 {
            assert(capable(bs[r1], c));
        } else if r2 < r1 {
            assert(capable(bs[r2], c));
        }
    }
}

proof fn lemma_pick_spec(bs: Seq<Backing>, c: Capable, r: int)
    requires
        picked(bs, c, r),
    ensures
        pick_spec(bs, c) == r,
{
    lemma_picked_unique(bs, c, pick_spec(bs, c), r);
}

fn capable_exec(b: &Backing, c: Capable) -> (r: bool)
    ensures
        r == capable(*b, c),
{
    match c {
        Capable::CarryingAudio => b.volume > 0,
        Capable::Transport => b.capabilities.transport,
        Capable::Sources => b.capabilities.sources,
        Capable::Favorites => b.capabilities.favorites,
        Capable::Any => true,
    }
}

/// The highest-priority backing capable of `c` (ties keep the earliest, the
/// primary first), else the primary.
pub fn pick_best(backings: &Vec<Backing>, c: Capable) -> (r: usize)
    requires
        backings@.len() > 0,
    ensures
        r < backings@.len(),
        r == pick_spec(backings@, c),
        picked(backings@, c, r as int),
{
    let mut best: Option<usize> = None;
    let mut i: usize = 0;
    while i < backings.len()
        invariant
            i <= backings@.len(),
            match best {
                None => forall|j: int| 0 <= j < i ==> !capable(#[trigger] backings@[j], c),
                Some(k) => k < i && capable(backings@[k as int], c)
                    && (forall|j: int| 0 <= j < i && capable(#[trigger] backings@[j], c) ==> backings@[j].priority <= backings@[k as int].priority)
                    && (forall|j: int| 0 <= j < k && capable(#[trigger] backings@[j], c) ==> backings@[j].priority < backings@[k as int].priority),
            },
        decreases backings@.len() - i,
    {
        if capable_exec(&backings[i], c) {
            match best {
                Some(k) => {
                    if backings[k].priority < backings[i].priority {
                        best = Some(i);
                    }
                },
                None => {
                    best = Some(i);
                },
            }
        }
        i = i + 1;
    }
    let r = match best {
        Some(k) => k,
        None => 0,
    };
    proof {
        if best is None {
            assert(!any_capable(backings@, c));
        }
        lemma_pick_spec(backings@, c, r as int);
    }
    r
}

/// Why a control routes where it does.
#[derive(Clone, Copy, Debug, PartialEq, Eq, Structural)]
pub enum RouteReason {
    BoundToReceiver,
    CarryingAudio,
    NoAudioSource,
    CurrentlyPlaying,
    TransportCapable,
    NoTransportCapable,
    SourceCapable,
    NoSourceCapable,
    MostAuthoritative,
    FavoritesCapable,
}

impl RouteReason {
    pub open spec fn text_spec(self) -> Seq<char> {
        match self {
            RouteReason::BoundToReceiver => "bound to a receiver"@,
            RouteReason::CarryingAudio => "carrying audio (volume > 0)"@,
            RouteReason::NoAudioSource => "default — primary (no audio source)"@,
            RouteReason::CurrentlyPlaying => "currently playing"@,
            RouteReason::TransportCapable => "most authoritative transport-capable"@,
            RouteReason::NoTransportCapable => "default — primary (none transport-capable)"@,
            RouteReason::SourceCapable => "most authoritative source-capable"@,
            RouteReason::NoSourceCapable => "default — primary (none source-capable)"@,
            RouteReason::MostAuthoritative => "most authoritative"@,
            RouteReason::FavoritesCapable => "most authoritative favorites-capable"@,
        }
    }

    /// The human-readable reason.
    pub fn text(self) -> (s: String)
        ensures
            s@ == self.text_spec(),
    {
        match self {
            RouteReason::BoundToReceiver => "bound to a receiver".to_owned(),
            RouteReason::CarryingAudio => "carrying audio (volume > 0)".to_owned(),
            RouteReason::NoAudioSource => "default — primary (no audio source)".to_owned(),
            RouteReason::CurrentlyPlaying => "currently playing".to_owned(),
            RouteReason::TransportCapable => "most authoritative transport-capable".to_owned(),
            RouteReason::NoTransportCapable => "default — primary (none transport-capable)".to_owned(),
            RouteReason::SourceCapable => "most authoritative source-capable".to_owned(),
            RouteReason::NoSourceCapable => "default — primary (none source-capable)".to_owned(),
            RouteReason::MostAuthoritative => "most authoritative".to_owned(),
            RouteReason::FavoritesCapable => "most authoritative favorites-capable".to_owned(),
        }
    }
}

pub open spec fn is_bound(b: Backing) -> bool {
    b.receiver_bound
}

pub open spec fn is_playing(b: Backing) -> bool {
    b.capabilities.transport && b.has_now_playing
}

pub open spec fn any_bound(bs: Seq<Backing>) -> bool {
    exists|j: int| 0 <= j < bs.len() && is_bound(#[trigger] bs[j])
}

pub open spec fn any_playing(bs: Seq<Backing>) -> bool {
    exists|j: int| 0 <= j < bs.len() && is_playing(#[trigger] bs[j])
}

/// The first receiver-bound backing.
pub open spec fn first_bound(bs: Seq<Backing>) -> int {
    choose|r: int| 0 <= r < bs.len() && is_bound(bs[r]) && forall|j: int| 0 <= j < r ==> !is_bound(#[trigger] bs[j])
}

/// The first backing that controls transport and reports playback.
pub open spec fn first_playing(bs: Seq<Backing>) -> int {
    choose|r: int| 0 <= r < bs.len() && is_playing(bs[r]) && forall|j: int| 0 <= j < r ==> !is_playing(#[trigger] bs[j])
}

/// Some backing is picked for a capability: the earliest of the
/// highest-priority capable backings, or the primary when none is capable.
proof fn lemma_pick_exists(bs: Seq<Backing>, c: Capable)
    requires
        bs.len() > 0,
    ensures
        picked(bs, c, pick_spec(bs, c)),
    decreases bs.len(),
{
    if !any_capable(bs, c) {
        lemma_pick_spec(bs, c, 0);
        return;
    }
    let t = bs.drop_last();
    let n = bs.len() - 1;
    let last = bs[n];
    if t.len() > 0 && any_capable(t, c) {
        lemma_pick_exists(t, c);
        let r0 = pick_spec(t, c);
        assert forall|j: int| 0 <= j < t.len() implies #[trigger] t[j] == bs[j] by {}
        if capable(last, c) && last.priority > bs[r0].priority {
            assert(picked(bs, c, n)) by {
                assert forall|j: int| 0 <= j < bs.len() && capable(#[trigger] bs[j], c) implies bs[j].priority <= bs[n].priority by {
                    if j < n {
                        assert(capable(t[j], c));
                    }
                }
                assert forall|j: int| 0 <= j < n && capable(#[trigger] bs[j], c) implies bs[j].priority < bs[n].priority by {
                    assert(capable(t[j], c));
                }
            }
            lemma_pick_spec(bs, c, n);
        } else {
            assert(picked(bs, c, r0)) by {
                assert(capable(t[r0], c));
                assert forall|j: int| 0 <= j < bs.len() && capable(#[trigger] bs[j], c) implies bs[j].priority <= bs[r0].priority by {
                    if j < n {
                        assert(capable(t[j], c));
                    }
                }
                assert forall|j: int| 0 <= j < r0 && capable(#[trigger] bs[j], c) implies bs[j].priority < bs[r0].priority by {
                    assert(capable(t[j], c));
                }
            }
            lemma_pick_spec(bs, c, r0);
        }
    } else {
        let w = choose|j: int| 0 <= j < bs.len() && capable(#[trigger] bs[j], c);
        if w < n {
            assert(t[w] == bs[w]);
            assert(any_capable(t, c));
        }
        assert(capable(last, c));
        assert(picked(bs, c, n)) by {
            assert forall|j: int| 0 <= j < n && capable(#[trigger] bs[j], c) implies false by {
                assert(t[j] == bs[j]);
                assert(any_capable(t, c));
            }
        }
        lemma_pick_spec(bs, c, n);
    }
}

/// Transport goes to a backing that controls playback: when any backing
/// has transport capability the target has it too (a backing that only
/// reports playback is never chosen); the first backing that both controls
/// transport and reports playback wins ("currently playing"); only when no
/// backing has transport does the command stay with the primary.
pub proof fn lemma_transport_goes_to_a_transport_backing(bs: Seq<Backing>)
    requires
        bs.len() > 0,
    ensures
        0 <= transport_target(bs) < bs.len(),
        (exists|j: int| 0 <= j < bs.len() && (#[trigger] bs[j]).capabilities.transport) ==> bs[transport_target(bs)].capabilities.transport,
        !(exists|j: int| 0 <= j < bs.len() && (#[trigger] bs[j]).capabilities.transport) ==> transport_target(bs) == 0
            && transport_reason(bs) == RouteReason::NoTransportCapable,
        (exists|j: int| 0 <= j < bs.len() && (#[trigger] bs[j]).capabilities.transport && bs[j].has_now_playing) ==> {
            &&& bs[transport_target(bs)].capabilities.transport
            &&& bs[transport_target(bs)].has_now_playing
            &&& transport_reason(bs) == RouteReason::CurrentlyPlaying
            &&& forall|j: int| 0 <= j < transport_target(bs) ==> !((#[trigger] bs[j]).capabilities.transport && bs[j].has_now_playing)
        },
        transport_reason(bs) == RouteReason::CurrentlyPlaying ==> bs[transport_target(bs)].capabilities.transport && bs[transport_target(bs)].has_now_playing,
        transport_reason(bs) == RouteReason::TransportCapable ==> bs[transport_target(bs)].capabilities.transport
            && forall|j: int| 0 <= j < bs.len() ==> !((#[trigger] bs[j]).capabilities.transport && bs[j].has_now_playing),
{
    lemma_pick_exists(bs, Capable::Transport);
    if exists|j: int| 0 <= j < bs.len() && (#[trigger] bs[j]).capabilities.transport && bs[j].has_now_playing {
        let w = choose|j: int| 0 <= j < bs.len() && (#[trigger] bs[j]).capabilities.transport && bs[j].has_now_playing;
        assert(is_playing(bs[w]));
        assert(any_playing(bs));
        lemma_first_playing_exists(bs);
    } else {
        assert(!any_playing(bs));
        if exists|j: int| 0 <= j < bs.len() && (#[trigger] bs[j]).capabilities.transport {
            let w = choose|j: int| 0 <= j < bs.len() && (#[trigger] bs[j]).capabilities.transport;
            assert(capable(bs[w], Capable::Transport));
        } else {
            assert(!any_capable(bs, Capable::Transport));
        }
    }
}

/// When some backing controls transport and reports playback, the first
/// such backing is well defined.
proof fn lemma_first_playing_exists(bs: Seq<Backing>)
    requires
        any_playing(bs),
    ensures
        0 <= first_playing(bs) < bs.len(),
        is_playing(bs[first_playing(bs)]),
        forall|j: int| 0 <= j < first_playing(bs) ==> !is_playing(#[trigger] bs[j]),
    decreases bs.len(),
{
    let t = bs.drop_last();
    if any_playing(t) {
        lemma_first_playing_exists(t);
        let f = first_playing(t);
        assert(t[f] == bs[f]);
        assert forall|j: int| 0 <= j < f implies !is_playing(#[trigger] bs[j]) by {
            assert(t[j] == bs[j]);
        }
    } else {
        let n = bs.len() - 1;
        let w = choose|j: int| 0 <= j < bs.len() && is_playing(#[trigger] bs[j]);
        if w < n {
            assert(t[w] == bs[w]);
        }
        assert forall|j: int| 0 <= j < n implies !is_playing(#[trigger] bs[j]) by {
            assert(t[j] == bs[j]);
        }
        assert(0 <= n < bs.len() && is_playing(bs[n]) && forall|j: int| 0 <= j < n ==> !is_playing(#[trigger] bs[j]));
    }
}

/// Volume/mute: the first receiver-bound backing, else the best one
/// carrying audio, else the primary.
pub open spec fn volume_target(bs: Seq<Backing>) -> int {
    if any_bound(bs) {
        first_bound(bs)
    } else {
        pick_spec(bs, Capable::CarryingAudio)
    }
}

pub open spec fn volume_reason(bs: Seq<Backing>) -> RouteReason {
    if any_bound(bs) {
        RouteReason::BoundToReceiver
    } else if any_capable(bs, Capable::CarryingAudio) {
        RouteReason::CarryingAudio
    } else {
        RouteReason::NoAudioSource
    }
}

/// Transport: the first backing playing, else the best transport-capable
/// one, else the primary.
pub open spec fn transport_target(bs: Seq<Backing>) -> int {
    if any_playing(bs) {
        first_playing(bs)
    } else {
        pick_spec(bs, Capable::Transport)
    }
}

pub open spec fn transport_reason(bs: Seq<Backing>) -> RouteReason {
    if any_playing(bs) {
        RouteReason::CurrentlyPlaying
    } else if bs[pick_spec(bs, Capable::Transport)].capabilities.transport {
        RouteReason::TransportCapable
    } else {
        RouteReason::NoTransportCapable
    }
}

pub open spec fn source_reason(bs: Seq<Backing>) -> RouteReason {
    if bs[pick_spec(bs, Capable::Sources)].capabilities.sources {
        RouteReason::SourceCapable
    } else {
        RouteReason::NoSourceCapable
    }
}

fn find_first_bound(bs: &Vec<Backing>) -> (r: Option<usize>)
    ensures
        match r {
            Some(k) => k < bs@.len() && is_bound(bs@[k as int]) && (forall|j: int| 0 <= j < k ==> !is_bound(#[trigger] bs@[j])) && k == first_bound(bs@),
            None => !any_bound(bs@),
        },
{
    let mut i: usize = 0;
    while i < bs.len()
        invariant
            i <= bs@.len(),
            forall|j: int| 0 <= j < i ==> !is_bound(#[trigger] bs@[j]),
        decreases bs@.len() - i,
    {
        if bs[i].receiver_bound {
            proof {
                let f = first_bound(bs@);
                assert(0 <= i < bs@.len() && is_bound(bs@[i as int]) && forall|j: int| 0 <= j < i ==> !is_bound(#[trigger] bs@[j]));
                if f < i {
                    assert(!is_bound(bs@[f]));
                } else if f > i {
                    assert(!is_bound(bs@[i as int]));
                }
            }
            return Some(i);
        }
        i = i + 1;
    }
    None
}

fn find_first_playing(bs: &Vec<Backing>) -> (r: Option<usize>)
    ensures
        match r {
            Some(k) => k < bs@.len() && is_playing(bs@[k as int]) && k == first_playing(bs@),
            None => !any_playing(bs@),
        },
{
    let mut i: usize = 0;
    while i < bs.len()
        invariant
            i <= bs@.len(),
            forall|j: int| 0 <= j < i ==> !is_playing(#[trigger] bs@[j]),
        decreases bs@.len() - i,
    {
        if bs[i].capabilities.transport && bs[i].has_now_playing {
            proof {
                let f = first_playing(bs@);
                assert(0 <= i < bs@.len() && is_playing(bs@[i as int]) && forall|j: int| 0 <= j < i ==> !is_playing(#[trigger] bs@[j]));
                if f < i {
                    assert(!is_playing(bs@[f]));
                } else if f > i {
                    assert(!is_playing(bs@[i as int]));
                }
            }
            return Some(i);
        }
        i = i + 1;
    }
    None
}

fn any_carrying(bs: &Vec<Backing>) -> (r: bool)
    ensures
        r == any_capable(bs@, Capable::CarryingAudio),
{
    let mut i: usize = 0;
    while i < bs.len()
        invariant
            i <= bs@.len(),
            forall|j: int| 0 <= j < i ==> !capable(#[trigger] bs@[j], Capable::CarryingAudio),
        decreases bs@.len() - i,
    {
        if bs[i].volume > 0 {
            assert(capable(bs@[i as int], Capable::CarryingAudio));
            return true;
        }
        i = i + 1;
    }
    false
}

/// Where volume/mute go, and why.
pub fn route_volume(backings: &Vec<Backing>) -> (r: (usize, RouteReason))
    requires
        backings@.len() > 0,
    ensures
        r.0 < backings@.len(),
        r.0 == volume_target(backings@),
        r.1 == volume_reason(backings@),
{
    match find_first_bound(backings) {
        Some(k) => (k, RouteReason::BoundToReceiver),
        None => {
            let b = pick_best(backings, Capable::CarryingAudio);
            if any_carrying(backings) {
                (b, RouteReason::CarryingAudio)
            } else {
                (b, RouteReason::NoAudioSource)
            }
        },
    }
}

/// Where transport goes, and why.
pub fn route_transport(backings: &Vec<Backing>) -> (r: (usize, RouteReason))
    requires
        backings@.len() > 0,
    ensures
        r.0 < backings@.len(),
        r.0 == transport_target(backings@),
        r.1 == transport_reason(backings@),
{
    match find_first_playing(backings) {
        Some(k) => (k, RouteReason::CurrentlyPlaying),
        None => {
            let b = pick_best(backings, Capable::Transport);
            if backings[b].capabilities.transport {
                (b, RouteReason::TransportCapable)
            } else {
                (b, RouteReason::NoTransportCapable)
            }
        },
    }
}

/// Where source/app selection goes, and why.
pub fn route_source(backings: &Vec<Backing>) -> (r: (usize, RouteReason))
    requires
        backings@.len() > 0,
    ensures
        r.0 < backings@.len(),
        r.0 == pick_spec(backings@, Capable::Sources),
        r.1 == source_reason(backings@),
{
    let b = pick_best(backings, Capable::Sources);
    if backings[b].capabilities.sources {
        (b, RouteReason::SourceCapable)
    } else {
        (b, RouteReason::NoSourceCapable)
    }
}

/// Where power goes: the highest-priority backing (the earliest on a tie).
pub fn route_power(backings: &Vec<Backing>) -> (r: (usize, RouteReason))
    requires
        backings@.len() > 0,
    ensures
        r.0 < backings@.len(),
        r.0 == pick_spec(backings@, Capable::Any),
        r.1 == RouteReason::MostAuthoritative,
{
    (pick_best(backings, Capable::Any), RouteReason::MostAuthoritative)
}

/// The targets of `cmd` across the backings `bs` (the primary first).
pub open spec fn backing_targets(cmd: MediaCommand, bs: Seq<Backing>) -> Targets {
    targets_of(
        cmd,
        bs[volume_target(bs)].id@,
        bs[transport_target(bs)].id@,
        bs[pick_spec(bs, Capable::Sources)].id@,
        bs[pick_spec(bs, Capable::Any)].id@,
    )
}

/// Split `cmd` across a composite's backings (`backings[0]` is the primary):
/// one part per target backing, in ascending id order.
pub fn route_across_backings(cmd: &MediaCommand, backings: &Vec<Backing>) -> (parts: Vec<(String, MediaCommand)>)
    requires
        backings@.len() > 0,
    ensures
        assembled(parts@, *cmd, backing_targets(*cmd, backings@)),
{
    let (v, _) = route_volume(backings);
    let (t, _) = route_transport(backings);
    let (s, _) = route_source(backings);
    let (p, _) = route_power(backings);
    assemble_parts(cmd, &backings[v].id, &backings[t].id, &backings[s].id, &backings[p].id)
}

// ── Routing diagnostic ───────────────────────────────────────────────────────

/// One row of the composite precedence diagnostic: which member a control
/// resolves to, and why.
pub struct ControlRoute {
    pub control: String,
    pub device_id: String,
    pub device_name: String,
    pub reason: String,
}

pub open spec fn row_is(row: ControlRoute, control: Seq<char>, b: Backing, reason: Seq<char>) -> bool {
    row.control@ == control && row.device_id@ == b.id@ && row.device_name@ == b.name@ && row.reason@ == reason
}

/// The volume row's reason: the route reason, followed by the receiver's
/// name when the volume backing is bound to a receiver whose name is known.
pub open spec fn volume_reason_text(bs: Seq<Backing>, receiver_name: Option<String>) -> Seq<char> {
    match (bs[volume_target(bs)].receiver_id, receiver_name) {
        (Some(_), Some(n)) => volume_reason(bs).text_spec() + " → "@ + n@,
        _ => volume_reason(bs).text_spec(),
    }
}

fn route_row(control: &str, b: &Backing, reason: String) -> (r: ControlRoute)
    ensures
        row_is(r, control@, *b, reason@),
{
    ControlRoute { control: control.to_owned(), device_id: b.id.clone(), device_name: b.name.clone(), reason }
}

/// The per-control precedence map of a composite: power, volume/mute,
/// transport, source/app, favorites (when any backing offers them) and the
/// surfaced remote (when the composite has one, given as `(id, name)`).
/// `receiver_name` is the display name of the volume backing's receiver.
pub fn control_routes(backings: &Vec<Backing>, receiver_name: Option<String>, remote: Option<(String, String)>) -> (r: Vec<ControlRoute>)
    ensures
        backings@.len() == 0 ==> r@.len() == 0,
        backings@.len() > 0 ==> {
            let bs = backings@;
            let fav = any_capable(bs, Capable::Favorites);
            let n = 4 + (if fav { 1int } else { 0int });
            &&& r@.len() == n + (if remote is Some { 1int } else { 0int })
            &&& row_is(r@[0], "power"@, bs[pick_spec(bs, Capable::Any)], RouteReason::MostAuthoritative.text_spec())
            &&& row_is(r@[1], "volume / mute"@, bs[volume_target(bs)], volume_reason_text(bs, receiver_name))
            &&& row_is(r@[2], "transport"@, bs[transport_target(bs)], transport_reason(bs).text_spec())
            &&& row_is(r@[3], "source / app"@, bs[pick_spec(bs, Capable::Sources)], source_reason(bs).text_spec())
            &&& fav ==> row_is(r@[4], "favorites"@, bs[pick_spec(bs, Capable::Favorites)], RouteReason::FavoritesCapable.text_spec())
            &&& match remote {
                Some((id, name)) => r@[n].control@ == "remote keys / apps"@ && r@[n].device_id@ == id@
                    && r@[n].device_name@ == name@ && r@[n].reason@ == "highest-authority paired remote"@,
                None => true,
            }
        },
{
    let mut out: Vec<ControlRoute> = Vec::new();
    if backings.len() == 0 {
        return out;
    }
    let (p, why) = route_power(backings);
    out.push(route_row("power", &backings[p], why.text()));
    let (v, why) = route_volume(backings);
    let mut reason = why.text();
    match (&backings[v].receiver_id, &receiver_name) {
        (Some(_), Some(n)) => {
            push_str(&mut reason, " → ");
            push_str(&mut reason, n.as_str());
        },
        _ => {},
    }
    out.push(route_row("volume / mute", &backings[v], reason));
    let (t, why) = route_transport(backings);
    out.push(route_row("transport", &backings[t], why.text()));
    let (s, why) = route_source(backings);
    out.push(route_row("source / app", &backings[s], why.text()));
    let fav = pick_best(backings, Capable::Favorites);
    if backings[fav].capabilities.favorites {
        out.push(route_row("favorites", &backings[fav], RouteReason::FavoritesCapable.text()));
    } else {
        proof {
            if any_capable(backings@, Capable::Favorites) {
                assert(capable(backings@[fav as int], Capable::Favorites));
            }
        }
    }
    match remote {
        Some((id, name)) => {
            out.push(ControlRoute {
                control: "remote keys / apps".to_owned(),
                device_id: id,
                device_name: name,
                reason: "highest-authority paired remote".to_owned(),
            });
        },
        None => {},
    }
    out
}

// ── Outcomes of the media services ───────────────────────────────────────────

/// Outcome of a provider grouping call.
#[derive(Debug, PartialEq, Eq)]
pub enum GroupOutcome {
    Done,
    NotFound,
    BadRequest(String),
    Unreachable,
    Db,
}

/// Map a provider grouping call's result: a "not supported" provider or a
/// rejected request (such as grouping a speaker with itself) is the caller's
/// mistake; any other failure is the gateway's.
pub fn map_group_result(res: Result<(), String>) -> (r: GroupOutcome)
    ensures
        match res {
            Ok(()) => r == GroupOutcome::Done,
            Err(e) => if contains_sub(e@, "not support"@) || contains_sub(e@, "itself"@) {
                r == GroupOutcome::BadRequest(e)
            } else {
                r == GroupOutcome::Unreachable
            },
        },
{
    match res {
        Ok(()) => GroupOutcome::Done,
        Err(e) => {
            if str_contains(e.as_str(), "not support") || str_contains(e.as_str(), "itself") {
                GroupOutcome::BadRequest(e)
            } else {
                GroupOutcome::Unreachable
            }
        },
    }
}

/// The HTTP status of a grouping outcome.
pub fn group_status(o: &GroupOutcome) -> (code: u16)
    ensures
        code == match *o {
            GroupOutcome::Done => 204u16,
            GroupOutcome::NotFound => 404u16,
            GroupOutcome::BadRequest(_) => 422u16,
            GroupOutcome::Unreachable => 502u16,
            GroupOutcome::Db => 500u16,
        },
{
    match o {
        GroupOutcome::Done => 204,
        GroupOutcome::NotFound => 404,
        GroupOutcome::BadRequest(_) => 422,
        GroupOutcome::Unreachable => 502,
        GroupOutcome::Db => 500,
    }
}

/// Outcome of a media command.
#[derive(Debug, PartialEq, Eq)]
pub enum SetMediaOutcome {
    Done,
    NotFound,
    BadCommand(String),
    ProviderError,
    Db,
}

/// Classify a provider's refusal of a command: an unknown source/zone or an
/// unsupported field is the caller's mistake, anything else the gateway's.
pub fn classify_command_error(e: String) -> (r: SetMediaOutcome)
    ensures
        if contains_sub(e@, "unknown"@) || contains_sub(e@, "not supported"@) {
            r == SetMediaOutcome::BadCommand(e)
        } else {
            r == SetMediaOutcome::ProviderError
        },
{
    if str_contains(e.as_str(), "unknown") || str_contains(e.as_str(), "not supported") {
        SetMediaOutcome::BadCommand(e)
    } else {
        SetMediaOutcome::ProviderError
    }
}

/// The HTTP status of a media command outcome.
pub fn set_media_status(o: &SetMediaOutcome) -> (code: u16)
    ensures
        code == match *o {
            SetMediaOutcome::Done => 204u16,
            SetMediaOutcome::NotFound => 404u16,
            SetMediaOutcome::BadCommand(_) => 422u16,
            SetMediaOutcome::ProviderError => 502u16,
            SetMediaOutcome::Db => 500u16,
        },
{
    match o {
        SetMediaOutcome::Done => 204,
        SetMediaOutcome::NotFound => 404,
        SetMediaOutcome::BadCommand(_) => 422,
        SetMediaOutcome::ProviderError => 502,
        SetMediaOutcome::Db => 500,
    }
}

/// Outcome of playing a favorite.
#[derive(Debug, PartialEq, Eq)]
pub enum PlayFavoriteOutcome {
    Done,
    NotFound,
    BadFavorite(String),
    Unreachable,
    Db,
}

/// Classify a provider's refusal to play a favorite: an unknown favorite or
/// a provider without favorites is the caller's mistake.
pub fn classify_favorite_error(e: String) -> (r: PlayFavoriteOutcome)
    ensures
        if contains_sub(e@, "unknown"@) || contains_sub(e@, "not support"@) {
            r == PlayFavoriteOutcome::BadFavorite(e)
        } else {
            r == PlayFavoriteOutcome::Unreachable
        },
{
    if str_contains(e.as_str(), "unknown") || str_contains(e.as_str(), "not support") {
        PlayFavoriteOutcome::BadFavorite(e)
    } else {
        PlayFavoriteOutcome::Unreachable
    }
}

/// The HTTP status of a play-favorite outcome.
pub fn play_favorite_status(o: &PlayFavoriteOutcome) -> (code: u16)
    ensures
        code == match *o {
            PlayFavoriteOutcome::Done => 204u16,
            PlayFavoriteOutcome::NotFound => 404u16,
            PlayFavoriteOutcome::BadFavorite(_) => 422u16,
            PlayFavoriteOutcome::Unreachable => 502u16,
            PlayFavoriteOutcome::Db => 500u16,
        },
{
    match o {
        PlayFavoriteOutcome::Done => 204,
        PlayFavoriteOutcome::NotFound => 404,
        PlayFavoriteOutcome::BadFavorite(_) => 422,
        PlayFavoriteOutcome::Unreachable => 502,
        PlayFavoriteOutcome::Db => 500,
    }
}

/// Why a receiver binding is refused, if it is: binding a device to itself,
/// to an unknown device, or to a device that is itself bound (so volume
/// cannot route in a loop). `receiver` is the looked-up receiver: `None`
/// when unknown, else whether it is itself bound.
pub fn receiver_binding_error(id: &str, receiver_id: &Option<String>, receiver: Option<bool>) -> (r: Option<String>)
    ensures
        match *receiver_id {
            None => r is None,
            Some(rid) => if rid@ == id@ {
                (r matches Some(m) && m@ == "a device cannot be its own receiver"@)
            } else {
                match receiver {
                    None => (r matches Some(m) && m@ == "unknown receiver device"@),
                    Some(true) => (r matches Some(m) && m@ == "that device is itself bound to a receiver; pick a standalone receiver"@),
                    Some(false) => r is None,
                }
            },
        },
{
    match receiver_id {
        None => None,
        Some(rid) => {
            if str_eq(rid.as_str(), id) {
                Some("a device cannot be its own receiver".to_owned())
            } else {
                match receiver {
                    None => Some("unknown receiver device".to_owned()),
                    Some(true) => Some("that device is itself bound to a receiver; pick a standalone receiver".to_owned()),
                    Some(false) => None,
                }
            }
        },
    }
}

/// The receiver input stored with a binding: clearing the binding clears
/// the input too.
pub fn stored_receiver_source(receiver_id: &Option<String>, receiver_source: Option<String>) -> (r: Option<String>)
    ensures
        r == (if receiver_id is Some {
            receiver_source
        } else {
            None
        }),
{
    match receiver_id {
        Some(_) => receiver_source,
        None => None,
    }
}

/// The merge target as stored: its group, and whether it is a hidden
/// duplicate.
pub struct MergeTarget {
    pub group_id: Option<String>,
    pub shadowed: bool,
}

/// What merging a device into a composite does.
#[derive(Debug, PartialEq, Eq)]
pub enum MergePlan {
    /// Drop the device out of its group.
    Unmerge,
    Reject(String),
    /// The device is already in the group `into` names; first give the
    /// standalone target that group when `create` is set.
    AlreadyGrouped { create: bool },
    /// Move every member of `from` into `into` (remotes follow); first give
    /// the standalone target the group `into` when `create` is set.
    FoldGroup { create: bool, into: String, from: String },
    /// Put the standalone device into `into`; first give the standalone
    /// target the group `into` when `create` is set.
    JoinGroup { create: bool, into: String },
}

/// Plan merging `id` into `primary_id`'s composite group (or unmerging it
/// with `None`), from the stored target row and `id`'s current group. A
/// standalone target founds a group named after its own id.
pub fn plan_media_merge(id: &str, primary_id: Option<String>, target: Option<MergeTarget>, src_group: Option<String>) -> (r: MergePlan)
    ensures
        match primary_id {
            None => r == MergePlan::Unmerge,
            Some(pid) => if pid@ == id@ {
                (r matches MergePlan::Reject(m) && m@ == "a device cannot be merged into itself"@)
            } else {
                match target {
                    None => (r matches MergePlan::Reject(m) && m@ == "unknown target device"@),
                    Some(t) => if t.shadowed {
                        (r matches MergePlan::Reject(m) && m@ == "that device is a hidden duplicate"@)
                    } else {
                        let create = t.group_id is None;
                        let into = match t.group_id { Some(g) => g@, None => pid@ };
                        match src_group {
                            Some(src) => if src@ == into {
                                r == (MergePlan::AlreadyGrouped { create })
                            } else {
                                r matches MergePlan::FoldGroup { create: c, into: i, from: f } && c == create && i@ == into && f@ == src@
                            },
                            None => r matches MergePlan::JoinGroup { create: c, into: i } && c == create && i@ == into,
                        }
                    },
                }
            },
        },
{
    let pid = match primary_id {
        None => return MergePlan::Unmerge,
        Some(p) => p,
    };
    if str_eq(pid.as_str(), id) {
        return MergePlan::Reject("a device cannot be merged into itself".to_owned());
    }
    let t = match target {
        None => return MergePlan::Reject("unknown target device".to_owned()),
        Some(t) => t,
    };
    if t.shadowed {
        return MergePlan::Reject("that device is a hidden duplicate".to_owned());
    }
    let (create, into) = match t.group_id {
        Some(g) => (false, g),
        None => (true, pid),
    };
    match src_group {
        Some(src) => {
            if str_eq(src.as_str(), into.as_str()) {
                MergePlan::AlreadyGrouped { create }
            } else {
                MergePlan::FoldGroup { create, into, from: src }
            }
        },
        None => MergePlan::JoinGroup { create, into },
    }
}

} // verus!
