//! Imported palettes: collapsing one bridge's per-room copies of a scene
//! into one palette per name (the richest copy, the lowest source id on a
//! tie), listed by name.
use vstd::prelude::*;
use crate::text::{chars_eq, chars_lt, chars_of, lemma_seq_lt_asym, lemma_seq_lt_irreflexive, lemma_seq_lt_total, lemma_seq_lt_trans, seq_lt};

verus! {

/// One colour of a palette: CIE xy, colour temperature and brightness, the
/// floating-point values held as their `f32` bit patterns.
#[derive(Clone, Copy, Debug, PartialEq, Eq)]
pub struct PaletteColor {
    pub xy: Option<(u32, u32)>,
    pub mirek: Option<u16>,
    pub brightness: Option<u32>,
}

/// A scene as a provider reports it.
pub struct ProviderPalette {
    pub provider_id: String,
    pub name: String,
    pub colors: Vec<PaletteColor>,
}

/// A palette by value: source id, name and colours.
pub open spec fn pview(p: ProviderPalette) -> (Seq<char>, Seq<char>, Seq<PaletteColor>) {
    (p.provider_id@, p.name@, p.colors@)
}

/// Copy `a` beats copy `b` of the same scene: more colours, then the lower
/// source id.
pub open spec fn richer(a: ProviderPalette, b: ProviderPalette) -> bool {
    a.colors@.len() > b.colors@.len() || (a.colors@.len() == b.colors@.len() && seq_lt(a.provider_id@, b.provider_id@))
}

/// Copy `w` is kept for its name among the first `n` copies: it beats every
/// earlier copy of that name, and no later one beats it.
pub open spec fn kept_among(ps: Seq<ProviderPalette>, n: int, w: int) -> bool {
    forall|j: int| #![trigger ps[j]] 0 <= j < n && j != w && ps[j].name@ == ps[w].name@ ==> (j < w ==> richer(ps[w], ps[j])) && (j > w ==> !richer(ps[j], ps[w]))
}

/// `v` is the value of a kept copy of `ps`.
pub open spec fn is_kept_copy(ps: Seq<ProviderPalette>, v: (Seq<char>, Seq<char>, Seq<PaletteColor>)) -> bool {
    exists|w: int| 0 <= w < ps.len() && kept_among(ps, ps.len() as int, w) && pview(#[trigger] ps[w]) == v
}

/// `r` holds exactly the kept copies, one per name, in ascending name
/// order.
pub open spec fn deduped(ps: Seq<ProviderPalette>, r: Seq<ProviderPalette>) -> bool {
    &&& forall|e: int, f: int| 0 <= e < f < r.len() ==> seq_lt((#[trigger] r[e]).name@, (#[trigger] r[f]).name@)
    &&& forall|e: int| 0 <= e < r.len() ==> is_kept_copy(ps, pview(#[trigger] r[e]))
    &&& forall|w: int| 0 <= w < ps.len() && kept_among(ps, ps.len() as int, w) ==> exists|e: int| 0 <= e < r.len() && pview(#[trigger] r[e]) == pview(ps[w])
}

/// What ranks a palette copy: its name, source id and colour count.
pub open spec fn copy_key(p: ProviderPalette) -> (Seq<char>, Seq<char>, nat) {
    (p.name@, p.provider_id@, p.colors@.len())
}

/// Some copy of `ps` has the rank key `k`.
pub open spec fn lists_copy(ps: Seq<ProviderPalette>, k: (Seq<char>, Seq<char>, nat)) -> bool {
    exists|j: int| 0 <= j < ps.len() && #[trigger] copy_key(ps[j]) == k
}

/// Every copy of `a` is listed (by rank key) in `b`.
pub open spec fn copies_within(a: Seq<ProviderPalette>, b: Seq<ProviderPalette>) -> bool {
    forall|i: int| 0 <= i < a.len() ==> lists_copy(b, #[trigger] copy_key(a[i]))
}

proof fn lemma_kept_unbeaten(ps: Seq<ProviderPalette>, w: int, j: int)
    requires
        0 <= w < ps.len(),
        0 <= j < ps.len(),
        kept_among(ps, ps.len() as int, w),
        ps[j].name@ == ps[w].name@,
    ensures
        !richer(ps[j], ps[w]),
{
    if j == w {
        lemma_seq_lt_irreflexive(ps[w].provider_id@);
    } else if j < w {
        assert(richer(ps[w], ps[j]));
        if ps[w].colors@.len() == ps[j].colors@.len() {
            lemma_seq_lt_asym(ps[w].provider_id@, ps[j].provider_id@);
        }
    } else {
        assert(ps[j] == ps[j]);
    }
}

/// The copy kept for a name does not depend on the order the copies come
/// in: two listings of the same copies keep, for each name, a copy with the
/// same source id and colour count (a re-import lands on the same key).
pub proof fn lemma_kept_copy_ignores_order(
    ps1: Seq<ProviderPalette>,
    ps2: Seq<ProviderPalette>,
    r1: Seq<ProviderPalette>,
    r2: Seq<ProviderPalette>,
    e1: int,
    e2: int,
)
    requires
        deduped(ps1, r1),
        deduped(ps2, r2),
        copies_within(ps1, ps2),
        copies_within(ps2, ps1),
        0 <= e1 < r1.len(),
        0 <= e2 < r2.len(),
        r1[e1].name@ == r2[e2].name@,
    ensures
        r1[e1].provider_id@ == r2[e2].provider_id@,
        r1[e1].colors@.len() == r2[e2].colors@.len(),
{
    assert(is_kept_copy(ps1, pview(r1[e1])));
    assert(is_kept_copy(ps2, pview(r2[e2])));
    let w1 = choose|w: int| 0 <= w < ps1.len() && kept_among(ps1, ps1.len() as int, w) && pview(#[trigger] ps1[w]) == pview(r1[e1]);
    let w2 = choose|w: int| 0 <= w < ps2.len() && kept_among(ps2, ps2.len() as int, w) && pview(#[trigger] ps2[w]) == pview(r2[e2]);
    assert(lists_copy(ps2, copy_key(ps1[w1])));
    let j2 = choose|j: int| 0 <= j < ps2.len() && #[trigger] copy_key(ps2[j]) == copy_key(ps1[w1]);
    assert(lists_copy(ps1, copy_key(ps2[w2])));
    let j1 = choose|j: int| 0 <= j < ps1.len() && #[trigger] copy_key(ps1[j]) == copy_key(ps2[w2]);
    lemma_kept_unbeaten(ps2, w2, j2);
    lemma_kept_unbeaten(ps1, w1, j1);
    if ps1[w1].provider_id@ != ps2[w2].provider_id@ {
        lemma_seq_lt_total(ps1[w1].provider_id@, ps2[w2].provider_id@);
    }
}

proof fn lemma_richer_trans(a: ProviderPalette, b: ProviderPalette, c: ProviderPalette)
    requires
        richer(a, b),
        richer(b, c),
    ensures
        richer(a, c),
{
    if a.colors@.len() == b.colors@.len() && b.colors@.len() == c.colors@.len() {
        lemma_seq_lt_trans(a.provider_id@, b.provider_id@, c.provider_id@);
    }
}

/// Beating a copy also beats every copy that does not beat that one.
proof fn lemma_richer_past(a: ProviderPalette, w: ProviderPalette, j: ProviderPalette)
    requires
        richer(a, w),
        !richer(j, w),
    ensures
        richer(a, j),
{
    if j.colors@.len() == w.colors@.len() {
        if j.provider_id@ != w.provider_id@ {
            lemma_seq_lt_total(j.provider_id@, w.provider_id@);
            if a.colors@.len() == w.colors@.len() {
                lemma_seq_lt_trans(a.provider_id@, w.provider_id@, j.provider_id@);
            }
        }
    }
}

fn richer_exec(a: &ProviderPalette, b: &ProviderPalette) -> (r: bool)
    ensures
        r == richer(*a, *b),
{
    if a.colors.len() != b.colors.len() {
        return a.colors.len() > b.colors.len();
    }
    let ai = chars_of(a.provider_id.as_str());
    let bi = chars_of(b.provider_id.as_str());
    chars_lt(&ai, &bi)
}

/// Where the name `key` sits among the kept copies `best` (sorted by name).
fn locate_name(ps: &Vec<ProviderPalette>, best: &Vec<usize>, key: &Vec<char>) -> (r: Result<usize, usize>)
    requires
        forall|e: int| 0 <= e < best@.len() ==> (#[trigger] best@[e]) < ps@.len(),
        forall|e: int, f: int| 0 <= e < f < best@.len() ==> seq_lt(ps@[#[trigger] best@[e] as int].name@, ps@[#[trigger] best@[f] as int].name@),
    ensures
        match r {
            Ok(e) => e < best@.len() && ps@[best@[e as int] as int].name@ == key@,
            Err(p) => p <= best@.len()
                && (forall|e: int| 0 <= e < p ==> seq_lt(ps@[#[trigger] best@[e] as int].name@, key@))
                && (forall|e: int| p <= e < best@.len() ==> seq_lt(key@, ps@[#[trigger] best@[e] as int].name@)),
        },
{
    let mut e: usize = 0;
    while e < best.len()
        invariant
            e <= best@.len(),
            forall|x: int| 0 <= x < best@.len() ==> (#[trigger] best@[x]) < ps@.len(),
            forall|x: int, y: int| 0 <= x < y < best@.len() ==> seq_lt(ps@[#[trigger] best@[x] as int].name@, ps@[#[trigger] best@[y] as int].name@),
            forall|x: int| 0 <= x < e ==> seq_lt(ps@[#[trigger] best@[x] as int].name@, key@),
        decreases best@.len() - e,
    {
        let n = chars_of(ps[best[e]].name.as_str());
        if chars_eq(&n, key) {
            return Ok(e);
        }
        if chars_lt(key, &n) {
            proof {
                assert forall|x: int| e <= x < best@.len() implies seq_lt(key@, ps@[#[trigger] best@[x] as int].name@) by {
                    if x > e {
                        lemma_seq_lt_trans(key@, ps@[best@[e as int] as int].name@, ps@[best@[x] as int].name@);
                    }
                }
            }
            return Err(e);
        }
        proof {
            lemma_seq_lt_total(n@, key@);
        }
        e = e + 1;
    }
    Err(e)
}

pub open spec fn names_sorted(ps: Seq<ProviderPalette>, best: Seq<usize>) -> bool {
    forall|e: int, f: int| 0 <= e < f < best.len() ==> seq_lt(ps[#[trigger] best[e] as int].name@, ps[#[trigger] best[f] as int].name@)
}

/// Some kept copy in `best` has the name `n`.
pub open spec fn names_has(ps: Seq<ProviderPalette>, best: Seq<usize>, n: Seq<char>) -> bool {
    exists|e: int| 0 <= e < best.len() && ps[#[trigger] best[e] as int].name@ == n
}

pub open spec fn best_inv(ps: Seq<ProviderPalette>, i: int, best: Seq<usize>) -> bool {
    &&& forall|e: int| 0 <= e < best.len() ==> (#[trigger] best[e]) < i && kept_among(ps, i, best[e] as int)
    &&& names_sorted(ps, best)
    &&& forall|j: int| 0 <= j < i ==> names_has(ps, best, (#[trigger] ps[j]).name@)
}

proof fn lemma_step_replace(ps: Seq<ProviderPalette>, i: int, best: Seq<usize>, e: int)
    requires
        0 <= i < ps.len(),
        i < usize::MAX,
        best_inv(ps, i, best),
        0 <= e < best.len(),
        ps[best[e] as int].name@ == ps[i].name@,
        richer(ps[i], ps[best[e] as int]),
    ensures
        best_inv(ps, i + 1, best.update(e, i as usize)),
{
    let w = best[e] as int;
    let nb = best.update(e, i as usize);
    assert forall|x: int| 0 <= x < nb.len() implies (#[trigger] nb[x]) < i + 1 && kept_among(ps, i + 1, nb[x] as int) by {
        if x == e {
            assert forall|j: int| #![trigger ps[j]] 0 <= j < i + 1 && j != i && ps[j].name@ == ps[i].name@ implies (j < i ==> richer(ps[i], ps[j])) && (j > i ==> !richer(ps[j], ps[i])) by {
                if j == w {
                } else if j < w {
                    assert(kept_among(ps, i, w));
                    assert(richer(ps[w], ps[j]));
                    lemma_richer_trans(ps[i], ps[w], ps[j]);
                } else {
                    assert(kept_among(ps, i, w));
                    assert(!richer(ps[j], ps[w]));
                    lemma_richer_past(ps[i], ps[w], ps[j]);
                }
            }
        } else {
            let v = best[x] as int;
            assert(kept_among(ps, i, v));
            assert(ps[v].name@ != ps[w].name@) by {
                lemma_seq_lt_irreflexive(ps[v].name@);
            }
            assert forall|j: int| #![trigger ps[j]] 0 <= j < i + 1 && j != v && ps[j].name@ == ps[v].name@ implies (j < v ==> richer(ps[v], ps[j])) && (j > v ==> !richer(ps[j], ps[v])) by {
                if j < i {
                }
            }
        }
    }
    assert(names_sorted(ps, nb)) by {
        assert forall|x: int, y: int| 0 <= x < y < nb.len() implies seq_lt(ps[#[trigger] nb[x] as int].name@, ps[#[trigger] nb[y] as int].name@) by {
            assert(seq_lt(ps[best[x] as int].name@, ps[best[y] as int].name@));
        }
    }
    assert forall|j: int| 0 <= j < i + 1 implies names_has(ps, nb, (#[trigger] ps[j]).name@) by {
        if j == i {
            assert(ps[nb[e] as int].name@ == ps[j].name@);
        } else {
            let x = choose|x: int| 0 <= x < best.len() && ps[#[trigger] best[x] as int].name@ == ps[j].name@;
            if x == e {
                assert(ps[nb[e] as int].name@ == ps[j].name@);
            } else {
                assert(ps[nb[x] as int].name@ == ps[j].name@);
            }
        }
    }
}

proof fn lemma_step_keep(ps: Seq<ProviderPalette>, i: int, best: Seq<usize>, e: int)
    requires
        0 <= i < ps.len(),
        i < usize::MAX,
        best_inv(ps, i, best),
        0 <= e < best.len(),
        ps[best[e] as int].name@ == ps[i].name@,
        !richer(ps[i], ps[best[e] as int]),
    ensures
        best_inv(ps, i + 1, best),
{
    let w = best[e] as int;
    assert forall|x: int| 0 <= x < best.len() implies (#[trigger] best[x]) < i + 1 && kept_among(ps, i + 1, best[x] as int) by {
        let v = best[x] as int;
        assert(kept_among(ps, i, v));
        if x != e {
            assert(ps[v].name@ != ps[w].name@) by {
                lemma_seq_lt_irreflexive(ps[v].name@);
            }
        }
        assert forall|j: int| #![trigger ps[j]] 0 <= j < i + 1 && j != v && ps[j].name@ == ps[v].name@ implies (j < v ==> richer(ps[v], ps[j])) && (j > v ==> !richer(ps[j], ps[v])) by {
            if j < i {
            }
        }
    }
    assert forall|j: int| 0 <= j < i + 1 implies names_has(ps, best, (#[trigger] ps[j]).name@) by {
        if j == i {
            assert(ps[best[e] as int].name@ == ps[j].name@);
        }
    }
}

proof fn lemma_step_insert(ps: Seq<ProviderPalette>, i: int, best: Seq<usize>, p: int)
    requires
        0 <= i < ps.len(),
        i < usize::MAX,
        best_inv(ps, i, best),
        0 <= p <= best.len(),
        forall|e: int| 0 <= e < p ==> seq_lt(ps[#[trigger] best[e] as int].name@, ps[i].name@),
        forall|e: int| p <= e < best.len() ==> seq_lt(ps[i].name@, ps[#[trigger] best[e] as int].name@),
    ensures
        best_inv(ps, i + 1, best.insert(p, i as usize)),
{
    let nb = best.insert(p, i as usize);
    // No earlier copy has this name.
    assert forall|j: int| 0 <= j < i implies (#[trigger] ps[j]).name@ != ps[i].name@ by {
        let x = choose|x: int| 0 <= x < best.len() && ps[#[trigger] best[x] as int].name@ == ps[j].name@;
        lemma_seq_lt_irreflexive(ps[i].name@);
        if x < p {
            assert(seq_lt(ps[best[x] as int].name@, ps[i].name@));
        } else {
            assert(seq_lt(ps[i].name@, ps[best[x] as int].name@));
        }
    }
    assert forall|x: int| 0 <= x < nb.len() implies (#[trigger] nb[x]) < i + 1 && kept_among(ps, i + 1, nb[x] as int) by {
        if x == p {
            assert forall|j: int| #![trigger ps[j]] 0 <= j < i + 1 && j != i && ps[j].name@ == ps[i].name@ implies (j < i ==> richer(ps[i], ps[j])) && (j > i ==> !richer(ps[j], ps[i])) by {
            }
        } else {
            let o = if x < p { x } else { x - 1 };
            assert(nb[x] == best[o]);
            let v = best[o] as int;
            assert(kept_among(ps, i, v));
            assert(ps[v].name@ != ps[i].name@) by {
                lemma_seq_lt_irreflexive(ps[i].name@);
            }
            assert forall|j: int| #![trigger ps[j]] 0 <= j < i + 1 && j != v && ps[j].name@ == ps[v].name@ implies (j < v ==> richer(ps[v], ps[j])) && (j > v ==> !richer(ps[j], ps[v])) by {
                if j < i {
                }
            }
        }
    }
    assert(names_sorted(ps, nb)) by {
        assert forall|x: int, y: int| 0 <= x < y < nb.len() implies seq_lt(ps[#[trigger] nb[x] as int].name@, ps[#[trigger] nb[y] as int].name@) by {
            if x < p && y < p {
            } else if x < p && y == p {
            } else if x < p && y > p {
                assert(nb[y] == best[y - 1]);
            } else if x == p {
                assert(nb[y] == best[y - 1]);
            } else {
                assert(nb[x] == best[x - 1]);
                assert(nb[y] == best[y - 1]);
            }
        }
    }
    assert forall|j: int| 0 <= j < i + 1 implies names_has(ps, nb, (#[trigger] ps[j]).name@) by {
        if j == i {
            assert(ps[nb[p] as int].name@ == ps[j].name@);
        } else {
            let x = choose|x: int| 0 <= x < best.len() && ps[#[trigger] best[x] as int].name@ == ps[j].name@;
            if x < p {
                assert(nb[x] == best[x]);
            } else {
                assert(nb[x + 1] == best[x]);
            }
        }
    }
}

fn clone_palette(p: &ProviderPalette) -> (r: ProviderPalette)
    ensures
        pview(r) == pview(*p),
{
    let mut colors: Vec<PaletteColor> = Vec::new();
    let mut i: usize = 0;
    while i < p.colors.len()
        invariant
            i <= p.colors@.len(),
            colors@ == p.colors@.subrange(0, i as int),
        decreases p.colors@.len() - i,
    {
        colors.push(p.colors[i]);
        i = i + 1;
        assert(colors@ =~= p.colors@.subrange(0, i as int));
    }
    assert(p.colors@.subrange(0, p.colors@.len() as int) =~= p.colors@);
    ProviderPalette { provider_id: p.provider_id.clone(), name: p.name.clone(), colors }
}

/// Collapse one provider's per-room copies of the same scene: one palette
/// per name, the richest copy (most colours, then the lowest source id; the
/// first of identical copies), listed in ascending name order.
pub fn dedupe_palettes(palettes: Vec<ProviderPalette>) -> (r: Vec<ProviderPalette>)
    ensures
        deduped(palettes@, r@),
{
    let ghost ps = palettes@;
    let mut best: Vec<usize> = Vec::new();
    let mut i: usize = 0;
    while i < palettes.len()
        invariant
            i <= palettes@.len(),
            ps == palettes@,
            best_inv(ps, i as int, best@),
        decreases palettes@.len() - i,
    {
        let key = chars_of(palettes[i].name.as_str());
        proof {
            assert forall|e: int| 0 <= e < best@.len() implies (#[trigger] best@[e]) < palettes@.len() by {}
        }
        match locate_name(&palettes, &best, &key) {
            Ok(e) => {
                let w = best[e];
                if richer_exec(&palettes[i], &palettes[w]) {
                    proof {
                        lemma_step_replace(ps, i as int, best@, e as int);
                    }
                    best.set(e, i);
                } else {
                    proof {
                        lemma_step_keep(ps, i as int, best@, e as int);
                    }
                }
            },
            Err(p) => {
                proof {
                    lemma_step_insert(ps, i as int, best@, p as int);
                }
                best.insert(p, i as usize);
            },
        }
        i = i + 1;
    }
    let mut out: Vec<ProviderPalette> = Vec::new();
    let mut k: usize = 0;
    while k < best.len()
        invariant
            k <= best@.len(),
            ps == palettes@,
            best_inv(ps, ps.len() as int, best@),
            out@.len() == k,
            forall|x: int| 0 <= x < k ==> pview(#[trigger] out@[x]) == pview(ps[best@[x] as int]),
        decreases best@.len() - k,
    {
        out.push(clone_palette(&palettes[best[k]]));
        k = k + 1;
    }
    proof {
        assert forall|e: int, f: int| 0 <= e < f < out@.len() implies seq_lt((#[trigger] out@[e]).name@, (#[trigger] out@[f]).name@) by {
            assert(pview(out@[e]) == pview(ps[best@[e] as int]));
            assert(pview(out@[f]) == pview(ps[best@[f] as int]));
            assert(seq_lt(ps[best@[e] as int].name@, ps[best@[f] as int].name@));
        }
        assert forall|e: int| 0 <= e < out@.len() implies is_kept_copy(ps, pview(#[trigger] out@[e])) by {
            let w = best@[e] as int;
            assert(kept_among(ps, ps.len() as int, w));
            assert(pview(out@[e]) == pview(ps[w]));
        }
        assert forall|w: int| 0 <= w < ps.len() && kept_among(ps, ps.len() as int, w) implies exists|e: int| 0 <= e < out@.len() && pview(#[trigger] out@[e]) == pview(ps[w]) by {
            let x = choose|x: int| 0 <= x < best@.len() && ps[#[trigger] best@[x] as int].name@ == ps[w].name@;
            let v = best@[x] as int;
            assert(kept_among(ps, ps.len() as int, v));
            if v != w {
                // Two kept copies of one name cannot differ.
                if v < w {
                    assert(richer(ps[w], ps[v]));
                    assert(!richer(ps[w], ps[v]));
                } else {
                    assert(richer(ps[v], ps[w]));
                    assert(!richer(ps[v], ps[w]));
                }
            }
            assert(pview(out@[x]) == pview(ps[w]));
        }
    }
    out
}

/// Two kept copies never share a name: the result holds one palette per
/// name.
pub proof fn lemma_one_palette_per_name(ps: Seq<ProviderPalette>, r: Seq<ProviderPalette>, e: int, f: int)
    requires
        deduped(ps, r),
        0 <= e < f < r.len(),
    ensures
        r[e].name@ != r[f].name@,
{
    lemma_seq_lt_irreflexive(r[e].name@);
}

// ── Pruning after an import ──────────────────────────────────────────────────

/// A stored palette row: its id, the source it was imported from and its
/// id there (`None` for a user palette).
pub struct StoredPalette {
    pub id: String,
    pub source: String,
    pub source_id: Option<String>,
}

/// Some kept palette has the source id `sid`.
pub open spec fn kept_has(kept: Seq<ProviderPalette>, sid: Seq<char>) -> bool {
    exists|k: int| 0 <= k < kept.len() && (#[trigger] kept[k]).provider_id@ == sid
}

/// A stored row of `source` that no kept palette backs any more (a dedupe
/// loser or a scene deleted on the provider). User palettes and other
/// sources are never stale.
pub open spec fn is_stale(p: StoredPalette, source: Seq<char>, kept: Seq<ProviderPalette>) -> bool {
    p.source@ == source && match p.source_id {
        Some(sid) => !kept_has(kept, sid@),
        None => false,
    }
}

fn kept_contains(kept: &Vec<ProviderPalette>, sid: &String) -> (r: bool)
    ensures
        r == kept_has(kept@, sid@),
{
    let mut k: usize = 0;
    while k < kept.len()
        invariant
            k <= kept@.len(),
            forall|j: int| 0 <= j < k ==> (#[trigger] kept@[j]).provider_id@ != sid@,
        decreases kept@.len() - k,
    {
        if crate::text::str_eq(kept[k].provider_id.as_str(), sid.as_str()) {
            return true;
        }
        k = k + 1;
    }
    false
}

/// The ids of the stored rows to prune after importing `kept` for
/// `source`: none unless discovery was complete and found something (an
/// empty answer looks like a hiccup), else every stale row, in order.
pub fn stale_palettes(source: &str, complete: bool, kept: &Vec<ProviderPalette>, stored: &Vec<StoredPalette>) -> (r: Vec<String>)
    ensures
        !(complete && kept@.len() > 0) ==> r@.len() == 0,
        complete && kept@.len() > 0 ==> r@.map_values(|x: String| x@)
            == stored@.filter(|p: StoredPalette| is_stale(p, source@, kept@)).map_values(|p: StoredPalette| p.id@),
{
    let mut out: Vec<String> = Vec::new();
    if !(complete && kept.len() > 0) {
        return out;
    }
    let ghost pred = |p: StoredPalette| is_stale(p, source@, kept@);
    let ghost f = |p: StoredPalette| p.id@;
    let mut i: usize = 0;
    proof {
        reveal(Seq::filter);
        assert(stored@.subrange(0, 0) =~= Seq::<StoredPalette>::empty());
        assert(out@.map_values(|x: String| x@) =~= Seq::<Seq<char>>::empty());
        assert(stored@.subrange(0, 0).filter(pred).map_values(f) =~= Seq::<Seq<char>>::empty());
    }
    while i < stored.len()
        invariant
            i <= stored@.len(),
            pred == (|p: StoredPalette| is_stale(p, source@, kept@)),
            f == (|p: StoredPalette| p.id@),
            out@.map_values(|x: String| x@) == stored@.subrange(0, i as int).filter(pred).map_values(f),
        decreases stored@.len() - i,
    {
        let ghost pre = stored@.subrange(0, i as int);
        let ghost next = stored@.subrange(0, i + 1);
        let ghost before = out@;
        proof {
            reveal(Seq::filter);
            assert(next.drop_last() =~= pre);
            assert(next.last() == stored@[i as int]);
        }
        let p = &stored[i];
        let stale = crate::text::str_eq(p.source.as_str(), source) && match &p.source_id {
            Some(sid) => !kept_contains(kept, sid),
            None => false,
        };
        if stale {
            out.push(p.id.clone());
            proof {
                assert(next.filter(pred) == pre.filter(pred).push(stored@[i as int]));
                assert(out@.map_values(|x: String| x@) =~= before.map_values(|x: String| x@).push(p.id@));
                assert(out@.map_values(|x: String| x@) =~= next.filter(pred).map_values(f));
            }
        } else {
            proof {
                assert(next.filter(pred) == pre.filter(pred));
            }
        }
        i = i + 1;
    }
    assert(stored@.subrange(0, stored@.len() as int) =~= stored@);
    out
}

} // verus!
