//! Cross-provider de-duplication: which integration copies are shadowed
//! under which native device when both report the same hardware id.
use vstd::prelude::*;
use crate::text::{chars_lt, chars_of, lemma_seq_lt_asym, lemma_seq_lt_irreflexive, lemma_seq_lt_total, lemma_seq_lt_trans, seq_lt, str_eq};

verus! {

/// A device that reports a hardware id, and whether its provider is native
/// (not an integration).
pub struct HwRow {
    pub id: String,
    pub hw_id: String,
    pub native: bool,
}

pub open spec fn native_with(rows: Seq<HwRow>, hw: Seq<char>, i: int) -> bool {
    0 <= i < rows.len() && rows[i].native && rows[i].hw_id@ == hw
}

pub open spec fn has_native(rows: Seq<HwRow>, hw: Seq<char>) -> bool {
    exists|i: int| native_with(rows, hw, i)
}

/// `k` is the canonical id of the hardware `hw`: the lexically smallest id
/// of a native device reporting it.
pub open spec fn is_canonical(rows: Seq<HwRow>, hw: Seq<char>, k: Seq<char>) -> bool {
    &&& exists|i: int| native_with(rows, hw, i) && rows[i].id@ == k
    &&& forall|j: int| native_with(rows, hw, j) ==> !seq_lt(#[trigger] rows[j].id@, k)
}

pub open spec fn canonical(rows: Seq<HwRow>, hw: Seq<char>) -> Seq<char> {
    choose|k: Seq<char>| is_canonical(rows, hw, k)
}

/// The shadows to set: each integration copy (in row order) whose hardware
/// id a native device also reports, under that hardware's canonical id.
pub open spec fn shadow_plan_spec(rows: Seq<HwRow>) -> Seq<(Seq<char>, Seq<char>)>
    decreases rows.len(),
{
    shadows_upto(rows, rows.len() as int)
}

pub open spec fn shadows_upto(rows: Seq<HwRow>, n: int) -> Seq<(Seq<char>, Seq<char>)>
    decreases n,
{
    if n <= 0 {
        Seq::empty()
    } else {
        let rest = shadows_upto(rows, n - 1);
        let r = rows[n - 1];
        if !r.native && has_native(rows, r.hw_id@) {
            rest.push((r.id@, canonical(rows, r.hw_id@)))
        } else {
            rest
        }
    }
}

proof fn lemma_canonical_unique(rows: Seq<HwRow>, hw: Seq<char>, a: Seq<char>, b: Seq<char>)
    requires
        is_canonical(rows, hw, a),
        is_canonical(rows, hw, b),
    ensures
        a == b,
{
    let i = choose|i: int| native_with(rows, hw, i) && rows[i].id@ == a;
    let j = choose|j: int| native_with(rows, hw, j) && rows[j].id@ == b;
    assert(!seq_lt(rows[j].id@, a));
    assert(!seq_lt(rows[i].id@, b));
    if a != b {
        lemma_seq_lt_total(a, b);
    }
}

/// The canonical id of `hw`, if a native device reports it.
fn find_canonical(rows: &Vec<HwRow>, hw: &str) -> (r: Option<String>)
    ensures
        match r {
            Some(k) => has_native(rows@, hw@) && k@ == canonical(rows@, hw@),
            None => !has_native(rows@, hw@),
        },
{
    let mut best: Option<usize> = None;
    let mut i: usize = 0;
    while i < rows.len()
        invariant
            i <= rows@.len(),
            match best {
                None => forall|j: int| 0 <= j < i ==> !native_with(rows@, hw@, j),
                Some(k) => k < i && native_with(rows@, hw@, k as int)
                    && forall|j: int| 0 <= j < i && native_with(rows@, hw@, j) ==> !seq_lt(#[trigger] rows@[j].id@, rows@[k as int].id@),
            },
        decreases rows@.len() - i,
    {
        if rows[i].native && str_eq(rows[i].hw_id.as_str(), hw) {
            match best {
                None => {
                    proof {
                        lemma_seq_lt_irreflexive(rows@[i as int].id@);
                    }
                    best = Some(i);
                },
                Some(k) => {
                    let a = chars_of(rows[i].id.as_str());
                    let b = chars_of(rows[k].id.as_str());
                    if chars_lt(&a, &b) {
                        proof {
                            assert forall|j: int| 0 <= j < i + 1 && native_with(rows@, hw@, j) implies !seq_lt(#[trigger] rows@[j].id@, rows@[i as int].id@) by {
                                if j == i {
                                    lemma_seq_lt_irreflexive(a@);
                                } else if seq_lt(rows@[j].id@, a@) {
                                    lemma_seq_lt_trans(rows@[j].id@, a@, b@);
                                }
                            }
                        }
                        best = Some(i);
                    } else {
                        proof {
                            if a@ != b@ {
                                lemma_seq_lt_total(a@, b@);
                                lemma_seq_lt_asym(b@, a@);
                            } else {
                                lemma_seq_lt_irreflexive(a@);
                            }
                        }
                    }
                },
            }
        }
        i = i + 1;
    }
    match best {
        None => None,
        Some(k) => {
            proof {
                let kv = rows@[k as int].id@;
                assert(is_canonical(rows@, hw@, kv));
                lemma_canonical_unique(rows@, hw@, kv, canonical(rows@, hw@));
            }
            Some(rows[k].id.clone())
        },
    }
}

/// The shadows one reconcile pass sets: every integration copy of a device
/// that a native provider also reports (same hardware id) goes under the
/// native device with the smallest id. Hardware no native provider reports
/// is left alone.
pub fn shadow_plan(rows: &Vec<HwRow>) -> (r: Vec<(String, String)>)
    ensures
        r@.map_values(|e: (String, String)| (e.0@, e.1@)) == shadow_plan_spec(rows@),
{
    let mut out: Vec<(String, String)> = Vec::new();
    let mut i: usize = 0;
    assert(out@.map_values(|e: (String, String)| (e.0@, e.1@)) =~= Seq::<(Seq<char>, Seq<char>)>::empty());
    while i < rows.len()
        invariant
            i <= rows@.len(),
            out@.map_values(|e: (String, String)| (e.0@, e.1@)) == shadows_upto(rows@, i as int),
        decreases rows@.len() - i,
    {
        let ghost before = out@;
        if !rows[i].native {
            if let Some(k) = find_canonical(rows, rows[i].hw_id.as_str()) {
                out.push((rows[i].id.clone(), k));
                assert(out@.map_values(|e: (String, String)| (e.0@, e.1@)) =~= before.map_values(|e: (String, String)| (e.0@, e.1@)).push((rows@[i as int].id@, canonical(rows@, rows@[i as int].hw_id@))));
            }
        }
        i = i + 1;
    }
    out
}

/// A device cannot be shadowed by itself.
pub fn is_self_shadow(id: &str, shadowed_by: &Option<String>) -> (r: bool)
    ensures
        r == (match *shadowed_by {
            Some(s) => s@ == id@,
            None => false,
        }),
{
    match shadowed_by {
        Some(s) => str_eq(s.as_str(), id),
        None => false,
    }
}

/// A native device is never planned as a shadow, and a shadow always points
/// at a native device reporting the same hardware.
pub proof fn lemma_native_never_shadowed(rows: Seq<HwRow>, n: int, k: int)
    requires
        0 <= n <= rows.len(),
        0 <= k < shadows_upto(rows, n).len(),
    ensures
        exists|i: int| 0 <= i < n && !rows[i].native && shadows_upto(rows, n)[k].0 == rows[i].id@
            && is_canonical(rows, rows[i].hw_id@, shadows_upto(rows, n)[k].1),
    decreases n,
{
    let rest = shadows_upto(rows, n - 1);
    let r = rows[n - 1];
    if k < rest.len() {
        lemma_native_never_shadowed(rows, n - 1, k);
        let i = choose|i: int| 0 <= i < n - 1 && !rows[i].native && shadows_upto(rows, n - 1)[k].0 == rows[i].id@
            && is_canonical(rows, rows[i].hw_id@, shadows_upto(rows, n - 1)[k].1);
        if !r.native && has_native(rows, r.hw_id@) {
            assert(shadows_upto(rows, n)[k] == rest[k]);
        }
        assert(0 <= i < n);
    } else {
        let i = n - 1;
        lemma_canonical_exists(rows, r.hw_id@);
        assert(shadows_upto(rows, n)[k] == (r.id@, canonical(rows, r.hw_id@)));
    }
}

/// Hardware a native device reports has a canonical id.
proof fn lemma_canonical_exists(rows: Seq<HwRow>, hw: Seq<char>)
    requires
        has_native(rows, hw),
    ensures
        is_canonical(rows, hw, canonical(rows, hw)),
{
    let k = min_native_id(rows, hw, rows.len() as int);
    assert(is_canonical(rows, hw, k));
}

/// The smallest native id for `hw` among the first `n` rows (requires one).
proof fn min_native_id(rows: Seq<HwRow>, hw: Seq<char>, n: int) -> (k: Seq<char>)
    requires
        0 <= n <= rows.len(),
        exists|i: int| 0 <= i < n && native_with(rows, hw, i),
    ensures
        exists|i: int| 0 <= i < n && native_with(rows, hw, i) && rows[i].id@ == k,
        forall|j: int| 0 <= j < n && native_with(rows, hw, j) ==> !seq_lt(#[trigger] rows[j].id@, k),
    decreases n,
{
    if exists|i: int| 0 <= i < n - 1 && native_with(rows, hw, i) {
        let k0 = min_native_id(rows, hw, n - 1);
        if native_with(rows, hw, n - 1) && seq_lt(rows[n - 1].id@, k0) {
            let k = rows[n - 1].id@;
            assert forall|j: int| 0 <= j < n && native_with(rows, hw, j) implies !seq_lt(#[trigger] rows[j].id@, k) by {
                if j == n - 1 {
                    lemma_seq_lt_irreflexive(k);
                } else if seq_lt(rows[j].id@, k) {
                    lemma_seq_lt_trans(rows[j].id@, k, k0);
                }
            }
            k
        } else {
            assert forall|j: int| 0 <= j < n && native_with(rows, hw, j) implies !seq_lt(#[trigger] rows[j].id@, k0) by {}
            k0
        }
    } else {
        let k = rows[n - 1].id@;
        assert forall|j: int| 0 <= j < n && native_with(rows, hw, j) implies !seq_lt(#[trigger] rows[j].id@, k) by {
            if j == n - 1 {
                lemma_seq_lt_irreflexive(k);
            }
        }
        k
    }
}

} // verus!
