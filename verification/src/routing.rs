//! Splitting one media/audio command across the backings of a composite
//! device: the command shape, and the assembly of per-backing parts in
//! ascending id order (the order of the `BTreeMap` they were keyed by).
use vstd::prelude::*;
use crate::text::{chars_eq, chars_lt, chars_of, lemma_seq_lt_irreflexive, lemma_seq_lt_total, lemma_seq_lt_trans, seq_lt};

verus! {

/// A playback transport command.
#[derive(Clone, Copy, Debug, PartialEq, Eq, Structural)]
pub enum TransportCmd {
    Play,
    Pause,
    Stop,
    Next,
    Previous,
    Toggle,
}

/// A sparse device command: only the fields that are set are applied.
#[derive(Debug, PartialEq, Eq)]
pub struct MediaCommand {
    pub power: Option<bool>,
    pub volume: Option<u8>,
    pub mute: Option<bool>,
    pub source: Option<String>,
    pub transport: Option<TransportCmd>,
}

impl MediaCommand {
    /// The command that sets nothing.
    pub fn empty() -> (c: MediaCommand)
        ensures
            c.is_empty_spec(),
    {
        MediaCommand { power: None, volume: None, mute: None, source: None, transport: None }
    }

    pub open spec fn is_empty_spec(&self) -> bool {
        self.power is None && self.volume is None && self.mute is None && self.source is None
            && self.transport is None
    }

    /// Whether the command sets nothing.
    pub fn is_empty(&self) -> (r: bool)
        ensures
            r == self.is_empty_spec(),
    {
        self.power.is_none() && self.volume.is_none() && self.mute.is_none()
            && self.source.is_none() && self.transport.is_none()
    }
}

/// Where each field of a command is routed: `(volume/mute, transport,
/// source, power)`, `None` for a field the command does not set.
pub type Targets = (Option<Seq<char>>, Option<Seq<char>>, Option<Seq<char>>, Option<Seq<char>>);

/// The part of `cmd` that goes to the backing `key` (volume and mute travel
/// together).
pub open spec fn part_for(cmd: MediaCommand, t: Targets, key: Seq<char>) -> MediaCommand {
    MediaCommand {
        power: if t.3 == Some(key) {
            cmd.power
        } else {
            None
        },
        volume: if t.0 == Some(key) {
            cmd.volume
        } else {
            None
        },
        mute: if t.0 == Some(key) {
            cmd.mute
        } else {
            None
        },
        source: if t.2 == Some(key) {
            cmd.source
        } else {
            None
        },
        transport: if t.1 == Some(key) {
            cmd.transport
        } else {
            None
        },
    }
}

/// Whether `key` receives any field.
pub open spec fn is_target(t: Targets, key: Seq<char>) -> bool {
    t.0 == Some(key) || t.1 == Some(key) || t.2 == Some(key) || t.3 == Some(key)
}

/// The targets of `cmd` when its fields go to the given ids.
pub open spec fn targets_of(
    cmd: MediaCommand,
    vol: Seq<char>,
    tr: Seq<char>,
    src: Seq<char>,
    pw: Seq<char>,
) -> Targets {
    (
        if cmd.volume is Some || cmd.mute is Some {
            Some(vol)
        } else {
            None
        },
        if cmd.transport is Some {
            Some(tr)
        } else {
            None
        },
        if cmd.source is Some {
            Some(src)
        } else {
            None
        },
        if cmd.power is Some {
            Some(pw)
        } else {
            None
        },
    )
}

pub open spec fn sorted_keys(parts: Seq<(String, MediaCommand)>) -> bool {
    forall|i: int, j: int| 0 <= i < j < parts.len() ==> seq_lt(#[trigger] parts[i].0@, #[trigger] parts[j].0@)
}

/// `parts` is the assembly of `cmd` over the targets `t`: strictly
/// ascending ids, exactly the targets, each carrying its part of `cmd`.
pub open spec fn assembled(parts: Seq<(String, MediaCommand)>, cmd: MediaCommand, t: Targets) -> bool {
    &&& sorted_keys(parts)
    &&& forall|i: int| 0 <= i < parts.len() ==> is_target(t, #[trigger] parts[i].0@)
    &&& forall|i: int| 0 <= i < parts.len() ==> #[trigger] parts[i].1 == part_for(cmd, t, parts[i].0@)
    &&& forall|key: Seq<char>| is_target(t, key) ==> exists|i: int| 0 <= i < parts.len() && #[trigger] parts[i].0@ == key
}

/// Adding one field's target `key` to the targets `a` gives `b`.
pub open spec fn adds_target(cmd: MediaCommand, a: Targets, b: Targets, key: Seq<char>) -> bool {
    &&& forall|k: Seq<char>| k != key ==> part_for(cmd, b, k) == part_for(cmd, a, k)
    &&& forall|k: Seq<char>| #[trigger] is_target(b, k) <==> (is_target(a, k) || k == key)
}

proof fn lemma_insert_part(
    parts: Seq<(String, MediaCommand)>,
    p: int,
    entry: (String, MediaCommand),
    cmd: MediaCommand,
    a: Targets,
    b: Targets,
)
    requires
        assembled(parts, cmd, a),
        adds_target(cmd, a, b, entry.0@),
        entry.1 == part_for(cmd, b, entry.0@),
        0 <= p <= parts.len(),
        forall|i: int| 0 <= i < p ==> seq_lt(#[trigger] parts[i].0@, entry.0@),
        forall|i: int| p <= i < parts.len() ==> seq_lt(entry.0@, #[trigger] parts[i].0@),
    ensures
        assembled(parts.insert(p, entry), cmd, b),
{
    let q = parts.insert(p, entry);
    assert forall|i: int| 0 <= i < parts.len() implies #[trigger] parts[i].0@ != entry.0@ by {
        if i < p {
            lemma_seq_lt_irreflexive(entry.0@);
        } else {
            lemma_seq_lt_irreflexive(entry.0@);
        }
    }
    assert forall|i: int, j: int| 0 <= i < j < q.len() implies seq_lt(#[trigger] q[i].0@, #[trigger] q[j].0@) by {
        if i < p && j < p {
        } else if i < p && j == p {
        } else if i < p && j > p {
            assert(q[j] == parts[j - 1]);
        } else if i == p {
            assert(q[j] == parts[j - 1]);
        } else {
            assert(q[i] == parts[i - 1]);
            assert(q[j] == parts[j - 1]);
        }
    }
    assert forall|i: int| 0 <= i < q.len() implies is_target(b, #[trigger] q[i].0@) by {
        if i < p {
            assert(is_target(a, parts[i].0@));
        } else if i > p {
            assert(q[i] == parts[i - 1]);
            assert(is_target(a, parts[i - 1].0@));
        }
    }
    assert forall|i: int| 0 <= i < q.len() implies #[trigger] q[i].1 == part_for(cmd, b, q[i].0@) by {
        if i < p {
            assert(parts[i].1 == part_for(cmd, a, parts[i].0@));
        } else if i > p {
            assert(q[i] == parts[i - 1]);
            assert(parts[i - 1].1 == part_for(cmd, a, parts[i - 1].0@));
        }
    }
    assert forall|key: Seq<char>| is_target(b, key) implies exists|i: int| 0 <= i < q.len() && #[trigger] q[i].0@ == key by {
        if key == entry.0@ {
            assert(q[p].0@ == key);
        } else {
            assert(is_target(a, key));
            let i = choose|i: int| 0 <= i < parts.len() && #[trigger] parts[i].0@ == key;
            if i < p {
                assert(q[i].0@ == key);
            } else {
                assert(q[i + 1].0@ == key);
            }
        }
    }
}

proof fn lemma_update_part(
    parts: Seq<(String, MediaCommand)>,
    i: int,
    entry: (String, MediaCommand),
    cmd: MediaCommand,
    a: Targets,
    b: Targets,
)
    requires
        assembled(parts, cmd, a),
        adds_target(cmd, a, b, entry.0@),
        entry.1 == part_for(cmd, b, entry.0@),
        0 <= i < parts.len(),
        parts[i].0@ == entry.0@,
    ensures
        assembled(parts.update(i, entry), cmd, b),
{
    let q = parts.update(i, entry);
    assert forall|k: int| 0 <= k < q.len() implies #[trigger] q[k].1 == part_for(cmd, b, q[k].0@) by {
        if k != i {
            assert(parts[k].1 == part_for(cmd, a, parts[k].0@));
            if parts[k].0@ == entry.0@ {
                lemma_seq_lt_irreflexive(entry.0@);
                if k < i {
                    assert(seq_lt(parts[k].0@, parts[i].0@));
                } else {
                    assert(seq_lt(parts[i].0@, parts[k].0@));
                }
            }
        }
    }
    assert forall|k: int| 0 <= k < q.len() implies is_target(b, #[trigger] q[k].0@) by {
        if k != i {
            assert(is_target(a, parts[k].0@));
        }
    }
    assert forall|key: Seq<char>| is_target(b, key) implies exists|k: int| 0 <= k < q.len() && #[trigger] q[k].0@ == key by {
        if key == entry.0@ {
            assert(q[i].0@ == key);
        } else {
            assert(is_target(a, key));
            let k = choose|k: int| 0 <= k < parts.len() && #[trigger] parts[k].0@ == key;
            assert(q[k].0@ == key);
        }
    }
    assert(sorted_keys(q)) by {
        assert forall|x: int, y: int| 0 <= x < y < q.len() implies seq_lt(#[trigger] q[x].0@, #[trigger] q[y].0@) by {
            assert(seq_lt(parts[x].0@, parts[y].0@));
        }
    }
}

/// A key that `locate` did not find is none of the current targets.
proof fn lemma_absent_not_target(parts: Seq<(String, MediaCommand)>, p: int, key: Seq<char>, cmd: MediaCommand, t: Targets)
    requires
        assembled(parts, cmd, t),
        0 <= p <= parts.len(),
        forall|i: int| 0 <= i < p ==> seq_lt(#[trigger] parts[i].0@, key),
        forall|i: int| p <= i < parts.len() ==> seq_lt(key, #[trigger] parts[i].0@),
    ensures
        !is_target(t, key),
{
    if is_target(t, key) {
        let i = choose|i: int| 0 <= i < parts.len() && #[trigger] parts[i].0@ == key;
        lemma_seq_lt_irreflexive(key);
        if i < p {
            assert(seq_lt(parts[i].0@, key));
        } else {
            assert(seq_lt(key, parts[i].0@));
        }
    }
}

fn clone_str_opt(o: &Option<String>) -> (r: Option<String>)
    ensures
        r == *o,
{
    match o {
        Some(s) => Some(s.clone()),
        None => None,
    }
}

/// Where `key` is in the sorted `parts`: `Ok(i)` when present, else
/// `Err(p)` with every id before `p` smaller and every id from `p` larger.
fn locate(parts: &Vec<(String, MediaCommand)>, key: &Vec<char>) -> (r: Result<usize, usize>)
    requires
        sorted_keys(parts@),
    ensures
        match r {
            Ok(i) => i < parts@.len() && parts@[i as int].0@ == key@,
            Err(p) => p <= parts@.len() && (forall|i: int| 0 <= i < p ==> seq_lt(#[trigger] parts@[i].0@, key@))
                && (forall|i: int| p <= i < parts@.len() ==> seq_lt(key@, #[trigger] parts@[i].0@)),
        },
{
    let mut i: usize = 0;
    while i < parts.len()
        invariant
            i <= parts@.len(),
            sorted_keys(parts@),
            forall|k: int| 0 <= k < i ==> seq_lt(#[trigger] parts@[k].0@, key@),
        decreases parts@.len() - i,
    {
        let pk = chars_of(parts[i].0.as_str());
        if chars_eq(&pk, key) {
            return Ok(i);
        }
        if chars_lt(key, &pk) {
            proof {
                assert forall|k: int| i <= k < parts@.len() implies seq_lt(key@, #[trigger] parts@[k].0@) by {
                    if k > i {
                        lemma_seq_lt_trans(key@, parts@[i as int].0@, parts@[k].0@);
                    }
                }
            }
            return Err(i);
        }
        proof {
            lemma_seq_lt_total(pk@, key@);
        }
        i = i + 1;
    }
    Err(i)
}

/// Assemble the per-backing parts of `cmd`: volume/mute to `vol_t`,
/// transport to `tr_t`, source to `src_t`, power to `pw_t` (each only when
/// `cmd` sets it), merged per backing id and listed in ascending id order.
fn add_transport(parts: &mut Vec<(String, MediaCommand)>, cmd: &MediaCommand, target: &String, Ghost(a): Ghost<Targets>)
    requires
        cmd.transport is Some,
        assembled(old(parts)@, *cmd, a),
        a.1 is None,
    ensures
        assembled(final(parts)@, *cmd, (a.0, Some(target@), a.2, a.3)),
{
    let ghost c = *cmd;
    let ghost b: Targets = (a.0, Some(target@), a.2, a.3);
    let key = chars_of(target.as_str());
    assert(adds_target(c, a, b, target@));
    match locate(parts, &key) {
        Ok(i) => {
            let ghost before = parts@;
            let mut e = parts.remove(i);
            e.1.transport = cmd.transport;
            proof {
                assert(before[i as int].1 == part_for(c, a, before[i as int].0@));
                assert(e.1 == part_for(c, b, e.0@));
                lemma_update_part(before, i as int, e, c, a, b);
            }
            parts.insert(i, e);
            assert(parts@ =~= before.update(i as int, e));
        },
        Err(p) => {
            let e = MediaCommand { power: None, volume: None, mute: None, source: None, transport: cmd.transport };
            let entry = (target.clone(), e);
            proof {
                lemma_absent_not_target(parts@, p as int, key@, c, a);
                lemma_insert_part(parts@, p as int, entry, c, a, b);
            }
            parts.insert(p, entry);
        },
    }
}

fn add_source(parts: &mut Vec<(String, MediaCommand)>, cmd: &MediaCommand, target: &String, Ghost(a): Ghost<Targets>)
    requires
        cmd.source is Some,
        assembled(old(parts)@, *cmd, a),
        a.2 is None,
    ensures
        assembled(final(parts)@, *cmd, (a.0, a.1, Some(target@), a.3)),
{
    let ghost c = *cmd;
    let ghost b: Targets = (a.0, a.1, Some(target@), a.3);
    let key = chars_of(target.as_str());
    assert(adds_target(c, a, b, target@));
    match locate(parts, &key) {
        Ok(i) => {
            let ghost before = parts@;
            let mut e = parts.remove(i);
            e.1.source = clone_str_opt(&cmd.source);
            proof {
                assert(before[i as int].1 == part_for(c, a, before[i as int].0@));
                assert(e.1 == part_for(c, b, e.0@));
                lemma_update_part(before, i as int, e, c, a, b);
            }
            parts.insert(i, e);
            assert(parts@ =~= before.update(i as int, e));
        },
        Err(p) => {
            let e = MediaCommand { power: None, volume: None, mute: None, source: clone_str_opt(&cmd.source), transport: None };
            let entry = (target.clone(), e);
            proof {
                lemma_absent_not_target(parts@, p as int, key@, c, a);
                lemma_insert_part(parts@, p as int, entry, c, a, b);
            }
            parts.insert(p, entry);
        },
    }
}

fn add_power(parts: &mut Vec<(String, MediaCommand)>, cmd: &MediaCommand, target: &String, Ghost(a): Ghost<Targets>)
    requires
        cmd.power is Some,
        assembled(old(parts)@, *cmd, a),
        a.3 is None,
    ensures
        assembled(final(parts)@, *cmd, (a.0, a.1, a.2, Some(target@))),
{
    let ghost c = *cmd;
    let ghost b: Targets = (a.0, a.1, a.2, Some(target@));
    let key = chars_of(target.as_str());
    assert(adds_target(c, a, b, target@));
    match locate(parts, &key) {
        Ok(i) => {
            let ghost before = parts@;
            let mut e = parts.remove(i);
            e.1.power = cmd.power;
            proof {
                assert(before[i as int].1 == part_for(c, a, before[i as int].0@));
                assert(e.1 == part_for(c, b, e.0@));
                lemma_update_part(before, i as int, e, c, a, b);
            }
            parts.insert(i, e);
            assert(parts@ =~= before.update(i as int, e));
        },
        Err(p) => {
            let e = MediaCommand { power: cmd.power, volume: None, mute: None, source: None, transport: None };
            let entry = (target.clone(), e);
            proof {
                lemma_absent_not_target(parts@, p as int, key@, c, a);
                lemma_insert_part(parts@, p as int, entry, c, a, b);
            }
            parts.insert(p, entry);
        },
    }
}

/// Assemble the per-backing parts of `cmd`: volume/mute to `vol_t`,
/// transport to `tr_t`, source to `src_t`, power to `pw_t` (each only when
/// `cmd` sets it), merged per backing id and listed in ascending id order.
pub fn assemble_parts(cmd: &MediaCommand, vol_t: &String, tr_t: &String, src_t: &String, pw_t: &String) -> (parts: Vec<(String, MediaCommand)>)
    ensures
        assembled(parts@, *cmd, targets_of(*cmd, vol_t@, tr_t@, src_t@, pw_t@)),
{
    let ghost c = *cmd;
    let ghost full = targets_of(c, vol_t@, tr_t@, src_t@, pw_t@);
    let ghost t0: Targets = (None, None, None, None);
    let ghost t1: Targets = (full.0, None, None, None);
    let ghost t2: Targets = (full.0, full.1, None, None);
    let ghost t3: Targets = (full.0, full.1, full.2, None);
    let mut parts: Vec<(String, MediaCommand)> = Vec::new();
    // Volume and mute go together.
    if cmd.volume.is_some() || cmd.mute.is_some() {
        let e = MediaCommand { power: None, volume: cmd.volume, mute: cmd.mute, source: None, transport: None };
        let entry = (vol_t.clone(), e);
        proof {
            assert(adds_target(c, t0, t1, vol_t@));
            lemma_insert_part(parts@, 0, entry, c, t0, t1);
        }
        parts.insert(0, entry);
    }
    assert(assembled(parts@, c, t1));
    if cmd.transport.is_some() {
        add_transport(&mut parts, cmd, tr_t, Ghost(t1));
    }
    assert(assembled(parts@, c, t2));
    if cmd.source.is_some() {
        add_source(&mut parts, cmd, src_t, Ghost(t2));
    }
    assert(assembled(parts@, c, t3));
    if cmd.power.is_some() {
        add_power(&mut parts, cmd, pw_t, Ghost(t3));
    }
    assert(assembled(parts@, c, full));
    parts
}

} // verus!
