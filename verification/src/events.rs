//! The live-subscriber registry of the event stream: who is connected and
//! what each has been sent (events, heartbeats, dropped backlog, last
//! write), and the identity a subscriber is listed under.
use vstd::prelude::*;
use crate::text::{chars_of, concat, string_of_range};

verus! {

/// How often the stream emits its named heartbeat event, in seconds.
pub const HEARTBEAT_SECS: u64 = 20;

/// The keep-alive comment interval, in seconds (well inside the usual 60 s
/// proxy idle timeout).
pub const KEEP_ALIVE_SECS: u64 = 15;

/// The longest user agent kept for a subscriber, in characters.
pub const USER_AGENT_MAX: usize = 120;

/// `std::time::SystemTime`, carried through opaque.
#[verifier::external_type_specification]
#[verifier::external_body]
pub struct ExSystemTime(std::time::SystemTime);

/// `std::time::SystemTimeError`, carried through opaque.
#[verifier::external_type_specification]
#[verifier::external_body]
pub struct ExSystemTimeError(std::time::SystemTimeError);

/// `SystemTime::now`: the system clock's reading. Nothing is promised of
/// it: it is the clock.
#[verifier::external_body]
fn system_now() -> std::time::SystemTime {
    std::time::SystemTime::now()
}

/// `SystemTime::duration_since` the Unix epoch: the time since it, or the
/// error when the clock reads earlier. Nothing is promised of the value.
#[verifier::external_body]
fn since_epoch(t: &std::time::SystemTime) -> Result<core::time::Duration, std::time::SystemTimeError> {
    t.duration_since(std::time::UNIX_EPOCH)
}

/// `Duration::as_millis`: the whole milliseconds of a duration. The
/// duration is opaque here, so nothing is promised of the count.
#[verifier::external_body]
fn whole_millis(d: &core::time::Duration) -> u128 {
    d.as_millis()
}

/// The clock as Unix milliseconds (0 if it reads before the epoch).
fn unix_ms() -> u64 {
    match since_epoch(&system_now()) {
        Ok(d) => whole_millis(&d) as u64,
        Err(_) => 0,
    }
}

/// Counters for one live subscriber.
pub struct StreamStats {
    pub id: u64,
    /// A paired kiosk by name, or a plain browser session.
    pub label: String,
    /// The kiosk row this stream belongs to, when known.
    pub kiosk_id: Option<String>,
    pub user_agent: String,
    /// Unix milliseconds of the connection.
    pub connected_at: u64,
    /// Device-state and inventory events written.
    pub events_sent: u64,
    /// Heartbeats written.
    pub beats_sent: u64,
    /// Events dropped because the subscriber fell behind.
    pub lagged: u64,
    /// Unix milliseconds of the last write of any kind; 0 until the first.
    pub last_write_ms: u64,
}

impl StreamStats {
    /// Record a write at `now`.
    pub fn touch(&mut self, now: u64)
        ensures
            final(self).last_write_ms == now,
            final(self).events_sent == old(self).events_sent,
            final(self).beats_sent == old(self).beats_sent,
            final(self).lagged == old(self).lagged,
            final(self).id == old(self).id,
            final(self).label == old(self).label,
            final(self).kiosk_id == old(self).kiosk_id,
            final(self).user_agent == old(self).user_agent,
            final(self).connected_at == old(self).connected_at,
    {
        self.last_write_ms = now;
    }

    /// Record an event written at `now` (the counter wraps like an atomic add).
    pub fn event(&mut self, now: u64)
        ensures
            final(self).events_sent == (if old(self).events_sent == u64::MAX { 0 } else { (old(self).events_sent + 1) as u64 }),
            final(self).last_write_ms == now,
            final(self).beats_sent == old(self).beats_sent,
            final(self).lagged == old(self).lagged,
            final(self).id == old(self).id,
            final(self).label == old(self).label,
            final(self).kiosk_id == old(self).kiosk_id,
            final(self).user_agent == old(self).user_agent,
            final(self).connected_at == old(self).connected_at,
    {
        self.events_sent = self.events_sent.wrapping_add(1);
        self.touch(now);
    }

    /// Record a heartbeat written at `now`.
    pub fn beat(&mut self, now: u64)
        ensures
            final(self).beats_sent == (if old(self).beats_sent == u64::MAX { 0 } else { (old(self).beats_sent + 1) as u64 }),
            final(self).last_write_ms == now,
            final(self).events_sent == old(self).events_sent,
            final(self).lagged == old(self).lagged,
            final(self).id == old(self).id,
            final(self).label == old(self).label,
            final(self).kiosk_id == old(self).kiosk_id,
            final(self).user_agent == old(self).user_agent,
            final(self).connected_at == old(self).connected_at,
    {
        self.beats_sent = self.beats_sent.wrapping_add(1);
        self.touch(now);
    }

    /// Count `n` events dropped because the subscriber fell behind; a drop
    /// is not a write.
    pub fn lag(&mut self, n: u64)
        ensures
            final(self).lagged == (if old(self).lagged as int + n as int > u64::MAX as int {
                (old(self).lagged as int + n as int - u64::MAX as int - 1) as u64
            } else {
                (old(self).lagged + n) as u64
            }),
            final(self).last_write_ms == old(self).last_write_ms,
            final(self).events_sent == old(self).events_sent,
            final(self).beats_sent == old(self).beats_sent,
            final(self).id == old(self).id,
            final(self).label == old(self).label,
            final(self).kiosk_id == old(self).kiosk_id,
            final(self).user_agent == old(self).user_agent,
            final(self).connected_at == old(self).connected_at,
    {
        self.lagged = self.lagged.wrapping_add(n);
    }
}

/// One live subscriber, as the diagnostics view reports it.
pub struct StreamSnapshot {
    pub id: u64,
    pub label: String,
    pub kiosk_id: Option<String>,
    pub user_agent: String,
    pub connected_secs: u64,
    pub events_sent: u64,
    pub beats_sent: u64,
    pub lagged: u64,
    /// Seconds since the last write, or `None` if nothing was written yet.
    pub idle_secs: Option<u64>,
}

/// Every connected subscriber, in connection order.
pub struct StreamRegistry {
    pub live: Vec<StreamStats>,
    pub next_id: u64,
}

impl StreamRegistry {
    /// Ids strictly increase along the list and stay below the next id.
    pub open spec fn wf(&self) -> bool {
        &&& forall|i: int, j: int| 0 <= i < j < self.live@.len() ==> (#[trigger] self.live@[i]).id < (#[trigger] self.live@[j]).id
        &&& forall|i: int| 0 <= i < self.live@.len() ==> (#[trigger] self.live@[i]).id < self.next_id
    }

    /// The ids of the live subscribers, in order.
    pub open spec fn ids(&self) -> Seq<u64> {
        live_ids(self.live@)
    }

    /// An empty registry.
    pub fn new() -> (r: StreamRegistry)
        ensures
            r.wf(),
            r.live@.len() == 0,
            r.next_id == 0,
    {
        StreamRegistry { live: Vec::new(), next_id: 0 }
    }

    /// Register a subscriber connecting at `now`; its id is the next one.
    pub fn register_at(&mut self, label: String, kiosk_id: Option<String>, user_agent: String, now: u64) -> (id: u64)
        requires
            old(self).wf(),
            old(self).next_id < u64::MAX,
        ensures
            final(self).wf(),
            id == old(self).next_id,
            final(self).next_id == old(self).next_id + 1,
            final(self).ids() == old(self).ids().push(id),
            final(self).live@ == old(self).live@.push(StreamStats {
                id,
                label,
                kiosk_id,
                user_agent,
                connected_at: now,
                events_sent: 0,
                beats_sent: 0,
                lagged: 0,
                last_write_ms: 0,
            }),
            call_step((old(self).live@, old(self).next_id as int), RegistryCall::Register { label, kiosk_id, user_agent, now }) == (final(self).live@, final(self).next_id as int),
    {
        let id = self.next_id;
        self.next_id = self.next_id + 1;
        self.live.push(StreamStats {
            id,
            label,
            kiosk_id,
            user_agent,
            connected_at: now,
            events_sent: 0,
            beats_sent: 0,
            lagged: 0,
            last_write_ms: 0,
        });
        id
    }

    /// Remove the subscriber `id` (a client hanging up); the others stay,
    /// in order.
    pub fn deregister(&mut self, id: u64)
        requires
            old(self).wf(),
        ensures
            final(self).wf(),
            final(self).next_id == old(self).next_id,
            final(self).live@ == old(self).live@.filter(|s: StreamStats| s.id != id),
            final(self).ids() == without(old(self).ids(), id),
            call_step((old(self).live@, old(self).next_id as int), RegistryCall::Deregister(id)) == (final(self).live@, final(self).next_id as int),
    {
        let ghost orig = self.live@;
        let ghost keep = |s: StreamStats| s.id != id;
        let mut kept: Vec<StreamStats> = Vec::new();
        let n = self.live.len();
        let mut i: usize = 0;
        proof {
            reveal(Seq::filter);
            assert(orig.subrange(0, 0) =~= Seq::<StreamStats>::empty());
        }
        while self.live.len() > 0
            invariant
                n == orig.len(),
                orig == old(self).live@,
                old(self).wf(),
                self.next_id == old(self).next_id,
                i + self.live@.len() == orig.len(),
                self.live@ == orig.subrange(i as int, orig.len() as int),
                kept@ == orig.subrange(0, i as int).filter(keep),
                keep == (|s: StreamStats| s.id != id),
            decreases self.live@.len(),
        {
            let s = self.live.remove(0);
            if s.id != id {
                kept.push(s);
            }
            proof {
                reveal(Seq::filter);
                let next = orig.subrange(0, i + 1);
                assert(next.drop_last() =~= orig.subrange(0, i as int));
                assert(next.last() == orig[i as int]);
                assert(self.live@ =~= orig.subrange(i + 1, orig.len() as int));
            }
            i = i + 1;
        }
        assert(orig.subrange(0, orig.len() as int) =~= orig);
        self.live = kept;
        proof {
            lemma_filter_keeps_order(orig, keep, self.next_id);
            lemma_ids_filter(orig, id);
        }
    }

    /// The index of the live subscriber `id`, if there is one.
    fn position(&self, id: u64) -> (r: Option<usize>)
        ensures
            match r {
                Some(k) => k < self.live@.len() && self.live@[k as int].id == id,
                None => forall|k: int| 0 <= k < self.live@.len() ==> (#[trigger] self.live@[k]).id != id,
            },
    {
        let mut i: usize = 0;
        while i < self.live.len()
            invariant
                i <= self.live@.len(),
                forall|k: int| 0 <= k < i ==> (#[trigger] self.live@[k]).id != id,
            decreases self.live@.len() - i,
        {
            if self.live[i].id == id {
                return Some(i);
            }
            i = i + 1;
        }
        None
    }

    /// Record an event written to subscriber `id` at `now`.
    pub fn record_event_at(&mut self, id: u64, now: u64)
        requires
            old(self).wf(),
        ensures
            final(self).wf(),
            final(self).next_id == old(self).next_id,
            final(self).live@.len() == old(self).live@.len(),
            final(self).ids() == old(self).ids(),
            forall|k: int| 0 <= k < old(self).live@.len() ==> {
                let o = #[trigger] old(self).live@[k];
                let n = final(self).live@[k];
                if o.id == id {
                    n.events_sent == (if o.events_sent == u64::MAX { 0 } else { (o.events_sent + 1) as u64 })
                        && n.last_write_ms == now && n.beats_sent == o.beats_sent && n.lagged == o.lagged
                        && n.id == o.id && n.label == o.label && n.kiosk_id == o.kiosk_id
                        && n.user_agent == o.user_agent && n.connected_at == o.connected_at
                } else {
                    n == o
                }
            },
            call_step((old(self).live@, old(self).next_id as int), RegistryCall::Event(id, now)) == (final(self).live@, final(self).next_id as int),
    {
        if let Some(k) = self.position(id) {
            let mut s = self.live.remove(k);
            s.event(now);
            self.live.insert(k, s);
            proof {
                assert forall|x: int| 0 <= x < self.live@.len() && x != k implies self.live@[x] == old(self).live@[x] by {}
            }
        }
    }

    /// Record a heartbeat written to subscriber `id` at `now`.
    pub fn record_beat_at(&mut self, id: u64, now: u64)
        requires
            old(self).wf(),
        ensures
            final(self).wf(),
            final(self).next_id == old(self).next_id,
            final(self).live@.len() == old(self).live@.len(),
            final(self).ids() == old(self).ids(),
            forall|k: int| 0 <= k < old(self).live@.len() ==> {
                let o = #[trigger] old(self).live@[k];
                let n = final(self).live@[k];
                if o.id == id {
                    n.beats_sent == (if o.beats_sent == u64::MAX { 0 } else { (o.beats_sent + 1) as u64 })
                        && n.last_write_ms == now && n.events_sent == o.events_sent && n.lagged == o.lagged
                        && n.id == o.id && n.label == o.label && n.kiosk_id == o.kiosk_id
                        && n.user_agent == o.user_agent && n.connected_at == o.connected_at
                } else {
                    n == o
                }
            },
            call_step((old(self).live@, old(self).next_id as int), RegistryCall::Beat(id, now)) == (final(self).live@, final(self).next_id as int),
    {
        if let Some(k) = self.position(id) {
            let mut s = self.live.remove(k);
            s.beat(now);
            self.live.insert(k, s);
            proof {
                assert forall|x: int| 0 <= x < self.live@.len() && x != k implies self.live@[x] == old(self).live@[x] by {}
            }
        }
    }

    /// Count `n` events dropped for subscriber `id`.
    pub fn record_lag(&mut self, id: u64, n: u64)
        requires
            old(self).wf(),
        ensures
            final(self).wf(),
            final(self).next_id == old(self).next_id,
            final(self).live@.len() == old(self).live@.len(),
            final(self).ids() == old(self).ids(),
            forall|k: int| 0 <= k < old(self).live@.len() ==> {
                let o = #[trigger] old(self).live@[k];
                let m = final(self).live@[k];
                if o.id == id {
                    m.lagged == (if o.lagged as int + n as int > u64::MAX as int {
                        (o.lagged as int + n as int - u64::MAX as int - 1) as u64
                    } else {
                        (o.lagged + n) as u64
                    }) && m.last_write_ms == o.last_write_ms && m.events_sent == o.events_sent
                        && m.beats_sent == o.beats_sent && m.id == o.id && m.label == o.label
                        && m.kiosk_id == o.kiosk_id && m.user_agent == o.user_agent
                        && m.connected_at == o.connected_at
                } else {
                    m == o
                }
            },
            call_step((old(self).live@, old(self).next_id as int), RegistryCall::Lag(id, n)) == (final(self).live@, final(self).next_id as int),
    {
        if let Some(k) = self.position(id) {
            let mut s = self.live.remove(k);
            s.lag(n);
            self.live.insert(k, s);
            proof {
                assert forall|x: int| 0 <= x < self.live@.len() && x != k implies self.live@[x] == old(self).live@[x] by {}
            }
        }
    }

    /// Every live subscriber as of `now` (Unix milliseconds), oldest first.
    pub fn snapshot_at(&self, now: u64) -> (r: Vec<StreamSnapshot>)
        requires
            self.wf(),
        ensures
            r@.len() == self.live@.len(),
            forall|i: int, j: int| 0 <= i < j < r@.len() ==> (#[trigger] r@[i]).id < (#[trigger] r@[j]).id,
            forall|k: int| 0 <= k < r@.len() ==> #[trigger] snapshot_of(self.live@[k], now, r@[k]),
    {
        let mut out: Vec<StreamSnapshot> = Vec::new();
        let mut i: usize = 0;
        while i < self.live.len()
            invariant
                i <= self.live@.len(),
                self.wf(),
                out@.len() == i,
                forall|k: int| 0 <= k < i ==> #[trigger] snapshot_of(self.live@[k], now, out@[k]),
            decreases self.live@.len() - i,
        {
            let s = &self.live[i];
            let connected_secs = if now >= s.connected_at {
                (now - s.connected_at) / 1000
            } else {
                0
            };
            let idle_secs = if s.last_write_ms > 0 {
                Some(if now >= s.last_write_ms {
                    (now - s.last_write_ms) / 1000
                } else {
                    0
                })
            } else {
                None
            };
            out.push(StreamSnapshot {
                id: s.id,
                label: s.label.clone(),
                kiosk_id: clone_opt(&s.kiosk_id),
                user_agent: s.user_agent.clone(),
                connected_secs,
                events_sent: s.events_sent,
                beats_sent: s.beats_sent,
                lagged: s.lagged,
                idle_secs,
            });
            i = i + 1;
        }
        proof {
            assert forall|a: int, b: int| 0 <= a < b < out@.len() implies (#[trigger] out@[a]).id < (#[trigger] out@[b]).id by {
                assert(snapshot_of(self.live@[a], now, out@[a]));
                assert(snapshot_of(self.live@[b], now, out@[b]));
            }
        }
        out
    }

    /// Register a subscriber connecting now (read from the clock); its id
    /// is the next one.
    pub fn register(&mut self, label: String, kiosk_id: Option<String>, user_agent: String) -> (id: u64)
        requires
            old(self).wf(),
            old(self).next_id < u64::MAX,
        ensures
            final(self).wf(),
            id == old(self).next_id,
            final(self).next_id == old(self).next_id + 1,
            final(self).ids() == old(self).ids().push(id),
            final(self).live@ == old(self).live@.push(StreamStats {
                id,
                label,
                kiosk_id,
                user_agent,
                connected_at: final(self).live@.last().connected_at,
                events_sent: 0,
                beats_sent: 0,
                lagged: 0,
                last_write_ms: 0,
            }),
            exists|now: u64| call_step((old(self).live@, old(self).next_id as int), RegistryCall::Register { label, kiosk_id, user_agent, now }) == (final(self).live@, final(self).next_id as int),
    {
        let now = unix_ms();
        self.register_at(label, kiosk_id, user_agent, now)
    }

    /// Record an event written to subscriber `id` now (read from the clock).
    pub fn record_event(&mut self, id: u64)
        requires
            old(self).wf(),
        ensures
            final(self).wf(),
            final(self).next_id == old(self).next_id,
            final(self).live@.len() == old(self).live@.len(),
            final(self).ids() == old(self).ids(),
            forall|k: int| 0 <= k < old(self).live@.len() ==> {
                let o = #[trigger] old(self).live@[k];
                let n = final(self).live@[k];
                if o.id == id {
                    n.events_sent == (if o.events_sent == u64::MAX { 0 } else { (o.events_sent + 1) as u64 })
                        && n.beats_sent == o.beats_sent && n.lagged == o.lagged
                        && n.id == o.id && n.label == o.label && n.kiosk_id == o.kiosk_id
                        && n.user_agent == o.user_agent && n.connected_at == o.connected_at
                } else {
                    n == o
                }
            },
            exists|now: u64| #[trigger] call_step((old(self).live@, old(self).next_id as int), RegistryCall::Event(id, now)) == (final(self).live@, final(self).next_id as int),
    {
        let now = unix_ms();
        self.record_event_at(id, now);
    }

    /// Record a heartbeat written to subscriber `id` now (read from the
    /// clock).
    pub fn record_beat(&mut self, id: u64)
        requires
            old(self).wf(),
        ensures
            final(self).wf(),
            final(self).next_id == old(self).next_id,
            final(self).live@.len() == old(self).live@.len(),
            final(self).ids() == old(self).ids(),
            forall|k: int| 0 <= k < old(self).live@.len() ==> {
                let o = #[trigger] old(self).live@[k];
                let n = final(self).live@[k];
                if o.id == id {
                    n.beats_sent == (if o.beats_sent == u64::MAX { 0 } else { (o.beats_sent + 1) as u64 })
                        && n.events_sent == o.events_sent && n.lagged == o.lagged
                        && n.id == o.id && n.label == o.label && n.kiosk_id == o.kiosk_id
                        && n.user_agent == o.user_agent && n.connected_at == o.connected_at
                } else {
                    n == o
                }
            },
            exists|now: u64| #[trigger] call_step((old(self).live@, old(self).next_id as int), RegistryCall::Beat(id, now)) == (final(self).live@, final(self).next_id as int),
    {
        let now = unix_ms();
        self.record_beat_at(id, now);
    }

    /// Every live subscriber as of now (read from the clock), oldest first.
    pub fn snapshot(&self) -> (r: Vec<StreamSnapshot>)
        requires
            self.wf(),
        ensures
            r@.len() == self.live@.len(),
            forall|i: int, j: int| 0 <= i < j < r@.len() ==> (#[trigger] r@[i]).id < (#[trigger] r@[j]).id,
            exists|now: u64| #[trigger] taken_at(self.live@, now, r@),
    {
        let now = unix_ms();
        let r = self.snapshot_at(now);
        assert(taken_at(self.live@, now, r@));
        r
    }
}

/// Dropping a subscriber and then listing ids is listing ids and then
/// dropping its id.
proof fn lemma_ids_filter(l: Seq<StreamStats>, d: u64)
    ensures
        live_ids(l.filter(|s: StreamStats| s.id != d)) == without(live_ids(l), d),
    decreases l.len(),
{
    reveal(Seq::filter);
    let f = |s: StreamStats| s.id != d;
    if l.len() == 0 {
        assert(live_ids(l.filter(f)) =~= without(live_ids(l), d));
    } else {
        let r = l.drop_last();
        lemma_ids_filter(r, d);
        assert(live_ids(l).drop_last() =~= live_ids(r));
        assert(live_ids(l).last() == l.last().id);
        if f(l.last()) {
            assert(live_ids(l.filter(f)) =~= live_ids(r.filter(f)).push(l.last().id));
        } else {
            assert(live_ids(l.filter(f)) =~= live_ids(r.filter(f)));
        }
    }
}

proof fn lemma_filter_keeps_order(s: Seq<StreamStats>, keep: spec_fn(StreamStats) -> bool, bound: u64)
    requires
        forall|i: int, j: int| 0 <= i < j < s.len() ==> (#[trigger] s[i]).id < (#[trigger] s[j]).id,
        forall|i: int| 0 <= i < s.len() ==> (#[trigger] s[i]).id < bound,
    ensures
        forall|i: int, j: int| 0 <= i < j < s.filter(keep).len() ==> (#[trigger] s.filter(keep)[i]).id < (#[trigger] s.filter(keep)[j]).id,
        forall|i: int| 0 <= i < s.filter(keep).len() ==> (#[trigger] s.filter(keep)[i]).id < bound,
    decreases s.len(),
{
    reveal(Seq::filter);
    if s.len() > 0 {
        let d = s.drop_last();
        lemma_filter_keeps_order(d, keep, bound);
        d.lemma_filter_len(keep);
        let f = d.filter(keep);
        if keep(s.last()) {
            assert forall|i: int| 0 <= i < f.len() implies (#[trigger] f[i]).id < s.last().id by {
                // Every kept element comes from `d`, whose ids are below the last one.
                assert(d.filter(keep).contains(f[i])) by {
                    assert(f[i] == f[i]);
                }
                lemma_filtered_from(d, keep, i);
            }
            let g = f.push(s.last());
            assert forall|i: int, j: int| 0 <= i < j < g.len() implies (#[trigger] g[i]).id < (#[trigger] g[j]).id by {
                if j == f.len() {
                    assert(g[i] == f[i]);
                } else {
                    assert(g[i] == f[i] && g[j] == f[j]);
                }
            }
            assert forall|i: int| 0 <= i < g.len() implies (#[trigger] g[i]).id < bound by {
                if i < f.len() {
                    assert(g[i] == f[i]);
                }
            }
        }
    }
}

/// Every element of a filtered list is an element of the list.
proof fn lemma_filtered_from(d: Seq<StreamStats>, keep: spec_fn(StreamStats) -> bool, i: int)
    requires
        0 <= i < d.filter(keep).len(),
    ensures
        exists|k: int| 0 <= k < d.len() && d[k] == d.filter(keep)[i],
    decreases d.len(),
{
    reveal(Seq::filter);
    if d.len() > 0 {
        let e = d.drop_last();
        let f = e.filter(keep);
        if i < f.len() {
            lemma_filtered_from(e, keep, i);
            let k = choose|k: int| 0 <= k < e.len() && e[k] == f[i];
            assert(d[k] == e[k]);
            if keep(d.last()) {
                assert(d.filter(keep)[i] == f[i]);
            }
        } else {
            assert(d[d.len() - 1] == d.filter(keep)[i]);
        }
    }
}

/// `r` reports each of `live` as of `now`.
pub open spec fn taken_at(live: Seq<StreamStats>, now: u64, r: Seq<StreamSnapshot>) -> bool {
    r.len() == live.len() && forall|k: int| 0 <= k < r.len() ==> #[trigger] snapshot_of(live[k], now, r[k])
}

/// `r` reports `s` as of `now`: whole seconds since it connected and since
/// its last write (0 when the clock reads earlier), no idle time before the
/// first write.
pub open spec fn snapshot_of(s: StreamStats, now: u64, r: StreamSnapshot) -> bool {
    &&& r.id == s.id && r.label == s.label && r.kiosk_id == s.kiosk_id && r.user_agent == s.user_agent
    &&& r.events_sent == s.events_sent && r.beats_sent == s.beats_sent && r.lagged == s.lagged
    &&& r.connected_secs == (if now >= s.connected_at { ((now - s.connected_at) / 1000) as u64 } else { 0 })
    &&& r.idle_secs == (if s.last_write_ms > 0 {
        Some(if now >= s.last_write_ms { ((now - s.last_write_ms) / 1000) as u64 } else { 0u64 })
    } else {
        None
    })
}

fn clone_opt(o: &Option<String>) -> (r: Option<String>)
    ensures
        r == *o,
{
    match o {
        Some(s) => Some(s.clone()),
        None => None,
    }
}

/// The user agent a subscriber is listed under: the header's first 120
/// characters, or "unknown" without a readable header.
pub fn subscriber_user_agent(header: Option<&str>) -> (r: String)
    ensures
        r@ == match header {
            Some(h) => if h@.len() <= USER_AGENT_MAX { h@ } else { h@.subrange(0, USER_AGENT_MAX as int) },
            None => "unknown"@,
        },
{
    match header {
        None => "unknown".to_owned(),
        Some(h) => {
            let v = chars_of(h);
            let end = if v.len() <= USER_AGENT_MAX {
                v.len()
            } else {
                USER_AGENT_MAX
            };
            let r = string_of_range(&v, 0, end);
            assert(v.len() <= USER_AGENT_MAX ==> v@.subrange(0, v@.len() as int) =~= v@);
            r
        },
    }
}

/// The label a subscriber is listed under: "kiosk:<name>" for a paired
/// kiosk, else "session".
pub fn subscriber_label(kiosk_name: Option<&str>) -> (r: String)
    ensures
        r@ == match kiosk_name {
            Some(n) => "kiosk:"@ + n@,
            None => "session"@,
        },
{
    match kiosk_name {
        Some(n) => concat("kiosk:", n),
        None => "session".to_owned(),
    }
}

// ── The registry over a run of operations ────────────────────────────────────

/// An operation on the registry, as far as the live ids go: a subscriber
/// connecting, one hanging up, or a counter written for one (an event, a
/// heartbeat or dropped backlog).
pub enum RegistryOp {
    Register,
    Deregister(u64),
    Record(u64),
}

/// The live ids and the next id after one operation, as `register`,
/// `deregister` and the `record_*` calls state it.
pub open spec fn ids_step(st: (Seq<u64>, int), op: RegistryOp) -> (Seq<u64>, int) {
    match op {
        RegistryOp::Register => (st.0.push(st.1 as u64), st.1 + 1),
        RegistryOp::Deregister(d) => (without(st.0, d), st.1),
        RegistryOp::Record(_) => st,
    }
}

/// The live ids and the next id after a run of operations on an empty
/// registry whose next id was `next0`.
pub open spec fn ids_run(ops: Seq<RegistryOp>, next0: int) -> (Seq<u64>, int)
    decreases ops.len(),
{
    if ops.len() == 0 {
        (Seq::empty(), next0)
    } else {
        ids_step(ids_run(ops.drop_last(), next0), ops.last())
    }
}

/// How many subscribers a run registers.
pub open spec fn registrations(ops: Seq<RegistryOp>) -> int
    decreases ops.len(),
{
    if ops.len() == 0 {
        0
    } else {
        registrations(ops.drop_last()) + if ops.last() is Register { 1int } else { 0int }
    }
}

/// Whether `x` is live after the run: some registration handed it out (the
/// `k`-th one gets `next0 + k`) and no later hang-up of `x` followed.
pub open spec fn live_after(ops: Seq<RegistryOp>, next0: int, x: u64) -> bool
    decreases ops.len(),
{
    if ops.len() == 0 {
        false
    } else {
        let r = ops.drop_last();
        match ops.last() {
            RegistryOp::Register => live_after(r, next0, x) || x == next0 + registrations(r),
            RegistryOp::Deregister(d) => live_after(r, next0, x) && x != d,
            RegistryOp::Record(_) => live_after(r, next0, x),
        }
    }
}

/// The ids without `d`, in order.
pub open spec fn without(s: Seq<u64>, d: u64) -> Seq<u64> {
    s.filter(|x: u64| x != d)
}

proof fn lemma_without(s: Seq<u64>, d: u64, lo: int, hi: int)
    requires
        forall|i: int, j: int| 0 <= i < j < s.len() ==> (#[trigger] s[i]) < (#[trigger] s[j]),
        forall|i: int| 0 <= i < s.len() ==> lo <= #[trigger] s[i] < hi,
    ensures
        forall|i: int, j: int| 0 <= i < j < without(s, d).len() ==> (#[trigger] without(s, d)[i]) < (#[trigger] without(s, d)[j]),
        forall|i: int| 0 <= i < without(s, d).len() ==> lo <= #[trigger] without(s, d)[i] < hi,
        forall|x: u64| #[trigger] without(s, d).contains(x) <==> (s.contains(x) && x != d),
    decreases s.len(),
{
    reveal(Seq::filter);
    if s.len() == 0 {
        assert(without(s, d) =~= Seq::<u64>::empty());
    } else {
        let t = s.drop_last();
        let last = s.last();
        assert forall|i: int| 0 <= i < t.len() implies lo <= #[trigger] t[i] < last by {
            assert(t[i] == s[i]);
        }
        lemma_without(t, d, lo, last as int);
        let f = without(t, d);
        assert forall|x: u64| #[trigger] s.contains(x) <==> (t.contains(x) || x == last) by {
            if s.contains(x) {
                let k = choose|k: int| 0 <= k < s.len() && s[k] == x;
                if k < t.len() {
                    assert(t[k] == x);
                }
            }
            if t.contains(x) {
                let k = choose|k: int| 0 <= k < t.len() && t[k] == x;
                assert(s[k] == x);
            }
            if x == last {
                assert(s[s.len() - 1] == x);
            }
        }
        if last != d {
            let g = f.push(last);
            assert(without(s, d) =~= g);
            assert forall|i: int, j: int| 0 <= i < j < g.len() implies (#[trigger] g[i]) < (#[trigger] g[j]) by {
                if j == f.len() {
                    assert(g[i] == f[i]);
                } else {
                    assert(g[i] == f[i] && g[j] == f[j]);
                }
            }
            assert forall|i: int| 0 <= i < g.len() implies lo <= #[trigger] g[i] < hi by {
                if i < f.len() {
                    assert(g[i] == f[i]);
                }
            }
            assert forall|x: u64| #[trigger] g.contains(x) <==> (f.contains(x) || x == last) by {
                if g.contains(x) {
                    let k = choose|k: int| 0 <= k < g.len() && g[k] == x;
                    if k < f.len() {
                        assert(f[k] == x);
                    }
                }
                if f.contains(x) {
                    let k = choose|k: int| 0 <= k < f.len() && f[k] == x;
                    assert(g[k] == x);
                }
                if x == last {
                    assert(g[f.len() as int] == x);
                }
            }
        } else {
            assert(without(s, d) =~= f);
        }
    }
}

/// The registry over any run of operations from empty: the live ids are
/// exactly those handed out by a registration and not hung up since, they
/// are listed oldest first (strictly ascending), and each lies between the
/// first id and the next one, which has moved on by one per registration.
pub proof fn lemma_registry_run(ops: Seq<RegistryOp>, next0: int)
    requires
        0 <= next0,
        next0 + registrations(ops) <= u64::MAX,
    ensures
        0 <= registrations(ops),
        ids_run(ops, next0).1 == next0 + registrations(ops),
        forall|i: int, j: int| 0 <= i < j < ids_run(ops, next0).0.len() ==> (#[trigger] ids_run(ops, next0).0[i]) < (#[trigger] ids_run(ops, next0).0[j]),
        forall|i: int| 0 <= i < ids_run(ops, next0).0.len() ==> next0 <= #[trigger] ids_run(ops, next0).0[i] < ids_run(ops, next0).1,
        forall|x: u64| #[trigger] ids_run(ops, next0).0.contains(x) <==> live_after(ops, next0, x),
    decreases ops.len(),
{
    if ops.len() > 0 {
        let r = ops.drop_last();
        assert(registrations(r) <= registrations(ops));
        lemma_registry_run(r, next0);
        let (ids, next) = ids_run(r, next0);
        match ops.last() {
            RegistryOp::Register => {
                assert(registrations(ops) == registrations(r) + 1);
                assert(next as u64 == next);
                let n = ids.push(next as u64);
                assert(ids_run(ops, next0).0 == n);
                assert forall|i: int, j: int| 0 <= i < j < n.len() implies n[i] < n[j] by {
                    if j == ids.len() {
                        assert(n[i] == ids[i]);
                    } else {
                        assert(n[i] == ids[i] && n[j] == ids[j]);
                    }
                }
                assert forall|i: int| 0 <= i < n.len() implies next0 <= #[trigger] n[i] < next + 1 by {
                    if i < ids.len() {
                        assert(n[i] == ids[i]);
                    }
                }
                assert forall|x: u64| #[trigger] n.contains(x) <==> live_after(ops, next0, x) by {
                    if n.contains(x) {
                        let k = choose|k: int| 0 <= k < n.len() && n[k] == x;
                        if k < ids.len() {
                            assert(ids[k] == x);
                            assert(ids.contains(x));
                        }
                    }
                    if ids.contains(x) {
                        let k = choose|k: int| 0 <= k < ids.len() && ids[k] == x;
                        assert(n[k] == x);
                    }
                    if x == next0 + registrations(r) {
                        assert(n[ids.len() as int] == x);
                    }
                }
            },
            RegistryOp::Deregister(d) => {
                lemma_without(ids, d, next0, next);
                assert(ids_run(ops, next0).0 == without(ids, d));
            },
            RegistryOp::Record(_) => {},
        }
    }
}

// ── The registry over a run of calls ────────────────────────────────────────

/// A counter bumped the way an atomic add does (wrapping at the top).
pub open spec fn wrap_inc(x: u64) -> u64 {
    if x == u64::MAX { 0 } else { (x + 1) as u64 }
}

/// `n` added the way an atomic add does (wrapping at the top).
pub open spec fn wrap_add(x: u64, n: u64) -> u64 {
    if x as int + n as int > u64::MAX as int { (x as int + n as int - u64::MAX as int - 1) as u64 } else { (x + n) as u64 }
}

/// A subscriber after an event written at `now`.
pub open spec fn evented(s: StreamStats, now: u64) -> StreamStats {
    StreamStats { events_sent: wrap_inc(s.events_sent), last_write_ms: now, ..s }
}

/// A subscriber after a heartbeat written at `now`.
pub open spec fn beaten(s: StreamStats, now: u64) -> StreamStats {
    StreamStats { beats_sent: wrap_inc(s.beats_sent), last_write_ms: now, ..s }
}

/// A subscriber after `n` events were dropped for it.
pub open spec fn lagged_by(s: StreamStats, n: u64) -> StreamStats {
    StreamStats { lagged: wrap_add(s.lagged, n), ..s }
}

/// A call on the registry: a subscriber connecting at `now`, one hanging
/// up, or an event, heartbeat or dropped backlog recorded for one.
pub enum RegistryCall {
    Register { label: String, kiosk_id: Option<String>, user_agent: String, now: u64 },
    Deregister(u64),
    Event(u64, u64),
    Beat(u64, u64),
    Lag(u64, u64),
}

/// The live subscribers and the next id after one call, as the registry's
/// methods state it.
pub open spec fn call_step(st: (Seq<StreamStats>, int), c: RegistryCall) -> (Seq<StreamStats>, int) {
    match c {
        RegistryCall::Register { label, kiosk_id, user_agent, now } => (st.0.push(StreamStats {
            id: st.1 as u64,
            label,
            kiosk_id,
            user_agent,
            connected_at: now,
            events_sent: 0,
            beats_sent: 0,
            lagged: 0,
            last_write_ms: 0,
        }), st.1 + 1),
        RegistryCall::Deregister(d) => (st.0.filter(|s: StreamStats| s.id != d), st.1),
        RegistryCall::Event(id, now) => (st.0.map_values(|s: StreamStats| if s.id == id { evented(s, now) } else { s }), st.1),
        RegistryCall::Beat(id, now) => (st.0.map_values(|s: StreamStats| if s.id == id { beaten(s, now) } else { s }), st.1),
        RegistryCall::Lag(id, n) => (st.0.map_values(|s: StreamStats| if s.id == id { lagged_by(s, n) } else { s }), st.1),
    }
}

/// The live subscribers and the next id after a run of calls on an empty
/// registry whose next id was `next0`.
pub open spec fn call_run(calls: Seq<RegistryCall>, next0: int) -> (Seq<StreamStats>, int)
    decreases calls.len(),
{
    if calls.len() == 0 {
        (Seq::empty(), next0)
    } else {
        call_step(call_run(calls.drop_last(), next0), calls.last())
    }
}

/// The ids of a list of subscribers, in order.
pub open spec fn live_ids(live: Seq<StreamStats>) -> Seq<u64> {
    live.map_values(|s: StreamStats| s.id)
}

/// A run of calls as far as the live ids go.
pub open spec fn run_ops(calls: Seq<RegistryCall>) -> Seq<RegistryOp> {
    calls.map_values(|c: RegistryCall| call_op(c))
}

/// A call as far as the live ids go.
pub open spec fn call_op(c: RegistryCall) -> RegistryOp {
    match c {
        RegistryCall::Register { .. } => RegistryOp::Register,
        RegistryCall::Deregister(d) => RegistryOp::Deregister(d),
        RegistryCall::Event(id, _) => RegistryOp::Record(id),
        RegistryCall::Beat(id, _) => RegistryOp::Record(id),
        RegistryCall::Lag(id, _) => RegistryOp::Record(id),
    }
}

/// The subscriber a call is about (a registration is about the id it hands
/// out).
pub open spec fn call_target(st: (Seq<StreamStats>, int), c: RegistryCall) -> u64 {
    match c {
        RegistryCall::Register { .. } => st.1 as u64,
        RegistryCall::Deregister(d) => d,
        RegistryCall::Event(id, _) => id,
        RegistryCall::Beat(id, _) => id,
        RegistryCall::Lag(id, _) => id,
    }
}

proof fn lemma_call_ids(st: (Seq<StreamStats>, int), c: RegistryCall)
    ensures
        live_ids(call_step(st, c).0) == ids_step((live_ids(st.0), st.1), call_op(c)).0,
        call_step(st, c).1 == ids_step((live_ids(st.0), st.1), call_op(c)).1,
{
    match c {
        RegistryCall::Register { .. } => {
            let n = call_step(st, c).0;
            assert(n.last().id == st.1 as u64);
            assert(live_ids(n) =~= live_ids(st.0).push(st.1 as u64)) by {
                assert forall|i: int| 0 <= i < n.len() implies #[trigger] live_ids(n)[i] == live_ids(st.0).push(st.1 as u64)[i] by {
                    if i < st.0.len() {
                        assert(n[i] == st.0[i]);
                    }
                }
            }
            assert(call_op(c) == RegistryOp::Register);
            let pre = (live_ids(st.0), st.1);
            assert(ids_step(pre, RegistryOp::Register).0 == pre.0.push(pre.1 as u64));
            assert(live_ids(call_step(st, c).0) == ids_step(pre, call_op(c)).0);
        },
        RegistryCall::Deregister(d) => {
            lemma_ids_filter(st.0, d);
            assert(live_ids(call_step(st, c).0) == without(live_ids(st.0), d));
        },
        _ => {
            let n = call_step(st, c).0;
            assert(n.len() == st.0.len());
            assert forall|i: int| 0 <= i < n.len() implies #[trigger] live_ids(n)[i] == live_ids(st.0)[i] by {
                assert(n[i].id == st.0[i].id);
            }
            assert(live_ids(n) =~= live_ids(st.0));
        },
    }
}

/// Any call leaves every other subscriber as it was: each entry whose id
/// is not the call's target is unchanged, and no subscriber but the target
/// appears or disappears.
pub proof fn lemma_call_leaves_others(st: (Seq<StreamStats>, int), c: RegistryCall, x: StreamStats)
    requires
        x.id != call_target(st, c),
    ensures
        call_step(st, c).0.contains(x) <==> st.0.contains(x),
{
    let n = call_step(st, c).0;
    match c {
        RegistryCall::Register { .. } => {
            if n.contains(x) {
                let k = choose|k: int| 0 <= k < n.len() && n[k] == x;
                if k < st.0.len() {
                    assert(st.0[k] == x);
                }
            }
            if st.0.contains(x) {
                let k = choose|k: int| 0 <= k < st.0.len() && st.0[k] == x;
                assert(n[k] == x);
            }
        },
        RegistryCall::Deregister(d) => {
            let p = |s: StreamStats| s.id != d;
            if n.contains(x) {
                st.0.lemma_filter_contains_rev(p, x);
            }
            if st.0.contains(x) {
                let k = choose|k: int| 0 <= k < st.0.len() && st.0[k] == x;
                st.0.lemma_filter_contains(p, k);
            }
        },
        _ => {
            if n.contains(x) {
                let k = choose|k: int| 0 <= k < n.len() && n[k] == x;
                assert(st.0[k].id == n[k].id);
                assert(st.0[k] == x);
            }
            if st.0.contains(x) {
                let k = choose|k: int| 0 <= k < st.0.len() && st.0[k] == x;
                assert(n[k] == x);
            }
        },
    }
}

/// The registry over any run of registrations, writes and hang-ups from
/// empty: its subscribers are listed oldest first (strictly ascending ids)
/// and are exactly those registered and not hung up since, each with the
/// counters the run gave it; the next id has moved on by one per
/// registration.
pub proof fn lemma_registry_calls(calls: Seq<RegistryCall>, next0: int)
    requires
        0 <= next0,
        next0 + registrations(run_ops(calls)) <= u64::MAX,
    ensures
        call_run(calls, next0).1 == next0 + registrations(run_ops(calls)),
        forall|i: int, j: int| 0 <= i < j < call_run(calls, next0).0.len() ==> (#[trigger] call_run(calls, next0).0[i]).id < (#[trigger] call_run(calls, next0).0[j]).id,
        forall|x: u64| #[trigger] live_ids(call_run(calls, next0).0).contains(x) <==> live_after(run_ops(calls), next0, x),
{
    lemma_call_run_ids(calls, next0);
    let ops = run_ops(calls);
    lemma_registry_run(ops, next0);
    let live = call_run(calls, next0).0;
    let ids = ids_run(ops, next0).0;
    assert forall|i: int, j: int| 0 <= i < j < live.len() implies (#[trigger] live[i]).id < (#[trigger] live[j]).id by {
        assert(live[i].id == ids[i]);
        assert(live[j].id == ids[j]);
    }
}

proof fn lemma_call_run_ids(calls: Seq<RegistryCall>, next0: int)
    ensures
        live_ids(call_run(calls, next0).0) == ids_run(run_ops(calls), next0).0,
        call_run(calls, next0).1 == ids_run(run_ops(calls), next0).1,
    decreases calls.len(),
{
    let ops = run_ops(calls);
    if calls.len() == 0 {
        assert(live_ids(call_run(calls, next0).0) =~= Seq::<u64>::empty());
    } else {
        let r = calls.drop_last();
        lemma_call_run_ids(r, next0);
        assert(ops.drop_last() =~= run_ops(r));
        assert(ops.last() == call_op(calls.last()));
        lemma_call_ids(call_run(r, next0), calls.last());
    }
}

} // verus!
