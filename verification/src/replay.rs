//! A deterministic replay queue: events come out in order of time, then
//! priority, then the source log's local sequence, whatever order they were
//! scheduled in; the replay clock never moves backwards; events behind the
//! clock and reused keys are refused.

use std::cmp::Ordering;

use vstd::prelude::*;
use vstd::std_specs::cmp::{PartialEqSpecImpl, PartialOrdSpecImpl};

use crate::render::{decimal, push_decimal, push_text};

verus! {

/// The replay's virtual clock.
#[derive(Debug, Clone, Copy, PartialEq, Eq, Structural)]
pub struct ReplayClock {
    now_ns: u64,
}

impl ReplayClock {
    /// A clock at time zero.
    pub fn new() -> (c: Self)
        ensures
            c.now_spec() == 0,
    {
        ReplayClock { now_ns: 0 }
    }

    /// The current time in nanoseconds.
    pub closed spec fn now_spec(self) -> u64 {
        self.now_ns
    }

    /// The current time in nanoseconds.
    pub fn now_ns(self) -> (t: u64)
        ensures
            t == self.now_spec(),
    {
        self.now_ns
    }
}

impl Default for ReplayClock {
    /// A clock at time zero.
    fn default() -> (c: Self)
        ensures
            c.now_spec() == 0,
    {
        Self::new()
    }
}

/// One scheduled event.
#[derive(Debug, Clone)]
pub struct ScheduledEvent<T> {
    pub at_ns: u64,
    pub priority: u8,
    /// Stable sequence assigned by the source event log, not by insertion order.
    pub local_sequence: u64,
    pub payload: T,
}

/// The replay order key of an event: time, priority, local sequence.
pub open spec fn event_key<T>(e: ScheduledEvent<T>) -> (u64, u8, u64) {
    (e.at_ns, e.priority, e.local_sequence)
}

/// Lexicographic order on replay keys.
pub open spec fn key_less(a: (u64, u8, u64), b: (u64, u8, u64)) -> bool {
    a.0 < b.0 || (a.0 == b.0 && (a.1 < b.1 || (a.1 == b.1 && a.2 < b.2)))
}

/// Three-way comparison of replay keys.
pub open spec fn key_ordering(a: (u64, u8, u64), b: (u64, u8, u64)) -> Ordering {
    if key_less(a, b) {
        Ordering::Less
    } else if a == b {
        Ordering::Equal
    } else {
        Ordering::Greater
    }
}

/// Events are equal when their replay keys are; the payload is not compared.
impl<T> PartialEq for ScheduledEvent<T> {
    fn eq(&self, other: &Self) -> (r: bool) {
        self.at_ns == other.at_ns && self.priority == other.priority && self.local_sequence == other.local_sequence
    }
}

impl<T> PartialEqSpecImpl for ScheduledEvent<T> {
    open spec fn obeys_eq_spec() -> bool {
        true
    }

    open spec fn eq_spec(&self, other: &Self) -> bool {
        event_key(*self) == event_key(*other)
    }
}

impl<T> Eq for ScheduledEvent<T> {

}

/// Events are ordered by their replay keys.
impl<T> PartialOrd for ScheduledEvent<T> {
    fn partial_cmp(&self, other: &Self) -> (r: Option<Ordering>) {
        if self.at_ns < other.at_ns || (self.at_ns == other.at_ns && (self.priority < other.priority || (
        self.priority == other.priority && self.local_sequence < other.local_sequence))) {
            Some(Ordering::Less)
        } else if self.at_ns == other.at_ns && self.priority == other.priority && self.local_sequence
            == other.local_sequence {
            Some(Ordering::Equal)
        } else {
            Some(Ordering::Greater)
        }
    }
}

impl<T> PartialOrdSpecImpl for ScheduledEvent<T> {
    open spec fn obeys_partial_cmp_spec() -> bool {
        true
    }

    open spec fn partial_cmp_spec(&self, other: &Self) -> Option<Ordering> {
        Some(key_ordering(event_key(*self), event_key(*other)))
    }
}

/// Why an event could not be scheduled.
#[derive(Debug, Clone, Copy, PartialEq, Eq, Structural)]
pub enum ReplayError {
    EventInPast { at_ns: u64, now_ns: u64 },
    DuplicateKey { at_ns: u64, priority: u8, local_sequence: u64 },
}

impl ReplayError {
    /// The human-readable message for this error.
    pub fn message(&self) -> (s: String)
        ensures
            s@ == match self {
                ReplayError::EventInPast { at_ns, now_ns } => "cannot schedule event at "@ + decimal(*at_ns as nat)
                    + " behind replay clock "@ + decimal(*now_ns as nat),
                ReplayError::DuplicateKey { at_ns, priority, local_sequence } => "duplicate replay key: time="@
                    + decimal(*at_ns as nat) + ", priority="@ + decimal(*priority as nat) + ", local_sequence="@
                    + decimal(*local_sequence as nat),
            },
    {
        match self {
            ReplayError::EventInPast { at_ns, now_ns } => {
                let mut s = "cannot schedule event at ".to_owned();
                push_decimal(&mut s, *at_ns as u128);
                push_text(&mut s, " behind replay clock ");
                push_decimal(&mut s, *now_ns as u128);
                s
            },
            ReplayError::DuplicateKey { at_ns, priority, local_sequence } => {
                let mut s = "duplicate replay key: time=".to_owned();
                push_decimal(&mut s, *at_ns as u128);
                push_text(&mut s, ", priority=");
                push_decimal(&mut s, *priority as u128);
                push_text(&mut s, ", local_sequence=");
                push_decimal(&mut s, *local_sequence as u128);
                s
            },
        }
    }
}

/// The mathematical content of a replay: the clock, the pending events with
/// the next one last, and every key ever scheduled.
pub struct ReplayView<T> {
    pub now: u64,
    pub pending: Seq<ScheduledEvent<T>>,
    pub seen: Set<(u64, u8, u64)>,
}

/// Pending events are held in strictly descending key order.
pub open spec fn descending<T>(pending: Seq<ScheduledEvent<T>>) -> bool {
    forall|i: int, j: int| 0 <= i < j < pending.len() ==> key_less(event_key(pending[j]), event_key(pending[i]))
}

/// What every replay keeps: pending events in descending key order, none
/// behind the clock, and each one's key recorded as seen.
pub open spec fn replay_inv<T>(v: ReplayView<T>) -> bool {
    &&& descending(v.pending)
    &&& forall|i: int| 0 <= i < v.pending.len() ==> (#[trigger] v.pending[i]).at_ns >= v.now
    &&& forall|i: int| 0 <= i < v.pending.len() ==> v.seen.contains(event_key(#[trigger] v.pending[i]))
}

/// The number of leading pending events whose keys are greater than `key`:
/// where an event with that key goes.
pub open spec fn descending_index<T>(pending: Seq<ScheduledEvent<T>>, key: (u64, u8, u64)) -> int
    decreases pending.len(),
{
    if pending.len() == 0 {
        0
    } else if key_less(key, event_key(pending[0])) {
        1 + descending_index(pending.drop_first(), key)
    } else {
        0
    }
}

/// Two replays that hold the same pending events hold them in the same order:
/// the order in which events come out does not depend on the order in which
/// they were scheduled.
pub proof fn law_order_independent_of_scheduling<T>(a: ReplayView<T>, b: ReplayView<T>)
    requires
        replay_inv(a),
        replay_inv(b),
        forall|e: ScheduledEvent<T>| a.pending.contains(e) <==> b.pending.contains(e),
    ensures
        a.pending == b.pending,
{
    lemma_descending_same_elements(a.pending, b.pending);
}

/// The next pending event is the earliest one in key order, and it does not
/// lie behind the clock: taking it never moves the clock backwards.
pub proof fn law_next_is_earliest<T>(v: ReplayView<T>)
    requires
        replay_inv(v),
        v.pending.len() > 0,
    ensures
        v.pending.last().at_ns >= v.now,
        forall|i: int| 0 <= i < v.pending.len() - 1 ==> key_less(event_key(v.pending.last()), event_key(#[trigger] v.pending[i])),
{
}

proof fn lemma_key_less_asymmetric(a: (u64, u8, u64), b: (u64, u8, u64))
    ensures
        !(key_less(a, b) && key_less(b, a)),
        !key_less(a, a),
{
}

proof fn lemma_descending_same_elements<T>(p: Seq<ScheduledEvent<T>>, q: Seq<ScheduledEvent<T>>)
    requires
        descending(p),
        descending(q),
        forall|e: ScheduledEvent<T>| p.contains(e) <==> q.contains(e),
    ensures
        p == q,
    decreases p.len(),
{
    if p.len() == 0 {
        if q.len() > 0 {
            assert(q.contains(q[0]));
        }
        assert(p =~= q);
    } else if q.len() == 0 {
        assert(p.contains(p[0]));
    } else {
        let lp = p.last();
        let lq = q.last();
        assert(p.contains(lp));
        assert(q.contains(lq));
        let k = choose|k: int| 0 <= k < q.len() && q[k] == lp;
        let m = choose|m: int| 0 <= m < p.len() && p[m] == lq;
        lemma_key_less_asymmetric(event_key(lp), event_key(lq));
        if k < q.len() - 1 {
            assert(key_less(event_key(lq), event_key(lp)));
            if m < p.len() - 1 {
                assert(key_less(event_key(lp), event_key(lq)));
            }
            assert(false);
        }
        assert(lp == lq);
        let pp = p.drop_last();
        let qq = q.drop_last();
        assert forall|e: ScheduledEvent<T>| pp.contains(e) <==> qq.contains(e) by {
            if pp.contains(e) {
                let i = choose|i: int| 0 <= i < pp.len() && pp[i] == e;
                assert(p[i] == e);
                assert(key_less(event_key(lp), event_key(e)));
                assert(q.contains(e));
                let j = choose|j: int| 0 <= j < q.len() && q[j] == e;
                if j == q.len() - 1 {
                    lemma_key_less_asymmetric(event_key(e), event_key(e));
                }
                assert(qq[j] == e);
            }
            if qq.contains(e) {
                let j = choose|j: int| 0 <= j < qq.len() && qq[j] == e;
                assert(q[j] == e);
                assert(key_less(event_key(lq), event_key(e)));
                assert(p.contains(e));
                let i = choose|i: int| 0 <= i < p.len() && p[i] == e;
                if i == p.len() - 1 {
                    lemma_key_less_asymmetric(event_key(e), event_key(e));
                }
                assert(pp[i] == e);
            }
        }
        lemma_descending_same_elements(pp, qq);
        assert(p =~= pp.push(lp));
        assert(q =~= qq.push(lq));
    }
}

/// A replay with nothing scheduled, at time zero.
pub open spec fn empty_replay<T>() -> ReplayView<T> {
    ReplayView { now: 0, pending: Seq::empty(), seen: Set::empty() }
}

/// What scheduling an event does: an event behind the clock or with a key
/// already scheduled leaves the replay as it is; any other event joins the
/// pending events in key order and its key is recorded.
pub open spec fn schedule_effect<T>(v: ReplayView<T>, e: ScheduledEvent<T>) -> ReplayView<T> {
    if e.at_ns < v.now || v.seen.contains(event_key(e)) {
        v
    } else {
        ReplayView {
            now: v.now,
            pending: v.pending.insert(descending_index(v.pending, event_key(e)), e),
            seen: v.seen.insert(event_key(e)),
        }
    }
}

/// The replay after scheduling events one after another.
pub open spec fn schedule_all<T>(v: ReplayView<T>, events: Seq<ScheduledEvent<T>>) -> ReplayView<T>
    decreases events.len(),
{
    if events.len() == 0 {
        v
    } else {
        schedule_effect(schedule_all(v, events.drop_last()), events.last())
    }
}

/// The order in which `next_event` hands out the pending events: the next
/// one first.
pub open spec fn drain_order<T>(v: ReplayView<T>) -> Seq<ScheduledEvent<T>> {
    v.pending.reverse()
}

/// The descending index lies within the pending events, after exactly the
/// events with greater keys.
proof fn lemma_descending_index_bounds<T>(pending: Seq<ScheduledEvent<T>>, key: (u64, u8, u64))
    ensures
        0 <= descending_index(pending, key) <= pending.len(),
        forall|j: int| 0 <= j < descending_index(pending, key) ==> key_less(key, event_key(#[trigger] pending[j])),
        descending_index(pending, key) < pending.len() ==> !key_less(
            key,
            event_key(pending[descending_index(pending, key)]),
        ),
    decreases pending.len(),
{
    if pending.len() > 0 && key_less(key, event_key(pending[0])) {
        let rest = pending.drop_first();
        lemma_descending_index_bounds(rest, key);
        assert forall|j: int| 0 <= j < descending_index(pending, key) implies key_less(
            key,
            event_key(#[trigger] pending[j]),
        ) by {
            if j > 0 {
                assert(pending[j] == rest[j - 1]);
            }
        }
    }
}

/// Scheduling keeps the replay's invariant.
pub proof fn law_schedule_keeps_invariant<T>(v: ReplayView<T>, e: ScheduledEvent<T>)
    requires
        replay_inv(v),
    ensures
        replay_inv(schedule_effect(v, e)),
{
    if !(e.at_ns < v.now || v.seen.contains(event_key(e))) {
        let key = event_key(e);
        let ev = v.pending;
        let i = descending_index(ev, key);
        lemma_descending_index_bounds(ev, key);
        let nv = schedule_effect(v, e);
        let p = nv.pending;
        assert forall|a: int, b: int| 0 <= a < b < p.len() implies key_less(event_key(p[b]), event_key(p[a])) by {
            if a < i && b > i {
                assert(p[b] == ev[b - 1]);
                if b - 1 > i {
                    assert(key_less(event_key(ev[b - 1]), event_key(ev[i])));
                }
                if i < ev.len() {
                    assert(v.seen.contains(event_key(ev[i])));
                }
            } else if a == i && b > i {
                assert(p[b] == ev[b - 1]);
                assert(v.seen.contains(event_key(ev[b - 1])));
                if b - 1 > i {
                    assert(key_less(event_key(ev[b - 1]), event_key(ev[i])));
                    assert(v.seen.contains(event_key(ev[i])));
                }
            } else if a > i {
                assert(p[a] == ev[a - 1]);
                assert(p[b] == ev[b - 1]);
            } else if b < i {
                assert(p[a] == ev[a]);
                assert(p[b] == ev[b]);
            } else {
                assert(p[a] == ev[a]);
            }
        }
        assert forall|a: int| 0 <= a < p.len() implies (#[trigger] p[a]).at_ns >= nv.now && nv.seen.contains(
            event_key(p[a]),
        ) by {
            if a > i {
                assert(p[a] == ev[a - 1]);
            } else if a < i {
                assert(p[a] == ev[a]);
            }
        }
    }
}

/// `next_event` hands out the first event of the drain order and leaves the
/// rest of it, in the same order.
pub proof fn law_next_event_follows_drain_order<T>(v: ReplayView<T>)
    requires
        v.pending.len() > 0,
    ensures
        drain_order(v)[0] == v.pending.last(),
        drain_order(ReplayView { now: v.pending.last().at_ns, pending: v.pending.drop_last(), seen: v.seen })
            == drain_order(v).drop_first(),
{
    assert(v.pending.drop_last().reverse() =~= v.pending.reverse().drop_first());
}

/// Whole drain: events with distinct keys, scheduled one by one into an
/// empty replay in any order, are all accepted and come out of the replay
/// each exactly once, in strictly ascending order of time, priority and
/// local sequence.
pub proof fn law_whole_drain_in_key_order<T>(events: Seq<ScheduledEvent<T>>)
    requires
        forall|i: int, j: int|
            0 <= i < j < events.len() ==> event_key(#[trigger] events[i]) != event_key(#[trigger] events[j]),
    ensures
        ({
            let d = drain_order(schedule_all(empty_replay::<T>(), events));
            &&& replay_inv(schedule_all(empty_replay::<T>(), events))
            &&& d.len() == events.len()
            &&& forall|i: int, j: int| 0 <= i < j < d.len() ==> key_less(event_key(#[trigger] d[i]), event_key(#[trigger] d[j]))
            &&& forall|i: int, j: int|
                0 <= i < j < d.len() ==> (#[trigger] d[i]).at_ns < (#[trigger] d[j]).at_ns || (d[i].at_ns == d[j].at_ns
                    && (d[i].priority < d[j].priority || (d[i].priority == d[j].priority && d[i].local_sequence
                    < d[j].local_sequence)))
            &&& forall|e: ScheduledEvent<T>| d.contains(e) <==> events.contains(e)
        }),
    decreases events.len(),
{
    lemma_schedule_all_accepts(events);
    let v = schedule_all(empty_replay::<T>(), events);
    let d = drain_order(v);
    let n = v.pending.len();
    assert forall|i: int, j: int| 0 <= i < j < d.len() implies key_less(event_key(#[trigger] d[i]), event_key(#[trigger] d[j])) by {
        assert(d[i] == v.pending[n - 1 - i]);
        assert(d[j] == v.pending[n - 1 - j]);
    }
    assert forall|e: ScheduledEvent<T>| d.contains(e) <==> events.contains(e) by {
        if d.contains(e) {
            let i = choose|i: int| 0 <= i < d.len() && d[i] == e;
            assert(v.pending[n - 1 - i] == e);
        }
        if v.pending.contains(e) {
            let i = choose|i: int| 0 <= i < n && v.pending[i] == e;
            assert(d[n - 1 - i] == e);
        }
    }
}

/// Scheduling events with distinct keys into an empty replay accepts every
/// one of them.
proof fn lemma_schedule_all_accepts<T>(events: Seq<ScheduledEvent<T>>)
    requires
        forall|i: int, j: int|
            0 <= i < j < events.len() ==> event_key(#[trigger] events[i]) != event_key(#[trigger] events[j]),
    ensures
        ({
            let v = schedule_all(empty_replay::<T>(), events);
            &&& replay_inv(v)
            &&& v.now == 0
            &&& v.pending.len() == events.len()
            &&& forall|e: ScheduledEvent<T>| v.pending.contains(e) <==> events.contains(e)
            &&& forall|k: (u64, u8, u64)|
                v.seen.contains(k) <==> exists|i: int| 0 <= i < events.len() && event_key(#[trigger] events[i]) == k
        }),
    decreases events.len(),
{
    if events.len() == 0 {
        assert(replay_inv(empty_replay::<T>()));
    } else {
        let p = events.drop_last();
        assert forall|i: int, j: int| 0 <= i < j < p.len() implies event_key(#[trigger] p[i]) != event_key(
            #[trigger] p[j],
        ) by {
            assert(p[i] == events[i]);
            assert(p[j] == events[j]);
        }
        lemma_schedule_all_accepts(p);
        let w = schedule_all(empty_replay::<T>(), p);
        let e = events.last();
        let k = event_key(e);
        if w.seen.contains(k) {
            let i = choose|i: int| 0 <= i < p.len() && event_key(#[trigger] p[i]) == k;
            assert(p[i] == events[i]);
            assert(event_key(events[i]) != event_key(events[events.len() - 1]));
        }
        law_schedule_keeps_invariant(w, e);
        let v = schedule_all(empty_replay::<T>(), events);
        let idx = descending_index(w.pending, k);
        lemma_descending_index_bounds(w.pending, k);
        assert(v.pending == w.pending.insert(idx, e));
        assert forall|x: ScheduledEvent<T>| v.pending.contains(x) <==> events.contains(x) by {
            if v.pending.contains(x) {
                let j = choose|j: int| 0 <= j < v.pending.len() && v.pending[j] == x;
                if j < idx {
                    assert(w.pending[j] == x);
                    assert(w.pending.contains(x));
                    assert(p.contains(x));
                    let m = choose|m: int| 0 <= m < p.len() && p[m] == x;
                    assert(p[m] == events[m]);
                    assert(events[m] == x);
                } else if j > idx {
                    assert(w.pending[j - 1] == x);
                    assert(w.pending.contains(x));
                    assert(p.contains(x));
                    let m = choose|m: int| 0 <= m < p.len() && p[m] == x;
                    assert(p[m] == events[m]);
                    assert(events[m] == x);
                } else {
                    assert(events[events.len() - 1] == x);
                }
            }
            if events.contains(x) {
                let m = choose|m: int| 0 <= m < events.len() && events[m] == x;
                if m == events.len() - 1 {
                    assert(v.pending[idx] == x);
                } else {
                    assert(p[m] == x);
                    assert(p.contains(x));
                    let j = choose|j: int| 0 <= j < w.pending.len() && w.pending[j] == x;
                    if j < idx {
                        assert(v.pending[j] == x);
                    } else {
                        assert(v.pending[j + 1] == x);
                    }
                }
            }
        }
        assert forall|kk: (u64, u8, u64)| v.seen.contains(kk) <==> exists|i: int|
            0 <= i < events.len() && event_key(#[trigger] events[i]) == kk by {
            if v.seen.contains(kk) && kk != k {
                assert(w.seen.contains(kk));
                let i = choose|i: int| 0 <= i < p.len() && event_key(#[trigger] p[i]) == kk;
                assert(p[i] == events[i]);
            }
            if kk == k {
                assert(event_key(events[events.len() - 1]) == kk);
            }
            if exists|i: int| 0 <= i < events.len() && event_key(#[trigger] events[i]) == kk {
                let i = choose|i: int| 0 <= i < events.len() && event_key(#[trigger] events[i]) == kk;
                if i < events.len() - 1 {
                    assert(p[i] == events[i]);
                    assert(w.seen.contains(kk));
                }
            }
        }
    }
}

/// A deterministic discrete-event queue.
#[derive(Debug)]
pub struct Replay<T> {
    clock: ReplayClock,
    events: Vec<ScheduledEvent<T>>,
    seen_keys: Vec<(u64, u8, u64)>,
}

impl<T> View for Replay<T> {
    type V = ReplayView<T>;

    closed spec fn view(&self) -> ReplayView<T> {
        ReplayView { now: self.clock.now_ns, pending: self.events@, seen: self.seen_keys@.to_set() }
    }
}

impl<T> Default for Replay<T> {
    /// An empty replay at time zero.
    fn default() -> (r: Self)
        ensures
            r.wf(),
            r@.now == 0,
            r@.pending.len() == 0,
            r@.seen == Set::<(u64, u8, u64)>::empty(),
            r@ == empty_replay::<T>(),
    {
        let r = Replay { clock: ReplayClock::new(), events: Vec::new(), seen_keys: Vec::new() };
        proof {
            assert(r.seen_keys@.to_set() =~= Set::<(u64, u8, u64)>::empty());
        }
        r
    }
}

/// Where the descending index lands.
proof fn lemma_descending_index<T>(pending: Seq<ScheduledEvent<T>>, key: (u64, u8, u64), i: int)
    requires
        0 <= i <= pending.len(),
        forall|j: int| 0 <= j < i ==> key_less(key, event_key(#[trigger] pending[j])),
        i < pending.len() ==> !key_less(key, event_key(pending[i])),
    ensures
        descending_index(pending, key) == i,
    decreases pending.len(),
{
    if i > 0 {
        let rest = pending.drop_first();
        assert forall|j: int| 0 <= j < i - 1 implies key_less(key, event_key(#[trigger] rest[j])) by {
            assert(rest[j] == pending[j + 1]);
        }
        lemma_descending_index(rest, key, i - 1);
    }
}

impl<T> Replay<T> {
    /// The replay's invariant holds.
    pub open spec fn wf(&self) -> bool {
        replay_inv(self@)
    }

    /// Whether this key was ever scheduled.
    fn has_seen(&self, key: (u64, u8, u64)) -> (r: bool)
        ensures
            r == self@.seen.contains(key),
    {
        let mut i: usize = 0;
        while i < self.seen_keys.len()
            invariant
                0 <= i <= self.seen_keys.len(),
                forall|j: int| 0 <= j < i ==> self.seen_keys@[j] != key,
            decreases self.seen_keys.len() - i,
        {
            let k = self.seen_keys[i];
            if k.0 == key.0 && k.1 == key.1 && k.2 == key.2 {
                proof {
                    assert(self.seen_keys@.to_set().contains(self.seen_keys@[i as int]));
                }
                return true;
            }
            i = i + 1;
        }
        false
    }

    /// Schedules an event. Refused when it lies behind the replay clock or
    /// its key was already scheduled (even if already replayed).
    pub fn schedule(&mut self, at_ns: u64, priority: u8, local_sequence: u64, payload: T) -> (result: Result<
        (),
        ReplayError,
    >)
        requires
            old(self).wf(),
        ensures
            final(self).wf(),
            at_ns < old(self)@.now ==> result == Err::<(), ReplayError>(
                ReplayError::EventInPast { at_ns, now_ns: old(self)@.now },
            ) && final(self)@ == old(self)@,
            at_ns >= old(self)@.now && old(self)@.seen.contains((at_ns, priority, local_sequence)) ==> result
                == Err::<(), ReplayError>(ReplayError::DuplicateKey { at_ns, priority, local_sequence })
                && final(self)@ == old(self)@,
            at_ns >= old(self)@.now && !old(self)@.seen.contains((at_ns, priority, local_sequence)) ==> result
                is Ok && final(self)@ == (ReplayView {
                now: old(self)@.now,
                pending: old(self)@.pending.insert(
                    descending_index(old(self)@.pending, (at_ns, priority, local_sequence)),
                    (ScheduledEvent { at_ns, priority, local_sequence, payload }),
                ),
                seen: old(self)@.seen.insert((at_ns, priority, local_sequence)),
            }),
            final(self)@ == schedule_effect(old(self)@, ScheduledEvent { at_ns, priority, local_sequence, payload }),
    {
        let now = self.clock.now_ns;
        if at_ns < now {
            return Err(ReplayError::EventInPast { at_ns, now_ns: now });
        }
        let key = (at_ns, priority, local_sequence);
        if self.has_seen(key) {
            return Err(ReplayError::DuplicateKey { at_ns, priority, local_sequence });
        }
        let ghost old_view = self@;
        let ghost old_seen = self.seen_keys@;
        let ghost ev = self.events@;
        let mut i: usize = 0;
        while i < self.events.len()
            invariant
                0 <= i <= self.events.len(),
                ev == self.events@,
                key == (at_ns, priority, local_sequence),
                forall|j: int| 0 <= j < i ==> key_less(key, event_key(#[trigger] ev[j])),
            ensures
                0 <= i <= self.events.len(),
                ev == self.events@,
                forall|j: int| 0 <= j < i ==> key_less(key, event_key(#[trigger] ev[j])),
                i < ev.len() ==> !key_less(key, event_key(ev[i as int])),
            decreases self.events.len() - i,
        {
            let e = &self.events[i];
            let less = at_ns < e.at_ns || (at_ns == e.at_ns && (priority < e.priority || (priority == e.priority
                && local_sequence < e.local_sequence)));
            assert(less == key_less(key, event_key(ev[i as int])));
            if !less {
                break;
            }
            i = i + 1;
        }
        proof {
            lemma_descending_index(ev, key, i as int);
        }
        let event = ScheduledEvent { at_ns, priority, local_sequence, payload };
        self.events.insert(i, event);
        self.seen_keys.push(key);
        proof {
            let nv = self@;
            assert(nv.seen =~= old_view.seen.insert(key)) by {
                assert(self.seen_keys@ == old_seen.push(key));
                old_seen.lemma_push_to_set_commute(key);
            }
            assert(nv == schedule_effect(old_view, ScheduledEvent { at_ns, priority, local_sequence, payload }));
            law_schedule_keeps_invariant(old_view, ScheduledEvent { at_ns, priority, local_sequence, payload });
        }
        Ok(())
    }

    /// Takes the next event in key order and advances the clock to its time.
    pub fn next_event(&mut self) -> (r: Option<ScheduledEvent<T>>)
        requires
            old(self).wf(),
        ensures
            final(self).wf(),
            old(self)@.pending.len() == 0 ==> r is None && final(self)@ == old(self)@,
            old(self)@.pending.len() > 0 ==> r == Some(old(self)@.pending.last()) && final(self)@ == (ReplayView {
                now: old(self)@.pending.last().at_ns,
                pending: old(self)@.pending.drop_last(),
                seen: old(self)@.seen,
            }),
            r matches Some(e) ==> e.at_ns >= old(self)@.now && forall|i: int|
                0 <= i < final(self)@.pending.len() ==> key_less(event_key(e), event_key(#[trigger] final(self)@.pending[i])),
    {
        let ghost old_view = self@;
        match self.events.pop() {
            None => None,
            Some(event) => {
                self.clock = ReplayClock { now_ns: event.at_ns };
                proof {
                    let p = self@.pending;
                    assert(p =~= old_view.pending.drop_last());
                    assert forall|a: int| 0 <= a < p.len() implies (#[trigger] p[a]).at_ns >= event.at_ns by {
                        assert(p[a] == old_view.pending[a]);
                        assert(key_less(event_key(old_view.pending[old_view.pending.len() - 1]), event_key(old_view.pending[a])));
                    }
                    assert forall|a: int| 0 <= a < p.len() implies self@.seen.contains(event_key(#[trigger] p[a])) by {
                        assert(p[a] == old_view.pending[a]);
                    }
                }
                Some(event)
            },
        }
    }

    /// The replay's clock.
    pub fn clock(&self) -> (c: ReplayClock)
        ensures
            c.now_spec() == self@.now,
    {
        self.clock
    }
}

} // verus!
