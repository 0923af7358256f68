//! The deterministic event scheduler -- the simulation's clock and engine.
//!
//! There is no real time and no real concurrency. "Time" is a logical counter
//! (`Tick`), and the whole simulation is a priority queue of events ordered by
//! the tick they fire at. `step()` pops the earliest event; the simulation
//! advances by processing events one at a time. The queue order is fully
//! determined by (tick, sequence), so a given seed replays the exact same run --
//! every message, every fault, every interleaving.
//!
//! Ties (two events at the same tick) break by insertion sequence, so ordering
//! is total and deterministic.
//!
//! The queue is a binary heap in a `Vec`. Its model is the finite map from the
//! id of each pending event to its tick and payload.

use std::cmp::Ordering;
use vstd::prelude::*;

verus! {

/// Logical time. Not milliseconds -- just a monotonic ordering of events.
pub type Tick = u64;

/// An opaque, ordered event id (also the tie-breaker for same-tick events).
pub type EventId = u64;

/// One scheduled event: fire `payload` at `tick`. `seq` makes ordering total.
#[derive(Debug, Clone)]
pub struct Event<E> {
    pub tick: Tick,
    pub seq: EventId,
    pub payload: E,
}

/// Whether an event at tick `t1` with id `s1` fires before one at `t2` with id
/// `s2`: smaller tick first, then smaller id.
pub open spec fn fires_before(t1: Tick, s1: EventId, t2: Tick, s2: EventId) -> bool {
    t1 < t2 || (t1 == t2 && s1 < s2)
}

/// The model of a scheduler: the clock, the next event id, and the pending
/// events by id.
#[verifier::ext_equal]
pub struct SchedState<E> {
    pub now: Tick,
    pub next_seq: EventId,
    pub queue: Map<EventId, (Tick, E)>,
}

/// Whether `id` is the pending event that fires first.
pub open spec fn earliest<E>(queue: Map<EventId, (Tick, E)>, id: EventId) -> bool {
    &&& queue.contains_key(id)
    &&& forall|other: EventId| #[trigger]
        queue.contains_key(other) && other != id ==> fires_before(
            queue[id].0,
            id,
            queue[other].0,
            other,
        )
}

/// The pending event that fires first.
pub open spec fn first_event<E>(queue: Map<EventId, (Tick, E)>) -> EventId {
    choose|id: EventId| earliest(queue, id)
}

impl<E> SchedState<E> {
    /// A scheduler at tick 0 with nothing pending.
    pub open spec fn init() -> Self {
        SchedState { now: 0, next_seq: 0, queue: Map::empty() }
    }

    /// Ids are handed out in order, and nothing is pending in the past.
    pub open spec fn wf(self) -> bool {
        &&& self.queue.dom().finite()
        &&& forall|id: EventId| #[trigger]
            self.queue.contains_key(id) ==> id < self.next_seq && self.queue[id].0 >= self.now
    }

    /// The scheduler after `payload` was scheduled `delay` ticks ahead.
    pub open spec fn scheduled(self, delay: Tick, payload: E) -> Self {
        SchedState {
            now: self.now,
            next_seq: (self.next_seq + 1) as u64,
            queue: self.queue.insert(self.next_seq, ((self.now + delay) as u64, payload)),
        }
    }

    /// Whether the simulation has quiesced.
    pub open spec fn quiet(self) -> bool {
        self.queue.dom() =~= Set::empty()
    }

    /// The scheduler after its first event fired.
    pub open spec fn stepped(self) -> Self {
        let id = first_event(self.queue);
        SchedState {
            now: self.queue[id].0,
            next_seq: self.next_seq,
            queue: self.queue.remove(id),
        }
    }

    /// What the first event carries.
    pub open spec fn first_payload(self) -> E {
        self.queue[first_event(self.queue)].1
    }

    /// The number of events that have fired.
    pub open spec fn fired(self) -> int {
        self.next_seq - self.queue.dom().len()
    }

    /// The clock never runs ahead of `d` ticks per fired event, and no pending
    /// event is more than one such step further.
    pub open spec fn paced(self, d: Tick) -> bool {
        &&& self.fired() >= 0
        &&& self.now <= d * self.fired()
        &&& forall|id: EventId| #[trigger]
            self.queue.contains_key(id) ==> self.queue[id].0 <= d * (self.fired() + 1)
    }

    /// The scheduler with each payload replaced by its image under `f`.
    pub open spec fn map_payloads<F>(self, f: spec_fn(E) -> F) -> SchedState<F> {
        SchedState {
            now: self.now,
            next_seq: self.next_seq,
            queue: self.queue.map_values(|p: (Tick, E)| (p.0, f(p.1))),
        }
    }
}

// Events compare by when they fire. The order is reversed: the event that fires
// first is the greatest, so that it comes off a max-heap first.

impl<E> PartialEq for Event<E> {
    fn eq(&self, other: &Self) -> (r: bool) {
        self.tick == other.tick && self.seq == other.seq
    }
}

impl<E> vstd::std_specs::cmp::PartialEqSpecImpl for Event<E> {
    open spec fn obeys_eq_spec() -> bool {
        true
    }

    open spec fn eq_spec(&self, other: &Self) -> bool {
        self.tick == other.tick && self.seq == other.seq
    }
}

impl<E> Eq for Event<E> {

}

impl<E> PartialOrd for Event<E> {
    fn partial_cmp(&self, other: &Self) -> (r: Option<Ordering>) {
        if self.tick == other.tick && self.seq == other.seq {
            Some(Ordering::Equal)
        } else if self.precedes(other) {
            Some(Ordering::Greater)
        } else {
            Some(Ordering::Less)
        }
    }
}

impl<E> vstd::std_specs::cmp::PartialOrdSpecImpl for Event<E> {
    open spec fn obeys_partial_cmp_spec() -> bool {
        true
    }

    open spec fn partial_cmp_spec(&self, other: &Self) -> Option<Ordering> {
        if self.tick == other.tick && self.seq == other.seq {
            Some(Ordering::Equal)
        } else if fires_before(self.tick, self.seq, other.tick, other.seq) {
            Some(Ordering::Greater)
        } else {
            Some(Ordering::Less)
        }
    }
}

impl<E> Event<E> {
    fn precedes(&self, other: &Self) -> (r: bool)
        ensures
            r == fires_before(self.tick, self.seq, other.tick, other.seq),
    {
        self.tick < other.tick || (self.tick == other.tick && self.seq < other.seq)
    }
}

/// Whether heap slot `a` fires before heap slot `b`.
spec fn slot_before<E>(heap: Seq<Event<E>>, a: int, b: int) -> bool {
    fires_before(heap[a].tick, heap[a].seq, heap[b].tick, heap[b].seq)
}

/// Every slot but `hole` is preceded by its parent.
spec fn heap_except<E>(heap: Seq<Event<E>>, hole: int) -> bool {
    forall|i: int|
        #![trigger heap[i]]
        0 < i < heap.len() && i != hole ==> slot_before(heap, (i - 1) / 2, i)
}

/// Every slot whose parent is not `hole` is preceded by its parent.
spec fn heap_below<E>(heap: Seq<Event<E>>, hole: int) -> bool {
    forall|i: int|
        #![trigger heap[i]]
        0 < i < heap.len() && (i - 1) / 2 != hole ==> slot_before(heap, (i - 1) / 2, i)
}

spec fn is_heap<E>(heap: Seq<Event<E>>) -> bool {
    forall|i: int| #![trigger heap[i]] 0 < i < heap.len() ==> slot_before(heap, (i - 1) / 2, i)
}

spec fn distinct_ids<E>(heap: Seq<Event<E>>) -> bool {
    forall|i: int, j: int|
        #![trigger heap[i], heap[j]]
        0 <= i < heap.len() && 0 <= j < heap.len() && i != j ==> heap[i].seq != heap[j].seq
}

spec fn has_id<E>(heap: Seq<Event<E>>, id: EventId) -> bool {
    exists|i: int| #![trigger heap[i]] 0 <= i < heap.len() && heap[i].seq == id
}

spec fn slot_of<E>(heap: Seq<Event<E>>, id: EventId) -> int {
    choose|i: int| #![trigger heap[i]] 0 <= i < heap.len() && heap[i].seq == id
}

/// The pending events by id.
spec fn contents<E>(heap: Seq<Event<E>>) -> Map<EventId, (Tick, E)> {
    Map::new(
        |id: EventId| has_id(heap, id),
        |id: EventId| (heap[slot_of(heap, id)].tick, heap[slot_of(heap, id)].payload),
    )
}

spec fn swapped<E>(heap: Seq<Event<E>>, a: int, b: int) -> Seq<Event<E>> {
    heap.update(a, heap[b]).update(b, heap[a])
}

proof fn contents_at<E>(heap: Seq<Event<E>>, i: int)
    requires
        distinct_ids(heap),
        0 <= i < heap.len(),
    ensures
        contents(heap).contains_key(heap[i].seq),
        contents(heap)[heap[i].seq] == (heap[i].tick, heap[i].payload),
{
    let id = heap[i].seq;
    assert(has_id(heap, id));
    let j = slot_of(heap, id);
    assert(heap[j].seq == id);
}

/// A rearrangement of the slots leaves the contents alone.
proof fn contents_of_swap<E>(heap: Seq<Event<E>>, a: int, b: int)
    requires
        distinct_ids(heap),
        0 <= a < heap.len(),
        0 <= b < heap.len(),
    ensures
        distinct_ids(swapped(heap, a, b)),
        contents(swapped(heap, a, b)) == contents(heap),
{
    let other = swapped(heap, a, b);
    assert(distinct_ids(other));
    assert forall|id: EventId| has_id(heap, id) == has_id(other, id) by {
        if has_id(heap, id) {
            let i = slot_of(heap, id);
            let k = if i == a { b } else if i == b { a } else { i };
            assert(other[k].seq == id);
        }
        if has_id(other, id) {
            let i = slot_of(other, id);
            let k = if i == a { b } else if i == b { a } else { i };
            assert(heap[k].seq == id);
        }
    }
    assert forall|id: EventId| has_id(heap, id) implies contents(heap)[id] == contents(
        other,
    )[id] by {
        let i = slot_of(heap, id);
        let k = if i == a { b } else if i == b { a } else { i };
        assert(other[k] == heap[i]);
        contents_at(heap, i);
        contents_at(other, k);
    }
    assert(contents(heap) =~= contents(other));
}

proof fn contents_of_push<E>(heap: Seq<Event<E>>, ev: Event<E>)
    requires
        distinct_ids(heap),
        !has_id(heap, ev.seq),
    ensures
        distinct_ids(heap.push(ev)),
        contents(heap.push(ev)) == contents(heap).insert(ev.seq, (ev.tick, ev.payload)),
{
    let other = heap.push(ev);
    assert(distinct_ids(other));
    assert forall|id: EventId| has_id(other, id) == (has_id(heap, id) || id == ev.seq) by {
        if has_id(heap, id) {
            assert(other[slot_of(heap, id)].seq == id);
        }
        if id == ev.seq {
            assert(other[heap.len() as int].seq == id);
        }
        if has_id(other, id) && id != ev.seq {
            assert(heap[slot_of(other, id)].seq == id);
        }
    }
    assert forall|id: EventId| has_id(other, id) implies contents(other)[id] == contents(
        heap,
    ).insert(ev.seq, (ev.tick, ev.payload))[id] by {
        let i = slot_of(other, id);
        contents_at(other, i);
        if id != ev.seq {
            contents_at(heap, i);
        }
    }
    assert(contents(other) =~= contents(heap).insert(ev.seq, (ev.tick, ev.payload)));
}

proof fn contents_of_pop<E>(heap: Seq<Event<E>>)
    requires
        distinct_ids(heap),
        heap.len() > 0,
    ensures
        distinct_ids(heap.drop_last()),
        contents(heap.drop_last()) == contents(heap).remove(heap.last().seq),
{
    let other = heap.drop_last();
    let ev = heap.last();
    assert(distinct_ids(other));
    if has_id(other, ev.seq) {
        assert(heap[slot_of(other, ev.seq)].seq == heap[heap.len() - 1].seq);
    }
    contents_of_push(other, ev);
    assert(other.push(ev) =~= heap);
    assert(contents(other) =~= contents(heap).remove(ev.seq));
}

/// In a heap, no slot precedes the root.
proof fn root_is_first<E>(heap: Seq<Event<E>>, i: int)
    requires
        is_heap(heap),
        0 < i < heap.len(),
    ensures
        slot_before(heap, 0, i),
    decreases i,
{
    let p = (i - 1) / 2;
    assert(slot_before(heap, p, i)) by {
        assert(heap[i] == heap[i]);
    }
    if p > 0 {
        root_is_first(heap, p);
    }
}

/// At most one pending event is the earliest.
pub proof fn earliest_is_unique<E>(queue: Map<EventId, (Tick, E)>, a: EventId, b: EventId)
    requires
        earliest(queue, a),
        earliest(queue, b),
    ensures
        a == b,
{
    if a != b {
        assert(queue.contains_key(a) && queue.contains_key(b));
    }
}

/// As long as something is pending, one event is the earliest.
pub proof fn earliest_exists<E>(queue: Map<EventId, (Tick, E)>)
    requires
        queue.dom().finite(),
        !(queue.dom() =~= Set::empty()),
    ensures
        earliest(queue, first_event(queue)),
    decreases queue.dom().len(),
{
    let a = queue.dom().choose();
    assert(queue.contains_key(a));
    let rest = queue.remove(a);
    assert(rest.dom() =~= queue.dom().remove(a));
    let w = if rest.dom() =~= Set::empty() {
        a
    } else {
        earliest_exists(rest);
        let b = first_event(rest);
        if fires_before(queue[a].0, a, queue[b].0, b) {
            a
        } else {
            b
        }
    };
    assert forall|other: EventId| #[trigger]
        queue.contains_key(other) && other != w implies fires_before(
        queue[w].0,
        w,
        queue[other].0,
        other,
    ) by {
        if rest.dom() =~= Set::empty() {
            assert(rest.dom().contains(other));
        } else if other != a {
            assert(rest.contains_key(other));
        }
    }
    assert(earliest(queue, w));
}

/// Which event fires first does not depend on what the events carry.
pub proof fn step_commutes_with_map<E, F>(s: SchedState<E>, f: spec_fn(E) -> F)
    requires
        s.wf(),
        !s.quiet(),
    ensures
        first_event(s.map_payloads(f).queue) == first_event(s.queue),
        s.stepped().map_payloads(f) == s.map_payloads(f).stepped(),
        s.map_payloads(f).first_payload() == f(s.first_payload()),
{
    let m = s.map_payloads(f);
    earliest_exists(s.queue);
    let id = first_event(s.queue);
    assert(earliest(m.queue, id)) by {
        assert forall|other: EventId| #[trigger]
            m.queue.contains_key(other) && other != id implies fires_before(
            m.queue[id].0,
            id,
            m.queue[other].0,
            other,
        ) by {
            assert(s.queue.contains_key(other));
        }
    }
    earliest_is_unique(m.queue, id, first_event(m.queue));
    assert(s.stepped().map_payloads(f).queue =~= m.stepped().queue);
}

/// Scheduling a payload and then mapping is mapping and then scheduling its image.
pub proof fn schedule_commutes_with_map<E, F>(
    s: SchedState<E>,
    f: spec_fn(E) -> F,
    delay: Tick,
    payload: E,
)
    ensures
        s.scheduled(delay, payload).map_payloads(f) == s.map_payloads(f).scheduled(
            delay,
            f(payload),
        ),
{
    assert(s.scheduled(delay, payload).map_payloads(f).queue =~= s.map_payloads(f).scheduled(
        delay,
        f(payload),
    ).queue);
}

/// A well-formed scheduler stays so when an event is scheduled.
pub proof fn scheduled_is_wf<E>(s: SchedState<E>, delay: Tick, payload: E)
    requires
        s.wf(),
        s.next_seq < u64::MAX,
        s.now + delay <= u64::MAX,
    ensures
        s.scheduled(delay, payload).wf(),
{
}

/// A well-formed scheduler stays so when an event fires, and time does not go
/// backwards.
pub proof fn stepped_is_wf<E>(s: SchedState<E>)
    requires
        s.wf(),
        !s.quiet(),
    ensures
        s.stepped().wf(),
        s.stepped().now >= s.now,
        s.stepped().queue.dom().len() + 1 == s.queue.dom().len(),
{
    earliest_exists(s.queue);
    let id = first_event(s.queue);
    let t = s.stepped();
    assert(t.queue.dom() =~= s.queue.dom().remove(id));
    assert forall|other: EventId| #[trigger] t.queue.contains_key(other) implies other < t.next_seq
        && t.queue[other].0 >= t.now by {
        assert(s.queue.contains_key(other));
    }
}

/// Scheduling with a delay of at most `d` keeps the pace.
pub proof fn scheduled_is_paced<E>(s: SchedState<E>, d: Tick, delay: Tick, payload: E)
    requires
        s.wf(),
        s.paced(d),
        delay <= d,
        s.next_seq < u64::MAX,
        s.now + delay <= u64::MAX,
    ensures
        s.scheduled(delay, payload).paced(d),
        s.scheduled(delay, payload).fired() == s.fired(),
{
    let t = s.scheduled(delay, payload);
    assert(!s.queue.contains_key(s.next_seq));
    assert(t.queue.dom() =~= s.queue.dom().insert(s.next_seq));
    let f = s.fired();
    assert(d * (f + 1) == d * f + d) by (nonlinear_arith);
}

/// Firing an event keeps the pace.
pub proof fn stepped_is_paced<E>(s: SchedState<E>, d: Tick)
    requires
        s.wf(),
        s.paced(d),
        !s.quiet(),
    ensures
        s.stepped().paced(d),
        s.stepped().fired() == s.fired() + 1,
{
    stepped_is_wf(s);
    earliest_exists(s.queue);
    let f = s.fired();
    let t = s.stepped();
    assert forall|id: EventId| #[trigger] t.queue.contains_key(id) implies t.queue[id].0 <= d * (
    t.fired() + 1) by {
        assert(s.queue.contains_key(id));
        assert(d * (f + 1) <= d * (f + 2)) by (nonlinear_arith)
            requires
                d >= 0,
        ;
    }
}

/// A paced clock that has fired at most `cap` events has room for `d` more ticks.
pub proof fn paced_has_room<E>(s: SchedState<E>, d: Tick, cap: nat)
    requires
        s.paced(d),
        s.fired() <= cap,
        d * (cap + 1) <= u64::MAX,
    ensures
        s.now + d <= u64::MAX,
{
    let f = s.fired();
    assert(d * f + d <= d * (cap + 1)) by (nonlinear_arith)
        requires
            d >= 0,
            f <= cap,
    ;
}

/// Events fire in time order, ties in insertion order: of two events that fire
/// one after the other, the first is at an earlier tick, or at the same tick and
/// was scheduled earlier.
pub proof fn events_fire_in_order<E>(s: SchedState<E>)
    requires
        s.wf(),
        !s.quiet(),
        !s.stepped().quiet(),
    ensures
        ({
            let a = first_event(s.queue);
            let b = first_event(s.stepped().queue);
            fires_before(s.queue[a].0, a, s.queue[b].0, b)
        }),
{
    stepped_is_wf(s);
    earliest_exists(s.queue);
    earliest_exists(s.stepped().queue);
    let b = first_event(s.stepped().queue);
    assert(s.queue.contains_key(b));
}

/// An event that is scheduled with no delay fires at the current tick, but
/// strictly after every event that is already pending at this tick.
pub proof fn zero_delay_fires_last_at_now<E>(s: SchedState<E>, payload: E, id: EventId)
    requires
        s.wf(),
        s.next_seq < u64::MAX,
        s.queue.contains_key(id),
        s.queue[id].0 == s.now,
    ensures
        s.scheduled(0, payload).queue[s.next_seq].0 == s.now,
        s.scheduled(0, payload).queue.contains_key(id),
        fires_before(s.queue[id].0, id, s.now, s.next_seq),
{
}

/// The event queue and the logical clock.
pub struct Scheduler<E> {
    now: Tick,
    next_seq: EventId,
    heap: Vec<Event<E>>,
}

impl<E> View for Scheduler<E> {
    type V = SchedState<E>;

    closed spec fn view(&self) -> SchedState<E> {
        SchedState { now: self.now, next_seq: self.next_seq, queue: contents(self.heap@) }
    }
}

impl<E> Scheduler<E> {
    /// The queue is a heap of events with distinct ids, none of them in the past.
    pub closed spec fn wf(&self) -> bool {
        &&& is_heap(self.heap@)
        &&& distinct_ids(self.heap@)
        &&& forall|i: int|
            #![trigger self.heap@[i]]
            0 <= i < self.heap@.len() ==> self.heap@[i].seq < self.next_seq && self.heap@[i].tick
                >= self.now
    }

    pub fn new() -> (s: Self)
        ensures
            s.wf(),
            s@ == SchedState::<E>::init(),
    {
        let s = Scheduler { now: 0, next_seq: 0, heap: Vec::new() };
        assert(s@.queue =~= Map::<EventId, (Tick, E)>::empty());
        s
    }

    /// Current logical time (the tick of the last event processed).
    pub fn now(&self) -> (t: Tick)
        ensures
            t == self@.now,
    {
        self.now
    }

    /// Exchange two slots of the heap.
    fn swap_slots(heap: &mut Vec<Event<E>>, a: usize, b: usize)
        requires
            a < b < old(heap)@.len(),
        ensures
            final(heap)@ == swapped(old(heap)@, a as int, b as int),
    {
        let ghost before = heap@;
        let (left, right) = heap.as_mut_slice().split_at_mut(b);
        std::mem::swap(&mut left[a], &mut right[0]);
        assert(heap@ =~= swapped(before, a as int, b as int));
    }

    fn sift_up(heap: &mut Vec<Event<E>>, start: usize)
        requires
            start + 1 == old(heap)@.len(),
            distinct_ids(old(heap)@),
            heap_except(old(heap)@, start as int),
        ensures
            final(heap)@.len() == old(heap)@.len(),
            is_heap(final(heap)@),
            distinct_ids(final(heap)@),
            contents(final(heap)@) == contents(old(heap)@),
    {
        let mut i: usize = start;
        while i > 0
            invariant
                i < heap@.len(),
                heap@.len() == old(heap)@.len(),
                distinct_ids(heap@),
                contents(heap@) == contents(old(heap)@),
                heap_except(heap@, i as int),
                i > 0 ==> forall|k: int|
                    #![trigger heap@[k]]
                    0 < k < heap@.len() && (k - 1) / 2 == i ==> slot_before(
                        heap@,
                        (i - 1) / 2,
                        k,
                    ),
            decreases i,
        {
            let p = (i - 1) / 2;
            if !heap[i].precedes(&heap[p]) {
                assert(heap@[i as int].seq != heap@[p as int].seq);
                assert(is_heap(heap@));
                return ;
            }
            let ghost before = heap@;
            Self::swap_slots(heap, p, i);
            proof {
                contents_of_swap(before, p as int, i as int);
                assert forall|k: int|
                    #![trigger heap@[k]]
                    0 < k < heap@.len() && k != p implies slot_before(heap@, (k - 1) / 2, k) by {
                    assert(before[k] == before[k]);
                    assert(before[(k - 1) / 2] == before[(k - 1) / 2]);
                    if k != i && (k - 1) / 2 == p {
                        assert(slot_before(before, p as int, k));
                    }
                }
                assert forall|k: int|
                    #![trigger heap@[k]]
                    p > 0 && 0 < k < heap@.len() && (k - 1) / 2 == p implies slot_before(
                    heap@,
                    (p - 1) / 2,
                    k,
                ) by {
                    assert(before[p as int] == before[p as int]);
                    assert(before[k] == before[k]);
                    assert(slot_before(before, (p - 1) / 2, p as int));
                    if k != i {
                        assert(slot_before(before, p as int, k));
                    }
                }
            }
            i = p;
        }
        assert(is_heap(heap@));
    }

    fn sift_down(heap: &mut Vec<Event<E>>)
        requires
            distinct_ids(old(heap)@),
            heap_below(old(heap)@, 0),
        ensures
            final(heap)@.len() == old(heap)@.len(),
            is_heap(final(heap)@),
            distinct_ids(final(heap)@),
            contents(final(heap)@) == contents(old(heap)@),
    {
        let n = heap.len();
        let mut i: usize = 0;
        while i < n / 2
            invariant
                n == heap@.len(),
                heap@.len() == old(heap)@.len(),
                distinct_ids(heap@),
                contents(heap@) == contents(old(heap)@),
                heap_below(heap@, i as int),
                i > 0 ==> forall|k: int|
                    #![trigger heap@[k]]
                    0 < k < heap@.len() && (k - 1) / 2 == i ==> slot_before(
                        heap@,
                        (i - 1) / 2,
                        k,
                    ),
            decreases n - i,
        {
            let l = 2 * i + 1;
            let r = 2 * i + 2;
            let c = if r < n && heap[r].precedes(&heap[l]) {
                r
            } else {
                l
            };
            assert(heap@[i as int].seq != heap@[c as int].seq);
            assert forall|k: int|
                #![trigger heap@[k]]
                0 < k < heap@.len() && (k - 1) / 2 == i && k != c implies slot_before(
                heap@,
                c as int,
                k,
            ) by {
                assert(k == l || k == r);
                assert(heap@[l as int].seq != heap@[k].seq || k == l);
                assert(r < n ==> heap@[r as int].seq != heap@[l as int].seq);
            }
            if !heap[c].precedes(&heap[i]) {
                assert(is_heap(heap@)) by {
                    assert forall|k: int|
                        #![trigger heap@[k]]
                        0 < k < heap@.len() implies slot_before(heap@, (k - 1) / 2, k) by {}
                }
                return ;
            }
            let ghost before = heap@;
            Self::swap_slots(heap, i, c);
            proof {
                contents_of_swap(before, i as int, c as int);
                assert forall|k: int|
                    #![trigger heap@[k]]
                    0 < k < heap@.len() && (k - 1) / 2 != c implies slot_before(
                    heap@,
                    (k - 1) / 2,
                    k,
                ) by {
                    assert(before[k] == before[k]);
                    assert(before[(k - 1) / 2] == before[(k - 1) / 2]);
                    if k == i {
                        assert(before[c as int] == before[c as int]);
                        assert(slot_before(before, (i - 1) / 2, c as int));
                    }
                }
                assert forall|k: int|
                    #![trigger heap@[k]]
                    0 < k < heap@.len() && (k - 1) / 2 == c implies slot_before(
                    heap@,
                    (c - 1) / 2,
                    k,
                ) by {
                    assert(before[k] == before[k]);
                    assert(slot_before(before, c as int, k));
                }
            }
            i = c;
        }
        assert(is_heap(heap@)) by {
            assert forall|k: int|
                #![trigger heap@[k]]
                0 < k < heap@.len() implies slot_before(heap@, (k - 1) / 2, k) by {}
        }
    }

    /// Schedule `payload` to fire `delay` ticks from now. Returns its event id.
    /// A delay of 0 fires at the current tick, but strictly after already-queued
    /// events at this tick (via the monotonic sequence number).
    pub fn schedule(&mut self, delay: Tick, payload: E) -> (id: EventId)
        requires
            old(self).wf(),
            old(self)@.next_seq < u64::MAX,
            old(self)@.now + delay <= u64::MAX,
        ensures
            final(self).wf(),
            final(self)@ == old(self)@.scheduled(delay, payload),
            id == old(self)@.next_seq,
    {
        let seq = self.next_seq;
        self.next_seq = self.next_seq + 1;
        let ev = Event { tick: self.now + delay, seq, payload };
        let ghost heap0 = self.heap@;
        let ghost event = ev;
        self.heap.push(ev);
        proof {
            assert(!has_id(heap0, seq)) by {
                if has_id(heap0, seq) {
                    assert(heap0[slot_of(heap0, seq)].seq < seq);
                }
            }
            contents_of_push(heap0, event);
            let last = heap0.len() as int;
            assert forall|i: int| #![trigger self.heap@[i]] 0 < i < self.heap@.len() && i
                != last implies slot_before(self.heap@, (i - 1) / 2, i) by {
                assert(heap0[i] == self.heap@[i]);
            }
        }
        let at = self.heap.len() - 1;
        Self::sift_up(&mut self.heap, at);
        proof {
            let h = self.heap@;
            assert forall|i: int| #![trigger h[i]] 0 <= i < h.len() implies h[i].seq < self.next_seq
                && h[i].tick >= self.now by {
                contents_at(h, i);
                assert(contents(h).contains_key(h[i].seq));
                if h[i].seq != seq {
                    assert(contents(heap0).contains_key(h[i].seq));
                    let j = slot_of(heap0, h[i].seq);
                    contents_at(heap0, j);
                }
            }
        }
        seq
    }

    /// Pop and return the next event (advancing logical time to its tick), or
    /// `None` if the simulation has quiesced (no more events).
    pub fn step(&mut self) -> (r: Option<Event<E>>)
        requires
            old(self).wf(),
        ensures
            final(self).wf(),
            r is None <==> old(self)@.quiet(),
            r is None ==> final(self)@ == old(self)@,
            r matches Some(ev) ==> {
                &&& earliest(old(self)@.queue, ev.seq)
                &&& ev.seq == first_event(old(self)@.queue)
                &&& old(self)@.queue[ev.seq] == (ev.tick, ev.payload)
                &&& ev.payload == old(self)@.first_payload()
                &&& final(self)@ == old(self)@.stepped()
            },
    {
        let ghost h0 = self.heap@;
        let n = self.heap.len();
        if n == 0 {
            assert(self@.quiet());
            return None;
        }
        proof {
            contents_at(h0, 0);
            assert(self@.queue.dom().contains(h0[0].seq));
            assert forall|other: EventId| #[trigger]
                contents(h0).contains_key(other) && other != h0[0].seq implies fires_before(
                contents(h0)[h0[0].seq].0,
                h0[0].seq,
                contents(h0)[other].0,
                other,
            ) by {
                let j = slot_of(h0, other);
                contents_at(h0, j);
                root_is_first(h0, j);
            }
            assert(earliest(contents(h0), h0[0].seq));
            earliest_is_unique(contents(h0), h0[0].seq, first_event(contents(h0)));
        }
        if n > 1 {
            Self::swap_slots(&mut self.heap, 0, n - 1);
            proof {
                contents_of_swap(h0, 0, n - 1);
            }
        }
        let ghost h1 = self.heap@;
        proof {
            contents_of_pop(h1);
        }
        let popped = self.heap.pop();
        match popped {
            None => None,
            Some(ev) => {
                proof {
                    let h2 = self.heap@;
                    assert forall|i: int| #![trigger h2[i]] 0 < i < h2.len() && (i - 1) / 2
                        != 0 implies slot_before(h2, (i - 1) / 2, i) by {
                        assert(h0[i] == h2[i]);
                        assert(h0[(i - 1) / 2] == h2[(i - 1) / 2]);
                    }
                }
                Self::sift_down(&mut self.heap);
                self.now = ev.tick;
                proof {
                    let h = self.heap@;
                    assert forall|i: int| #![trigger h[i]] 0 <= i < h.len() implies h[i].seq
                        < self.next_seq && h[i].tick >= self.now by {
                        contents_at(h, i);
                        let other = h[i].seq;
                        assert(contents(h).contains_key(other));
                        assert(contents(h0).contains_key(other));
                        let j = slot_of(h0, other);
                        contents_at(h0, j);
                    }
                }
                Some(ev)
            },
        }
    }

    pub fn is_empty(&self) -> (r: bool)
        ensures
            r == self@.quiet(),
    {
        proof {
            if self.heap@.len() > 0 {
                assert(has_id(self.heap@, self.heap@[0].seq));
                assert(self@.queue.dom().contains(self.heap@[0].seq));
            }
        }
        self.heap.len() == 0
    }

    pub fn pending(&self) -> (n: usize)
        requires
            self.wf(),
        ensures
            n == self@.queue.dom().len(),
    {
        proof {
            pending_count(self.heap@);
        }
        self.heap.len()
    }

    /// The model of a well-formed scheduler is well-formed.
    pub proof fn view_is_wf(&self)
        requires
            self.wf(),
        ensures
            self@.wf(),
    {
        pending_count(self.heap@);
        assert forall|id: EventId| #[trigger] self@.queue.contains_key(id) implies id
            < self@.next_seq && self@.queue[id].0 >= self@.now by {
            contents_at(self.heap@, slot_of(self.heap@, id));
        }
    }
}

proof fn pending_count<E>(heap: Seq<Event<E>>)
    requires
        distinct_ids(heap),
    ensures
        contents(heap).dom().finite(),
        contents(heap).dom().len() == heap.len(),
    decreases heap.len(),
{
    if heap.len() == 0 {
        assert(contents(heap).dom() =~= Set::empty());
    } else {
        contents_of_pop(heap);
        pending_count(heap.drop_last());
        contents_at(heap, heap.len() - 1);
        assert(contents(heap.drop_last()).dom() =~= contents(heap).dom().remove(heap.last().seq));
        assert(contents(heap).dom() =~= contents(heap.drop_last()).dom().insert(heap.last().seq));
    }
}

impl<E> Default for Scheduler<E> {
    fn default() -> (s: Self)
        ensures
            s.wf(),
            s@ == SchedState::<E>::init(),
    {
        Self::new()
    }
}

/// Scheduling adds exactly one event, `delay` ticks from now, under a fresh id, and
/// touches nothing else.
pub proof fn scheduling_adds_one_event<E>(
    s: SchedState<E>,
    delay: Tick,
    payload: E,
    other: EventId,
)
    requires
        s.wf(),
        s.next_seq < u64::MAX,
        s.now + delay <= u64::MAX,
    ensures
        ({
            let t = s.scheduled(delay, payload);
            &&& !s.queue.contains_key(s.next_seq)
            &&& t.queue.contains_key(s.next_seq)
            &&& t.queue[s.next_seq].0 == s.now + delay
            &&& t.queue[s.next_seq].1 == payload
            &&& other != s.next_seq ==> (t.queue.contains_key(other) <==> s.queue.contains_key(
                other,
            ))
            &&& s.queue.contains_key(other) ==> t.queue[other] == s.queue[other]
            &&& t.now == s.now
            &&& t.next_seq == s.next_seq + 1
            &&& t.queue.dom().len() == s.queue.dom().len() + 1
        }),
{
    let t = s.scheduled(delay, payload);
    assert(t.queue.dom() =~= s.queue.dom().insert(s.next_seq));
}

/// A step takes off exactly one event, which no other precedes, moves the clock to
/// its tick, and touches nothing else.
pub proof fn stepping_takes_the_first_event<E>(s: SchedState<E>, other: EventId)
    requires
        s.wf(),
        !s.quiet(),
    ensures
        ({
            let id = first_event(s.queue);
            let t = s.stepped();
            &&& s.queue.contains_key(id)
            &&& s.first_payload() == s.queue[id].1
            &&& !t.queue.contains_key(id)
            &&& t.now == s.queue[id].0
            &&& t.next_seq == s.next_seq
            &&& other != id ==> (t.queue.contains_key(other) <==> s.queue.contains_key(other))
            &&& t.queue.contains_key(other) ==> t.queue[other] == s.queue[other]
            &&& s.queue.contains_key(other) ==> s.queue[id].0 <= s.queue[other].0
            &&& s.queue.contains_key(other) && s.queue[other].0 == s.queue[id].0 ==> id <= other
        }),
{
    earliest_exists(s.queue);
}

/// A scheduler starts at tick 0 with nothing pending, and is quiet exactly if nothing
/// is pending.
pub proof fn quiet_means_nothing_pending<E>(s: SchedState<E>)
    ensures
        SchedState::<E>::init().now == 0,
        SchedState::<E>::init().next_seq == 0,
        SchedState::<E>::init().quiet(),
        s.quiet() <==> forall|id: EventId| !s.queue.contains_key(id),
{
    assert(SchedState::<E>::init().queue.dom() =~= Set::empty());
    if forall|id: EventId| !s.queue.contains_key(id) {
        assert(s.queue.dom() =~= Set::empty());
    }
}

} // verus!
