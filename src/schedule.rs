//! A discrete-event schedule: a fixed set of event slots, the scheduled ones kept in a
//! time-ordered doubly linked list threaded through the slots. Slot 0 is the list's sentinel.
use vstd::prelude::*;

verus! {

pub type RawTimestamp = u64;

#[derive(Clone, Copy)]
struct EventSlot<E: Copy> {
    time: RawTimestamp,
    event: E,
    prev_i: usize,
    next_i: usize,
}

/// The slot after position `i` of `order` in the circular list through the sentinel.
pub open spec fn succ(order: Seq<usize>, i: int) -> usize {
    if i + 1 < order.len() {
        order[i + 1]
    } else {
        0
    }
}

/// The slot before position `i` of `order` in the circular list through the sentinel.
pub open spec fn pred(order: Seq<usize>, i: int) -> usize {
    if i > 0 {
        order[i - 1]
    } else {
        0
    }
}

pub open spec fn first_or_sentinel(order: Seq<usize>) -> usize {
    if order.len() > 0 {
        order[0]
    } else {
        0
    }
}

pub open spec fn last_or_sentinel(order: Seq<usize>) -> usize {
    if order.len() > 0 {
        order.last()
    } else {
        0
    }
}

/// Where a slot due at `time` goes in `order`, given the slots' times: at the front when it is
/// due no later than the first, else after every slot due no later than it.
pub open spec fn insert_pos(order: Seq<usize>, times: spec_fn(usize) -> u64, time: u64, p: int) -> bool {
    &&& 0 <= p <= order.len()
    &&& (order.len() == 0 || time <= times(order[0])) ==> p == 0
    &&& !(order.len() == 0 || time <= times(order[0])) ==> {
        &&& p >= 1
        &&& forall|j: int| 0 <= j < p ==> times(#[trigger] order[j]) <= time
        &&& p < order.len() ==> time < times(order[p])
    }
}

/// The list threads the sentinel and the slots of `o` in order, both ways.
spec fn links_ok<E: Copy>(slots: Seq<EventSlot<E>>, o: Seq<usize>) -> bool {
    &&& slots[0].next_i == first_or_sentinel(o)
    &&& slots[0].prev_i == last_or_sentinel(o)
    &&& forall|i: int|
        0 <= i < o.len() ==> slots[#[trigger] o[i] as int].next_i == succ(o, i) && slots[o[i] as int].prev_i
            == pred(o, i)
}

/// Scheduled slots are due at a time strictly between 0 and `u64::MAX`, in order.
spec fn times_ok<E: Copy>(slots: Seq<EventSlot<E>>, o: Seq<usize>) -> bool {
    &&& forall|i: int| 0 <= i < o.len() ==> 0 < #[trigger] slots[o[i] as int].time < u64::MAX
    &&& forall|i: int, j: int|
        0 <= i <= j < o.len() ==> #[trigger] slots[o[i] as int].time <= #[trigger] slots[o[j] as int].time
}

/// Slots that are not scheduled hold time 0.
spec fn idle_ok<E: Copy>(slots: Seq<EventSlot<E>>, o: Seq<usize>, n: nat) -> bool {
    forall|s: int| 1 <= s < n && !o.contains(s as usize) ==> #[trigger] slots[s].time == 0
}

#[derive(Clone)]
pub struct Schedule<E: Copy, const EVENT_SLOTS: usize> {
    slots: Vec<EventSlot<E>>,
    next_event_time: RawTimestamp,
    order: Ghost<Seq<usize>>,
}

impl<E: Copy, const EVENT_SLOTS: usize> Schedule<E, EVENT_SLOTS> {
    /// The scheduled slots, in the order their events fire.
    pub closed spec fn order(&self) -> Seq<usize> {
        self.order@
    }

    /// The time slot `s` is due at; 0 for a slot that is not scheduled.
    pub closed spec fn time_of(&self, s: int) -> u64 {
        self.slots@[s].time
    }

    /// The event held in slot `s`.
    pub closed spec fn event_of(&self, s: int) -> E {
        self.slots@[s].event
    }

    /// The time each slot is due at.
    pub open spec fn times(&self) -> spec_fn(usize) -> u64 {
        |s: usize| self.time_of(s as int)
    }

    /// What a well-formed schedule guarantees: the order holds each scheduled slot once, the
    /// sentinel never, in order of due time; a slot other than the sentinel has a nonzero time
    /// exactly when it is scheduled.
    pub proof fn lemma_wf(&self)
        requires
            self.wf(),
        ensures
            self.order().no_duplicates(),
            forall|i: int| 0 <= i < self.order().len() ==> 1 <= #[trigger] self.order()[i] < EVENT_SLOTS,
            forall|i: int|
                0 <= i < self.order().len() ==> 0 < #[trigger] self.time_of(self.order()[i] as int)
                    < u64::MAX,
            forall|i: int, j: int|
                0 <= i <= j < self.order().len() ==> #[trigger] self.time_of(self.order()[i] as int)
                    <= #[trigger] self.time_of(self.order()[j] as int),
            forall|s: int|
                1 <= s < EVENT_SLOTS ==> (#[trigger] self.time_of(s) != 0 <==> self.order().contains(
                    s as usize,
                )),
            self.time_of(0) == u64::MAX,
    {
        let o = self.order@;
        assert forall|s: int| 1 <= s < EVENT_SLOTS implies (#[trigger] self.time_of(s) != 0
            <==> o.contains(s as usize)) by {
            if o.contains(s as usize) {
                let k = o.index_of(s as usize);
                assert(o[k] == s as usize);
                assert(0 < self.slots@[o[k] as int].time);
            }
        }
    }

    pub closed spec fn wf(&self) -> bool {
        let o = self.order@;
        let slots = self.slots@;
        &&& slots.len() == EVENT_SLOTS
        &&& EVENT_SLOTS >= 1
        &&& slots[0].time == u64::MAX
        &&& o.no_duplicates()
        &&& forall|i: int| 0 <= i < o.len() ==> 1 <= #[trigger] o[i] < EVENT_SLOTS
        &&& links_ok(slots, o)
        &&& times_ok(slots, o)
        &&& idle_ok(slots, o, EVENT_SLOTS as nat)
        &&& self.next_event_time == if o.len() > 0 {
            slots[o[0] as int].time
        } else {
            u64::MAX
        }
    }
}

impl<E: Copy, const EVENT_SLOTS: usize> Schedule<E, EVENT_SLOTS> {
    /// The time of the next event, `u64::MAX` when nothing is scheduled.
    #[inline]
    pub fn next_event_time(&self) -> (r: RawTimestamp)
        requires
            self.wf(),
        ensures
            r == if self.order().len() > 0 {
                self.time_of(self.order()[0] as int)
            } else {
                u64::MAX
            },
    {
        self.next_event_time
    }

    /// The event that fires next, if any is scheduled.
    pub fn next_event(&self) -> (r: Option<E>)
        requires
            self.wf(),
        ensures
            r == if self.order().len() > 0 {
                Some(self.event_of(self.order()[0] as int))
            } else {
                None
            },
    {
        let next_i = self.slots[0].next_i;
        if next_i == 0 {
            None
        } else {
            Some(self.slots[next_i].event)
        }
    }

    /// Whether slot `slot_index` is scheduled (the sentinel slot 0 always counts as scheduled).
    #[inline]
    pub fn is_scheduled(&self, slot_index: usize) -> (r: bool)
        requires
            self.wf(),
            slot_index < EVENT_SLOTS,
        ensures
            r == (slot_index == 0 || self.order().contains(slot_index)),
    {
        proof {
            if self.order().contains(slot_index) {
                let i = self.order@.index_of(slot_index);
                assert(self.order@[i] == slot_index);
            }
        }
        self.slots[slot_index].time != 0
    }

    /// Puts `event` in slot `slot_index`; what is scheduled does not change.
    #[inline]
    pub fn set_event(&mut self, slot_index: usize, event: E)
        requires
            old(self).wf(),
            slot_index < EVENT_SLOTS,
        ensures
            final(self).wf(),
            final(self).order() == old(self).order(),
            final(self).event_of(slot_index as int) == event,
            forall|s: int| 0 <= s < EVENT_SLOTS ==> #[trigger] final(self).time_of(s) == old(self).time_of(s),
            forall|s: int|
                0 <= s < EVENT_SLOTS && s != slot_index ==> #[trigger] final(self).event_of(s)
                    == old(self).event_of(s),
    {
        let mut slot = self.slots[slot_index];
        slot.event = event;
        self.slots.set(slot_index, slot);
        proof {
            let o = self.order@;
            assert forall|i: int| 0 <= i < o.len() implies self.slots@[#[trigger] o[i] as int].next_i == succ(o, i)
                && self.slots@[o[i] as int].prev_i == pred(o, i) by {
                assert(old(self).slots@[o[i] as int].next_i == succ(o, i));
            }
            assert forall|i: int| 0 <= i < o.len() implies 0 < #[trigger] self.slots@[o[i] as int].time < u64::MAX by {
                assert(0 < old(self).slots@[o[i] as int].time);
            }
            assert forall|i: int, j: int| 0 <= i <= j < o.len() implies #[trigger] self.slots@[o[i] as int].time
                <= #[trigger] self.slots@[o[j] as int].time by {
                assert(old(self).slots@[o[i] as int].time <= old(self).slots@[o[j] as int].time);
            }
            assert forall|t: int| 1 <= t < EVENT_SLOTS && !o.contains(t as usize) implies #[trigger] self.slots@[t].time == 0 by {
                assert(old(self).slots@[t].time == 0);
            }
        }
    }
}

impl<E: Copy + Default, const EVENT_SLOTS: usize> Schedule<E, EVENT_SLOTS> {
    /// An empty schedule: nothing scheduled, every slot holding the default event.
    pub fn new() -> (r: Self)
        requires
            EVENT_SLOTS >= 1,
        ensures
            r.wf(),
            r.order().len() == 0,
    {
        let mut slots: Vec<EventSlot<E>> = Vec::new();
        let mut i: usize = 0;
        while i < EVENT_SLOTS
            invariant
                i <= EVENT_SLOTS,
                slots@.len() == i,
                i >= 1 ==> slots@[0].time == u64::MAX && slots@[0].next_i == 0 && slots@[0].prev_i
                    == 0,
                forall|k: int| 1 <= k < i ==> #[trigger] slots@[k].time == 0,
            decreases EVENT_SLOTS - i,
        {
            let time: RawTimestamp = if i == 0 {
                u64::MAX
            } else {
                0
            };
            slots.push(EventSlot { time, event: E::default(), prev_i: 0, next_i: 0 });
            i = i + 1;
        }
        Schedule { slots, next_event_time: u64::MAX, order: Ghost(Seq::empty()) }
    }
}

impl<E: Copy, const EVENT_SLOTS: usize> Schedule<E, EVENT_SLOTS> {
    fn set_links(&mut self, i: usize, prev_i: usize, next_i: usize)
        requires
            i < old(self).slots@.len(),
        ensures
            final(self).slots@ == old(self).slots@.update(
                i as int,
                EventSlot { prev_i, next_i, ..old(self).slots@[i as int] },
            ),
            final(self).next_event_time == old(self).next_event_time,
            final(self).order == old(self).order,
    {
        let mut slot = self.slots[i];
        slot.prev_i = prev_i;
        slot.next_i = next_i;
        self.slots.set(i, slot);
    }

    /// Puts slot `s`, due at `time`, between `prev_i` and `next_i` in the slots' links; the
    /// order is left to the caller.
    fn write_links(&mut self, s: usize, time: RawTimestamp, prev_i: usize, next_i: usize)
        requires
            s < old(self).slots@.len(),
            prev_i < old(self).slots@.len(),
            next_i < old(self).slots@.len(),
            prev_i != s,
            next_i != s,
        ensures
            final(self).order == old(self).order,
            final(self).next_event_time == old(self).next_event_time,
            final(self).slots@.len() == old(self).slots@.len(),
            final(self).slots@[s as int].time == time,
            final(self).slots@[s as int].event == old(self).slots@[s as int].event,
            final(self).slots@[s as int].prev_i == prev_i,
            final(self).slots@[s as int].next_i == next_i,
            final(self).slots@[prev_i as int].next_i == s,
            final(self).slots@[next_i as int].prev_i == s,
            prev_i != next_i ==> final(self).slots@[prev_i as int].prev_i == old(self).slots@[prev_i as int].prev_i
                && final(self).slots@[next_i as int].next_i == old(self).slots@[next_i as int].next_i,
            forall|t: int|
                0 <= t < final(self).slots@.len() && t != s && t != prev_i && t != next_i
                    ==> #[trigger] final(self).slots@[t] == old(self).slots@[t],
            forall|t: int|
                0 <= t < final(self).slots@.len() && t != s ==> #[trigger] final(self).slots@[t].time
                    == old(self).slots@[t].time && final(self).slots@[t].event == old(self).slots@[t].event,
    {
        let mut slot = self.slots[s];
        slot.time = time;
        slot.prev_i = prev_i;
        slot.next_i = next_i;
        self.slots.set(s, slot);
        let pslot = self.slots[prev_i];
        self.set_links(prev_i, pslot.prev_i, s);
        let nslot = self.slots[next_i];
        self.set_links(next_i, s, nslot.next_i);
    }

    /// Links slot `s`, due at `time`, in at position `p` of the order, between `prev_i` and
    /// `next_i`.
    #[verifier::rlimit(100)]
    fn link(&mut self, s: usize, time: RawTimestamp, prev_i: usize, next_i: usize, Ghost(p): Ghost<int>)
        requires
            old(self).wf(),
            1 <= s < EVENT_SLOTS,
            !old(self).order@.contains(s),
            0 < time < u64::MAX,
            0 <= p <= old(self).order@.len(),
            prev_i == pred(old(self).order@, p),
            next_i == if p < old(self).order@.len() {
                old(self).order@[p]
            } else {
                0usize
            },
            p > 0 ==> old(self).slots@[prev_i as int].time <= time,
            p < old(self).order@.len() ==> time <= old(self).slots@[next_i as int].time,
        ensures
            final(self).wf(),
            final(self).order() == old(self).order().insert(p, s),
            final(self).time_of(s as int) == time,
            forall|t: int| 0 <= t < EVENT_SLOTS && t != s ==> #[trigger] final(self).time_of(t) == old(self).time_of(t),
            forall|t: int| 0 <= t < EVENT_SLOTS ==> #[trigger] final(self).event_of(t) == old(self).event_of(t),
    {
        let ghost o = self.order@;
        let ghost old_slots = self.slots@;
        assert(p > 0 ==> prev_i != 0) by {
            if p > 0 {
                assert(1 <= o[p - 1]);
            }
        }
        assert(prev_i != s && next_i != s) by {
            assert(o.contains(s) == false);
            if p > 0 {
                assert(o[p - 1] == prev_i);
            }
            if p < o.len() {
                assert(o[p] == next_i);
            }
        }
        assert(prev_i < EVENT_SLOTS && next_i < EVENT_SLOTS) by {
            if p > 0 {
                assert(o[p - 1] == prev_i);
            }
            if p < o.len() {
                assert(o[p] == next_i);
            }
        }
        self.write_links(s, time, prev_i, next_i);
        if prev_i == 0 {
            self.next_event_time = time;
        }
        self.order = Ghost(o.insert(p, s));
        proof {
            let o2 = o.insert(p, s);
            let sl = self.slots@;
            assert(p < o.len() ==> o[p] == next_i);
            assert(p > 0 ==> o[p - 1] == prev_i);
            lemma_insert_order(o, p, s, EVENT_SLOTS as nat);
            lemma_insert_links(old_slots, sl, o, p, s, prev_i, next_i);
            assert forall|t: int| 0 <= t < EVENT_SLOTS implies #[trigger] self.event_of(t) == old(
                self,
            ).event_of(t) by {
                if t != s {
                    assert(sl[t].time == old_slots[t].time);
                    assert(sl[t].event == old_slots[t].event);
                }
            }
            lemma_insert_times(old_slots, sl, o, p, s, time, EVENT_SLOTS as nat);
            assert(self.next_event_time == if o2.len() > 0 {
                sl[o2[0] as int].time
            } else {
                u64::MAX
            }) by {
                if p > 0 {
                    assert(o2[0] == o[0]);
                }
            }
        }
    }
}

/// Inserting a slot that is not yet in the order keeps the order free of repeats and in range.
proof fn lemma_insert_order(o: Seq<usize>, p: int, s: usize, n: nat)
    requires
        o.no_duplicates(),
        forall|i: int| 0 <= i < o.len() ==> 1 <= #[trigger] o[i] < n,
        1 <= s < n,
        !o.contains(s),
        0 <= p <= o.len(),
    ensures
        o.insert(p, s).no_duplicates(),
        forall|i: int| 0 <= i < o.insert(p, s).len() ==> 1 <= #[trigger] o.insert(p, s)[i] < n,
        forall|t: usize| o.insert(p, s).contains(t) <==> (o.contains(t) || t == s),
{
    let o2 = o.insert(p, s);
    assert forall|i: int| 0 <= i < o.len() implies #[trigger] o[i] != s by {
        assert(o.contains(o[i]));
    }
    assert forall|a: int, b: int| 0 <= a < b < o2.len() implies o2[a] != o2[b] by {
        if a != p && b != p {
            let a0 = if a < p { a } else { a - 1 };
            let b0 = if b < p { b } else { b - 1 };
            assert(o2[a] == o[a0] && o2[b] == o[b0]);
        } else if a == p {
            assert(o2[b] == o[b - 1]);
        } else {
            assert(o2[a] == o[a]);
        }
    }
    assert forall|i: int| 0 <= i < o2.len() implies 1 <= #[trigger] o2[i] < n by {
        if i < p {
            assert(o2[i] == o[i]);
        } else if i > p {
            assert(o2[i] == o[i - 1]);
        }
    }
    assert forall|t: usize| o2.contains(t) <==> (o.contains(t) || t == s) by {
        if o2.contains(t) {
            let k = o2.index_of(t);
            if k < p {
                assert(o[k] == t);
            } else if k > p {
                assert(o[k - 1] == t);
            }
        }
        if o.contains(t) {
            let k = o.index_of(t);
            if k < p {
                assert(o2[k] == t);
            } else {
                assert(o2[k + 1] == t);
            }
        }
        if t == s {
            assert(o2[p] == s);
        }
    }
}

/// The links after slot `s` is put between `prev_i` and `next_i` are those of the order with
/// `s` inserted at `p`.
#[verifier::rlimit(50)]
proof fn lemma_insert_links<E: Copy>(
    old_slots: Seq<EventSlot<E>>,
    sl: Seq<EventSlot<E>>,
    o: Seq<usize>,
    p: int,
    s: usize,
    prev_i: usize,
    next_i: usize,
)
    requires
        links_ok(old_slots, o),
        o.no_duplicates(),
        forall|i: int| 0 <= i < o.len() ==> 1 <= #[trigger] o[i] < old_slots.len(),
        1 <= s < old_slots.len(),
        !o.contains(s),
        0 <= p <= o.len(),
        prev_i == pred(o, p),
        next_i == if p < o.len() {
            o[p]
        } else {
            0usize
        },
        sl.len() == old_slots.len(),
        old_slots.len() >= 1,
        sl[s as int].prev_i == prev_i,
        sl[s as int].next_i == next_i,
        sl[prev_i as int].next_i == s,
        sl[next_i as int].prev_i == s,
        prev_i != next_i ==> sl[prev_i as int].prev_i == old_slots[prev_i as int].prev_i
            && sl[next_i as int].next_i == old_slots[next_i as int].next_i,
        forall|t: int|
            0 <= t < sl.len() && t != s && t != prev_i && t != next_i ==> #[trigger] sl[t]
                == old_slots[t],
    ensures
        links_ok(sl, o.insert(p, s)),
{
    let o2 = o.insert(p, s);
    assert forall|i: int| 0 <= i < o.len() implies #[trigger] o[i] != s by {
        assert(o.contains(o[i]));
    }
    assert forall|i: int| 0 <= i < o2.len() implies sl[#[trigger] o2[i] as int].next_i == succ(o2, i)
        && sl[o2[i] as int].prev_i == pred(o2, i) by {
        if i < p - 1 {
            assert(o2[i] == o[i] && o2[i + 1] == o[i + 1]);
            assert(o[i] != prev_i && o[i] != next_i);
            assert(old_slots[o[i] as int].next_i == succ(o, i));
            if i > 0 {
                assert(o2[i - 1] == o[i - 1]);
            }
        } else if i == p - 1 {
            assert(o2[i] == prev_i && o[i] == prev_i);
            assert(prev_i != next_i);
            assert(old_slots[o[i] as int].prev_i == pred(o, i));
            if i > 0 {
                assert(o2[i - 1] == o[i - 1]);
            }
        } else if i == p {
            assert(o2[i] == s);
            if p + 1 < o2.len() {
                assert(o2[p + 1] == o[p]);
            }
            if p > 0 {
                assert(o2[p - 1] == o[p - 1]);
            }
        } else if i == p + 1 {
            assert(o2[i] == o[p] && o[p] == next_i);
            assert(next_i != prev_i);
            assert(old_slots[o[p] as int].next_i == succ(o, p));
            if i + 1 < o2.len() {
                assert(o2[i + 1] == o[p + 1]);
            }
        } else {
            assert(o2[i] == o[i - 1] && o2[i - 1] == o[i - 2]);
            assert(o[i - 1] != prev_i && o[i - 1] != next_i);
            assert(old_slots[o[i - 1] as int].next_i == succ(o, i - 1));
            assert(old_slots[o[i - 1] as int].prev_i == pred(o, i - 1));
            if i + 1 < o2.len() {
                assert(o2[i + 1] == o[i]);
            }
        }
    }
    assert(sl[0].next_i == first_or_sentinel(o2)) by {
        if p > 0 {
            assert(o2[0] == o[0]);
        }
    }
    assert(sl[0].prev_i == last_or_sentinel(o2)) by {
        if p < o.len() {
            assert(o2.last() == o.last());
        }
    }
}

/// The times after slot `s` is scheduled at `time` in position `p` keep the order sorted.
proof fn lemma_insert_times<E: Copy>(
    old_slots: Seq<EventSlot<E>>,
    sl: Seq<EventSlot<E>>,
    o: Seq<usize>,
    p: int,
    s: usize,
    time: u64,
    n: nat,
)
    requires
        times_ok(old_slots, o),
        idle_ok(old_slots, o, n),
        forall|i: int| 0 <= i < o.len() ==> 1 <= #[trigger] o[i] < n,
        !o.contains(s),
        1 <= s < n,
        n == old_slots.len(),
        0 <= p <= o.len(),
        0 < time < u64::MAX,
        p > 0 ==> old_slots[o[p - 1] as int].time <= time,
        p < o.len() ==> time <= old_slots[o[p] as int].time,
        sl.len() == old_slots.len(),
        sl[s as int].time == time,
        forall|t: int| 0 <= t < sl.len() && t != s ==> #[trigger] sl[t].time == old_slots[t].time,
        forall|t: usize| o.insert(p, s).contains(t) <==> (o.contains(t) || t == s),
    ensures
        times_ok(sl, o.insert(p, s)),
        idle_ok(sl, o.insert(p, s), n),
{
    let o2 = o.insert(p, s);
    assert forall|i: int| 0 <= i < o.len() implies #[trigger] o[i] != s by {
        assert(o.contains(o[i]));
    }
    assert forall|i: int| 0 <= i < o2.len() implies 0 < #[trigger] sl[o2[i] as int].time < u64::MAX by {
        if i < p {
            assert(o2[i] == o[i]);
        } else if i > p {
            assert(o2[i] == o[i - 1]);
        }
    }
    assert forall|i: int, j: int| 0 <= i <= j < o2.len() implies #[trigger] sl[o2[i] as int].time
        <= #[trigger] sl[o2[j] as int].time by {
        if i < p {
            assert(o2[i] == o[i]);
        } else if i > p {
            assert(o2[i] == o[i - 1]);
        }
        if j < p {
            assert(o2[j] == o[j]);
        } else if j > p {
            assert(o2[j] == o[j - 1]);
        }
        if i < p && j >= p {
            assert(old_slots[o[i] as int].time <= old_slots[o[p - 1] as int].time);
        }
        if i <= p && j > p {
            assert(old_slots[o[p] as int].time <= old_slots[o[j - 1] as int].time);
        }
        if i > p {
            assert(old_slots[o[i - 1] as int].time <= old_slots[o[j - 1] as int].time);
        }
        if j < p {
            assert(old_slots[o[i] as int].time <= old_slots[o[j] as int].time);
        }
    }
    assert forall|t: int| 1 <= t < n && !o2.contains(t as usize) implies #[trigger] sl[t].time == 0 by {
        assert(old_slots[t].time == 0);
    }
}

impl<E: Copy, const EVENT_SLOTS: usize> Schedule<E, EVENT_SLOTS> {
    /// Takes the slot at position `k` of the order out of the list.
    #[verifier::rlimit(100)]
    fn unlink(&mut self, s: usize, Ghost(k): Ghost<int>)
        requires
            old(self).wf(),
            0 <= k < old(self).order@.len(),
            old(self).order@[k] == s,
        ensures
            final(self).wf(),
            final(self).order() == old(self).order().remove(k),
            final(self).time_of(s as int) == 0,
            forall|t: int| 0 <= t < EVENT_SLOTS && t != s ==> #[trigger] final(self).time_of(t) == old(self).time_of(t),
            forall|t: int| 0 <= t < EVENT_SLOTS ==> #[trigger] final(self).event_of(t) == old(self).event_of(t),
    {
        let ghost o = self.order@;
        let ghost old_slots = self.slots@;
        assert(1 <= o[k]);
        let slot = self.slots[s];
        let prev_i = slot.prev_i;
        let next_i = slot.next_i;
        assert(prev_i == pred(o, k) && next_i == succ(o, k));
        assert(prev_i != s && next_i != s && (k > 0 ==> prev_i != 0)) by {
            if k > 0 {
                assert(o[k - 1] != o[k]);
                assert(1 <= o[k - 1]);
            }
            if k + 1 < o.len() {
                assert(o[k + 1] != o[k]);
            }
        }
        let mut cleared = slot;
        cleared.time = 0;
        self.slots.set(s, cleared);
        let pslot = self.slots[prev_i];
        self.set_links(prev_i, pslot.prev_i, next_i);
        let nslot = self.slots[next_i];
        self.set_links(next_i, prev_i, nslot.next_i);
        if prev_i == 0 {
            self.next_event_time = self.slots[next_i].time;
        }
        self.order = Ghost(o.remove(k));
        proof {
            let o2 = o.remove(k);
            let sl = self.slots@;
            lemma_remove_order(o, k, EVENT_SLOTS as nat);
            assert forall|t: int| 0 <= t < sl.len() && t != s && t != prev_i && t != next_i implies #[trigger] sl[t]
                == old_slots[t] by {}
            lemma_remove_links(old_slots, sl, o, k, s, prev_i, next_i);
            assert forall|t: int| 0 <= t < sl.len() && t != s implies #[trigger] sl[t].time == old_slots[t].time
                && sl[t].event == old_slots[t].event by {}
            assert forall|i: int| 0 <= i < o2.len() implies #[trigger] o2[i] != s by {
                assert(o2.contains(o2[i]));
            }
            lemma_remove_times(old_slots, sl, o, k, s, EVENT_SLOTS as nat);
            assert(self.next_event_time == if o2.len() > 0 {
                sl[o2[0] as int].time
            } else {
                u64::MAX
            }) by {
                if k > 0 {
                    assert(o2[0] == o[0]);
                } else if o2.len() > 0 {
                    assert(o2[0] == o[1]);
                }
            }
        }
    }

    /// Takes the next event off the schedule if it is due at `cur_time`: the event and the time
    /// it was due at. The slot becomes unscheduled.
    pub fn pop_pending_event(&mut self, cur_time: RawTimestamp) -> (r: Option<(E, RawTimestamp)>)
        requires
            old(self).wf(),
        ensures
            final(self).wf(),
            old(self).order().len() == 0 || cur_time < old(self).time_of(old(self).order()[0] as int)
                ==> r is None && *final(self) == *old(self),
            old(self).order().len() > 0 && cur_time >= old(self).time_of(old(self).order()[0] as int)
                ==> {
                let first = old(self).order()[0] as int;
                &&& r == Some((old(self).event_of(first), old(self).time_of(first)))
                &&& final(self).order() == old(self).order().drop_first()
                &&& !final(self).order().contains(old(self).order()[0])
                &&& final(self).time_of(first) == 0
                &&& forall|t: int| 0 <= t < EVENT_SLOTS && t != first ==> #[trigger] final(self).time_of(t) == old(self).time_of(t)
                &&& forall|t: int| 0 <= t < EVENT_SLOTS ==> #[trigger] final(self).event_of(t) == old(self).event_of(t)
            },
    {
        if cur_time < self.next_event_time {
            return None;
        }
        let first = self.slots[0].next_i;
        if first == 0 {
            return None;
        }
        let event = self.slots[first].event;
        let time = self.next_event_time;
        self.unlink(first, Ghost(0));
        assert(old(self).order().remove(0) =~= old(self).order().drop_first());
        proof {
            self.lemma_wf();
        }
        Some((event, time))
    }

    /// Cancels the scheduled event in slot `slot_index`.
    pub fn cancel(&mut self, slot_index: usize)
        requires
            old(self).wf(),
            old(self).order().contains(slot_index),
        ensures
            final(self).wf(),
            final(self).order() == old(self).order().remove(old(self).order().index_of(slot_index)),
            !final(self).order().contains(slot_index),
            final(self).time_of(slot_index as int) == 0,
            forall|t: int| 0 <= t < EVENT_SLOTS && t != slot_index ==> #[trigger] final(self).time_of(t) == old(self).time_of(t),
            forall|t: int| 0 <= t < EVENT_SLOTS ==> #[trigger] final(self).event_of(t) == old(self).event_of(t),
    {
        let ghost k = self.order@.index_of(slot_index);
        proof {
            self.lemma_wf();
        }
        self.unlink(slot_index, Ghost(k));
        proof {
            self.lemma_wf();
        }
    }

    /// Schedules the event in slot `slot_index` at `time`: it fires before every event due later,
    /// after every event due no later than it, except that it goes first when it is due no
    /// later than the current first event.
    pub fn schedule(&mut self, slot_index: usize, time: RawTimestamp)
        requires
            old(self).wf(),
            1 <= slot_index < EVENT_SLOTS,
            !old(self).order().contains(slot_index),
            0 < time < u64::MAX,
        ensures
            final(self).wf(),
            exists|p: int|
                insert_pos(old(self).order(), old(self).times(), time, p) && final(self).order()
                    == old(self).order().insert(p, slot_index),
            final(self).order().contains(slot_index),
            final(self).time_of(slot_index as int) == time,
            forall|t: int| 0 <= t < EVENT_SLOTS && t != slot_index ==> #[trigger] final(self).time_of(t) == old(self).time_of(t),
            forall|t: int| 0 <= t < EVENT_SLOTS ==> #[trigger] final(self).event_of(t) == old(self).event_of(t),
    {
        let ghost o = self.order@;
        let ghost times = self.times();
        if time <= self.next_event_time {
            let first = self.slots[0].next_i;
            assert(insert_pos(o, times, time, 0));
            self.link(slot_index, time, 0, first, Ghost(0));
        } else {
            // Something is scheduled, due before `time`: walk past every slot due no later.
            assert(o.len() > 0);
            let first = self.slots[0].next_i;
            let mut next_i = self.slots[first].next_i;
            let ghost mut j: int = 1;
            assert(next_i == succ(o, 0));
            loop
                invariant
                    self.wf(),
                    self.order@ == o,
                    times == self.times(),
                    *self == *old(self),
                    1 <= j <= o.len(),
                    next_i == if j < o.len() {
                        o[j]
                    } else {
                        0usize
                    },
                    forall|i: int| 0 <= i < j ==> times(#[trigger] o[i]) <= time,
                    time > times(o[0]),
                    0 < time < u64::MAX,
                ensures
                    time < self.slots@[next_i as int].time,
                decreases o.len() - j,
            {
                if time < self.slots[next_i].time {
                    break;
                }
                assert(j < o.len());
                assert(next_i == o[j]);
                next_i = self.slots[next_i].next_i;
                proof {
                    j = j + 1;
                }
            }
            let prev_i = self.slots[next_i].prev_i;
            proof {
                assert(prev_i == o[j - 1]) by {
                    if j < o.len() {
                        assert(self.slots@[o[j] as int].prev_i == pred(o, j));
                    }
                }
                assert(insert_pos(o, times, time, j));
                assert(times(o[j - 1]) <= time);
            }
            self.link(slot_index, time, prev_i, next_i, Ghost(j));
        }
    }
}

/// Taking position `k` out keeps the order free of repeats and in range.
proof fn lemma_remove_order(o: Seq<usize>, k: int, n: nat)
    requires
        o.no_duplicates(),
        forall|i: int| 0 <= i < o.len() ==> 1 <= #[trigger] o[i] < n,
        0 <= k < o.len(),
    ensures
        o.remove(k).no_duplicates(),
        forall|i: int| 0 <= i < o.remove(k).len() ==> 1 <= #[trigger] o.remove(k)[i] < n,
        forall|t: usize| o.remove(k).contains(t) <==> (o.contains(t) && t != o[k]),
{
    let o2 = o.remove(k);
    assert forall|a: int, b: int| 0 <= a < b < o2.len() implies o2[a] != o2[b] by {
        let a0 = if a < k { a } else { a + 1 };
        let b0 = if b < k { b } else { b + 1 };
        assert(o2[a] == o[a0] && o2[b] == o[b0]);
    }
    assert forall|i: int| 0 <= i < o2.len() implies 1 <= #[trigger] o2[i] < n by {
        if i < k {
            assert(o2[i] == o[i]);
        } else {
            assert(o2[i] == o[i + 1]);
        }
    }
    assert forall|t: usize| o2.contains(t) <==> (o.contains(t) && t != o[k]) by {
        if o2.contains(t) {
            let i = o2.index_of(t);
            if i < k {
                assert(o[i] == t);
                assert(i != k);
            } else {
                assert(o[i + 1] == t);
            }
        }
        if o.contains(t) && t != o[k] {
            let i = o.index_of(t);
            if i < k {
                assert(o2[i] == t);
            } else {
                assert(i != k);
                assert(o2[i - 1] == t);
            }
        }
    }
}

/// The links after slot `s` at position `k` is bridged over are those of the order without it.
#[verifier::rlimit(50)]
proof fn lemma_remove_links<E: Copy>(
    old_slots: Seq<EventSlot<E>>,
    sl: Seq<EventSlot<E>>,
    o: Seq<usize>,
    k: int,
    s: usize,
    prev_i: usize,
    next_i: usize,
)
    requires
        links_ok(old_slots, o),
        o.no_duplicates(),
        forall|i: int| 0 <= i < o.len() ==> 1 <= #[trigger] o[i] < old_slots.len(),
        0 <= k < o.len(),
        o[k] == s,
        prev_i == pred(o, k),
        next_i == succ(o, k),
        sl.len() == old_slots.len(),
        old_slots.len() >= 1,
        sl[prev_i as int].next_i == next_i,
        sl[next_i as int].prev_i == prev_i,
        prev_i != next_i ==> sl[prev_i as int].prev_i == old_slots[prev_i as int].prev_i
            && sl[next_i as int].next_i == old_slots[next_i as int].next_i,
        forall|t: int|
            0 <= t < sl.len() && t != s && t != prev_i && t != next_i ==> #[trigger] sl[t]
                == old_slots[t],
    ensures
        links_ok(sl, o.remove(k)),
{
    let o2 = o.remove(k);
    assert forall|i: int| 0 <= i < o2.len() implies sl[#[trigger] o2[i] as int].next_i == succ(o2, i)
        && sl[o2[i] as int].prev_i == pred(o2, i) by {
        if i < k - 1 {
            assert(o2[i] == o[i] && o2[i + 1] == o[i + 1]);
            assert(o[i] != prev_i && o[i] != next_i && o[i] != s) by {
                assert(o[k - 1] == prev_i);
                if k + 1 < o.len() {
                    assert(o[k + 1] == next_i);
                }
            }
            assert(old_slots[o[i] as int].next_i == succ(o, i));
            if i > 0 {
                assert(o2[i - 1] == o[i - 1]);
            }
        } else if i == k - 1 {
            assert(o2[i] == prev_i && o[i] == prev_i);
            assert(prev_i != next_i) by {
                if k + 1 < o.len() {
                    assert(o[k + 1] == next_i);
                }
            }
            assert(old_slots[o[i] as int].prev_i == pred(o, i));
            if i > 0 {
                assert(o2[i - 1] == o[i - 1]);
            }
            if i + 1 < o2.len() {
                assert(o2[i + 1] == o[k + 1]);
            }
        } else if i == k {
            assert(o2[i] == o[k + 1] && o[k + 1] == next_i);
            assert(next_i != prev_i) by {
                if k > 0 {
                    assert(o[k - 1] == prev_i);
                }
            }
            assert(old_slots[o[k + 1] as int].next_i == succ(o, k + 1));
            if i + 1 < o2.len() {
                assert(o2[i + 1] == o[k + 2]);
            }
            if k > 0 {
                assert(o2[k - 1] == o[k - 1]);
            }
        } else {
            assert(o2[i] == o[i + 1] && o2[i - 1] == o[i]);
            assert(o[i + 1] != prev_i && o[i + 1] != next_i && o[i + 1] != s) by {
                if k > 0 {
                    assert(o[k - 1] == prev_i);
                }
                assert(o[k + 1] == next_i);
            }
            assert(old_slots[o[i + 1] as int].next_i == succ(o, i + 1));
            assert(old_slots[o[i + 1] as int].prev_i == pred(o, i + 1));
            if i + 1 < o2.len() {
                assert(o2[i + 1] == o[i + 2]);
            }
        }
    }
    assert(sl[0].next_i == first_or_sentinel(o2)) by {
        if k > 0 {
            assert(o2[0] == o[0]);
            assert(o[0] != s && o[0] != next_i);
        } else if o2.len() > 0 {
            assert(o2[0] == o[1]);
        }
    }
    assert(sl[0].prev_i == last_or_sentinel(o2)) by {
        if k + 1 < o.len() {
            assert(o2.last() == o.last());
        } else if o2.len() > 0 {
            assert(o2.last() == o[k - 1]);
        }
    }
}

/// The times after the slot at position `k` is cleared keep the rest sorted.
proof fn lemma_remove_times<E: Copy>(
    old_slots: Seq<EventSlot<E>>,
    sl: Seq<EventSlot<E>>,
    o: Seq<usize>,
    k: int,
    s: usize,
    n: nat,
)
    requires
        times_ok(old_slots, o),
        idle_ok(old_slots, o, n),
        o.no_duplicates(),
        forall|i: int| 0 <= i < o.len() ==> 1 <= #[trigger] o[i] < n,
        0 <= k < o.len(),
        o[k] == s,
        n == old_slots.len(),
        n <= usize::MAX,
        sl.len() == old_slots.len(),
        sl[s as int].time == 0,
        forall|t: int| 0 <= t < sl.len() && t != s ==> #[trigger] sl[t].time == old_slots[t].time,
        forall|t: usize| o.remove(k).contains(t) <==> (o.contains(t) && t != o[k]),
        forall|i: int| 0 <= i < o.remove(k).len() ==> #[trigger] o.remove(k)[i] != s,
    ensures
        times_ok(sl, o.remove(k)),
        idle_ok(sl, o.remove(k), n),
{
    let o2 = o.remove(k);
    assert forall|i: int| 0 <= i < o2.len() implies 0 < #[trigger] sl[o2[i] as int].time < u64::MAX by {
        if i < k {
            assert(o2[i] == o[i]);
            assert(o[i] != s);
        } else {
            assert(o2[i] == o[i + 1]);
            assert(o[i + 1] != s);
        }
    }
    assert forall|i: int, j: int| 0 <= i <= j < o2.len() implies #[trigger] sl[o2[i] as int].time
        <= #[trigger] sl[o2[j] as int].time by {
        let i0 = if i < k { i } else { i + 1 };
        let j0 = if j < k { j } else { j + 1 };
        assert(o2[i] == o[i0] && o2[j] == o[j0]);
        assert(o[i0] != s && o[j0] != s);
        assert(old_slots[o[i0] as int].time <= old_slots[o[j0] as int].time);
    }
    assert forall|t: int| 1 <= t < n && !o2.contains(t as usize) implies #[trigger] sl[t].time == 0 by {
        if t != s {
            assert(!o.contains(t as usize));
            assert(old_slots[t].time == 0);
        }
    }
}

} // verus!
