//! The reload broadcaster: a fan-out of unit change signals, one bounded
//! buffer per subscriber.
use vstd::prelude::*;

verus! {

/// A subscriber (its id) and the number of signals buffered for it.
pub type Slot = (u64, nat);

/// Each subscriber's buffer gains a signal, unless it is full: then the new
/// signal is dropped (it would only repeat "something changed").
pub open spec fn published(s: Seq<Slot>, capacity: nat) -> Seq<Slot> {
    Seq::new(s.len(), |i: int| (s[i].0, if s[i].1 < capacity { s[i].1 + 1 } else { capacity }))
}

/// `n` publishes in a row.
pub open spec fn published_n(s: Seq<Slot>, capacity: nat, n: nat) -> Seq<Slot>
    decreases n,
{
    if n == 0 {
        s
    } else {
        published(published_n(s, capacity, (n - 1) as nat), capacity)
    }
}

pub open spec fn has_id(s: Seq<Slot>, id: u64) -> bool {
    exists|i: int| 0 <= i < s.len() && s[i].0 == id
}

pub open spec fn min_nat(a: nat, b: nat) -> nat {
    if a < b { a } else { b }
}

/// The broadcaster's state. Subscribers are identified by the ids that
/// `subscribe` hands out, and never reuse one.
#[derive(Debug)]
pub struct ReloadHub {
    slots: Vec<(u64, u64)>,
    next_id: u64,
    capacity: u64,
}

impl ReloadHub {
    /// The subscribers, in order of subscription, with their buffered signals.
    pub closed spec fn subs(&self) -> Seq<Slot> {
        self.slots@.map_values(|p: (u64, u64)| (p.0, p.1 as nat))
    }

    /// The size of each subscriber's buffer.
    pub closed spec fn cap(&self) -> nat {
        self.capacity as nat
    }

    /// The id that the next subscriber gets.
    pub closed spec fn next(&self) -> u64 {
        self.next_id
    }

    pub closed spec fn wf(&self) -> bool {
        &&& self.capacity >= 1
        &&& forall|i: int| 0 <= i < self.slots@.len() ==> (#[trigger] self.slots@[i]).1 <= self.capacity
        &&& forall|i: int| 0 <= i < self.slots@.len() ==> (#[trigger] self.slots@[i]).0 < self.next_id
        &&& forall|i: int, j: int|
            0 <= i < j < self.slots@.len() ==> (#[trigger] self.slots@[i]).0 != (#[trigger] self.slots@[j]).0
    }

    pub proof fn lemma_wf_view(&self)
        requires
            self.wf(),
        ensures
            self.cap() >= 1,
            forall|i: int| 0 <= i < self.subs().len() ==> (#[trigger] self.subs()[i]).1 <= self.cap(),
            forall|i: int| 0 <= i < self.subs().len() ==> (#[trigger] self.subs()[i]).0 < self.next(),
            forall|i: int, j: int|
                0 <= i < j < self.subs().len() ==> (#[trigger] self.subs()[i]).0 != (#[trigger] self.subs()[j]).0,
    {
        assert forall|i: int, j: int| 0 <= i < j < self.subs().len() implies (#[trigger] self.subs()[i]).0
            != (#[trigger] self.subs()[j]).0 by {
            assert(self.subs()[i].0 == self.slots@[i].0);
            assert(self.subs()[j].0 == self.slots@[j].0);
        }
    }

    /// A broadcaster with no subscribers, whose buffers hold `capacity`
    /// signals each.
    pub fn new(capacity: u64) -> (r: ReloadHub)
        requires
            capacity >= 1,
        ensures
            r.wf(),
            r.subs() == Seq::<Slot>::empty(),
            r.cap() == capacity,
    {
        let r = ReloadHub { slots: Vec::new(), next_id: 0, capacity };
        assert(r.subs() =~= Seq::<Slot>::empty());
        r
    }

    /// The number of live subscribers.
    pub fn subscriber_count(&self) -> (r: usize)
        ensures
            r == self.subs().len(),
    {
        self.slots.len()
    }

    /// Signals every live subscriber; never fails, and returns how many
    /// subscribers there were. With none, the signal is discarded.
    pub fn publish(&mut self) -> (r: usize)
        requires
            old(self).wf(),
        ensures
            final(self).wf(),
            final(self).cap() == old(self).cap(),
            final(self).next() == old(self).next(),
            final(self).subs() == published(old(self).subs(), old(self).cap()),
            r == old(self).subs().len(),
    {
        let ghost start = self.subs();
        let n = self.slots.len();
        let mut i: usize = 0;
        while i < n
            invariant
                n == self.slots@.len(),
                i <= n,
                self.capacity >= 1,
                self.capacity == old(self).capacity,
                self.next_id == old(self).next_id,
                start == old(self).subs(),
                forall|k: int| 0 <= k < n ==> (#[trigger] self.slots@[k]).1 <= self.capacity,
                forall|k: int| 0 <= k < n ==> (#[trigger] self.slots@[k]).0 == old(self).slots@[k].0,
                forall|k: int| 0 <= k < i ==> (#[trigger] self.slots@[k]).1 as nat == (if old(self).slots@[k].1 < self.capacity {
                    old(self).slots@[k].1 + 1
                } else {
                    self.capacity as int
                }),
                forall|k: int| i <= k < n ==> (#[trigger] self.slots@[k]) == old(self).slots@[k],
            decreases n - i,
        {
            let (id, pending) = self.slots[i];
            let next = if pending < self.capacity { pending + 1 } else { self.capacity };
            self.slots.set(i, (id, next));
            i = i + 1;
        }
        assert forall|k: int| 0 <= k < n implies #[trigger] self.subs()[k] == published(start, self.capacity as nat)[k] by {
            assert(start[k] == (old(self).slots@[k].0, old(self).slots@[k].1 as nat));
        }
        assert(self.subs() =~= published(start, self.capacity as nat));
        n
    }

    /// Adds a subscriber with an empty buffer and returns its id; `None`
    /// once every id has been handed out.
    pub fn subscribe(&mut self) -> (r: Option<u64>)
        requires
            old(self).wf(),
        ensures
            final(self).wf(),
            final(self).cap() == old(self).cap(),
            old(self).next() < u64::MAX ==> r == Some(old(self).next()) && final(self).next() == old(self).next() + 1
                && final(self).subs() == old(self).subs().push((old(self).next(), 0nat)),
            old(self).next() == u64::MAX ==> r is None && *final(self) == *old(self),
    {
        if self.next_id == u64::MAX {
            return None;
        }
        let id = self.next_id;
        self.slots.push((id, 0));
        self.next_id = id + 1;
        assert(self.subs() =~= old(self).subs().push((id, 0nat)));
        Some(id)
    }

    fn find(&self, id: u64) -> (r: Option<usize>)
        requires
            self.wf(),
        ensures
            match r {
                Some(i) => i < self.subs().len() && self.subs()[i as int].0 == id,
                None => !has_id(self.subs(), id),
            },
    {
        let mut i: usize = 0;
        while i < self.slots.len()
            invariant
                i <= self.slots@.len(),
                forall|k: int| 0 <= k < i ==> (#[trigger] self.slots@[k]).0 != id,
            decreases self.slots@.len() - i,
        {
            if self.slots[i].0 == id {
                return Some(i);
            }
            i = i + 1;
        }
        assert forall|k: int| 0 <= k < self.subs().len() implies (#[trigger] self.subs()[k]).0 != id by {
            assert(self.subs()[k].0 == self.slots@[k].0);
        }
        None
    }

    /// Releases a subscriber's slot; unknown ids are ignored.
    pub fn disconnect(&mut self, id: u64)
        requires
            old(self).wf(),
        ensures
            final(self).wf(),
            final(self).cap() == old(self).cap(),
            final(self).next() == old(self).next(),
            !has_id(final(self).subs(), id),
            has_id(old(self).subs(), id) ==> exists|i: int|
                0 <= i < old(self).subs().len() && old(self).subs()[i].0 == id
                    && final(self).subs() == old(self).subs().remove(i),
            !has_id(old(self).subs(), id) ==> final(self).subs() == old(self).subs(),
    {
        proof { self.lemma_wf_view(); }
        match self.find(id) {
            Some(i) => {
                let ghost before = self.subs();
                self.slots.remove(i);
                assert(self.subs() =~= before.remove(i as int));
                assert(!has_id(self.subs(), id)) by {
                    if has_id(self.subs(), id) {
                        let k = choose|k: int| 0 <= k < self.subs().len() && self.subs()[k].0 == id;
                        if k < i {
                            assert(before[k].0 == id);
                        } else {
                            assert(before[k + 1].0 == id);
                        }
                    }
                }
            },
            None => {},
        }
    }

    /// Takes one buffered signal of subscriber `id`, if it has any.
    pub fn take_signal(&mut self, id: u64) -> (r: bool)
        requires
            old(self).wf(),
        ensures
            final(self).wf(),
            final(self).cap() == old(self).cap(),
            final(self).next() == old(self).next(),
            r <==> exists|i: int| 0 <= i < old(self).subs().len() && old(self).subs()[i].0 == id && old(self).subs()[i].1 > 0,
            r ==> exists|i: int|
                0 <= i < old(self).subs().len() && old(self).subs()[i].0 == id
                    && final(self).subs() == old(self).subs().update(i, (id, (old(self).subs()[i].1 - 1) as nat)),
            !r ==> final(self).subs() == old(self).subs(),
    {
        proof { self.lemma_wf_view(); }
        match self.find(id) {
            Some(i) => {
                let (sid, pending) = self.slots[i];
                if pending == 0 {
                    return false;
                }
                let ghost before = self.subs();
                self.slots.set(i, (sid, pending - 1));
                assert(self.subs() =~= before.update(i as int, (id, (before[i as int].1 - 1) as nat)));
                true
            },
            None => false,
        }
    }

    /// The number of signals buffered for subscriber `id`, if it is live.
    pub fn pending(&self, id: u64) -> (r: Option<u64>)
        requires
            self.wf(),
        ensures
            match r {
                Some(n) => exists|i: int| 0 <= i < self.subs().len() && self.subs()[i] == (id, n as nat),
                None => !has_id(self.subs(), id),
            },
    {
        match self.find(id) {
            Some(i) => Some(self.slots[i].1),
            None => None,
        }
    }
}

/// After `n` publishes, a subscriber holds `min(pending + n, capacity)`
/// signals: every publish reaches every live subscriber, up to its buffer.
pub proof fn lemma_publishes_accumulate(s: Seq<Slot>, capacity: nat, n: nat, i: int)
    requires
        0 <= i < s.len(),
        s[i].1 <= capacity,
    ensures
        published_n(s, capacity, n).len() == s.len(),
        published_n(s, capacity, n)[i] == (s[i].0, min_nat(s[i].1 + n, capacity)),
    decreases n,
{
    if n > 0 {
        lemma_publishes_accumulate(s, capacity, (n - 1) as nat, i);
    }
}

/// A new subscriber that sees two publishes holds exactly two signals when
/// its buffer has room for them, and at least one when it has not.
pub proof fn lemma_two_publishes_reach_subscriber(s: Seq<Slot>, capacity: nat, i: int)
    requires
        0 <= i < s.len(),
        s[i].1 == 0,
        capacity >= 1,
    ensures
        capacity >= 2 ==> published(published(s, capacity), capacity)[i].1 == 2,
        published(published(s, capacity), capacity)[i].1 >= 1,
{
    lemma_publishes_accumulate(s, capacity, 2, i);
    assert(published_n(s, capacity, 0) == s);
    assert(published_n(s, capacity, 1) == published(s, capacity));
}

/// After a subscriber disconnects, no slot holds it, the count drops by
/// one, and later publishes neither fail nor bring it back.
pub proof fn lemma_disconnected_is_released(s: Seq<Slot>, capacity: nat, id: u64, i: int)
    requires
        0 <= i < s.len(),
        s[i].0 == id,
        forall|a: int, b: int| 0 <= a < b < s.len() ==> (#[trigger] s[a]).0 != (#[trigger] s[b]).0,
    ensures
        s.remove(i).len() == s.len() - 1,
        !has_id(s.remove(i), id),
        !has_id(published(s.remove(i), capacity), id),
        published(s.remove(i), capacity).len() == s.len() - 1,
{
    let t = s.remove(i);
    assert(!has_id(t, id)) by {
        if has_id(t, id) {
            let k = choose|k: int| 0 <= k < t.len() && t[k].0 == id;
            if k < i {
                assert(t[k] == s[k]);
            } else {
                assert(t[k] == s[k + 1]);
            }
        }
    }
    assert(!has_id(published(t, capacity), id)) by {
        if has_id(published(t, capacity), id) {
            let k = choose|k: int| 0 <= k < t.len() && published(t, capacity)[k].0 == id;
            assert(t[k].0 == id);
        }
    }
}

} // verus!
