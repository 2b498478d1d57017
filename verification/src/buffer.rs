//! The per-sensor buffers of recent measurements.
//!
//! Two interchangeable designs bound the memory a sensor may use:
//! [`RingBuffer`] holds a fixed capacity and overwrites the entry written
//! longest ago, while [`PersistBuffer`] grows freely between flushes and is
//! compacted down to its most recent entry when a flush drains it.

use vstd::prelude::*;
use vstd::arithmetic::div_mod::{
    lemma_fundamental_div_mod, lemma_mod_bound, lemma_mod_multiples_vanish, lemma_small_mod,
};
use crate::measurement::Measurement;

verus! {

/// The contents of a capacity-`cap` ring after the given pushes, in storage
/// order: while the ring is not yet full a push appends, and once it is
/// full a push overwrites the slot written longest ago, the write cursor
/// advancing cyclically.
pub open spec fn ring_contents(cap: nat, pushes: Seq<Measurement>) -> Seq<Measurement>
    decreases pushes.len(),
{
    if pushes.len() == 0 {
        Seq::empty()
    } else {
        let prev = ring_contents(cap, pushes.drop_last());
        if prev.len() < cap {
            prev.push(pushes.last())
        } else {
            prev.update((pushes.len() - 1) as int % (cap as int), pushes.last())
        }
    }
}

/// A fixed-capacity, insertion-ordered buffer with overwrite-oldest
/// eviction. Storage order is not chronological once the ring has wrapped;
/// consumers must not assume sorted output.
pub struct RingBuffer {
    data: Vec<Measurement>,
    capacity: usize,
    cursor: usize,
    pushes: Ghost<Seq<Measurement>>,
}

impl RingBuffer {
    /// The current contents, in storage order.
    pub closed spec fn view(&self) -> Seq<Measurement> {
        self.data@
    }

    /// The configured capacity.
    pub closed spec fn cap(&self) -> nat {
        self.capacity as nat
    }

    /// Every measurement ever pushed, oldest first.
    pub closed spec fn pushes(&self) -> Seq<Measurement> {
        self.pushes@
    }

    /// The buffer's internal consistency: the stored contents are exactly
    /// what the push history dictates, and the write cursor tracks it.
    pub closed spec fn wf(&self) -> bool {
        &&& self.capacity > 0
        &&& self.data@ == ring_contents(self.cap(), self.pushes@)
        &&& self.data@.len() == if self.pushes@.len() < self.cap() {
            self.pushes@.len()
        } else {
            self.cap()
        }
        &&& self.cursor == self.pushes@.len() % self.cap()
    }

    /// What internal consistency gives a caller: the capacity is positive,
    /// and the contents never exceed it — they number exactly the pushes
    /// made, capped at the capacity.
    pub proof fn lemma_wf(&self)
        requires
            self.wf(),
        ensures
            self.cap() > 0,
            self@.len() == if self.pushes().len() < self.cap() {
                self.pushes().len()
            } else {
                self.cap()
            },
            self@.len() <= self.cap(),
    {
    }

    /// An empty ring of the given capacity.
    pub fn new(capacity: usize) -> (b: RingBuffer)
        requires
            capacity > 0,
        ensures
            b.wf(),
            b.cap() == capacity,
            b.pushes() == Seq::<Measurement>::empty(),
            b@ == Seq::<Measurement>::empty(),
    {
        RingBuffer {
            data: Vec::with_capacity(capacity),
            capacity,
            cursor: 0,
            pushes: Ghost(Seq::empty()),
        }
    }

    /// Inserts at the next cyclic position, overwriting the entry written
    /// longest ago once the ring is at capacity. Never fails.
    pub fn push(&mut self, m: Measurement)
        requires
            old(self).wf(),
        ensures
            final(self).wf(),
            final(self).cap() == old(self).cap(),
            final(self).pushes() == old(self).pushes().push(m),
            final(self)@ == ring_contents(final(self).cap(), final(self).pushes()),
    {
        proof {
            lemma_mod_step(self.pushes@.len() as int, self.capacity as int);
        }
        if self.data.len() < self.capacity {
            self.data.push(m);
        } else {
            self.data[self.cursor] = m;
        }
        self.cursor = if self.cursor + 1 == self.capacity {
            0
        } else {
            self.cursor + 1
        };
        proof {
            self.pushes@ = self.pushes@.push(m);
            assert(self.pushes@.drop_last() =~= old(self).pushes@);
        }
    }

    /// A copy of the current contents in storage order.
    pub fn snapshot(&self) -> (r: Vec<Measurement>)
        requires
            self.wf(),
        ensures
            r@ == self@,
            self@ == ring_contents(self.cap(), self.pushes()),
    {
        let mut r: Vec<Measurement> = Vec::with_capacity(self.data.len());
        let mut i: usize = 0;
        while i < self.data.len()
            invariant
                i <= self.data@.len(),
                r@ == self.data@.subrange(0, i as int),
            decreases self.data@.len() - i,
        {
            r.push(self.data[i]);
            assert(r@ =~= self.data@.subrange(0, i + 1));
            i = i + 1;
        }
        assert(r@ =~= self.data@);
        r
    }

    /// The number of measurements currently held.
    pub fn len(&self) -> (n: usize)
        ensures
            n == self@.len(),
    {
        self.data.len()
    }
}

/// How `(h + 1) % c` steps from `h % c`: it advances by one and wraps to
/// zero at `c`.
proof fn lemma_mod_step(h: int, c: int)
    requires
        h >= 0,
        c > 0,
    ensures
        0 <= h % c < c,
        (h + 1) % c == if h % c + 1 == c { 0int } else { h % c + 1 },
{
    lemma_mod_bound(h, c);
    lemma_fundamental_div_mod(h, c);
    if h % c + 1 == c {
        assert(h + 1 == c * (h / c + 1) + 0) by (nonlinear_arith)
            requires
                h == c * (h / c) + h % c,
                h % c + 1 == c,
        ;
        lemma_mod_multiples_vanish(h / c + 1, 0, c);
        lemma_small_mod(0, c as nat);
        assert((h + 1) % c == 0);
    } else {
        assert(h + 1 == c * (h / c) + (h % c + 1));
        lemma_mod_multiples_vanish(h / c, h % c + 1, c);
        lemma_small_mod((h % c + 1) as nat, c as nat);
        assert((h + 1) % c == h % c + 1);
    }
}

/// The push that slot `i` of a full capacity-`cap` ring holds after `len`
/// pushes: the most recent push whose position, counted cyclically, was `i`.
spec fn ring_source(len: int, cap: int, i: int) -> int {
    if i < len % cap {
        len - len % cap + i
    } else {
        len - len % cap - cap + i
    }
}

/// Pointwise description of a full ring: slot `i` holds the latest push
/// that landed on it.
proof fn lemma_ring_slots(cap: nat, pushes: Seq<Measurement>)
    requires
        cap > 0,
        pushes.len() >= cap,
    ensures
        ring_contents(cap, pushes).len() == cap,
        forall|i: int|
            0 <= i < cap ==> {
                &&& 0 <= #[trigger] ring_source(pushes.len() as int, cap as int, i) < pushes.len()
                &&& ring_contents(cap, pushes)[i] == pushes[ring_source(
                    pushes.len() as int,
                    cap as int,
                    i,
                )]
            },
    decreases pushes.len(),
{
    let len = pushes.len() as int;
    let c = cap as int;
    lemma_ring_contents_len(cap, pushes);
    lemma_mod_step(len - 1, c);
    if pushes.len() == cap {
        lemma_ring_contents_full(cap, pushes);
        assert(len % c == 0) by {
            lemma_mod_step_to_zero(len, c);
        }
        assert forall|i: int| 0 <= i < cap implies {
            &&& 0 <= #[trigger] ring_source(len, c, i) < len
            &&& ring_contents(cap, pushes)[i] == pushes[ring_source(len, c, i)]
        } by {
            assert(ring_source(len, c, i) == i);
        }
    } else {
        let prev = pushes.drop_last();
        lemma_ring_slots(cap, prev);
        lemma_ring_contents_len(cap, prev);
        let j = (len - 1) % c;
        assert forall|i: int| 0 <= i < cap implies {
            &&& 0 <= #[trigger] ring_source(len, c, i) < len
            &&& ring_contents(cap, pushes)[i] == pushes[ring_source(len, c, i)]
        } by {
            if i == j {
                assert(ring_source(len, c, i) == len - 1);
            } else {
                assert(ring_source(len - 1, c, i) == ring_source(len, c, i));
                assert(ring_contents(cap, pushes)[i] == ring_contents(cap, prev)[i]);
                assert(prev[ring_source(len - 1, c, i)] == pushes[ring_source(len - 1, c, i)]);
            }
        }
    }
}

/// `len % cap == 0` when `(len - 1) % cap` is the last slot.
proof fn lemma_mod_step_to_zero(len: int, c: int)
    requires
        c > 0,
        len == c,
    ensures
        len % c == 0,
{
    lemma_mod_multiples_vanish(1, 0, c);
    lemma_small_mod(0, c as nat);
}

/// While the ring has not yet wrapped, its contents are the pushes
/// themselves, in order.
pub proof fn lemma_ring_contents_full(cap: nat, pushes: Seq<Measurement>)
    requires
        pushes.len() <= cap,
    ensures
        ring_contents(cap, pushes) == pushes,
    decreases pushes.len(),
{
    if pushes.len() > 0 {
        lemma_ring_contents_full(cap, pushes.drop_last());
        lemma_ring_contents_len(cap, pushes.drop_last());
        assert(ring_contents(cap, pushes) =~= pushes);
    } else {
        assert(ring_contents(cap, pushes) =~= pushes);
    }
}

/// A ring never reports more elements than its capacity: the length of the
/// contents is the number of pushes, capped at `cap`.
pub proof fn lemma_ring_contents_len(cap: nat, pushes: Seq<Measurement>)
    requires
        cap > 0,
    ensures
        ring_contents(cap, pushes).len() == if pushes.len() < cap {
            pushes.len()
        } else {
            cap
        },
    decreases pushes.len(),
{
    if pushes.len() > 0 {
        lemma_ring_contents_len(cap, pushes.drop_last());
        let prev = ring_contents(cap, pushes.drop_last());
        if prev.len() >= cap {
            lemma_mod_bound((pushes.len() - 1) as int, cap as int);
        }
    }
}

/// The fixed-size bound, order-independent: once at least `cap` values have
/// been pushed, the ring holds exactly `cap` elements, and they are exactly
/// the last `cap` pushed values, counted with multiplicity, in some storage
/// order. (Until then it holds exactly all pushes, by
/// `lemma_ring_contents_full`.)
pub proof fn lemma_ring_keeps_last(cap: nat, pushes: Seq<Measurement>)
    requires
        cap > 0,
        pushes.len() >= cap,
    ensures
        ring_contents(cap, pushes).len() == cap,
        ring_contents(cap, pushes).to_multiset() == pushes.subrange(
            pushes.len() - cap,
            pushes.len() as int,
        ).to_multiset(),
    decreases pushes.len(),
{
    broadcast use vstd::seq_lib::group_to_multiset_ensures;

    let len = pushes.len() as int;
    let c = cap as int;
    lemma_ring_contents_len(cap, pushes);
    if pushes.len() == cap {
        lemma_ring_contents_full(cap, pushes);
        assert(pushes.subrange(0, len) =~= pushes);
    } else {
        let prev = pushes.drop_last();
        let j = (len - 1) % c;
        lemma_ring_keeps_last(cap, prev);
        lemma_ring_slots(cap, prev);
        lemma_mod_step(len - 1, c);
        // The slot being overwritten holds the push that falls out of the
        // window: the one `cap` places before the new push.
        assert(ring_source(len - 1, c, j) == len - 1 - c);
        let displaced = prev[len - 1 - c];
        let kept = pushes.subrange(len - c, len - 1);
        // Old window = displaced value, then the kept middle.
        assert(prev.subrange(len - 1 - c, len - 1) =~= seq![displaced] + kept);
        assert((seq![displaced] + kept).drop_first() =~= kept);
        assert((seq![displaced] + kept).remove(0) =~= kept);
        assert(ring_contents(cap, prev).to_multiset() == (seq![displaced]
            + kept).to_multiset());
        assert((seq![displaced] + kept).to_multiset() =~= kept.to_multiset().insert(displaced))
            by {
            assert((seq![displaced] + kept).to_multiset().remove(displaced)
                =~= kept.to_multiset());
        }
        // New window = the kept middle, then the new push.
        assert(pushes.subrange(len - c, len) =~= kept.push(pushes.last()));
        // Overwriting the displaced slot swaps the displaced value for the
        // new push.
        assert(ring_contents(cap, pushes) == ring_contents(cap, prev).update(j, pushes.last()));
        assert(ring_contents(cap, pushes).to_multiset() =~= pushes.subrange(len - c,
            len).to_multiset());
    }
}

/// An unbounded insertion-ordered buffer for the persisted deployment:
/// pushes append, and a flush captures everything while compacting the
/// buffer down to its most recent entry.
pub struct PersistBuffer {
    data: Vec<Measurement>,
}

impl PersistBuffer {
    /// The current contents, oldest first.
    pub closed spec fn view(&self) -> Seq<Measurement> {
        self.data@
    }

    /// An empty buffer. `capacity` is advisory pre-allocation only; it
    /// bounds nothing.
    pub fn new(capacity: usize) -> (b: PersistBuffer)
        ensures
            b@ == Seq::<Measurement>::empty(),
    {
        PersistBuffer { data: Vec::with_capacity(capacity) }
    }

    /// Appends unconditionally; growth between flushes is unbounded.
    pub fn push(&mut self, m: Measurement)
        ensures
            final(self)@ == old(self)@.push(m),
    {
        self.data.push(m);
    }

    /// A copy of the current contents, oldest first, with no side effect.
    pub fn snapshot(&self) -> (r: Vec<Measurement>)
        ensures
            r@ == self@,
    {
        let mut r: Vec<Measurement> = Vec::with_capacity(self.data.len());
        let mut i: usize = 0;
        while i < self.data.len()
            invariant
                i <= self.data@.len(),
                r@ == self.data@.subrange(0, i as int),
            decreases self.data@.len() - i,
        {
            r.push(self.data[i]);
            assert(r@ =~= self.data@.subrange(0, i + 1));
            i = i + 1;
        }
        assert(r@ =~= self.data@);
        r
    }

    /// Captures the full current contents and, when they are non-empty,
    /// compacts the buffer down to its most recent entry so that reads
    /// between flushes still see the latest value. An empty buffer is left
    /// empty and reports an empty capture.
    pub fn snapshot_and_compact(&mut self) -> (r: Vec<Measurement>)
        ensures
            r@ == old(self)@,
            old(self)@.len() == 0 ==> final(self)@ == old(self)@,
            old(self)@.len() > 0 ==> final(self)@ =~= seq![old(self)@.last()],
    {
        let r = self.snapshot();
        if self.data.len() > 0 {
            let last = self.data[self.data.len() - 1];
            self.data.clear();
            self.data.push(last);
        }
        r
    }

    /// The number of measurements currently held.
    pub fn len(&self) -> (n: usize)
        ensures
            n == self@.len(),
    {
        self.data.len()
    }
}

/// The state a buffer reaches when a run of pushes, oldest first, lands on
/// it with no flush in between.
pub open spec fn after_pushes(init: Seq<Measurement>, pushes: Seq<Measurement>) -> Seq<Measurement>
    decreases pushes.len(),
{
    if pushes.len() == 0 {
        init
    } else {
        after_pushes(init.push(pushes.first()), pushes.drop_first())
    }
}

/// Pushes with no flush in between are reported back exactly, in insertion
/// order: a run of pushes appends precisely itself, so a snapshot of a
/// buffer that started empty is the pushed values in arrival order.
pub proof fn lemma_pushes_in_insertion_order(init: Seq<Measurement>, pushes: Seq<Measurement>)
    ensures
        after_pushes(init, pushes) == init + pushes,
    decreases pushes.len(),
{
    if pushes.len() == 0 {
        assert(after_pushes(init, pushes) =~= init + pushes);
    } else {
        lemma_pushes_in_insertion_order(init.push(pushes.first()), pushes.drop_first());
        assert(init.push(pushes.first()) + pushes.drop_first() =~= init + pushes);
    }
}

} // verus!
