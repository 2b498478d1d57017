//! The store: sensor keys, their buffers, and the flush gate.
//!
//! One buffer per recognised sensor key, the set of keys fixed at startup;
//! one gate shared by all keys. A recognised write appends to its sensor's
//! buffer and checks the flush gate; a claimed check tells the caller a
//! flush is due. An unrecognised write is rejected with no side effect.
//! The flush drains and compacts every buffer and hands the captured
//! batches out as plain values — the durable-store I/O that consumes them,
//! and the historical range query described by [`SinceQuery`], run outside
//! this crate.

use vstd::prelude::*;
use crate::buffer::PersistBuffer;
use crate::gate::{gate_claims, FlushGate};
use crate::measurement::Measurement;

verus! {

/// The views of a run of keys: each key as its character sequence.
pub open spec fn keys_views(ks: Seq<String>) -> Seq<Seq<char>> {
    ks.map_values(|k: String| k@)
}

/// The position of the first key equal to `name`, or `-1` when no key
/// matches.
pub open spec fn key_index(kv: Seq<Seq<char>>, name: Seq<char>) -> int
    decreases kv.len(),
{
    if kv.len() == 0 {
        -1
    } else if kv.first() == name {
        0
    } else {
        let rest = key_index(kv.drop_first(), name);
        if rest < 0 {
            -1
        } else {
            rest + 1
        }
    }
}

/// What `key_index` finds: a position within bounds holding `name`, with
/// no earlier match — or `-1` exactly when `name` occurs nowhere.
pub proof fn lemma_key_index(kv: Seq<Seq<char>>, name: Seq<char>)
    ensures
        -1 <= key_index(kv, name) < kv.len(),
        key_index(kv, name) == -1 <==> (forall|j: int| 0 <= j < kv.len() ==> kv[j] != name),
        key_index(kv, name) >= 0 ==> kv[key_index(kv, name)] == name,
        key_index(kv, name) >= 0 ==> (forall|j: int| 0 <= j < key_index(kv, name) ==> kv[j]
            != name),
    decreases kv.len(),
{
    if kv.len() > 0 && kv.first() != name {
        lemma_key_index(kv.drop_first(), name);
        assert forall|j: int| 0 < j < kv.len() implies kv.drop_first()[j - 1] == kv[j] by {}
    }
}

/// Finds the buffer position for a sensor key.
fn find_key(keys: &Vec<String>, name: &String) -> (r: Option<usize>)
    ensures
        match r {
            Some(i) => key_index(keys_views(keys@), name@) == i as int,
            None => key_index(keys_views(keys@), name@) == -1,
        },
{
    proof {
        lemma_key_index(keys_views(keys@), name@);
    }
    let mut i: usize = 0;
    while i < keys.len()
        invariant
            i <= keys@.len(),
            forall|j: int| 0 <= j < i ==> keys_views(keys@)[j] != name@,
        decreases keys@.len() - i,
    {
        if keys[i] == *name {
            proof {
                assert(keys_views(keys@)[i as int] == name@);
                lemma_key_index(keys_views(keys@), name@);
            }
            return Some(i);
        }
        i = i + 1;
    }
    None
}

/// The outcome of one write: whether the sensor key was recognised, and
/// whether this write's gate check claimed the pending flush.
#[derive(Clone, Copy, Debug, PartialEq, Eq, Structural)]
pub struct UpdateOutcome {
    pub recognised: bool,
    pub flush_claimed: bool,
}

/// The historical range query a caller should run against the durable
/// collaborator: the collection named by the sensor key, filtered to
/// timestamps at or above `min_timestamp`.
pub struct SinceQuery {
    pub collection: String,
    pub min_timestamp: u64,
}

/// One sensor's share of a flush: the key naming its durable collection
/// and the captured measurements to insert there.
pub struct FlushBatch {
    pub key: String,
    pub records: Vec<Measurement>,
}

/// The views of a run of flush batches.
pub open spec fn batch_views(s: Seq<FlushBatch>) -> Seq<(Seq<char>, Seq<Measurement>)> {
    s.map_values(|b: FlushBatch| (b.key@, b.records@))
}

/// What a flush captures: for each key in order, its buffer's contents,
/// with the empty buffers left out.
pub open spec fn drained(kv: Seq<Seq<char>>, bufs: Seq<Seq<Measurement>>) -> Seq<
    (Seq<char>, Seq<Measurement>),
>
    decreases kv.len(),
{
    if kv.len() == 0 || bufs.len() == 0 {
        Seq::empty()
    } else {
        let rest = drained(kv.drop_last(), bufs.drop_last());
        if bufs.last().len() == 0 {
            rest
        } else {
            rest.push((kv.last(), bufs.last()))
        }
    }
}

/// The buffered measurement store.
pub struct TempState {
    keys: Vec<String>,
    buffers: Vec<PersistBuffer>,
    gate: FlushGate,
}

impl TempState {
    /// The recognised sensor keys, in buffer order.
    pub closed spec fn keys_view(&self) -> Seq<Seq<char>> {
        keys_views(self.keys@)
    }

    /// The buffers' contents, in key order.
    pub closed spec fn buffers_view(&self) -> Seq<Seq<Measurement>> {
        self.buffers@.map_values(|b: PersistBuffer| b@)
    }

    /// The flush gate's last claim time (in seconds).
    pub closed spec fn gate_last(&self) -> u64 {
        self.gate.last()
    }

    /// The configured flush interval (in seconds).
    pub closed spec fn gate_interval(&self) -> u64 {
        self.gate.interval()
    }

    /// Internal consistency: one buffer per key, keys pairwise distinct.
    pub closed spec fn wf(&self) -> bool {
        &&& self.keys@.len() == self.buffers@.len()
        &&& forall|i: int, j: int|
            0 <= i < j < self.keys@.len() ==> self.keys@[i]@ != self.keys@[j]@
    }

    /// Whether `name` is a recognised sensor key.
    pub open spec fn has_key(&self, name: Seq<char>) -> bool {
        key_index(self.keys_view(), name) >= 0
    }

    /// What internal consistency gives a caller: one buffer per key, and
    /// the keys pairwise distinct — so a fact at an index transfers between
    /// `keys_view` and `buffers_view`, and `persist` yields at most one
    /// batch per key.
    pub proof fn lemma_wf(&self)
        requires
            self.wf(),
        ensures
            self.keys_view().len() == self.buffers_view().len(),
            forall|i: int, j: int|
                0 <= i < j < self.keys_view().len() ==> self.keys_view()[i]
                    != self.keys_view()[j],
    {
        assert forall|i: int, j: int|
            0 <= i < j < self.keys_view().len() implies self.keys_view()[i]
            != self.keys_view()[j] by {
            assert(self.keys_view()[i] == self.keys@[i]@);
            assert(self.keys_view()[j] == self.keys@[j]@);
        }
    }

    /// Builds the store over the given sensor keys: one empty buffer per
    /// distinct key (a repeated key is folded into its first occurrence,
    /// as insertion into a mapping would), and a fresh gate whose first
    /// flush falls one `persist_interval` after `now_secs`. `max_records`
    /// is advisory pre-allocation per buffer.
    pub fn new(keys: Vec<String>, max_records: usize, persist_interval: u64, now_secs: u64) -> (s:
        TempState)
        ensures
            s.wf(),
            s.keys_view() == distinct_keys(keys_views(keys@)),
            s.buffers_view().len() == s.keys_view().len(),
            forall|i: int|
                0 <= i < s.buffers_view().len() ==> s.buffers_view()[i]
                    == Seq::<Measurement>::empty(),
            s.gate_last() == now_secs,
            s.gate_interval() == persist_interval,
    {
        let mut s = TempState {
            keys: Vec::new(),
            buffers: Vec::new(),
            gate: FlushGate::new(persist_interval, now_secs),
        };
        let mut i: usize = 0;
        while i < keys.len()
            invariant
                i <= keys@.len(),
                s.wf(),
                s.keys_view() == distinct_keys(keys_views(keys@.take(i as int))),
                s.buffers_view().len() == s.keys_view().len(),
                forall|j: int|
                    0 <= j < s.buffers_view().len() ==> s.buffers_view()[j]
                        == Seq::<Measurement>::empty(),
                s.gate_last() == now_secs,
                s.gate_interval() == persist_interval,
            decreases keys@.len() - i,
        {
            let k = keys[i].clone();
            let ghost prev_keys = s.keys_view();
            let ghost prev_bufs = s.buffers_view();
            proof {
                assert(keys_views(keys@.take(i + 1)).drop_last() =~= keys_views(
                    keys@.take(i as int),
                ));
                assert(keys_views(keys@.take(i + 1)).last() == keys@[i as int]@);
                lemma_key_index(prev_keys, k@);
            }
            match find_key(&s.keys, &k) {
                None => {
                    s.keys.push(k);
                    s.buffers.push(PersistBuffer::new(max_records));
                    proof {
                        assert(s.keys_view() =~= prev_keys.push(keys@[i as int]@));
                        assert(s.buffers_view() =~= prev_bufs.push(Seq::<Measurement>::empty()));
                        assert(!prev_keys.contains(keys@[i as int]@));
                        assert(s.keys_view() =~= distinct_keys(keys_views(keys@.take(i + 1))));
                        assert forall|a: int, b: int|
                            0 <= a < b < s.keys@.len() implies s.keys@[a]@ != s.keys@[b]@ by {
                            if b == s.keys@.len() - 1 {
                                assert(prev_keys[a] == s.keys@[a]@);
                            }
                        }
                    }
                },
                Some(_) => {
                    proof {
                        assert(prev_keys.contains(keys@[i as int]@));
                        assert(s.keys_view() =~= distinct_keys(keys_views(keys@.take(i + 1))));
                    }
                },
            }
            i = i + 1;
        }
        proof {
            assert(keys@.take(keys@.len() as int) =~= keys@);
        }
        s
    }

    /// Accepts one reading for `name` at wall-clock time `now_millis`: when
    /// the key is recognised, appends it to that sensor's buffer and runs
    /// the flush gate check at `now_millis / 1000` seconds. An unrecognised
    /// key is reported back with no side effect at all: no buffer changes
    /// and the flush gate is neither consulted nor moved.
    pub fn update(&mut self, name: &str, value: u16, now_millis: u64) -> (r: UpdateOutcome)
        requires
            old(self).wf(),
        ensures
            final(self).wf(),
            final(self).keys_view() == old(self).keys_view(),
            final(self).gate_interval() == old(self).gate_interval(),
            r.recognised == old(self).has_key(name@),
            r.recognised ==> final(self).buffers_view() == old(self).buffers_view().update(
                key_index(old(self).keys_view(), name@),
                old(self).buffers_view()[key_index(old(self).keys_view(), name@)].push(
                    Measurement { timestamp: now_millis, deci_deg_c: value },
                ),
            ),
            r.recognised ==> r.flush_claimed == gate_claims(
                old(self).gate_last(),
                old(self).gate_interval(),
                now_millis / 1000,
            ),
            r.flush_claimed ==> final(self).gate_last() == now_millis / 1000,
            !r.flush_claimed ==> final(self).gate_last() == old(self).gate_last(),
            !r.recognised ==> final(self).buffers_view() == old(self).buffers_view()
                && !r.flush_claimed && final(self).gate_last() == old(self).gate_last(),
    {
        proof {
            lemma_key_index(self.keys_view(), name@);
        }
        let name_owned: String = name.to_owned();
        match find_key(&self.keys, &name_owned) {
            Some(i) => {
                let flush_claimed = self.gate.should_flush_and_claim(now_millis / 1000);
                let m = Measurement::new(value, now_millis);
                self.buffers[i].push(m);
                proof {
                    assert(self.buffers_view() =~= old(self).buffers_view().update(
                        i as int,
                        old(self).buffers_view()[i as int].push(m),
                    ));
                }
                UpdateOutcome { recognised: true, flush_claimed }
            },
            None => UpdateOutcome { recognised: false, flush_claimed: false },
        }
    }

    /// The current in-memory snapshot for `name`, oldest first, with no
    /// side effect; nothing for an unrecognised key.
    pub fn get(&self, name: &str) -> (r: Option<Vec<Measurement>>)
        requires
            self.wf(),
        ensures
            r is Some <==> self.has_key(name@),
            r matches Some(v) ==> v@ == self.buffers_view()[key_index(self.keys_view(), name@)],
    {
        proof {
            lemma_key_index(self.keys_view(), name@);
        }
        let name_owned: String = name.to_owned();
        match find_key(&self.keys, &name_owned) {
            Some(i) => Some(self.buffers[i].snapshot()),
            None => None,
        }
    }

    /// The historical query for `name` from `timestamp` on: the range
    /// query the caller should run against the durable collaborator, or
    /// nothing for an unrecognised key — the collaborator is then never
    /// consulted.
    pub fn get_since(&self, name: &str, timestamp: u64) -> (r: Option<SinceQuery>)
        ensures
            r is Some <==> self.has_key(name@),
            r matches Some(q) ==> q.collection@ == name@ && q.min_timestamp == timestamp,
    {
        proof {
            lemma_key_index(self.keys_view(), name@);
        }
        let name_owned: String = name.to_owned();
        match find_key(&self.keys, &name_owned) {
            Some(_) => Some(
                SinceQuery { collection: name_owned, min_timestamp: timestamp },
            ),
            None => None,
        }
    }

    /// Drains every buffer for a flush: captures each non-empty buffer's
    /// contents as a batch for its key, compacts that buffer down to its
    /// most recent entry, and leaves empty buffers untouched and unbatched.
    /// The keys and the flush gate are unchanged.
    pub fn persist(&mut self) -> (r: Vec<FlushBatch>)
        requires
            old(self).wf(),
        ensures
            final(self).wf(),
            final(self).keys_view() == old(self).keys_view(),
            final(self).gate_last() == old(self).gate_last(),
            final(self).gate_interval() == old(self).gate_interval(),
            final(self).buffers_view().len() == old(self).buffers_view().len(),
            forall|i: int|
                0 <= i < old(self).buffers_view().len() && old(self).buffers_view()[i].len() == 0
                    ==> final(self).buffers_view()[i] == old(self).buffers_view()[i],
            forall|i: int|
                0 <= i < old(self).buffers_view().len() && old(self).buffers_view()[i].len() > 0
                    ==> final(self).buffers_view()[i] == seq![old(self).buffers_view()[i].last()],
            batch_views(r@) == drained(old(self).keys_view(), old(self).buffers_view()),
    {
        let mut r: Vec<FlushBatch> = Vec::new();
        let mut i: usize = 0;
        while i < self.buffers.len()
            invariant
                self.wf(),
                i <= self.buffers@.len(),
                self.keys@ == old(self).keys@,
                self.gate == old(self).gate,
                self.buffers@.len() == old(self).buffers@.len(),
                forall|j: int|
                    i <= j < self.buffers@.len() ==> self.buffers_view()[j] == old(
                        self,
                    ).buffers_view()[j],
                forall|j: int|
                    0 <= j < i && old(self).buffers_view()[j].len() == 0 ==> self.buffers_view()[j]
                        == old(self).buffers_view()[j],
                forall|j: int|
                    0 <= j < i && old(self).buffers_view()[j].len() > 0 ==> self.buffers_view()[j]
                        == seq![old(self).buffers_view()[j].last()],
                batch_views(r@) == drained(
                    old(self).keys_view().take(i as int),
                    old(self).buffers_view().take(i as int),
                ),
            decreases self.buffers@.len() - i,
        {
            let ghost prev_view = self.buffers_view();
            let snap = self.buffers[i].snapshot_and_compact();
            proof {
                assert forall|j: int|
                    0 <= j < self.buffers@.len() && j != i implies self.buffers_view()[j]
                    == prev_view[j] by {}
                assert(prev_view[i as int] == old(self).buffers_view()[i as int]);
                if prev_view[i as int].len() == 0 {
                    assert(self.buffers_view()[i as int] == prev_view[i as int]);
                } else {
                    assert(self.buffers_view()[i as int] =~= seq![prev_view[i as int].last()]);
                    assert(self.buffers_view()[i as int] == seq![old(self).buffers_view()[
                        i as int
                    ].last()]);
                }
                assert forall|j: int|
                    0 <= j <= i && old(self).buffers_view()[j].len() > 0 implies self
                    .buffers_view()[j] == seq![old(self).buffers_view()[j].last()] by {
                    if j < i {
                        assert(self.buffers_view()[j] == prev_view[j]);
                    }
                }
                assert(old(self).keys_view().take(i + 1).drop_last() =~= old(
                    self,
                ).keys_view().take(i as int));
                assert(old(self).buffers_view().take(i + 1).drop_last() =~= old(
                    self,
                ).buffers_view().take(i as int));
            }
            if snap.len() > 0 {
                let batch = FlushBatch { key: self.keys[i].clone(), records: snap };
                r.push(batch);
                proof {
                    assert(batch_views(r@) =~= drained(
                        old(self).keys_view().take(i + 1),
                        old(self).buffers_view().take(i + 1),
                    ));
                }
            } else {
                proof {
                    assert(batch_views(r@) =~= drained(
                        old(self).keys_view().take(i + 1),
                        old(self).buffers_view().take(i + 1),
                    ));
                }
            }
            i = i + 1;
        }
        proof {
            assert(old(self).keys_view().take(old(self).keys_view().len() as int) =~= old(
                self,
            ).keys_view());
            assert(old(self).buffers_view().take(old(self).buffers_view().len() as int) =~= old(
                self,
            ).buffers_view());
        }
        r
    }
}

/// The keys kept when repeats are folded into their first occurrence.
pub open spec fn distinct_keys(kv: Seq<Seq<char>>) -> Seq<Seq<char>>
    decreases kv.len(),
{
    if kv.len() == 0 {
        Seq::empty()
    } else {
        let rest = distinct_keys(kv.drop_last());
        if rest.contains(kv.last()) {
            rest
        } else {
            rest.push(kv.last())
        }
    }
}

/// Folding repeats loses no key and invents none: the distinct keys are
/// exactly the keys given. With `TempState::new`'s contract this says a
/// sensor is recognised precisely when it was configured at startup.
pub proof fn lemma_distinct_keys_contains(kv: Seq<Seq<char>>, name: Seq<char>)
    ensures
        distinct_keys(kv).contains(name) <==> kv.contains(name),
    decreases kv.len(),
{
    if kv.len() > 0 {
        let rest = distinct_keys(kv.drop_last());
        lemma_distinct_keys_contains(kv.drop_last(), name);
        assert(kv.contains(name) <==> (kv.drop_last().contains(name) || name == kv.last())) by {
            if kv.contains(name) {
                let i = choose|i: int| 0 <= i < kv.len() && kv[i] == name;
                if i < kv.len() - 1 {
                    assert(kv.drop_last()[i] == name);
                }
            }
            if kv.drop_last().contains(name) {
                let i = choose|i: int|
                    0 <= i < kv.drop_last().len() && kv.drop_last()[i] == name;
                assert(kv[i] == name);
            }
            assert(kv[kv.len() - 1] == kv.last());
        }
        if !rest.contains(kv.last()) {
            assert(rest.push(kv.last()).contains(name) <==> (rest.contains(name) || name
                == kv.last())) by {
                if rest.push(kv.last()).contains(name) {
                    let i = choose|i: int|
                        0 <= i < rest.push(kv.last()).len() && rest.push(kv.last())[i] == name;
                    if i < rest.len() {
                        assert(rest[i] == name);
                    }
                }
                if rest.contains(name) {
                    let i = choose|i: int| 0 <= i < rest.len() && rest[i] == name;
                    assert(rest.push(kv.last())[i] == name);
                }
                assert(rest.push(kv.last())[rest.len() as int] == kv.last());
            }
        }
    }
}

/// A key is recognised exactly when it stands among the store's keys.
pub proof fn lemma_has_key_is_membership(st: &TempState, name: Seq<char>)
    ensures
        st.has_key(name) <==> st.keys_view().contains(name),
{
    lemma_key_index(st.keys_view(), name);
}

} // verus!

