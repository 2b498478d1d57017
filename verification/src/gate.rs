//! The flush gate: one shared timestamp that decides when a flush fires.
//!
//! Every recognised write checks it; a check claims a flush exactly when more than
//! one interval has passed since the last claim, and records the claim
//! before the flush's I/O runs. Under concurrent callers the surrounding
//! lock serialises the check, and the double-checked discipline of the
//! callers reduces to the sequential behaviour verified here: once a claim
//! succeeds, every further check inside the same interval window sees the
//! fresh timestamp and stands down.

use vstd::prelude::*;

verus! {

/// Whether a check at time `now` claims a flush against a gate whose last
/// claim was at `last` with the given `interval`: true exactly when more
/// than `interval` time units have passed. Times that do not move forward
/// (`now <= last`) never claim.
pub open spec fn gate_claims(last: u64, interval: u64, now: u64) -> bool {
    now - last > interval
}

/// The result of folding a run of gate checks, oldest first, over a gate
/// state: the final `last claim` timestamp and how many checks claimed.
pub open spec fn gate_run(last: u64, interval: u64, times: Seq<u64>) -> (u64, nat)
    decreases times.len(),
{
    if times.len() == 0 {
        (last, 0)
    } else if gate_claims(last, interval, times.first()) {
        let rest = gate_run(times.first(), interval, times.drop_first());
        (rest.0, rest.1 + 1)
    } else {
        gate_run(last, interval, times.drop_first())
    }
}

/// The timestamp-guarded gate. One per store, shared by every sensor key.
pub struct FlushGate {
    last_flush: u64,
    interval: u64,
}

impl FlushGate {
    /// The time of the most recent claim (or of construction).
    pub closed spec fn last(self) -> u64 {
        self.last_flush
    }

    /// The configured flush interval, in the same time unit as the
    /// timestamps handed to `should_flush_and_claim`.
    pub closed spec fn interval(self) -> u64 {
        self.interval
    }

    /// A fresh gate: no flush is owed until `interval` has passed from `now`.
    pub fn new(interval: u64, now: u64) -> (g: FlushGate)
        ensures
            g.last() == now,
            g.interval() == interval,
    {
        FlushGate { last_flush: now, interval }
    }

    /// The flush gate's sole mutation entry point: decides whether a flush is due
    /// at `now` and, if so, claims it by recording `now` before returning,
    /// so that later checks within the same window stand down.
    pub fn should_flush_and_claim(&mut self, now: u64) -> (claimed: bool)
        ensures
            claimed == gate_claims(old(self).last(), old(self).interval(), now),
            final(self).interval() == old(self).interval(),
            claimed ==> final(self).last() == now,
            !claimed ==> final(self).last() == old(self).last(),
    {
        if now > self.last_flush && now - self.last_flush > self.interval {
            self.last_flush = now;
            true
        } else {
            false
        }
    }
}

/// A run of checks none of which falls outside the window of the last
/// claim leaves the flush gate untouched and claims nothing.
pub proof fn lemma_gate_quiet_window(last: u64, interval: u64, times: Seq<u64>)
    requires
        forall|i: int| 0 <= i < times.len() ==> !gate_claims(last, interval, times[i]),
    ensures
        gate_run(last, interval, times) == (last, 0nat),
    decreases times.len(),
{
    if times.len() > 0 {
        lemma_gate_quiet_window(last, interval, times.drop_first());
    }
}

/// At most one claim per interval window: over a run of checks, oldest
/// first, whose first check claims and whose remaining checks all lie
/// within one interval of that first check, exactly the first claims, and
/// the flush gate afterwards records the first check's time.
pub proof fn lemma_gate_claims_once(last: u64, interval: u64, times: Seq<u64>)
    requires
        times.len() > 0,
        gate_claims(last, interval, times.first()),
        forall|i: int| 0 < i < times.len() ==> times.first() <= #[trigger] times[i],
        forall|i: int| 0 < i < times.len() ==> #[trigger] times[i] - times.first() <= interval,
    ensures
        gate_run(last, interval, times) == (times.first(), 1nat),
{
    assert forall|i: int| 0 <= i < times.drop_first().len() implies !gate_claims(
        times.first(),
        interval,
        times.drop_first()[i],
    ) by {
        assert(times.drop_first()[i] == times[i + 1]);
    }
    lemma_gate_quiet_window(times.first(), interval, times.drop_first());
}

/// Runs compose: checking one run after another claims the sum of what
/// each run claims, the second run starting from the first one's final
/// timestamp.
/// With `lemma_gate_claims_once` this gives the full cadence: one claim in
/// the first window, and once the interval has elapsed, exactly one more.
pub proof fn lemma_gate_run_concat(last: u64, interval: u64, t1: Seq<u64>, t2: Seq<u64>)
    ensures
        gate_run(last, interval, t1 + t2).0 == gate_run(
            gate_run(last, interval, t1).0,
            interval,
            t2,
        ).0,
        gate_run(last, interval, t1 + t2).1 == gate_run(last, interval, t1).1 + gate_run(
            gate_run(last, interval, t1).0,
            interval,
            t2,
        ).1,
    decreases t1.len(),
{
    if t1.len() == 0 {
        assert(t1 + t2 =~= t2);
    } else {
        assert((t1 + t2).first() == t1.first());
        assert((t1 + t2).drop_first() =~= t1.drop_first() + t2);
        if gate_claims(last, interval, t1.first()) {
            lemma_gate_run_concat(t1.first(), interval, t1.drop_first(), t2);
        } else {
            lemma_gate_run_concat(last, interval, t1.drop_first(), t2);
        }
    }
}

/// The full cadence over two windows: a run of checks within one interval
/// window claims exactly once, and a further run, begun once the interval
/// has elapsed again and itself confined to one window, claims exactly
/// once more.
pub proof fn lemma_gate_two_windows(last: u64, interval: u64, t1: Seq<u64>, t2: Seq<u64>)
    requires
        t1.len() > 0,
        gate_claims(last, interval, t1.first()),
        forall|i: int| 0 < i < t1.len() ==> t1.first() <= #[trigger] t1[i],
        forall|i: int| 0 < i < t1.len() ==> #[trigger] t1[i] - t1.first() <= interval,
        t2.len() > 0,
        gate_claims(t1.first(), interval, t2.first()),
        forall|i: int| 0 < i < t2.len() ==> t2.first() <= #[trigger] t2[i],
        forall|i: int| 0 < i < t2.len() ==> #[trigger] t2[i] - t2.first() <= interval,
    ensures
        gate_run(last, interval, t1 + t2).1 == 2,
{
    lemma_gate_claims_once(last, interval, t1);
    lemma_gate_claims_once(t1.first(), interval, t2);
    lemma_gate_run_concat(last, interval, t1, t2);
}

} // verus!
