//! Reduction of one process's timestamp stream to frametimes.
use vstd::prelude::*;

verus! {

/// Difference of two timestamps, clamped at zero when the clock went backwards.
pub open spec fn elapsed(previous: u64, current: u64) -> u64 {
    if current >= previous {
        (current - previous) as u64
    } else {
        0
    }
}

/// What one observation yields, given the stored baseline.
pub open spec fn frametime_after(baseline: Option<u64>, timestamp: u64) -> Option<u64> {
    match baseline {
        None => None,
        Some(previous) => Some(elapsed(previous, timestamp)),
    }
}

/// The frametimes emitted when `timestamps` are observed one after another,
/// starting from `baseline`.
pub open spec fn emitted(baseline: Option<u64>, timestamps: Seq<u64>) -> Seq<u64>
    decreases timestamps.len(),
{
    if timestamps.len() == 0 {
        Seq::empty()
    } else {
        let head = timestamps[0];
        let rest = emitted(Some(head), timestamps.drop_first());
        match frametime_after(baseline, head) {
            None => rest,
            Some(t) => seq![t].add(rest),
        }
    }
}

/// Timestamps that never go backwards.
pub open spec fn non_decreasing(timestamps: Seq<u64>) -> bool {
    forall|i: int| 0 <= i < timestamps.len() - 1 ==> #[trigger] timestamps[i] <= timestamps[i + 1]
}

/// Reduction state of one monitored process: the last timestamp seen, if any.
#[derive(Clone, Copy, Debug, PartialEq, Eq)]
pub struct FrameState {
    pub last: Option<u64>,
}

impl FrameState {
    /// A state that has observed nothing yet.
    pub fn new() -> (r: FrameState)
        ensures
            r.last.is_none(),
    {
        FrameState { last: None }
    }

    /// Observes one timestamp: yields the time since the previous one, if
    /// there was one, and makes the new timestamp the baseline.
    pub fn update(&mut self, timestamp: u64) -> (r: Option<u64>)
        ensures
            r == frametime_after(old(self).last, timestamp),
            final(self).last == Some(timestamp),
    {
        let r = match self.last {
            None => None,
            Some(previous) => {
                if timestamp >= previous {
                    Some(timestamp - previous)
                } else {
                    Some(0)
                }
            },
        };
        self.last = Some(timestamp);
        r
    }
}

/// A fresh frame state yields no frametime for its first observation.
pub proof fn lemma_first_observation_is_silent(timestamp: u64)
    ensures
        frametime_after(None, timestamp).is_none(),
{
}

/// Observing `n >= 2` non-decreasing timestamps from a fresh state emits
/// exactly `n - 1` frametimes, the differences of consecutive timestamps.
pub proof fn lemma_frametimes_of_sequence(timestamps: Seq<u64>)
    requires
        timestamps.len() >= 2,
        non_decreasing(timestamps),
    ensures
        emitted(None, timestamps).len() == timestamps.len() - 1,
        forall|i: int|
            0 <= i < timestamps.len() - 1 ==> #[trigger] emitted(None, timestamps)[i] == timestamps[i
                + 1] - timestamps[i],
{
    lemma_emitted_from_baseline(timestamps.drop_first(), timestamps[0]);
    assert(emitted(None, timestamps) == emitted(Some(timestamps[0]), timestamps.drop_first()));
}

/// From a baseline no later than the first timestamp, every observation
/// emits the difference to its predecessor.
proof fn lemma_emitted_from_baseline(timestamps: Seq<u64>, baseline: u64)
    requires
        non_decreasing(timestamps),
        timestamps.len() > 0 ==> baseline <= timestamps[0],
    ensures
        emitted(Some(baseline), timestamps).len() == timestamps.len(),
        timestamps.len() > 0 ==> emitted(Some(baseline), timestamps)[0] == timestamps[0] - baseline,
        forall|i: int|
            0 < i < timestamps.len() ==> #[trigger] emitted(Some(baseline), timestamps)[i]
                == timestamps[i] - timestamps[i - 1],
    decreases timestamps.len(),
{
    if timestamps.len() > 0 {
        let rest = timestamps.drop_first();
        assert(non_decreasing(rest)) by {
            assert forall|i: int| 0 <= i < rest.len() - 1 implies #[trigger] rest[i] <= rest[i + 1] by {
                assert(timestamps[i + 1] <= timestamps[i + 2]);
            }
        }
        if rest.len() > 0 {
            assert(timestamps[0] <= timestamps[1]);
        }
        lemma_emitted_from_baseline(rest, timestamps[0]);
        let e = emitted(Some(baseline), timestamps);
        assert(e == seq![(timestamps[0] - baseline) as u64].add(emitted(Some(timestamps[0]), rest)));
        assert forall|i: int| 0 < i < timestamps.len() implies #[trigger] e[i] == timestamps[i]
            - timestamps[i - 1] by {
            assert(e[i] == emitted(Some(timestamps[0]), rest)[i - 1]);
            if i > 1 {
                assert(rest[i - 1] - rest[i - 2] == timestamps[i] - timestamps[i - 1]);
            }
        }
    }
}

} // verus!
