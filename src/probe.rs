//! What the kernel probe does on each call of the instrumented function,
//! as a total function of what it observed.
use vstd::prelude::*;

use crate::record::EventRecord;

verus! {

/// Why the probe dropped an event.
#[derive(Clone, Copy, Debug, PartialEq, Eq)]
pub enum ProbeFault {
    /// The function's first argument could not be read.
    ArgumentUnreadable,
    /// No slot was free in the ring buffer.
    BufferFull,
}

/// The result of one probe invocation.
#[derive(Clone, Copy, Debug, PartialEq, Eq)]
pub enum ProbeOutcome {
    /// The record was written and committed to the ring buffer.
    Submitted(EventRecord),
    /// Nothing was written.
    Dropped(ProbeFault),
}

/// What one invocation yields: the argument is read first, then a slot is
/// reserved, then the record is written with the timestamp.
pub open spec fn probe_spec(arg0: Option<usize>, slot_reserved: bool, ktime_ns: u64) -> ProbeOutcome {
    match arg0 {
        None => ProbeOutcome::Dropped(ProbeFault::ArgumentUnreadable),
        Some(a) => if slot_reserved {
            ProbeOutcome::Submitted(EventRecord { timestamp_ns: ktime_ns, arg0: a })
        } else {
            ProbeOutcome::Dropped(ProbeFault::BufferFull)
        },
    }
}

/// The status code the probe returns to the kernel.
pub open spec fn status_spec(outcome: ProbeOutcome) -> u32 {
    match outcome {
        ProbeOutcome::Submitted(_) => 0,
        ProbeOutcome::Dropped(ProbeFault::ArgumentUnreadable) => 1,
        ProbeOutcome::Dropped(ProbeFault::BufferFull) => 2,
    }
}

/// Decides one probe invocation from the argument read (`None` when it
/// failed), whether a ring-buffer slot was reserved, and the kernel clock.
pub fn try_frame_analyzer_ebpf(arg0: Option<usize>, slot_reserved: bool, ktime_ns: u64) -> (r: ProbeOutcome)
    ensures
        r == probe_spec(arg0, slot_reserved, ktime_ns),
{
    match arg0 {
        None => ProbeOutcome::Dropped(ProbeFault::ArgumentUnreadable),
        Some(a) => {
            if slot_reserved {
                ProbeOutcome::Submitted(EventRecord { timestamp_ns: ktime_ns, arg0: a })
            } else {
                ProbeOutcome::Dropped(ProbeFault::BufferFull)
            }
        },
    }
}

/// The status code of an invocation: zero when the record was submitted,
/// a distinct non-zero code for each reason to drop it.
pub fn frame_analyzer_ebpf(outcome: &ProbeOutcome) -> (r: u32)
    ensures
        r == status_spec(*outcome),
{
    match outcome {
        ProbeOutcome::Submitted(_) => 0,
        ProbeOutcome::Dropped(ProbeFault::ArgumentUnreadable) => 1,
        ProbeOutcome::Dropped(ProbeFault::BufferFull) => 2,
    }
}

} // verus!
