//! The collector: many monitored processes behind one receive queue.
use vstd::prelude::*;

use crate::error::AnalyzerError;
use crate::frame::{emitted, frametime_after, lemma_frametimes_of_sequence, non_decreasing, FrameState};
use crate::record::{decoded, EventRecord};
use crate::uprobe::UprobeHandler;

verus! {

/// What the analyzer knows of one monitored process.
pub struct ProcessView {
    /// The last timestamp observed, if any.
    pub last: Option<u64>,
    /// Frametimes computed and not yet handed out, oldest first.
    pub pending: Seq<u64>,
}

/// The state of a freshly monitored process.
pub open spec fn fresh_process() -> ProcessView {
    ProcessView { last: None, pending: Seq::empty() }
}

/// Records drained from one process's ring buffer per poll, at most.
pub const MAX_BATCH: usize = 4096;

/// The state after delivering `events`, each a pid and a timestamp, in order.
pub open spec fn deliver_all(v: AnalyzerView, events: Seq<(i32, u64)>) -> AnalyzerView
    decreases events.len(),
{
    if events.len() == 0 {
        v
    } else {
        let e = events.last();
        deliver_all(v, events.drop_last()).deliver(e.0, e.1)
    }
}

/// Holds of every pid but `pid`.
pub open spec fn other_than(pid: i32) -> spec_fn(i32) -> bool {
    |q: i32| q != pid
}

/// The abstract state of an analyzer: its processes and its ready queue.
pub struct AnalyzerView {
    pub procs: Map<i32, ProcessView>,
    /// Pids with at least one pending frametime, in delivery order.
    pub queue: Seq<i32>,
}

impl AnalyzerView {
    /// The queue holds each ready process exactly once, and nothing else.
    pub open spec fn inv(self) -> bool {
        &&& forall|i: int, j: int|
            0 <= i < j < self.queue.len() ==> self.queue[i] != self.queue[j]
        &&& forall|i: int|
            0 <= i < self.queue.len() ==> self.procs.contains_key(#[trigger] self.queue[i])
                && self.procs[self.queue[i]].pending.len() > 0
        &&& forall|p: i32|
            #[trigger] self.procs.contains_key(p) && self.procs[p].pending.len() > 0
                ==> self.queue.contains(p)
    }

    /// Starts monitoring `pid` with a fresh frame state; nothing changes if
    /// it is monitored already.
    pub open spec fn attach(self, pid: i32) -> AnalyzerView {
        if self.procs.contains_key(pid) {
            self
        } else {
            AnalyzerView { procs: self.procs.insert(pid, fresh_process()), queue: self.queue }
        }
    }

    /// Stops monitoring `pid` and forgets everything pending for it.
    pub open spec fn detach(self, pid: i32) -> AnalyzerView {
        AnalyzerView { procs: self.procs.remove(pid), queue: self.queue.filter(other_than(pid)) }
    }

    /// Routes one timestamp of `pid` into its frame state.
    pub open spec fn deliver(self, pid: i32, timestamp: u64) -> AnalyzerView {
        if !self.procs.contains_key(pid) {
            self
        } else {
            let p = self.procs[pid];
            match frametime_after(p.last, timestamp) {
                None => AnalyzerView {
                    procs: self.procs.insert(pid, ProcessView { last: Some(timestamp), pending: p.pending }),
                    queue: self.queue,
                },
                Some(t) => AnalyzerView {
                    procs: self.procs.insert(pid, ProcessView { last: Some(timestamp), pending: p.pending.push(t) }),
                    queue: if p.pending.len() > 0 { self.queue } else { self.queue.push(pid) },
                },
            }
        }
    }

    /// The frametime that the next receive hands out: the oldest pending one
    /// of the process at the head of the queue.
    pub open spec fn next_frame(self) -> Option<(i32, u64)> {
        if self.queue.len() == 0 {
            None
        } else {
            let pid = self.queue[0];
            Some((pid, self.procs[pid].pending[0]))
        }
    }

    /// The state after a receive: the head process loses its oldest pending
    /// frametime and goes to the back of the queue if it has more.
    pub open spec fn after_recv(self) -> AnalyzerView {
        if self.queue.len() == 0 {
            self
        } else {
            let pid = self.queue[0];
            let p = self.procs[pid];
            let rest = p.pending.drop_first();
            AnalyzerView {
                procs: self.procs.insert(pid, ProcessView { last: p.last, pending: rest }),
                queue: if rest.len() > 0 {
                    self.queue.drop_first().push(pid)
                } else {
                    self.queue.drop_first()
                },
            }
        }
    }
}

/// What a blocking receive does after one step.
#[derive(Clone, Copy, Debug, PartialEq, Eq)]
pub enum RecvStep {
    /// A frametime of this pid is handed to the caller.
    Deliver(i32, u64),
    /// New records were routed; the queue is to be looked at again.
    Polled,
    /// Nothing arrived; the caller waits for a ring buffer to have data.
    Wait,
    /// Nothing arrived and no time is left.
    GiveUp,
}

/// One monitored process: its probe handle, its frame state and the
/// frametimes computed for it and not yet handed out.
pub struct Monitored<H> {
    pub pid: i32,
    pub probe: H,
    pub frames: FrameState,
    pub pending: Vec<u64>,
}

impl<H> Monitored<H> {
    pub open spec fn view(&self) -> ProcessView {
        ProcessView { last: self.frames.last, pending: self.pending@ }
    }
}

/// Many monitored processes, each with its own probe handle of type `H`,
/// multiplexed through one round-robin receive queue.
pub struct Analyzer<H> {
    entries: Vec<Monitored<H>>,
    ready: Vec<i32>,
    procs: Ghost<Map<i32, ProcessView>>,
}

impl<H> Analyzer<H> {
    /// The abstract state.
    pub closed spec fn view(&self) -> AnalyzerView {
        AnalyzerView { procs: self.procs@, queue: self.ready@ }
    }

    /// The probe handles, one per monitored process.
    pub closed spec fn handles(&self) -> Seq<H> {
        self.entries@.map_values(|e: Monitored<H>| e.probe)
    }

    /// The probe handle of a monitored `pid`.
    pub closed spec fn handle_of(&self, pid: i32) -> H {
        self.entries@[choose|i: int| 0 <= i < self.entries@.len() && self.entries@[i].pid == pid].probe
    }

    /// A well-formed analyzer's abstract state keeps its invariant.
    pub proof fn lemma_wf_inv(&self)
        requires
            self.wf(),
        ensures
            self@.inv(),
    {
    }

    /// The concrete state agrees with the abstract one, which keeps its
    /// invariant.
    pub closed spec fn wf(&self) -> bool {
        &&& forall|i: int, j: int|
            0 <= i < j < self.entries@.len() ==> self.entries@[i].pid != self.entries@[j].pid
        &&& forall|i: int|
            0 <= i < self.entries@.len() ==> self.procs@.contains_key(#[trigger] self.entries@[i].pid)
                && self.procs@[self.entries@[i].pid] == self.entries@[i].view()
        &&& forall|p: i32|
            #[trigger] self.procs@.contains_key(p) ==> exists|i: int|
                0 <= i < self.entries@.len() && #[trigger] self.entries@[i].pid == p
        &&& self@.inv()
    }

    /// An analyzer that monitors nothing.
    pub fn new() -> (r: Self)
        ensures
            r.wf(),
            r@.procs == Map::<i32, ProcessView>::empty(),
            r@.queue == Seq::<i32>::empty(),
    {
        Analyzer { entries: Vec::new(), ready: Vec::new(), procs: Ghost(Map::empty()) }
    }

    /// The position of `pid` among the monitored processes.
    fn index_of(&self, pid: i32) -> (r: Option<usize>)
        requires
            self.wf(),
        ensures
            match r {
                Some(i) => i < self.entries@.len() && self.entries@[i as int].pid == pid,
                None => !self@.procs.contains_key(pid),
            },
    {
        let mut i: usize = 0;
        while i < self.entries.len()
            invariant
                i <= self.entries@.len(),
                forall|k: int| 0 <= k < i ==> self.entries@[k].pid != pid,
            decreases self.entries@.len() - i,
        {
            if self.entries[i].pid == pid {
                return Some(i);
            }
            i = i + 1;
        }
        None
    }

    /// Whether `pid` is monitored.
    pub fn contains(&self, pid: i32) -> (r: bool)
        requires
            self.wf(),
        ensures
            r == self@.procs.contains_key(pid),
    {
        match self.index_of(pid) {
            Some(i) => {
                assert(self.procs@.contains_key(self.entries@[i as int].pid));
                true
            },
            None => false,
        }
    }

    /// Decides an attach of `pid`, where `alive` tells whether the process
    /// exists at call time: `AppNotFound` when it does not, before anything
    /// is loaded; otherwise whether a probe still has to be attached (false
    /// when `pid` is monitored already).
    pub fn attach_plan(&self, pid: i32, alive: bool) -> (r: Result<bool, AnalyzerError>)
        requires
            self.wf(),
        ensures
            !alive ==> r matches Err(AnalyzerError::AppNotFound),
            alive ==> r == Ok::<bool, AnalyzerError>(!self@.procs.contains_key(pid)),
    {
        if !alive {
            return Err(AnalyzerError::AppNotFound);
        }
        Ok(!self.contains(pid))
    }

    /// The pids of all monitored processes, each once.
    pub fn pids(&self) -> (r: Vec<i32>)
        requires
            self.wf(),
        ensures
            forall|i: int, j: int| 0 <= i < j < r@.len() ==> r@[i] != r@[j],
            forall|i: int| 0 <= i < r@.len() ==> self@.procs.contains_key(#[trigger] r@[i]),
            forall|p: i32| self@.procs.contains_key(p) ==> r@.contains(p),
    {
        let mut r: Vec<i32> = Vec::new();
        let mut i: usize = 0;
        while i < self.entries.len()
            invariant
                i <= self.entries@.len(),
                r@.len() == i,
                forall|k: int| 0 <= k < i ==> r@[k] == self.entries@[k].pid,
            decreases self.entries@.len() - i,
        {
            r.push(self.entries[i].pid);
            i = i + 1;
        }
        assert forall|k: int| 0 <= k < r@.len() implies self@.procs.contains_key(#[trigger] r@[k]) by {
            assert(self.procs@.contains_key(self.entries@[k].pid));
        }
        assert forall|p: i32| self@.procs.contains_key(p) implies r@.contains(p) by {
            let k = choose|k: int| 0 <= k < self.entries@.len() && #[trigger] self.entries@[k].pid == p;
            assert(r@[k] == p);
        }
        r
    }

    /// The probe handle of `pid`, if it is monitored.
    pub fn probe(&self, pid: i32) -> (r: Option<&H>)
        requires
            self.wf(),
        ensures
            r.is_some() == self@.procs.contains_key(pid),
            r matches Some(h) ==> *h == self.handle_of(pid),
    {
        match self.index_of(pid) {
            Some(i) => {
                assert(self.procs@.contains_key(self.entries@[i as int].pid));
                let ghost j = choose|j: int| 0 <= j < self.entries@.len() && self.entries@[j].pid == pid;
                assert(j == i);
                Some(&self.entries[i].probe)
            },
            None => None,
        }
    }

    /// Starts monitoring `pid` through `probe`, with a fresh frame state.
    /// When `pid` is monitored already nothing changes, `probe` is dropped
    /// and the result is false.
    pub fn register(&mut self, pid: i32, probe: H) -> (r: bool)
        requires
            old(self).wf(),
        ensures
            final(self).wf(),
            r == !old(self)@.procs.contains_key(pid),
            final(self)@ == old(self)@.attach(pid),
    {
        if self.contains(pid) {
            return false;
        }
        let frames = FrameState::new();
        let pending: Vec<u64> = Vec::new();
        let entry = Monitored { pid, probe, frames, pending };
        assert(entry.view() == fresh_process());
        self.entries.push(entry);
        self.procs = Ghost(self.procs@.insert(pid, fresh_process()));
        proof {
            let e = self.entries@;
            assert forall|i: int| 0 <= i < e.len() implies self.procs@.contains_key(#[trigger] e[i].pid)
                && self.procs@[e[i].pid] == e[i].view() by {
                if i < e.len() - 1 {
                    assert(old(self).procs@.contains_key(old(self).entries@[i].pid));
                }
            }
            assert forall|p: i32| #[trigger] self.procs@.contains_key(p) implies exists|i: int|
                0 <= i < e.len() && #[trigger] e[i].pid == p by {
                if p == pid {
                    assert(e[e.len() - 1].pid == p);
                } else {
                    let k = choose|k: int| 0 <= k < old(self).entries@.len() && #[trigger] old(self).entries@[k].pid == p;
                    assert(e[k].pid == p);
                }
            }
            assert forall|p: i32| #[trigger] self@.procs.contains_key(p) && self@.procs[p].pending.len() > 0
                implies self@.queue.contains(p) by {
                assert(old(self)@.procs.contains_key(p));
            }
        }
        true
    }

    /// Routes one timestamp of `pid` into its frame state; a computed
    /// frametime becomes pending, and `pid` joins the back of the queue if
    /// it had nothing pending. Timestamps of unmonitored pids are ignored.
    pub fn deliver(&mut self, pid: i32, timestamp: u64)
        requires
            old(self).wf(),
        ensures
            final(self).wf(),
            final(self)@ == old(self)@.deliver(pid, timestamp),
            final(self).handles() == old(self).handles(),
    {
        match self.index_of(pid) {
            None => {},
            Some(i) => {
                assert(self.procs@.contains_key(self.entries@[i as int].pid));
                let had_pending = self.entries[i].pending.len() > 0;
                let t = self.entries[i].frames.update(timestamp);
                match t {
                    Some(ft) => {
                        self.entries[i].pending.push(ft);
                        if !had_pending {
                            self.ready.push(pid);
                        }
                    },
                    None => {},
                }
                self.procs = Ghost(self.procs@.insert(pid, self.entries@[i as int].view()));
                proof {
                    let e = self.entries@;
                    let oe = old(self).entries@;
                    assert(e.len() == oe.len());
                    assert forall|k: int| 0 <= k < e.len() && k != i implies #[trigger] e[k] == oe[k] by {}
                    assert forall|k: int| 0 <= k < e.len() implies self.procs@.contains_key(#[trigger] e[k].pid)
                        && self.procs@[e[k].pid] == e[k].view() by {
                        if k != i {
                            assert(e[k] == oe[k]);
                            assert(old(self).procs@.contains_key(oe[k].pid));
                        }
                    }
                    assert forall|p: i32| #[trigger] self.procs@.contains_key(p) implies exists|k: int|
                        0 <= k < e.len() && #[trigger] e[k].pid == p by {
                        if p == pid {
                            assert(e[i as int].pid == p);
                        } else {
                            let k = choose|k: int| 0 <= k < oe.len() && #[trigger] oe[k].pid == p;
                            assert(e[k].pid == p);
                        }
                    }
                    let ov = old(self)@;
                    let v = self@;
                    if !had_pending {
                        assert(!ov.queue.contains(pid));
                    }
                    assert forall|a: int, b: int| 0 <= a < b < v.queue.len() implies v.queue[a] != v.queue[b] by {
                        if b == ov.queue.len() {
                            assert(ov.queue[a] != pid);
                        }
                    }
                    assert forall|a: int| 0 <= a < v.queue.len() implies v.procs.contains_key(#[trigger] v.queue[a])
                        && v.procs[v.queue[a]].pending.len() > 0 by {
                        if a < ov.queue.len() {
                            assert(ov.procs.contains_key(ov.queue[a]));
                        }
                    }
                    assert forall|p: i32| #[trigger] v.procs.contains_key(p) && v.procs[p].pending.len() > 0
                        implies v.queue.contains(p) by {
                        if p == pid {
                            if !had_pending && t.is_some() {
                                assert(v.queue[v.queue.len() - 1] == pid);
                            } else if had_pending {
                                assert(ov.queue.contains(p));
                                let a = choose|a: int| 0 <= a < ov.queue.len() && ov.queue[a] == p;
                                assert(v.queue[a] == p);
                            }
                        } else {
                            assert(ov.procs.contains_key(p));
                            assert(ov.queue.contains(p));
                            let a = choose|a: int| 0 <= a < ov.queue.len() && ov.queue[a] == p;
                            assert(v.queue[a] == p);
                        }
                    }
                    assert(v == ov.deliver(pid, timestamp));
                    assert(self.handles() == old(self).handles()) by {
                        assert forall|k: int| 0 <= k < e.len() implies #[trigger] e[k].probe == oe[k].probe by {
                            if k != i {
                                assert(e[k] == oe[k]);
                            }
                        }
                    }
                }
            },
        }
    }
    /// Decodes one ring-buffer record of `pid` and routes its timestamp;
    /// a record of the wrong size is dropped and the result is false.
    pub fn deliver_bytes(&mut self, pid: i32, bytes: &[u8]) -> (r: bool)
        requires
            old(self).wf(),
        ensures
            final(self).wf(),
            r == decoded(bytes@).is_some(),
            final(self)@ == match decoded(bytes@) {
                Some(record) => old(self)@.deliver(pid, record.timestamp_ns),
                None => old(self)@,
            },
            final(self).handles() == old(self).handles(),
    {
        match EventRecord::decode(bytes) {
            Some(record) => {
                self.deliver(pid, record.timestamp_ns);
                true
            },
            None => false,
        }
    }

    /// Hands out the oldest pending frametime of the process at the head of
    /// the queue, without polling any source; `None` when nothing is
    /// pending. A process with more pending goes to the back of the queue.
    pub fn try_recv(&mut self) -> (r: Option<(i32, u64)>)
        requires
            old(self).wf(),
        ensures
            final(self).wf(),
            r == old(self)@.next_frame(),
            final(self)@ == old(self)@.after_recv(),
            final(self).handles() == old(self).handles(),
    {
        if self.ready.len() == 0 {
            return None;
        }
        let pid = self.ready[0];
        assert(self@.procs.contains_key(self@.queue[0]));
        let i = match self.index_of(pid) {
            Some(i) => i,
            None => {
                return None;
            },
        };
        assert(self.procs@.contains_key(self.entries@[i as int].pid));
        self.ready.remove(0);
        let t = self.entries[i].pending.remove(0);
        if self.entries[i].pending.len() > 0 {
            self.ready.push(pid);
        }
        self.procs = Ghost(self.procs@.insert(pid, self.entries@[i as int].view()));
        proof {
            let e = self.entries@;
            let oe = old(self).entries@;
            let ov = old(self)@;
            let v = self@;
            assert(e.len() == oe.len());
            assert forall|k: int| 0 <= k < e.len() && k != i implies #[trigger] e[k] == oe[k] by {}
            assert forall|k: int| 0 <= k < e.len() implies self.procs@.contains_key(#[trigger] e[k].pid)
                && self.procs@[e[k].pid] == e[k].view() by {
                if k != i {
                    assert(e[k] == oe[k]);
                    assert(old(self).procs@.contains_key(oe[k].pid));
                }
            }
            assert forall|p: i32| #[trigger] self.procs@.contains_key(p) implies exists|k: int|
                0 <= k < e.len() && #[trigger] e[k].pid == p by {
                if p == pid {
                    assert(e[i as int].pid == p);
                } else {
                    let k = choose|k: int| 0 <= k < oe.len() && #[trigger] oe[k].pid == p;
                    assert(e[k].pid == p);
                }
            }
            let rest = ov.queue.drop_first();
            assert forall|a: int| 0 <= a < rest.len() implies #[trigger] rest[a] != pid by {
                assert(ov.queue[a + 1] != ov.queue[0]);
            }
            assert forall|a: int, b: int| 0 <= a < b < v.queue.len() implies v.queue[a] != v.queue[b] by {
                if b < rest.len() {
                    assert(ov.queue[a + 1] != ov.queue[b + 1]);
                }
            }
            assert forall|a: int| 0 <= a < v.queue.len() implies v.procs.contains_key(#[trigger] v.queue[a])
                && v.procs[v.queue[a]].pending.len() > 0 by {
                if a < rest.len() {
                    assert(ov.procs.contains_key(ov.queue[a + 1]));
                }
            }
            assert forall|p: i32| #[trigger] v.procs.contains_key(p) && v.procs[p].pending.len() > 0
                implies v.queue.contains(p) by {
                if p == pid {
                    assert(v.queue[v.queue.len() - 1] == pid);
                } else {
                    assert(ov.procs.contains_key(p));
                    assert(ov.queue.contains(p));
                    let a = choose|a: int| 0 <= a < ov.queue.len() && ov.queue[a] == p;
                    assert(a > 0);
                    assert(v.queue[a - 1] == p);
                }
            }
            assert(v.queue == ov.after_recv().queue);
            assert(v == ov.after_recv());
            assert(self.handles() == old(self).handles()) by {
                assert forall|k: int| 0 <= k < e.len() implies #[trigger] e[k].probe == oe[k].probe by {
                    if k != i {
                        assert(e[k] == oe[k]);
                    }
                }
            }
        }
        Some((pid, t))
    }

    /// Stops monitoring `pid`: its probe handle is dropped, which releases
    /// its kernel resources, and everything pending for it is forgotten.
    /// Detaching an unmonitored pid changes nothing.
    pub fn detach_app(&mut self, pid: i32) -> (r: Result<(), AnalyzerError>)
        requires
            old(self).wf(),
        ensures
            final(self).wf(),
            r.is_ok(),
            final(self)@ == old(self)@.detach(pid),
    {
        let _released = self.take_app(pid);
        Ok(())
    }

    /// Stops monitoring `pid` as `detach_app` does, but hands its probe
    /// handle to the caller instead of dropping it; `None` when `pid` was
    /// not monitored.
    pub fn take_app(&mut self, pid: i32) -> (r: Option<H>)
        requires
            old(self).wf(),
        ensures
            final(self).wf(),
            r.is_some() == old(self)@.procs.contains_key(pid),
            r matches Some(h) ==> h == old(self).handle_of(pid),
            final(self)@ == old(self)@.detach(pid),
    {
        let ghost ov = self@;
        let ghost pred = other_than(pid);
        let ghost mut removed: int = -1;
        let mut released: Option<H> = None;
        match self.index_of(pid) {
            None => {},
            Some(i) => {
                assert(self.procs@.contains_key(self.entries@[i as int].pid));
                let ghost j = choose|j: int| 0 <= j < self.entries@.len() && self.entries@[j].pid == pid;
                assert(j == i);
                proof {
                    removed = i as int;
                }
                let entry = self.entries.remove(i);
                released = Some(entry.probe);
            },
        }
        let mut queue: Vec<i32> = Vec::new();
        let mut k: usize = 0;
        while k < self.ready.len()
            invariant
                k <= self.ready@.len(),
                self.ready@ == ov.queue,
                pred == other_than(pid),
                queue@ == ov.queue.subrange(0, k as int).filter(pred),
                ov.inv(),
                forall|a: int, b: int| 0 <= a < b < queue@.len() ==> queue@[a] != queue@[b],
                forall|a: int| 0 <= a < queue@.len() ==> #[trigger] queue@[a] != pid
                    && exists|j: int| 0 <= j < k && ov.queue[j] == queue@[a],
                forall|j: int| 0 <= j < k && #[trigger] ov.queue[j] != pid ==> queue@.contains(ov.queue[j]),
            decreases self.ready@.len() - k,
        {
            let ghost before_all = queue@;
            if self.ready[k] != pid {
                let ghost before = queue@;
                proof {
                    assert forall|a: int| 0 <= a < before.len() implies before[a] != ov.queue[k as int] by {
                        let j = choose|j: int| 0 <= j < k && ov.queue[j] == before[a];
                    }
                }
                queue.push(self.ready[k]);
                proof {
                    assert forall|j: int| 0 <= j < k && #[trigger] ov.queue[j] != pid implies queue@.contains(ov.queue[j]) by {
                        let a = choose|a: int| 0 <= a < before.len() && before[a] == ov.queue[j];
                        assert(queue@[a] == ov.queue[j]);
                    }
                    assert(queue@[before.len() as int] == ov.queue[k as int]);
                    assert forall|a: int| 0 <= a < queue@.len() implies #[trigger] queue@[a] != pid
                        && exists|j: int| 0 <= j < k + 1 && ov.queue[j] == queue@[a] by {
                        if a < before.len() {
                            assert(before[a] == queue@[a]);
                        }
                    }
                }
            }
            proof {
                reveal(Seq::filter);
                let s1 = ov.queue.subrange(0, k + 1);
                assert(s1.drop_last() == ov.queue.subrange(0, k as int));
                assert(s1.last() == ov.queue[k as int]);
                assert(pred(ov.queue[k as int]) == (ov.queue[k as int] != pid));
                if ov.queue[k as int] != pid {
                    assert(queue@ == before_all.push(ov.queue[k as int]));
                } else {
                    assert(queue@ == before_all);
                }
            }
            k = k + 1;
        }
        assert(ov.queue.subrange(0, ov.queue.len() as int) == ov.queue);
        assert(queue@ == ov.detach(pid).queue);
        self.ready = queue;
        self.procs = Ghost(self.procs@.remove(pid));
        proof {
            let e = self.entries@;
            let oe = old(self).entries@;
            let v = self@;
            let src = |a: int| if removed < 0 || a < removed { a } else { a + 1 };
            if removed < 0 {
                assert(e == oe);
            } else {
                assert(oe[removed].pid == pid);
            }
            assert forall|a: int| 0 <= a < e.len() implies #[trigger] e[a] == oe[src(a)] && 0 <= src(a) < oe.len()
                && oe[src(a)].pid != pid by {
                if removed < 0 {
                    assert(old(self).procs@.contains_key(oe[a].pid));
                } else {
                    assert(src(a) != removed);
                }
            }
            assert forall|a: int, b: int| 0 <= a < b < e.len() implies e[a].pid != e[b].pid by {
                assert(e[a] == oe[src(a)]);
                assert(e[b] == oe[src(b)]);
            }
            assert forall|a: int| 0 <= a < e.len() implies self.procs@.contains_key(#[trigger] e[a].pid)
                && self.procs@[e[a].pid] == e[a].view() by {
                assert(e[a] == oe[src(a)]);
                assert(old(self).procs@.contains_key(oe[src(a)].pid));
            }
            assert forall|p: i32| #[trigger] self.procs@.contains_key(p) implies exists|a: int|
                0 <= a < e.len() && #[trigger] e[a].pid == p by {
                assert(old(self).procs@.contains_key(p));
                let j = choose|j: int| 0 <= j < oe.len() && #[trigger] oe[j].pid == p;
                if removed < 0 || j < removed {
                    assert(e[j] == oe[src(j)]);
                } else {
                    assert(j != removed);
                    assert(e[j - 1] == oe[src(j - 1)]);
                }
            }
            assert forall|a: int| 0 <= a < v.queue.len() implies v.procs.contains_key(#[trigger] v.queue[a])
                && v.procs[v.queue[a]].pending.len() > 0 by {
                let j = choose|j: int| 0 <= j < ov.queue.len() && ov.queue[j] == v.queue[a];
                assert(ov.procs.contains_key(ov.queue[j]));
            }
            assert forall|p: i32| #[trigger] v.procs.contains_key(p) && v.procs[p].pending.len() > 0
                implies v.queue.contains(p) by {
                assert(ov.procs.contains_key(p));
                assert(ov.queue.contains(p));
                let j = choose|j: int| 0 <= j < ov.queue.len() && ov.queue[j] == p;
                assert(ov.queue[j] != pid);
            }
        }
        released
    }

    /// Stops monitoring every process, releasing all probe handles.
    pub fn detach_apps(&mut self)
        requires
            old(self).wf(),
        ensures
            final(self).wf(),
            final(self)@.procs == Map::<i32, ProcessView>::empty(),
            final(self)@.queue == Seq::<i32>::empty(),
    {
        self.entries = Vec::new();
        self.ready = Vec::new();
        self.procs = Ghost(Map::empty());
    }
}

impl Analyzer<UprobeHandler> {
    /// Starts monitoring `pid` through a freshly loaded copy of the probe
    /// object, `loaded` (aya's result of loading it). A monitored pid is
    /// left as it is and `loaded` is dropped; otherwise the probe is
    /// attached and `pid` gets a fresh frame state. A failed load comes
    /// back as it is; any failure leaves the analyzer unchanged.
    pub fn attach_loaded(&mut self, pid: i32, loaded: Result<aya::Ebpf, aya::EbpfError>) -> (r: Result<(), AnalyzerError>)
        requires
            old(self).wf(),
        ensures
            final(self).wf(),
            old(self)@.procs.contains_key(pid) ==> r is Ok && final(self)@ == old(self)@,
            !old(self)@.procs.contains_key(pid) ==> (loaded matches Err(e) ==> r matches Err(
                AnalyzerError::EbpfError(e2),
            ) && e2 == e),
            r is Ok ==> final(self)@ == old(self)@.attach(pid),
            r is Err ==> final(self)@ == old(self)@,
            r is Err ==> r matches Err(AnalyzerError::EbpfError(_)) || r matches Err(AnalyzerError::BpfProgramError(_))
                || r matches Err(AnalyzerError::ProgramNotFound) || r matches Err(AnalyzerError::UprobeAttachError(_))
                || r matches Err(AnalyzerError::MapError) || r matches Err(AnalyzerError::BpfMapError(_)),
    {
        if self.contains(pid) {
            return Ok(());
        }
        match UprobeHandler::attach_app(loaded, pid) {
            Ok(handler) => {
                self.register(pid, handler);
                Ok(())
            },
            Err(e) => Err(e),
        }
    }

    /// Stops monitoring `pid` and unloads its probe program at once. The
    /// pid is detached whatever happens; an unload failure is reported in
    /// the result instead of being passed over.
    pub fn release_app(&mut self, pid: i32) -> (r: Result<(), AnalyzerError>)
        requires
            old(self).wf(),
        ensures
            final(self).wf(),
            final(self)@ == old(self)@.detach(pid),
            !old(self)@.procs.contains_key(pid) ==> r is Ok,
            r is Err ==> r matches Err(AnalyzerError::ProgramNotFound) || r matches Err(AnalyzerError::BpfProgramError(_)),
    {
        match self.take_app(pid) {
            None => Ok(()),
            Some(mut handler) => handler.unload(),
        }
    }

    /// One step of a blocking receive: hand out a queued frametime if there
    /// is one; otherwise drain the ring buffers, and when they held nothing,
    /// give up if `time_left_ns` is zero, else ask the caller to wait
    /// (`None` means no deadline).
    pub fn recv_step(&mut self, time_left_ns: Option<u64>) -> (r: RecvStep)
        requires
            old(self).wf(),
        ensures
            final(self).wf(),
            match old(self)@.next_frame() {
                Some((p, t)) => r == RecvStep::Deliver(p, t) && final(self)@ == old(self)@.after_recv(),
                None => !(r is Deliver) && exists|events: Seq<(i32, u64)>|
                    #![trigger deliver_all(old(self)@, events)]
                    final(self)@ == deliver_all(old(self)@, events) && (events.len() > 0) == (r == RecvStep::Polled)
                        && forall|k: int| 0 <= k < events.len() ==> old(self)@.procs.contains_key(#[trigger] events[k].0),
            },
            old(self)@.next_frame() is Some ==> final(self).handles() == old(self).handles(),
            old(self)@.next_frame() is None ==> final(self).handles().len() == old(self).handles().len() && forall|k: int|
                0 <= k < old(self).handles().len() ==> #[trigger] final(self).handles()[k].reads() > old(self).handles()[
                    k
                ].reads(),
            r == RecvStep::GiveUp ==> time_left_ns == Some(0u64),
            r == RecvStep::Wait ==> time_left_ns != Some(0u64),
    {
        if let Some((p, t)) = self.try_recv() {
            return RecvStep::Deliver(p, t);
        }
        if self.poll_events() {
            RecvStep::Polled
        } else if time_left_ns == Some(0u64) {
            RecvStep::GiveUp
        } else {
            RecvStep::Wait
        }
    }

    /// Takes the next record out of the ring buffer of the `i`-th process.
    fn next_record_at(&mut self, i: usize) -> (r: Option<Vec<u8>>)
        requires
            old(self).wf(),
            i < old(self).entries@.len(),
        ensures
            final(self).wf(),
            final(self)@ == old(self)@,
            final(self).entries@.len() == old(self).entries@.len(),
            forall|k: int| 0 <= k < final(self).entries@.len() ==> #[trigger] final(self).entries@[k].pid == old(self).entries@[k].pid,
            final(self).handles().len() == old(self).handles().len(),
            forall|k: int| 0 <= k < final(self).handles().len() && k != i ==> #[trigger] final(self).handles()[k] == old(self).handles()[k],
            final(self).handles()[i as int].reads() == old(self).handles()[i as int].reads() + 1,
            final(self).handles()[i as int].drained() == r.is_none(),
    {
        let r = self.entries[i].probe.next_record();
        proof {
            let e = self.entries@;
            let oe = old(self).entries@;
            assert forall|k: int| 0 <= k < e.len() && k != i implies #[trigger] self.handles()[k] == old(self).handles()[k] by {
                assert(e[k] == oe[k]);
            }
            assert forall|k: int| 0 <= k < e.len() implies #[trigger] e[k].pid == oe[k].pid && e[k].view() == oe[k].view() by {
                if k != i {
                    assert(e[k] == oe[k]);
                }
            }
            assert forall|p: i32| #[trigger] self.procs@.contains_key(p) implies exists|k: int|
                0 <= k < e.len() && #[trigger] e[k].pid == p by {
                let k = choose|k: int| 0 <= k < oe.len() && #[trigger] oe[k].pid == p;
                assert(e[k].pid == p);
            }
            assert forall|k: int| 0 <= k < e.len() implies self.procs@.contains_key(#[trigger] e[k].pid)
                && self.procs@[e[k].pid] == e[k].view() by {
                assert(e[k].pid == oe[k].pid);
                assert(old(self).procs@.contains_key(oe[k].pid));
            }
        }
        r
    }

    /// Drains the ring buffer of every monitored process, each until it
    /// comes back empty or `MAX_BATCH` records were taken, and routes each
    /// record to its process. The result tells whether any timestamp was
    /// delivered; the new state is the old one after delivering them in
    /// order, each to a monitored pid.
    pub fn poll_events(&mut self) -> (any: bool)
        requires
            old(self).wf(),
        ensures
            final(self).wf(),
            final(self)@.procs.dom() == old(self)@.procs.dom(),
            exists|events: Seq<(i32, u64)>|
                #![trigger deliver_all(old(self)@, events)]
                (events.len() > 0) == any && final(self)@ == deliver_all(old(self)@, events) && forall|k: int|
                    0 <= k < events.len() ==> old(self)@.procs.contains_key(#[trigger] events[k].0),
            final(self).handles().len() == old(self).handles().len(),
            forall|k: int|
                0 <= k < old(self).handles().len() ==> #[trigger] final(self).handles()[k].reads() > old(self).handles()[k].reads()
                    && (final(self).handles()[k].drained() || final(self).handles()[k].reads() == old(self).handles()[k].reads()
                    + MAX_BATCH),
    {
        let ghost start = self@;
        let ghost start_h = self.handles();
        let ghost mut events: Seq<(i32, u64)> = Seq::empty();
        let n = self.entries.len();
        let mut any = false;
        let mut k: usize = 0;
        while k < n
            invariant
                self.wf(),
                start == old(self)@,
                start_h == old(self).handles(),
                self@.procs.dom() == start.procs.dom(),
                self@ == deliver_all(start, events),
                (events.len() > 0) == any,
                n == self.entries@.len(),
                self.handles().len() == start_h.len(),
                k <= n,
                forall|m: int| 0 <= m < events.len() ==> start.procs.contains_key(#[trigger] events[m].0),
                forall|m: int| 0 <= m < k ==> #[trigger] self.handles()[m].reads() > start_h[m].reads()
                    && (self.handles()[m].drained() || self.handles()[m].reads() == start_h[m].reads() + MAX_BATCH),
                forall|m: int| k <= m < n ==> #[trigger] self.handles()[m] == start_h[m],
            decreases n - k,
        {
            let pid = self.entries[k].pid;
            assert(self.procs@.contains_key(self.entries@[k as int].pid));
            let ghost before_h = self.handles();
            let mut j: usize = 0;
            let mut done = false;
            while j < MAX_BATCH && !done
                invariant
                    self.wf(),
                    start == old(self)@,
                    start_h == old(self).handles(),
                    self@.procs.dom() == start.procs.dom(),
                    self@ == deliver_all(start, events),
                    (events.len() > 0) == any,
                    n == self.entries@.len(),
                    self.handles().len() == start_h.len(),
                    before_h.len() == start_h.len(),
                    k < n,
                    j <= MAX_BATCH,
                    start.procs.contains_key(pid),
                    before_h[k as int] == start_h[k as int],
                    self.handles()[k as int].reads() == start_h[k as int].reads() + j,
                    done ==> self.handles()[k as int].drained() && j > 0,
                    forall|m: int| 0 <= m < n && m != k ==> #[trigger] self.handles()[m] == before_h[m],
                    forall|m: int| 0 <= m < events.len() ==> start.procs.contains_key(#[trigger] events[m].0),
                decreases MAX_BATCH - j,
            {
                let ghost before = self@;
                let ghost before_events = events;
                match self.next_record_at(k) {
                    None => {
                        done = true;
                    },
                    Some(bytes) => {
                        if self.deliver_bytes(pid, bytes.as_slice()) {
                            proof {
                                let record = decoded(bytes@).unwrap();
                                events = events.push((pid, record.timestamp_ns));
                                assert(events.drop_last() == before_events);
                                assert forall|m: int| 0 <= m < events.len() implies start.procs.contains_key(
                                    #[trigger] events[m].0,
                                ) by {
                                    if m < before_events.len() {
                                        assert(events[m] == before_events[m]);
                                    }
                                }
                            }
                            any = true;
                        }
                    },
                }
                proof {
                    assert(self@.procs.dom() == before.procs.dom());
                }
                j = j + 1;
            }
            k = k + 1;
        }
        any
    }
}


/// The state after `n` receives in a row.
pub open spec fn recv_times(v: AnalyzerView, n: nat) -> AnalyzerView
    decreases n,
{
    if n == 0 {
        v
    } else {
        recv_times(v, (n - 1) as nat).after_recv()
    }
}

/// Whether a receive result carries a frametime of `pid`.
pub open spec fn yields_for(r: Option<(i32, u64)>, pid: i32) -> bool {
    match r {
        Some((p, _)) => p == pid,
        None => false,
    }
}

/// The events of `pid` at each of `timestamps`, in order.
pub open spec fn events_of(pid: i32, timestamps: Seq<u64>) -> Seq<(i32, u64)> {
    timestamps.map_values(|t: u64| (pid, t))
}

/// The baseline after observing `timestamps` from `baseline`.
pub open spec fn baseline_after(baseline: Option<u64>, timestamps: Seq<u64>) -> Option<u64> {
    if timestamps.len() == 0 {
        baseline
    } else {
        Some(timestamps.last())
    }
}

/// A frametime, if any, as a sequence of zero or one.
pub open spec fn optional(f: Option<u64>) -> Seq<u64> {
    match f {
        None => Seq::empty(),
        Some(t) => seq![t],
    }
}

/// The queue when `pid` is the only process that may have pending work.
pub open spec fn queue_for(pid: i32, pending: Seq<u64>) -> Seq<i32> {
    if pending.len() > 0 {
        seq![pid]
    } else {
        Seq::empty()
    }
}

/// Observing one more timestamp appends what it yields.
proof fn lemma_emitted_push(baseline: Option<u64>, timestamps: Seq<u64>, t: u64)
    ensures
        emitted(baseline, timestamps.push(t)) == emitted(baseline, timestamps) + optional(
            frametime_after(baseline_after(baseline, timestamps), t),
        ),
    decreases timestamps.len(),
{
    let pushed = timestamps.push(t);
    if timestamps.len() == 0 {
        assert(pushed.drop_first() == Seq::<u64>::empty());
        assert(pushed[0] == t);
        assert(emitted(Some(t), Seq::<u64>::empty()) == Seq::<u64>::empty());
        assert(emitted(baseline, timestamps) == Seq::<u64>::empty());
        match frametime_after(baseline, t) {
            None => {},
            Some(d) => {
                assert(seq![d].add(Seq::<u64>::empty()) == seq![d]);
                assert(Seq::<u64>::empty() + seq![d] == seq![d]);
            },
        }
        assert(Seq::<u64>::empty() + Seq::<u64>::empty() == Seq::<u64>::empty());
    } else {
        let rest = timestamps.drop_first();
        assert(pushed.drop_first() == rest.push(t));
        assert(pushed[0] == timestamps[0]);
        lemma_emitted_push(Some(timestamps[0]), rest, t);
        if rest.len() > 0 {
            assert(rest.last() == timestamps.last());
        }
        let tail = optional(frametime_after(baseline_after(baseline, timestamps), t));
        let later = emitted(Some(timestamps[0]), rest);
        match frametime_after(baseline, timestamps[0]) {
            None => {},
            Some(d) => {
                assert(seq![d].add(later + tail) == seq![d].add(later) + tail);
            },
        }
    }
}

/// Delivering timestamps of `pid` alone, when nothing else is queued,
/// appends what its frame state emits to its pending frametimes.
proof fn lemma_deliver_one_pid(v: AnalyzerView, pid: i32, timestamps: Seq<u64>)
    requires
        v.procs.contains_key(pid),
        v.queue == queue_for(pid, v.procs[pid].pending),
    ensures
        deliver_all(v, events_of(pid, timestamps)).procs.contains_key(pid),
        deliver_all(v, events_of(pid, timestamps)).procs[pid].pending == v.procs[pid].pending + emitted(
            v.procs[pid].last,
            timestamps,
        ),
        deliver_all(v, events_of(pid, timestamps)).procs[pid].last == baseline_after(v.procs[pid].last, timestamps),
        deliver_all(v, events_of(pid, timestamps)).queue == queue_for(
            pid,
            deliver_all(v, events_of(pid, timestamps)).procs[pid].pending,
        ),
    decreases timestamps.len(),
{
    let b = v.procs[pid].last;
    let start = v.procs[pid].pending;
    if timestamps.len() == 0 {
        assert(events_of(pid, timestamps).len() == 0);
        assert(emitted(b, timestamps) == Seq::<u64>::empty());
        assert(start + Seq::<u64>::empty() == start);
    } else {
        let init = timestamps.drop_last();
        let t = timestamps.last();
        assert(events_of(pid, timestamps).drop_last() == events_of(pid, init));
        assert(events_of(pid, timestamps).last() == (pid, t));
        assert(init.push(t) == timestamps);
        lemma_deliver_one_pid(v, pid, init);
        lemma_emitted_push(b, init, t);
        let u = deliver_all(v, events_of(pid, init));
        let piece = optional(frametime_after(baseline_after(b, init), t));
        assert((start + emitted(b, init)) + piece == start + (emitted(b, init) + piece));
        match frametime_after(u.procs[pid].last, t) {
            None => {
                assert(u.procs[pid].pending + Seq::<u64>::empty() == u.procs[pid].pending);
            },
            Some(d) => {
                assert(u.procs[pid].pending + seq![d] == u.procs[pid].pending.push(d));
            },
        }
    }
}

/// Receiving from a state where only `pid` has pending frametimes hands
/// them out one by one, in order.
proof fn lemma_recv_one_pid(v: AnalyzerView, pid: i32, i: nat)
    requires
        v.procs.contains_key(pid),
        v.queue == queue_for(pid, v.procs[pid].pending),
        i <= v.procs[pid].pending.len(),
    ensures
        recv_times(v, i).procs.contains_key(pid),
        recv_times(v, i).procs[pid].pending == v.procs[pid].pending.subrange(i as int, v.procs[pid].pending.len() as int),
        recv_times(v, i).queue == queue_for(pid, recv_times(v, i).procs[pid].pending),
    decreases i,
{
    let all = v.procs[pid].pending;
    if i == 0 {
        assert(all.subrange(0, all.len() as int) == all);
    } else {
        lemma_recv_one_pid(v, pid, (i - 1) as nat);
        let u = recv_times(v, (i - 1) as nat);
        assert(u.queue == seq![pid]);
        assert(u.queue[0] == pid);
        assert(u.procs[pid].pending.drop_first() == all.subrange(i as int, all.len() as int));
        assert(u.queue.drop_first() == Seq::<i32>::empty());
        assert(Seq::<i32>::empty().push(pid) == seq![pid]);
    }
}

/// A freshly attached process whose `n >= 2` non-decreasing timestamps are
/// delivered, while nothing else is pending, yields exactly `n - 1`
/// frametimes through successive receives: the differences of consecutive
/// timestamps, in order; the receive after them finds nothing.
pub proof fn lemma_collector_frametimes(v: AnalyzerView, pid: i32, timestamps: Seq<u64>)
    requires
        v.procs.contains_key(pid),
        v.procs[pid] == fresh_process(),
        v.queue.len() == 0,
        timestamps.len() >= 2,
        non_decreasing(timestamps),
    ensures
        forall|i: int|
            0 <= i < timestamps.len() - 1 ==> #[trigger] recv_times(
                deliver_all(v, events_of(pid, timestamps)),
                i as nat,
            ).next_frame() == Some((pid, (timestamps[i + 1] - timestamps[i]) as u64)),
        recv_times(deliver_all(v, events_of(pid, timestamps)), (timestamps.len() - 1) as nat).next_frame().is_none(),
{
    assert(v.queue == queue_for(pid, v.procs[pid].pending));
    lemma_deliver_one_pid(v, pid, timestamps);
    lemma_frametimes_of_sequence(timestamps);
    let w = deliver_all(v, events_of(pid, timestamps));
    let all = w.procs[pid].pending;
    assert(Seq::<u64>::empty() + emitted(None, timestamps) == emitted(None, timestamps));
    assert(all == emitted(None, timestamps));
    assert forall|i: int| 0 <= i < timestamps.len() - 1 implies #[trigger] recv_times(w, i as nat).next_frame()
        == Some((pid, (timestamps[i + 1] - timestamps[i]) as u64)) by {
        lemma_recv_one_pid(w, pid, i as nat);
        let u = recv_times(w, i as nat);
        assert(u.queue[0] == pid);
        assert(u.procs[pid].pending[0] == all[i]);
    }
    lemma_recv_one_pid(w, pid, (timestamps.len() - 1) as nat);
    assert(all.subrange(all.len() as int, all.len() as int).len() == 0);
}

/// One step of a client's interleaving of deliveries and receives.
pub enum TraceStep {
    /// A timestamp of the traced process is delivered.
    Feed(u64),
    /// A receive is made.
    Take,
}

/// The timestamps fed in `steps`, in order.
pub open spec fn fed(steps: Seq<TraceStep>) -> Seq<u64>
    decreases steps.len(),
{
    if steps.len() == 0 {
        Seq::empty()
    } else {
        match steps.last() {
            TraceStep::Feed(t) => fed(steps.drop_last()).push(t),
            TraceStep::Take => fed(steps.drop_last()),
        }
    }
}

/// The state after `steps`, feeding timestamps of `pid`, and the
/// frametimes that the receives among them handed out, in order.
pub open spec fn run(v: AnalyzerView, pid: i32, steps: Seq<TraceStep>) -> (AnalyzerView, Seq<(i32, u64)>)
    decreases steps.len(),
{
    if steps.len() == 0 {
        (v, Seq::empty())
    } else {
        let before = run(v, pid, steps.drop_last());
        let w = before.0;
        match steps.last() {
            TraceStep::Feed(t) => (w.deliver(pid, t), before.1),
            TraceStep::Take => (
                w.after_recv(),
                match w.next_frame() {
                    Some(f) => before.1.push(f),
                    None => before.1,
                },
            ),
        }
    }
}

/// Whatever way deliveries and receives interleave, a freshly attached
/// process that alone has pending work hands out a prefix of what its
/// frame state emits, in order, and holds the rest pending.
proof fn lemma_run_one_pid(v: AnalyzerView, pid: i32, steps: Seq<TraceStep>)
    requires
        v.procs.contains_key(pid),
        v.procs[pid] == fresh_process(),
        v.queue.len() == 0,
    ensures
        run(v, pid, steps).0.procs.contains_key(pid),
        run(v, pid, steps).0.procs[pid].last == baseline_after(None, fed(steps)),
        run(v, pid, steps).0.queue == queue_for(pid, run(v, pid, steps).0.procs[pid].pending),
        run(v, pid, steps).1.len() <= emitted(None, fed(steps)).len(),
        forall|i: int|
            0 <= i < run(v, pid, steps).1.len() ==> #[trigger] run(v, pid, steps).1[i] == (
                pid,
                emitted(None, fed(steps))[i],
            ),
        run(v, pid, steps).0.procs[pid].pending == emitted(None, fed(steps)).subrange(
            run(v, pid, steps).1.len() as int,
            emitted(None, fed(steps)).len() as int,
        ),
    decreases steps.len(),
{
    if steps.len() == 0 {
        assert(emitted(None, Seq::<u64>::empty()) == Seq::<u64>::empty());
        assert(Seq::<u64>::empty().subrange(0, 0) == Seq::<u64>::empty());
    } else {
        let init = steps.drop_last();
        lemma_run_one_pid(v, pid, init);
        let before = run(v, pid, init);
        let w = before.0;
        let got = before.1;
        let e = emitted(None, fed(init));
        let p = w.procs[pid].pending;
        match steps.last() {
            TraceStep::Feed(t) => {
                assert(fed(steps) == fed(init).push(t));
                lemma_emitted_push(None, fed(init), t);
                if fed(init).len() > 0 {
                    assert(fed(init).push(t).last() == t);
                }
                let piece = optional(frametime_after(baseline_after(None, fed(init)), t));
                let e2 = e + piece;
                assert(emitted(None, fed(steps)) == e2);
                assert forall|i: int| 0 <= i < got.len() implies #[trigger] got[i] == (pid, e2[i]) by {
                    assert(got[i] == (pid, e[i]));
                }
                match frametime_after(w.procs[pid].last, t) {
                    None => {
                        assert(e2.subrange(got.len() as int, e2.len() as int) == p);
                    },
                    Some(d) => {
                        assert(e2.subrange(got.len() as int, e2.len() as int) == p.push(d));
                    },
                }
            },
            TraceStep::Take => {
                assert(fed(steps) == fed(init));
                if p.len() == 0 {
                    assert(w.queue.len() == 0);
                } else {
                    assert(w.queue == seq![pid]);
                    assert(w.queue[0] == pid);
                    assert(p[0] == e[got.len() as int]);
                    let got2 = got.push((pid, p[0]));
                    assert(run(v, pid, steps).1 == got2);
                    assert forall|i: int| 0 <= i < got2.len() implies #[trigger] got2[i] == (pid, e[i]) by {
                        if i < got.len() {
                            assert(got2[i] == got[i]);
                        }
                    }
                    assert(p.drop_first() == e.subrange(got.len() + 1int, e.len() as int));
                    assert(w.queue.drop_first() == Seq::<i32>::empty());
                    assert(Seq::<i32>::empty().push(pid) == seq![pid]);
                }
            },
        }
    }
}

/// However receives interleave with the deliveries of `n >= 2`
/// non-decreasing timestamps to a freshly attached process that alone has
/// pending work, the receives hand out the differences of consecutive
/// timestamps, in order, never more than `n - 1` of them, and what they
/// have not handed out yet stays pending.
pub proof fn lemma_interleaved_frametimes(v: AnalyzerView, pid: i32, steps: Seq<TraceStep>)
    requires
        v.procs.contains_key(pid),
        v.procs[pid] == fresh_process(),
        v.queue.len() == 0,
        fed(steps).len() >= 2,
        non_decreasing(fed(steps)),
    ensures
        run(v, pid, steps).1.len() + run(v, pid, steps).0.procs[pid].pending.len() == fed(steps).len() - 1,
        forall|i: int|
            0 <= i < run(v, pid, steps).1.len() ==> #[trigger] run(v, pid, steps).1[i] == (
                pid,
                (fed(steps)[i + 1] - fed(steps)[i]) as u64,
            ),
{
    lemma_run_one_pid(v, pid, steps);
    lemma_frametimes_of_sequence(fed(steps));
    let got = run(v, pid, steps).1;
    let e = emitted(None, fed(steps));
    assert forall|i: int| 0 <= i < got.len() implies #[trigger] got[i] == (pid, (fed(steps)[i + 1] - fed(steps)[i]) as u64) by {
        assert(got[i] == (pid, e[i]));
    }
}

/// Detaching a pid and attaching it again starts it afresh: no baseline,
/// nothing pending, nothing queued, and the first timestamp delivered
/// afterwards yields no frametime.
pub proof fn lemma_reattach_is_fresh(v: AnalyzerView, pid: i32, timestamp: u64)
    requires
        v.inv(),
    ensures
        v.detach(pid).attach(pid).procs.contains_key(pid),
        v.detach(pid).attach(pid).procs[pid] == fresh_process(),
        !v.detach(pid).attach(pid).queue.contains(pid),
        v.detach(pid).attach(pid).deliver(pid, timestamp).procs[pid].pending.len() == 0,
{
    lemma_detach_forgets(v, pid);
}

/// After detaching, `pid` is neither monitored nor queued.
proof fn lemma_detach_forgets(v: AnalyzerView, pid: i32)
    ensures
        !v.detach(pid).procs.contains_key(pid),
        !v.detach(pid).queue.contains(pid),
{
    broadcast use Seq::lemma_filter_pred;
    let q = v.detach(pid).queue;
    if q.contains(pid) {
        let i = choose|i: int| 0 <= i < q.len() && q[i] == pid;
        assert((other_than(pid))(q[i]));
    }
}

/// Once `pid` is detached, no number of receives hands out a frametime of
/// it, whatever was pending for it before.
pub proof fn lemma_detached_pid_never_received(v: AnalyzerView, pid: i32, n: nat)
    ensures
        !yields_for(recv_times(v.detach(pid), n).next_frame(), pid),
{
    lemma_detach_forgets(v, pid);
    lemma_unqueued_stays_unqueued(v.detach(pid), pid, n);
}

/// A pid that is not queued never reaches the head of the queue.
proof fn lemma_unqueued_stays_unqueued(v: AnalyzerView, pid: i32, n: nat)
    requires
        !v.queue.contains(pid),
    ensures
        !recv_times(v, n).queue.contains(pid),
        !yields_for(recv_times(v, n).next_frame(), pid),
    decreases n,
{
    if n > 0 {
        lemma_unqueued_stays_unqueued(v, pid, (n - 1) as nat);
        let w = recv_times(v, (n - 1) as nat);
        if w.queue.len() > 0 {
            assert(w.queue[0] != pid);
            let u = w.after_recv();
            if u.queue.contains(pid) {
                let i = choose|i: int| 0 <= i < u.queue.len() && u.queue[i] == pid;
                if i < w.queue.len() - 1 {
                    assert(w.queue[i + 1] == pid);
                }
            }
        }
    }
    let w = recv_times(v, n);
    if w.queue.len() > 0 {
        assert(w.queue[0] != pid);
    }
}

/// Two receives in a row, while at least two processes are ready, hand out
/// frametimes of two different processes; when exactly `a` and `b` are
/// ready, one receive yields `a` and the other `b`.
pub proof fn lemma_round_robin(v: AnalyzerView, a: i32, b: i32)
    requires
        v.inv(),
        a != b,
        v.queue.contains(a),
        v.queue.contains(b),
    ensures
        v.next_frame().is_some(),
        v.after_recv().next_frame().is_some(),
        v.next_frame().unwrap().0 != v.after_recv().next_frame().unwrap().0,
        v.queue.len() == 2 ==> (yields_for(v.next_frame(), a) && yields_for(v.after_recv().next_frame(), b))
            || (yields_for(v.next_frame(), b) && yields_for(v.after_recv().next_frame(), a)),
{
    let ia = choose|i: int| 0 <= i < v.queue.len() && v.queue[i] == a;
    let ib = choose|i: int| 0 <= i < v.queue.len() && v.queue[i] == b;
    assert(v.queue.len() >= 2);
    assert(v.queue[0] != v.queue[1]);
    assert(v.after_recv().queue[0] == v.queue[1]);
}

} // verus!
