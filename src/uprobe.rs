//! The attach manager: one private copy of the probe program and its ring
//! buffer per monitored process.
use vstd::prelude::*;
use vstd::string::*;

use crate::error::AnalyzerError;

verus! {

/// The name of the probe program inside the compiled object.
pub const PROGRAM_NAME: &'static str = "frame_analyzer_ebpf";

/// The name of the ring buffer map inside the compiled object.
pub const RING_NAME: &'static str = "RING_BUF";

/// The shared library that holds the instrumented function.
pub const TARGET_LIBRARY: &'static str = "/system/lib64/libgui.so";

/// The mangled name of the instrumented function, tried first.
pub const PRIMARY_SYMBOL: &'static str = "_ZN7android7Surface11queueBufferEP19ANativeWindowBufferi";

/// The mangled name of the instrumented function in later ABI revisions.
pub const SECONDARY_SYMBOL: &'static str =
    "_ZN7android7Surface11queueBufferEP19ANativeWindowBufferiPNS_24SurfaceQueueBufferOutputE";

/// The opening of the error text when no symbol variant attached.
pub const ATTACH_FAILURE_PREFIX: &'static str = "Failed to attach any symbol variant: ";

/// The position of the first attempt that succeeded, if any.
pub open spec fn first_ok(outcomes: Seq<Result<(), String>>) -> Option<int>
    decreases outcomes.len(),
{
    if outcomes.len() == 0 {
        None
    } else if outcomes[0] is Ok {
        Some(0)
    } else {
        match first_ok(outcomes.drop_first()) {
            Some(i) => Some(i + 1),
            None => None,
        }
    }
}

/// One line per failed attempt: the symbol, then why it failed.
pub open spec fn attempts_text(symbols: Seq<&str>, outcomes: Seq<Result<(), String>>) -> Seq<char>
    decreases outcomes.len(),
{
    if outcomes.len() == 0 {
        Seq::empty()
    } else {
        let k = outcomes.len() - 1;
        let before = attempts_text(symbols, outcomes.drop_last());
        match outcomes[k] {
            Ok(_) => before,
            Err(e) => before + "`"@ + symbols[k]@ + "` failed: "@ + e@ + "; "@,
        }
    }
}

/// The ordered symbol variants under which the instrumented function is
/// looked up.
pub fn symbol_candidates() -> (r: Vec<&'static str>)
    ensures
        r@ == seq![PRIMARY_SYMBOL, SECONDARY_SYMBOL],
{
    let mut r: Vec<&'static str> = Vec::new();
    r.push(PRIMARY_SYMBOL);
    r.push(SECONDARY_SYMBOL);
    r
}

/// Settles the attempts made to attach under `symbols`, in order: the
/// position of the first one that attached, or an error whose text cites
/// every symbol tried and why it failed.
pub fn settle_attach(symbols: &Vec<&str>, outcomes: &Vec<Result<(), String>>) -> (r: Result<usize, AnalyzerError>)
    requires
        outcomes@.len() <= symbols@.len(),
    ensures
        match first_ok(outcomes@) {
            Some(i) => r == Ok::<usize, AnalyzerError>(i as usize),
            None => match r {
                Err(AnalyzerError::UprobeAttachError(text)) => text@ == ATTACH_FAILURE_PREFIX@ + attempts_text(
                    symbols@,
                    outcomes@,
                ),
                _ => false,
            },
        },
{
    let mut text = String::from_str(ATTACH_FAILURE_PREFIX);
    let mut i: usize = 0;
    assert(outcomes@.subrange(0, outcomes@.len() as int) == outcomes@);
    assert(outcomes@.subrange(0, 0) == Seq::<Result<(), String>>::empty());
    while i < outcomes.len()
        invariant
            i <= outcomes@.len(),
            outcomes@.len() <= symbols@.len(),
            forall|j: int| 0 <= j < i ==> outcomes@[j] is Err,
            text@ == ATTACH_FAILURE_PREFIX@ + attempts_text(symbols@, outcomes@.subrange(0, i as int)),
            first_ok(outcomes@) == match first_ok(outcomes@.subrange(i as int, outcomes@.len() as int)) {
                Some(k) => Some(k + i),
                None => None::<int>,
            },
        decreases outcomes@.len() - i,
    {
        let ghost rest = outcomes@.subrange(i as int, outcomes@.len() as int);
        assert(rest.drop_first() == outcomes@.subrange(i + 1, outcomes@.len() as int));
        assert(outcomes@.subrange(0, i + 1).drop_last() == outcomes@.subrange(0, i as int));
        match &outcomes[i] {
            Ok(_) => {
                return Ok(i);
            },
            Err(e) => {
                text.append("`");
                text.append(symbols[i]);
                text.append("` failed: ");
                text.append(e.as_str());
                text.append("; ");
            },
        }
        i = i + 1;
    }
    assert(outcomes@.subrange(0, outcomes@.len() as int) == outcomes@);
    Err(AnalyzerError::UprobeAttachError(text))
}

/// aya's handle on a loaded eBPF object: its programs and maps.
#[verifier::external_type_specification]
#[verifier::external_body]
pub struct ExEbpf(aya::Ebpf);

/// aya's uprobe program.
#[verifier::external_type_specification]
#[verifier::external_body]
pub struct ExUProbe(aya::programs::UProbe);

/// aya's untyped map.
#[verifier::external_type_specification]
#[verifier::external_body]
pub struct ExMap(aya::maps::Map);

/// aya's owned map descriptor.
#[verifier::external_type_specification]
#[verifier::external_body]
pub struct ExMapData(aya::maps::MapData);

/// aya's ring buffer consumer.
#[verifier::external_type_specification]
#[verifier::external_body]
#[verifier::reject_recursive_types(T)]
pub struct ExRingBuf<T>(aya::maps::RingBuf<T>);

/// The names of the programs that a loaded eBPF object holds.
pub uninterp spec fn program_names(bpf: aya::Ebpf) -> Set<Seq<char>>;

/// The names of the maps that a loaded eBPF object still holds.
pub uninterp spec fn map_names(bpf: aya::Ebpf) -> Set<Seq<char>>;

/// Relies on aya::Ebpf::program_mut, a lookup in the object's programs by
/// name, and aya's conversion of a program to a uprobe: `None` exactly when
/// no program has that name. Changing the program through the reference
/// leaves the sets of program and map names as they are.
#[verifier::external_body]
fn uprobe_mut<'a>(bpf: &'a mut aya::Ebpf, name: &str) -> (r: Option<Result<&'a mut aya::programs::UProbe, aya::programs::ProgramError>>)
    ensures
        r.is_none() == !program_names(*old(bpf)).contains(name@),
        program_names(*final(bpf)) == program_names(*old(bpf)),
        map_names(*final(bpf)) == map_names(*old(bpf)),
{
    bpf.program_mut(name).map(|p| p.try_into())
}

/// Relies on aya::programs::UProbe::load: loads the program into the kernel.
#[verifier::external_body]
fn load_uprobe(program: &mut aya::programs::UProbe) -> (r: Result<(), aya::programs::ProgramError>) {
    program.load()
}

/// Relies on aya::programs::UProbe::attach, called with exactly these
/// arguments; the link it returns stays owned by the program.
#[verifier::external_body]
fn attach_uprobe(
    program: &mut aya::programs::UProbe,
    fn_name: Option<&str>,
    offset: u64,
    target: &str,
    pid: Option<i32>,
) -> (r: Result<(), aya::programs::ProgramError>) {
    program.attach(fn_name, offset, target, pid).map(|_link| ())
}

/// Relies on aya::programs::UProbe::unload: detaches its links and unloads
/// the program from the kernel.
#[verifier::external_body]
fn unload_uprobe(program: &mut aya::programs::UProbe) -> (r: Result<(), aya::programs::ProgramError>) {
    program.unload()
}

/// Relies on the `Display` text of aya's program errors.
#[verifier::external_body]
fn program_error_text(e: &aya::programs::ProgramError) -> (r: String) {
    e.to_string()
}

/// Relies on aya::Ebpf::take_map, a removal from the object's maps by
/// name: the map is handed over exactly when one has that name.
#[verifier::external_body]
fn take_map(bpf: &mut aya::Ebpf, name: &str) -> (r: Option<aya::maps::Map>)
    ensures
        r.is_some() == map_names(*old(bpf)).contains(name@),
        map_names(*final(bpf)) == map_names(*old(bpf)).remove(name@),
        program_names(*final(bpf)) == program_names(*old(bpf)),
{
    bpf.take_map(name)
}

/// Relies on aya's conversion of a map to a ring buffer consumer, which
/// fails when the map is of another kind.
#[verifier::external_body]
fn ring_of_map(map: aya::maps::Map) -> (r: Result<aya::maps::RingBuf<aya::maps::MapData>, aya::maps::MapError>) {
    aya::maps::RingBuf::try_from(map)
}

/// Relies on aya::maps::RingBuf::next: takes the oldest committed record
/// out of the ring buffer, if there is one, and copies its bytes.
#[verifier::external_body]
fn next_item(ring: &mut aya::maps::RingBuf<aya::maps::MapData>) -> (r: Option<Vec<u8>>) {
    ring.next().map(|item| item.to_vec())
}

/// The symbol variant to try next, given the outcomes of the attempts so
/// far among `candidates` variants: none once one has attached or all were
/// tried, else the next in order.
pub fn next_symbol(candidates: usize, outcomes: &Vec<Result<(), String>>) -> (r: Option<usize>)
    ensures
        r.is_none() == (first_ok(outcomes@).is_some() || outcomes@.len() >= candidates),
        r matches Some(i) ==> i == outcomes@.len(),
{
    let mut k: usize = 0;
    assert(outcomes@.subrange(0, outcomes@.len() as int) == outcomes@);
    while k < outcomes.len()
        invariant
            k <= outcomes@.len(),
            forall|j: int| 0 <= j < k ==> outcomes@[j] is Err,
            first_ok(outcomes@) == match first_ok(outcomes@.subrange(k as int, outcomes@.len() as int)) {
                Some(i) => Some(i + k),
                None => None::<int>,
            },
        decreases outcomes@.len() - k,
    {
        let ghost rest = outcomes@.subrange(k as int, outcomes@.len() as int);
        assert(rest.drop_first() == outcomes@.subrange(k + 1, outcomes@.len() as int));
        if outcomes[k].is_ok() {
            return None;
        }
        k = k + 1;
    }
    assert(outcomes@.subrange(0, outcomes@.len() as int) == outcomes@);
    if outcomes.len() >= candidates {
        None
    } else {
        Some(outcomes.len())
    }
}

/// Attaches `program` for calls made by `pid` to the instrumented function
/// of the target library, under the symbol variants in order, and stops at
/// the first that attaches. The result holds one outcome per attempt.
fn attach_in_order(program: &mut aya::programs::UProbe, pid: i32) -> (o: Vec<Result<(), String>>)
    ensures
        1 <= o@.len() <= 2,
        forall|j: int| 0 <= j < o@.len() - 1 ==> o@[j] is Err,
        first_ok(o@).is_some() ==> first_ok(o@) == Some(o@.len() - 1),
        first_ok(o@).is_none() ==> o@.len() == 2,
{
    let symbols = symbol_candidates();
    let mut outcomes: Vec<Result<(), String>> = Vec::new();
    let mut next = next_symbol(symbols.len(), &outcomes);
    while next.is_some()
        invariant
            symbols@ == seq![PRIMARY_SYMBOL, SECONDARY_SYMBOL],
            outcomes@.len() <= 2,
            forall|j: int| 0 <= j < outcomes@.len() ==> outcomes@[j] is Err,
            first_ok(outcomes@).is_none(),
            next.is_none() == (outcomes@.len() >= 2),
            next matches Some(i) ==> i == outcomes@.len(),
        decreases 2 - outcomes@.len(),
    {
        let i = next.unwrap();
        let ghost before = outcomes@;
        match attach_uprobe(program, Some(symbols[i]), 0, TARGET_LIBRARY, Some(pid)) {
            Ok(()) => {
                outcomes.push(Ok(()));
                proof {
                    lemma_first_ok_push(before, Ok(()));
                }
                return outcomes;
            },
            Err(e) => {
                outcomes.push(Err(program_error_text(&e)));
            },
        }
        proof {
            lemma_first_ok_push(before, outcomes@.last());
        }
        next = next_symbol(symbols.len(), &outcomes);
    }
    outcomes
}

/// The probe program attached to one process, with its ring buffer.
/// Dropping it unloads the program and closes the ring buffer.
pub struct UprobeHandler {
    bpf: aya::Ebpf,
    ring: aya::maps::RingBuf<aya::maps::MapData>,
    symbol: &'static str,
    reads: Ghost<nat>,
    drained: Ghost<bool>,
}

impl UprobeHandler {
    /// The symbol variant under which the program attached.
    pub closed spec fn attached_symbol(&self) -> &'static str {
        self.symbol
    }

    /// The symbol variant under which the program attached.
    pub fn symbol(&self) -> (r: &'static str)
        ensures
            r == self.attached_symbol(),
    {
        self.symbol
    }

    /// How many times the ring buffer has been read.
    pub closed spec fn reads(&self) -> nat {
        self.reads@
    }

    /// Whether the last read of the ring buffer found it empty.
    pub closed spec fn drained(&self) -> bool {
        self.drained@
    }

    /// The names of the programs in this handler's object.
    pub closed spec fn programs(&self) -> Set<Seq<char>> {
        program_names(self.bpf)
    }

    /// Takes a freshly loaded copy of the probe object, `loaded` (aya's
    /// result of loading it), loads its program, attaches it to the
    /// instrumented function of process `pid` under the first symbol
    /// variant that attaches, and opens its ring buffer. A failed load is
    /// returned as it is; a missing program or ring buffer has its own
    /// error; when no variant attaches, the error cites each of them.
    pub fn attach_app(loaded: Result<aya::Ebpf, aya::EbpfError>, pid: i32) -> (r: Result<UprobeHandler, AnalyzerError>)
        ensures
            loaded matches Err(e) ==> r matches Err(AnalyzerError::EbpfError(e2)) && e2 == e,
            (r matches Err(AnalyzerError::ProgramNotFound)) == (loaded matches Ok(b) && !program_names(b).contains(
                PROGRAM_NAME@,
            )),
            r matches Err(AnalyzerError::MapError) ==> loaded matches Ok(b) && program_names(b).contains(PROGRAM_NAME@)
                && !map_names(b).contains(RING_NAME@),
            r matches Err(AnalyzerError::BpfMapError(_)) ==> loaded matches Ok(b) && map_names(b).contains(RING_NAME@),
            r matches Ok(h) ==> loaded matches Ok(b) && program_names(b).contains(PROGRAM_NAME@) && map_names(b).contains(
                RING_NAME@,
            ) && h.programs() == program_names(b) && exists|o: Seq<Result<(), String>>|
                1 <= o.len() <= 2 && first_ok(o) == Some(o.len() - 1) && h.attached_symbol() == seq![
                    PRIMARY_SYMBOL,
                    SECONDARY_SYMBOL,
                ][o.len() - 1],
            r matches Err(AnalyzerError::UprobeAttachError(text)) ==> exists|outcomes: Seq<Result<(), String>>|
                outcomes.len() == 2 && first_ok(outcomes).is_none() && text@ == ATTACH_FAILURE_PREFIX@
                    + attempts_text(seq![PRIMARY_SYMBOL, SECONDARY_SYMBOL], outcomes),
            r is Err ==> r matches Err(AnalyzerError::EbpfError(_)) || r matches Err(AnalyzerError::BpfProgramError(_))
                || r matches Err(AnalyzerError::ProgramNotFound) || r matches Err(AnalyzerError::UprobeAttachError(_))
                || r matches Err(AnalyzerError::MapError) || r matches Err(AnalyzerError::BpfMapError(_)),
    {
        let mut bpf = match loaded {
            Ok(bpf) => bpf,
            Err(e) => {
                return Err(AnalyzerError::EbpfError(e));
            },
        };
        let settled = match uprobe_mut(&mut bpf, PROGRAM_NAME) {
            None => {
                return Err(AnalyzerError::ProgramNotFound);
            },
            Some(Err(e)) => {
                return Err(AnalyzerError::BpfProgramError(e));
            },
            Some(Ok(program)) => {
                if let Err(e) = load_uprobe(program) {
                    return Err(AnalyzerError::BpfProgramError(e));
                }
                let outcomes = attach_in_order(program, pid);
                let symbols = symbol_candidates();
                settle_attach(&symbols, &outcomes)
            },
        };
        let index = match settled {
            Ok(index) => index,
            Err(e) => {
                return Err(e);
            },
        };
        let symbol = if index == 0 {
            PRIMARY_SYMBOL
        } else {
            SECONDARY_SYMBOL
        };
        let map = match take_map(&mut bpf, RING_NAME) {
            Some(map) => map,
            None => {
                return Err(AnalyzerError::MapError);
            },
        };
        match ring_of_map(map) {
            Ok(ring) => Ok(UprobeHandler { bpf, ring, symbol, reads: Ghost(0), drained: Ghost(false) }),
            Err(e) => Err(AnalyzerError::BpfMapError(e)),
        }
    }

    /// Unloads the program named `PROGRAM_NAME` now, reporting a failure
    /// that dropping the handle would pass over in silence:
    /// `ProgramNotFound` exactly when the object holds no such program,
    /// else aya's error if it is not a uprobe or does not unload.
    pub fn unload(&mut self) -> (r: Result<(), AnalyzerError>)
        ensures
            (r matches Err(AnalyzerError::ProgramNotFound)) == !old(self).programs().contains(PROGRAM_NAME@),
            r is Err ==> r matches Err(AnalyzerError::ProgramNotFound) || r matches Err(AnalyzerError::BpfProgramError(_)),
            final(self).programs() == old(self).programs(),
    {
        match uprobe_mut(&mut self.bpf, PROGRAM_NAME) {
            None => Err(AnalyzerError::ProgramNotFound),
            Some(Err(e)) => Err(AnalyzerError::BpfProgramError(e)),
            Some(Ok(program)) => match unload_uprobe(program) {
                Ok(()) => Ok(()),
                Err(e) => Err(AnalyzerError::BpfProgramError(e)),
            },
        }
    }

    /// The ring buffer of this probe, for waiting on its descriptor.
    pub fn ring(&self) -> &aya::maps::RingBuf<aya::maps::MapData> {
        &self.ring
    }

    /// The bytes of the oldest record waiting in the ring buffer, if any.
    pub fn next_record(&mut self) -> (r: Option<Vec<u8>>)
        ensures
            final(self).programs() == old(self).programs(),
            final(self).attached_symbol() == old(self).attached_symbol(),
            final(self).reads() == old(self).reads() + 1,
            final(self).drained() == r.is_none(),
    {
        let r = next_item(&mut self.ring);
        self.reads = Ghost(self.reads@ + 1);
        self.drained = Ghost(r.is_none());
        r
    }
}

/// Appending an attempt finds the first success where it was, or at the
/// new attempt when there was none.
proof fn lemma_first_ok_push(outcomes: Seq<Result<(), String>>, last: Result<(), String>)
    ensures
        first_ok(outcomes.push(last)) == match first_ok(outcomes) {
            Some(i) => Some(i),
            None => if last is Ok {
                Some(outcomes.len() as int)
            } else {
                None
            },
        },
    decreases outcomes.len(),
{
    let pushed = outcomes.push(last);
    if outcomes.len() > 0 {
        assert(pushed.drop_first() == outcomes.drop_first().push(last));
        assert(pushed[0] == outcomes[0]);
        lemma_first_ok_push(outcomes.drop_first(), last);
        assert(outcomes.drop_first().len() + 1 == outcomes.len());
    } else {
        assert(pushed.drop_first() == Seq::<Result<(), String>>::empty());
        assert(pushed[0] == last);
        assert(first_ok(pushed.drop_first()).is_none());
        assert(first_ok(outcomes).is_none());
    }
}

} // verus!
