//! Failures surfaced by attaching, detaching and creating the analyzer.
use vstd::prelude::*;

verus! {

/// aya's error for loading an eBPF object.
#[verifier::external_type_specification]
#[verifier::external_body]
pub struct ExEbpfError(aya::EbpfError);

/// aya's error for loading or attaching a program.
#[verifier::external_type_specification]
#[verifier::external_body]
pub struct ExProgramError(aya::programs::ProgramError);

/// aya's error for looking up or converting a map.
#[verifier::external_type_specification]
#[verifier::external_body]
pub struct ExMapError(aya::maps::MapError);

/// An operating-system failure.
#[verifier::external_type_specification]
#[verifier::external_body]
pub struct ExIoError(std::io::Error);

/// Everything that can go wrong outside the per-event path.
#[derive(Debug)]
pub enum AnalyzerError {
    /// The probe object could not be loaded.
    EbpfError(aya::EbpfError),
    /// The probe program could not be found, loaded or attached.
    BpfProgramError(aya::programs::ProgramError),
    /// The ring buffer could not be found or opened.
    BpfMapError(aya::maps::MapError),
    /// An underlying system call failed.
    IOError(std::io::Error),
    /// The target process does not exist.
    AppNotFound,
    /// Every symbol variant failed to attach; the text cites each of them.
    UprobeAttachError(String),
    /// The ring buffer could not be found in the probe object.
    MapError,
    /// The probe object holds no uprobe program of the expected name.
    ProgramNotFound,
    /// Frame data could not be read from the ring buffer.
    FrameDataReadError(String),
    /// Loading kernel programs is not permitted to this process.
    PermissionDenied,
}

/// The flat integer code of each error kind, as handed across a C boundary:
/// kernel subsystem, probe program, ring buffer or map, I/O, missing target
/// process, symbol attach, permission.
pub open spec fn code_of(e: AnalyzerError) -> int {
    match e {
        AnalyzerError::EbpfError(_) => -1,
        AnalyzerError::BpfProgramError(_) => -2,
        AnalyzerError::BpfMapError(_) => -3,
        AnalyzerError::IOError(_) => -4,
        AnalyzerError::AppNotFound => -5,
        AnalyzerError::MapError => -3,
        AnalyzerError::FrameDataReadError(_) => -3,
        AnalyzerError::ProgramNotFound => -2,
        AnalyzerError::UprobeAttachError(_) => -6,
        AnalyzerError::PermissionDenied => -7,
    }
}

impl AnalyzerError {
    /// The integer code of this error's kind, negative.
    pub fn code(&self) -> (r: i32)
        ensures
            r == code_of(*self),
            r < 0,
    {
        match self {
            AnalyzerError::EbpfError(_) => -1,
            AnalyzerError::BpfProgramError(_) => -2,
            AnalyzerError::BpfMapError(_) => -3,
            AnalyzerError::IOError(_) => -4,
            AnalyzerError::AppNotFound => -5,
            AnalyzerError::MapError => -3,
            AnalyzerError::FrameDataReadError(_) => -3,
            AnalyzerError::ProgramNotFound => -2,
            AnalyzerError::UprobeAttachError(_) => -6,
            AnalyzerError::PermissionDenied => -7,
        }
    }
}

/// The integer code of `err`.
pub fn error_to_code(err: &AnalyzerError) -> (r: i32)
    ensures
        r == code_of(*err),
{
    err.code()
}

} // verus!
