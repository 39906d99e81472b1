//! Uniform error representation for every accelerated call, and the
//! translation of native status words into it.

use vstd::prelude::*;

verus! {

/// Failure taxonomy shared by all operations. Every category is fatal to the
/// call that produced it: no partial results are ever returned.
#[derive(Clone, Copy, Debug, PartialEq, Eq, Structural)]
pub enum Error {
    /// A device id that does not name an available accelerator.
    InvalidDevice,
    /// Device memory was exhausted.
    AllocationFailure,
    /// A transform ran before its tables were initialized for that
    /// (device, domain size) pair.
    UninitializedState,
    /// The native layer reported a nonzero status; the code is carried
    /// through verbatim.
    ComputeFailure(u64),
    /// Buffer sizes, locations or flags inconsistent with the request.
    ConfigurationError,
}

impl Error {
    /// Descriptive text for the failure category.
    pub fn describe(&self) -> (s: &'static str)
        ensures
            s@ == match *self {
                Error::InvalidDevice => "invalid or unavailable device id"@,
                Error::AllocationFailure => "device memory exhausted"@,
                Error::UninitializedState => "transform tables not initialized for this size and device"@,
                Error::ComputeFailure(_) => "native kernel reported a nonzero status"@,
                Error::ConfigurationError => "buffer geometry or flags inconsistent with the request"@,
            },
    {
        match self {
            Error::InvalidDevice => "invalid or unavailable device id",
            Error::AllocationFailure => "device memory exhausted",
            Error::UninitializedState => "transform tables not initialized for this size and device",
            Error::ComputeFailure(_) => "native kernel reported a nonzero status",
            Error::ConfigurationError => "buffer geometry or flags inconsistent with the request",
        }
    }
}

/// Translates a native status word. Zero is success; any other value is a
/// terminating compute failure carrying the code verbatim.
pub fn translate_status(code: u64) -> (r: Option<Error>)
    ensures
        r is None <==> code == 0,
        code != 0 ==> r == Some(Error::ComputeFailure(code)),
{
    if code == 0 {
        None
    } else {
        Some(Error::ComputeFailure(code))
    }
}

} // verus!
