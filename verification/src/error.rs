//! Status codes returned by kernel-object operations.
use vstd::prelude::*;

verus! {

/// The kinds of failure an operation on a kernel object can report.
#[allow(non_camel_case_types)]
#[derive(Clone, Copy, Debug, PartialEq, Eq, Structural)]
pub enum ZxError {
    /// The handle value does not name a handle of the calling process.
    BAD_HANDLE,
    /// The handle names an object of another class than the one asked for.
    WRONG_TYPE,
    /// The handle lacks a right that the operation requires.
    ACCESS_DENIED,
    /// An argument is out of range, misaligned or otherwise malformed.
    INVALID_ARGS,
    /// The object is in a state that does not permit the operation.
    BAD_STATE,
    /// Physical frames, address space or identifiers are exhausted.
    NO_MEMORY,
    /// The object class does not implement the operation.
    NOT_SUPPORTED,
    /// The operation is switched off for this particular object.
    UNAVAILABLE,
    /// A deadline passed before the awaited condition held.
    TIMED_OUT,
    /// The wait was abandoned because its thread is dying.
    CANCELED,
    /// An internal invariant was found broken.
    INTERNAL,
}

/// Result of a kernel-object operation.
pub type ZxResult<T = ()> = Result<T, ZxError>;

impl ZxError {
    /// The conventional upper-case name of the status.
    pub fn name(&self) -> (s: &'static str)
        ensures
            s@ == self.name_spec(),
    {
        match self {
            ZxError::BAD_HANDLE => "BAD_HANDLE",
            ZxError::WRONG_TYPE => "WRONG_TYPE",
            ZxError::ACCESS_DENIED => "ACCESS_DENIED",
            ZxError::INVALID_ARGS => "INVALID_ARGS",
            ZxError::BAD_STATE => "BAD_STATE",
            ZxError::NO_MEMORY => "NO_MEMORY",
            ZxError::NOT_SUPPORTED => "NOT_SUPPORTED",
            ZxError::UNAVAILABLE => "UNAVAILABLE",
            ZxError::TIMED_OUT => "TIMED_OUT",
            ZxError::CANCELED => "CANCELED",
            ZxError::INTERNAL => "INTERNAL",
        }
    }

    /// The name that [`ZxError::name`] returns, as a sequence of characters.
    pub open spec fn name_spec(&self) -> Seq<char> {
        match self {
            ZxError::BAD_HANDLE => "BAD_HANDLE"@,
            ZxError::WRONG_TYPE => "WRONG_TYPE"@,
            ZxError::ACCESS_DENIED => "ACCESS_DENIED"@,
            ZxError::INVALID_ARGS => "INVALID_ARGS"@,
            ZxError::BAD_STATE => "BAD_STATE"@,
            ZxError::NO_MEMORY => "NO_MEMORY"@,
            ZxError::NOT_SUPPORTED => "NOT_SUPPORTED"@,
            ZxError::UNAVAILABLE => "UNAVAILABLE"@,
            ZxError::TIMED_OUT => "TIMED_OUT"@,
            ZxError::CANCELED => "CANCELED"@,
            ZxError::INTERNAL => "INTERNAL"@,
        }
    }
}

} // verus!
