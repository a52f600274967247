use vstd::prelude::*;

verus! {

/// The closed set of failures the store can report.
///
/// `Io` is reserved for callers that drive the engine against a real
/// filesystem; the in-memory core never produces it.  `Serialization` is a
/// decode failure while replaying a log, `KeyNotFound` is produced only by
/// `remove` of an absent key, and `UnexpectedCommandType` marks a locator
/// that points at a record which is not a `Set` (a corruption indicator).
#[derive(Clone, Copy, Debug, PartialEq, Eq, Structural)]
pub enum KvsError {
    Io,
    Serialization,
    KeyNotFound,
    UnexpectedCommandType,
}

impl KvsError {
    /// A human-readable description of the failure.
    pub fn message(&self) -> (r: &'static str)
        ensures
            self is KeyNotFound ==> r@ == "Key not found"@,
    {
        match self {
            KvsError::Io => "I/O error",
            KvsError::Serialization => "serialization error",
            KvsError::KeyNotFound => "Key not found",
            KvsError::UnexpectedCommandType => "Unexpected command type",
        }
    }
}

} // verus!
