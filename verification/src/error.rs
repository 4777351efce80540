//! The error taxonomy shared by the storage, journal, sequencer and
//! replication components.

use vstd::prelude::*;

verus! {

/// Every failure the library reports falls in one of these classes.
#[derive(Clone, Copy, Debug, PartialEq, Eq, Structural)]
pub enum Error {
    /// Malformed or incomplete input; never retried.
    Validation,
    /// Shared state was left inconsistent by an earlier abnormal
    /// termination; fatal for the current instance.
    LockFailure,
    /// The backing medium refused a write (for the in-memory journal
    /// image: the configured capacity is exhausted).
    Io,
    /// A record could not be serialized or compressed.
    Encode,
    /// Framed data did not decompress or decode into a valid record.
    Decode,
    /// The referenced object or record is absent; an expected outcome.
    NotFound,
    /// Stored bytes do not decode into a valid object.
    Corrupt,
    /// A path escapes the repository root; never applied.
    Security,
    /// A remote endpoint could not be reached; recoverable by backoff.
    Transport,
}

impl Error {
    /// Short stable name of the error class.
    pub fn describe(&self) -> (s: &'static str)
        ensures
            s@ == self.spec_describe(),
    {
        match self {
            Error::Validation => "validation error",
            Error::LockFailure => "lock failure",
            Error::Io => "io error",
            Error::Encode => "encode error",
            Error::Decode => "decode error",
            Error::NotFound => "not found",
            Error::Corrupt => "corrupt object",
            Error::Security => "security rejection",
            Error::Transport => "transport error",
        }
    }

    /// What `describe` returns for each class.
    pub open spec fn spec_describe(self) -> Seq<char> {
        match self {
            Error::Validation => "validation error"@,
            Error::LockFailure => "lock failure"@,
            Error::Io => "io error"@,
            Error::Encode => "encode error"@,
            Error::Decode => "decode error"@,
            Error::NotFound => "not found"@,
            Error::Corrupt => "corrupt object"@,
            Error::Security => "security rejection"@,
            Error::Transport => "transport error"@,
        }
    }
}

} // verus!
