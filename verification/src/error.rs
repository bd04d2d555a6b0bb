//! Typed failures surfaced by the engine; an absent key is an explicit
//! absence result, never an error.

use vstd::prelude::*;

verus! {

/// The engine's error taxonomy.
#[derive(Debug)]
pub enum Error {
    /// A durable-log append failed; fatal to the individual write and
    /// surfaced to the caller, never retried silently.
    Durability,
    /// A compare-and-swap commit of manifest state found the input set
    /// already changed by a concurrent flush or compaction.
    Conflict,
    /// A persisted file is corrupt or missing for the affected read.
    Corruption,
    /// A remote backend did not answer; transient, callers may retry.
    Unavailable,
}

impl Error {
    /// The operator-readable name of each failure.
    pub open spec fn label(&self) -> Seq<char> {
        match self {
            Error::Durability => "durability failure"@,
            Error::Conflict => "manifest commit conflict"@,
            Error::Corruption => "corrupt or missing file"@,
            Error::Unavailable => "remote backend unavailable"@,
        }
    }

    /// A short operator-readable name of the failure.
    pub fn describe(&self) -> (r: &'static str)
        ensures
            r@ == self.label(),
    {
        match self {
            Error::Durability => "durability failure",
            Error::Conflict => "manifest commit conflict",
            Error::Corruption => "corrupt or missing file",
            Error::Unavailable => "remote backend unavailable",
        }
    }
}

} // verus!
