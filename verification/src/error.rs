//! Error types of the key-value store.

use vstd::prelude::*;

verus! {

/// The store-specific failure conditions.
#[derive(Clone, Copy, Debug, PartialEq, Eq, Structural)]
pub enum ErrorKind {
    /// `remove` was called for a key that is not present.
    NotFound,
    /// An index entry's bytes decoded as something other than a `Set` record.
    UnsupportedCommand,
}

impl ErrorKind {
    /// The description returned by [`ErrorKind::as_str`].
    pub open spec fn spec_as_str(self) -> Seq<char> {
        match self {
            ErrorKind::NotFound => "Key not found"@,
            ErrorKind::UnsupportedCommand => "command is not supported"@,
        }
    }

    /// A short human-readable description of the error kind.
    pub fn as_str(&self) -> (r: &'static str)
        ensures
            r@ == self.spec_as_str(),
    {
        match *self {
            ErrorKind::NotFound => "Key not found",
            ErrorKind::UnsupportedCommand => "command is not supported",
        }
    }
}

/// A union of all failures the store can report.
#[derive(Clone, Copy, Debug, PartialEq, Eq, Structural)]
pub enum KvsError {
    /// A filesystem failure, reported by an embedding program that mirrors
    /// the store to disk.  The engine itself never constructs this variant.
    Io,
    /// A record failed to decode during replay or lookup.
    Serde,
    /// A store-level failure; see [`ErrorKind`].
    Store(ErrorKind),
}

impl KvsError {
    /// The description returned by [`KvsError::message`].
    pub open spec fn spec_message(self) -> Seq<char> {
        match self {
            KvsError::Io => "io error"@,
            KvsError::Serde => "serde error"@,
            KvsError::Store(k) => k.spec_as_str(),
        }
    }

    /// A short human-readable description of the error.
    pub fn message(&self) -> (r: &'static str)
        ensures
            r@ == self.spec_message(),
    {
        match *self {
            KvsError::Io => "io error",
            KvsError::Serde => "serde error",
            KvsError::Store(k) => k.as_str(),
        }
    }
}

} // verus!
