//! The failures of the library.
use vstd::prelude::*;

verus! {

/// Why an operation on the pool failed.
#[derive(Debug, Clone, Copy, PartialEq, Eq, Hash, Structural)]
pub enum PoolError {
    /// A host, backup, share, file or digest is missing.
    NotFound,
    /// An attribute file does not start with its magic number.
    InvalidMagic,
    /// A varint, a type code or a record is malformed or cut short.
    CorruptData,
    /// A digest is shorter than two bytes.
    InvalidDigest,
    /// The underlying storage failed.
    Io,
    /// A number does not fit the width of its field.
    Overflow,
}

impl PoolError {
    /// A short description for messages.
    pub open spec fn text(self) -> Seq<char> {
        match self {
            PoolError::NotFound => "not found"@,
            PoolError::InvalidMagic => "invalid magic number"@,
            PoolError::CorruptData => "corrupt data"@,
            PoolError::InvalidDigest => "digest must be at least 2 bytes long"@,
            PoolError::Io => "input/output error"@,
            PoolError::Overflow => "number too large for its field"@,
        }
    }

    /// A short description for messages.
    pub fn message(&self) -> (s: String)
        ensures
            s@ == self.text(),
    {
        match self {
            PoolError::NotFound => "not found".to_owned(),
            PoolError::InvalidMagic => "invalid magic number".to_owned(),
            PoolError::CorruptData => "corrupt data".to_owned(),
            PoolError::InvalidDigest => "digest must be at least 2 bytes long".to_owned(),
            PoolError::Io => "input/output error".to_owned(),
            PoolError::Overflow => "number too large for its field".to_owned(),
        }
    }
}

} // verus!
