//! Error kinds reported by the store and the protocol layer.

use vstd::prelude::*;

verus! {

/// Failures of store and protocol operations.
#[derive(Clone, Debug)]
pub enum KvsError {
    /// An underlying file or socket operation failed.
    Io(String),
    /// Decoding a command or a request/response failed.
    Serde(String),
    /// `remove` targeted an absent key.
    KeyNotFound,
    /// A log pointer resolved to a record that was not `Set`.
    UnexpectedCommandType,
    /// A byte sequence expected to be text was not valid.
    Utf8(String),
    /// An opaque error carried back from a remote server.
    StringError(String),
}

impl KvsError {
    /// The human-readable message for this error.
    pub open spec fn spec_message(&self) -> Seq<char> {
        match self {
            KvsError::Io(m) => m@,
            KvsError::Serde(m) => m@,
            KvsError::KeyNotFound => "Key not found"@,
            KvsError::UnexpectedCommandType => "Unexpected command type"@,
            KvsError::Utf8(m) => m@,
            KvsError::StringError(m) => m@,
        }
    }

    /// Renders the error as a message string.
    pub fn message(&self) -> (m: String)
        ensures
            m@ == self.spec_message(),
    {
        match self {
            KvsError::Io(m) => m.clone(),
            KvsError::Serde(m) => m.clone(),
            KvsError::KeyNotFound => String::from_str("Key not found"),
            KvsError::UnexpectedCommandType => String::from_str("Unexpected command type"),
            KvsError::Utf8(m) => m.clone(),
            KvsError::StringError(m) => m.clone(),
        }
    }
}

} // verus!
