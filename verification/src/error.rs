//! Error taxonomy of the storage engine.

use vstd::prelude::*;

verus! {

/// Error type for the key/value store.
///
/// `KeyNotFound` is the one expected error (removing an absent key); all
/// other variants signal real failures. `UnexpectedCommandType` means the
/// index resolved to a record that is not a `Put`, i.e. the log and the
/// index disagree.
#[derive(Debug, Clone)]
pub enum KvsError {
    /// An underlying file or network failure, reported by the I/O shell.
    Io(String),
    /// A log record could not be decoded (truncated or malformed bytes).
    Serde(String),
    /// Removing a key that is not present.
    KeyNotFound,
    /// The index pointed at a record that is not a `Put` command.
    UnexpectedCommandType,
    /// A stored byte sequence was not valid UTF-8.
    Utf8(String),
    /// A failure reported by the sled backend.
    Sled(String),
    /// A failure reported by a collaborator as a plain message.
    StringError(String),
}

impl KvsError {
    /// The characters of the error's message.
    pub open spec fn message_spec(&self) -> Seq<char> {
        match self {
            KvsError::Io(s) => s@,
            KvsError::Serde(s) => s@,
            KvsError::KeyNotFound => "Key not found"@,
            KvsError::UnexpectedCommandType => "Unexpected command type"@,
            KvsError::Utf8(s) => s@,
            KvsError::Sled(s) => s@,
            KvsError::StringError(s) => s@,
        }
    }

    /// A human-readable message for the error, in place of `Display`.
    pub fn message(&self) -> (r: String)
        ensures
            r@ == self.message_spec(),
    {
        match self {
            KvsError::Io(s) => s.clone(),
            KvsError::Serde(s) => s.clone(),
            KvsError::KeyNotFound => String::from_str("Key not found"),
            KvsError::UnexpectedCommandType => String::from_str("Unexpected command type"),
            KvsError::Utf8(s) => s.clone(),
            KvsError::Sled(s) => s.clone(),
            KvsError::StringError(s) => s.clone(),
        }
    }
}

} // verus!
