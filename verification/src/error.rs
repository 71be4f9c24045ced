//! The error kinds that store operations report.

use vstd::prelude::*;
use vstd::string::*;

verus! {

/// Why an operation on the store failed.
#[derive(Debug, Clone, PartialEq, Eq)]
pub enum KvsError {
    /// A segment that a pointer names is not part of the log.
    FileNotFound { name: String },
    /// The storage layer could not carry out a read, write, create or delete.
    Io { reason: String },
    /// Text could not be read as a record, or a command could not be written as
    /// one. `cause` is what the JSON layer said about it.
    Serialization { cause: String },
    /// `remove` was called for a key that is not live.
    KeyNotFound,
    /// A well-formed record names a variant that this version does not know.
    UnexpectedCommandType,
}

impl KvsError {
    /// The text that `message` gives for the error.
    pub open spec fn message_spec(self) -> Seq<char> {
        match self {
            KvsError::FileNotFound { name } => "file not found: "@ + name@,
            KvsError::Io { reason } => reason@,
            KvsError::Serialization { cause } => "Serialize error"@ + cause@,
            KvsError::KeyNotFound => "Key not found"@,
            KvsError::UnexpectedCommandType => "Unexpected command type"@,
        }
    }

    /// A line of text that says what went wrong.
    pub fn message(&self) -> (text: String)
        ensures
            text@ == self.message_spec(),
    {
        match self {
            KvsError::FileNotFound { name } => {
                let mut text = "file not found: ".to_owned();
                text.append(name.as_str());
                text
            },
            KvsError::Io { reason } => reason.clone(),
            KvsError::Serialization { cause } => {
                let mut text = "Serialize error".to_owned();
                text.append(cause.as_str());
                text
            },
            KvsError::KeyNotFound => "Key not found".to_owned(),
            KvsError::UnexpectedCommandType => "Unexpected command type".to_owned(),
        }
    }
}

/// Result of a store operation.
pub type Result<T> = core::result::Result<T, KvsError>;

} // verus!
