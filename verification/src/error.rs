use vstd::prelude::*;

verus! {

/// Every failure the store or the wire protocol can report.
///
/// `Io` stands for an operating-system level failure met by the surrounding
/// program; `Serde` for a record or message that could not be decoded;
/// `KeyNotFound` is the normal outcome of removing an absent key;
/// `UnexpectedCommandType` signals an index entry that does not point at a
/// `Set` record; `InvalidRequest` and `InvalidReply` are malformed wire
/// messages.
#[derive(Clone, Copy, Debug, PartialEq, Eq, Structural)]
pub enum KvsError {
    Io,
    Serde,
    KeyNotFound,
    UnexpectedCommandType,
    InvalidRequest,
    InvalidReply,
}

impl KvsError {
    /// A short description, in place of a `Display` implementation.
    pub fn message(&self) -> &'static str {
        match self {
            KvsError::Io => "i/o failure",
            KvsError::Serde => "serialization failure",
            KvsError::KeyNotFound => "key not found",
            KvsError::UnexpectedCommandType => "unexpected command type",
            KvsError::InvalidRequest => "invalid request",
            KvsError::InvalidReply => "invalid reply",
        }
    }
}

} // verus!
