//! The errors that the library reports.
use vstd::prelude::*;

verus! {

/// Why an operation was refused.
#[derive(Clone, Copy, Debug, PartialEq, Eq, Structural)]
pub enum Error {
    /// A checkpoint's digest or its signatures did not check out.
    InvalidCheckpoint,
    /// A persisted author chain could not be replayed.
    InvalidState,
    /// A block carries too few valid signatures.
    InvalidBlock,
    /// An event names an unknown parent or is not signed by its author.
    InvalidEvent,
    /// A peer refers to a block that no round was started with.
    InvalidSync,
    /// A key's prefix is longer than 255 bytes, or its bytes are malformed.
    InvalidKey,
    /// No configuration directory was found.
    ConfigDir,
    /// Bytes are not the encoding of a public key, a signature or a keypair.
    Sig,
    /// Stored bytes are not the encoding of what was expected there.
    Serde,
}

impl Error {
    /// A short description of the error.
    pub fn message(&self) -> (text: &'static str)
        ensures
            text@ == (match *self {
                Error::InvalidCheckpoint => "Invalid checkpoint"@,
                Error::InvalidState => "Invalid state"@,
                Error::InvalidBlock => "Invalid block"@,
                Error::InvalidEvent => "Invalid event"@,
                Error::InvalidSync => "Invalid sync"@,
                Error::InvalidKey => "Invalid key"@,
                Error::ConfigDir => "Config directory was not found"@,
                Error::Sig => "Invalid key or signature bytes"@,
                Error::Serde => "Invalid encoding"@,
            }),
    {
        match self {
            Error::InvalidCheckpoint => "Invalid checkpoint",
            Error::InvalidState => "Invalid state",
            Error::InvalidBlock => "Invalid block",
            Error::InvalidEvent => "Invalid event",
            Error::InvalidSync => "Invalid sync",
            Error::InvalidKey => "Invalid key",
            Error::ConfigDir => "Config directory was not found",
            Error::Sig => "Invalid key or signature bytes",
            Error::Serde => "Invalid encoding",
        }
    }
}

} // verus!
