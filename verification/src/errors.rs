//! Error kinds of the deniable core and of the client around it.

use vstd::prelude::*;

verus! {

/// What can go wrong inside the deniable core.
#[derive(Clone, Copy, PartialEq, Eq, Structural, Debug)]
pub enum DenimError {
    /// The buffer store refused or failed an operation.
    BufferStoreFailure,
    /// A value could not be encoded or decoded.
    EncodingFailure,
    /// A deniable ratchet failed to decrypt; never crosses to the overt path.
    DeniableDecryptFailure,
    /// An overt ratchet failed to decrypt.
    OvertDecryptFailure,
    /// A wire value outside the protocol, such as an unassigned chunk flag.
    ProtocolViolation,
    /// A final chunk arrived but the accumulated payload does not decode;
    /// the payload is lost.
    PartialPayloadLost,
    /// A covert operation addressed a peer with no established session.
    NoSuchSession,
    /// The queue is locked for persistence; the caller emits cover traffic.
    LockContention,
}

impl DenimError {
    /// A short description of the error.
    pub fn message(&self) -> (r: &'static str)
    {
        match self {
            DenimError::BufferStoreFailure => "buffer store failure",
            DenimError::EncodingFailure => "encoding failure",
            DenimError::DeniableDecryptFailure => "deniable decrypt failure",
            DenimError::OvertDecryptFailure => "overt decrypt failure",
            DenimError::ProtocolViolation => "protocol violation",
            DenimError::PartialPayloadLost => "partial payload lost",
            DenimError::NoSuchSession => "no such session",
            DenimError::LockContention => "lock contention",
        }
    }
}

/// Why a registration attempt failed.
#[derive(Clone, Debug)]
pub enum RegistrationError {
    NoResponse,
    BadResponse(String),
}

/// Why an identifier lookup failed.
#[derive(Clone, Debug)]
pub enum IdentifierError {
    NoResponse,
    BadResponse(String),
}

/// Why the local durable store failed.
#[derive(Clone, Debug)]
pub enum DatabaseError {
    Custom(String),
}

} // verus!
