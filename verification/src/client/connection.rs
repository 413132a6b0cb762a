use vstd::prelude::*;

use crate::common::hash::Sha1Hash;

verus! {

/// What handling input on a connection came to.
#[derive(Debug, Default)]
pub enum UpdateSuccess {
    #[default]
    NoUpdate,
    Transferred { downloaded: usize, uploaded: usize },
    Success,
}

/// Why handling input on a connection failed.
#[derive(Debug)]
pub enum UpdateError {
    CommunicationError(std::io::Error),
    UnknownMessage { id: u8 },
    IndexOutOfBounds,
    TorrentNotManaged { info_hash: Sha1Hash },
    PeerRemoved,
}

/// The error of a message that breaks the protocol (`std::io::ErrorKind::InvalidData`).
#[verifier::external_body]
pub(crate) fn protocol_error() -> std::io::Error {
    std::io::Error::from(std::io::ErrorKind::InvalidData)
}

/// The outcome of handling input on a connection.
pub type UpdateResult = Result<UpdateSuccess, UpdateError>;

} // verus!
