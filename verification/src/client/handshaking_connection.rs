use vstd::prelude::*;

use crate::client::connection::UpdateError;
use crate::common::hash::Sha1Hash;
use crate::constants::PEER_ID_LENGTH;
use crate::io::read_buffer::ReadBuffer;
use crate::message::{pstr, Handshake, HANDSHAKE_LENGTH};

verus! {

/// Writes all of `data` to `stream` (`std::io::Write::write_all`); what the stream does
/// with it is not stated.
#[verifier::external_body]
fn write_all_to<S: std::io::Write>(stream: &mut S, data: &[u8]) -> Result<(), std::io::Error> {
    stream.write_all(data)
}

/// The error of a peer whose handshake does not start with the protocol string
/// (`std::io::ErrorKind::InvalidData`).
#[verifier::external_body]
fn not_a_handshake_error() -> std::io::Error {
    std::io::Error::from(std::io::ErrorKind::InvalidData)
}

/// What a step of a handshake came to.
#[derive(Default)]
pub enum HandshakeUpdateSuccess {
    #[default]
    NoUpdate,
    Complete(Handshake),
}

/// Where a connection is in its handshake.
#[derive(Clone, Copy)]
pub enum HandshakingState {
    /// Connecting to the peer, to send our handshake for torrent `info_hash`.
    Connecting { info_hash: Sha1Hash },
    /// Waiting for the peer's handshake.
    Reading,
    Done,
}

/// Who opened the connection.
#[derive(Clone, Copy, PartialEq, Eq, Structural)]
pub enum ConnectionType {
    Incoming,
    Outgoing,
}

/// A TCP connection to a peer, until the handshakes are exchanged.
pub struct HandshakingConnection<S> {
    stream: S,
    read_buffer: ReadBuffer,
    pub state: HandshakingState,
    conn_type: ConnectionType,
    peer_id: [u8; PEER_ID_LENGTH],
}

impl<S: std::io::Read + std::io::Write> HandshakingConnection<S> {
    pub closed spec fn wf(&self) -> bool {
        &&& self.read_buffer.wf()
        &&& self.read_buffer.spec_capacity() == HANDSHAKE_LENGTH
    }

    /// The stream to the peer.
    pub closed spec fn spec_stream(&self) -> S {
        self.stream
    }

    pub closed spec fn spec_state(&self) -> HandshakingState {
        self.state
    }

    pub closed spec fn spec_conn_type(&self) -> ConnectionType {
        self.conn_type
    }

    pub closed spec fn spec_peer_id(&self) -> [u8; PEER_ID_LENGTH] {
        self.peer_id
    }

    /// The bytes of the peer's handshake received so far and not read yet.
    pub closed spec fn buffered(&self) -> Seq<u8> {
        self.read_buffer.unread_data()
    }

    /// A connection the peer opened on `stream`; we are `peer_id` and wait for the peer's
    /// handshake.
    pub fn new_from_incoming(stream: S, peer_id: [u8; PEER_ID_LENGTH]) -> (r: Self)
        ensures
            r.wf(),
            r.spec_state() is Reading,
            r.spec_conn_type() == ConnectionType::Incoming,
            r.spec_peer_id() == peer_id,
    {
        HandshakingConnection {
            stream,
            read_buffer: ReadBuffer::new(HANDSHAKE_LENGTH),
            state: HandshakingState::Reading,
            conn_type: ConnectionType::Incoming,
            peer_id,
        }
    }

    /// A connection we open on `stream` for torrent `info_hash`; we are `peer_id`.
    pub fn new_from_outgoing(stream: S, info_hash: Sha1Hash, peer_id: [u8; PEER_ID_LENGTH]) -> (r:
        Self)
        ensures
            r.wf(),
            r.spec_state() == (HandshakingState::Connecting { info_hash }),
            r.spec_conn_type() == ConnectionType::Outgoing,
            r.spec_peer_id() == peer_id,
    {
        HandshakingConnection {
            stream,
            read_buffer: ReadBuffer::new(HANDSHAKE_LENGTH),
            state: HandshakingState::Connecting { info_hash },
            conn_type: ConnectionType::Outgoing,
            peer_id,
        }
    }

    /// The stream, once the handshake is done.
    pub fn into_network_source(self) -> (r: S)
        ensures
            r == self.spec_stream(),
    {
        self.stream
    }

    /// Takes the next step of the handshake: once connected, our handshake is sent; then,
    /// once the peer's whole handshake has arrived, it is read (and, on a connection the
    /// peer opened, answered with ours for the same torrent).
    pub fn update(&mut self) -> (r: Result<HandshakeUpdateSuccess, UpdateError>)
        requires
            old(self).wf(),
            !(old(self).spec_state() is Done),
        ensures
            final(self).wf(),
            final(self).spec_conn_type() == old(self).spec_conn_type(),
            final(self).spec_peer_id() == old(self).spec_peer_id(),
            old(self).spec_state() is Connecting ==> match r {
                Ok(HandshakeUpdateSuccess::NoUpdate) => final(self).spec_state() is Reading,
                Ok(HandshakeUpdateSuccess::Complete(_)) => false,
                Err(_) => final(self).spec_state() == old(self).spec_state(),
            },
            old(self).spec_state() is Reading ==> match r {
                Ok(HandshakeUpdateSuccess::Complete(_)) => final(self).spec_state() is Done,
                _ => final(self).spec_state() is Reading,
            },
            old(self).spec_state() is Reading && old(self).buffered().len() >= HANDSHAKE_LENGTH
                && old(self).buffered().take(20) != seq![19u8] + pstr() ==> r matches Err(
                UpdateError::CommunicationError(_),
            ),
            old(self).spec_state() is Reading && old(self).buffered().len() >= HANDSHAKE_LENGTH
                && old(self).buffered().take(20) == seq![19u8] + pstr() && old(
                self).spec_conn_type() == ConnectionType::Outgoing ==> r is Ok,
            old(self).spec_state() is Reading && old(self).buffered().len() >= HANDSHAKE_LENGTH
                ==> !(r matches Ok(HandshakeUpdateSuccess::NoUpdate)),
            old(self).spec_state() is Reading && old(self).buffered().len() >= HANDSHAKE_LENGTH
                ==> (r matches Ok(HandshakeUpdateSuccess::Complete(h)) ==> h.info_hash@ == old(
                self).buffered().subrange(28, 48) && h.peer_id@ == old(self).buffered().subrange(
                48,
                68,
            )),
    {
        match self.state {
            HandshakingState::Connecting { info_hash } => {
                let handshake_to_peer = Handshake { info_hash, peer_id: self.peer_id };
                let mut bytes: Vec<u8> = Vec::new();
                handshake_to_peer.write_to(&mut bytes);
                if let Err(e) = write_all_to(&mut self.stream, bytes.as_slice()) {
                    return Err(UpdateError::CommunicationError(e));
                }
                self.state = HandshakingState::Reading;
                Ok(HandshakeUpdateSuccess::NoUpdate)
            },
            HandshakingState::Reading => {
                match self.read_buffer.read_at_least_from(HANDSHAKE_LENGTH, &mut self.stream) {
                    Err(e) => return Err(UpdateError::CommunicationError(e)),
                    Ok(false) => return Ok(HandshakeUpdateSuccess::NoUpdate),
                    Ok(true) => {},
                }
                if !starts_with_protocol(self.read_buffer.get_unread()) {
                    return Err(UpdateError::CommunicationError(not_a_handshake_error()));
                }
                let handshake_from_peer = match Handshake::read_from(&mut self.read_buffer) {
                    Ok(h) => h,
                    Err(_) => return Err(UpdateError::CommunicationError(not_a_handshake_error())),
                };
                if self.conn_type == ConnectionType::Incoming {
                    let handshake_to_peer = Handshake {
                        info_hash: handshake_from_peer.info_hash,
                        peer_id: self.peer_id,
                    };
                    let mut bytes: Vec<u8> = Vec::new();
                    handshake_to_peer.write_to(&mut bytes);
                    if let Err(e) = write_all_to(&mut self.stream, bytes.as_slice()) {
                        return Err(UpdateError::CommunicationError(e));
                    }
                }
                self.state = HandshakingState::Done;
                Ok(HandshakeUpdateSuccess::Complete(handshake_from_peer))
            },
            HandshakingState::Done => Ok(HandshakeUpdateSuccess::NoUpdate),
        }
    }
}

/// Whether `data` starts with the protocol string of a handshake and its length.
pub fn starts_with_protocol(data: &[u8]) -> (r: bool)
    ensures
        r == (data@.len() >= 20 && data@.take(20) == seq![19u8] + pstr()),
{
    if data.len() < 20 {
        return false;
    }
    let expected: [u8; 20] = [19, 66, 105, 116, 84, 111, 114, 114, 101, 110, 116, 32, 112, 114, 111, 116, 111, 99, 111, 108];
    assert(expected@ =~= seq![19u8] + pstr());
    let mut i: usize = 0;
    while i < 20
        invariant
            i <= 20,
            data@.len() >= 20,
            expected@ == seq![19u8] + pstr(),
            forall|k: int| 0 <= k < i ==> data@[k] == expected@[k],
        decreases 20 - i,
    {
        if data[i] != expected[i] {
            assert(data@.take(20)[i as int] != expected@[i as int]);
            return false;
        }
        i = i + 1;
    }
    assert(data@.take(20) =~= expected@);
    true
}

} // verus!
