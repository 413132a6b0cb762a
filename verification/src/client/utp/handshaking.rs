use vstd::prelude::*;

use crate::client::connection::{protocol_error, UpdateError};
use crate::client::dispatch::unexpected_eof_error;
use crate::client::utp::connection_info::UtpConnectionInfo;
use crate::client::utp::header::{type_of_code, Header, Type};
use crate::client::utp::send_buffer::UtpSendBuffer;
use crate::common::hash::Sha1Hash;
use crate::constants::PEER_ID_LENGTH;
use crate::io::read_buffer::ReadBuffer;
use crate::message::{pstr, Handshake, HANDSHAKE_LENGTH};

verus! {

/// What a step of a connection's handshake came to.
#[derive(Default)]
pub enum HandshakingUpdateSuccess {
    #[default]
    NoUpdate,
    Complete(Handshake),
}

/// The unread bytes start with the protocol string of a handshake, as reading one requires.
pub open spec fn starts_handshake(unread: Seq<u8>) -> bool {
    unread.len() >= 20 && unread.take(20) == seq![19u8] + pstr()
}

/// Reads the peer's handshake, mapping a short input to a communication error.
fn read_handshake(read_buffer: &mut ReadBuffer) -> (r: Result<Handshake, UpdateError>)
    requires
        old(read_buffer).wf(),
        starts_handshake(old(read_buffer).unread_data()),
    ensures
        final(read_buffer).wf(),
        old(read_buffer).unread_data().len() >= HANDSHAKE_LENGTH ==> (r matches Ok(h)
            && h.info_hash@ == old(read_buffer).unread_data().subrange(28, 48) && h.peer_id@
            == old(read_buffer).unread_data().subrange(48, 68) && final(read_buffer).unread_data()
            == old(read_buffer).unread_data().skip(HANDSHAKE_LENGTH as int)),
        old(read_buffer).unread_data().len() < HANDSHAKE_LENGTH ==> (r matches Err(
            UpdateError::CommunicationError(_),
        )),
{
    match Handshake::read_from(read_buffer) {
        Ok(h) => Ok(h),
        Err(_) => Err(UpdateError::CommunicationError(unexpected_eof_error())),
    }
}

/// Queues our handshake for torrent `info_hash`.
fn send_handshake(send_buffer: &mut UtpSendBuffer, peer_id: [u8; 20], info_hash: Sha1Hash)
    ensures
        final(send_buffer).data() == old(send_buffer).data() + (Handshake {
            info_hash,
            peer_id,
        }).spec_bytes(),
        final(send_buffer).headers() == old(send_buffer).headers(),
{
    let handshake = Handshake { info_hash, peer_id };
    let mut bytes: Vec<u8> = Vec::new();
    handshake.write_to(&mut bytes);
    assert(bytes@ =~= handshake.spec_bytes());
    send_buffer.add_data(bytes.as_slice());
}

/// Where an incoming uTP connection is in its handshake.
#[derive(Debug, Clone, Copy, PartialEq, Eq, Structural)]
pub enum IncomingUtpState {
    CsSynRecv,
    CsStateSent,
}

/// A uTP connection that the peer opened, until the handshakes are exchanged.
pub struct IncomingUtpConnection<A> {
    pub(crate) socket: UtpConnectionInfo<A>,
    state: IncomingUtpState,
    peer_id: [u8; PEER_ID_LENGTH],
}

impl<A: Copy> IncomingUtpConnection<A> {
    pub closed spec fn spec_state(&self) -> IncomingUtpState {
        self.state
    }

    pub closed spec fn spec_socket(&self) -> UtpConnectionInfo<A> {
        self.socket
    }

    pub closed spec fn spec_peer_id(&self) -> [u8; PEER_ID_LENGTH] {
        self.peer_id
    }

    /// Where the handshake is.
    pub fn state(&self) -> (r: IncomingUtpState)
        ensures
            r == self.spec_state(),
    {
        self.state
    }

    /// The state of the uTP stream, to be updated in place.
    pub fn socket_mut(&mut self) -> (r: &mut UtpConnectionInfo<A>)
        ensures
            *r == old(self).spec_socket(),
            final(self).spec_socket() == *final(r),
            final(self).spec_state() == old(self).spec_state(),
            final(self).spec_peer_id() == old(self).spec_peer_id(),
    {
        &mut self.socket
    }

    /// A connection that just received the peer's SYN; we are `peer_id`.
    pub fn new(socket: UtpConnectionInfo<A>, peer_id: [u8; PEER_ID_LENGTH]) -> (r: Self)
        ensures
            r.spec_socket() == socket,
            r.spec_state() == IncomingUtpState::CsSynRecv,
            r.spec_peer_id() == peer_id,
    {
        IncomingUtpConnection { socket, state: IncomingUtpState::CsSynRecv, peer_id }
    }

    /// The connection's state, once the handshake is done.
    pub fn promote(self) -> (r: UtpConnectionInfo<A>)
        ensures
            r == self.spec_socket(),
    {
        self.socket
    }

    /// Handles a packet with header `header` whose data is in `read_buffer`. The SYN is
    /// acknowledged with a STATE packet; then a DATA packet must bring the peer's
    /// handshake, which is acknowledged and answered with ours.
    pub fn update(
        &mut self,
        read_buffer: &mut ReadBuffer,
        header: &Header,
        send_buffer: &mut UtpSendBuffer,
    ) -> (r: Result<HandshakingUpdateSuccess, UpdateError>)
        requires
            old(read_buffer).wf(),
            header.type_number() <= 4,
            old(self).spec_state() == IncomingUtpState::CsStateSent && type_of_code(
                header.type_number(),
            ) == Type::StData ==> starts_handshake(old(read_buffer).unread_data()),
        ensures
            final(read_buffer).wf(),
            final(self).spec_socket().spec_ack_nr() == header.seq_nr,
            final(self).spec_socket().spec_seq_nr() == old(self).spec_socket().spec_seq_nr(),
            final(self).spec_peer_id() == old(self).spec_peer_id(),
            old(self).spec_state() == IncomingUtpState::CsSynRecv ==> {
                &&& r matches Ok(HandshakingUpdateSuccess::NoUpdate)
                &&& final(self).spec_state() == IncomingUtpState::CsStateSent
                &&& final(send_buffer).headers() == old(send_buffer).headers().push(Type::StState)
                &&& final(send_buffer).data() == old(send_buffer).data()
                &&& final(read_buffer).unread_data() == old(read_buffer).unread_data()
            },
            old(self).spec_state() == IncomingUtpState::CsStateSent ==> {
                let unread = old(read_buffer).unread_data();
                &&& final(self).spec_state() == IncomingUtpState::CsStateSent
                &&& if type_of_code(header.type_number()) != Type::StData {
                    &&& r matches Err(UpdateError::CommunicationError(_))
                    &&& final(send_buffer).headers() == old(send_buffer).headers()
                    &&& final(send_buffer).data() == old(send_buffer).data()
                } else if unread.len() < HANDSHAKE_LENGTH {
                    &&& r matches Err(UpdateError::CommunicationError(_))
                    &&& final(send_buffer).headers() == old(send_buffer).headers()
                    &&& final(send_buffer).data() == old(send_buffer).data()
                } else {
                    &&& r matches Ok(HandshakingUpdateSuccess::Complete(h))
                    &&& h.info_hash@ == unread.subrange(28, 48)
                    &&& h.peer_id@ == unread.subrange(48, 68)
                    &&& final(read_buffer).unread_data() == unread.skip(HANDSHAKE_LENGTH as int)
                    &&& final(send_buffer).headers() == old(send_buffer).headers().push(
                        Type::StState,
                    )
                    &&& final(send_buffer).data() == old(send_buffer).data() + (Handshake {
                        info_hash: h.info_hash,
                        peer_id: old(self).spec_peer_id(),
                    }).spec_bytes()
                }
            },
    {
        self.socket.process_header(header);
        match self.state {
            IncomingUtpState::CsSynRecv => {
                send_buffer.add_header(Type::StState);
                self.state = IncomingUtpState::CsStateSent;
                Ok(HandshakingUpdateSuccess::NoUpdate)
            },
            IncomingUtpState::CsStateSent => {
                if header.get_type() != Type::StData {
                    return Err(UpdateError::CommunicationError(protocol_error()));
                }
                let handshake_from_peer = match read_handshake(read_buffer) {
                    Ok(h) => h,
                    Err(e) => return Err(e),
                };
                send_buffer.add_header(Type::StState);
                send_handshake(send_buffer, self.peer_id, handshake_from_peer.info_hash);
                Ok(HandshakingUpdateSuccess::Complete(handshake_from_peer))
            },
        }
    }
}

/// Where an outgoing uTP connection is in its handshake.
#[derive(Debug, Clone, Copy, PartialEq, Eq, Structural)]
pub enum OutgoingUtpState {
    CsSynSent,
    HandshakeSent,
    HandshakeAcked,
}

/// A uTP connection that we opened, until the handshakes are exchanged.
pub struct OutgoingUtpConnection<A> {
    pub(crate) socket: UtpConnectionInfo<A>,
    state: OutgoingUtpState,
    info_hash: Sha1Hash,
    peer_id: [u8; PEER_ID_LENGTH],
}

impl<A: Copy> OutgoingUtpConnection<A> {
    pub closed spec fn spec_state(&self) -> OutgoingUtpState {
        self.state
    }

    pub closed spec fn spec_socket(&self) -> UtpConnectionInfo<A> {
        self.socket
    }

    pub closed spec fn spec_peer_id(&self) -> [u8; PEER_ID_LENGTH] {
        self.peer_id
    }

    pub closed spec fn spec_info_hash(&self) -> Sha1Hash {
        self.info_hash
    }

    /// Where the handshake is.
    pub fn state(&self) -> (r: OutgoingUtpState)
        ensures
            r == self.spec_state(),
    {
        self.state
    }

    /// The state of the uTP stream, to be updated in place.
    pub fn socket_mut(&mut self) -> (r: &mut UtpConnectionInfo<A>)
        ensures
            *r == old(self).spec_socket(),
            final(self).spec_socket() == *final(r),
            final(self).spec_state() == old(self).spec_state(),
            final(self).spec_peer_id() == old(self).spec_peer_id(),
            final(self).spec_info_hash() == old(self).spec_info_hash(),
    {
        &mut self.socket
    }

    /// The id this end receives with.
    pub fn socket_id(&self) -> (r: u16)
        ensures
            r == self.spec_socket().spec_conn_id_recv(),
    {
        self.socket.get_conn_id_recv()
    }

    /// A connection whose SYN was just sent, for torrent `info_hash`; we are `peer_id`.
    pub fn new(socket: UtpConnectionInfo<A>, info_hash: Sha1Hash, peer_id: [u8; PEER_ID_LENGTH]) -> (r:
        Self)
        ensures
            r.spec_socket() == socket,
            r.spec_state() == OutgoingUtpState::CsSynSent,
            r.spec_info_hash() == info_hash,
            r.spec_peer_id() == peer_id,
    {
        OutgoingUtpConnection { socket, state: OutgoingUtpState::CsSynSent, info_hash, peer_id }
    }

    /// The connection's state, once the handshake is done.
    pub fn promote(self) -> (r: UtpConnectionInfo<A>)
        ensures
            r == self.spec_socket(),
    {
        self.socket
    }

    /// Handles a packet with header `header` whose data is in `read_buffer`. A STATE packet
    /// acknowledging the SYN is answered with our handshake; the next STATE packet
    /// acknowledges it; then a DATA packet must bring the peer's handshake (further STATE
    /// packets are ignored).
    pub fn update(
        &mut self,
        read_buffer: &mut ReadBuffer,
        header: &Header,
        send_buffer: &mut UtpSendBuffer,
    ) -> (r: Result<HandshakingUpdateSuccess, UpdateError>)
        requires
            old(read_buffer).wf(),
            header.type_number() <= 4,
            old(self).spec_state() == OutgoingUtpState::HandshakeAcked && type_of_code(
                header.type_number(),
            ) == Type::StData ==> starts_handshake(old(read_buffer).unread_data()),
        ensures
            final(read_buffer).wf(),
            final(self).spec_peer_id() == old(self).spec_peer_id(),
            final(self).spec_info_hash() == old(self).spec_info_hash(),
            final(self).spec_socket().spec_seq_nr() == old(self).spec_socket().spec_seq_nr(),
            final(send_buffer).headers() == old(send_buffer).headers(),
            ({
                let t = type_of_code(header.type_number());
                match old(self).spec_state() {
                    OutgoingUtpState::CsSynSent => if t != Type::StState {
                        &&& r matches Err(UpdateError::CommunicationError(_))
                        &&& final(self).spec_state() == OutgoingUtpState::CsSynSent
                        &&& final(send_buffer).data() == old(send_buffer).data()
                    } else {
                        &&& r matches Ok(HandshakingUpdateSuccess::NoUpdate)
                        &&& final(self).spec_state() == OutgoingUtpState::HandshakeSent
                        &&& final(self).spec_socket().spec_ack_nr() == (header.seq_nr + 65535)
                            % 65536
                        &&& final(send_buffer).data() == old(send_buffer).data() + (Handshake {
                            info_hash: old(self).spec_info_hash(),
                            peer_id: old(self).spec_peer_id(),
                        }).spec_bytes()
                    },
                    OutgoingUtpState::HandshakeSent => {
                        &&& final(send_buffer).data() == old(send_buffer).data()
                        &&& final(self).spec_socket().spec_ack_nr() == header.seq_nr
                        &&& if t != Type::StState {
                            &&& r matches Err(UpdateError::CommunicationError(_))
                            &&& final(self).spec_state() == OutgoingUtpState::HandshakeSent
                        } else {
                            &&& r matches Ok(HandshakingUpdateSuccess::NoUpdate)
                            &&& final(self).spec_state() == OutgoingUtpState::HandshakeAcked
                        }
                    },
                    OutgoingUtpState::HandshakeAcked => {
                        let unread = old(read_buffer).unread_data();
                        &&& final(send_buffer).data() == old(send_buffer).data()
                        &&& final(self).spec_state() == OutgoingUtpState::HandshakeAcked
                        &&& final(self).spec_socket().spec_ack_nr() == header.seq_nr
                        &&& if t == Type::StState {
                            r matches Ok(HandshakingUpdateSuccess::NoUpdate)
                        } else if t != Type::StData || unread.len() < HANDSHAKE_LENGTH {
                            r matches Err(UpdateError::CommunicationError(_))
                        } else {
                            &&& r matches Ok(HandshakingUpdateSuccess::Complete(h))
                            &&& h.info_hash@ == unread.subrange(28, 48)
                            &&& h.peer_id@ == unread.subrange(48, 68)
                            &&& final(read_buffer).unread_data() == unread.skip(
                                HANDSHAKE_LENGTH as int,
                            )
                        }
                    },
                }
            }),
    {
        self.socket.process_header(header);
        match self.state {
            OutgoingUtpState::CsSynSent => {
                if header.get_type() != Type::StState {
                    return Err(UpdateError::CommunicationError(protocol_error()));
                }
                self.state = OutgoingUtpState::HandshakeSent;
                self.socket.set_ack_nr(header.seq_nr.wrapping_sub(1));
                send_handshake(send_buffer, self.peer_id, self.info_hash);
                Ok(HandshakingUpdateSuccess::NoUpdate)
            },
            OutgoingUtpState::HandshakeSent => {
                if header.get_type() != Type::StState {
                    return Err(UpdateError::CommunicationError(protocol_error()));
                }
                self.state = OutgoingUtpState::HandshakeAcked;
                Ok(HandshakingUpdateSuccess::NoUpdate)
            },
            OutgoingUtpState::HandshakeAcked => {
                if header.get_type() == Type::StState {
                    return Ok(HandshakingUpdateSuccess::NoUpdate);
                }
                if header.get_type() != Type::StData {
                    return Err(UpdateError::CommunicationError(protocol_error()));
                }
                let handshake_from_peer = match read_handshake(read_buffer) {
                    Ok(h) => h,
                    Err(e) => return Err(e),
                };
                Ok(HandshakingUpdateSuccess::Complete(handshake_from_peer))
            },
        }
    }
}

} // verus!
