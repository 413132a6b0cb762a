use vstd::prelude::*;

use crate::client::block_cache::BlockCache;
use crate::client::connection::{protocol_error, UpdateError};
use crate::client::handshaking_connection::starts_with_protocol;
use crate::client::piece_assigner::PieceAssigner;
use crate::client::utp::connection_info::UtpConnectionInfo;
use crate::client::established_connection::State;
use crate::client::utp::established::EstablishedUtpConnection;
use crate::client::utp::handshaking::{
    starts_handshake, HandshakingUpdateSuccess, IncomingUtpConnection, IncomingUtpState,
    OutgoingUtpConnection, OutgoingUtpState,
};
use crate::client::utp::header::{type_of_code, Header, Type};
use crate::client::utp::send_buffer::UtpSendBuffer;
use crate::io::read_buffer::ReadBuffer;
use crate::message::{pstr, Handshake, HANDSHAKE_LENGTH};

verus! {

/// A uTP connection at any stage: in its handshake, either way, or established.
pub enum UtpConnection<A> {
    Incoming(IncomingUtpConnection<A>),
    Outgoing(OutgoingUtpConnection<A>),
    Established(EstablishedUtpConnection<A>),
}

/// What a packet with header `header` and data `unread` does to `before`, a connection in
/// its handshake, leaving `after` with `rest` unread, the send buffer `sb0` turned into
/// `sb1`, and the result `r` (the peer's handshake once it came). A DATA packet that should
/// bring the peer's handshake but does not start with the protocol string breaks the
/// protocol and changes nothing.
pub open spec fn handshake_step<A: Copy>(
    before: UtpConnection<A>,
    after: UtpConnection<A>,
    header: Header,
    unread: Seq<u8>,
    rest: Seq<u8>,
    sb0: UtpSendBuffer,
    sb1: UtpSendBuffer,
    r: Result<Option<Handshake>, UpdateError>,
) -> bool {
    let t = type_of_code(header.type_number());
    match before {
        UtpConnection::Incoming(c) => {
            let c1 = after->Incoming_0;
            &&& after is Incoming
            &&& c1.spec_peer_id() == c.spec_peer_id()
            &&& if c.spec_state() == IncomingUtpState::CsSynRecv {
                &&& r == Ok::<Option<Handshake>, UpdateError>(None)
                &&& c1.spec_state() == IncomingUtpState::CsStateSent
                &&& c1.spec_socket().spec_ack_nr() == header.seq_nr
                &&& sb1.headers() == sb0.headers().push(Type::StState)
                &&& sb1.data() == sb0.data()
                &&& rest == unread
            } else if t == Type::StData && !starts_handshake(unread) {
                &&& r matches Err(UpdateError::CommunicationError(_))
                &&& after == before
                &&& sb1 == sb0
                &&& rest == unread
            } else {
                &&& c1.spec_state() == IncomingUtpState::CsStateSent
                &&& c1.spec_socket().spec_ack_nr() == header.seq_nr
                &&& if t != Type::StData || unread.len() < HANDSHAKE_LENGTH {
                    &&& r matches Err(UpdateError::CommunicationError(_))
                    &&& sb1.headers() == sb0.headers()
                    &&& sb1.data() == sb0.data()
                } else {
                    &&& r matches Ok(Some(h))
                    &&& h.info_hash@ == unread.subrange(28, 48)
                    &&& h.peer_id@ == unread.subrange(48, 68)
                    &&& rest == unread.skip(HANDSHAKE_LENGTH as int)
                    &&& sb1.headers() == sb0.headers().push(Type::StState)
                    &&& sb1.data() == sb0.data() + (Handshake {
                        info_hash: h.info_hash,
                        peer_id: c.spec_peer_id(),
                    }).spec_bytes()
                }
            }
        },
        UtpConnection::Outgoing(c) => {
            let c1 = after->Outgoing_0;
            &&& after is Outgoing
            &&& c1.spec_peer_id() == c.spec_peer_id()
            &&& c1.spec_info_hash() == c.spec_info_hash()
            &&& match c.spec_state() {
                OutgoingUtpState::CsSynSent => {
                    &&& sb1.headers() == sb0.headers()
                    &&& if t != Type::StState {
                        &&& r matches Err(UpdateError::CommunicationError(_))
                        &&& c1.spec_state() == OutgoingUtpState::CsSynSent
                        &&& sb1.data() == sb0.data()
                    } else {
                        &&& r == Ok::<Option<Handshake>, UpdateError>(None)
                        &&& c1.spec_state() == OutgoingUtpState::HandshakeSent
                        &&& c1.spec_socket().spec_ack_nr() == (header.seq_nr + 65535) % 65536
                        &&& sb1.data() == sb0.data() + (Handshake {
                            info_hash: c.spec_info_hash(),
                            peer_id: c.spec_peer_id(),
                        }).spec_bytes()
                    }
                },
                OutgoingUtpState::HandshakeSent => {
                    &&& sb1.headers() == sb0.headers()
                    &&& sb1.data() == sb0.data()
                    &&& c1.spec_socket().spec_ack_nr() == header.seq_nr
                    &&& if t != Type::StState {
                        &&& r matches Err(UpdateError::CommunicationError(_))
                        &&& c1.spec_state() == OutgoingUtpState::HandshakeSent
                    } else {
                        &&& r == Ok::<Option<Handshake>, UpdateError>(None)
                        &&& c1.spec_state() == OutgoingUtpState::HandshakeAcked
                    }
                },
                OutgoingUtpState::HandshakeAcked => if t == Type::StData && !starts_handshake(
                    unread,
                ) {
                    &&& r matches Err(UpdateError::CommunicationError(_))
                    &&& after == before
                    &&& sb1 == sb0
                    &&& rest == unread
                } else {
                    &&& sb1.headers() == sb0.headers()
                    &&& sb1.data() == sb0.data()
                    &&& c1.spec_state() == OutgoingUtpState::HandshakeAcked
                    &&& c1.spec_socket().spec_ack_nr() == header.seq_nr
                    &&& if t == Type::StState {
                        r == Ok::<Option<Handshake>, UpdateError>(None)
                    } else if t != Type::StData || unread.len() < HANDSHAKE_LENGTH {
                        r matches Err(UpdateError::CommunicationError(_))
                    } else {
                        &&& r matches Ok(Some(h))
                        &&& h.info_hash@ == unread.subrange(28, 48)
                        &&& h.peer_id@ == unread.subrange(48, 68)
                        &&& rest == unread.skip(HANDSHAKE_LENGTH as int)
                    }
                },
            }
        },
        UtpConnection::Established(_) => true,
    }
}

/// What a packet with header `header` and data `unread` brings a connection in its
/// handshake: `None` when it breaks the protocol, `Some(None)` while the handshake goes on,
/// and `Some(Some((info_hash, peer_id)))` once the peer's handshake came, with the info
/// hash and the peer id it names.
pub open spec fn handshake_reply<A: Copy>(
    c: UtpConnection<A>,
    header: Header,
    unread: Seq<u8>,
) -> Option<Option<(Seq<u8>, Seq<u8>)>> {
    let t = type_of_code(header.type_number());
    let complete = Some(Some((unread.subrange(28, 48), unread.subrange(48, 68))));
    let bad_data = t != Type::StData || !starts_handshake(unread) || unread.len()
        < HANDSHAKE_LENGTH;
    match c {
        UtpConnection::Incoming(i) => if i.spec_state() == IncomingUtpState::CsSynRecv {
            Some(None)
        } else if bad_data {
            None
        } else {
            complete
        },
        UtpConnection::Outgoing(o) => match o.spec_state() {
            OutgoingUtpState::HandshakeAcked => if t == Type::StState {
                Some(None)
            } else if bad_data {
                None
            } else {
                complete
            },
            _ => if t != Type::StState {
                None
            } else {
                Some(None)
            },
        },
        UtpConnection::Established(_) => Some(None),
    }
}

/// The handshake of a connection the peer opens: its first packet is acknowledged, and a
/// data packet that then brings the peer's handshake completes it; by then two
/// acknowledgements and our handshake, for the peer's torrent, are queued.
pub proof fn lemma_incoming_handshake<A: Copy>(
    c0: UtpConnection<A>,
    c1: UtpConnection<A>,
    c2: UtpConnection<A>,
    h1: Header,
    h2: Header,
    u1: Seq<u8>,
    rest1: Seq<u8>,
    u2: Seq<u8>,
    rest2: Seq<u8>,
    sb0: UtpSendBuffer,
    sb1: UtpSendBuffer,
    sb2: UtpSendBuffer,
    r1: Result<Option<Handshake>, UpdateError>,
    r2: Result<Option<Handshake>, UpdateError>,
)
    requires
        c0 matches UtpConnection::Incoming(c) && c.spec_state() == IncomingUtpState::CsSynRecv,
        handshake_step(c0, c1, h1, u1, rest1, sb0, sb1, r1),
        handshake_step(c1, c2, h2, u2, rest2, sb1, sb2, r2),
        type_of_code(h2.type_number()) == Type::StData,
        starts_handshake(u2),
        u2.len() >= HANDSHAKE_LENGTH,
    ensures
        r1 == Ok::<Option<Handshake>, UpdateError>(None),
        r2 matches Ok(Some(h)) && h.info_hash@ == u2.subrange(28, 48) && h.peer_id@
            == u2.subrange(48, 68),
        sb2.headers() == sb0.headers().push(Type::StState).push(Type::StState),
        sb2.data() == sb0.data() + seq![19u8] + pstr() + Seq::new(8, |i: int| 0u8)
            + u2.subrange(28, 48) + c0->Incoming_0.spec_peer_id()@,
        rest2 == u2.skip(HANDSHAKE_LENGTH as int),
{
    let h = r2->Ok_0->Some_0;
    assert(sb2.data() == sb1.data() + (Handshake {
        info_hash: h.info_hash,
        peer_id: c1->Incoming_0.spec_peer_id(),
    }).spec_bytes());
}

/// How far the handshake of a connection we open has come: 0 until the peer answers our
/// first packet, 1 until it acknowledges our handshake, 2 after.
pub open spec fn outgoing_stage(s: OutgoingUtpState) -> int {
    match s {
        OutgoingUtpState::CsSynSent => 0,
        OutgoingUtpState::HandshakeSent => 1,
        OutgoingUtpState::HandshakeAcked => 2,
    }
}

/// The packets with headers `hs` and data `us` came one after the other to the connection
/// `cs[0]`, in its handshake: packet `i` turned `cs[i]` into `cs[i + 1]`, left `rests[i]`
/// unread, turned the send buffer `sbs[i]` into `sbs[i + 1]` and gave `rs[i]`.
pub open spec fn handshake_run<A: Copy>(
    cs: Seq<UtpConnection<A>>,
    hs: Seq<Header>,
    us: Seq<Seq<u8>>,
    rests: Seq<Seq<u8>>,
    sbs: Seq<UtpSendBuffer>,
    rs: Seq<Result<Option<Handshake>, UpdateError>>,
) -> bool {
    &&& cs.len() == hs.len() + 1
    &&& us.len() == hs.len()
    &&& rests.len() == hs.len()
    &&& sbs.len() == hs.len() + 1
    &&& rs.len() == hs.len()
    &&& forall|i: int|
        0 <= i < hs.len() ==> #[trigger] handshake_step(
            cs[i],
            cs[i + 1],
            hs[i],
            us[i],
            rests[i],
            sbs[i],
            sbs[i + 1],
            rs[i],
        )
}

/// Packet `i` of the run was the peer's answer to our first packet: a STATE packet that
/// found the connection at stage 0, went through, and queued our handshake `hb`.
pub open spec fn answered_at<A: Copy>(
    cs: Seq<UtpConnection<A>>,
    hs: Seq<Header>,
    sbs: Seq<UtpSendBuffer>,
    rs: Seq<Result<Option<Handshake>, UpdateError>>,
    hb: Seq<u8>,
    i: int,
) -> bool {
    &&& type_of_code(hs[i].type_number()) == Type::StState
    &&& outgoing_stage(cs[i]->Outgoing_0.spec_state()) == 0
    &&& rs[i] == Ok::<Option<Handshake>, UpdateError>(None)
    &&& sbs[i + 1].data() == sbs[i].data() + hb
}

/// Packet `j` of the run acknowledged our handshake: a STATE packet that found the
/// connection at stage 1 and went through.
pub open spec fn acked_at<A: Copy>(
    cs: Seq<UtpConnection<A>>,
    hs: Seq<Header>,
    rs: Seq<Result<Option<Handshake>, UpdateError>>,
    j: int,
) -> bool {
    &&& type_of_code(hs[j].type_number()) == Type::StState
    &&& outgoing_stage(cs[j]->Outgoing_0.spec_state()) == 1
    &&& rs[j] == Ok::<Option<Handshake>, UpdateError>(None)
}

/// After the first `m` packets of a run from an outgoing connection at stage 0, the
/// connection is still outgoing, for the same torrent and peer id, and each stage it
/// reached was reached by its own STATE packet.
proof fn lemma_outgoing_prefix<A: Copy>(
    cs: Seq<UtpConnection<A>>,
    hs: Seq<Header>,
    us: Seq<Seq<u8>>,
    rests: Seq<Seq<u8>>,
    sbs: Seq<UtpSendBuffer>,
    rs: Seq<Result<Option<Handshake>, UpdateError>>,
    m: int,
)
    requires
        handshake_run(cs, hs, us, rests, sbs, rs),
        cs[0] matches UtpConnection::Outgoing(c) && c.spec_state() == OutgoingUtpState::CsSynSent,
        0 <= m <= hs.len(),
    ensures
        cs[m] is Outgoing,
        cs[m]->Outgoing_0.spec_info_hash() == cs[0]->Outgoing_0.spec_info_hash(),
        cs[m]->Outgoing_0.spec_peer_id() == cs[0]->Outgoing_0.spec_peer_id(),
        ({
            let hb = (Handshake {
                info_hash: cs[0]->Outgoing_0.spec_info_hash(),
                peer_id: cs[0]->Outgoing_0.spec_peer_id(),
            }).spec_bytes();
            let st = outgoing_stage(cs[m]->Outgoing_0.spec_state());
            &&& st >= 1 ==> exists|i: int| 0 <= i < m && #[trigger] answered_at(cs, hs, sbs, rs, hb, i)
            &&& st >= 2 ==> exists|i: int, j: int|
                0 <= i < j < m && #[trigger] answered_at(cs, hs, sbs, rs, hb, i) && #[trigger] acked_at(
                    cs,
                    hs,
                    rs,
                    j,
                )
        }),
    decreases m,
{
    if m > 0 {
        let k = m - 1;
        lemma_outgoing_prefix(cs, hs, us, rests, sbs, rs, k);
        assert(handshake_step(cs[k], cs[k + 1], hs[k], us[k], rests[k], sbs[k], sbs[k + 1], rs[k]));
        let hb = (Handshake {
            info_hash: cs[0]->Outgoing_0.spec_info_hash(),
            peer_id: cs[0]->Outgoing_0.spec_peer_id(),
        }).spec_bytes();
        let st0 = outgoing_stage(cs[k]->Outgoing_0.spec_state());
        let st1 = outgoing_stage(cs[m]->Outgoing_0.spec_state());
        if st1 >= 1 {
            if st0 == 0 {
                assert(answered_at(cs, hs, sbs, rs, hb, k));
            } else {
                let i = choose|i: int| 0 <= i < k && #[trigger] answered_at(cs, hs, sbs, rs, hb, i);
                assert(answered_at(cs, hs, sbs, rs, hb, i));
            }
        }
        if st1 >= 2 {
            if st0 == 1 {
                let i = choose|i: int| 0 <= i < k && #[trigger] answered_at(cs, hs, sbs, rs, hb, i);
                assert(acked_at(cs, hs, rs, k));
                assert(answered_at(cs, hs, sbs, rs, hb, i));
            } else {
                assert(st0 == 2);
                let (i, j) = choose|i: int, j: int|
                    0 <= i < j < k && #[trigger] answered_at(cs, hs, sbs, rs, hb, i)
                        && #[trigger] acked_at(cs, hs, rs, j);
                assert(answered_at(cs, hs, sbs, rs, hb, i) && acked_at(cs, hs, rs, j));
            }
        }
    }
}

/// The handshake of a connection we open, over any run of packets: a packet that breaks
/// the protocol leaves the handshake at its stage, and the peer's handshake is taken only
/// from a DATA packet that carries it, after one STATE packet answered our first packet
/// (and queued our handshake, for our torrent and peer id) and a later one acknowledged
/// our handshake.
pub proof fn lemma_outgoing_handshake<A: Copy>(
    cs: Seq<UtpConnection<A>>,
    hs: Seq<Header>,
    us: Seq<Seq<u8>>,
    rests: Seq<Seq<u8>>,
    sbs: Seq<UtpSendBuffer>,
    rs: Seq<Result<Option<Handshake>, UpdateError>>,
    k: int,
)
    requires
        handshake_run(cs, hs, us, rests, sbs, rs),
        cs[0] matches UtpConnection::Outgoing(c) && c.spec_state() == OutgoingUtpState::CsSynSent,
        0 <= k < hs.len(),
    ensures
        cs[k + 1] is Outgoing,
        rs[k] is Err ==> cs[k + 1]->Outgoing_0.spec_state() == cs[k]->Outgoing_0.spec_state(),
        rs[k] is Err ==> rs[k] matches Err(UpdateError::CommunicationError(_)),
        rs[k] matches Ok(Some(h)) ==> {
            let hb = (Handshake {
                info_hash: cs[0]->Outgoing_0.spec_info_hash(),
                peer_id: cs[0]->Outgoing_0.spec_peer_id(),
            }).spec_bytes();
            &&& type_of_code(hs[k].type_number()) == Type::StData
            &&& h.info_hash@ == us[k].subrange(28, 48)
            &&& h.peer_id@ == us[k].subrange(48, 68)
            &&& exists|i: int, j: int|
                0 <= i < j < k && #[trigger] answered_at(cs, hs, sbs, rs, hb, i) && #[trigger] acked_at(
                    cs,
                    hs,
                    rs,
                    j,
                )
        },
{
    lemma_outgoing_prefix(cs, hs, us, rests, sbs, rs, k);
    lemma_outgoing_prefix(cs, hs, us, rests, sbs, rs, k + 1);
    assert(handshake_step(cs[k], cs[k + 1], hs[k], us[k], rests[k], sbs[k], sbs[k + 1], rs[k]));
}

impl<A: Copy> UtpConnection<A> {
    /// The state of the uTP stream of a connection whose handshake is done, to be
    /// established.
    pub fn promote(self) -> (r: UtpConnectionInfo<A>)
        requires
            !(self is Established),
        ensures
            self matches UtpConnection::Incoming(c) ==> r == c.spec_socket(),
            self matches UtpConnection::Outgoing(c) ==> r == c.spec_socket(),
    {
        match self {
            UtpConnection::Incoming(conn) => conn.promote(),
            UtpConnection::Outgoing(conn) => conn.promote(),
            UtpConnection::Established(conn) => {
                proof {
                    assert(false);
                }
                conn.into_stream()
            },
        }
    }

    /// The state of the connection's uTP stream, to be updated in place.
    pub fn connection_info(&mut self) -> (r: &mut UtpConnectionInfo<A>)
        ensures
            *old(self) matches UtpConnection::Incoming(c) ==> {
                &&& *r == c.spec_socket()
                &&& *final(self) is Incoming
                &&& (*final(self))->Incoming_0.spec_socket() == *final(r)
                &&& (*final(self))->Incoming_0.spec_state() == c.spec_state()
                &&& (*final(self))->Incoming_0.spec_peer_id() == c.spec_peer_id()
            },
            *old(self) matches UtpConnection::Outgoing(c) ==> {
                &&& *r == c.spec_socket()
                &&& *final(self) is Outgoing
                &&& (*final(self))->Outgoing_0.spec_socket() == *final(r)
                &&& (*final(self))->Outgoing_0.spec_state() == c.spec_state()
                &&& (*final(self))->Outgoing_0.spec_peer_id() == c.spec_peer_id()
                &&& (*final(self))->Outgoing_0.spec_info_hash() == c.spec_info_hash()
            },
            *old(self) matches UtpConnection::Established(c) ==> {
                &&& *r == c.spec_stream()
                &&& *final(self) is Established
                &&& (*final(self))->Established_0.spec_stream() == *final(r)
            },
    {
        match self {
            UtpConnection::Incoming(c) => c.socket_mut(),
            UtpConnection::Outgoing(c) => c.socket_mut(),
            UtpConnection::Established(c) => c.stream_mut(),
        }
    }

    /// Handles a packet with header `header` whose data is unread in `read_buffer` at the
    /// connection's stage. Gives the peer's handshake once it came; a handshake that does
    /// not start with the protocol string breaks the protocol.
    pub fn update(
        &mut self,
        header: &Header,
        read_buffer: &mut ReadBuffer,
        send_buffer: &mut UtpSendBuffer,
        piece_assigner: &mut PieceAssigner,
        block_cache: &mut BlockCache,
    ) -> (r: Result<Option<Handshake>, UpdateError>)
        requires
            header.type_number() <= 4,
            old(read_buffer).wf(),
            *old(self) is Established ==> {
                &&& (*old(self))->Established_0.wf(*old(block_cache))
                &&& old(block_cache).wf()
                &&& old(piece_assigner).wf()
                &&& old(piece_assigner).info() == old(block_cache).info()
            },
        ensures
            final(read_buffer).wf(),
            (*old(self) is Incoming) == (*final(self) is Incoming),
            (*old(self) is Outgoing) == (*final(self) is Outgoing),
            (*old(self) is Established) == (*final(self) is Established),
            !(*old(self) is Established) ==> handshake_step(
                *old(self),
                *final(self),
                *header,
                old(read_buffer).unread_data(),
                final(read_buffer).unread_data(),
                *old(send_buffer),
                *final(send_buffer),
                r,
            ),
            *old(self) matches UtpConnection::Established(c) ==> {
                let c1 = (*final(self))->Established_0;
                let t = type_of_code(header.type_number());
                &&& c1.spec_info_hash() == c.spec_info_hash()
                &&& t == Type::StState ==> (r == Ok::<Option<Handshake>, UpdateError>(None)
                    && *final(self) == *old(self) && *final(read_buffer) == *old(read_buffer)
                    && *final(send_buffer) == *old(send_buffer))
                &&& t != Type::StState && t != Type::StData ==> (r matches Err(
                    UpdateError::CommunicationError(_),
                ) && *final(self) == *old(self) && *final(send_buffer) == *old(send_buffer))
                &&& t == Type::StData ==> {
                    &&& c1.spec_stream().spec_ack_nr() == header.seq_nr
                    &&& final(send_buffer).headers() == old(send_buffer).headers().push(
                        Type::StState,
                    )
                    &&& c.spec_state() == State::Seeding ==> c1.spec_state() == State::Seeding
                        && r == Ok::<Option<Handshake>, UpdateError>(None)
                    &&& header.seq_nr != c.spec_next_seq() ==> c1.waiting() == c.waiting().insert(
                        header.seq_nr,
                        old(read_buffer).unread_data(),
                    )
                }
            },
            *old(self) is Established ==> {
                &&& (r matches Ok(h) ==> h is None)
                &&& (*final(self))->Established_0.wf(*final(block_cache))
                &&& final(block_cache).wf()
                &&& final(piece_assigner).wf()
                &&& final(piece_assigner).info() == final(block_cache).info()
                &&& final(block_cache).info() == old(block_cache).info()
            },
            *old(self) matches UtpConnection::Incoming(c) ==> {
                &&& (*final(self))->Incoming_0.spec_peer_id() == c.spec_peer_id()
                &&& (c.spec_state() == IncomingUtpState::CsSynRecv ==> r matches Ok(None))
                &&& (r matches Ok(Some(h)) ==> h.info_hash@ == old(read_buffer).unread_data().subrange(28, 48)
                    && h.peer_id@ == old(read_buffer).unread_data().subrange(48, 68))
            },
            *old(self) matches UtpConnection::Outgoing(c) ==> {
                &&& (*final(self))->Outgoing_0.spec_peer_id() == c.spec_peer_id()
                &&& (*final(self))->Outgoing_0.spec_info_hash() == c.spec_info_hash()
            },
    {
        match self {
            UtpConnection::Established(conn) => {
                match conn.update(read_buffer, header, send_buffer, piece_assigner, block_cache) {
                    Ok(_) => Ok(None),
                    Err(e) => Err(e),
                }
            },
            _ => self.handshake_update(header, read_buffer, send_buffer),
        }
    }

    /// Handles a packet with header `header` whose data is unread in `read_buffer` on a
    /// connection in its handshake. Gives the peer's handshake once it came; a handshake
    /// that does not start with the protocol string breaks the protocol.
    pub fn handshake_update(
        &mut self,
        header: &Header,
        read_buffer: &mut ReadBuffer,
        send_buffer: &mut UtpSendBuffer,
    ) -> (r: Result<Option<Handshake>, UpdateError>)
        requires
            header.type_number() <= 4,
            old(read_buffer).wf(),
            !(*old(self) is Established),
        ensures
            final(read_buffer).wf(),
            (*old(self) is Incoming) == (*final(self) is Incoming),
            (*old(self) is Outgoing) == (*final(self) is Outgoing),
            !(*final(self) is Established),
            r matches Err(e) ==> e is CommunicationError,
            match handshake_reply(*old(self), *header, old(read_buffer).unread_data()) {
                None => r is Err,
                Some(None) => r == Ok::<Option<Handshake>, UpdateError>(None),
                Some(Some((ih, pid))) => r matches Ok(Some(h)) && h.info_hash@ == ih
                    && h.peer_id@ == pid,
            },
            handshake_step(
                *old(self),
                *final(self),
                *header,
                old(read_buffer).unread_data(),
                final(read_buffer).unread_data(),
                *old(send_buffer),
                *final(send_buffer),
                r,
            ),
            *old(self) matches UtpConnection::Incoming(c) ==> {
                &&& (*final(self))->Incoming_0.spec_peer_id() == c.spec_peer_id()
                &&& (c.spec_state() == IncomingUtpState::CsSynRecv ==> r matches Ok(None))
                &&& (r matches Ok(Some(h)) ==> h.info_hash@ == old(read_buffer).unread_data().subrange(28, 48)
                    && h.peer_id@ == old(read_buffer).unread_data().subrange(48, 68))
            },
            *old(self) matches UtpConnection::Outgoing(c) ==> {
                &&& (*final(self))->Outgoing_0.spec_peer_id() == c.spec_peer_id()
                &&& (*final(self))->Outgoing_0.spec_info_hash() == c.spec_info_hash()
            },
    {
        match self {
            UtpConnection::Incoming(conn) => {
                if conn.state() == IncomingUtpState::CsStateSent && header.get_type() == Type::StData
                    && !starts_with_protocol(read_buffer.get_unread()) {
                    return Err(UpdateError::CommunicationError(protocol_error()));
                }
                match conn.update(read_buffer, header, send_buffer) {
                    Ok(HandshakingUpdateSuccess::Complete(handshake)) => Ok(Some(handshake)),
                    Ok(HandshakingUpdateSuccess::NoUpdate) => Ok(None),
                    Err(e) => Err(e),
                }
            },
            UtpConnection::Outgoing(conn) => {
                if conn.state() == OutgoingUtpState::HandshakeAcked && header.get_type()
                    == Type::StData && !starts_with_protocol(read_buffer.get_unread()) {
                    return Err(UpdateError::CommunicationError(protocol_error()));
                }
                match conn.update(read_buffer, header, send_buffer) {
                    Ok(HandshakingUpdateSuccess::Complete(handshake)) => Ok(Some(handshake)),
                    Ok(HandshakingUpdateSuccess::NoUpdate) => Ok(None),
                    Err(e) => Err(e),
                }
            },
            UtpConnection::Established(_) => {
                proof {
                    assert(false);
                }
                Ok(None)
            },
        }
    }
}

} // verus!
