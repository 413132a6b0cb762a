use vstd::prelude::*;

use crate::client::connection::{protocol_error, UpdateError};
use crate::common::bits::{bits, bitvec_len, bitvec_set, bitvec_truncate, bytes_to_bits};
use crate::common::hash::Sha1Hash;
use crate::io::read_buffer::ReadBuffer;
use crate::message::{
    Bitfield, Cancel, Choke, Have, Interested, NotInterested, Port, ProtocolMessage, Request, Unchoke,
};
use crate::wire::{from_be32, lemma_be32_roundtrip};
use bit_vec::BitVec;

verus! {

/// The error of input that ended before a message did (`std::io::ErrorKind::UnexpectedEof`).
#[verifier::external_body]
pub(crate) fn unexpected_eof_error() -> std::io::Error {
    std::io::Error::from(std::io::ErrorKind::UnexpectedEof)
}

/// What a connection knows of its peer.
pub struct PeerData {
    pub peer_choking: bool,
    pub peer_interested: bool,
    pub peer_has: BitVec,
    pub pending_peer_cancels: Vec<Cancel>,
    pub num_pieces: usize,
    pub info_hash: Sha1Hash,
}

impl PeerData {
    /// A peer that has no piece yet, does not choke and is interested.
    pub fn new(info_hash: Sha1Hash, num_pieces: usize) -> (r: PeerData)
        ensures
            !r.peer_choking,
            r.peer_interested,
            bits(r.peer_has) == Seq::new(num_pieces as nat, |i: int| false),
            r.pending_peer_cancels@ == Seq::<Cancel>::empty(),
            r.num_pieces == num_pieces,
            r.info_hash == info_hash,
    {
        PeerData {
            peer_choking: false,
            peer_interested: true,
            peer_has: crate::common::bits::bitvec_from_elem(num_pieces, false),
            pending_peer_cancels: Vec::new(),
            num_pieces,
            info_hash,
        }
    }
}

/// What a message asks of the connection beyond updating what it knows of the peer.
pub enum Dispatched {
    /// Nothing more.
    Success,
    /// The peer requests a block, to be read from disk and sent.
    PeerRequest(Request),
    /// A block arrived; its data is still unread in the buffer.
    BlockArrived,
}

/// The peer's requests waiting for the disk, `before` once a message that came to `d` was
/// handled: a request is queued, and nothing else changes them.
pub open spec fn queued(before: Seq<Request>, d: Result<Dispatched, UpdateError>) -> Seq<Request> {
    match d {
        Ok(Dispatched::PeerRequest(request)) => before.push(request),
        _ => before,
    }
}

/// Ids of the messages handled here.
pub open spec fn fixed_length(id: u8) -> Option<u32> {
    if id <= 3 {
        Some(1)
    } else if id == 4 {
        Some(5)
    } else if id == 6 || id == 8 {
        Some(13)
    } else if id == 9 {
        Some(3)
    } else {
        None
    }
}

/// Whether handling a message with id `id` and length `length` (counting the id), its data
/// at the start of `unread`, succeeds for a peer known as `before`: the data of a `Have`,
/// `Bitfield`, `Request`, `Cancel` or `Port` is all there, a `Have` names one of the
/// peer's pieces, and the id is known. A block is taken elsewhere.
pub open spec fn dispatch_ok(unread: Seq<u8>, length: u32, id: u8, before: PeerData) -> bool {
    if id <= 3 || id == 7 {
        true
    } else if id == 4 {
        unread.len() >= 4 && from_be32(unread.take(4)) < bits(before.peer_has).len()
    } else if id == 5 {
        unread.len() >= length - 1
    } else if id == 6 || id == 8 {
        unread.len() >= 12
    } else if id == 9 {
        unread.len() >= 2
    } else {
        false
    }
}

/// What handling a message with id `id` and length `length` (counting the id) does, its
/// data being at the start of `unread`: the result, and what is known of the peer
/// `after`, from what was known `before`.
pub open spec fn dispatched(
    unread: Seq<u8>,
    length: u32,
    id: u8,
    before: PeerData,
    after: PeerData,
    r: Result<Dispatched, UpdateError>,
) -> bool {
    &&& after.num_pieces == before.num_pieces
    &&& after.info_hash == before.info_hash
    &&& id == 0 ==> (r matches Ok(Dispatched::Success) && after.peer_choking
        && after.peer_interested == before.peer_interested)
    &&& id == 1 ==> (r matches Ok(Dispatched::Success) && !after.peer_choking
        && after.peer_interested == before.peer_interested)
    &&& id == 2 ==> (r matches Ok(Dispatched::Success) && after.peer_interested
        && after.peer_choking == before.peer_choking)
    &&& id == 3 ==> (r matches Ok(Dispatched::Success) && !after.peer_interested
        && after.peer_choking == before.peer_choking)
    &&& id == 4 ==> {
        let index = from_be32(unread.take(4));
        if unread.len() < 4 {
            r matches Err(UpdateError::CommunicationError(_)) && bits(after.peer_has) == bits(
                before.peer_has,
            )
        } else if index >= bits(before.peer_has).len() {
            r matches Err(UpdateError::IndexOutOfBounds) && bits(after.peer_has) == bits(
                before.peer_has,
            )
        } else {
            r matches Ok(Dispatched::Success) && bits(after.peer_has) == bits(
                before.peer_has,
            ).update(index as int, true)
        }
    }
    &&& id == 5 ==> {
        let received = bytes_to_bits(unread.take(length - 1));
        if unread.len() < length - 1 {
            r matches Err(UpdateError::CommunicationError(_)) && bits(after.peer_has) == bits(
                before.peer_has,
            )
        } else {
            r matches Ok(Dispatched::Success) && bits(after.peer_has) == if before.num_pieces
                < received.len() {
                received.take(before.num_pieces as int)
            } else {
                received
            }
        }
    }
    &&& id == 6 ==> {
        if unread.len() < 12 {
            r matches Err(UpdateError::CommunicationError(_))
        } else {
            r matches Ok(Dispatched::PeerRequest(request)) && request.index == from_be32(
                unread.take(4),
            ) && request.begin == from_be32(unread.subrange(4, 8)) && request.length
                == from_be32(unread.subrange(8, 12))
        }
    }
    &&& id == 7 ==> (r matches Ok(Dispatched::BlockArrived))
    &&& id == 8 ==> {
        if unread.len() < 12 {
            r matches Err(UpdateError::CommunicationError(_)) && after.pending_peer_cancels
                == before.pending_peer_cancels
        } else {
            r matches Ok(Dispatched::Success) && after.pending_peer_cancels@.len()
                == before.pending_peer_cancels@.len() + 1 && {
                let c = after.pending_peer_cancels@.last();
                &&& after.pending_peer_cancels@.drop_last() =~= before.pending_peer_cancels@
                &&& c.index == from_be32(unread.take(4))
                &&& c.begin == from_be32(unread.subrange(4, 8))
                &&& c.length == from_be32(unread.subrange(8, 12))
            }
        }
    }
    &&& id == 9 ==> (unread.len() < 2 ==> r matches Err(UpdateError::CommunicationError(_)))
        && (unread.len() >= 2 ==> r matches Ok(Dispatched::Success))
    &&& id > 9 ==> (r matches Err(UpdateError::UnknownMessage { id: unknown }) && unknown == id)
    &&& id != 4 && id != 5 ==> bits(after.peer_has) == bits(before.peer_has)
    &&& id != 8 ==> after.pending_peer_cancels == before.pending_peer_cancels
    &&& id > 3 ==> after.peer_choking == before.peer_choking && after.peer_interested
        == before.peer_interested
}

/// Reads the message with id `id` and length `length` (which counts the id, already read)
/// from `read_buffer` and updates what the connection knows of the peer. A message of a
/// fixed size must have that size, and a bitfield must fit in memory.
pub fn dispatch_message(read_buffer: &mut ReadBuffer, length: u32, id: u8, peer_data: &mut PeerData) -> (r:
    Result<Dispatched, UpdateError>)
    requires
        old(read_buffer).wf(),
        fixed_length(id) matches Some(l) ==> length == l,
        id == 5 ==> length >= 1 && 8 * (length - 1) <= usize::MAX,
    ensures
        final(read_buffer).wf(),
        final(read_buffer).unread_data().len() <= old(read_buffer).unread_data().len(),
        final(peer_data).num_pieces == old(peer_data).num_pieces,
        final(peer_data).info_hash == old(peer_data).info_hash,
        id <= 3 ==> final(read_buffer).unread_data() == old(read_buffer).unread_data(),
        id == 7 ==> final(read_buffer).unread_data() == old(read_buffer).unread_data(),
        dispatched(old(read_buffer).unread_data(), length, id, *old(peer_data), *final(peer_data), r),
        r is Ok && id != 7 ==> final(read_buffer).unread_data() == old(read_buffer).unread_data().skip(
            length - 1,
        ),
{
    proof {
        assert(old(read_buffer).unread_data().skip(0) =~= old(read_buffer).unread_data());
    }
    if id == 0 {
        peer_data.peer_choking = true;
        Ok(Dispatched::Success)
    } else if id == 1 {
        peer_data.peer_choking = false;
        Ok(Dispatched::Success)
    } else if id == 2 {
        peer_data.peer_interested = true;
        Ok(Dispatched::Success)
    } else if id == 3 {
        peer_data.peer_interested = false;
        Ok(Dispatched::Success)
    } else if id == 4 {
        let msg = match Have::read_from(read_buffer, length) {
            Ok(m) => m,
            Err(_) => return Err(UpdateError::CommunicationError(unexpected_eof_error())),
        };
        proof {
            crate::wire::lemma_be32_roundtrip(msg.index);
            let unread = old(read_buffer).unread_data();
            assert(crate::wire::be32(msg.index) =~= unread.take(4)) by {
                assert(crate::wire::be32(5) + seq![4u8] + crate::wire::be32(msg.index) =~= crate::wire::be32(5) + seq![4u8] + unread.take(4));
                assert((crate::wire::be32(5) + seq![4u8] + crate::wire::be32(msg.index)).skip(5) =~= crate::wire::be32(msg.index));
                assert((crate::wire::be32(5) + seq![4u8] + unread.take(4)).skip(5) =~= unread.take(4));
            }
        }
        let index = msg.index as usize;
        if index >= bitvec_len(&peer_data.peer_has) {
            return Err(UpdateError::IndexOutOfBounds);
        }
        bitvec_set(&mut peer_data.peer_has, index, true);
        Ok(Dispatched::Success)
    } else if id == 5 {
        let msg = match Bitfield::read_from(read_buffer, length) {
            Ok(m) => m,
            Err(_) => return Err(UpdateError::CommunicationError(unexpected_eof_error())),
        };
        peer_data.peer_has = msg.bitfield;
        bitvec_truncate(&mut peer_data.peer_has, peer_data.num_pieces);
        Ok(Dispatched::Success)
    } else if id == 6 {
        let msg = match Request::read_from(read_buffer, length) {
            Ok(m) => m,
            Err(_) => return Err(UpdateError::CommunicationError(unexpected_eof_error())),
        };
        proof {
            lemma_triple_fields(6, msg.index, msg.begin, msg.length, old(read_buffer).unread_data().take(12));
        }
        Ok(Dispatched::PeerRequest(msg))
    } else if id == 7 {
        Ok(Dispatched::BlockArrived)
    } else if id == 8 {
        let msg = match Cancel::read_from(read_buffer, length) {
            Ok(m) => m,
            Err(_) => return Err(UpdateError::CommunicationError(unexpected_eof_error())),
        };
        proof {
            lemma_triple_fields(8, msg.index, msg.begin, msg.length, old(read_buffer).unread_data().take(12));
        }
        peer_data.pending_peer_cancels.push(msg);
        Ok(Dispatched::Success)
    } else if id == 9 {
        match Port::read_from(read_buffer, length) {
            Ok(_) => Ok(Dispatched::Success),
            Err(_) => Err(UpdateError::CommunicationError(unexpected_eof_error())),
        }
    } else {
        Err(UpdateError::UnknownMessage { id })
    }
}

/// Whether `length` (counting the id) is one a message with id `id` can have: the size of
/// a fixed-size message, and for a bitfield one whose bits fit in memory.
pub open spec fn length_ok(id: u8, length: u32) -> bool {
    &&& fixed_length(id) matches Some(l) ==> length == l
    &&& id == 5 ==> length >= 1 && 8 * (length - 1) <= usize::MAX
}

/// Checks the length of a message against what its id calls for, then dispatches it: a
/// length it cannot have breaks the protocol and changes nothing.
pub fn dispatch_checked(read_buffer: &mut ReadBuffer, length: u32, id: u8, peer_data: &mut PeerData) -> (r:
    Result<Dispatched, UpdateError>)
    requires
        old(read_buffer).wf(),
    ensures
        final(read_buffer).wf(),
        final(read_buffer).unread_data().len() <= old(read_buffer).unread_data().len(),
        final(peer_data).num_pieces == old(peer_data).num_pieces,
        final(peer_data).info_hash == old(peer_data).info_hash,
        !length_ok(id, length) ==> (r matches Err(UpdateError::CommunicationError(_))
            && *final(read_buffer) == *old(read_buffer) && *final(peer_data) == *old(peer_data)),
        id == 7 && length_ok(id, length) ==> (r matches Ok(Dispatched::BlockArrived)
            && *final(read_buffer) == *old(read_buffer) && *final(peer_data) == *old(peer_data)),
        length_ok(id, length) ==> dispatched(
            old(read_buffer).unread_data(),
            length,
            id,
            *old(peer_data),
            *final(peer_data),
            r,
        ),
        id > 9 ==> (r matches Err(UpdateError::UnknownMessage { id: unknown }) && unknown == id),
        r matches Ok(Dispatched::PeerRequest(_)) ==> id == 6,
        r is Ok && id != 7 ==> final(read_buffer).unread_data() == old(read_buffer).unread_data().skip(
            length - 1,
        ),
{
    let fixed: Option<u32> = if id <= 3 {
        Some(1)
    } else if id == 4 {
        Some(5)
    } else if id == 6 || id == 8 {
        Some(13)
    } else if id == 9 {
        Some(3)
    } else {
        None
    };
    match fixed {
        Some(expected) => {
            if length != expected {
                return Err(UpdateError::CommunicationError(protocol_error()));
            }
        },
        None => {},
    }
    if id == 5 && (length < 1 || (length as u64 - 1) > (usize::MAX as u64) / 8) {
        return Err(UpdateError::CommunicationError(protocol_error()));
    }
    if id == 7 {
        return Ok(Dispatched::BlockArrived);
    }
    dispatch_message(read_buffer, length, id, peer_data)
}

/// The fields of a message with three `u32` fields are read back from its data.
proof fn lemma_triple_fields(id: u8, a: u32, b: u32, c: u32, data: Seq<u8>)
    requires
        data.len() == 12,
        crate::message::triple_bytes(id, a, b, c) == crate::wire::be32(13) + seq![id] + data,
    ensures
        a == from_be32(data.take(4)),
        b == from_be32(data.subrange(4, 8)),
        c == from_be32(data.subrange(8, 12)),
{
    crate::wire::lemma_be32_roundtrip(a);
    crate::wire::lemma_be32_roundtrip(b);
    crate::wire::lemma_be32_roundtrip(c);
    let whole = crate::wire::be32(13) + seq![id] + data;
    assert(whole.subrange(5, 9) =~= crate::wire::be32(a));
    assert(whole.subrange(5, 9) =~= data.take(4));
    assert(whole.subrange(9, 13) =~= crate::wire::be32(b));
    assert(whole.subrange(9, 13) =~= data.subrange(4, 8));
    assert(whole.subrange(13, 17) =~= crate::wire::be32(c));
    assert(whole.subrange(13, 17) =~= data.subrange(8, 12));
}

/// Each message of one byte is written as a length of 1 and its own id, and reading it
/// back tells what it says of the peer: a choke makes the peer choking, an unchoke not
/// choking, an interest interested and a loss of interest not interested, the other of
/// the two flags staying as it was.
pub proof fn lemma_flag_messages(
    before: PeerData,
    after: PeerData,
    r: Result<Dispatched, UpdateError>,
)
    ensures
        ({
            let b = (Choke {}).spec_bytes();
            &&& b.len() == 5 && from_be32(b.take(4)) == 1 && b[4] == Choke::ID
            &&& dispatched(b.skip(5), 1, b[4], before, after, r) ==> r == Ok::<
                Dispatched,
                UpdateError,
            >(Dispatched::Success) && after.peer_choking && after.peer_interested
                == before.peer_interested
        }),
        ({
            let b = (Unchoke {}).spec_bytes();
            &&& b.len() == 5 && from_be32(b.take(4)) == 1 && b[4] == Unchoke::ID
            &&& dispatched(b.skip(5), 1, b[4], before, after, r) ==> r == Ok::<
                Dispatched,
                UpdateError,
            >(Dispatched::Success) && !after.peer_choking && after.peer_interested
                == before.peer_interested
        }),
        ({
            let b = (Interested {}).spec_bytes();
            &&& b.len() == 5 && from_be32(b.take(4)) == 1 && b[4] == Interested::ID
            &&& dispatched(b.skip(5), 1, b[4], before, after, r) ==> r == Ok::<
                Dispatched,
                UpdateError,
            >(Dispatched::Success) && after.peer_interested && after.peer_choking
                == before.peer_choking
        }),
        ({
            let b = (NotInterested {}).spec_bytes();
            &&& b.len() == 5 && from_be32(b.take(4)) == 1 && b[4] == NotInterested::ID
            &&& dispatched(b.skip(5), 1, b[4], before, after, r) ==> r == Ok::<
                Dispatched,
                UpdateError,
            >(Dispatched::Success) && !after.peer_interested && after.peer_choking
                == before.peer_choking
        }),
{
    lemma_be32_roundtrip(1);
    assert((Choke {}).spec_bytes().take(4) =~= crate::wire::be32(1));
    assert((Unchoke {}).spec_bytes().take(4) =~= crate::wire::be32(1));
    assert((Interested {}).spec_bytes().take(4) =~= crate::wire::be32(1));
    assert((NotInterested {}).spec_bytes().take(4) =~= crate::wire::be32(1));
}

} // verus!
