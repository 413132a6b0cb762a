use vstd::prelude::*;

use crate::client::block_cache::{wrote_block, BlockCache, BlockError, CompletedPiece};
use crate::client::block_manager::{kept_piece, piece_seq, took_block, BlockManager};
use crate::client::connection::{protocol_error, UpdateError, UpdateSuccess};
use crate::client::dispatch::{
    dispatch_checked, dispatch_ok, dispatched, length_ok, queued, Dispatched, PeerData,
};
use crate::client::piece_assigner::{now, PieceAssigner};
use crate::io::read_buffer::is_would_block;
use crate::common::bits::{bits, bitvec_len, count_true};
use crate::common::hash::Sha1Hash;

use crate::io::read_buffer::ReadBuffer;
use crate::message::{Block, ProtocolMessage, Request};
use crate::wire::{from_be32, read_u32};

verus! {

/// Writes what `stream` takes of `data` (`std::io::Write::write`): on success the number
/// of bytes written, which the trait documents as at most `data.len()`.
#[verifier::external_body]
fn write_some<S: std::io::Write>(stream: &mut S, data: &[u8]) -> (r: Result<
    usize,
    std::io::Error,
>)
    ensures
        r matches Ok(n) ==> n <= data@.len(),
{
    stream.write(data)
}

/// Writes all of `data` to `stream` (`std::io::Write::write_all`).
#[verifier::external_body]
fn write_all_to<S: std::io::Write>(stream: &mut S, data: &[u8]) -> Result<(), std::io::Error> {
    stream.write_all(data)
}

/// The length of the length prefix of a message.
pub const LENGTH_BYTE_SIZE: usize = 4;

/// What an established connection is doing.
#[derive(Clone, Copy, PartialEq, Eq, Structural)]
pub enum State {
    ConnectedNormal,
    ConnectedEndgame,
    Seeding,
}

/// Drops the first `n` bytes of `v`.
fn drop_front(v: &mut Vec<u8>, n: usize)
    requires
        n <= old(v)@.len(),
    ensures
        final(v)@ == old(v)@.subrange(n as int, old(v)@.len() as int),
{
    let mut rest: Vec<u8> = Vec::new();
    let mut i = n;
    while i < v.len()
        invariant
            n <= i <= v@.len(),
            v@ == old(v)@,
            rest@ == v@.subrange(n as int, i as int),
        decreases v@.len() - i,
    {
        rest.push(v[i]);
        i = i + 1;
    }
    *v = rest;
}

/// The data waiting to be sent once `message` is queued: `message` when nothing waits,
/// else what waits.
pub open spec fn queued_data(pending: Seq<u8>, message: Seq<u8>) -> Seq<u8> {
    if pending.len() == 0 {
        message
    } else {
        pending
    }
}

/// Where reading all available messages stands after one more message.
pub enum ReadStep {
    /// A message was handled; the totals transferred so far.
    Continue { downloaded: usize, uploaded: usize },
    /// No complete message is left: what reading came to.
    Finished(UpdateSuccess),
}

/// A TCP connection to a peer after the handshakes: it reads the peer's messages, keeps
/// what it knows of the peer, and requests blocks.
pub struct EstablishedConnection<S> {
    pub info_hash: Sha1Hash,
    pub am_choking: bool,
    pub am_interested: bool,
    pub id: usize,
    pub peer: PeerData,
    stream: S,
    last_keep_alive: std::time::Instant,
    block_manager: BlockManager,
    next_message_length: Option<usize>,
    incomplete_message_buffer: Vec<u8>,
    send_buffer: Vec<u8>,
    state: State,
    /// Requests of the peer, to be read from disk and answered.
    pub disk_requests: Vec<Request>,
    /// Pieces completed by blocks from this peer, to be written to disk.
    pub completed_pieces: Vec<CompletedPiece>,
}

/// Whether a block message of length `length` (counting the id), its data at the start of
/// `unread`, is all there and brings a block that `manager` takes: the piece index, the
/// offset, then the data.
pub open spec fn block_message_taken(
    manager: BlockManager,
    unread: Seq<u8>,
    length: u32,
    piece_assigner: PieceAssigner,
    block_cache: BlockCache,
) -> bool {
    &&& length >= 9
    &&& unread.len() >= length - 1
    &&& exists|b: Block|
        b.index == from_be32(unread.take(4)) && b.begin == from_be32(unread.subrange(4, 8))
            && b.block@ == unread.subrange(8, length - 1) && manager.takes_block(
            b,
            piece_assigner,
            block_cache,
        )
}

/// The block message whose bytes after the id are `unread`, of length `length` counting
/// the id, was taken: its block, as those bytes give it, was written from `cache_before`
/// to `cache_after`, and the piece this gave back, if any, was added to the pieces to be
/// written (`completed_before` became `completed_after`).
pub open spec fn block_message_written(
    unread: Seq<u8>,
    length: u32,
    cache_before: BlockCache,
    cache_after: BlockCache,
    completed_before: Seq<CompletedPiece>,
    completed_after: Seq<CompletedPiece>,
) -> bool {
    exists|b: Block|
        b.index == from_be32(unread.take(4)) && b.begin == from_be32(unread.subrange(4, 8))
            && b.block@ == unread.subrange(8, length - 1) && #[trigger] took_block(
            b,
            cache_before,
            cache_after,
            completed_before,
            completed_after,
        )
}

impl<S: std::io::Read + std::io::Write> EstablishedConnection<S> {
    pub closed spec fn wf(&self, cache: BlockCache) -> bool {
        self.block_manager.wf(cache)
    }

    /// The pieces completed by blocks from this peer, to be written to disk.
    pub closed spec fn completed(&self) -> Seq<CompletedPiece> {
        self.completed_pieces@
    }

    /// The stream to the peer.
    pub closed spec fn spec_stream(&self) -> S {
        self.stream
    }

    pub closed spec fn spec_id(&self) -> usize {
        self.id
    }

    pub closed spec fn spec_info_hash(&self) -> Sha1Hash {
        self.info_hash
    }

    pub closed spec fn spec_am_choking(&self) -> bool {
        self.am_choking
    }

    pub closed spec fn spec_am_interested(&self) -> bool {
        self.am_interested
    }

    /// What is known of the peer.
    pub closed spec fn spec_peer(&self) -> PeerData {
        self.peer
    }

    /// The peer's requests waiting for the disk.
    pub closed spec fn spec_disk_requests(&self) -> Seq<Request> {
        self.disk_requests@
    }

    pub closed spec fn spec_state(&self) -> State {
        self.state
    }

    /// The length of the message being read, once its prefix was read.
    pub closed spec fn pending_length(&self) -> Option<usize> {
        self.next_message_length
    }

    /// The data waiting to be sent.
    pub closed spec fn pending_send(&self) -> Seq<u8> {
        self.send_buffer@
    }

    /// The start of a message kept from the last read, read again first next time.
    pub closed spec fn kept_data(&self) -> Seq<u8> {
        self.incomplete_message_buffer@
    }

    /// Whether a message with id `id` and length `length` (counting the id), its data at
    /// the start of `unread`, is handled without error on this connection: a block the
    /// connection's block manager takes, or another message of a length its id allows,
    /// whose data is all there (see `dispatch_ok`).
    pub closed spec fn message_ok(
        &self,
        unread: Seq<u8>,
        length: u32,
        id: u8,
        piece_assigner: PieceAssigner,
        block_cache: BlockCache,
    ) -> bool {
        if id == Block::ID {
            block_message_taken(self.block_manager, unread, length, piece_assigner, block_cache)
        } else {
            length_ok(id, length) && dispatch_ok(unread, length, id, self.peer)
        }
    }

    /// The length of the next message and the bytes after its length prefix, when they
    /// can be known without reading from the stream: nothing is kept from before, and the
    /// length was read already or its prefix is unread in `unread`.
    pub open spec fn next_message(&self, unread: Seq<u8>) -> Option<(int, Seq<u8>)> {
        if self.kept_data().len() != 0 {
            None
        } else {
            match self.pending_length() {
                Some(l) => Some((l as int, unread)),
                None => if unread.len() >= 4 {
                    Some((from_be32(unread.take(4)) as int, unread.skip(4)))
                } else {
                    None
                },
            }
        }
    }

    /// A connection `id` for torrent `info_hash` of `num_pieces` pieces on `stream`: we
    /// choke and are not interested, the peer is taken to choke, to be uninterested and to
    /// have no piece.
    pub fn new(id: usize, info_hash: Sha1Hash, stream: S, num_pieces: usize) -> (r: Self)
        ensures
            r.spec_id() == id,
            r.spec_info_hash() == info_hash,
            r.spec_am_choking(),
            !r.spec_am_interested(),
            r.spec_peer().peer_choking,
            !r.spec_peer().peer_interested,
            bits(r.spec_peer().peer_has) == Seq::new(num_pieces as nat, |i: int| false),
            r.spec_peer().num_pieces == num_pieces,
            r.spec_state() == State::ConnectedNormal,
            r.pending_length() is None,
            r.pending_send() == Seq::<u8>::empty(),
            r.spec_disk_requests() == Seq::<Request>::empty(),
            forall|c: BlockCache| r.wf(c),
    {
        let mut peer = PeerData::new(info_hash, num_pieces);
        peer.peer_choking = true;
        peer.peer_interested = false;
        EstablishedConnection {
            info_hash,
            am_choking: true,
            am_interested: false,
            id,
            peer,
            stream,
            last_keep_alive: now(),
            block_manager: BlockManager::new(),
            next_message_length: None,
            incomplete_message_buffer: Vec::new(),
            send_buffer: Vec::new(),
            state: State::ConnectedNormal,
            disk_requests: Vec::new(),
            completed_pieces: Vec::new(),
        }
    }

    /// The stream, once the connection is done with.
    pub fn into_network_source(self) -> (r: S)
        ensures
            r == self.spec_stream(),
    {
        self.stream
    }

    /// Notes that the peer is still there.
    pub fn received_keep_alive(&mut self)
        ensures
            final(self).spec_peer() == old(self).spec_peer(),
            final(self).spec_state() == old(self).spec_state(),
            final(self).pending_length() == old(self).pending_length(),
            final(self).pending_send() == old(self).pending_send(),
            final(self).spec_disk_requests() == old(self).spec_disk_requests(),
            final(self).completed() == old(self).completed(),
            forall|c: BlockCache| old(self).wf(c) ==> final(self).wf(c),
    {
        self.last_keep_alive = now();
    }

    /// Queues `message` if nothing waits to be sent, then writes what the stream takes of
    /// the data waiting. Gives whether `message` was queued: a message that finds data
    /// waiting is dropped, so that no message is sent in part. An error of the stream
    /// other than `WouldBlock` is returned, with the data still waiting.
    pub fn send<T: ProtocolMessage>(&mut self, message: &T) -> (r: Result<bool, std::io::Error>)
        requires
            old(self).pending_send().len() == 0 ==> message.fits(),
        ensures
            r matches Ok(b) ==> b == (old(self).pending_send().len() == 0),
            r is Ok ==> exists|n: int|
                0 <= n <= queued_data(old(self).pending_send(), message.spec_bytes()).len()
                    && final(self).pending_send() == #[trigger] queued_data(
                    old(self).pending_send(),
                    message.spec_bytes(),
                ).skip(n),
            r is Err ==> final(self).pending_send() == queued_data(
                old(self).pending_send(),
                message.spec_bytes(),
            ),
            final(self).spec_peer() == old(self).spec_peer(),
            final(self).spec_state() == old(self).spec_state(),
            final(self).pending_length() == old(self).pending_length(),
            final(self).spec_disk_requests() == old(self).spec_disk_requests(),
            forall|c: BlockCache| old(self).wf(c) ==> final(self).wf(c),
    {
        let result = self.queue_message(message);
        let ghost queued = self.send_buffer@;
        let ghost mut taken: int = 0;
        match write_some(&mut self.stream, self.send_buffer.as_slice()) {
            Ok(sent) => {
                self.drop_sent(sent);
                proof {
                    taken = sent as int;
                }
            },
            Err(error) => {
                if !is_would_block(&error) {
                    return Err(error);
                }
                assert(queued.skip(0) =~= queued);
            },
        }
        assert(0 <= taken <= queued.len() && self.send_buffer@ == queued.skip(taken));
        Ok(result)
    }

    /// Queues `message` if nothing waits to be sent; gives whether it was queued.
    pub fn queue_message<T: ProtocolMessage>(&mut self, message: &T) -> (r: bool)
        requires
            old(self).pending_send().len() == 0 ==> message.fits(),
        ensures
            r == (old(self).pending_send().len() == 0),
            final(self).pending_send() == queued_data(old(self).pending_send(), message.spec_bytes()),
            final(self).spec_stream() == old(self).spec_stream(),
            final(self).spec_peer() == old(self).spec_peer(),
            final(self).spec_state() == old(self).spec_state(),
            final(self).pending_length() == old(self).pending_length(),
            final(self).spec_disk_requests() == old(self).spec_disk_requests(),
            forall|c: BlockCache| old(self).wf(c) ==> final(self).wf(c),
    {
        if self.send_buffer.len() == 0 {
            message.write(&mut self.send_buffer);
            assert(self.send_buffer@ =~= message.spec_bytes());
            true
        } else {
            false
        }
    }

    /// Takes note that the stream accepted the first `sent` bytes waiting to be sent.
    pub fn drop_sent(&mut self, sent: usize)
        requires
            sent <= old(self).pending_send().len(),
        ensures
            final(self).pending_send() == old(self).pending_send().skip(sent as int),
            final(self).spec_stream() == old(self).spec_stream(),
            final(self).spec_peer() == old(self).spec_peer(),
            final(self).spec_state() == old(self).spec_state(),
            final(self).pending_length() == old(self).pending_length(),
            final(self).spec_disk_requests() == old(self).spec_disk_requests(),
            forall|c: BlockCache| old(self).wf(c) ==> final(self).wf(c),
    {
        if sent == self.send_buffer.len() {
            self.send_buffer.clear();
            assert(self.send_buffer@ =~= old(self).pending_send().skip(sent as int));
        } else {
            drop_front(&mut self.send_buffer, sent);
            assert(self.send_buffer@ =~= old(self).pending_send().skip(sent as int));
        }
    }

    /// Once the peer does not choke, requests as many blocks as the block manager hands
    /// out and writes the requests to the stream. Gives `Success` when a request was
    /// sent, `NoUpdate` otherwise. A peer whose bitfield does not cover the torrent's
    /// pieces breaks the protocol.
    pub fn send_block_requests(
        &mut self,
        piece_assigner: &mut PieceAssigner,
        block_cache: &BlockCache,
    ) -> (r: Result<UpdateSuccess, UpdateError>)
        requires
            old(self).wf(*block_cache),
            block_cache.wf(),
            old(piece_assigner).wf(),
            old(piece_assigner).info() == block_cache.info(),
        ensures
            final(self).wf(*block_cache),
            final(piece_assigner).wf(),
            final(piece_assigner).info() == old(piece_assigner).info(),
            final(self).spec_peer() == old(self).spec_peer(),
            final(self).spec_state() == old(self).spec_state(),
            final(self).pending_length() == old(self).pending_length(),
            final(self).spec_disk_requests() == old(self).spec_disk_requests(),
            old(self).spec_peer().peer_choking ==> (r matches Ok(UpdateSuccess::NoUpdate)
                && final(self).pending_send() == old(self).pending_send()),
            r matches Ok(s) ==> !(s is Transferred),
            r is Ok && !old(self).spec_peer().peer_choking ==> final(self).pending_send()
                == Seq::<u8>::empty(),
    {
        if self.peer.peer_choking {
            return Ok(UpdateSuccess::NoUpdate);
        }
        let info = block_cache.piece_info();
        if bitvec_len(&self.peer.peer_has) != info.total_pieces {
            return Err(UpdateError::CommunicationError(protocol_error()));
        }
        let per_piece = info.piece_length / 16384 + 1;
        if info.total_pieces > usize::MAX / per_piece {
            return Err(UpdateError::IndexOutOfBounds);
        }
        proof {
            vstd::arithmetic::div_mod::lemma_fundamental_div_mod(usize::MAX as int, per_piece as int);
            vstd::arithmetic::mul::lemma_mul_inequality(info.total_pieces as int, (usize::MAX / per_piece) as int, per_piece as int);
        }
        self.send_buffer.clear();
        let sent = self.block_manager.send_block_requests(
            &mut self.send_buffer,
            &self.peer.peer_has,
            self.id,
            piece_assigner,
            block_cache,
        );
        match write_all_to(&mut self.stream, self.send_buffer.as_slice()) {
            Err(e) => return Err(UpdateError::CommunicationError(e)),
            Ok(()) => {},
        }
        self.send_buffer.clear();
        if sent == 0 {
            return Ok(UpdateSuccess::NoUpdate);
        }
        Ok(UpdateSuccess::Success)
    }

    /// Reads the next message from the unread bytes of `read_buffer`, reading more from
    /// the stream as needed (after the bytes kept from an earlier incomplete message), and
    /// handles it: a keep-alive; a message that updates what is known of the peer; a
    /// request, queued for the disk; or a block, handed to the block manager, whose
    /// completed piece is queued to be written. Gives `NoUpdate` while the message is
    /// incomplete, and what was read once it was handled.
    pub fn read(
        &mut self,
        read_buffer: &mut ReadBuffer,
        piece_assigner: &mut PieceAssigner,
        block_cache: &mut BlockCache,
    ) -> (r: Result<UpdateSuccess, UpdateError>)
        requires
            old(self).wf(*old(block_cache)),
            old(read_buffer).wf(),
            old(block_cache).wf(),
            old(piece_assigner).wf(),
            old(piece_assigner).info() == old(block_cache).info(),
        ensures
            final(self).wf(*final(block_cache)),
            final(read_buffer).wf(),
            final(block_cache).wf(),
            final(piece_assigner).wf(),
            final(piece_assigner).info() == final(block_cache).info(),
            final(block_cache).info() == old(block_cache).info(),
            final(self).spec_peer().num_pieces == old(self).spec_peer().num_pieces,
            final(self).spec_state() == old(self).spec_state(),
            final(self).pending_send() == old(self).pending_send(),
            r matches Ok(UpdateSuccess::NoUpdate) ==> final(self).pending_length() is Some
                || old(self).pending_length() is None,
            r matches Ok(UpdateSuccess::Success) ==> final(self).pending_length() is None,
            r matches Ok(UpdateSuccess::Transferred { downloaded, uploaded }) ==> final(self).pending_length() is None && uploaded == 0 && downloaded >= LENGTH_BYTE_SIZE + 1,
            !(r matches Ok(UpdateSuccess::Transferred { .. })) ==> final(self).spec_disk_requests()
                == old(self).spec_disk_requests(),
            (*final(block_cache) == *old(block_cache) && final(self).completed()
                == old(self).completed()) || exists|unread: Seq<u8>, length: u32|
                block_message_written(
                    unread,
                    length,
                    *old(block_cache),
                    *final(block_cache),
                    old(self).completed(),
                    final(self).completed(),
                ),
            r matches Ok(UpdateSuccess::Transferred { .. }) ==> exists|
                unread: Seq<u8>,
                length: u32,
                id: u8,
                d: Result<Dispatched, UpdateError>,
            |
                d is Ok && #[trigger] dispatched(
                    unread,
                    length,
                    id,
                    old(self).spec_peer(),
                    final(self).spec_peer(),
                    d,
                ) && final(self).spec_disk_requests() == queued(old(self).spec_disk_requests(), d),
            (r matches Ok(s) && !(s is Transferred)) ==> final(self).spec_peer() == old(
                self,
            ).spec_peer(),
            old(self).next_message(old(read_buffer).unread_data()) matches Some((l, rest)) ==> {
                &&& l == 0 ==> r == Ok::<UpdateSuccess, UpdateError>(UpdateSuccess::Success)
                    && final(read_buffer).unread_data() == rest
                &&& 0 < l <= rest.len() && l > u32::MAX - 4 ==> r is Err
                &&& 0 < l <= rest.len() && l <= u32::MAX - 4 && r is Ok ==> final(
                    read_buffer).unread_data() == rest.skip(l) && exists|
                    d: Result<Dispatched, UpdateError>,
                |
                    d is Ok && #[trigger] dispatched(
                        rest.skip(1),
                        l as u32,
                        rest[0],
                        old(self).spec_peer(),
                        final(self).spec_peer(),
                        d,
                    ) && final(self).spec_disk_requests() == queued(
                        old(self).spec_disk_requests(),
                        d,
                    )
                &&& 0 < l <= rest.len() && l <= u32::MAX - 4 ==> (r is Ok) == old(self).message_ok(
                    rest.skip(1),
                    l as u32,
                    rest[0],
                    *old(piece_assigner),
                    *old(block_cache),
                ) && (r is Ok ==> r == Ok::<UpdateSuccess, UpdateError>(
                    UpdateSuccess::Transferred { downloaded: (4 + l) as usize, uploaded: 0 },
                ))
                &&& 0 < l <= rest.len() && l <= u32::MAX - 4 && rest[0] == Block::ID && r is Ok
                    ==> block_message_written(
                    rest.skip(1),
                    l as u32,
                    *old(block_cache),
                    *final(block_cache),
                    old(self).completed(),
                    final(self).completed(),
                )
                &&& (l == 0 || (0 < l <= rest.len() && !(rest[0] == Block::ID && r is Ok)))
                    ==> *final(block_cache) == *old(block_cache) && final(self).completed()
                    == old(self).completed()
            },
    {
        if self.incomplete_message_buffer.len() > 0 {
            let mut kept: &[u8] = self.incomplete_message_buffer.as_slice();
            let _ = read_buffer.read_from(&mut kept);
            self.incomplete_message_buffer.clear();
        }
        let length: usize = match self.next_message_length {
            Some(v) => v,
            None => {
                match read_buffer.read_at_least_from(LENGTH_BYTE_SIZE, &mut self.stream) {
                    Err(e) => return Err(UpdateError::CommunicationError(e)),
                    Ok(false) => return Ok(UpdateSuccess::NoUpdate),
                    Ok(true) => {},
                }
                let value = read_u32(read_buffer.get_unread(), 0);
                proof {
                    assert(read_buffer.unread_data().subrange(0, 4) =~= read_buffer.unread_data().take(4));
                }
                read_buffer.consume(LENGTH_BYTE_SIZE);
                value as usize
            },
        };
        self.next_message_length = Some(length);
        if length == 0 {
            self.next_message_length = None;
            self.received_keep_alive();
            return Ok(UpdateSuccess::Success);
        }
        match read_buffer.read_at_least_from(length, &mut self.stream) {
            Err(e) => return Err(UpdateError::CommunicationError(e)),
            Ok(false) => return Ok(UpdateSuccess::NoUpdate),
            Ok(true) => {},
        }
        if length > u32::MAX as usize - LENGTH_BYTE_SIZE {
            self.next_message_length = None;
            return Err(UpdateError::CommunicationError(protocol_error()));
        }
        let total_read = LENGTH_BYTE_SIZE + length;
        let id = read_buffer.get_unread()[0];
        read_buffer.consume(1);
        let ghost unread = read_buffer.unread_data();
        let ghost peer_before = self.spec_peer();
        assert(peer_before == old(self).spec_peer());
        let ghost cache_before = *block_cache;
        let ghost completed_before = self.completed();
        let retval = self.handle_message(read_buffer, length as u32, id, piece_assigner, block_cache);
        self.next_message_length = None;
        proof {
            if id == Block::ID && retval is Ok {
                assert(cache_before == *old(block_cache));
                assert(completed_before == old(self).completed());
                assert(block_message_written(
                    unread,
                    length as u32,
                    cache_before,
                    *block_cache,
                    completed_before,
                    self.completed(),
                ));
                assert(exists|u: Seq<u8>, l: u32|
                    block_message_written(
                        u,
                        l,
                        *old(block_cache),
                        *block_cache,
                        old(self).completed(),
                        self.completed(),
                    ));
            }
            if retval is Ok {
                let d = choose|d: Result<Dispatched, UpdateError>|
                    d is Ok && #[trigger] dispatched(
                        unread,
                        length as u32,
                        id,
                        peer_before,
                        self.spec_peer(),
                        d,
                    );
                assert(dispatched(unread, length as u32, id, old(self).spec_peer(), self.spec_peer(), d));
                assert(exists|
                    u: Seq<u8>,
                    l: u32,
                    i: u8,
                    e: Result<Dispatched, UpdateError>,
                |
                    e is Ok && #[trigger] dispatched(u, l, i, old(self).spec_peer(), self.spec_peer(), e));
            }
        }
        match retval {
            Ok(UpdateSuccess::Success) => Ok(
                UpdateSuccess::Transferred { downloaded: total_read, uploaded: 0 },
            ),
            Ok(UpdateSuccess::NoUpdate) => Ok(UpdateSuccess::NoUpdate),
            Ok(UpdateSuccess::Transferred { downloaded, uploaded }) => Ok(
                UpdateSuccess::Transferred { downloaded: total_read, uploaded: 0 },
            ),
            Err(e) => Err(e),
        }
    }

    /// Keeps the unread bytes of `read_buffer`, the start of a message, to be read again
    /// next time, and empties `read_buffer`.
    fn keep_incomplete(&mut self, read_buffer: &mut ReadBuffer)
        requires
            old(read_buffer).wf(),
        ensures
            final(read_buffer).wf(),
            final(read_buffer).unread_data() == Seq::<u8>::empty(),
            final(self).kept_data() == old(self).kept_data() + old(read_buffer).unread_data(),
            final(self).spec_peer() == old(self).spec_peer(),
            final(self).spec_state() == old(self).spec_state(),
            final(self).pending_length() == old(self).pending_length(),
            final(self).pending_send() == old(self).pending_send(),
            final(self).spec_disk_requests() == old(self).spec_disk_requests(),
            forall|c: BlockCache| old(self).wf(c) ==> final(self).wf(c),
    {
        let unread = read_buffer.get_unread();
        let mut i: usize = 0;
        let ghost start = self.incomplete_message_buffer@;
        while i < unread.len()
            invariant
                i <= unread@.len(),
                self.incomplete_message_buffer@ == start + unread@.take(i as int),
                self.peer == old(self).peer,
                self.next_message_length == old(self).next_message_length,
                self.state == old(self).state,
                self.send_buffer@ == old(self).send_buffer@,
                self.disk_requests@ == old(self).disk_requests@,
                self.block_manager == old(self).block_manager,
            decreases unread@.len() - i,
        {
            self.incomplete_message_buffer.push(unread[i]);
            proof {
                assert(unread@.take(i + 1) =~= unread@.take(i as int).push(unread@[i as int]));
            }
            i = i + 1;
        }
        assert(unread@.take(i as int) =~= unread@);
        read_buffer.clear();
    }

    /// Reads and handles one more message, `downloaded` and `uploaded` being what the
    /// messages handled before it transferred. Once no complete message is left, the
    /// start of the next one is kept for the next time and `read_buffer` is emptied, and
    /// the step gives what all of them transferred, or `NoUpdate` when nothing was.
    pub fn read_step(
        &mut self,
        read_buffer: &mut ReadBuffer,
        piece_assigner: &mut PieceAssigner,
        block_cache: &mut BlockCache,
        downloaded: usize,
        uploaded: usize,
    ) -> (r: Result<ReadStep, UpdateError>)
        requires
            old(self).wf(*old(block_cache)),
            old(read_buffer).wf(),
            old(block_cache).wf(),
            old(piece_assigner).wf(),
            old(piece_assigner).info() == old(block_cache).info(),
        ensures
            final(self).wf(*final(block_cache)),
            final(read_buffer).wf(),
            final(block_cache).wf(),
            final(piece_assigner).wf(),
            final(piece_assigner).info() == final(block_cache).info(),
            final(block_cache).info() == old(block_cache).info(),
            final(self).spec_peer().num_pieces == old(self).spec_peer().num_pieces,
            final(self).spec_state() == old(self).spec_state(),
            final(self).pending_send() == old(self).pending_send(),
            r matches Ok(ReadStep::Continue { downloaded: d, uploaded: u }) ==> d >= downloaded
                && u == uploaded && final(self).pending_length() is None,
            r matches Ok(ReadStep::Finished(_)) ==> final(self).spec_peer() == old(self).spec_peer(),
            r matches Ok(ReadStep::Continue { .. }) ==> final(self).spec_peer() == old(
                self,
            ).spec_peer() || exists|
                unread: Seq<u8>,
                length: u32,
                id: u8,
                d: Result<Dispatched, UpdateError>,
            |
                d is Ok && #[trigger] dispatched(
                    unread,
                    length,
                    id,
                    old(self).spec_peer(),
                    final(self).spec_peer(),
                    d,
                ),
            r matches Ok(ReadStep::Finished(s)) ==> final(read_buffer).unread_data()
                == Seq::<u8>::empty() && if downloaded == 0 {
                s is NoUpdate
            } else {
                s == (UpdateSuccess::Transferred { downloaded, uploaded })
            },
            old(self).next_message(old(read_buffer).unread_data()) matches Some((l, rest)) ==> {
                &&& l == 0 ==> r == Ok::<ReadStep, UpdateError>(
                    ReadStep::Continue { downloaded, uploaded },
                ) && final(read_buffer).unread_data() == rest
                &&& 0 < l <= rest.len() && l > u32::MAX - 4 ==> r is Err
                &&& 0 < l <= rest.len() && l <= u32::MAX - 4 && r is Ok ==> final(
                    read_buffer).unread_data() == rest.skip(l) && exists|
                    d: Result<Dispatched, UpdateError>,
                |
                    d is Ok && #[trigger] dispatched(
                        rest.skip(1),
                        l as u32,
                        rest[0],
                        old(self).spec_peer(),
                        final(self).spec_peer(),
                        d,
                    )
                &&& 0 < l <= rest.len() && l <= u32::MAX - 4 ==> (r is Ok) == old(self).message_ok(
                    rest.skip(1),
                    l as u32,
                    rest[0],
                    *old(piece_assigner),
                    *old(block_cache),
                ) && (r is Ok ==> r == Ok::<ReadStep, UpdateError>(
                    ReadStep::Continue {
                        downloaded: if downloaded + 4 + l > usize::MAX {
                            usize::MAX
                        } else {
                            (downloaded + 4 + l) as usize
                        },
                        uploaded,
                    },
                ))
            },
    {
        match self.read(read_buffer, piece_assigner, block_cache) {
            Err(e) => Err(e),
            Ok(UpdateSuccess::NoUpdate) => {
                self.keep_incomplete(read_buffer);
                if downloaded != 0 {
                    Ok(ReadStep::Finished(UpdateSuccess::Transferred { downloaded, uploaded }))
                } else {
                    Ok(ReadStep::Finished(UpdateSuccess::NoUpdate))
                }
            },
            Ok(UpdateSuccess::Transferred { downloaded: d, uploaded: u }) => Ok(
                ReadStep::Continue {
                    downloaded: downloaded.saturating_add(d),
                    uploaded: uploaded.saturating_add(u),
                },
            ),
            Ok(UpdateSuccess::Success) => Ok(ReadStep::Continue { downloaded, uploaded }),
        }
    }

    /// Finishes an update of the connection once reading is done with `read_result`. An
    /// error empties `read_buffer` and is returned. A seeding connection gives what was
    /// read. Otherwise, once every piece is complete the connection turns to seeding;
    /// until then it sends block requests, and gives what was read, or what the requests
    /// came to when nothing was read.
    pub fn update_after_read(
        &mut self,
        read_result: Result<UpdateSuccess, UpdateError>,
        read_buffer: &mut ReadBuffer,
        piece_assigner: &mut PieceAssigner,
        block_cache: &BlockCache,
    ) -> (r: Result<UpdateSuccess, UpdateError>)
        requires
            old(self).wf(*block_cache),
            old(read_buffer).wf(),
            block_cache.wf(),
            old(piece_assigner).wf(),
            old(piece_assigner).info() == block_cache.info(),
        ensures
            final(self).wf(*block_cache),
            final(read_buffer).wf(),
            final(piece_assigner).wf(),
            final(piece_assigner).info() == old(piece_assigner).info(),
            final(self).spec_peer() == old(self).spec_peer(),
            read_result is Err ==> r is Err && final(read_buffer).unread_data()
                == Seq::<u8>::empty() && final(self).spec_state() == old(self).spec_state(),
            read_result matches Ok(s) ==> {
                let done = count_true(block_cache.have_bits()) == block_cache.hashes().len();
                &&& *final(read_buffer) == *old(read_buffer)
                &&& old(self).spec_state() == State::Seeding ==> r == Ok::<
                    UpdateSuccess,
                    UpdateError,
                >(s) && final(self).spec_state() == State::Seeding
                &&& old(self).spec_state() != State::Seeding && done ==> r == Ok::<
                    UpdateSuccess,
                    UpdateError,
                >(s) && final(self).spec_state() == State::Seeding
                &&& old(self).spec_state() != State::Seeding && !done ==> {
                    &&& final(self).spec_state() == old(self).spec_state()
                    &&& old(self).spec_peer().peer_choking ==> r == Ok::<
                        UpdateSuccess,
                        UpdateError,
                    >(s)
                    &&& !(s is NoUpdate) && r is Ok ==> r == Ok::<UpdateSuccess, UpdateError>(s)
                    &&& s is NoUpdate ==> (r matches Ok(t) ==> t is NoUpdate || t is Success)
                }
            },
    {
        let read_result = match read_result {
            Ok(v) => v,
            Err(e) => {
                read_buffer.clear();
                return Err(e);
            },
        };
        match self.state {
            State::Seeding => Ok(read_result),
            State::ConnectedNormal | State::ConnectedEndgame => {
                if block_cache.done() {
                    self.state = State::Seeding;
                    return Ok(read_result);
                }
                let request_result = match self.send_block_requests(piece_assigner, block_cache) {
                    Ok(v) => v,
                    Err(e) => return Err(e),
                };
                match (read_result, request_result) {
                    (UpdateSuccess::NoUpdate, UpdateSuccess::NoUpdate) => Ok(UpdateSuccess::NoUpdate),
                    (UpdateSuccess::NoUpdate, UpdateSuccess::Success) => Ok(UpdateSuccess::Success),
                    (read_result, _) => Ok(read_result),
                }
            },
        }
    }

    /// Handles the message with id `id` and length `length` (counting the id, already
    /// read), whose data is unread in `read_buffer`.
    fn handle_message(
        &mut self,
        read_buffer: &mut ReadBuffer,
        length: u32,
        id: u8,
        piece_assigner: &mut PieceAssigner,
        block_cache: &mut BlockCache,
    ) -> (r: Result<UpdateSuccess, UpdateError>)
        requires
            old(self).wf(*old(block_cache)),
            old(read_buffer).wf(),
            old(block_cache).wf(),
            old(piece_assigner).wf(),
            old(piece_assigner).info() == old(block_cache).info(),
        ensures
            final(self).wf(*final(block_cache)),
            final(read_buffer).wf(),
            final(block_cache).wf(),
            final(piece_assigner).wf(),
            final(piece_assigner).info() == final(block_cache).info(),
            final(block_cache).info() == old(block_cache).info(),
            final(self).spec_peer().num_pieces == old(self).spec_peer().num_pieces,
            final(self).spec_state() == old(self).spec_state(),
            final(self).pending_send() == old(self).pending_send(),
            final(self).pending_length() == old(self).pending_length(),
            r is Err ==> final(self).spec_disk_requests() == old(self).spec_disk_requests(),
            r matches Ok(s) ==> s is Success,
            id == Block::ID ==> (r is Ok) == block_message_taken(
                old(self).block_manager,
                old(read_buffer).unread_data(),
                length,
                *old(piece_assigner),
                *old(block_cache),
            ),
            id != Block::ID ==> (r is Ok) == (length_ok(id, length) && dispatch_ok(
                old(read_buffer).unread_data(),
                length,
                id,
                old(self).spec_peer(),
            )),
            r is Ok ==> exists|d: Result<Dispatched, UpdateError>|
                d is Ok && #[trigger] dispatched(
                    old(read_buffer).unread_data(),
                    length,
                    id,
                    old(self).spec_peer(),
                    final(self).spec_peer(),
                    d,
                ) && final(self).spec_disk_requests() == queued(old(self).spec_disk_requests(), d),
            r is Ok ==> final(read_buffer).unread_data() == old(read_buffer).unread_data().skip(
                length - 1,
            ),
            id == Block::ID && r is Ok ==> block_message_written(
                old(read_buffer).unread_data(),
                length,
                *old(block_cache),
                *final(block_cache),
                old(self).completed(),
                final(self).completed(),
            ),
            !(id == Block::ID && r is Ok) ==> *final(block_cache) == *old(block_cache)
                && final(self).completed() == old(self).completed(),
    {
        if id == Block::ID {
            let r = self.handle_block(read_buffer, length, piece_assigner, block_cache);
            proof {
                assert(dispatched(
                    old(read_buffer).unread_data(),
                    length,
                    id,
                    old(self).spec_peer(),
                    self.spec_peer(),
                    Ok(Dispatched::BlockArrived),
                ));
            }
            return r;
        }
        let d = dispatch_checked(read_buffer, length, id, &mut self.peer);
        let ghost dg = d;
        let r = match d {
            Ok(Dispatched::Success) => Ok(UpdateSuccess::Success),
            Ok(Dispatched::PeerRequest(request)) => {
                self.disk_requests.push(request);
                Ok(UpdateSuccess::Success)
            },
            Ok(Dispatched::BlockArrived) => Ok(UpdateSuccess::Success),
            Err(e) => Err(e),
        };
        proof {
            if dg is Ok {
                assert(length_ok(id, length));
                assert(dispatched(
                    old(read_buffer).unread_data(),
                    length,
                    id,
                    old(self).spec_peer(),
                    self.spec_peer(),
                    dg,
                ));
            }
        }
        r
    }

    /// Reads a block message of length `length` and hands the block to the block manager.
    /// A block that is not requested from this connection, names no piece of the torrent,
    /// or does not fit its piece breaks the protocol.
    fn handle_block(
        &mut self,
        read_buffer: &mut ReadBuffer,
        length: u32,
        piece_assigner: &mut PieceAssigner,
        block_cache: &mut BlockCache,
    ) -> (r: Result<UpdateSuccess, UpdateError>)
        requires
            old(self).wf(*old(block_cache)),
            old(read_buffer).wf(),
            old(block_cache).wf(),
            old(piece_assigner).wf(),
            old(piece_assigner).info() == old(block_cache).info(),
        ensures
            final(self).wf(*final(block_cache)),
            final(read_buffer).wf(),
            final(block_cache).wf(),
            final(piece_assigner).wf(),
            final(piece_assigner).info() == final(block_cache).info(),
            final(block_cache).info() == old(block_cache).info(),
            final(self).spec_peer() == old(self).spec_peer(),
            final(self).spec_state() == old(self).spec_state(),
            final(self).pending_send() == old(self).pending_send(),
            final(self).pending_length() == old(self).pending_length(),
            final(self).spec_disk_requests() == old(self).spec_disk_requests(),
            r matches Ok(s) ==> s is Success,
            (r is Ok) == block_message_taken(
                old(self).block_manager,
                old(read_buffer).unread_data(),
                length,
                *old(piece_assigner),
                *old(block_cache),
            ),
            r is Ok ==> final(read_buffer).unread_data() == old(read_buffer).unread_data().skip(
                length - 1,
            ),
            r is Ok ==> block_message_written(
                old(read_buffer).unread_data(),
                length,
                *old(block_cache),
                *final(block_cache),
                old(self).completed(),
                final(self).completed(),
            ),
            r is Err ==> *final(block_cache) == *old(block_cache) && final(self).completed()
                == old(self).completed(),
    {
        if length < 9 {
            return Err(UpdateError::CommunicationError(protocol_error()));
        }
        let block = match Block::read_from(read_buffer, length) {
            Ok(b) => b,
            Err(_) => return Err(UpdateError::CommunicationError(protocol_error())),
        };
        proof {
            if block_message_taken(
                old(self).block_manager,
                old(read_buffer).unread_data(),
                length,
                *old(piece_assigner),
                *old(block_cache),
            ) {
                let b = choose|b: Block|
                    b.index == from_be32(old(read_buffer).unread_data().take(4)) && b.begin
                        == from_be32(old(read_buffer).unread_data().subrange(4, 8)) && b.block@
                        == old(read_buffer).unread_data().subrange(8, length - 1)
                        && old(self).block_manager.takes_block(
                        b,
                        *old(piece_assigner),
                        *old(block_cache),
                    );
                assert(old(block_cache).block_fits(b) == old(block_cache).block_fits(block));
            }
        }
        let ghost cache_before = *block_cache;
        let ghost completed_before = self.completed_pieces@;
        let received = self.block_manager.receive_block(&block, piece_assigner, block_cache);
        match received {
            Ok(Some(piece)) => self.completed_pieces.push(piece),
            Ok(None) => {},
            Err(e) => return Err(e),
        }
        proof {
            let w = choose|w: Result<Option<CompletedPiece>, BlockError>|
                #[trigger] wrote_block(cache_before, *block_cache, block, w) && received == Ok::<
                    Option<CompletedPiece>,
                    UpdateError,
                >(kept_piece(w));
            assert(self.completed_pieces@ =~= completed_before + piece_seq(kept_piece(w)));
            assert(took_block(block, cache_before, *block_cache, completed_before, self.completed_pieces@));
        }
        Ok(UpdateSuccess::Success)
    }
}

} // verus!
