use vstd::prelude::*;

use std::collections::BTreeMap;

use crate::client::block_cache::{wrote_block, BlockCache, BlockError, CompletedPiece};
use crate::client::block_manager::{
    cancels_bytes, kept_piece, piece_seq, requests_bytes, took_block, BlockManager,
};
use crate::client::connection::{protocol_error, UpdateError, UpdateSuccess};
use crate::client::dispatch::{
    dispatch_checked, dispatch_ok, dispatched, length_ok, queued, Dispatched, PeerData,
};
use crate::client::established_connection::State;
use crate::client::piece_assigner::{now, PieceAssigner};
use crate::client::utp::connection_info::UtpConnectionInfo;
use crate::client::utp::header::{type_of_code, Header, Type};
use crate::client::utp::send_buffer::UtpSendBuffer;
use crate::common::bits::{bits, bitvec_len, count_true};
use crate::common::hash::Sha1Hash;
use crate::io::read_buffer::ReadBuffer;
use crate::message::{Block, Cancel, Request};
use crate::wire::{from_be32, read_u32};

verus! {

/// A block message that spans several uTP packets, assembled as its packets arrive.
pub(crate) struct BlockInFlight {
    index: Option<usize>,
    begin: Option<usize>,
    block: Vec<u8>,
    length: usize,
    active: bool,
}

/// The smaller of `a` and `b`.
pub open spec fn min(a: int, b: int) -> int {
    if a <= b {
        a
    } else {
        b
    }
}

impl BlockInFlight {
    /// The data gathered never runs past the block's length; the piece index and the offset
    /// are read together; an inactive block is empty.
    pub(crate) closed spec fn wf(&self) -> bool {
        &&& self.block@.len() <= self.length
        &&& (self.index is Some <==> self.begin is Some)
        &&& self.index matches Some(i) ==> i <= u32::MAX
        &&& self.begin matches Some(b) ==> b <= u32::MAX
        &&& !self.active ==> self.index is None && self.block@.len() == 0
    }

    /// A block being assembled whose index and offset are read still misses data.
    pub(crate) closed spec fn incomplete(&self) -> bool {
        self.active && self.index is Some ==> self.block@.len() < self.length
    }

    pub(crate) closed spec fn is_active(&self) -> bool {
        self.active
    }

    /// The bytes still to be read before the block's data: its index and offset, unless
    /// they were read.
    pub(crate) closed spec fn header_left(&self) -> int {
        if self.index is Some {
            0
        } else {
            8
        }
    }

    /// The piece index of the block, once read.
    pub(crate) closed spec fn spec_index(&self) -> Option<usize> {
        self.index
    }

    /// The offset of the block in its piece, once read.
    pub(crate) closed spec fn spec_begin(&self) -> Option<usize> {
        self.begin
    }

    /// The data gathered so far.
    pub(crate) closed spec fn data(&self) -> Seq<u8> {
        self.block@
    }

    /// The length of the block's data.
    pub(crate) closed spec fn spec_length(&self) -> usize {
        self.length
    }

    /// No block in flight.
    pub(crate) fn new() -> (r: BlockInFlight)
        ensures
            r.wf(),
            r.incomplete(),
            !r.is_active(),
    {
        BlockInFlight { index: None, begin: None, block: Vec::new(), length: 16384, active: false }
    }

    pub(crate) fn active(&self) -> (r: bool)
        ensures
            r == self.is_active(),
    {
        self.active
    }

    /// Drops what was gathered and turns inactive.
    pub(crate) fn reset(&mut self)
        ensures
            final(self).wf(),
            final(self).incomplete(),
            !final(self).is_active(),
            final(self).spec_length() == old(self).spec_length(),
    {
        self.block.clear();
        self.active = false;
        self.index = None;
        self.begin = None;
    }

    /// Starts a block whose data is `length` bytes, with neither its index nor its offset
    /// read yet.
    pub(crate) fn start_unread(&mut self, length: usize)
        ensures
            final(self).wf(),
            final(self).incomplete(),
            final(self).is_active(),
            final(self).header_left() == 8,
            final(self).data() == Seq::<u8>::empty(),
            final(self).spec_length() == length,
    {
        self.reset();
        self.active = true;
        self.length = length;
    }

    /// Reads from `reader`, whose next `length` bytes belong to this block: the index and
    /// the offset when they were not read yet, then as much of the data as is missing.
    /// Gives whether the block is complete. When fewer than the 8 bytes of the index and
    /// the offset are there, the message breaks the protocol and nothing is read.
    pub(crate) fn add(&mut self, reader: &mut ReadBuffer, length: usize) -> (r: Result<
        bool,
        UpdateError,
    >)
        requires
            old(self).wf(),
            old(self).is_active(),
            old(reader).wf(),
            length <= old(reader).unread_data().len(),
        ensures
            final(reader).wf(),
            final(self).wf(),
            final(self).spec_length() == old(self).spec_length(),
            final(self).is_active(),
            length < old(self).header_left() ==> (r is Err && *final(self) == *old(self)
                && *final(reader) == *old(reader)),
            length >= old(self).header_left() ==> {
                let h = old(self).header_left();
                let n = min(
                    length - h,
                    old(self).spec_length() - old(self).data().len(),
                );
                &&& r matches Ok(done) && done == (final(self).data().len()
                    == final(self).spec_length()) && (!done ==> final(self).incomplete())
                &&& final(self).data() == old(self).data() + old(reader).unread_data().subrange(
                    h,
                    h + n,
                )
                &&& final(reader).unread_data() == old(reader).unread_data().skip(h + n)
                &&& final(self).header_left() == 0
                &&& h == 8 ==> final(self).spec_index() == Some(
                    from_be32(old(reader).unread_data().take(4)) as usize,
                ) && final(self).spec_begin() == Some(
                    from_be32(old(reader).unread_data().subrange(4, 8)) as usize,
                )
                &&& h == 0 ==> final(self).spec_index() == old(self).spec_index()
                    && final(self).spec_begin() == old(self).spec_begin()
            },
    {
        let ghost start = reader.unread_data();
        let mut length = length;
        if self.index.is_none() {
            if length < 8 {
                return Err(UpdateError::CommunicationError(protocol_error()));
            }
            let index = read_u32(reader.get_unread(), 0);
            let begin = read_u32(reader.get_unread(), 4);
            proof {
                assert(start.subrange(0, 4) =~= start.take(4));
            }
            reader.consume(8);
            length = length - 8;
            self.index = Some(index as usize);
            self.begin = Some(begin as usize);
        }
        let ghost h: int = start.len() - reader.unread_data().len();
        let remaining = self.length - self.block.len();
        let n = if remaining < length {
            remaining
        } else {
            length
        };
        let unread = reader.get_unread();
        let mut i: usize = 0;
        let ghost before = self.block@;
        let ghost fields = (self.index, self.begin, self.length, self.active);
        while i < n
            invariant
                fields == (self.index, self.begin, self.length, self.active),
                i <= n,
                n <= unread@.len(),
                self.block@ == before + unread@.take(i as int),
                before.len() + n <= self.length,
            decreases n - i,
        {
            self.block.push(unread[i]);
            proof {
                assert(unread@.take(i + 1) =~= unread@.take(i as int).push(unread@[i as int]));
            }
            i = i + 1;
        }
        proof {
            assert(unread@.take(n as int) =~= start.subrange(h, h + n));
        }
        reader.consume(n);
        proof {
            assert(reader.unread_data() =~= start.skip(h + n));
        }
        Ok(self.block.len() == self.length)
    }
}

/// The smallest key of `map` (`BTreeMap::first_key_value`), `None` when it is empty.
#[verifier::external_body]
fn first_key(map: &BTreeMap<u16, Vec<u8>>) -> (r: Option<u16>)
    ensures
        r matches Some(k) ==> (map@.contains_key(k) && (forall|j: u16| #[trigger] map@.contains_key(j) ==> k <= j)),
        r is None ==> map@.dom() == Set::<u16>::empty(),
{
    match map.first_key_value() {
        Some((k, _)) => Some(*k),
        None => None,
    }
}

/// The data of the packets `keys` of `m`, one after the other.
spec fn concat_waiting(m: Map<u16, Seq<u8>>, keys: Seq<u16>) -> Seq<u8>
    decreases keys.len(),
{
    if keys.len() == 0 {
        Seq::empty()
    } else {
        concat_waiting(m, keys.drop_last()) + m[keys.last()]
    }
}

/// `taken` are packets of `m` passed on one by one from sequence number `next` on: each is
/// the one expected next, and the earliest of those still waiting when it was taken.
spec fn taken_in_order(m: Map<u16, Seq<u8>>, next: u16, taken: Seq<u16>) -> bool {
    &&& forall|i: int|
        0 <= i < taken.len() ==> #[trigger] taken[i] as int == (next + i) % 65536
            && m.contains_key(taken[i])
    &&& forall|i: int, x: u16|
        #![trigger taken[i], m.contains_key(x)]
        0 <= i < taken.len() && m.contains_key(x) && !taken.take(i).contains(x) ==> taken[i] <= x
}

/// The packet expected next waits, and none waits ahead of it.
spec fn next_waits(m: Map<u16, Seq<u8>>, next: u16) -> bool {
    m.contains_key(next) && forall|x: u16| #[trigger] m.contains_key(x) ==> next <= x
}

/// Either fewer packets wait than before, or the same do and the unread data is the same.
spec fn took_some(
    before: Map<u16, Vec<u8>>,
    after: Map<u16, Vec<u8>>,
    unread_before: Seq<u8>,
    unread_after: Seq<u8>,
) -> bool {
    after.len() < before.len() || (after == before && unread_after == unread_before)
}

/// A copy of `data`.
fn copy_bytes(data: &[u8]) -> (r: Vec<u8>)
    ensures
        r@ == data@,
{
    let mut out: Vec<u8> = Vec::new();
    let mut i: usize = 0;
    while i < data.len()
        invariant
            i <= data@.len(),
            out@ == data@.take(i as int),
        decreases data@.len() - i,
    {
        out.push(data[i]);
        proof {
            assert(data@.take(i + 1) =~= data@.take(i as int).push(data@[i as int]));
        }
        i = i + 1;
    }
    assert(data@.take(i as int) =~= data@);
    out
}

/// A uTP connection to a peer after the handshakes. Its packets are read in the order of
/// their sequence numbers: one that comes early waits for those before it. A block
/// message may span packets and is assembled as they come.
pub struct EstablishedUtpConnection<A> {
    pub info_hash: Sha1Hash,
    pub am_choking: bool,
    pub am_interested: bool,
    pub id: usize,
    peer_data: PeerData,
    pub stream: UtpConnectionInfo<A>,
    last_keep_alive: std::time::Instant,
    block_manager: BlockManager,
    state: State,
    current_block: BlockInFlight,
    next_sequence_number: u16,
    out_of_order: BTreeMap<u16, Vec<u8>>,
    incomplete_message_buffer: Vec<u8>,
    /// Requests of the peer, to be read from disk and answered.
    pub disk_requests: Vec<Request>,
    /// Pieces completed by blocks from this peer, to be written to disk.
    pub completed_pieces: Vec<CompletedPiece>,
}

impl<A: Copy> EstablishedUtpConnection<A> {
    /// Whether reading the next message from the bytes `c` (what was kept, then the new
    /// data) goes without error. No bytes, or too few to know the length and the id, are
    /// no error. More data of the block in flight is added to it (an error when the index
    /// and offset still to be read are not all there), and a block so completed must be
    /// one the block manager takes. A block message needs its index and offset (none is an
    /// error; fewer than their 8 bytes wait), and a complete block must be taken; another
    /// message must have a length its id allows and all its data (see `dispatch_ok`).
    pub closed spec fn read_ok(
        &self,
        c: Seq<u8>,
        piece_assigner: PieceAssigner,
        block_cache: BlockCache,
    ) -> bool {
        let cur = self.current_block;
        if c.len() == 0 {
            true
        } else if cur.is_active() {
            let h = cur.header_left();
            let n = min(c.len() - h, cur.spec_length() - cur.data().len());
            let index = if h == 8 {
                from_be32(c.take(4)) as usize
            } else {
                cur.spec_index()->0
            };
            let begin = if h == 8 {
                from_be32(c.subrange(4, 8)) as usize
            } else {
                cur.spec_begin()->0
            };
            &&& c.len() >= h
            &&& cur.data().len() + n == cur.spec_length() ==> exists|b: Block|
                b.index as usize == index && b.begin as usize == begin && b.block@ == cur.data()
                    + c.subrange(h, h + n) && self.block_manager.takes_block(
                    b,
                    piece_assigner,
                    block_cache,
                )
        } else if c.len() < 5 {
            true
        } else {
            let l = from_be32(c.take(4));
            let id = c[4];
            let rest = c.skip(5);
            if l == 0 {
                true
            } else if l > u32::MAX - 4 {
                false
            } else if id == Block::ID {
                &&& l - 1 >= 8
                &&& rest.len() >= 8 && rest.len() >= l - 1 ==> exists|b: Block|
                    b.index == from_be32(rest.take(4)) && b.begin == from_be32(rest.subrange(4, 8))
                        && b.block@ == rest.subrange(8, l - 1) && self.block_manager.takes_block(
                        b,
                        piece_assigner,
                        block_cache,
                    )
            } else {
                length_ok(id, l) && dispatch_ok(rest, l, id, self.peer_data)
            }
        }
    }

    pub closed spec fn wf(&self, cache: BlockCache) -> bool {
        &&& self.block_manager.wf(cache)
        &&& self.current_block.wf()
        &&& self.current_block.incomplete()
    }

    pub closed spec fn spec_id(&self) -> usize {
        self.id
    }

    pub closed spec fn spec_info_hash(&self) -> Sha1Hash {
        self.info_hash
    }

    pub closed spec fn spec_am_choking(&self) -> bool {
        self.am_choking
    }

    pub closed spec fn spec_am_interested(&self) -> bool {
        self.am_interested
    }

    /// The state of the uTP stream.
    pub closed spec fn spec_stream(&self) -> UtpConnectionInfo<A> {
        self.stream
    }

    /// What is known of the peer.
    pub closed spec fn spec_peer(&self) -> PeerData {
        self.peer_data
    }

    pub closed spec fn spec_state(&self) -> State {
        self.state
    }

    /// The sequence number of the packet to be read next.
    pub closed spec fn spec_next_seq(&self) -> u16 {
        self.next_sequence_number
    }

    /// The data of packets that came early, by sequence number.
    pub closed spec fn waiting(&self) -> Map<u16, Seq<u8>> {
        self.out_of_order@.map_values(|v: Vec<u8>| v@)
    }

    /// The start of a message kept from the last packet, read again first with the next.
    pub closed spec fn kept_data(&self) -> Seq<u8> {
        self.incomplete_message_buffer@
    }

    /// The peer's requests waiting for the disk.
    pub closed spec fn spec_disk_requests(&self) -> Seq<Request> {
        self.disk_requests@
    }

    /// The pieces completed by blocks from this peer, to be written to disk.
    pub closed spec fn completed(&self) -> Seq<CompletedPiece> {
        self.completed_pieces@
    }

    /// The message other than a block that reading the next message from the bytes `c`
    /// (what was kept, then the new data) handles, if any: its length (counting the id),
    /// its id and the bytes after the id. None while a block is in flight, when too few
    /// bytes are there to know the length and the id, for a keep-alive, a length too large
    /// and a block message.
    pub closed spec fn peer_message(&self, c: Seq<u8>) -> Option<(u32, u8, Seq<u8>)> {
        let l = from_be32(c.take(4));
        if self.current_block.is_active() || c.len() < 5 || l == 0 || l > u32::MAX - 4 || c[4]
            == Block::ID {
            None
        } else {
            Some((l, c[4], c.skip(5)))
        }
    }

    /// The request of the peer that reading the next message from the bytes `c` (what was
    /// kept, then the new data) queues for the disk, if that message is a whole request.
    pub closed spec fn requested(&self, c: Seq<u8>) -> Option<Request> {
        match self.peer_message(c) {
            Some((l, id, rest)) => if id == 6 && l == 13 && rest.len() >= 12 {
                Some(
                    Request {
                        index: from_be32(rest.take(4)),
                        begin: from_be32(rest.subrange(4, 8)),
                        length: from_be32(rest.subrange(8, 12)),
                    },
                )
            } else {
                None
            },
            None => None,
        }
    }

    /// Whether a block message is being read, its data spanning packets.
    pub closed spec fn block_in_flight(&self) -> bool {
        self.current_block.is_active()
    }

    /// The packets that wait for those before them are those of `other`, byte for byte.
    pub closed spec fn same_waiting(&self, other: Self) -> bool {
        self.out_of_order@ == other.out_of_order@
    }

    /// The block, if any, that reading the next message from the bytes `c` (what was kept,
    /// then the new data) completes: its index, offset and data. More data may complete
    /// the block in flight; else a block message completes when all its data is there.
    pub closed spec fn completes(&self, c: Seq<u8>) -> Option<(int, int, Seq<u8>)> {
        let cur = self.current_block;
        if c.len() == 0 {
            None
        } else if cur.is_active() {
            let h = cur.header_left();
            let n = min(c.len() - h, cur.spec_length() - cur.data().len());
            let index = if h == 8 {
                from_be32(c.take(4)) as int
            } else {
                cur.spec_index()->0 as int
            };
            let begin = if h == 8 {
                from_be32(c.subrange(4, 8)) as int
            } else {
                cur.spec_begin()->0 as int
            };
            if c.len() >= h && cur.data().len() + n == cur.spec_length() {
                Some((index, begin, cur.data() + c.subrange(h, h + n)))
            } else {
                None
            }
        } else if c.len() < 5 {
            None
        } else {
            let l = from_be32(c.take(4));
            let rest = c.skip(5);
            if l == 0 || l > u32::MAX - 4 || c[4] != Block::ID || l - 1 < 8 || rest.len() < 8
                || rest.len() < l - 1 {
                None
            } else {
                Some(
                    (
                        from_be32(rest.take(4)) as int,
                        from_be32(rest.subrange(4, 8)) as int,
                        rest.subrange(8, l - 1),
                    ),
                )
            }
        }
    }

    /// A connection `id` for torrent `info_hash` of `num_pieces` pieces over `stream`: we
    /// choke and are not interested; the peer is taken not to choke, to be interested and
    /// to have no piece; the next packet read is the one `stream` acknowledged last.
    pub fn new(id: usize, info_hash: Sha1Hash, stream: UtpConnectionInfo<A>, num_pieces: usize) -> (r:
        Self)
        ensures
            r.spec_id() == id,
            r.spec_info_hash() == info_hash,
            r.spec_am_choking(),
            !r.spec_am_interested(),
            r.spec_stream() == stream,
            !r.spec_peer().peer_choking,
            r.spec_peer().peer_interested,
            bits(r.spec_peer().peer_has) == Seq::new(num_pieces as nat, |i: int| false),
            r.spec_peer().num_pieces == num_pieces,
            r.spec_state() == State::ConnectedNormal,
            r.spec_next_seq() == stream.spec_ack_nr(),
            r.waiting() == Map::<u16, Seq<u8>>::empty(),
            r.kept_data() == Seq::<u8>::empty(),
            r.spec_disk_requests() == Seq::<Request>::empty(),
            forall|c: BlockCache| r.wf(c),
    {
        let next_sequence_number = stream.get_ack_nr();
        let r = EstablishedUtpConnection {
            info_hash,
            am_choking: true,
            am_interested: false,
            id,
            peer_data: PeerData::new(info_hash, num_pieces),
            stream,
            last_keep_alive: now(),
            block_manager: BlockManager::new(),
            state: State::ConnectedNormal,
            current_block: BlockInFlight::new(),
            next_sequence_number,
            out_of_order: BTreeMap::new(),
            incomplete_message_buffer: Vec::new(),
            disk_requests: Vec::new(),
            completed_pieces: Vec::new(),
        };
        assert(r.waiting() =~= Map::<u16, Seq<u8>>::empty());
        r
    }

    /// The torrent of the connection.
    pub fn get_info_hash(&self) -> (r: Sha1Hash)
        ensures
            r == self.spec_info_hash(),
    {
        self.info_hash
    }

    /// Well-formedness depends only on the pieces of the cache.
    pub proof fn lemma_wf_same_info(&self, c1: BlockCache, c2: BlockCache)
        requires
            self.wf(c1),
            c1.info() == c2.info(),
        ensures
            self.wf(c2),
    {
        self.block_manager.lemma_wf_same_info(c1, c2);
    }

    /// The state of the uTP stream, to be updated in place.
    pub fn stream_mut(&mut self) -> (r: &mut UtpConnectionInfo<A>)
        ensures
            final(self).spec_info_hash() == old(self).spec_info_hash(),
            *r == old(self).spec_stream(),
            final(self).spec_stream() == *final(r),
            final(self).spec_peer() == old(self).spec_peer(),
            final(self).spec_state() == old(self).spec_state(),
            final(self).spec_next_seq() == old(self).spec_next_seq(),
            final(self).waiting() == old(self).waiting(),
            final(self).kept_data() == old(self).kept_data(),
            forall|c: BlockCache| old(self).wf(c) ==> final(self).wf(c),
    {
        &mut self.stream
    }

    /// The uTP stream, once the connection is done with.
    pub fn into_stream(self) -> (r: UtpConnectionInfo<A>)
        ensures
            r == self.spec_stream(),
    {
        self.stream
    }

    /// Notes that the peer is still there.
    pub fn received_keep_alive(&mut self)
        ensures
            final(self).spec_info_hash() == old(self).spec_info_hash(),
            final(self).spec_stream() == old(self).spec_stream(),
            final(self).spec_peer() == old(self).spec_peer(),
            final(self).spec_state() == old(self).spec_state(),
            final(self).spec_next_seq() == old(self).spec_next_seq(),
            final(self).waiting() == old(self).waiting(),
            final(self).kept_data() == old(self).kept_data(),
            final(self).spec_disk_requests() == old(self).spec_disk_requests(),
            forall|c: BlockCache| old(self).wf(c) ==> final(self).wf(c),
    {
        self.last_keep_alive = now();
    }

    /// Hands the block in flight, now complete, to the block manager and starts afresh; a
    /// completed piece is queued to be written.
    fn deliver_block(&mut self, piece_assigner: &mut PieceAssigner, block_cache: &mut BlockCache) -> (r:
        Result<(), UpdateError>)
        requires
            old(self).block_manager.wf(*old(block_cache)),
            old(self).current_block.wf(),
            old(self).current_block.spec_index() is Some,
            old(block_cache).wf(),
            old(piece_assigner).wf(),
            old(piece_assigner).info() == old(block_cache).info(),
        ensures
            final(self).spec_info_hash() == old(self).spec_info_hash(),
            final(self).stream == old(self).stream,
            final(self).out_of_order@ == old(self).out_of_order@,
            final(self).wf(*final(block_cache)),
            final(block_cache).wf(),
            final(piece_assigner).wf(),
            final(piece_assigner).info() == final(block_cache).info(),
            final(block_cache).info() == old(block_cache).info(),
            !final(self).current_block.is_active(),
            final(self).spec_peer() == old(self).spec_peer(),
            final(self).spec_state() == old(self).spec_state(),
            final(self).spec_next_seq() == old(self).spec_next_seq(),
            final(self).waiting() == old(self).waiting(),
            final(self).kept_data() == old(self).kept_data(),
            final(self).spec_disk_requests() == old(self).spec_disk_requests(),
            (r is Ok) == exists|b: Block|
                b.index as usize == old(self).current_block.spec_index()->0 && b.begin as usize
                    == old(self).current_block.spec_begin()->0 && b.block@ == old(
                    self).current_block.data() && old(self).block_manager.takes_block(
                    b,
                    *old(piece_assigner),
                    *old(block_cache),
                ),
            r is Ok ==> exists|b: Block|
                b.index as usize == old(self).current_block.spec_index()->0 && b.begin as usize
                    == old(self).current_block.spec_begin()->0 && b.block@ == old(
                    self).current_block.data() && #[trigger] took_block(
                    b,
                    *old(block_cache),
                    *final(block_cache),
                    old(self).completed(),
                    final(self).completed(),
                ),
            r is Err ==> *final(block_cache) == *old(block_cache) && final(self).completed()
                == old(self).completed(),
    {
        let mut data: Vec<u8> = Vec::new();
        std::mem::swap(&mut data, &mut self.current_block.block);
        let index = match self.current_block.index {
            Some(i) => i,
            None => 0,
        };
        let begin = match self.current_block.begin {
            Some(b) => b,
            None => 0,
        };
        let block = Block { index: index as u32, begin: begin as u32, block: data };
        proof {
            let ex = exists|b: Block|
                b.index as usize == old(self).current_block.spec_index()->0 && b.begin as usize
                    == old(self).current_block.spec_begin()->0 && b.block@ == old(
                    self).current_block.data() && old(self).block_manager.takes_block(
                    b,
                    *old(piece_assigner),
                    *old(block_cache),
                );
            if ex {
                let b = choose|b: Block|
                    b.index as usize == old(self).current_block.spec_index()->0 && b.begin as usize
                        == old(self).current_block.spec_begin()->0 && b.block@ == old(
                        self).current_block.data() && old(self).block_manager.takes_block(
                        b,
                        *old(piece_assigner),
                        *old(block_cache),
                    );
                assert(b.index == block.index && b.begin == block.begin);
                assert(old(block_cache).block_fits(b) == old(block_cache).block_fits(block));
            }
        }
        self.current_block.reset();
        let ghost completed_before = self.completed_pieces@;
        let received = self.block_manager.receive_block(&block, piece_assigner, block_cache);
        let r = match received {
            Ok(Some(piece)) => {
                self.completed_pieces.push(piece);
                Ok(())
            },
            Ok(None) => Ok(()),
            Err(e) => Err(e),
        };
        proof {
            if received is Ok {
                let w = choose|w: Result<Option<CompletedPiece>, BlockError>|
                    #[trigger] wrote_block(*old(block_cache), *block_cache, block, w) && received
                        == Ok::<Option<CompletedPiece>, UpdateError>(kept_piece(w));
                assert(self.completed_pieces@ =~= completed_before + piece_seq(kept_piece(w)));
                assert(took_block(
                    block,
                    *old(block_cache),
                    *block_cache,
                    old(self).completed(),
                    self.completed(),
                ));
            }
        }
        r
    }

    /// Starts reading a block message whose data after the id is `length` bytes. With
    /// fewer than the 8 bytes of its index and offset at hand, the block waits, what there
    /// is being kept for the next packet; otherwise its index and offset and as much of its
    /// data as is there are read, and a complete block is handed to the block manager.
    fn read_block_start(
        &mut self,
        read_buffer: &mut ReadBuffer,
        length: usize,
        piece_assigner: &mut PieceAssigner,
        block_cache: &mut BlockCache,
    ) -> (r: Result<UpdateSuccess, UpdateError>)
        requires
            old(self).wf(*old(block_cache)),
            !old(self).current_block.is_active(),
            old(read_buffer).wf(),
            old(block_cache).wf(),
            old(piece_assigner).wf(),
            old(piece_assigner).info() == old(block_cache).info(),
        ensures
            final(self).spec_info_hash() == old(self).spec_info_hash(),
            final(self).stream == old(self).stream,
            final(self).out_of_order@ == old(self).out_of_order@,
            final(self).wf(*final(block_cache)),
            final(read_buffer).wf(),
            final(block_cache).wf(),
            final(piece_assigner).wf(),
            final(piece_assigner).info() == final(block_cache).info(),
            final(block_cache).info() == old(block_cache).info(),
            final(self).spec_peer() == old(self).spec_peer(),
            final(self).spec_state() == old(self).spec_state(),
            final(self).spec_next_seq() == old(self).spec_next_seq(),
            final(self).waiting() == old(self).waiting(),
            final(self).spec_disk_requests() == old(self).spec_disk_requests(),
            length < 8 ==> r is Err,
            length >= 8 && old(read_buffer).unread_data().len() < 8 ==> (r == Ok::<
                UpdateSuccess,
                UpdateError,
            >(UpdateSuccess::NoUpdate) && final(self).kept_data() == old(self).kept_data() + old(
                read_buffer).unread_data() && final(read_buffer).unread_data() == Seq::<u8>::empty()),
            ({
                let u = old(read_buffer).unread_data();
                length >= 8 && u.len() >= 8 ==> (r is Ok) == (u.len() < length || exists|b: Block|
                    b.index == from_be32(u.take(4)) && b.begin == from_be32(u.subrange(4, 8))
                        && b.block@ == u.subrange(8, length as int)
                        && old(self).block_manager.takes_block(
                        b,
                        *old(piece_assigner),
                        *old(block_cache),
                    ))
            }),
            r matches Ok(s) ==> (s is NoUpdate && final(read_buffer).unread_data().len() == 0)
                || (s is Success && final(self).kept_data() == old(self).kept_data()
                && final(read_buffer).unread_data().len() <= old(read_buffer).unread_data().len()),
            ({
                let u = old(read_buffer).unread_data();
                &&& r is Ok && length >= 8 && u.len() >= length ==> exists|b: Block|
                    b.index == from_be32(u.take(4)) && b.begin == from_be32(u.subrange(4, 8))
                        && b.block@ == u.subrange(8, length as int) && #[trigger] took_block(
                        b,
                        *old(block_cache),
                        *final(block_cache),
                        old(self).completed(),
                        final(self).completed(),
                    )
                &&& !(r is Ok && length >= 8 && u.len() >= length) ==> *final(block_cache)
                    == *old(block_cache) && final(self).completed() == old(self).completed()
            }),
    {
        if length < 8 {
            return Err(UpdateError::CommunicationError(protocol_error()));
        }
        self.current_block.start_unread(length - 8);
        let available = read_buffer.unread();
        if available < 8 {
            self.keep_unread(read_buffer);
            return Ok(UpdateSuccess::NoUpdate);
        }
        let ghost u = read_buffer.unread_data();
        match self.current_block.add(read_buffer, available) {
            Err(e) => return Err(e),
            Ok(true) => {
                proof {
                    assert(self.current_block.data() =~= u.subrange(8, length as int));
                    assert(self.current_block.spec_index() == Some(from_be32(u.take(4)) as usize));
                    assert(self.current_block.spec_begin() == Some(
                        from_be32(u.subrange(4, 8)) as usize,
                    ));
                }
                let ghost cur = self.current_block;
                let ghost manager = self.block_manager;
                let delivered = self.deliver_block(piece_assigner, block_cache);
                proof {
                    if delivered is Ok {
                        let b = choose|b: Block|
                            b.index as usize == cur.spec_index()->0 && b.begin as usize
                                == cur.spec_begin()->0 && b.block@ == cur.data()
                                && #[trigger] took_block(
                                b,
                                *old(block_cache),
                                *block_cache,
                                old(self).completed(),
                                self.completed(),
                            );
                        assert(b.index == from_be32(u.take(4)));
                        assert(b.begin == from_be32(u.subrange(4, 8)));
                    } else {
                        assert forall|b: Block|
                            b.index == from_be32(u.take(4)) && b.begin == from_be32(
                                u.subrange(4, 8),
                            ) && b.block@ == u.subrange(
                                8,
                                length as int,
                            ) implies !#[trigger] old(self).block_manager.takes_block(
                            b,
                            *old(piece_assigner),
                            *old(block_cache),
                        ) by {
                            assert(manager == old(self).block_manager);
                            if old(self).block_manager.takes_block(
                                b,
                                *old(piece_assigner),
                                *old(block_cache),
                            ) {
                                assert(b.index as usize == cur.spec_index()->0);
                                assert(b.begin as usize == cur.spec_begin()->0);
                            }
                        }
                    }
                }
                match delivered {
                    Err(e) => return Err(e),
                    Ok(()) => {},
                }
            },
            Ok(false) => {},
        }
        Ok(UpdateSuccess::Success)
    }

    /// Reads the next message from the unread bytes of `read_buffer`, after the bytes kept
    /// from the last packet. More data of the block in flight is added to it, and a block
    /// that is complete is handed to the block manager. The start of a message too short
    /// to read is kept for the next packet. A keep-alive gives `Success`, another message
    /// is handled as on a TCP connection and gives what was read.
    #[verifier::spinoff_prover]
    pub fn read(
        &mut self,
        read_buffer: &mut ReadBuffer,
        piece_assigner: &mut PieceAssigner,
        block_cache: &mut BlockCache,
    ) -> (r: Result<UpdateSuccess, UpdateError>)
        requires
            old(self).wf(*old(block_cache)),
            old(read_buffer).wf(),
            old(block_cache).wf(),
            old(piece_assigner).wf(),
            old(piece_assigner).info() == old(block_cache).info(),
        ensures
            final(self).spec_info_hash() == old(self).spec_info_hash(),
            final(self).spec_stream() == old(self).spec_stream(),
            final(self).same_waiting(*old(self)),
            final(self).wf(*final(block_cache)),
            final(read_buffer).wf(),
            final(block_cache).wf(),
            final(piece_assigner).wf(),
            final(piece_assigner).info() == final(block_cache).info(),
            final(block_cache).info() == old(block_cache).info(),
            final(self).spec_peer().num_pieces == old(self).spec_peer().num_pieces,
            final(self).spec_state() == old(self).spec_state(),
            final(self).spec_next_seq() == old(self).spec_next_seq(),
            final(self).waiting() == old(self).waiting(),
            r matches Ok(UpdateSuccess::NoUpdate) ==> final(read_buffer).unread_data().len() == 0,
            old(self).kept_data().len() > 0 && old(self).kept_data().len() + old(
                read_buffer).unread_data().len() > usize::MAX ==> r is Err,
            !old(self).block_in_flight() && 0 < old(self).kept_data().len() + old(
                read_buffer).unread_data().len() < 5 ==> r == Ok::<UpdateSuccess, UpdateError>(
                UpdateSuccess::NoUpdate,
            ) && final(self).kept_data() == old(self).kept_data() + old(read_buffer).unread_data()
                && final(read_buffer).unread_data().len() == 0,
            old(self).kept_data().len() == 0 || old(self).kept_data().len() + old(
                read_buffer).unread_data().len() <= usize::MAX ==> (r is Ok) == old(self).read_ok(
                old(self).kept_data() + old(read_buffer).unread_data(),
                *old(piece_assigner),
                *old(block_cache),
            ),
            (r is Ok && !(r matches Ok(UpdateSuccess::NoUpdate))) ==> final(self).kept_data().len()
                == 0 && final(read_buffer).unread_data().len() < old(read_buffer).unread_data().len()
                + old(self).kept_data().len(),
            r is Err ==> final(self).spec_disk_requests() == old(self).spec_disk_requests(),
            old(self).spec_disk_requests().is_prefix_of(final(self).spec_disk_requests()),
            old(self).kept_data().len() == 0 || old(self).kept_data().len() + old(
                read_buffer).unread_data().len() <= usize::MAX ==> match old(self).requested(
                old(self).kept_data() + old(read_buffer).unread_data(),
            ) {
                Some(q) => r is Ok && final(self).spec_disk_requests()
                    == old(self).spec_disk_requests().push(q),
                None => true,
            },
            r is Ok ==> match old(self).peer_message(
                old(self).kept_data() + old(read_buffer).unread_data(),
            ) {
                Some((l, id, rest)) => exists|d: Result<Dispatched, UpdateError>|
                    d is Ok && #[trigger] dispatched(
                        rest,
                        l,
                        id,
                        old(self).spec_peer(),
                        final(self).spec_peer(),
                        d,
                    ) && final(self).spec_disk_requests() == queued(
                        old(self).spec_disk_requests(),
                        d,
                    ),
                None => final(self).spec_peer() == old(self).spec_peer()
                    && final(self).spec_disk_requests() == old(self).spec_disk_requests(),
            },
            r is Ok ==> match old(self).completes(
                old(self).kept_data() + old(read_buffer).unread_data(),
            ) {
                Some((i, g, d)) => exists|b: Block|
                    b.index as int == i && b.begin as int == g && b.block@ == d
                        && #[trigger] took_block(
                        b,
                        *old(block_cache),
                        *final(block_cache),
                        old(self).completed(),
                        final(self).completed(),
                    ),
                None => *final(block_cache) == *old(block_cache) && final(self).completed() == old(
                    self,
                ).completed(),
            },
    {
        if self.incomplete_message_buffer.len() > 0 {
            if self.incomplete_message_buffer.len() > usize::MAX - read_buffer.unread() {
                return Err(UpdateError::CommunicationError(protocol_error()));
            }
            read_buffer.prepend_unread(self.incomplete_message_buffer.as_slice());
            self.incomplete_message_buffer.clear();
        }
        let packet_data_length = read_buffer.unread();
        let ghost c = read_buffer.unread_data();
        proof {
            assert(c =~= old(self).kept_data() + old(read_buffer).unread_data());
        }
        if packet_data_length == 0 {
            return Ok(UpdateSuccess::NoUpdate);
        }
        if self.current_block.active() {
            let ghost cur = self.current_block;
            match self.current_block.add(read_buffer, packet_data_length) {
                Err(e) => return Err(e),
                Ok(true) => {
                    proof {
                        let h = cur.header_left();
                        let n = min(c.len() - h, cur.spec_length() - cur.data().len());
                        assert(self.current_block.data() == cur.data() + c.subrange(h, h + n));
                        let index = if h == 8 {
                            from_be32(c.take(4)) as usize
                        } else {
                            cur.spec_index()->0
                        };
                        let begin = if h == 8 {
                            from_be32(c.subrange(4, 8)) as usize
                        } else {
                            cur.spec_begin()->0
                        };
                        assert(self.current_block.spec_index() == Some(index));
                        assert(self.current_block.spec_begin() == Some(begin));
                        assert(self.block_manager == old(self).block_manager);
                        assert(cur == old(self).current_block);
                    }
                    let ghost cur2 = self.current_block;
                    let delivered = self.deliver_block(piece_assigner, block_cache);
                    proof {
                        if delivered is Ok {
                            let h = cur.header_left();
                            let n = min(c.len() - h, cur.spec_length() - cur.data().len());
                            assert(c.len() >= h);
                            assert(cur.data().len() + n == cur.spec_length());
                            let b = choose|b: Block|
                                b.index as usize == cur2.spec_index()->0 && b.begin as usize
                                    == cur2.spec_begin()->0 && b.block@ == cur2.data()
                                    && #[trigger] took_block(
                                    b,
                                    *old(block_cache),
                                    *block_cache,
                                    old(self).completed(),
                                    self.completed(),
                                );
                            assert(old(self).completes(c) == Some(
                                (b.index as int, b.begin as int, b.block@),
                            ));
                        }
                    }
                    match delivered {
                        Err(e) => return Err(e),
                        Ok(()) => {},
                    }
                },
                Ok(false) => {
                    proof {
                        let h = cur.header_left();
                        let n = min(c.len() - h, cur.spec_length() - cur.data().len());
                        assert(!(c.len() >= h && cur.data().len() + n == cur.spec_length()));
                    }
                },
            }
            return Ok(UpdateSuccess::Transferred { downloaded: packet_data_length, uploaded: 0 });
        }
        if packet_data_length < 5 {
            self.keep_unread(read_buffer);
            return Ok(UpdateSuccess::NoUpdate);
        }
        let length = read_u32(read_buffer.get_unread(), 0);
        proof {
            assert(c.subrange(0, 4) =~= c.take(4));
        }
        read_buffer.consume(4);
        if length == 0 {
            self.last_keep_alive = now();
            return Ok(UpdateSuccess::Success);
        }
        if length > u32::MAX - 4 {
            return Err(UpdateError::CommunicationError(protocol_error()));
        }
        let total_read = 4 + length as usize;
        let id = read_buffer.get_unread()[0];
        read_buffer.consume(1);
        proof {
            assert(id == c[4]);
            assert(read_buffer.unread_data() =~= c.skip(5));
        }
        let retval = if id == Block::ID {
            self.read_block_start(read_buffer, (length - 1) as usize, piece_assigner, block_cache)
        } else {
            let ghost peer_before = self.peer_data;
            let ghost unread = read_buffer.unread_data();
            let d = dispatch_checked(read_buffer, length, id, &mut self.peer_data);
            let ghost dg = d;
            let handled = match d {
                Ok(Dispatched::PeerRequest(request)) => {
                    self.disk_requests.push(request);
                    Ok(UpdateSuccess::Success)
                },
                Ok(_) => Ok(UpdateSuccess::Success),
                Err(e) => Err(e),
            };
            proof {
                if dg is Ok {
                    assert(length_ok(id, length));
                    assert(old(self).peer_message(c) == Some((length, id, unread)));
                    assert(peer_before == old(self).spec_peer());
                    assert(dispatched(
                        unread,
                        length,
                        id,
                        old(self).spec_peer(),
                        self.spec_peer(),
                        dg,
                    ));
                    assert(self.spec_disk_requests() == queued(
                        old(self).spec_disk_requests(),
                        dg,
                    ));
                }
            }
            handled
        };
        proof {
            if id == Block::ID {
                assert(old(self).peer_message(c) is None);
            } else if retval is Ok {
                let m = old(self).peer_message(c);
                assert(m == Some((length, id, c.skip(5))));
                let d = choose|e: Result<Dispatched, UpdateError>|
                    e is Ok && #[trigger] dispatched(
                        c.skip(5),
                        length,
                        id,
                        old(self).spec_peer(),
                        self.spec_peer(),
                        e,
                    ) && self.spec_disk_requests() == queued(old(self).spec_disk_requests(), e);
                assert(dispatched(
                    m->Some_0.2,
                    m->Some_0.0,
                    m->Some_0.1,
                    old(self).spec_peer(),
                    self.spec_peer(),
                    d,
                ));
            }
        }
        match retval {
            Ok(UpdateSuccess::Success) => Ok(
                UpdateSuccess::Transferred { downloaded: total_read, uploaded: 0 },
            ),
            other => other,
        }
    }

    /// Appends to `read_buffer` the data of the packets that waited, in order, as long as
    /// the earliest one waiting is the one expected next; each is then no longer waiting.
    /// A packet that does not fit in `read_buffer` stays waiting and its error is returned.
    fn take_waiting(&mut self, read_buffer: &mut ReadBuffer) -> (r: Result<(), UpdateError>)
        requires
            old(read_buffer).wf(),
        ensures
            final(self).spec_info_hash() == old(self).spec_info_hash(),
            final(read_buffer).wf(),
            final(self).out_of_order@.dom().subset_of(old(self).out_of_order@.dom()),
            took_some(
                old(self).out_of_order@,
                final(self).out_of_order@,
                old(read_buffer).unread_data(),
                final(read_buffer).unread_data(),
            ),
            final(self).peer_data == old(self).peer_data,
            final(self).state == old(self).state,
            final(self).block_manager == old(self).block_manager,
            final(self).current_block == old(self).current_block,
            final(self).incomplete_message_buffer == old(self).incomplete_message_buffer,
            final(self).disk_requests == old(self).disk_requests,
            final(self).stream == old(self).stream,
            exists|taken: Seq<u16>|
                taken_in_order(old(self).waiting(), old(self).spec_next_seq(), taken)
                    && final(self).waiting() == old(self).waiting().remove_keys(taken.to_set())
                    && final(self).spec_next_seq() as int == (old(self).spec_next_seq()
                    + taken.len()) % 65536 && final(read_buffer).unread_data() == old(
                    read_buffer).unread_data() + concat_waiting(old(self).waiting(), taken)
                    && (r is Err ==> final(self).waiting()[final(self).spec_next_seq()].len()
                    + final(read_buffer).unread_data().len() > old(read_buffer).spec_capacity()),
            r is Ok ==> !next_waits(final(self).waiting(), final(self).spec_next_seq()),
            r is Err ==> next_waits(final(self).waiting(), final(self).spec_next_seq()),
    {
        broadcast use vstd::std_specs::btree::group_btree_axioms;

        let ghost mut taken: Seq<u16> = Seq::empty();
        proof {
            assert(old(self).waiting().remove_keys(taken.to_set()) =~= old(self).waiting());
        }

        loop
            invariant_except_break
                read_buffer.wf(),
                self.out_of_order@.dom().subset_of(old(self).out_of_order@.dom()),
                took_some(
                    old(self).out_of_order@,
                    self.out_of_order@,
                    old(read_buffer).unread_data(),
                    read_buffer.unread_data(),
                ),
                self.peer_data == old(self).peer_data,
                self.state == old(self).state,
                self.block_manager == old(self).block_manager,
                self.current_block == old(self).current_block,
                self.incomplete_message_buffer == old(self).incomplete_message_buffer,
                self.disk_requests == old(self).disk_requests,
                self.stream == old(self).stream,
                self.info_hash == old(self).info_hash,
                taken_in_order(old(self).waiting(), old(self).spec_next_seq(), taken),
                self.waiting() == old(self).waiting().remove_keys(taken.to_set()),
                self.spec_next_seq() as int == (old(self).spec_next_seq() + taken.len()) % 65536,
                read_buffer.unread_data() == old(read_buffer).unread_data() + concat_waiting(
                    old(self).waiting(),
                    taken,
                ),
                read_buffer.spec_capacity() == old(read_buffer).spec_capacity(),
            ensures
                read_buffer.wf(),
                self.out_of_order@.dom().subset_of(old(self).out_of_order@.dom()),
                took_some(
                    old(self).out_of_order@,
                    self.out_of_order@,
                    old(read_buffer).unread_data(),
                    read_buffer.unread_data(),
                ),
                self.peer_data == old(self).peer_data,
                self.state == old(self).state,
                self.block_manager == old(self).block_manager,
                self.current_block == old(self).current_block,
                self.incomplete_message_buffer == old(self).incomplete_message_buffer,
                self.disk_requests == old(self).disk_requests,
                self.stream == old(self).stream,
                self.info_hash == old(self).info_hash,
                taken_in_order(old(self).waiting(), old(self).spec_next_seq(), taken),
                self.waiting() == old(self).waiting().remove_keys(taken.to_set()),
                self.spec_next_seq() as int == (old(self).spec_next_seq() + taken.len()) % 65536,
                read_buffer.unread_data() == old(read_buffer).unread_data() + concat_waiting(
                    old(self).waiting(),
                    taken,
                ),
                read_buffer.spec_capacity() == old(read_buffer).spec_capacity(),
                !next_waits(self.waiting(), self.spec_next_seq()),
            decreases self.out_of_order@.len(),
        {
            let next = self.next_sequence_number;
            match first_key(&self.out_of_order) {
                Some(k) => {
                    if k != next {
                        proof {
                            assert(self.waiting().dom() =~= self.out_of_order@.dom());
                            assert(self.waiting().contains_key(k));
                        }
                        break;
                    }
                },
                None => {
                    proof {
                        assert(!self.waiting().contains_key(next));
                    }
                    break;
                },
            }
            let written = match self.out_of_order.get(&next) {
                Some(data) => read_buffer.write(data.as_slice()),
                None => {
                    proof {
                        assert(!self.waiting().contains_key(next));
                    }
                    break;
                },
            };
            match written {
                Ok(_) => {},
                Err(e) => {
                    proof {
                        assert(self.waiting().contains_key(next));
                        assert(self.waiting()[next] == self.out_of_order@[next]@);
                        assert(taken_in_order(old(self).waiting(), old(self).spec_next_seq(), taken));
                    }
                    return Err(UpdateError::CommunicationError(e));
                },
            }
            let ghost before = self.out_of_order@;
            let ghost before_waiting = self.waiting();
            self.out_of_order.remove(&next);
            proof {
                assert(before.dom().contains(next));
                assert(self.out_of_order@ == before.remove(next));
                let t2 = taken.push(next);
                assert(self.waiting() =~= before_waiting.remove(next));
                assert forall|x: u16| t2.contains(x) <==> taken.contains(x) || x == next by {
                    if taken.contains(x) {
                        let j = choose|j: int| 0 <= j < taken.len() && taken[j] == x;
                        assert(t2[j] == x);
                    }
                    if x == next {
                        assert(t2[taken.len() as int] == x);
                    }
                    if t2.contains(x) && x != next {
                        let j = choose|j: int| 0 <= j < t2.len() && t2[j] == x;
                        assert(taken[j] == x);
                    }
                }
                assert(t2.to_set() =~= taken.to_set().insert(next));
                assert(old(self).waiting().remove_keys(t2.to_set()) =~= before_waiting.remove(
                    next,
                ));
                assert(before_waiting[next] == old(self).waiting()[next]);
                assert(concat_waiting(old(self).waiting(), t2) == concat_waiting(
                    old(self).waiting(),
                    taken,
                ) + old(self).waiting()[next]) by {
                    assert(t2.drop_last() =~= taken);
                }
                assert forall|i: int, x: u16|
                    #![trigger t2[i], old(self).waiting().contains_key(x)]
                    0 <= i < t2.len() && old(self).waiting().contains_key(x) && !t2.take(i).contains(
                        x,
                    ) implies t2[i] <= x by {
                    if i < taken.len() {
                        assert(t2.take(i) =~= taken.take(i));
                        assert(t2[i] == taken[i]);
                    } else {
                        assert(t2.take(i) =~= taken);
                        assert(before_waiting.contains_key(x));
                    }
                }
                taken = t2;
            }
            self.next_sequence_number = self.next_sequence_number.wrapping_add(1);
        }
        proof {
            assert(taken_in_order(old(self).waiting(), old(self).spec_next_seq(), taken));
        }
        Ok(())
    }

    /// Reads the messages of a data packet with header `header` whose data is unread in
    /// `read_buffer`. A packet that comes before those expected ahead of it waits, and
    /// nothing is read. Otherwise messages are read until none is left, the data of the
    /// packets that waited for this one being read after it, in order. Gives what was
    /// transferred, or `NoUpdate` when nothing was.
    fn read_all(
        &mut self,
        read_buffer: &mut ReadBuffer,
        header: &Header,
        piece_assigner: &mut PieceAssigner,
        block_cache: &mut BlockCache,
    ) -> (r: Result<UpdateSuccess, UpdateError>)
        requires
            old(self).wf(*old(block_cache)),
            old(read_buffer).wf(),
            old(block_cache).wf(),
            old(piece_assigner).wf(),
            old(piece_assigner).info() == old(block_cache).info(),
        ensures
            final(self).spec_info_hash() == old(self).spec_info_hash(),
            final(self).wf(*final(block_cache)),
            final(read_buffer).wf(),
            final(block_cache).wf(),
            final(piece_assigner).wf(),
            final(piece_assigner).info() == final(block_cache).info(),
            final(block_cache).info() == old(block_cache).info(),
            final(self).spec_peer().num_pieces == old(self).spec_peer().num_pieces,
            final(self).spec_state() == old(self).spec_state(),
            final(self).stream == old(self).stream,
            header.seq_nr != old(self).spec_next_seq() ==> {
                &&& r == Ok::<UpdateSuccess, UpdateError>(UpdateSuccess::NoUpdate)
                &&& final(self).waiting() == old(self).waiting().insert(
                    header.seq_nr,
                    old(read_buffer).unread_data(),
                )
                &&& final(self).spec_next_seq() == old(self).spec_next_seq()
                &&& *final(read_buffer) == *old(read_buffer)
            },
            header.seq_nr == old(self).spec_next_seq() && r is Ok
                ==> final(read_buffer).unread_data().len() == 0,
            r matches Ok(s) ==> !(s is Success),
            old(self).spec_disk_requests().is_prefix_of(final(self).spec_disk_requests()),
            header.seq_nr == old(self).spec_next_seq() && (old(self).kept_data().len() == 0
                || old(self).kept_data().len() + old(read_buffer).unread_data().len()
                <= usize::MAX) ==> match old(self).requested(
                old(self).kept_data() + old(read_buffer).unread_data(),
            ) {
                Some(q) => old(self).spec_disk_requests().push(q).is_prefix_of(
                    final(self).spec_disk_requests(),
                ),
                None => true,
            },
    {
        broadcast use vstd::std_specs::btree::group_btree_axioms;

        if header.seq_nr != self.next_sequence_number {
            let data = copy_bytes(read_buffer.get_unread());
            self.out_of_order.insert(header.seq_nr, data);
            proof {
                assert(self.waiting() =~= old(self).waiting().insert(
                    header.seq_nr,
                    old(read_buffer).unread_data(),
                ));
            }
            return Ok(UpdateSuccess::NoUpdate);
        }
        self.next_sequence_number = self.next_sequence_number.wrapping_add(1);
        let mut total_downloaded: usize = 0;
        let mut total_uploaded: usize = 0;
        let ghost mut first = true;
        let ghost first_ok = (old(self).kept_data().len() == 0 || old(self).kept_data().len()
            + old(read_buffer).unread_data().len() <= usize::MAX) && old(self).requested(
            old(self).kept_data() + old(read_buffer).unread_data(),
        ) is Some;
        let ghost first_queue = old(self).spec_disk_requests().push(
            old(self).requested(old(self).kept_data() + old(read_buffer).unread_data())->0,
        );
        loop
            invariant
                first_ok == ((old(self).kept_data().len() == 0 || old(self).kept_data().len()
                    + old(read_buffer).unread_data().len() <= usize::MAX) && old(self).requested(
                    old(self).kept_data() + old(read_buffer).unread_data(),
                ) is Some),
                first_queue == old(self).spec_disk_requests().push(
                    old(self).requested(old(self).kept_data() + old(read_buffer).unread_data())->0,
                ),
                old(self).spec_disk_requests().is_prefix_of(self.spec_disk_requests()),
                first ==> self.spec_disk_requests() == old(self).spec_disk_requests()
                    && self.kept_data() == old(self).kept_data() && *read_buffer == *old(
                    read_buffer,
                ) && self.current_block == old(self).current_block,
                !first && first_ok ==> first_queue.is_prefix_of(self.spec_disk_requests()),
                self.wf(*block_cache),
                read_buffer.wf(),
                block_cache.wf(),
                piece_assigner.wf(),
                piece_assigner.info() == block_cache.info(),
                block_cache.info() == old(block_cache).info(),
                self.spec_peer().num_pieces == old(self).spec_peer().num_pieces,
                self.spec_state() == old(self).spec_state(),
                self.stream == old(self).stream,
                self.out_of_order@.dom().finite(),
                header.seq_nr == old(self).spec_next_seq(),
                self.info_hash == old(self).info_hash,
            ensures
                read_buffer.unread_data().len() == 0,
                old(self).spec_disk_requests().is_prefix_of(self.spec_disk_requests()),
                first_ok ==> first_queue.is_prefix_of(self.spec_disk_requests()),
            decreases self.out_of_order@.len(), read_buffer.unread_data().len()
                + self.incomplete_message_buffer@.len(),
        {
            let ghost disk_before = self.spec_disk_requests();
            proof {
                if first {
                    assert(self.peer_message(self.kept_data() + read_buffer.unread_data())
                        == old(self).peer_message(
                        old(self).kept_data() + old(read_buffer).unread_data(),
                    ));
                    assert(self.requested(self.kept_data() + read_buffer.unread_data())
                        == old(self).requested(
                        old(self).kept_data() + old(read_buffer).unread_data(),
                    ));
                }
            }
            let read = self.read(read_buffer, piece_assigner, block_cache);
            proof {
                if first && first_ok {
                    assert(read is Ok);
                    assert(self.spec_disk_requests() == first_queue);
                }
            }
            let retval = match read {
                Ok(v) => v,
                Err(e) => return Err(e),
            };
            proof {
                lemma_prefix_transitive(old(self).spec_disk_requests(), disk_before, self.spec_disk_requests());
                if !first && first_ok {
                    lemma_prefix_transitive(first_queue, disk_before, self.spec_disk_requests());
                }
                first = false;
            }
            if read_buffer.unread() == 0 {
                match self.take_waiting(read_buffer) {
                    Ok(()) => {},
                    Err(e) => return Err(e),
                }
                if read_buffer.unread() == 0 {
                    break;
                }
            }
            match retval {
                UpdateSuccess::NoUpdate => {
                    read_buffer.clear();
                    break;
                },
                UpdateSuccess::Transferred { downloaded, uploaded } => {
                    total_downloaded = total_downloaded.saturating_add(downloaded);
                    total_uploaded = total_uploaded.saturating_add(uploaded);
                },
                UpdateSuccess::Success => {},
            }
        }
        if total_downloaded != 0 {
            Ok(UpdateSuccess::Transferred { downloaded: total_downloaded, uploaded: total_uploaded })
        } else {
            Ok(UpdateSuccess::NoUpdate)
        }
    }

    /// A header for the next data packet; the sequence number advances.
    pub fn get_utp_header(&mut self) -> (r: Header)
        ensures
            final(self).spec_info_hash() == old(self).spec_info_hash(),
            r.type_ver_extension == 256,
            r.seq_nr == old(self).spec_stream().spec_seq_nr(),
            r.ack_nr == old(self).spec_stream().spec_ack_nr(),
            r.connection_id == old(self).spec_stream().spec_conn_id_send(),
            final(self).spec_stream().spec_seq_nr() == (old(self).spec_stream().spec_seq_nr() + 1)
                % 65536,
            final(self).spec_stream().spec_ack_nr() == old(self).spec_stream().spec_ack_nr(),
            final(self).spec_peer() == old(self).spec_peer(),
            final(self).spec_state() == old(self).spec_state(),
            final(self).spec_next_seq() == old(self).spec_next_seq(),
            final(self).waiting() == old(self).waiting(),
            final(self).kept_data() == old(self).kept_data(),
            forall|c: BlockCache| old(self).wf(c) ==> final(self).wf(c),
    {
        self.stream.create_header(Type::StData)
    }

    /// Takes note that `sent` more packets went out: the sequence number advances by
    /// `sent` (wrapping).
    pub fn add_seq_nr(&mut self, sent: usize)
        ensures
            final(self).spec_info_hash() == old(self).spec_info_hash(),
            final(self).spec_stream().spec_seq_nr() == (old(self).spec_stream().spec_seq_nr()
                + sent % 65536) % 65536,
            final(self).spec_stream().spec_ack_nr() == old(self).spec_stream().spec_ack_nr(),
            final(self).spec_peer() == old(self).spec_peer(),
            final(self).spec_state() == old(self).spec_state(),
            final(self).spec_next_seq() == old(self).spec_next_seq(),
            final(self).waiting() == old(self).waiting(),
            final(self).kept_data() == old(self).kept_data(),
            forall|c: BlockCache| old(self).wf(c) ==> final(self).wf(c),
    {
        self.stream.advance_seq_nr(sent);
    }

    /// Once the peer does not choke, queues on `send_buffer` the requests for as many
    /// blocks as the block manager hands out. Gives `Success` when a request was queued,
    /// `NoUpdate` otherwise. A peer whose bitfield does not cover the torrent's pieces
    /// breaks the protocol.
    fn send_block_requests(
        &mut self,
        send_buffer: &mut UtpSendBuffer,
        piece_assigner: &mut PieceAssigner,
        block_cache: &BlockCache,
    ) -> (r: Result<UpdateSuccess, UpdateError>)
        requires
            old(self).wf(*block_cache),
            block_cache.wf(),
            old(piece_assigner).wf(),
            old(piece_assigner).info() == block_cache.info(),
        ensures
            final(self).spec_info_hash() == old(self).spec_info_hash(),
            final(self).wf(*block_cache),
            final(piece_assigner).wf(),
            final(piece_assigner).info() == old(piece_assigner).info(),
            final(self).spec_peer() == old(self).spec_peer(),
            final(self).spec_state() == old(self).spec_state(),
            final(self).spec_stream() == old(self).spec_stream(),
            final(self).spec_next_seq() == old(self).spec_next_seq(),
            final(self).waiting() == old(self).waiting(),
            final(self).spec_disk_requests() == old(self).spec_disk_requests(),
            final(send_buffer).headers() == old(send_buffer).headers(),
            old(self).spec_peer().peer_choking ==> (r matches Ok(UpdateSuccess::NoUpdate)
                && final(send_buffer).data() == old(send_buffer).data()),
            r matches Ok(s) ==> !(s is Transferred),
            ({
                let info = block_cache.info();
                let per_piece = (info.piece_length / 16384 + 1) as int;
                let covers = bits(old(self).spec_peer().peer_has).len() == info.total_pieces;
                &&& !old(self).spec_peer().peer_choking && !covers ==> (r matches Err(
                    UpdateError::CommunicationError(_),
                ) && final(send_buffer).data() == old(send_buffer).data())
                &&& !old(self).spec_peer().peer_choking && covers && info.total_pieces > (usize::MAX as int)
                    / per_piece ==> (r == Err::<UpdateSuccess, UpdateError>(
                    UpdateError::IndexOutOfBounds,
                ) && final(send_buffer).data() == old(send_buffer).data())
                &&& !old(self).spec_peer().peer_choking && covers && info.total_pieces
                    <= (usize::MAX as int) / per_piece ==> exists|c: Seq<Cancel>, q: Seq<Request>|
                    final(send_buffer).data() == old(send_buffer).data() + cancels_bytes(c)
                        + requests_bytes(q) && (r == Ok::<UpdateSuccess, UpdateError>(
                        UpdateSuccess::Success,
                    )) == (q.len() > 0) && (r == Ok::<UpdateSuccess, UpdateError>(
                        UpdateSuccess::NoUpdate,
                    )) == (q.len() == 0)
            }),
    {
        if self.peer_data.peer_choking {
            return Ok(UpdateSuccess::NoUpdate);
        }
        let info = block_cache.piece_info();
        if bitvec_len(&self.peer_data.peer_has) != info.total_pieces {
            return Err(UpdateError::CommunicationError(protocol_error()));
        }
        let per_piece = info.piece_length / 16384 + 1;
        if info.total_pieces > usize::MAX / per_piece {
            return Err(UpdateError::IndexOutOfBounds);
        }
        proof {
            vstd::arithmetic::div_mod::lemma_fundamental_div_mod(usize::MAX as int, per_piece as int);
            vstd::arithmetic::mul::lemma_mul_inequality(
                info.total_pieces as int,
                (usize::MAX / per_piece) as int,
                per_piece as int,
            );
            assert(info.total_pieces * per_piece <= usize::MAX);
            assert(block_cache.info().total_pieces * (block_cache.info().piece_length / 16384 + 1)
                <= usize::MAX);
        }
        let mut out: Vec<u8> = Vec::new();
        let sent = self.block_manager.send_block_requests(
            &mut out,
            &self.peer_data.peer_has,
            self.id,
            piece_assigner,
            block_cache,
        );
        let ghost before = send_buffer.data();
        send_buffer.add_data(out.as_slice());
        proof {
            let (c, q) = choose|c: Seq<Cancel>, q: Seq<Request>|
                q.len() == sent && out@ == cancels_bytes(c) + requests_bytes(q);
            assert(send_buffer.data() == before + cancels_bytes(c) + requests_bytes(q));
        }
        if sent == 0 {
            return Ok(UpdateSuccess::NoUpdate);
        }
        Ok(UpdateSuccess::Success)
    }

    /// Handles a packet with header `header` whose data is unread in `read_buffer`. An
    /// acknowledgement gives `NoUpdate`; a packet that is neither one nor data breaks the
    /// protocol. A data packet is acknowledged and its messages are read, an error in them
    /// counting as nothing read once `read_buffer` is emptied. A seeding connection then
    /// gives what was read. Otherwise, once every piece is complete the connection turns
    /// to seeding; until then it queues block requests, and gives what was read, or what
    /// the requests came to when nothing was read. The peer's requests read are queued for
    /// the disk, a whole request at the start of the packet among them.
    pub fn update(
        &mut self,
        read_buffer: &mut ReadBuffer,
        header: &Header,
        send_buffer: &mut UtpSendBuffer,
        piece_assigner: &mut PieceAssigner,
        block_cache: &mut BlockCache,
    ) -> (r: Result<UpdateSuccess, UpdateError>)
        requires
            header.type_number() <= 4,
            old(self).wf(*old(block_cache)),
            old(read_buffer).wf(),
            old(block_cache).wf(),
            old(piece_assigner).wf(),
            old(piece_assigner).info() == old(block_cache).info(),
        ensures
            old(send_buffer).data().is_prefix_of(final(send_buffer).data()),
            handled_packet(
                *old(self),
                *final(self),
                *header,
                old(read_buffer).unread_data(),
                *final(block_cache),
                r,
            ),
            final(read_buffer).wf(),
            final(block_cache).wf(),
            final(piece_assigner).wf(),
            final(piece_assigner).info() == final(block_cache).info(),
            final(block_cache).info() == old(block_cache).info(),
            type_of_code(header.type_number()) == Type::StState ==> (*final(read_buffer)
                == *old(read_buffer) && *final(send_buffer) == *old(send_buffer)),
            type_of_code(header.type_number()) != Type::StState && type_of_code(
                header.type_number(),
            ) != Type::StData ==> *final(send_buffer) == *old(send_buffer),
            type_of_code(header.type_number()) == Type::StData ==> final(send_buffer).headers()
                == old(send_buffer).headers().push(Type::StState),
            type_of_code(header.type_number()) == Type::StData && header.seq_nr
                == old(self).spec_next_seq() ==> final(read_buffer).unread_data().len() == 0,
            old(self).spec_disk_requests().is_prefix_of(final(self).spec_disk_requests()),
            type_of_code(header.type_number()) == Type::StData && header.seq_nr == old(
                self,
            ).spec_next_seq() && (old(self).kept_data().len() == 0 || old(self).kept_data().len()
                + old(read_buffer).unread_data().len() <= usize::MAX) ==> match old(
                self,
            ).requested(old(self).kept_data() + old(read_buffer).unread_data()) {
                Some(q) => old(self).spec_disk_requests().push(q).is_prefix_of(
                    final(self).spec_disk_requests(),
                ),
                None => true,
            },
    {
        let kind = header.get_type();
        if kind == Type::StState {
            return Ok(UpdateSuccess::NoUpdate);
        }
        if kind != Type::StData {
            return Err(UpdateError::CommunicationError(protocol_error()));
        }
        self.stream.process_header(header);
        send_buffer.add_header(Type::StState);
        let read_result = match self.read_all(read_buffer, header, piece_assigner, block_cache) {
            Ok(v) => v,
            Err(_) => {
                read_buffer.clear();
                UpdateSuccess::NoUpdate
            },
        };
        match self.state {
            State::Seeding => Ok(read_result),
            State::ConnectedNormal | State::ConnectedEndgame => {
                if block_cache.done() {
                    self.state = State::Seeding;
                    return Ok(read_result);
                }
                let request_result = match self.send_block_requests(
                    send_buffer,
                    piece_assigner,
                    block_cache,
                ) {
                    Ok(v) => v,
                    Err(e) => return Err(e),
                };
                match (read_result, request_result) {
                    (UpdateSuccess::NoUpdate, UpdateSuccess::NoUpdate) => Ok(UpdateSuccess::NoUpdate),
                    (UpdateSuccess::NoUpdate, UpdateSuccess::Success) => Ok(UpdateSuccess::Success),
                    (read_result, _) => Ok(read_result),
                }
            },
        }
    }

    /// Moves the unread bytes of `read_buffer`, the start of a message, to the kept bytes.
    fn keep_unread(&mut self, read_buffer: &mut ReadBuffer)
        requires
            old(read_buffer).wf(),
        ensures
            final(self).spec_info_hash() == old(self).spec_info_hash(),
            final(self).stream == old(self).stream,
            final(self).out_of_order@ == old(self).out_of_order@,
            final(read_buffer).wf(),
            final(read_buffer).unread_data() == Seq::<u8>::empty(),
            final(self).kept_data() == old(self).kept_data() + old(read_buffer).unread_data(),
            final(self).spec_peer() == old(self).spec_peer(),
            final(self).spec_state() == old(self).spec_state(),
            final(self).spec_next_seq() == old(self).spec_next_seq(),
            final(self).waiting() == old(self).waiting(),
            final(self).spec_disk_requests() == old(self).spec_disk_requests(),
            final(self).completed() == old(self).completed(),
            forall|c: BlockCache| old(self).wf(c) ==> final(self).wf(c),
    {
        let unread = read_buffer.get_unread();
        let mut i: usize = 0;
        let ghost start = self.incomplete_message_buffer@;
        while i < unread.len()
            invariant
                i <= unread@.len(),
                self.incomplete_message_buffer@ == start + unread@.take(i as int),
                self.peer_data == old(self).peer_data,
                self.state == old(self).state,
                self.next_sequence_number == old(self).next_sequence_number,
                self.out_of_order == old(self).out_of_order,
                self.disk_requests == old(self).disk_requests,
                self.block_manager == old(self).block_manager,
                self.current_block == old(self).current_block,
                self.stream == old(self).stream,
                self.info_hash == old(self).info_hash,
                self.completed_pieces == old(self).completed_pieces,
            decreases unread@.len() - i,
        {
            self.incomplete_message_buffer.push(unread[i]);
            proof {
                assert(unread@.take(i + 1) =~= unread@.take(i as int).push(unread@[i as int]));
            }
            i = i + 1;
        }
        assert(unread@.take(i as int) =~= unread@);
        let n = read_buffer.unread();
        read_buffer.consume(n);
        assert(read_buffer.unread_data() =~= Seq::<u8>::empty());
    }
}

/// What handling a packet with header `header` and data `unread` did to the established
/// connection `before`, which became `after`, the block cache then being `cache`, with the
/// result `r`. An acknowledgement gives `NoUpdate` and changes nothing; a packet that is
/// neither one nor data breaks the protocol and changes nothing. A data packet is
/// acknowledged; one that comes early waits for those before it; a seeding connection, and
/// one whose torrent is then complete, goes on seeding and succeeds. The torrent, the
/// number of pieces of the peer and the connection's soundness are kept.
pub open spec fn handled_packet<A: Copy>(
    before: EstablishedUtpConnection<A>,
    after: EstablishedUtpConnection<A>,
    header: Header,
    unread: Seq<u8>,
    cache: BlockCache,
    r: Result<UpdateSuccess, UpdateError>,
) -> bool {
    let t = type_of_code(header.type_number());
    &&& r matches Err(e) ==> e is CommunicationError || e is IndexOutOfBounds
    &&& after.spec_info_hash() == before.spec_info_hash()
    &&& after.wf(cache)
    &&& after.spec_peer().num_pieces == before.spec_peer().num_pieces
    &&& t == Type::StState ==> r == Ok::<UpdateSuccess, UpdateError>(UpdateSuccess::NoUpdate)
        && after == before
    &&& t != Type::StState && t != Type::StData ==> (r matches Err(
        UpdateError::CommunicationError(_),
    )) && after == before
    &&& t == Type::StData ==> {
        &&& after.spec_stream().spec_ack_nr() == header.seq_nr
        &&& before.spec_state() == State::Seeding ==> after.spec_state() == State::Seeding
            && r is Ok
        &&& count_true(cache.have_bits()) == cache.hashes().len() ==> after.spec_state()
            == State::Seeding && r is Ok
        &&& header.seq_nr != before.spec_next_seq() ==> after.waiting() == before.waiting().insert(
            header.seq_nr,
            unread,
        )
        &&& (r is Err) == requests_refused(before.spec_state(), after.spec_peer(), cache)
    }
}

/// `e` is a connection just established for the torrent `info_hash` of `num_pieces`
/// pieces: it is in its normal state, the peer is taken not to choke, to be interested and
/// to have no piece, and nothing waits, is kept or is requested.
pub open spec fn newly_established<A: Copy>(
    e: EstablishedUtpConnection<A>,
    info_hash: Sha1Hash,
    num_pieces: usize,
) -> bool {
    &&& e.spec_info_hash() == info_hash
    &&& e.spec_state() == State::ConnectedNormal
    &&& !e.spec_peer().peer_choking
    &&& e.spec_peer().peer_interested
    &&& bits(e.spec_peer().peer_has) == Seq::new(num_pieces as nat, |i: int| false)
    &&& e.spec_peer().num_pieces == num_pieces
    &&& e.waiting() == Map::<u16, Seq<u8>>::empty()
    &&& e.kept_data() == Seq::<u8>::empty()
    &&& e.spec_disk_requests() == Seq::<Request>::empty()
}

/// Whether asking for blocks fails for a connection in state `state` to a peer known as
/// `peer`, with the block cache `cache`: the connection is not seeding, the torrent is not
/// complete, the peer does not choke, and either the peer's pieces are not those of the
/// torrent or the requests of every piece could not be counted.
pub open spec fn requests_refused(state: State, peer: PeerData, cache: BlockCache) -> bool {
    let info = cache.info();
    let per_piece = (info.piece_length / 16384 + 1) as int;
    &&& state != State::Seeding
    &&& count_true(cache.have_bits()) != cache.hashes().len()
    &&& !peer.peer_choking
    &&& !(bits(peer.peer_has).len() == info.total_pieces && info.total_pieces <= (usize::MAX as int)
        / per_piece)
}

/// A prefix of a prefix of `c` is a prefix of `c`.
proof fn lemma_prefix_transitive<T>(a: Seq<T>, b: Seq<T>, c: Seq<T>)
    requires
        a.is_prefix_of(b),
        b.is_prefix_of(c),
    ensures
        a.is_prefix_of(c),
{
    assert(c.subrange(0, a.len() as int) =~= b.subrange(0, a.len() as int));
}

} // verus!
