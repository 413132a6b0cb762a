use vstd::prelude::*;

use std::collections::HashMap;

use crate::client::block_cache::{wrote_block, BlockCache, BlockError, CompletedPiece};
use crate::client::connection::{protocol_error, UpdateError};
use crate::client::piece_assigner::{
    block_request, block_requests_ok, endgame_outcome, normal_outcome, AssignedBlockResult,
    PieceAssigner,
};
use crate::client::piece_info::{lemma_blocks_cover_piece, lemma_piece_length_bounds};
use crate::common::bits::{bits, bitvec_from_elem, bitvec_set};

use crate::constants::BLOCK_LENGTH;
use crate::math::spec_num_blocks;
use crate::message::{Block, Cancel, ProtocolMessage, Request};
use bit_vec::BitVec;

verus! {

broadcast use vstd::std_specs::hash::group_hash_axioms;

/// The most block requests a peer is sent before any of them is answered.
pub const MAX_OPEN_REQUESTS_PER_PEER: usize = 10;

/// The encodings of `cancels`, one after the other.
pub open spec fn cancels_bytes(cancels: Seq<Cancel>) -> Seq<u8>
    decreases cancels.len(),
{
    if cancels.len() == 0 {
        Seq::empty()
    } else {
        cancels_bytes(cancels.drop_last()) + cancels.last().spec_bytes()
    }
}

/// The encodings of `requests`, one after the other.
pub open spec fn requests_bytes(requests: Seq<Request>) -> Seq<u8>
    decreases requests.len(),
{
    if requests.len() == 0 {
        Seq::empty()
    } else {
        requests_bytes(requests.drop_last()) + requests.last().spec_bytes()
    }
}

/// Requests and receipts of blocks on one connection.
pub struct BlockManager {
    pub blocks_in_flight: usize,
    endgame_sent_blocks: HashMap<usize, BitVec>,
}

impl BlockManager {
    /// The endgame requests sent are kept per piece of `cache`, one bit per block.
    pub closed spec fn wf(&self, cache: BlockCache) -> bool {
        forall|p: usize| #[trigger]
            self.endgame_sent_blocks@.contains_key(p) ==> p < cache.info().total_pieces && bits(
                self.endgame_sent_blocks@[p],
            ).len() == cache.blocks_of(p)
    }

    /// The number of requests sent and not answered.
    pub closed spec fn in_flight(&self) -> usize {
        self.blocks_in_flight
    }

    /// Whether endgame requests were sent and not all answered.
    pub closed spec fn in_endgame(&self) -> bool {
        self.endgame_sent_blocks@.len() > 0
    }

    /// The endgame requests sent, per piece.
    pub closed spec fn sent(&self) -> Map<usize, BitVec> {
        self.endgame_sent_blocks@
    }

    /// Well-formedness depends only on the pieces of the cache.
    pub proof fn lemma_wf_same_info(&self, c1: BlockCache, c2: BlockCache)
        requires
            self.wf(c1),
            c1.info() == c2.info(),
        ensures
            self.wf(c2),
    {
    }

    /// The number of requests sent and not answered.
    pub fn in_flight_count(&self) -> (r: usize)
        ensures
            r == self.in_flight(),
    {
        self.blocks_in_flight
    }

    /// Nothing requested yet.
    pub fn new() -> (r: BlockManager)
        ensures
            r.in_flight() == 0,
            r.sent() == Map::<usize, BitVec>::empty(),
            forall|c: BlockCache| r.wf(c),
    {
        BlockManager { blocks_in_flight: 0, endgame_sent_blocks: HashMap::new() }
    }

    /// Takes a block that arrived: one request less is in flight (outside the endgame), the
    /// block goes to `block_cache`, and a piece that fails its hash check is queued in
    /// `piece_assigner` again. Gives the completed piece, to be written to disk.
    pub fn add_block(
        &mut self,
        block: &Block,
        piece_assigner: &mut PieceAssigner,
        block_cache: &mut BlockCache,
    ) -> (r: Option<CompletedPiece>)
        requires
            old(self).wf(*old(block_cache)),
            old(block_cache).wf(),
            old(piece_assigner).wf(),
            old(piece_assigner).info() == old(block_cache).info(),
            block.index < old(block_cache).info().total_pieces,
            !old(piece_assigner).in_endgame() ==> old(self).in_flight() > 0,
            old(block_cache).block_fits(*block),
        ensures
            final(self).wf(*final(block_cache)),
            final(block_cache).wf(),
            final(piece_assigner).wf(),
            final(block_cache).info() == old(block_cache).info(),
            final(piece_assigner).info() == old(piece_assigner).info(),
            final(self).in_flight() == if old(piece_assigner).in_endgame() {
                old(self).in_flight() as int
            } else {
                old(self).in_flight() - 1
            },
            final(self).sent() == old(self).sent(),
            r matches Some(c) ==> c.index == block.index && final(block_cache).have_bits()
                == old(block_cache).have_bits().update(c.index as int, true),
            exists|w: Result<Option<CompletedPiece>, BlockError>|
                #[trigger] wrote_block(*old(block_cache), *final(block_cache), *block, w)
                    && r == kept_piece(w) && final(piece_assigner).queue() == if w is Err {
                    old(piece_assigner).queue().push(block.index as usize)
                } else {
                    old(piece_assigner).queue()
                },
    {
        if !piece_assigner.is_endgame() {
            self.blocks_in_flight = self.blocks_in_flight - 1;
        }
        let piece_index = block.index as usize;
        let ghost cache_before = *block_cache;
        let written = block_cache.write_block(block);
        let ghost w = written;
        let r = match written {
            Ok(completed) => completed,
            Err(_) => {
                piece_assigner.add_piece(piece_index);
                None
            },
        };
        assert(wrote_block(cache_before, *block_cache, *block, w));
        r
    }

    /// Whether a block read from the peer is taken: it names a piece of the torrent, comes
    /// while a request is in flight or in the endgame, and fits its piece.
    pub open spec fn takes_block(
        &self,
        block: Block,
        piece_assigner: PieceAssigner,
        block_cache: BlockCache,
    ) -> bool {
        &&& block.index < block_cache.info().total_pieces
        &&& piece_assigner.in_endgame() || self.in_flight() > 0
        &&& block_cache.block_fits(block)
    }

    /// Takes a block read from the peer. One that names no piece of the torrent, that comes
    /// while no request is in flight outside the endgame, or that would fill a missing
    /// block of its piece but runs past the piece's end breaks the protocol and changes
    /// nothing; any other goes to `add_block`.
    pub fn receive_block(
        &mut self,
        block: &Block,
        piece_assigner: &mut PieceAssigner,
        block_cache: &mut BlockCache,
    ) -> (r: Result<Option<CompletedPiece>, UpdateError>)
        requires
            old(self).wf(*old(block_cache)),
            old(block_cache).wf(),
            old(piece_assigner).wf(),
            old(piece_assigner).info() == old(block_cache).info(),
        ensures
            final(self).wf(*final(block_cache)),
            final(block_cache).wf(),
            final(piece_assigner).wf(),
            final(block_cache).info() == old(block_cache).info(),
            final(piece_assigner).info() == old(piece_assigner).info(),
            final(self).sent() == old(self).sent(),
            block.index >= old(block_cache).info().total_pieces ==> (r matches Err(
                UpdateError::IndexOutOfBounds,
            ) && *final(self) == *old(self) && *final(block_cache) == *old(block_cache)
                && *final(piece_assigner) == *old(piece_assigner)),
            block.index < old(block_cache).info().total_pieces && ((!old(
                piece_assigner,
            ).in_endgame() && old(self).in_flight() == 0) || !old(block_cache).block_fits(
                *block,
            )) ==> (r matches Err(UpdateError::CommunicationError(_)) && *final(self) == *old(
                self,
            ) && *final(block_cache) == *old(block_cache) && *final(piece_assigner) == *old(
                piece_assigner,
            )),
            r is Ok <==> old(self).takes_block(*block, *old(piece_assigner), *old(block_cache)),
            r is Ok ==> {
                &&& block.index < old(block_cache).info().total_pieces
                &&& final(self).in_flight() == if old(piece_assigner).in_endgame() {
                    old(self).in_flight() as int
                } else {
                    old(self).in_flight() - 1
                }
            },
            r matches Ok(Some(c)) ==> c.index == block.index && final(block_cache).have_bits()
                == old(block_cache).have_bits().update(c.index as int, true),
            r is Ok ==> exists|w: Result<Option<CompletedPiece>, BlockError>|
                #[trigger] wrote_block(*old(block_cache), *final(block_cache), *block, w)
                    && r == Ok::<Option<CompletedPiece>, UpdateError>(kept_piece(w)),
    {
        let info = block_cache.piece_info();
        if block.index as usize >= info.total_pieces {
            return Err(UpdateError::IndexOutOfBounds);
        }
        if !piece_assigner.is_endgame() && self.blocks_in_flight == 0 {
            return Err(UpdateError::CommunicationError(protocol_error()));
        }
        if !block_cache.check_block_fits(block) {
            return Err(UpdateError::CommunicationError(protocol_error()));
        }
        Ok(self.add_block(block, piece_assigner, block_cache))
    }

    /// Appends to `out` the requests for as many blocks as `piece_assigner` hands out for
    /// connection `id`, up to `MAX_OPEN_REQUESTS_PER_PEER` in flight. In the endgame the
    /// requests sent are first reconciled with `block_cache`: those answered meanwhile are
    /// cancelled and no longer counted. Gives the number of requests appended.
    pub fn send_block_requests(
        &mut self,
        out: &mut Vec<u8>,
        peer_has: &BitVec,
        id: usize,
        piece_assigner: &mut PieceAssigner,
        block_cache: &BlockCache,
    ) -> (r: usize)
        requires
            old(self).wf(*block_cache),
            block_cache.wf(),
            old(piece_assigner).wf(),
            old(piece_assigner).info() == block_cache.info(),
            bits(*peer_has).len() == block_cache.info().total_pieces,
            block_cache.info().total_pieces * (block_cache.info().piece_length / 16384 + 1)
                <= usize::MAX,
        ensures
            final(self).wf(*block_cache),
            final(piece_assigner).wf(),
            final(piece_assigner).info() == old(piece_assigner).info(),
            ({
                let start = if old(self).in_endgame() {
                    block_cache.wanted_count(old(self).sent(), block_cache.info().total_pieces as int)
                } else {
                    old(self).in_flight() as int
                };
                let cancels = if old(self).in_endgame() {
                    block_cache.reconcile_cancels(
                        old(self).sent(),
                        block_cache.info().total_pieces as int,
                    )
                } else {
                    Seq::empty()
                };
                &&& final(self).in_flight() == start + r
                &&& start < MAX_OPEN_REQUESTS_PER_PEER ==> final(self).in_flight()
                    <= MAX_OPEN_REQUESTS_PER_PEER
                &&& start >= MAX_OPEN_REQUESTS_PER_PEER ==> r == 0
                &&& exists|requests: Seq<Request>|
                    requests.len() == r && final(out)@ == old(out)@ + cancels_bytes(cancels)
                        + requests_bytes(requests) && (block_requests_ok(
                        old(piece_assigner).info(),
                        old(piece_assigner).unreceived(),
                    ) ==> block_requests_ok(block_cache.info(), requests))
            }),
            block_requests_ok(old(piece_assigner).info(), old(piece_assigner).unreceived())
                ==> block_requests_ok(final(piece_assigner).info(), final(piece_assigner).unreceived()),
    {
        let mut sent: usize = 0;
        let total = block_cache.piece_info().total_pieces;
        if self.endgame_sent_blocks.len() > 0 {
            proof {
                lemma_requested_count_bound(*block_cache, self.endgame_sent_blocks@, total as int);
            }
            let (blocks_in_flight, cancels) = block_cache.reconcile(&mut self.endgame_sent_blocks);
            self.blocks_in_flight = blocks_in_flight;
            write_cancels(out, &cancels);
        } else {
            assert(cancels_bytes(Seq::<Cancel>::empty()) == Seq::<u8>::empty());
        }
        let ghost after_cancels = out@;
        let ghost start = self.blocks_in_flight;
        let ghost mut requests: Seq<Request> = Seq::empty();
        assert(after_cancels =~= after_cancels + requests_bytes(requests));
        while self.blocks_in_flight < MAX_OPEN_REQUESTS_PER_PEER
            invariant
                self.wf(*block_cache),
                block_cache.wf(),
                piece_assigner.wf(),
                piece_assigner.info() == block_cache.info(),
                piece_assigner.info() == old(piece_assigner).info(),
                total == block_cache.info().total_pieces,
                bits(*peer_has).len() == total,
                self.blocks_in_flight == start + sent,
                start < MAX_OPEN_REQUESTS_PER_PEER ==> self.blocks_in_flight
                    <= MAX_OPEN_REQUESTS_PER_PEER,
                start >= MAX_OPEN_REQUESTS_PER_PEER ==> sent == 0,
                requests.len() == sent,
                out@ == after_cancels + requests_bytes(requests),
                block_requests_ok(old(piece_assigner).info(), old(piece_assigner).unreceived())
                    ==> block_requests_ok(piece_assigner.info(), piece_assigner.unreceived())
                    && block_requests_ok(block_cache.info(), requests),
            decreases MAX_OPEN_REQUESTS_PER_PEER - self.blocks_in_flight,
        {
            let unreceived = || -> (v: Vec<Request>)
                requires
                    block_cache.wf(),
                ensures
                    block_requests_ok(block_cache.info(), v@),
                {
                    proof {
                        block_cache.lemma_unreceived_requests_ok();
                    }
                    block_cache.endgame_get_unreceived_blocks()
                };
            let ghost pa0 = *piece_assigner;
            let assigned = piece_assigner.get_block(peer_has, id, unreceived);
            proof {
                if block_requests_ok(pa0.info(), pa0.unreceived()) {
                    if pa0.unreceived().len() == 0 && pa0.queue().len() == 0 && pa0.current().0 is None
                        && !(assigned is NoBlocksToAssign && piece_assigner.unreceived().len() == 0) {
                        let v = choose|v: Vec<Request>|
                            unreceived.ensures((), v) && v@.len() > 0 && endgame_outcome(
                                pa0,
                                *piece_assigner,
                                v@,
                                id,
                                assigned,
                            );
                        assert(block_requests_ok(pa0.info(), v@));
                        assert(endgame_outcome(pa0, *piece_assigner, v@, id, assigned));
                    }
                    lemma_handout_ok(pa0, *piece_assigner, bits(*peer_has), id, assigned);
                }
            }
            let request = match assigned {
                AssignedBlockResult::NoBlocksToAssign => {
                    break;
                },
                AssignedBlockResult::AssignedBlock { request } => request,
                AssignedBlockResult::EndgameAssignedBlock { request } => {
                    self.note_endgame_request(&request, block_cache);
                    request
                },
            };
            request.write(out);
            proof {
                let pushed = requests.push(request);
                assert(pushed.drop_last() =~= requests);
                if block_requests_ok(old(piece_assigner).info(), old(piece_assigner).unreceived()) {
                    assert forall|i: int| 0 <= i < pushed.len() implies block_request(
                        block_cache.info(),
                        #[trigger] pushed[i],
                    ) by {
                        if i < requests.len() {
                            assert(pushed[i] == requests[i]);
                        }
                    }
                }
                requests = pushed;
            }
            self.blocks_in_flight = self.blocks_in_flight + 1;
            sent = sent + 1;
        }
        sent
    }

    /// Marks the block of an endgame request as sent.
    fn note_endgame_request(&mut self, request: &Request, block_cache: &BlockCache)
        requires
            old(self).wf(*block_cache),
            block_cache.wf(),
        ensures
            final(self).wf(*block_cache),
            final(self).in_flight() == old(self).in_flight(),
            ({
                let p = request.index as usize;
                let b = request.spec_block_index();
                let n = block_cache.blocks_of(p);
                let before = if old(self).sent().contains_key(p) {
                    bits(old(self).sent()[p])
                } else {
                    Seq::new(n as nat, |i: int| false)
                };
                if p >= block_cache.info().total_pieces {
                    final(self).sent() == old(self).sent()
                } else {
                    &&& final(self).sent().dom() == old(self).sent().dom().insert(p)
                    &&& forall|q: usize|
                        q != p && #[trigger] old(self).sent().contains_key(q)
                            ==> final(self).sent()[q] == old(self).sent()[q]
                    &&& bits(final(self).sent()[p]) == if b < n {
                        before.update(b as int, true)
                    } else {
                        before
                    }
                }
            }),
    {
        let piece = request.piece_index();
        let block = request.block_index();
        let info = block_cache.piece_info();
        if piece >= info.total_pieces {
            return;
        }
        let num_blocks = info.get_num_blocks(piece);
        let mut bits_sent = match self.endgame_sent_blocks.remove(&piece) {
            Some(b) => b,
            None => bitvec_from_elem(num_blocks, false),
        };
        if block < num_blocks {
            bitvec_set(&mut bits_sent, block, true);
        }
        self.endgame_sent_blocks.insert(piece, bits_sent);
    }
}

/// Appends the encodings of `cancels`.
fn write_cancels(out: &mut Vec<u8>, cancels: &Vec<Cancel>)
    ensures
        final(out)@ == old(out)@ + cancels_bytes(cancels@),
{
    let mut i: usize = 0;
    while i < cancels.len()
        invariant
            i <= cancels@.len(),
            out@ == old(out)@ + cancels_bytes(cancels@.take(i as int)),
        decreases cancels@.len() - i,
    {
        cancels[i].write(out);
        proof {
            assert(cancels@.take(i + 1).drop_last() =~= cancels@.take(i as int));
        }
        i = i + 1;
        assert(out@ =~= old(out)@ + cancels_bytes(cancels@.take(i as int)));
    }
    assert(cancels@.take(i as int) =~= cancels@);
}

/// The requested blocks of the pieces below `n` add up to at most `n` times the most
/// blocks a piece has.
proof fn lemma_requested_count_bound(cache: BlockCache, m: Map<usize, BitVec>, n: int)
    requires
        0 <= n <= cache.info().total_pieces,
        cache.wf(),
        forall|p: usize| #[trigger]
            m.contains_key(p) ==> p < cache.info().total_pieces && bits(m[p]).len()
                == cache.blocks_of(p),
    ensures
        BlockCache::requested_count(m, n) <= n * (cache.info().piece_length / 16384 + 1),
    decreases n,
{
    cache.lemma_info_ok();
    if n > 0 {
        lemma_requested_count_bound(cache, m, n - 1);
        let p = (n - 1) as usize;
        let b = cache.info().piece_length / 16384 + 1;
        if m.contains_key(p) {
            crate::client::piece_info::lemma_piece_length_bounds(cache.info(), p as int);
            let len = cache.info().spec_piece_length(p as int);
            assert(spec_num_blocks(len) <= b) by (nonlinear_arith)
                requires
                    0 < len <= cache.info().piece_length,
                    b == cache.info().piece_length / 16384 + 1,
                    spec_num_blocks(len) == (if len % 16384 == 0 {
                        len / 16384
                    } else {
                        len / 16384 + 1
                    }),
            ;
        }
        assert((n - 1) * b + b == n * b) by (nonlinear_arith);
    }
}

/// The piece that writing a block gave back, if any: a refused piece gives none.
pub open spec fn kept_piece(w: Result<Option<CompletedPiece>, BlockError>) -> Option<CompletedPiece> {
    match w {
        Ok(c) => c,
        Err(_) => None,
    }
}

/// The pieces, none or one, that `p` adds to those to be written to disk.
pub open spec fn piece_seq(p: Option<CompletedPiece>) -> Seq<CompletedPiece> {
    match p {
        Some(c) => seq![c],
        None => Seq::empty(),
    }
}

/// Taking the block `b` left the block cache `cache_after` as writing it to `cache_before`
/// does, and added the piece that this gave back, if any, to the pieces to be written:
/// `completed_before` became `completed_after`.
pub open spec fn took_block(
    b: Block,
    cache_before: BlockCache,
    cache_after: BlockCache,
    completed_before: Seq<CompletedPiece>,
    completed_after: Seq<CompletedPiece>,
) -> bool {
    exists|w: Result<Option<CompletedPiece>, BlockError>|
        #[trigger] wrote_block(cache_before, cache_after, b, w) && completed_after
            == completed_before + piece_seq(kept_piece(w))
}

/// A block the piece assigner hands out, in order or again in the endgame, is a whole
/// block of the torrent, when the blocks it keeps for the endgame are.
proof fn lemma_handout_ok(
    old: PieceAssigner,
    new: PieceAssigner,
    peer: Seq<bool>,
    conn: usize,
    r: AssignedBlockResult,
)
    requires
        old.wf(),
        block_requests_ok(old.info(), old.unreceived()),
        old.unreceived().len() > 0 ==> endgame_outcome(old, new, old.unreceived(), conn, r),
        old.unreceived().len() == 0 && old.queue().len() == 0 && old.current().0 is None ==> (
        r is NoBlocksToAssign && new.unreceived().len() == 0) || exists|v: Seq<Request>|
            block_requests_ok(old.info(), v) && #[trigger] endgame_outcome(old, new, v, conn, r),
        !(old.unreceived().len() == 0 && old.queue().len() == 0 && old.current().0 is None)
            && old.unreceived().len() == 0 ==> normal_outcome(old, new, peer, r),
    ensures
        block_requests_ok(old.info(), new.unreceived()),
        r matches AssignedBlockResult::AssignedBlock { request } ==> block_request(
            old.info(),
            request,
        ),
        r matches AssignedBlockResult::EndgameAssignedBlock { request } ==> block_request(
            old.info(),
            request,
        ),
{
    let info = old.info();
    old.lemma_wf();
    if old.unreceived().len() > 0 {
        lemma_endgame_handout_ok(old, new, old.unreceived(), conn, r);
    } else if old.queue().len() == 0 && old.current().0 is None {
        if !(r is NoBlocksToAssign && new.unreceived().len() == 0) {
            let v = choose|v: Seq<Request>|
                block_requests_ok(old.info(), v) && #[trigger] endgame_outcome(old, new, v, conn, r);
            lemma_endgame_handout_ok(old, new, v, conn, r);
        }
    } else {
        if let AssignedBlockResult::AssignedBlock { request } = r {
            let p = request.index as usize;
            let blk = old.current().1;
            lemma_piece_length_bounds(info, p as int);
            let n = spec_num_blocks(info.spec_piece_length(p as int));
            assert(blk < n) by {
                if old.current().0 is None {
                    lemma_blocks_cover_piece(info.spec_piece_length(p as int));
                }
            }
            let b = blk * (BLOCK_LENGTH as int);
            assert(b % (BLOCK_LENGTH as int) == 0 && b / (BLOCK_LENGTH as int) == blk) by (nonlinear_arith)
                requires
                    b == blk * (BLOCK_LENGTH as int),
                    blk >= 0,
            ;
        }
    }
}

/// What the endgame hands out is one of the requests of its list, and what stays are the
/// others.
proof fn lemma_endgame_handout_ok(
    old: PieceAssigner,
    new: PieceAssigner,
    list: Seq<Request>,
    conn: usize,
    r: AssignedBlockResult,
)
    requires
        block_requests_ok(old.info(), list),
        endgame_outcome(old, new, list, conn, r),
    ensures
        block_requests_ok(old.info(), new.unreceived()),
        r matches AssignedBlockResult::EndgameAssignedBlock { request } ==> block_request(
            old.info(),
            request,
        ),
        !(r is AssignedBlock),
{
    if let AssignedBlockResult::EndgameAssignedBlock { request } = r {
        let pos = choose|pos: int|
            {
                &&& 0 <= pos < list.len()
                &&& list[pos] == request
                &&& !old.was_assigned(conn, crate::client::piece_assigner::req_piece(request), crate::client::piece_assigner::req_block(request))
                &&& forall|k: int|
                    0 <= k < pos ==> old.was_assigned(
                        conn,
                        crate::client::piece_assigner::req_piece(#[trigger] list[k]),
                        crate::client::piece_assigner::req_block(list[k]),
                    )
                &&& new.unreceived() == list.remove(pos)
                &&& forall|c: usize, p: usize, b: usize|
                    #[trigger] new.was_assigned(c, p, b) == (old.was_assigned(c, p, b) || (c
                        == conn && p == crate::client::piece_assigner::req_piece(request) && b == crate::client::piece_assigner::req_block(request)))
            };
        assert(block_request(old.info(), list[pos]));
        let rest = list.remove(pos);
        assert forall|i: int| 0 <= i < rest.len() implies block_request(
            old.info(),
            #[trigger] rest[i],
        ) by {
            if i < pos {
                assert(rest[i] == list[i]);
            } else {
                assert(rest[i] == list[i + 1]);
            }
        }
    }
}

} // verus!
