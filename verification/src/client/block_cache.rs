use vstd::prelude::*;

use std::collections::HashMap;

use crate::client::piece_info::PieceInfo;
use crate::common::bits::{
    bits, bitvec_and, bitvec_clone, bitvec_from_elem, bitvec_get, bitvec_len, bitvec_negate,
    bitvec_none, bitvec_set, bitvec_set_all, count_bits, count_set, count_true,
    lemma_count_set_bounds, lemma_count_set_lt, lemma_count_set_update,
};
use crate::common::hash::{is_valid_piece, sha1_digest, Sha1Hash};
use crate::constants::BLOCK_LENGTH;
use crate::math::spec_num_blocks;
use crate::client::piece_assigner::{block_request, block_requests_ok, lemma_block_in_piece};
use crate::message::{Block, Cancel, Request};
use bit_vec::BitVec;

verus! {

broadcast use vstd::std_specs::hash::group_hash_axioms;

/// A piece whose blocks have all arrived: its index and its bytes.
#[derive(Debug, Clone)]
pub struct CompletedPiece {
    pub index: usize,
    pub piece: Vec<u8>,
}

/// Why a block could not be taken.
#[derive(Debug, Clone, Copy, PartialEq, Eq, Structural)]
pub enum BlockError {
    /// The block is not one of the piece's blocks, or has the wrong length.
    InvalidBlock,
    /// The piece is complete but its hash is not the expected one.
    InvalidPiece,
}

/// A piece being received block by block.
#[derive(Debug)]
pub struct PieceInFlight {
    pub index: usize,
    piece: Vec<u8>,
    pub have: BitVec,
    piece_info: PieceInfo,
    blocks_received: usize,
}

/// The piece sizes of a torrent are usable.
pub open spec fn info_ok(info: PieceInfo) -> bool {
    &&& info.total_pieces > 0
    &&& info.piece_length > 0
    &&& info.piece_length <= u32::MAX
    &&& info.total_pieces <= u32::MAX
}

impl PieceInFlight {
    pub closed spec fn wf(&self) -> bool {
        &&& info_ok(self.piece_info)
        &&& self.index < self.piece_info.total_pieces
        &&& bits(self.have).len() == spec_num_blocks(
            self.piece_info.spec_piece_length(self.index as int),
        )
        &&& self.blocks_received == count_true(bits(self.have))
        &&& self.blocks_received < bits(self.have).len() ==> self.piece@.len()
            == self.piece_info.spec_piece_length(self.index as int)
    }

    /// The bytes received so far, at their place in the piece.
    pub closed spec fn data(&self) -> Seq<u8> {
        self.piece@
    }

    pub closed spec fn info(&self) -> PieceInfo {
        self.piece_info
    }

    pub closed spec fn spec_index(&self) -> usize {
        self.index
    }

    /// Which blocks have arrived.
    pub closed spec fn have_bits(&self) -> Seq<bool> {
        bits(self.have)
    }

    /// A piece with no block received yet.
    pub fn new(index: usize, piece_info: PieceInfo) -> (r: PieceInFlight)
        requires
            info_ok(piece_info),
            index < piece_info.total_pieces,
        ensures
            r.wf(),
            r.spec_index() == index,
            r.info() == piece_info,
            r.have_bits() == Seq::new(
                spec_num_blocks(piece_info.spec_piece_length(index as int)) as nat,
                |i: int| false,
            ),
            r.data() == Seq::new(piece_info.spec_piece_length(index as int) as nat, |i: int| 0u8),
    {
        let length = piece_info.get_piece_length(index);
        let mut piece: Vec<u8> = Vec::new();
        while piece.len() < length
            invariant
                piece@.len() <= length,
                forall|k: int| 0 <= k < piece@.len() ==> piece@[k] == 0u8,
            decreases length - piece@.len(),
        {
            piece.push(0);
        }
        assert(piece@ =~= Seq::new(length as nat, |i: int| 0u8));
        let num_blocks = piece_info.get_num_blocks(index);
        let have = bitvec_from_elem(num_blocks, false);
        proof {
            lemma_no_bits_set(bits(have), bits(have).len() as int);
        }
        PieceInFlight { index, piece, have, piece_info, blocks_received: 0 }
    }

    /// Takes a block of this piece. A block already received is ignored; one that is not
    /// a block of the piece, or of the wrong length, is refused. Gives the whole piece
    /// once its last block arrives.
    pub fn add_block(&mut self, block: &Block) -> (r: Result<Option<CompletedPiece>, BlockError>)
        requires
            old(self).wf(),
            ({
                let bi = block.begin as int / BLOCK_LENGTH as int;
                let info = old(self).info();
                (0 <= bi < old(self).have_bits().len() && !old(self).have_bits()[bi]
                    && block.block@.len() == info.spec_block_length(bi, old(self).spec_index() as int))
                    ==> block.begin + block.block@.len() <= info.spec_piece_length(
                    old(self).spec_index() as int,
                )
            }),
        ensures
            final(self).wf(),
            final(self).spec_index() == old(self).spec_index(),
            final(self).info() == old(self).info(),
            ({
                let bi = block.begin as int / BLOCK_LENGTH as int;
                let info = old(self).info();
                let have = old(self).have_bits();
                if bi >= have.len() || (!have[bi] && block.block@.len() != info.spec_block_length(
                    bi,
                    old(self).spec_index() as int,
                )) {
                    r == Err::<Option<CompletedPiece>, BlockError>(BlockError::InvalidBlock)
                        && final(self).have_bits() == have && final(self).data() == old(self).data()
                } else if have[bi] {
                    r == Ok::<Option<CompletedPiece>, BlockError>(None) && final(self).have_bits()
                        == have && final(self).data() == old(self).data()
                } else {
                    let data = old(self).data().take(block.begin as int) + block.block@ + old(
                        self).data().skip(block.begin + block.block@.len());
                    &&& final(self).have_bits() == have.update(bi, true)
                    &&& match r {
                        Ok(Some(c)) => c.index == old(self).spec_index() && c.piece@ == data && forall|
                            i: int,
                        |
                            0 <= i < have.len() ==> #[trigger] have.update(bi, true)[i],
                        Ok(None) => final(self).data() == data && exists|i: int|
                            0 <= i < have.len() && !#[trigger] have.update(bi, true)[i],
                        Err(_) => false,
                    }
                }
            }),
    {
        let block_index = (block.begin as usize) / BLOCK_LENGTH;
        let n = bitvec_len(&self.have);
        if block_index >= n {
            return Err(BlockError::InvalidBlock);
        }
        if bitvec_get(&self.have, block_index) == Some(true) {
            return Ok(None);
        }
        let block_length = self.piece_info.get_block_length(block_index, self.index);
        if block_length != block.block.len() {
            return Err(BlockError::InvalidBlock);
        }
        proof {
            lemma_count_set_lt(bits(self.have), block_index as int, n as int);
            lemma_count_set_update(bits(self.have), block_index as int, n as int);
        }
        self.blocks_received = self.blocks_received + 1;
        let begin = block.begin as usize;
        let ghost before = self.piece@;
        let piece_len = self.piece.len();
        let mut i: usize = 0;
        while i < block.block.len()
            invariant
                i <= block.block@.len(),
                begin == block.begin,
                begin + block.block@.len() <= before.len(),
                before.len() == piece_len,
                self.have == old(self).have,
                self.index == old(self).index,
                self.piece_info == old(self).piece_info,
                self.blocks_received == old(self).blocks_received + 1,
                self.piece@.len() == before.len(),
                forall|k: int| 0 <= k < begin ==> #[trigger] self.piece@[k] == before[k],
                forall|k: int|
                    begin + block.block@.len() <= k < before.len() ==> #[trigger] self.piece@[k]
                        == before[k],
                forall|k: int| 0 <= k < i ==> self.piece@[begin + k] == #[trigger] block.block@[k],
            decreases block.block@.len() - i,
        {
            self.piece.set(begin + i, block.block[i]);
            i = i + 1;
        }
        assert(self.piece@ =~= before.take(begin as int) + block.block@ + before.skip(
            begin + block.block@.len(),
        ));
        bitvec_set(&mut self.have, block_index, true);
        if self.blocks_received == n {
            proof {
                lemma_all_set(bits(self.have), n as int);
            }
            let mut piece: Vec<u8> = Vec::new();
            std::mem::swap(&mut piece, &mut self.piece);
            Ok(Some(CompletedPiece { index: self.index, piece }))
        } else {
            proof {
                lemma_not_all_set(bits(self.have), n as int);
            }
            Ok(None)
        }
    }
}

proof fn lemma_no_bits_set(b: Seq<bool>, n: int)
    requires
        0 <= n <= b.len(),
        forall|i: int| 0 <= i < b.len() ==> !#[trigger] b[i],
    ensures
        count_set(b, n) == 0,
    decreases n,
{
    if n > 0 {
        lemma_no_bits_set(b, n - 1);
    }
}

/// When every one of the `n` bits counts, all are set.
proof fn lemma_all_set(b: Seq<bool>, n: int)
    requires
        n == b.len(),
        count_set(b, n) == n,
    ensures
        forall|i: int| 0 <= i < n ==> #[trigger] b[i],
{
    assert forall|i: int| 0 <= i < n implies #[trigger] b[i] by {
        if !b[i] {
            lemma_count_set_lt(b, i, n);
        }
    }
}

/// When fewer than `n` bits count, one is clear.
proof fn lemma_not_all_set(b: Seq<bool>, n: int)
    requires
        n == b.len(),
        count_set(b, n) < n,
    ensures
        exists|i: int| 0 <= i < n && !#[trigger] b[i],
    decreases n,
{
    if n > 0 {
        if b[n - 1] {
            lemma_count_set_take(b, n - 1);
            lemma_not_all_set(b.take(n - 1), n - 1);
            let i = choose|i: int| 0 <= i < n - 1 && !#[trigger] b.take(n - 1)[i];
            assert(!b[i]);
        } else {
            assert(!b[n - 1]);
        }
    }
}

/// Counting a prefix does not look past it.
proof fn lemma_count_set_take(b: Seq<bool>, n: int)
    requires
        0 <= n <= b.len(),
    ensures
        count_set(b.take(n), n) == count_set(b, n),
    decreases n,
{
    if n > 0 {
        lemma_count_set_take(b, n - 1);
        lemma_count_set_prefix(b.take(n), b.take(n - 1), n - 1);
    }
}

/// Two sequences that agree on the first `n` bits count the same there.
proof fn lemma_count_set_prefix(a: Seq<bool>, b: Seq<bool>, n: int)
    requires
        0 <= n <= a.len(),
        n <= b.len(),
        forall|i: int| 0 <= i < n ==> a[i] == b[i],
    ensures
        count_set(a, n) == count_set(b, n),
    decreases n,
{
    if n > 0 {
        lemma_count_set_prefix(a, b, n - 1);
    }
}

/// The cancels of the blocks marked in `both` among the first `n`, for piece `piece`:
/// offset `BLOCK_LENGTH` times the block, length `BLOCK_LENGTH`.
pub open spec fn cancel_list(piece: usize, both: Seq<bool>, n: int) -> Seq<Cancel>
    decreases n,
{
    if n <= 0 {
        Seq::empty()
    } else {
        cancel_list(piece, both, n - 1) + if both[n - 1] {
            seq![
                Cancel {
                    index: piece as u32,
                    begin: ((n - 1) * BLOCK_LENGTH) as u32,
                    length: BLOCK_LENGTH as u32,
                },
            ]
        } else {
            Seq::empty()
        }
    }
}

/// The blocks of the pieces of a torrent that have arrived, shared by its connections:
/// pieces in flight, and which pieces are complete (though maybe not written to disk).
pub struct BlockCache {
    info_hash: Sha1Hash,
    piece_info: PieceInfo,
    write_cache: HashMap<usize, PieceInFlight>,
    have_maybe_unwritten_to_disk: BitVec,
    have_count: usize,
    pieces: Vec<Sha1Hash>,
}

impl BlockCache {
    pub closed spec fn wf(&self) -> bool {
        &&& info_ok(self.piece_info)
        &&& bits(self.have_maybe_unwritten_to_disk).len() == self.piece_info.total_pieces
        &&& self.pieces@.len() == self.piece_info.total_pieces
        &&& self.have_count == count_true(bits(self.have_maybe_unwritten_to_disk))
        &&& forall|k: usize| #[trigger]
            self.write_cache@.contains_key(k) ==> {
                &&& k < self.piece_info.total_pieces
                &&& self.write_cache@[k].wf()
                &&& self.write_cache@[k].spec_index() == k
                &&& self.write_cache@[k].info() == self.piece_info
            }
    }

    pub closed spec fn info(&self) -> PieceInfo {
        self.piece_info
    }

    /// Which pieces are complete.
    pub closed spec fn have_bits(&self) -> Seq<bool> {
        bits(self.have_maybe_unwritten_to_disk)
    }

    /// The expected hashes of the pieces.
    pub closed spec fn hashes(&self) -> Seq<Sha1Hash> {
        self.pieces@
    }

    /// Whether blocks of piece `p` have arrived while the piece is not complete.
    pub closed spec fn in_flight(&self, p: usize) -> bool {
        self.write_cache@.contains_key(p)
    }

    /// Which blocks of piece `p` have arrived.
    pub closed spec fn block_have_bits(&self, p: usize) -> Seq<bool> {
        let n = spec_num_blocks(self.piece_info.spec_piece_length(p as int));
        if bits(self.have_maybe_unwritten_to_disk)[p as int] {
            Seq::new(n as nat, |i: int| true)
        } else if self.write_cache@.contains_key(p) {
            self.write_cache@[p].have_bits()
        } else {
            Seq::new(n as nat, |i: int| false)
        }
    }

    /// The bytes of piece `p` gathered while it is in flight, at their place in the piece;
    /// zeros for a piece none of whose blocks arrived.
    pub closed spec fn block_data(&self, p: usize) -> Seq<u8> {
        if self.write_cache@.contains_key(p) {
            self.write_cache@[p].data()
        } else {
            Seq::new(self.piece_info.spec_piece_length(p as int) as nat, |i: int| 0u8)
        }
    }

    /// The blocks of piece `p` that were requested (`sent`) and are still to come: none
    /// once the piece is complete.
    pub open spec fn still_wanted(&self, p: usize, sent: Seq<bool>) -> Seq<bool> {
        if self.have_bits()[p as int] {
            Seq::new(sent.len(), |i: int| false)
        } else {
            Seq::new(sent.len(), |i: int| sent[i] && !self.block_have_bits(p)[i])
        }
    }

    /// The requested blocks of piece `p` that have arrived meanwhile: none once the piece
    /// is complete.
    pub open spec fn arrived(&self, p: usize, sent: Seq<bool>) -> Seq<bool> {
        if self.have_bits()[p as int] {
            Seq::new(sent.len(), |i: int| false)
        } else {
            Seq::new(sent.len(), |i: int| sent[i] && self.block_have_bits(p)[i])
        }
    }

    /// A cache for a torrent whose complete pieces `have` marks, with the expected piece
    /// hashes `pieces`.
    pub fn new(info_hash: Sha1Hash, piece_info: PieceInfo, have: BitVec, pieces: Vec<Sha1Hash>) -> (r:
        BlockCache)
        requires
            info_ok(piece_info),
            bits(have).len() == piece_info.total_pieces,
            pieces@.len() == piece_info.total_pieces,
        ensures
            r.wf(),
            r.info() == piece_info,
            r.have_bits() == bits(have),
            r.hashes() == pieces@,
            forall|p: usize| !#[trigger] r.in_flight(p),
    {
        let have_count = count_bits(&have);
        BlockCache {
            info_hash,
            piece_info,
            write_cache: HashMap::new(),
            have_maybe_unwritten_to_disk: have,
            have_count,
            pieces,
        }
    }

    /// The sizes of the pieces.
    pub fn piece_info(&self) -> (r: PieceInfo)
        ensures
            r == self.info(),
            self.wf() ==> info_ok(r),
    {
        self.piece_info
    }

    /// A well-formed cache has usable piece sizes.
    pub proof fn lemma_info_ok(&self)
        requires
            self.wf(),
        ensures
            info_ok(self.info()),
    {
    }

    /// A block that would fill a missing block of its piece (one of the right length at
    /// the start of a block) ends within the piece.
    pub open spec fn block_fits(&self, block: Block) -> bool {
        let p = block.index as int;
        let info = self.info();
        let bi = block.begin as int / BLOCK_LENGTH as int;
        (0 <= bi < spec_num_blocks(info.spec_piece_length(p)) && !self.block_have_bits(
            block.index as usize,
        )[bi] && block.block@.len() == info.spec_block_length(bi, p)) ==> block.begin
            + block.block@.len() <= info.spec_piece_length(p)
    }

    /// Whether `block` fits its piece, as `block_fits` says.
    pub fn check_block_fits(&self, block: &Block) -> (r: bool)
        requires
            self.wf(),
            block.index < self.info().total_pieces,
        ensures
            r == self.block_fits(*block),
    {
        let info = self.piece_info;
        let index = block.index as usize;
        let block_index = (block.begin as usize) / BLOCK_LENGTH;
        let num_blocks = info.get_num_blocks(index);
        if block_index >= num_blocks {
            return true;
        }
        let have = self.get_block_have(index);
        let block_length = info.get_block_length(block_index, index);
        if bitvec_get(&have, block_index) == Some(true) || block.block.len() != block_length {
            return true;
        }
        block.begin as usize <= info.get_piece_length(index) - block_length
    }

    /// Whether every piece is complete.
    pub fn done(&self) -> (r: bool)
        requires
            self.wf(),
        ensures
            r == (count_true(self.have_bits()) == self.hashes().len()),
    {
        self.have_count == self.pieces.len()
    }

    /// Which pieces are complete.
    pub fn have_maybe_unwritten_to_disk(&self) -> (r: BitVec)
        ensures
            bits(r) == self.have_bits(),
    {
        bitvec_clone(&self.have_maybe_unwritten_to_disk)
    }

    /// Which blocks of piece `index` have arrived.
    pub fn get_block_have(&self, index: usize) -> (r: BitVec)
        requires
            self.wf(),
            index < self.info().total_pieces,
        ensures
            bits(r) == self.block_have_bits(index),
    {
        let num_blocks = self.piece_info.get_num_blocks(index);
        if bitvec_get(&self.have_maybe_unwritten_to_disk, index) == Some(true) {
            return bitvec_from_elem(num_blocks, true);
        }
        match self.write_cache.get(&index) {
            Some(value) => bitvec_clone(&value.have),
            None => bitvec_from_elem(num_blocks, false),
        }
    }

    /// Takes a block. A block of a complete piece is ignored. When the block completes its
    /// piece, the piece is checked against its hash: a good piece is marked complete and
    /// given back to be written to disk; a bad one is refused and its blocks are dropped, so
    /// that the piece can be received again.
    pub fn write_block(&mut self, block: &Block) -> (r: Result<Option<CompletedPiece>, BlockError>)
        requires
            old(self).wf(),
            block.index < old(self).info().total_pieces,
            old(self).block_fits(*block),
        ensures
            final(self).wf(),
            wrote_block(*old(self), *final(self), *block, r),
    {
        let piece_index = block.index as usize;
        if bitvec_get(&self.have_maybe_unwritten_to_disk, piece_index) == Some(true) {
            return Ok(None);
        }
        let piece_info = self.piece_info;
        let ghost before = *self;
        let mut piece = match self.write_cache.remove(&piece_index) {
            Some(p) => p,
            None => PieceInFlight::new(piece_index, piece_info),
        };
        assert(piece.have_bits() == before.block_have_bits(piece_index));
        assert(piece.data() == before.block_data(piece_index));
        let ghost p0 = piece;
        let added = piece.add_block(block);
        let ghost p1 = piece;
        self.write_cache.insert(piece_index, piece);
        proof {
            assert(self.write_cache@ == before.write_cache@.insert(piece_index, p1));
            assert(self.block_have_bits(piece_index) == p1.have_bits());
            assert(self.block_data(piece_index) == p1.data());
            assert forall|q: usize| q != piece_index implies #[trigger] self.block_have_bits(q)
                == before.block_have_bits(q) && self.in_flight(q) == before.in_flight(q)
                && self.block_data(q) == before.block_data(q) by {
                assert(self.write_cache@.contains_key(q) == before.write_cache@.contains_key(q));
                if before.write_cache@.contains_key(q) {
                    assert(self.write_cache@[q] == before.write_cache@[q]);
                }
            }
        }
        match added {
            Ok(Some(completed)) => {
                if is_valid_piece(completed.piece.as_slice(), piece_index, &self.pieces) {
                    proof {
                        lemma_count_set_update(
                            bits(self.have_maybe_unwritten_to_disk),
                            piece_index as int,
                            bits(self.have_maybe_unwritten_to_disk).len() as int,
                        );
                        lemma_count_set_lt(
                            bits(self.have_maybe_unwritten_to_disk),
                            piece_index as int,
                            bits(self.have_maybe_unwritten_to_disk).len() as int,
                        );
                    }
                    let ghost mid = *self;
                    bitvec_set(&mut self.have_maybe_unwritten_to_disk, piece_index, true);
                    self.have_count = self.have_count + 1;
                    self.write_cache.remove(&piece_index);
                    proof {
                        assert forall|q: usize| q != piece_index && q < self.piece_info.total_pieces implies #[trigger] self.block_have_bits(q)
                            == mid.block_have_bits(q) && self.in_flight(q) == mid.in_flight(q)
                            && self.block_data(q) == mid.block_data(q) by {
                            assert(self.write_cache@.contains_key(q) == mid.write_cache@.contains_key(q));
                            if mid.write_cache@.contains_key(q) {
                                assert(self.write_cache@[q] == mid.write_cache@[q]);
                            }
                            assert(self.have_bits()[q as int] == mid.have_bits()[q as int]);
                        }
                    }
                    Ok(Some(completed))
                } else {
                    let ghost mid = *self;
                    self.write_cache.remove(&piece_index);
                    proof {
                        assert forall|q: usize| q != piece_index && q < self.piece_info.total_pieces implies #[trigger] self.block_have_bits(q)
                            == mid.block_have_bits(q) && self.in_flight(q) == mid.in_flight(q)
                            && self.block_data(q) == mid.block_data(q) by {
                            assert(self.write_cache@.contains_key(q) == mid.write_cache@.contains_key(q));
                            if mid.write_cache@.contains_key(q) {
                                assert(self.write_cache@[q] == mid.write_cache@[q]);
                            }
                        }
                        assert(self.block_have_bits(piece_index) =~= Seq::new(
                            before.block_have_bits(piece_index).len(),
                            |i: int| false,
                        ));
                    }
                    Err(BlockError::InvalidPiece)
                }
            },
            _ => Ok(None),
        }
    }
}

/// The requests for the blocks among the first `n` of piece `p` that `have` does not mark,
/// in order.
pub open spec fn block_requests(info: PieceInfo, p: usize, have: Seq<bool>, n: int) -> Seq<Request>
    decreases n,
{
    if n <= 0 {
        Seq::empty()
    } else {
        block_requests(info, p, have, n - 1) + if !have[n - 1] {
            seq![
                Request {
                    index: p as u32,
                    begin: ((n - 1) * BLOCK_LENGTH) as u32,
                    length: info.spec_block_length(n - 1, p as int) as u32,
                },
            ]
        } else {
            Seq::empty()
        }
    }
}

impl BlockCache {
    /// The number of blocks of piece `p`.
    pub open spec fn blocks_of(&self, p: usize) -> int {
        spec_num_blocks(self.info().spec_piece_length(p as int))
    }

    /// The missing blocks of the pieces in flight among the first `n`, piece by piece.
    pub closed spec fn in_flight_requests(&self, n: int) -> Seq<Request>
        decreases n,
    {
        if n <= 0 {
            Seq::empty()
        } else {
            let p = (n - 1) as usize;
            self.in_flight_requests(n - 1) + if self.in_flight(p) {
                block_requests(
                    self.piece_info,
                    p,
                    self.write_cache@[p].have_bits(),
                    self.blocks_of(p),
                )
            } else {
                Seq::empty()
            }
        }
    }

    /// All blocks of the pieces among the first `n` that are neither complete nor in
    /// flight, piece by piece.
    pub closed spec fn untouched_requests(&self, n: int) -> Seq<Request>
        decreases n,
    {
        if n <= 0 {
            Seq::empty()
        } else {
            let p = (n - 1) as usize;
            self.untouched_requests(n - 1) + if !self.have_bits()[p as int] && !self.in_flight(
                p,
            ) {
                block_requests(
                    self.piece_info,
                    p,
                    Seq::new(self.blocks_of(p) as nat, |i: int| false),
                    self.blocks_of(p),
                )
            } else {
                Seq::empty()
            }
        }
    }

    /// Appends the requests for the blocks of piece `p` that `have` does not mark.
    fn push_block_requests(&self, p: usize, have: &BitVec, out: &mut Vec<Request>)
        requires
            self.wf(),
            p < self.info().total_pieces,
            bits(*have).len() == self.blocks_of(p),
        ensures
            final(out)@ == old(out)@ + block_requests(
                self.info(),
                p,
                bits(*have),
                self.blocks_of(p),
            ),
    {
        let n = self.piece_info.get_num_blocks(p);
        let mut b: usize = 0;
        while b < n
            invariant
                self.wf(),
                p < self.info().total_pieces,
                n == self.blocks_of(p),
                bits(*have).len() == n,
                b <= n,
                out@ == old(out)@ + block_requests(self.info(), p, bits(*have), b as int),
            decreases n - b,
        {
            if bitvec_get(have, b) == Some(false) {
                proof {
                    lemma_block_in_piece(self.piece_info, p, b);
                }
                let request = Request::new(b, p, self.piece_info);
                out.push(request);
            }
            b = b + 1;
            assert(out@ =~= old(out)@ + block_requests(self.info(), p, bits(*have), b as int));
        }
    }

    /// The blocks not received yet, to be requested again in the endgame: first the
    /// missing blocks of the pieces in flight, then every block of the pieces neither
    /// complete nor in flight, in piece order.
    pub fn endgame_get_unreceived_blocks(&self) -> (r: Vec<Request>)
        requires
            self.wf(),
        ensures
            r@ == self.in_flight_requests(self.info().total_pieces as int)
                + self.untouched_requests(self.info().total_pieces as int),
    {
        let total = self.piece_info.total_pieces;
        let mut result: Vec<Request> = Vec::new();
        let mut p: usize = 0;
        while p < total
            invariant
                self.wf(),
                total == self.info().total_pieces,
                p <= total,
                result@ == self.in_flight_requests(p as int),
            decreases total - p,
        {
            match self.write_cache.get(&p) {
                Some(piece_in_flight) => {
                    self.push_block_requests(p, &piece_in_flight.have, &mut result);
                },
                None => {},
            }
            p = p + 1;
        }
        let ghost first = result@;
        let mut q: usize = 0;
        while q < total
            invariant
                self.wf(),
                total == self.info().total_pieces,
                q <= total,
                result@ == first + self.untouched_requests(q as int),
            decreases total - q,
        {
            let complete = bitvec_get(&self.have_maybe_unwritten_to_disk, q) == Some(true);
            if !complete && !self.write_cache.contains_key(&q) {
                let n = self.piece_info.get_num_blocks(q);
                let none = bitvec_from_elem(n, false);
                self.push_block_requests(q, &none, &mut result);
            }
            q = q + 1;
            assert(result@ =~= first + self.untouched_requests(q as int));
        }
        result
    }
}

impl BlockCache {
    /// The cancels that reconciling requests `m` for the pieces below `n` gives, piece by
    /// piece.
    pub open spec fn reconcile_cancels(&self, m: Map<usize, BitVec>, n: int) -> Seq<Cancel>
        decreases n,
    {
        if n <= 0 {
            Seq::empty()
        } else {
            let p = (n - 1) as usize;
            self.reconcile_cancels(m, n - 1) + if m.contains_key(p) {
                cancel_list(p, self.arrived(p, bits(m[p])), self.blocks_of(p))
            } else {
                Seq::empty()
            }
        }
    }

    /// The number of requested blocks of the pieces below `n` that are still to come.
    pub open spec fn wanted_count(&self, m: Map<usize, BitVec>, n: int) -> int
        decreases n,
    {
        if n <= 0 {
            0
        } else {
            let p = (n - 1) as usize;
            self.wanted_count(m, n - 1) + if m.contains_key(p) {
                count_true(self.still_wanted(p, bits(m[p])))
            } else {
                0
            }
        }
    }

    /// The number of blocks requested for the pieces below `n`.
    pub open spec fn requested_count(m: Map<usize, BitVec>, n: int) -> int
        decreases n,
    {
        if n <= 0 {
            0
        } else {
            let p = (n - 1) as usize;
            Self::requested_count(m, n - 1) + if m.contains_key(p) {
                bits(m[p]).len() as int
            } else {
                0
            }
        }
    }

    /// Drops from the requested blocks `sent_block_requests` (one bit per block, per
    /// piece) those that arrived meanwhile, and all of a piece that is complete; a piece
    /// with nothing left requested is dropped. Gives the number of requested blocks still
    /// to come and the cancels for the blocks that arrived while requested.
    pub fn reconcile(&self, sent_block_requests: &mut HashMap<usize, BitVec>) -> (r: (
        usize,
        Vec<Cancel>,
    ))
        requires
            self.wf(),
            forall|p: usize| #[trigger]
                old(sent_block_requests)@.contains_key(p) ==> p < self.info().total_pieces && bits(
                    old(sent_block_requests)@[p],
                ).len() == self.blocks_of(p),
            Self::requested_count(old(sent_block_requests)@, self.info().total_pieces as int)
                <= usize::MAX,
        ensures
            forall|p: usize| #[trigger]
                final(sent_block_requests)@.contains_key(p) <==> (old(sent_block_requests)@.contains_key(p) && exists|b: int|
                    0 <= b < bits(old(sent_block_requests)@[p]).len() && #[trigger] self.still_wanted(
                        p,
                        bits(old(sent_block_requests)@[p]),
                    )[b]),
            forall|p: usize| #[trigger]
                final(sent_block_requests)@.contains_key(p) ==> bits(
                    final(sent_block_requests)@[p],
                ) == self.still_wanted(p, bits(old(sent_block_requests)@[p])),
            r.0 == self.wanted_count(old(sent_block_requests)@, self.info().total_pieces as int),
            r.1@ == self.reconcile_cancels(
                old(sent_block_requests)@,
                self.info().total_pieces as int,
            ),
    {
        let total = self.piece_info.total_pieces;
        let ghost m0 = sent_block_requests@;
        let mut to_cancel: Vec<Cancel> = Vec::new();
        let mut p: usize = 0;
        while p < total
            invariant
                self.wf(),
                total == self.info().total_pieces,
                p <= total,
                forall|q: usize| #[trigger]
                    m0.contains_key(q) ==> q < total && bits(m0[q]).len() == self.blocks_of(q),
                forall|q: usize|
                    p <= q ==> (#[trigger] sent_block_requests@.contains_key(q) <==> m0.contains_key(
                        q,
                    )),
                forall|q: usize|
                    p <= q && #[trigger] sent_block_requests@.contains_key(q) ==> sent_block_requests@[q]
                        == m0[q],
                forall|q: usize|
                    q < p ==> (#[trigger] sent_block_requests@.contains_key(q) <==> (m0.contains_key(
                        q,
                    ) && exists|b: int|
                        0 <= b < bits(m0[q]).len() && #[trigger] self.still_wanted(
                            q,
                            bits(m0[q]),
                        )[b])),
                forall|q: usize|
                    q < p && #[trigger] sent_block_requests@.contains_key(q) ==> bits(
                        sent_block_requests@[q],
                    ) == self.still_wanted(q, bits(m0[q])),
                to_cancel@ == self.reconcile_cancels(m0, p as int),
            decreases total - p,
        {
            let ghost before = sent_block_requests@;
            match sent_block_requests.remove(&p) {
                None => {},
                Some(sent_blocks) => {
                    let mut sent_blocks = sent_blocks;
                    let ghost sent0 = bits(sent_blocks);
                    assert(sent0 == bits(m0[p]));
                    self.reconcile_piece(p, &mut sent_blocks, &mut to_cancel);
                    if !bitvec_none(&sent_blocks) {
                        sent_block_requests.insert(p, sent_blocks);
                    }
                },
            }
            p = p + 1;
            assert(to_cancel@ =~= self.reconcile_cancels(m0, p as int));
        }
        let ghost m1 = sent_block_requests@;
        assert forall|k: usize| #[trigger]
            m0.contains_key(k) && !m1.contains_key(k) implies count_true(
            self.still_wanted(k, bits(m0[k])),
        ) == 0 by {
            let w = self.still_wanted(k, bits(m0[k]));
            assert(k < total);
            lemma_no_bits_set(w, w.len() as int);
        }
        let mut result: usize = 0;
        let mut q: usize = 0;
        while q < total
            invariant
                self.wf(),
                total == self.info().total_pieces,
                q <= total,
                sent_block_requests@ == m1,
                forall|k: usize| #[trigger]
                    m0.contains_key(k) ==> k < total && bits(m0[k]).len() == self.blocks_of(k),
                forall|k: usize| #[trigger]
                    m1.contains_key(k) ==> m0.contains_key(k) && bits(m1[k]) == self.still_wanted(
                        k,
                        bits(m0[k]),
                    ),
                forall|k: usize| #[trigger]
                    m0.contains_key(k) && !m1.contains_key(k) ==> count_true(
                        self.still_wanted(k, bits(m0[k])),
                    ) == 0,
                result == self.wanted_count(m0, q as int),
                self.wanted_count(m0, q as int) <= Self::requested_count(m0, q as int),
                Self::requested_count(m0, total as int) <= usize::MAX,
            decreases total - q,
        {
            proof {
                lemma_requested_count_mono(m0, q as int + 1, total as int);
            }
            match sent_block_requests.get(&q) {
                Some(v) => {
                    proof {
                        lemma_count_set_bounds(bits(*v), bits(*v).len() as int);
                    }
                    result = result + count_bits(v);
                },
                None => {},
            }
            q = q + 1;
        }
        (result, to_cancel)
    }

    /// Reconciles the requested blocks of piece `p`, appending the cancels.
    fn reconcile_piece(&self, p: usize, sent_blocks: &mut BitVec, to_cancel: &mut Vec<Cancel>)
        requires
            self.wf(),
            p < self.info().total_pieces,
            bits(*old(sent_blocks)).len() == self.blocks_of(p),
        ensures
            bits(*final(sent_blocks)) == self.still_wanted(p, bits(*old(sent_blocks))),
            final(to_cancel)@ == old(to_cancel)@ + cancel_list(
                p,
                self.arrived(p, bits(*old(sent_blocks))),
                self.blocks_of(p),
            ),
    {
        let ghost sent0 = bits(*sent_blocks);
        let complete = bitvec_get(&self.have_maybe_unwritten_to_disk, p) == Some(true);
        if complete {
            bitvec_set_all(sent_blocks);
            bitvec_negate(sent_blocks);
            assert(bits(*sent_blocks) =~= self.still_wanted(p, sent0));
            proof {
                lemma_cancel_list_none(p, self.arrived(p, sent0), self.blocks_of(p));
            }
            assert(to_cancel@ =~= old(to_cancel)@ + cancel_list(
                p,
                self.arrived(p, sent0),
                self.blocks_of(p),
            ));
        } else {
            let mut have = self.get_block_have(p);
            bitvec_and(&mut have, sent_blocks);
            let n = bitvec_len(&have);
            let mut b: usize = 0;
            while b < n
                invariant
                    self.wf(),
                    p < self.info().total_pieces,
                    !self.have_bits()[p as int],
                    n == self.blocks_of(p),
                    n == sent0.len(),
                    bits(have) == self.arrived(p, sent0),
                    b <= n,
                    bits(*sent_blocks).len() == n,
                    forall|k: int| 0 <= k < b ==> #[trigger] bits(*sent_blocks)[k] == self.still_wanted(p, sent0)[k],
                    forall|k: int| b <= k < n ==> #[trigger] bits(*sent_blocks)[k] == sent0[k],
                    to_cancel@ == old(to_cancel)@ + cancel_list(p, bits(have), b as int),
                decreases n - b,
            {
                if bitvec_get(&have, b) == Some(true) {
                    proof {
                        lemma_block_in_piece(self.piece_info, p, b);
                    }
                    to_cancel.push(
                        Cancel {
                            index: p as u32,
                            begin: (b * BLOCK_LENGTH) as u32,
                            length: BLOCK_LENGTH as u32,
                        },
                    );
                    bitvec_set(sent_blocks, b, false);
                }
                b = b + 1;
                assert(to_cancel@ =~= old(to_cancel)@ + cancel_list(p, bits(have), b as int));
            }
            assert(bits(*sent_blocks) =~= self.still_wanted(p, sent0));
        }
    }
}

/// No arrived block, no cancel.
proof fn lemma_cancel_list_none(p: usize, both: Seq<bool>, n: int)
    requires
        forall|i: int| 0 <= i < both.len() ==> !#[trigger] both[i],
        n <= both.len(),
    ensures
        cancel_list(p, both, n) == Seq::<Cancel>::empty(),
    decreases n,
{
    if n > 0 {
        lemma_cancel_list_none(p, both, n - 1);
        assert(cancel_list(p, both, n) =~= Seq::<Cancel>::empty());
    }
}

proof fn lemma_requested_count_mono(m: Map<usize, BitVec>, a: int, b: int)
    requires
        a <= b,
    ensures
        BlockCache::requested_count(m, a) <= BlockCache::requested_count(m, b),
    decreases b - a,
{
    if a < b {
        lemma_requested_count_mono(m, a, b - 1);
    }
}

/// What writing `block` to the block cache `before` came to: the cache `after` and the
/// outcome `r`. A block of a complete piece changes nothing. A block that is not missing
/// from its piece, or not of the length its place asks, is dropped. Otherwise it joins its
/// piece; a piece it completes is checked against its hash, and either marked complete and
/// given back, or refused and its blocks dropped. Other pieces are left as they were.
pub open spec fn wrote_block(
    before: BlockCache,
    after: BlockCache,
    block: Block,
    r: Result<Option<CompletedPiece>, BlockError>,
) -> bool {
    &&& after.info() == before.info()
    &&& after.hashes() == before.hashes()
    &&& (before.have_bits()[block.index as int] ==> r == Ok::<
            Option<CompletedPiece>,
            BlockError,
        >(None) && after.have_bits() == before.have_bits())
    &&& (match r {
            Ok(Some(c)) => {
                &&& c.index == block.index
                &&& sha1_digest(c.piece@) == before.hashes()[c.index as int]@
                &&& after.have_bits() == before.have_bits().update(
                    c.index as int,
                    true,
                )
                &&& !after.in_flight(c.index)
            },
            Ok(None) => after.have_bits() == before.have_bits(),
            Err(BlockError::InvalidPiece) => after.have_bits() == before.have_bits(),
            Err(BlockError::InvalidBlock) => after.have_bits() == before.have_bits(),
        })
    &&& ({
            let p = block.index as usize;
            let bi = block.begin as int / BLOCK_LENGTH as int;
            let have = before.block_have_bits(p);
            let taken = 0 <= bi < have.len() && !have[bi] && block.block@.len()
                == before.info().spec_block_length(bi, p as int);
            let now = have.update(bi, true);
            let data = before.block_data(p).take(block.begin as int) + block.block@ + before.block_data(p).skip(block.begin + block.block@.len());
            let complete = forall|i: int| 0 <= i < now.len() ==> #[trigger] now[i];
            &&& forall|q: usize|
                q != p && q < before.info().total_pieces ==> #[trigger] after.block_have_bits(q) == before.block_have_bits(q)
                    && after.in_flight(q) == before.in_flight(q)
                    && after.block_data(q) == before.block_data(q)
            &&& if before.have_bits()[p as int] {
                r == Ok::<Option<CompletedPiece>, BlockError>(None) && after == before
            } else if !taken {
                &&& r == Ok::<Option<CompletedPiece>, BlockError>(None)
                &&& after.have_bits() == before.have_bits()
                &&& after.block_have_bits(p) == have
                &&& after.block_data(p) == before.block_data(p)
            } else if !complete {
                &&& r == Ok::<Option<CompletedPiece>, BlockError>(None)
                &&& after.have_bits() == before.have_bits()
                &&& after.block_have_bits(p) == now
                &&& after.block_data(p) == data
            } else if sha1_digest(data) == before.hashes()[p as int]@ {
                &&& r matches Ok(Some(c))
                &&& c.index == p
                &&& c.piece@ == data
                &&& after.have_bits() == before.have_bits().update(p as int, true)
                &&& !after.in_flight(p)
            } else {
                &&& r == Err::<Option<CompletedPiece>, BlockError>(BlockError::InvalidPiece)
                &&& after.have_bits() == before.have_bits()
                &&& !after.in_flight(p)
                &&& after.block_have_bits(p) == Seq::new(have.len(), |i: int| false)
            }
        })
}

/// Every cancel of `cancel_list(piece, both, n)` is for piece `piece`, and names by its
/// byte offset a whole block below `n` that `both` marks.
proof fn lemma_cancel_list_blocks(piece: usize, both: Seq<bool>, n: int)
    requires
        0 <= n,
        piece <= u32::MAX,
        n * BLOCK_LENGTH <= u32::MAX + BLOCK_LENGTH,
    ensures
        forall|i: int|
            0 <= i < cancel_list(piece, both, n).len() ==> {
                let c = #[trigger] cancel_list(piece, both, n)[i];
                &&& c.index == piece
                &&& (c.begin as int) % (BLOCK_LENGTH as int) == 0
                &&& 0 <= (c.begin as int) / (BLOCK_LENGTH as int) < n
                &&& both[(c.begin as int) / (BLOCK_LENGTH as int)]
                &&& c.length == BLOCK_LENGTH
            },
    decreases n,
{
    if n > 0 {
        lemma_cancel_list_blocks(piece, both, n - 1);
        let prev = cancel_list(piece, both, n - 1);
        let all = cancel_list(piece, both, n);
        let b = (n - 1) * (BLOCK_LENGTH as int);
        assert(0 <= b <= u32::MAX);
        assert(b % (BLOCK_LENGTH as int) == 0 && b / (BLOCK_LENGTH as int) == n - 1) by (nonlinear_arith)
            requires
                b == (n - 1) * (BLOCK_LENGTH as int),
                n >= 1,
        ;
        assert forall|i: int| 0 <= i < all.len() implies {
            let c = #[trigger] all[i];
            &&& c.index == piece
            &&& (c.begin as int) % (BLOCK_LENGTH as int) == 0
            &&& 0 <= (c.begin as int) / (BLOCK_LENGTH as int) < n
            &&& both[(c.begin as int) / (BLOCK_LENGTH as int)]
            &&& c.length == BLOCK_LENGTH
        } by {
            if i < prev.len() {
                assert(all[i] == prev[i]);
            }
        }
    }
}

impl BlockCache {
    /// Each cancel that reconciling the requests `m` (one bit per block of each piece
    /// below `n`) gives is for one of those pieces, and names by its byte offset, a multiple
    /// of `BLOCK_LENGTH`, a whole block of the piece that was requested and has arrived
    /// since, the piece not being complete.
    pub proof fn lemma_cancels_name_arrived_blocks(&self, m: Map<usize, BitVec>, n: int)
        requires
            self.wf(),
            0 <= n <= self.info().total_pieces,
            forall|p: usize| #[trigger]
                m.contains_key(p) ==> p < self.info().total_pieces && bits(m[p]).len()
                    == self.blocks_of(p),
        ensures
            forall|i: int|
                0 <= i < self.reconcile_cancels(m, n).len() ==> {
                    let c = #[trigger] self.reconcile_cancels(m, n)[i];
                    let p = c.index as usize;
                    let b = (c.begin as int) / (BLOCK_LENGTH as int);
                    &&& c.index < n
                    &&& m.contains_key(p)
                    &&& (c.begin as int) % (BLOCK_LENGTH as int) == 0
                    &&& 0 <= b < self.blocks_of(p)
                    &&& bits(m[p])[b]
                    &&& self.block_have_bits(p)[b]
                    &&& !self.have_bits()[p as int]
                    &&& c.length == BLOCK_LENGTH
                },
        decreases n,
    {
        if n > 0 {
            self.lemma_cancels_name_arrived_blocks(m, n - 1);
            let p = (n - 1) as usize;
            let prev = self.reconcile_cancels(m, n - 1);
            let all = self.reconcile_cancels(m, n);
            if m.contains_key(p) {
                let both = self.arrived(p, bits(m[p]));
                let k = self.blocks_of(p);
                if k > 0 {
                    lemma_block_in_piece(self.info(), p, (k - 1) as usize);
                }
                lemma_cancel_list_blocks(p, both, k);
                let extra = cancel_list(p, both, k);
                assert forall|i: int| 0 <= i < all.len() implies {
                    let c = #[trigger] all[i];
                    let q = c.index as usize;
                    let b = (c.begin as int) / (BLOCK_LENGTH as int);
                    &&& c.index < n
                    &&& m.contains_key(q)
                    &&& (c.begin as int) % (BLOCK_LENGTH as int) == 0
                    &&& 0 <= b < self.blocks_of(q)
                    &&& bits(m[q])[b]
                    &&& self.block_have_bits(q)[b]
                    &&& !self.have_bits()[q as int]
                    &&& c.length == BLOCK_LENGTH
                } by {
                    if i < prev.len() {
                        assert(all[i] == prev[i]);
                    } else {
                        assert(all[i] == extra[i - prev.len()]);
                        let c = extra[i - prev.len()];
                        let b = (c.begin as int) / (BLOCK_LENGTH as int);
                        assert(both[b]);
                    }
                }
            } else {
                assert(all =~= prev);
            }
        }
    }
}

/// The requests for the blocks of piece `p` below `n` that `have` does not mark each ask
/// for a whole block of the piece.
proof fn lemma_block_requests_ok(info: PieceInfo, p: usize, have: Seq<bool>, n: int)
    requires
        info_ok(info),
        p < info.total_pieces,
        0 <= n <= spec_num_blocks(info.spec_piece_length(p as int)),
    ensures
        block_requests_ok(info, block_requests(info, p, have, n)),
    decreases n,
{
    if n > 0 {
        lemma_block_requests_ok(info, p, have, n - 1);
        lemma_block_in_piece(info, p, (n - 1) as usize);
        let b = (n - 1) * (BLOCK_LENGTH as int);
        assert(b % (BLOCK_LENGTH as int) == 0 && b / (BLOCK_LENGTH as int) == n - 1) by (nonlinear_arith)
            requires
                b == (n - 1) * (BLOCK_LENGTH as int),
                n >= 1,
        ;
        let prev = block_requests(info, p, have, n - 1);
        let all = block_requests(info, p, have, n);
        assert forall|i: int| 0 <= i < all.len() implies block_request(info, #[trigger] all[i]) by {
            if i < prev.len() {
                assert(all[i] == prev[i]);
            }
        }
    }
}

impl BlockCache {
    /// Every request for the blocks still to come in the endgame asks for a whole block of
    /// the torrent.
    pub proof fn lemma_unreceived_requests_ok(&self)
        requires
            self.wf(),
        ensures
            block_requests_ok(
                self.info(),
                self.in_flight_requests(self.info().total_pieces as int)
                    + self.untouched_requests(self.info().total_pieces as int),
            ),
    {
        let t = self.info().total_pieces as int;
        self.lemma_in_flight_requests_ok(t);
        self.lemma_untouched_requests_ok(t);
        let a = self.in_flight_requests(t);
        let b = self.untouched_requests(t);
        assert forall|i: int| 0 <= i < (a + b).len() implies block_request(
            self.info(),
            #[trigger] (a + b)[i],
        ) by {
            if i < a.len() {
                assert((a + b)[i] == a[i]);
            } else {
                assert((a + b)[i] == b[i - a.len()]);
            }
        }
    }

    proof fn lemma_in_flight_requests_ok(&self, n: int)
        requires
            self.wf(),
            n <= self.info().total_pieces,
        ensures
            block_requests_ok(self.info(), self.in_flight_requests(n)),
        decreases n,
    {
        if n > 0 {
            self.lemma_in_flight_requests_ok(n - 1);
            let p = (n - 1) as usize;
            let prev = self.in_flight_requests(n - 1);
            let all = self.in_flight_requests(n);
            if self.in_flight(p) {
                let extra = block_requests(
                    self.piece_info,
                    p,
                    self.write_cache@[p].have_bits(),
                    self.blocks_of(p),
                );
                lemma_block_requests_ok(self.piece_info, p, self.write_cache@[p].have_bits(), self.blocks_of(p));
                assert forall|i: int| 0 <= i < all.len() implies block_request(
                    self.info(),
                    #[trigger] all[i],
                ) by {
                    if i < prev.len() {
                        assert(all[i] == prev[i]);
                    } else {
                        assert(all[i] == extra[i - prev.len()]);
                    }
                }
            } else {
                assert(all =~= prev);
            }
        }
    }

    proof fn lemma_untouched_requests_ok(&self, n: int)
        requires
            self.wf(),
            n <= self.info().total_pieces,
        ensures
            block_requests_ok(self.info(), self.untouched_requests(n)),
        decreases n,
    {
        if n > 0 {
            self.lemma_untouched_requests_ok(n - 1);
            let p = (n - 1) as usize;
            let prev = self.untouched_requests(n - 1);
            let all = self.untouched_requests(n);
            if !self.have_bits()[p as int] && !self.in_flight(p) {
                let none = Seq::new(self.blocks_of(p) as nat, |i: int| false);
                let extra = block_requests(self.piece_info, p, none, self.blocks_of(p));
                lemma_block_requests_ok(self.piece_info, p, none, self.blocks_of(p));
                assert forall|i: int| 0 <= i < all.len() implies block_request(
                    self.info(),
                    #[trigger] all[i],
                ) by {
                    if i < prev.len() {
                        assert(all[i] == prev[i]);
                    } else {
                        assert(all[i] == extra[i - prev.len()]);
                    }
                }
            } else {
                assert(all =~= prev);
            }
        }
    }
}

} // verus!
