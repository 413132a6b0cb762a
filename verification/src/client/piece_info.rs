use vstd::prelude::*;

use crate::constants::BLOCK_LENGTH;
use crate::math::{spec_last_block_length, spec_num_blocks};

verus! {

/// Sizes of the pieces of a torrent.
#[derive(Debug, Copy, Clone)]
pub struct PieceInfo {
    pub total_length: usize,
    pub piece_length: usize,
    pub total_pieces: usize,
}

impl PieceInfo {
    /// Length of piece `piece_index`: the last piece holds what is left over, every other
    /// piece is `piece_length` long.
    pub open spec fn spec_piece_length(self, piece_index: int) -> int {
        if piece_index == self.total_pieces - 1 {
            if self.total_length % self.piece_length == 0 {
                self.piece_length as int
            } else {
                (self.total_length % self.piece_length) as int
            }
        } else {
            self.piece_length as int
        }
    }

    /// Length of block `block_index` of piece `piece_index`: every block is `BLOCK_LENGTH`
    /// long but the last one of the piece, which holds what is left over.
    pub open spec fn spec_block_length(self, block_index: int, piece_index: int) -> int {
        let piece_length = self.spec_piece_length(piece_index);
        if block_index == spec_num_blocks(piece_length) - 1 {
            spec_last_block_length(piece_length)
        } else {
            BLOCK_LENGTH as int
        }
    }

    pub fn get_piece_length(&self, piece_index: usize) -> (r: usize)
        requires
            self.total_pieces > 0,
            piece_index == self.total_pieces - 1 ==> self.piece_length > 0,
        ensures
            r == self.spec_piece_length(piece_index as int),
    {
        if piece_index == self.total_pieces - 1 {
            let leftover = self.total_length % self.piece_length;
            if leftover == 0 {
                self.piece_length
            } else {
                leftover
            }
        } else {
            self.piece_length
        }
    }

    pub fn get_num_blocks(&self, piece_index: usize) -> (r: usize)
        requires
            self.total_pieces > 0,
            piece_index == self.total_pieces - 1 ==> self.piece_length > 0,
        ensures
            r == spec_num_blocks(self.spec_piece_length(piece_index as int)),
    {
        let piece_length = self.get_piece_length(piece_index);
        if piece_length % BLOCK_LENGTH == 0 {
            piece_length / BLOCK_LENGTH
        } else {
            (piece_length / BLOCK_LENGTH) + 1
        }
    }

    pub fn get_block_length(&self, block_index: usize, piece_index: usize) -> (r: usize)
        requires
            self.total_pieces > 0,
            piece_index == self.total_pieces - 1 ==> self.piece_length > 0,
            self.spec_piece_length(piece_index as int) > 0,
        ensures
            r == self.spec_block_length(block_index as int, piece_index as int),
    {
        let num_blocks = self.get_num_blocks(piece_index);
        let piece_length = self.get_piece_length(piece_index);
        if block_index == num_blocks - 1 {
            if piece_length % BLOCK_LENGTH == 0 {
                BLOCK_LENGTH
            } else {
                piece_length % BLOCK_LENGTH
            }
        } else {
            BLOCK_LENGTH
        }
    }

    pub fn is_last_block(&self, block_index: usize, piece_index: usize) -> (r: bool)
        requires
            self.total_pieces > 0,
            piece_index == self.total_pieces - 1 ==> self.piece_length > 0,
            self.spec_piece_length(piece_index as int) > 0,
        ensures
            r == (block_index == spec_num_blocks(self.spec_piece_length(piece_index as int)) - 1),
    {
        let num_blocks = self.get_num_blocks(piece_index);
        block_index == num_blocks - 1
    }
}

/// The blocks of a piece add up to the piece: all but the last are `BLOCK_LENGTH` long, and
/// the last one holds the rest.
pub proof fn lemma_blocks_cover_piece(piece_length: int)
    requires
        piece_length > 0,
    ensures
        spec_num_blocks(piece_length) >= 1,
        0 < spec_last_block_length(piece_length) <= BLOCK_LENGTH,
        (spec_num_blocks(piece_length) - 1) * (BLOCK_LENGTH as int) + spec_last_block_length(
            piece_length,
        ) == piece_length,
{
    let b = BLOCK_LENGTH as int;
    let q = piece_length / b;
    let r = piece_length % b;
    assert(piece_length == q * b + r && 0 <= r < b) by (nonlinear_arith)
        requires
            b > 0,
            q == piece_length / b,
            r == piece_length % b,
    ;
    if r == 0 {
        assert(q >= 1) by (nonlinear_arith)
            requires
                piece_length == q * b,
                piece_length > 0,
                b > 0,
        ;
        assert((q - 1) * b + b == q * b) by (nonlinear_arith);
    }
}

/// The pieces of a torrent add up to its total length, when the number of pieces is the
/// number needed to hold `total_length` bytes.
pub proof fn lemma_pieces_cover_total(info: PieceInfo)
    requires
        info.piece_length > 0,
        info.total_length > 0,
        info.total_pieces == (if info.total_length % info.piece_length == 0 {
            (info.total_length / info.piece_length) as int
        } else {
            info.total_length / info.piece_length + 1
        }),
    ensures
        info.total_pieces >= 1,
        0 < info.spec_piece_length(info.total_pieces - 1) <= info.piece_length,
        (info.total_pieces - 1) * info.piece_length + info.spec_piece_length(
            info.total_pieces - 1,
        ) == info.total_length,
{
    let t = info.total_length as int;
    let p = info.piece_length as int;
    let q = t / p;
    let r = t % p;
    assert(t == q * p + r && 0 <= r < p) by (nonlinear_arith)
        requires
            p > 0,
            q == t / p,
            r == t % p,
    ;
    if r == 0 {
        assert(q >= 1) by (nonlinear_arith)
            requires
                t == q * p,
                t > 0,
                p > 0,
        ;
        assert((q - 1) * p + p == q * p) by (nonlinear_arith);
    }
}

/// Every piece has some bytes, and none has more than `piece_length`.
pub proof fn lemma_piece_length_bounds(info: PieceInfo, piece: int)
    requires
        info.piece_length > 0,
    ensures
        0 < info.spec_piece_length(piece) <= info.piece_length,
{
    let t = info.total_length as int;
    let p = info.piece_length as int;
    assert(0 <= t % p < p) by (nonlinear_arith)
        requires
            p > 0,
    ;
}

/// The bytes held by the first `n` pieces.
pub open spec fn pieces_total(info: PieceInfo, n: int) -> int
    decreases n,
{
    if n <= 0 {
        0
    } else {
        pieces_total(info, n - 1) + info.spec_piece_length(n - 1)
    }
}

/// Before the last piece, the first `n` pieces hold `n` times `piece_length` bytes.
proof fn lemma_full_pieces_total(info: PieceInfo, n: int)
    requires
        0 <= n < info.total_pieces,
    ensures
        pieces_total(info, n) == n * info.piece_length,
    decreases n,
{
    if n > 0 {
        lemma_full_pieces_total(info, n - 1);
        assert(info.spec_piece_length(n - 1) == info.piece_length);
        assert(pieces_total(info, n) == pieces_total(info, n - 1) + info.spec_piece_length(n - 1));
        assert((n - 1) * info.piece_length + info.piece_length == n * info.piece_length)
            by (nonlinear_arith);
    } else {
        assert(0 * info.piece_length == 0) by (nonlinear_arith);
    }
}

/// The lengths of all the pieces add up to the total length, when the number of pieces is
/// the number needed to hold `total_length` bytes: every piece but the last is
/// `piece_length` long, and the last holds between one byte and `piece_length`.
pub proof fn lemma_piece_lengths_sum(info: PieceInfo)
    requires
        info.piece_length > 0,
        info.total_length > 0,
        info.total_pieces == (info.total_length + info.piece_length - 1) / (info.piece_length as int),
    ensures
        pieces_total(info, info.total_pieces as int) == info.total_length,
        forall|i: int|
            0 <= i < info.total_pieces - 1 ==> #[trigger] info.spec_piece_length(i)
                == info.piece_length,
        0 < info.spec_piece_length(info.total_pieces - 1) <= info.piece_length,
{
    let t = info.total_length as int;
    let p = info.piece_length as int;
    assert(info.total_pieces == (if t % p == 0 {
        t / p
    } else {
        t / p + 1
    })) by (nonlinear_arith)
        requires
            p > 0,
            t > 0,
            info.total_pieces == (t + p - 1) / p,
    {
        let q = t / p;
        let r = t % p;
        assert(t == q * p + r && 0 <= r < p);
        assert(t + p - 1 == q * p + (r + p - 1));
        if r == 0 {
            assert((t + p - 1) / p == q);
        } else {
            assert(p <= r + p - 1 < 2 * p);
            assert((t + p - 1) / p == q + 1);
        }
    }
    lemma_pieces_cover_total(info);
    lemma_full_pieces_total(info, info.total_pieces - 1);
}

} // verus!
