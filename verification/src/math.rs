use vstd::prelude::*;

use crate::constants::BLOCK_LENGTH;

verus! {

/// Number of blocks a piece of `piece_length` bytes is split into.
pub open spec fn spec_num_blocks(piece_length: int) -> int {
    if piece_length % (BLOCK_LENGTH as int) == 0 {
        piece_length / (BLOCK_LENGTH as int)
    } else {
        piece_length / (BLOCK_LENGTH as int) + 1
    }
}

/// Length of the last block of a piece of `piece_length` bytes.
pub open spec fn spec_last_block_length(piece_length: int) -> int {
    if piece_length % (BLOCK_LENGTH as int) == 0 {
        BLOCK_LENGTH as int
    } else {
        piece_length % (BLOCK_LENGTH as int)
    }
}

/// Given a piece length, computes `(num_blocks, last_block_length)`, assuming the usual
/// fixed block length.
pub fn get_block_info(piece_length: usize) -> (res: (usize, usize))
    ensures
        res.0 == spec_num_blocks(piece_length as int),
        res.1 == spec_last_block_length(piece_length as int),
{
    if piece_length % BLOCK_LENGTH == 0 {
        (piece_length / BLOCK_LENGTH, BLOCK_LENGTH)
    } else {
        (piece_length / BLOCK_LENGTH + 1, piece_length % BLOCK_LENGTH)
    }
}

} // verus!
