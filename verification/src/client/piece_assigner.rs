use vstd::prelude::*;

use std::collections::{HashMap, HashSet, VecDeque};

use crate::client::piece_info::{lemma_blocks_cover_piece, PieceInfo};
use crate::common::bits::{bits, bitvec_all, bitvec_and, bitvec_clone, bitvec_from_elem, bitvec_get, bitvec_len, bitvec_set};
use crate::constants::BLOCK_LENGTH;
use crate::math::spec_num_blocks;
use crate::message::Request;
use bit_vec::BitVec;
use rand::seq::SliceRandom;

verus! {

broadcast use vstd::std_specs::hash::group_hash_axioms;

#[verifier::external_type_specification]
#[verifier::external_body]
pub struct ExInstant(std::time::Instant);

/// The current time (`Instant::now`).
#[verifier::external_body]
pub(crate) fn now() -> std::time::Instant {
    std::time::Instant::now()
}

/// The whole milliseconds that have passed since `since` (`Instant::elapsed`, then
/// `Duration::as_millis`); this depends on the clock, so nothing is stated of it.
#[verifier::external_body]
fn elapsed_millis(since: &std::time::Instant) -> u128 {
    since.elapsed().as_millis()
}

/// How long, in milliseconds, the list of blocks not received yet is kept before it is
/// fetched again in the endgame.
pub const UNRECEIVED_REFRESH_MILLIS: u128 = 1000;

/// Puts the pieces in random order (`SliceRandom::shuffle` with `thread_rng`): the same
/// pieces, each as often as before.
#[verifier::external_body]
fn shuffle_pieces(pieces: &mut Vec<usize>)
    ensures
        final(pieces)@.to_multiset() == old(pieces)@.to_multiset(),
        final(pieces)@.len() == old(pieces)@.len(),
{
    pieces.shuffle(&mut rand::thread_rng());
}

/// What a request for a block came to.
pub enum AssignedBlockResult {
    AssignedBlock { request: Request },
    EndgameAssignedBlock { request: Request },
    NoBlocksToAssign,
}

/// Hands out the blocks of a torrent to connections: piece after piece, block after
/// block, and once every piece has been handed out (endgame), the blocks not received
/// yet again, each at most once per connection.
pub struct PieceAssigner {
    pub piece_info: PieceInfo,
    pieces: VecDeque<usize>,
    left: BitVec,
    endgame: bool,
    current_piece: Option<usize>,
    current_block: usize,
    assigned: HashMap<usize, HashMap<usize, HashSet<usize>>>,
    endgame_unreceived_blocks: Vec<Request>,
    prev_unreceived_call: std::time::Instant,
}

/// `r` asks for a whole block of a torrent of pieces `info`: one of its pieces, from the
/// byte offset of one of the piece's blocks, as many bytes as that block holds.
pub open spec fn block_request(info: PieceInfo, r: Request) -> bool {
    let b = (r.begin as int) / (BLOCK_LENGTH as int);
    &&& r.index < info.total_pieces
    &&& (r.begin as int) % (BLOCK_LENGTH as int) == 0
    &&& 0 <= b < spec_num_blocks(info.spec_piece_length(r.index as int))
    &&& r.length == info.spec_block_length(b, r.index as int)
}

/// Every request of `list` asks for a whole block of a torrent of pieces `info`.
pub open spec fn block_requests_ok(info: PieceInfo, list: Seq<Request>) -> bool {
    forall|i: int| 0 <= i < list.len() ==> block_request(info, #[trigger] list[i])
}

/// Whether block `block` of piece `piece` was handed to connection `conn` in the endgame.
pub open spec fn assigned_has(
    m: Map<usize, HashMap<usize, HashSet<usize>>>,
    conn: usize,
    piece: usize,
    block: usize,
) -> bool {
    m.contains_key(conn) && m[conn]@.contains_key(piece) && m[conn]@[piece]@.contains(block)
}

impl PieceAssigner {
    /// The piece sizes are usable: pieces and blocks can be numbered and requested.
    pub open spec fn info_ok(info: PieceInfo) -> bool {
        &&& info.total_pieces > 0
        &&& info.piece_length > 0
        &&& info.piece_length <= u32::MAX
        &&& info.total_pieces <= u32::MAX
    }

    pub closed spec fn wf(&self) -> bool {
        &&& Self::info_ok(self.piece_info)
        &&& bits(self.left).len() == self.piece_info.total_pieces
        &&& forall|i: int| 0 <= i < self.pieces@.len() ==> #[trigger] self.pieces@[i]
            < self.piece_info.total_pieces
        &&& match self.current_piece {
            Some(p) => p < self.piece_info.total_pieces && self.current_block < spec_num_blocks(
                self.piece_info.spec_piece_length(p as int),
            ),
            None => self.current_block == 0,
        }
    }

    pub closed spec fn info(&self) -> PieceInfo {
        self.piece_info
    }

    /// What a well-formed assigner keeps: one bit per piece not started, queued pieces and
    /// the current piece among the torrent's pieces, and the current block within its piece.
    pub proof fn lemma_wf(&self)
        requires
            self.wf(),
        ensures
            self.left_bits().len() == self.info().total_pieces,
            forall|i: int| 0 <= i < self.queue().len() ==> #[trigger] self.queue()[i]
                < self.info().total_pieces,
            self.current().0 matches Some(p) ==> p < self.info().total_pieces && self.current().1
                < spec_num_blocks(self.info().spec_piece_length(p as int)),
            self.current().0 is None ==> self.current().1 == 0,
            Self::info_ok(self.info()),
    {
    }

    /// The pieces not handed out yet, in the order they will be.
    pub closed spec fn queue(&self) -> Seq<usize> {
        self.pieces@
    }

    /// Which pieces have not been started.
    pub closed spec fn left_bits(&self) -> Seq<bool> {
        bits(self.left)
    }

    /// The piece whose blocks are being handed out, and the next block of it.
    pub closed spec fn current(&self) -> (Option<usize>, usize) {
        (self.current_piece, self.current_block)
    }

    /// The blocks that are to be handed out again in the endgame.
    pub closed spec fn unreceived(&self) -> Seq<Request> {
        self.endgame_unreceived_blocks@
    }

    /// Whether block `block` of piece `piece` went to connection `conn` in the endgame.
    pub closed spec fn was_assigned(&self, conn: usize, piece: usize, block: usize) -> bool {
        assigned_has(self.assigned@, conn, piece, block)
    }

    pub closed spec fn in_endgame(&self) -> bool {
        self.endgame
    }

    /// An assigner for the pieces that `have` marks as missing, in random order.
    pub fn new(piece_info: PieceInfo, have: &BitVec) -> (r: PieceAssigner)
        requires
            Self::info_ok(piece_info),
            bits(*have).len() == piece_info.total_pieces,
        ensures
            r.wf(),
            r.info() == piece_info,
            r.queue().to_multiset() == Seq::new(
                piece_info.total_pieces as nat,
                |i: int| i as usize,
            ).filter(|i: usize| !bits(*have)[i as int]).to_multiset(),
            r.left_bits() == Seq::new(piece_info.total_pieces as nat, |i: int| true),
            r.current() == (None::<usize>, 0usize),
            r.unreceived() == Seq::<Request>::empty(),
            !r.in_endgame(),
            forall|c: usize, p: usize, b: usize| !#[trigger] r.was_assigned(c, p, b),
    {
        let mut pieces: Vec<usize> = Vec::new();
        let n = bitvec_len(have);
        let ghost all = Seq::new(piece_info.total_pieces as nat, |i: int| i as usize);
        let ghost missing = |i: usize| !bits(*have)[i as int];
        let mut i: usize = 0;
        while i < n
            invariant
                n == bits(*have).len(),
                i <= n,
                all == Seq::new(n as nat, |k: int| k as usize),
                missing == (|k: usize| !bits(*have)[k as int]),
                pieces@ == all.take(i as int).filter(missing),
                forall|k: int| 0 <= k < pieces@.len() ==> #[trigger] pieces@[k] < n,
            decreases n - i,
        {
            let ghost before = pieces@;
            assert(all.take(i + 1) =~= all.take(i as int).push(i));
            proof {
                all.take(i as int).lemma_filter_push(i, missing);
            }
            let value = bitvec_get(have, i);
            assert(missing(i) == !bits(*have)[i as int]);
            if value == Some(false) {
                pieces.push(i);
            }
            assert(pieces@ == all.take(i + 1).filter(missing));
            i = i + 1;
        }
        assert(all.take(n as int) =~= all);
        let ghost unshuffled = pieces@;
        shuffle_pieces(&mut pieces);
        assert forall|k: int| 0 <= k < pieces@.len() implies #[trigger] pieces@[k] < n by {
            broadcast use vstd::seq_lib::group_to_multiset_ensures;
            assert(pieces@.contains(pieces@[k]));
            assert(unshuffled.to_multiset().count(pieces@[k]) > 0);
            assert(unshuffled.contains(pieces@[k]));
        }
        let mut queue: VecDeque<usize> = VecDeque::new();
        let mut j: usize = 0;
        while j < pieces.len()
            invariant
                j <= pieces@.len(),
                queue@ == pieces@.take(j as int),
                forall|k: int| 0 <= k < pieces@.len() ==> #[trigger] pieces@[k] < n,
            decreases pieces@.len() - j,
        {
            queue.push_back(pieces[j]);
            j = j + 1;
            assert(queue@ =~= pieces@.take(j as int));
        }
        assert(pieces@.take(j as int) =~= pieces@);
        let r = PieceAssigner {
            piece_info,
            pieces: queue,
            left: bitvec_from_elem(piece_info.total_pieces, true),
            endgame: false,
            current_piece: None,
            current_block: 0,
            assigned: HashMap::new(),
            endgame_unreceived_blocks: Vec::new(),
            prev_unreceived_call: now(),
        };
        assert forall|k: int| 0 <= k < r.pieces@.len() implies #[trigger] r.pieces@[k]
            < piece_info.total_pieces by {
            assert(r.pieces@[k] == pieces@[k]);
        }
        r
    }

    /// Queues piece `piece_index` to be handed out again.
    pub fn add_piece(&mut self, piece_index: usize)
        requires
            old(self).wf(),
            piece_index < old(self).info().total_pieces,
        ensures
            final(self).wf(),
            final(self).queue() == old(self).queue().push(piece_index),
            final(self).info() == old(self).info(),
            final(self).left_bits() == old(self).left_bits(),
            final(self).current() == old(self).current(),
            final(self).unreceived() == old(self).unreceived(),
            final(self).in_endgame() == old(self).in_endgame(),
            forall|c: usize, p: usize, b: usize|
                #[trigger] final(self).was_assigned(c, p, b) == old(self).was_assigned(c, p, b),
    {
        self.pieces.push_back(piece_index);
    }

    /// Forgets which endgame blocks went to which connection.
    pub fn clear(&mut self)
        requires
            old(self).wf(),
        ensures
            final(self).wf(),
            final(self).queue() == old(self).queue(),
            final(self).info() == old(self).info(),
            final(self).left_bits() == old(self).left_bits(),
            final(self).current() == old(self).current(),
            final(self).unreceived() == old(self).unreceived(),
            final(self).in_endgame() == old(self).in_endgame(),
            forall|c: usize, p: usize, b: usize| !#[trigger] final(self).was_assigned(c, p, b),
    {
        self.assigned.clear();
    }

    /// Whether the endgame has started.
    pub fn is_endgame(&self) -> (r: bool)
        ensures
            r == self.in_endgame(),
    {
        self.endgame
    }

    /// Records that block `block` of piece `piece` went to connection `conn`.
    fn record_assigned(&mut self, conn: usize, piece: usize, block: usize)
        ensures
            forall|c: usize, p: usize, b: usize|
                #[trigger] assigned_has(final(self).assigned@, c, p, b) == (assigned_has(
                    old(self).assigned@,
                    c,
                    p,
                    b,
                ) || (c == conn && p == piece && b == block)),
            final(self).piece_info == old(self).piece_info,
            final(self).pieces == old(self).pieces,
            final(self).left == old(self).left,
            final(self).endgame == old(self).endgame,
            final(self).current_piece == old(self).current_piece,
            final(self).current_block == old(self).current_block,
            final(self).endgame_unreceived_blocks == old(self).endgame_unreceived_blocks,
    {
        let ghost before = self.assigned@;
        let mut per_conn: HashMap<usize, HashSet<usize>> = match self.assigned.remove(&conn) {
            Some(m) => m,
            None => HashMap::new(),
        };
        let ghost per_conn_before = per_conn@;
        let mut blocks: HashSet<usize> = match per_conn.remove(&piece) {
            Some(s) => s,
            None => HashSet::new(),
        };
        blocks.insert(block);
        per_conn.insert(piece, blocks);
        self.assigned.insert(conn, per_conn);
        assert forall|c: usize, p: usize, b: usize|
            #[trigger] assigned_has(self.assigned@, c, p, b) == (assigned_has(before, c, p, b) || (c
                == conn && p == piece && b == block)) by {
            if c == conn {
                if p == piece {
                } else {
                }
            }
        }
    }

    /// Whether block `block` of piece `piece` went to connection `conn`.
    fn is_assigned(&self, conn: usize, piece: usize, block: usize) -> (r: bool)
        ensures
            r == assigned_has(self.assigned@, conn, piece, block),
    {
        match self.assigned.get(&conn) {
            None => false,
            Some(per_conn) => match per_conn.get(&piece) {
                None => false,
                Some(blocks) => blocks.contains(&block),
            },
        }
    }
}

/// The piece a request is for.
pub open spec fn req_piece(r: Request) -> usize {
    r.spec_piece_index() as usize
}

/// The block of its piece a request is for.
pub open spec fn req_block(r: Request) -> usize {
    r.spec_block_index() as usize
}

/// The endgame hands connection `conn` the first request of `list` it was not given yet,
/// taking it out of the list, or nothing when it was given all of them; the rest of the
/// state stays.
pub open spec fn endgame_outcome(
    old: PieceAssigner,
    new: PieceAssigner,
    list: Seq<Request>,
    conn: usize,
    r: AssignedBlockResult,
) -> bool {
    &&& new.in_endgame()
    &&& new.info() == old.info()
    &&& new.queue() == old.queue()
    &&& new.left_bits() == old.left_bits()
    &&& new.current() == old.current()
    &&& match r {
        AssignedBlockResult::EndgameAssignedBlock { request } => exists|pos: int|
            {
                &&& 0 <= pos < list.len()
                &&& list[pos] == request
                &&& !old.was_assigned(conn, req_piece(request), req_block(request))
                &&& forall|k: int|
                    0 <= k < pos ==> old.was_assigned(
                        conn,
                        req_piece(#[trigger] list[k]),
                        req_block(list[k]),
                    )
                &&& new.unreceived() == list.remove(pos)
                &&& forall|c: usize, p: usize, b: usize|
                    #[trigger] new.was_assigned(c, p, b) == (old.was_assigned(c, p, b) || (c
                        == conn && p == req_piece(request) && b == req_block(request)))
            },
        AssignedBlockResult::NoBlocksToAssign => {
            &&& forall|k: int|
                0 <= k < list.len() ==> old.was_assigned(
                    conn,
                    req_piece(#[trigger] list[k]),
                    req_block(list[k]),
                )
            &&& new.unreceived() == list
            &&& forall|c: usize, p: usize, b: usize|
                #[trigger] new.was_assigned(c, p, b) == old.was_assigned(c, p, b)
        },
        AssignedBlockResult::AssignedBlock { .. } => false,
    }
}

/// Outside the endgame, a block of the current piece is handed out, or of a new piece:
/// the next queued one when the peer has every piece, else the first piece that the peer
/// has and that was not started, which then leaves the queue. Nothing is handed out when
/// there is no such piece.
pub open spec fn normal_outcome(
    old: PieceAssigner,
    new: PieceAssigner,
    peer: Seq<bool>,
    r: AssignedBlockResult,
) -> bool {
    let (cur, blk) = old.current();
    let left = old.left_bits();
    let peer_has_all = forall|i: int| 0 <= i < peer.len() ==> #[trigger] peer[i];
    let none_common = forall|i: int| 0 <= i < peer.len() ==> !(#[trigger] peer[i] && left[i]);
    &&& new.info() == old.info()
    &&& new.unreceived() == old.unreceived()
    &&& new.in_endgame() == old.in_endgame()
    &&& forall|c: usize, p: usize, b: usize|
        #[trigger] new.was_assigned(c, p, b) == old.was_assigned(c, p, b)
    &&& if cur is None && !peer_has_all && none_common {
        &&& r is NoBlocksToAssign
        &&& new.queue() == old.queue()
        &&& new.left_bits() == old.left_bits()
        &&& new.current() == old.current()
    } else {
        &&& r matches AssignedBlockResult::AssignedBlock { request }
        &&& {
            let p = request.index as usize;
            let info = old.info();
            &&& p < info.total_pieces
            &&& match cur {
                Some(c) => p == c && new.queue() == old.queue(),
                None => if peer_has_all {
                    p == old.queue()[0] && new.queue() == old.queue().drop_first()
                } else {
                    &&& p < peer.len()
                    &&& peer[p as int] && left[p as int]
                    &&& forall|i: int| 0 <= i < p ==> !(#[trigger] peer[i] && left[i])
                    &&& new.queue() == old.queue().filter(|x: usize| x != p)
                },
            }
            &&& request.begin == blk * BLOCK_LENGTH
            &&& request.length == info.spec_block_length(blk as int, p as int)
            &&& new.left_bits() == left.update(p as int, false)
            &&& new.current() == if blk == spec_num_blocks(info.spec_piece_length(p as int)) - 1 {
                (None::<usize>, 0usize)
            } else {
                (Some(p), (blk + 1) as usize)
            }
        }
    }
}

impl PieceAssigner {
    /// Hands connection `conn` the first unreceived block it was not given yet.
    fn assign_endgame_block(&mut self, conn: usize) -> (r: AssignedBlockResult)
        requires
            old(self).wf(),
        ensures
            final(self).wf(),
            endgame_outcome(*old(self), *final(self), old(self).unreceived(), conn, r),
    {
        self.endgame = true;
        let mut pos: usize = 0;
        while pos < self.endgame_unreceived_blocks.len()
            invariant
                pos <= self.endgame_unreceived_blocks@.len(),
                self.endgame_unreceived_blocks == old(self).endgame_unreceived_blocks,
                self.assigned == old(self).assigned,
                self.piece_info == old(self).piece_info,
                self.pieces == old(self).pieces,
                self.left == old(self).left,
                self.current_piece == old(self).current_piece,
                self.current_block == old(self).current_block,
                self.endgame,
                old(self).wf(),
                forall|k: int|
                    0 <= k < pos ==> assigned_has(
                        self.assigned@,
                        conn,
                        req_piece(#[trigger] self.endgame_unreceived_blocks@[k]),
                        req_block(self.endgame_unreceived_blocks@[k]),
                    ),
            decreases self.endgame_unreceived_blocks@.len() - pos,
        {
            let request = self.endgame_unreceived_blocks[pos];
            let piece = request.piece_index();
            let block = request.block_index();
            if !self.is_assigned(conn, piece, block) {
                self.record_assigned(conn, piece, block);
                let removed = self.endgame_unreceived_blocks.remove(pos);
                assert(old(self).endgame_unreceived_blocks@[pos as int] == removed);
                return AssignedBlockResult::EndgameAssignedBlock { request: removed };
            }
            pos = pos + 1;
        }
        AssignedBlockResult::NoBlocksToAssign
    }

    /// The first piece that both bit vectors mark, if any.
    fn first_common_piece(peer_has: &BitVec, left: &BitVec) -> (r: Option<usize>)
        requires
            bits(*peer_has).len() == bits(*left).len(),
        ensures
            match r {
                Some(i) => i < bits(*peer_has).len() && bits(*peer_has)[i as int] && bits(
                    *left,
                )[i as int] && forall|k: int|
                    0 <= k < i ==> !(#[trigger] bits(*peer_has)[k] && bits(*left)[k]),
                None => forall|k: int|
                    0 <= k < bits(*peer_has).len() ==> !(#[trigger] bits(*peer_has)[k] && bits(
                        *left,
                    )[k]),
            },
    {
        let mut intersection = bitvec_clone(peer_has);
        bitvec_and(&mut intersection, left);
        let n = bitvec_len(&intersection);
        let mut i: usize = 0;
        while i < n
            invariant
                n == bits(intersection).len(),
                n == bits(*peer_has).len(),
                i <= n,
                bits(intersection) == Seq::new(
                    bits(*peer_has).len(),
                    |k: int| bits(*peer_has)[k] && bits(*left)[k],
                ),
                forall|k: int| 0 <= k < i ==> !(#[trigger] bits(*peer_has)[k] && bits(*left)[k]),
            decreases n - i,
        {
            if bitvec_get(&intersection, i) == Some(true) {
                return Some(i);
            }
            i = i + 1;
        }
        None
    }

    /// The queue without `piece`.
    fn without_piece(queue: &VecDeque<usize>, piece: usize) -> (r: VecDeque<usize>)
        ensures
            r@ == queue@.filter(|x: usize| x != piece),
            forall|k: int| 0 <= k < r@.len() ==> queue@.contains(#[trigger] r@[k]),
    {
        let mut result: VecDeque<usize> = VecDeque::new();
        let mut i: usize = 0;
        while i < queue.len()
            invariant
                i <= queue@.len(),
                result@ == queue@.take(i as int).filter(|x: usize| x != piece),
                forall|k: int| 0 <= k < result@.len() ==> queue@.contains(#[trigger] result@[k]),
            decreases queue@.len() - i,
        {
            let x = queue[i];
            proof {
                assert(queue@.take(i + 1) =~= queue@.take(i as int).push(x));
                queue@.take(i as int).lemma_filter_push(x, |x: usize| x != piece);
            }
            if x != piece {
                result.push_back(x);
                assert(queue@[i as int] == x);
            }
            i = i + 1;
        }
        assert(queue@.take(i as int) =~= queue@);
        result
    }

    /// Hands out the next block of `piece`, starting at `current_block`.
    fn assign_block_of(&mut self, piece: usize) -> (request: Request)
        requires
            old(self).wf(),
            piece < old(self).piece_info.total_pieces,
            old(self).current_piece is None ==> old(self).current_block == 0,
            old(self).current_piece matches Some(p) ==> p == piece,
        ensures
            final(self).wf(),
            final(self).piece_info == old(self).piece_info,
            final(self).pieces == old(self).pieces,
            final(self).endgame == old(self).endgame,
            final(self).assigned == old(self).assigned,
            final(self).endgame_unreceived_blocks == old(self).endgame_unreceived_blocks,
            bits(final(self).left) == bits(old(self).left).update(piece as int, false),
            request.index == piece,
            request.begin == old(self).current_block * BLOCK_LENGTH,
            request.length == old(self).piece_info.spec_block_length(
                old(self).current_block as int,
                piece as int,
            ),
            req_piece(request) == piece,
            req_block(request) == old(self).current_block,
            (final(self).current_piece, final(self).current_block) == if old(self).current_block
                == spec_num_blocks(old(self).piece_info.spec_piece_length(piece as int)) - 1 {
                (None::<usize>, 0usize)
            } else {
                (Some(piece), (old(self).current_block + 1) as usize)
            },
    {
        let info = self.piece_info;
        let current_block = self.current_block;
        proof {
            lemma_block_in_piece(info, piece, current_block);
        }
        self.current_piece = Some(piece);
        bitvec_set(&mut self.left, piece, false);
        if info.is_last_block(current_block, piece) {
            self.current_piece = None;
            self.current_block = 0;
        } else {
            self.current_block = current_block + 1;
        }
        Request::new(current_block, piece, info)
    }

    /// Hands connection `connection_id`, whose peer has the pieces `peer_has` marks, a
    /// block to request. In the endgame (once every piece was handed out) the blocks
    /// `unreceived` names are handed out again, each at most once per connection; that list
    /// is fetched at most once a second.
    pub fn get_block<F: Fn() -> Vec<Request>>(
        &mut self,
        peer_has: &BitVec,
        connection_id: usize,
        unreceived: F,
    ) -> (r: AssignedBlockResult)
        requires
            old(self).wf(),
            bits(*peer_has).len() == old(self).info().total_pieces,
            unreceived.requires(()),
        ensures
            final(self).wf(),
            final(self).info() == old(self).info(),
            old(self).unreceived().len() > 0 ==> endgame_outcome(
                *old(self),
                *final(self),
                old(self).unreceived(),
                connection_id,
                r,
            ),
            old(self).unreceived().len() == 0 && old(self).queue().len() == 0 && old(
                self).current().0 is None ==> (r is NoBlocksToAssign && final(self).queue() == old(
                self).queue() && final(self).left_bits() == old(self).left_bits() && final(
                self).current() == old(self).current() && final(self).unreceived().len() == 0
                && forall|c: usize, p: usize, b: usize|
                #[trigger] final(self).was_assigned(c, p, b) == old(self).was_assigned(c, p, b))
                || (exists|v: Vec<Request>|
                unreceived.ensures((), v) && v@.len() > 0 && endgame_outcome(
                    *old(self),
                    *final(self),
                    v@,
                    connection_id,
                    r,
                )),
            !(old(self).unreceived().len() == 0 && old(self).queue().len() == 0 && old(
                self).current().0 is None) && old(self).unreceived().len() == 0 ==> normal_outcome(
                *old(self),
                *final(self),
                bits(*peer_has),
                r,
            ),
    {
        if self.endgame_unreceived_blocks.len() > 0 {
            return self.assign_endgame_block(connection_id);
        }
        if self.pieces.len() == 0 && self.current_piece.is_none() {
            if elapsed_millis(&self.prev_unreceived_call) < UNRECEIVED_REFRESH_MILLIS {
                return AssignedBlockResult::NoBlocksToAssign;
            }
            let list = unreceived();
            self.endgame_unreceived_blocks = list;
            self.prev_unreceived_call = now();
            if self.endgame_unreceived_blocks.len() == 0 {
                return AssignedBlockResult::NoBlocksToAssign;
            }
            return self.assign_endgame_block(connection_id);
        }
        let piece = match self.current_piece {
            Some(value) => value,
            None => {
                if bitvec_all(peer_has) {
                    match self.pieces.pop_front() {
                        Some(p) => {
                            assert(forall|k: int| 0 <= k < self.pieces@.len() ==> self.pieces@[k]
                                == old(self).pieces@[k + 1]);
                            p
                        },
                        None => {
                            return AssignedBlockResult::NoBlocksToAssign;
                        },
                    }
                } else {
                    match Self::first_common_piece(peer_has, &self.left) {
                        Some(index) => {
                            let ghost before = self.pieces@;
                            self.pieces = Self::without_piece(&self.pieces, index);
                            proof {
                                assert forall|k: int| 0 <= k < self.pieces@.len() implies #[trigger] self.pieces@[k]
                                    < self.piece_info.total_pieces by {
                                    assert(before.contains(self.pieces@[k]));
                                }
                            }
                            index
                        },
                        None => {
                            return AssignedBlockResult::NoBlocksToAssign;
                        },
                    }
                }
            },
        };
        let request = self.assign_block_of(piece);
        AssignedBlockResult::AssignedBlock { request }
    }
}

/// A block of a piece starts inside the piece, which is at most `piece_length` long.
pub proof fn lemma_block_in_piece(info: PieceInfo, piece: usize, block: usize)
    requires
        PieceAssigner::info_ok(info),
        piece < info.total_pieces,
        block < spec_num_blocks(info.spec_piece_length(piece as int)),
    ensures
        block * BLOCK_LENGTH < info.spec_piece_length(piece as int),
        0 < info.spec_piece_length(piece as int) <= info.piece_length,
        info.spec_block_length(block as int, piece as int) <= BLOCK_LENGTH,
{
    let len = info.spec_piece_length(piece as int);
    assert(0 < len <= info.piece_length) by (nonlinear_arith)
        requires
            len == (if piece == info.total_pieces - 1 {
                if info.total_length % info.piece_length == 0 {
                    info.piece_length as int
                } else {
                    (info.total_length % info.piece_length) as int
                }
            } else {
                info.piece_length as int
            }),
            info.piece_length > 0,
    ;
    let b = BLOCK_LENGTH as int;
    assert(block * b < len) by (nonlinear_arith)
        requires
            b == 16384,
            len > 0,
            block < (if len % b == 0 {
                len / b
            } else {
                len / b + 1
            }),
    ;
    crate::client::piece_info::lemma_blocks_cover_piece(len);
}

/// A request for a whole block asks for bytes of its piece only, never past the piece's
/// end: at most `BLOCK_LENGTH` of them and at least one, from a multiple of
/// `BLOCK_LENGTH`; a block that is not the piece's last is `BLOCK_LENGTH` long, and the
/// last one reaches the piece's end exactly.
pub proof fn lemma_block_request_in_piece(info: PieceInfo, r: Request)
    requires
        PieceAssigner::info_ok(info),
        block_request(info, r),
    ensures
        ({
            let len = info.spec_piece_length(r.index as int);
            let b = (r.begin as int) / (BLOCK_LENGTH as int);
            &&& 0 < r.length <= BLOCK_LENGTH
            &&& r.begin + r.length <= len
            &&& r.begin == b * (BLOCK_LENGTH as int)
            &&& b < spec_num_blocks(len) - 1 ==> r.length == BLOCK_LENGTH
            &&& b == spec_num_blocks(len) - 1 ==> r.begin + r.length == len
        }),
{
    let len = info.spec_piece_length(r.index as int);
    let b = (r.begin as int) / (BLOCK_LENGTH as int);
    lemma_block_in_piece(info, r.index as usize, b as usize);
    lemma_blocks_cover_piece(len);
    let bl = BLOCK_LENGTH as int;
    assert(r.begin == b * bl) by (nonlinear_arith)
        requires
            (r.begin as int) % bl == 0,
            b == (r.begin as int) / bl,
            bl > 0,
    ;
    if b < spec_num_blocks(len) - 1 {
        assert(b * bl + bl <= (spec_num_blocks(len) - 1) * bl) by (nonlinear_arith)
            requires
                b < spec_num_blocks(len) - 1,
                bl > 0,
        ;
    }
}

} // verus!
