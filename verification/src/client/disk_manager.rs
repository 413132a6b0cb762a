use vstd::prelude::*;

use crate::common::bits::{
    bits, bitvec_from_elem, bitvec_get, bitvec_set, count_set, count_true, lemma_count_set_lt,
    lemma_count_set_update,
};
use crate::common::hash::{is_valid_piece, sha1_digest, Sha1Hash};
use crate::client::peers_data::same_id;
use crate::common::meta_info::{File, MetaInfo};
use bit_vec::BitVec;

verus! {

/// Where a stretch of a buffer lies on disk: the file (by its position in the torrent's
/// list of files), the byte of that file where the stretch begins, and the bytes of the
/// buffer, from `start` up to `end`, that it holds.
#[derive(Debug, Clone, Copy, PartialEq, Eq, Structural)]
pub struct Segment {
    pub file: usize,
    pub file_offset: usize,
    pub start: usize,
    pub end: usize,
}

/// The number of bytes of the torrent held by the files before file `k`.
pub open spec fn files_before(lengths: Seq<usize>, k: int) -> int
    decreases k,
{
    if k <= 0 || lengths.len() == 0 {
        0
    } else if k > lengths.len() {
        files_before(lengths, lengths.len() as int)
    } else {
        files_before(lengths, k - 1) + lengths[k - 1]
    }
}

/// The number of bytes of all the files.
pub open spec fn total_bytes(lengths: Seq<usize>) -> int {
    files_before(lengths, lengths.len() as int)
}

/// The stretches that place `len` bytes, starting at byte `begin` of the torrent, in files
/// `k` onwards, once `cur` of them are placed; and whether all of them were placed.
///
/// A file that ends at or before `begin` is passed over. Any other file takes the next
/// bytes, from its byte `begin - s` on (from its first byte when it starts at `s` after
/// `begin`). When `reading`, it takes as many as remain up to its end. Otherwise (writing)
/// the room is measured from that byte up to where the file ends in the torrent as a whole,
/// as the disk code computes it, which is more than the file holds when other files precede
/// it. The stretches stop as soon as all `len` bytes are placed.
pub open spec fn plan(lengths: Seq<usize>, k: int, begin: int, cur: int, len: int, reading: bool) -> (
    Seq<Segment>,
    bool,
)
    decreases lengths.len() - k,
{
    if k < 0 || k >= lengths.len() {
        (Seq::empty(), false)
    } else {
        let file_begin = files_before(lengths, k);
        let file_end = file_begin + lengths[k];
        if begin >= file_end {
            plan(lengths, k + 1, begin, cur, len, reading)
        } else {
            let pos = if begin < file_begin {
                0
            } else {
                begin - file_begin
            };
            let room = if reading {
                file_end - file_begin - pos
            } else {
                file_end - pos
            };
            let n = if len - cur < room {
                len - cur
            } else {
                room
            };
            let seg = Segment {
                file: k as usize,
                file_offset: pos as usize,
                start: cur as usize,
                end: (cur + n) as usize,
            };
            if cur + n == len {
                (seq![seg], true)
            } else {
                let rest = plan(lengths, k + 1, begin, cur + n, len, reading);
                (seq![seg] + rest.0, rest.1)
            }
        }
    }
}

/// The files before a later file hold at least as many bytes.
pub proof fn lemma_files_before_mono(lengths: Seq<usize>, j: int, m: int)
    requires
        0 <= j <= m <= lengths.len(),
    ensures
        0 <= files_before(lengths, j) <= files_before(lengths, m),
    decreases m,
{
    if j < m {
        lemma_files_before_mono(lengths, j, m - 1);
    } else if j > 0 {
        lemma_files_before_mono(lengths, j - 1, j - 1);
    }
}

/// Each stretch of `segs` is where its bytes lie: inside its file, at the byte of that file
/// that stands, in the torrent as a whole, for byte `begin` plus the stretch's start.
pub open spec fn placed_in_files(lengths: Seq<usize>, segs: Seq<Segment>, begin: int) -> bool {
    forall|i: int|
        0 <= i < segs.len() ==> {
            let s = #[trigger] segs[i];
            &&& s.file < lengths.len()
            &&& s.start <= s.end
            &&& files_before(lengths, s.file as int) + s.file_offset == begin + s.start
            &&& s.file_offset + (s.end - s.start) <= lengths[s.file as int]
        }
}

/// The stretches of `segs` follow one another in the buffer, from byte `from` on, and the
/// last one ends at `len` when `all` says that every byte was placed.
pub open spec fn contiguous_from(segs: Seq<Segment>, from: int, len: int, all: bool) -> bool {
    &&& segs.len() > 0 ==> segs[0].start == from
    &&& forall|i: int| 0 <= i < segs.len() - 1 ==> #[trigger] segs[i].end == segs[i + 1].start
    &&& forall|i: int| 0 <= i < segs.len() ==> #[trigger] segs[i].end <= len
    &&& all ==> segs.len() > 0 && segs.last().end == len
}

proof fn lemma_read_plan_from(lengths: Seq<usize>, k: int, begin: int, cur: int, len: int)
    requires
        0 <= k <= lengths.len() <= usize::MAX,
        0 <= cur <= len <= usize::MAX,
        0 <= begin <= usize::MAX,
        total_bytes(lengths) <= usize::MAX,
        cur == 0 || cur < len,
        (cur == 0 && files_before(lengths, k) <= begin) || files_before(lengths, k) == begin
            + cur,
    ensures
        plan(lengths, k, begin, cur, len, true).1 == (begin < total_bytes(lengths) && begin + len
            <= total_bytes(lengths)),
        placed_in_files(lengths, plan(lengths, k, begin, cur, len, true).0, begin),
        contiguous_from(
            plan(lengths, k, begin, cur, len, true).0,
            cur,
            len,
            plan(lengths, k, begin, cur, len, true).1,
        ),
    decreases lengths.len() - k,
{
    lemma_files_before_mono(lengths, k, lengths.len() as int);
    if k < lengths.len() {
        lemma_files_before_mono(lengths, k + 1, lengths.len() as int);
        let file_begin = files_before(lengths, k);
        let file_end = file_begin + lengths[k];
        assert(files_before(lengths, k + 1) == file_end);
        if begin >= file_end {
            lemma_read_plan_from(lengths, k + 1, begin, cur, len);
        } else {
            let pos = if begin < file_begin {
                0
            } else {
                begin - file_begin
            };
            let room = file_end - file_begin - pos;
            let n = if len - cur < room {
                len - cur
            } else {
                room
            };
            let seg = Segment {
                file: k as usize,
                file_offset: pos as usize,
                start: cur as usize,
                end: (cur + n) as usize,
            };
            assert(seg.file == k && seg.file_offset == pos && seg.start == cur && seg.end == cur
                + n);
            assert(file_begin + pos == begin + cur);
            assert(pos + n <= lengths[k]);
            if cur + n == len {
                assert(plan(lengths, k, begin, cur, len, true).0 == seq![seg]);
            } else {
                lemma_read_plan_from(lengths, k + 1, begin, cur + n, len);
                let rest = plan(lengths, k + 1, begin, cur + n, len, true);
                let segs = seq![seg] + rest.0;
                assert(plan(lengths, k, begin, cur, len, true).0 == segs);
                assert forall|i: int| 0 <= i < segs.len() - 1 implies #[trigger] segs[i].end
                    == segs[i + 1].start by {
                    if i > 0 {
                        assert(segs[i] == rest.0[i - 1]);
                        assert(segs[i + 1] == rest.0[i]);
                    }
                }
                assert forall|i: int| 0 <= i < segs.len() implies #[trigger] segs[i].end <= len by {
                    if i > 0 {
                        assert(segs[i] == rest.0[i - 1]);
                    }
                }
                assert forall|i: int| 0 <= i < segs.len() implies {
                    let s = #[trigger] segs[i];
                    &&& s.file < lengths.len()
                    &&& s.start <= s.end
                    &&& files_before(lengths, s.file as int) + s.file_offset == begin + s.start
                    &&& s.file_offset + (s.end - s.start) <= lengths[s.file as int]
                } by {
                    if i > 0 {
                        assert(segs[i] == rest.0[i - 1]);
                    }
                }
            }
        }
    }
}

/// Reading places every byte where it belongs: each stretch lies inside its file, at the
/// byte of the file that stands for its place in the torrent, and the stretches follow one
/// another in the buffer from its first byte up to the last byte found. Every byte is
/// found exactly when the bytes asked for start and end within the files.
pub proof fn lemma_read_plan_places_bytes(lengths: Seq<usize>, begin: int, len: int)
    requires
        0 <= begin <= usize::MAX,
        0 <= len <= usize::MAX,
        lengths.len() <= usize::MAX,
        total_bytes(lengths) <= usize::MAX,
    ensures
        plan(lengths, 0, begin, 0, len, true).1 == (begin < total_bytes(lengths) && begin + len
            <= total_bytes(lengths)),
        placed_in_files(lengths, plan(lengths, 0, begin, 0, len, true).0, begin),
        contiguous_from(
            plan(lengths, 0, begin, 0, len, true).0,
            0,
            len,
            plan(lengths, 0, begin, 0, len, true).1,
        ),
{
    lemma_read_plan_from(lengths, 0, begin, 0, len);
}

/// With a single file, writing a piece puts its bytes exactly where reading finds them.
pub proof fn lemma_single_file_write_is_read(lengths: Seq<usize>, begin: int, len: int)
    requires
        lengths.len() == 1,
    ensures
        plan(lengths, 0, begin, 0, len, false) == plan(lengths, 0, begin, 0, len, true),
{
    assert(files_before(lengths, 0) == 0);
    assert(plan(lengths, 1, begin, 0, len, false) == plan(lengths, 1, begin, 0, len, true));
    let file_end = lengths[0] as int;
    if begin < file_end {
        let pos = if begin < 0 {
            0
        } else {
            begin
        };
        let n = if len < file_end - pos {
            len
        } else {
            file_end - pos
        };
        assert(plan(lengths, 1, begin, n, len, false) == plan(lengths, 1, begin, n, len, true));
    }
}

/// The stretches placing `len` bytes from byte `begin` of the torrent, whose files have the
/// lengths `lengths`, and whether all of them were placed (see `plan`).
fn plan_segments(lengths: &Vec<usize>, begin: usize, len: usize, reading: bool) -> (r: (
    Vec<Segment>,
    bool,
))
    requires
        total_bytes(lengths@) <= usize::MAX,
    ensures
        r.0@ == plan(lengths@, 0, begin as int, 0, len as int, reading).0,
        r.1 == plan(lengths@, 0, begin as int, 0, len as int, reading).1,
{
    let mut out: Vec<Segment> = Vec::new();
    let mut k: usize = 0;
    let mut file_begin: usize = 0;
    let mut cur: usize = 0;
    let ghost whole = plan(lengths@, 0, begin as int, 0, len as int, reading);
    while k < lengths.len()
        invariant
            k <= lengths@.len(),
            cur <= len,
            file_begin == files_before(lengths@, k as int),
            total_bytes(lengths@) <= usize::MAX,
            whole == plan(lengths@, 0, begin as int, 0, len as int, reading),
            whole.0 == out@ + plan(lengths@, k as int, begin as int, cur as int, len as int, reading).0,
            whole.1 == plan(lengths@, k as int, begin as int, cur as int, len as int, reading).1,
        decreases lengths@.len() - k,
    {
        proof {
            lemma_files_before_mono(lengths@, k as int + 1, lengths@.len() as int);
        }
        let file_end = file_begin + lengths[k];
        if begin >= file_end {
            file_begin = file_end;
            k = k + 1;
        } else {
            let pos = if begin < file_begin {
                0
            } else {
                begin - file_begin
            };
            let room = if reading {
                file_end - file_begin - pos
            } else {
                file_end - pos
            };
            let n = if len - cur < room {
                len - cur
            } else {
                room
            };
            let seg = Segment { file: k, file_offset: pos, start: cur, end: cur + n };
            let ghost before = out@;
            out.push(seg);
            if cur + n == len {
                proof {
                    assert(out@ == before + seq![seg]);
                }
                return (out, true);
            }
            proof {
                let rest = plan(lengths@, k as int + 1, begin as int, (cur + n) as int, len as int, reading);
                assert(out@ + rest.0 == before + (seq![seg] + rest.0));
            }
            cur = cur + n;
            file_begin = file_end;
            k = k + 1;
        }
    }
    (out, false)
}

/// The lengths of `files`, in order.
pub open spec fn file_lengths(files: Seq<File>) -> Seq<usize> {
    Seq::new(files.len(), |i: int| files[i].length)
}

/// No bit of a clear bit vector is set.
proof fn lemma_count_clear(n: nat, k: int)
    requires
        0 <= k <= n,
    ensures
        count_set(Seq::new(n, |i: int| false), k) == 0,
    decreases k,
{
    if k > 0 {
        lemma_count_clear(n, k - 1);
    }
}

/// Whether the lengths of `files` add up to a number of bytes that fits in a `usize`.
pub fn lengths_fit(files: &Vec<File>) -> (r: bool)
    ensures
        r == (total_bytes(file_lengths(files@)) <= usize::MAX),
{
    let ghost lengths = file_lengths(files@);
    let mut sum: usize = 0;
    let mut k: usize = 0;
    while k < files.len()
        invariant
            k <= files@.len(),
            lengths == file_lengths(files@),
            sum == files_before(lengths, k as int),
        decreases files@.len() - k,
    {
        match sum.checked_add(files[k].length) {
            Some(s) => {
                sum = s;
            },
            None => {
                proof {
                    lemma_files_before_mono(lengths, k as int + 1, lengths.len() as int);
                }
                return false;
            },
        }
        k = k + 1;
    }
    true
}

/// The disk side of a torrent: the lengths of its files, in order, its pieces, which of
/// them are on disk, and how many.
pub struct TorrentData {
    pub file_lengths: Vec<usize>,
    pub num_pieces: usize,
    pub piece_length: usize,
    pub last_piece_length: usize,
    pub have: BitVec,
    pub have_count: usize,
    pub info_hash: Sha1Hash,
}

impl TorrentData {
    /// There is one bit per piece, `have_count` counts the pieces held, and the files hold a
    /// number of bytes that fits in a `usize`.
    pub open spec fn wf(&self) -> bool {
        &&& bits(self.have).len() == self.num_pieces
        &&& self.have_count == count_true(bits(self.have))
        &&& total_bytes(self.file_lengths@) <= usize::MAX
    }

    /// The byte of the torrent where piece `index` begins, plus `offset`.
    pub open spec fn byte_of(&self, index: int, offset: int) -> int {
        index * self.piece_length + offset
    }

    /// The disk side of the torrent `meta_info`, with no piece held yet. The last piece
    /// holds what is left of the total size after the whole pieces, or a whole piece when
    /// nothing is left.
    pub fn new(meta_info: &MetaInfo) -> (r: Self)
        requires
            meta_info.piece_length > 0,
            total_bytes(file_lengths(meta_info.files@)) <= usize::MAX,
        ensures
            r.wf(),
            r.file_lengths@ == file_lengths(meta_info.files@),
            r.num_pieces == meta_info.pieces@.len(),
            r.piece_length == meta_info.piece_length,
            r.last_piece_length == if meta_info.total_size % meta_info.piece_length == 0 {
                meta_info.piece_length
            } else {
                meta_info.total_size % meta_info.piece_length
            },
            bits(r.have) == Seq::new(meta_info.pieces@.len(), |i: int| false),
            r.have_count == 0,
            r.info_hash == meta_info.info_hash_raw,
    {
        let num_pieces = meta_info.pieces.len();
        let mut lengths: Vec<usize> = Vec::new();
        let mut k: usize = 0;
        while k < meta_info.files.len()
            invariant
                k <= meta_info.files@.len(),
                lengths@ == file_lengths(meta_info.files@).take(k as int),
            decreases meta_info.files@.len() - k,
        {
            lengths.push(meta_info.files[k].length);
            k = k + 1;
            proof {
                assert(lengths@ == file_lengths(meta_info.files@).take(k as int));
            }
        }
        proof {
            assert(lengths@ == file_lengths(meta_info.files@));
        }
        let mut last_piece_length = meta_info.total_size % meta_info.piece_length;
        if last_piece_length == 0 {
            last_piece_length = meta_info.piece_length;
        }
        let have = bitvec_from_elem(num_pieces, false);
        proof {
            lemma_count_clear(num_pieces as nat, num_pieces as int);
        }
        TorrentData {
            file_lengths: lengths,
            num_pieces,
            piece_length: meta_info.piece_length,
            last_piece_length,
            have,
            have_count: 0,
            info_hash: meta_info.info_hash_raw,
        }
    }

    /// The length of piece `index`: the last piece has its own length, every other piece
    /// the torrent's piece length.
    pub fn get_piece_length(&self, index: usize) -> (r: usize)
        requires
            self.num_pieces > 0,
        ensures
            r == if index == self.num_pieces - 1 {
                self.last_piece_length
            } else {
                self.piece_length
            },
    {
        if index == self.num_pieces - 1 {
            self.last_piece_length
        } else {
            self.piece_length
        }
    }

    /// Where on disk to read `num_bytes` bytes from byte `offset` of piece `index`: the
    /// stretches, file by file, until the bytes are all found or the files end.
    pub fn read_plan(&self, index: usize, offset: usize, num_bytes: usize) -> (r: Vec<Segment>)
        requires
            self.wf(),
            self.byte_of(index as int, offset as int) <= usize::MAX,
        ensures
            r@ == plan(
                self.file_lengths@,
                0,
                self.byte_of(index as int, offset as int),
                0,
                num_bytes as int,
                true,
            ).0,
    {
        proof {
            assert(index * self.piece_length <= usize::MAX) by (nonlinear_arith)
                requires
                    index * self.piece_length + offset <= usize::MAX,
                    offset >= 0,
            ;
        }
        let begin = index * self.piece_length + offset;
        let (segments, _complete) = plan_segments(&self.file_lengths, begin, num_bytes, true);
        segments
    }

    /// Where on disk to read the block of `num_bytes` bytes from byte `offset` of piece
    /// `index`, to answer a peer: nothing when the piece is not held.
    pub fn get_block(&self, index: usize, offset: usize, num_bytes: usize) -> (r: Option<
        Vec<Segment>,
    >)
        requires
            self.wf(),
            index < self.num_pieces,
            self.byte_of(index as int, offset as int) <= usize::MAX,
        ensures
            !bits(self.have)[index as int] ==> r is None,
            bits(self.have)[index as int] ==> (r matches Some(p) && p@ == plan(
                self.file_lengths@,
                0,
                self.byte_of(index as int, offset as int),
                0,
                num_bytes as int,
                true,
            ).0),
    {
        if bitvec_get(&self.have, index) != Some(true) {
            return None;
        }
        Some(self.read_plan(index, offset, num_bytes))
    }

    /// Where on disk to write piece `index`, `data_len` bytes long: nothing when the piece
    /// is held already; otherwise the stretches, file by file, and whether they take all
    /// the bytes.
    pub fn write_plan(&self, index: usize, data_len: usize) -> (r: Option<(Vec<Segment>, bool)>)
        requires
            self.wf(),
            index < self.num_pieces,
            self.byte_of(index as int, 0) <= usize::MAX,
        ensures
            bits(self.have)[index as int] ==> r is None,
            !bits(self.have)[index as int] ==> (r matches Some(p) && p.0@ == plan(
                self.file_lengths@,
                0,
                self.byte_of(index as int, 0),
                0,
                data_len as int,
                false,
            ).0 && p.1 == plan(
                self.file_lengths@,
                0,
                self.byte_of(index as int, 0),
                0,
                data_len as int,
                false,
            ).1),
    {
        if bitvec_get(&self.have, index) == Some(true) {
            return None;
        }
        let begin = index * self.piece_length;
        Some(plan_segments(&self.file_lengths, begin, data_len, false))
    }

    /// Records that piece `index`, which was not held, is now on disk; gives whether it was
    /// the last piece missing.
    pub fn piece_written(&mut self, index: usize) -> (final_piece: bool)
        requires
            old(self).wf(),
            index < old(self).num_pieces,
            !bits(old(self).have)[index as int],
        ensures
            final(self).wf(),
            bits(final(self).have) == bits(old(self).have).update(index as int, true),
            final(self).have_count == old(self).have_count + 1,
            final_piece == (final(self).have_count == final(self).num_pieces),
            final(self).file_lengths == old(self).file_lengths,
            final(self).num_pieces == old(self).num_pieces,
            final(self).piece_length == old(self).piece_length,
            final(self).last_piece_length == old(self).last_piece_length,
            final(self).info_hash == old(self).info_hash,
    {
        proof {
            let b = bits(self.have);
            lemma_count_set_lt(b, index as int, b.len() as int);
            lemma_count_set_update(b, index as int, b.len() as int);
        }
        bitvec_set(&mut self.have, index, true);
        self.have_count = self.have_count + 1;
        self.have_count == self.num_pieces
    }

    /// Checks the bytes found on disk for piece `index`, which is not held yet, against its
    /// hash; when they match, the piece is recorded as held. Gives whether they matched.
    pub fn check_piece(&mut self, index: usize, piece: &[u8], pieces: &Vec<Sha1Hash>) -> (r: bool)
        requires
            old(self).wf(),
            index < old(self).num_pieces,
            index < pieces@.len(),
            !bits(old(self).have)[index as int],
        ensures
            r == (sha1_digest(piece@) == pieces@[index as int]@),
            final(self).wf(),
            r ==> bits(final(self).have) == bits(old(self).have).update(index as int, true)
                && final(self).have_count == old(self).have_count + 1,
            !r ==> *final(self) == *old(self),
            final(self).file_lengths == old(self).file_lengths,
            final(self).num_pieces == old(self).num_pieces,
            final(self).piece_length == old(self).piece_length,
            final(self).last_piece_length == old(self).last_piece_length,
            final(self).info_hash == old(self).info_hash,
    {
        if !is_valid_piece(piece, index, pieces) {
            return false;
        }
        self.piece_written(index);
        true
    }
}

/// The position in `torrents` of the torrent `info_hash`, if it is there.
pub fn find_disk_torrent(torrents: &Vec<TorrentData>, info_hash: &Sha1Hash) -> (r: Option<usize>)
    ensures
        r matches Some(j) ==> j < torrents@.len() && torrents@[j as int].info_hash@ == info_hash@,
        r is None ==> forall|j: int|
            0 <= j < torrents@.len() ==> (#[trigger] torrents@[j]).info_hash@ != info_hash@,
{
    let mut j: usize = 0;
    while j < torrents.len()
        invariant
            j <= torrents@.len(),
            forall|k: int| 0 <= k < j ==> (#[trigger] torrents@[k]).info_hash@ != info_hash@,
        decreases torrents@.len() - j,
    {
        if same_id(&torrents[j].info_hash, info_hash) {
            return Some(j);
        }
        j = j + 1;
    }
    None
}

} // verus!
