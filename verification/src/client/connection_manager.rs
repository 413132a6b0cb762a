use vstd::prelude::*;

use crate::client::block_cache::BlockCache;
use crate::client::peers_data::{same_id, is_new_peer, PeerInfo, PeersData};
use crate::client::piece_assigner::PieceAssigner;
use crate::client::piece_info::PieceInfo;
use crate::common::bits::{bits, bitvec_clone};
use crate::common::meta_info::MetaInfo;
use crate::common::hash::Sha1Hash;
use bit_vec::BitVec;

verus! {

/// The settings of the connection manager: the port to listen on, the most peers to be
/// connected to at once, whether to keep sharing once done, and whether to print progress.
#[derive(Debug, Clone)]
pub struct ConnectionManagerConfig {
    pub listen_port: u16,
    pub max_peers: usize,
    pub seed: bool,
    pub print_output: bool,
}

/// A torrent being shared: the pieces still to assign, the blocks gathered, the pieces on
/// disk, its peers, and what was transferred.
pub struct TorrentData {
    pub info_hash: Sha1Hash,
    pub piece_assigner: PieceAssigner,
    pub downloaded: usize,
    pub uploaded: usize,
    pub piece_info: PieceInfo,
    pub block_cache: BlockCache,
    pub have_on_disk: BitVec,
    pub peers_data: PeersData,
}

impl TorrentData {
    /// The assigner and the cache share the torrent's pieces, and there is one bit per
    /// piece on disk.
    pub open spec fn wf(&self) -> bool {
        &&& self.piece_assigner.wf()
        &&& self.block_cache.wf()
        &&& self.piece_assigner.info() == self.block_cache.info()
        &&& self.piece_info == self.block_cache.info()
        &&& bits(self.have_on_disk).len() == self.piece_info.total_pieces
        &&& self.peers_data.wf()
    }
}

/// Every torrent of `torrents` is well formed, and no two have the same info hash.
pub open spec fn torrents_wf(torrents: Seq<TorrentData>) -> bool {
    &&& forall|j: int| 0 <= j < torrents.len() ==> (#[trigger] torrents[j]).wf()
    &&& forall|j: int, k: int|
        0 <= j < k < torrents.len() ==> torrents[j].info_hash != torrents[k].info_hash
}

/// The position in `torrents` of the torrent `info_hash`, if it is there.
pub fn find_torrent(torrents: &Vec<TorrentData>, info_hash: &Sha1Hash) -> (r: Option<usize>)
    ensures
        r matches Some(j) ==> j < torrents@.len() && torrents@[j as int].info_hash@ == info_hash@,
        r is None ==> forall|j: int|
            0 <= j < torrents@.len() ==> (#[trigger] torrents@[j]).info_hash@ != info_hash@,
{
    let mut j: usize = 0;
    while j < torrents.len()
        invariant
            j <= torrents@.len(),
            forall|k: int| 0 <= k < j ==> (#[trigger] torrents@[k]).info_hash@ != info_hash@,
        decreases torrents@.len() - j,
    {
        if same_id(&torrents[j].info_hash, info_hash) {
            return Some(j);
        }
        j = j + 1;
    }
    None
}

/// A copy of the piece hashes `pieces`.
fn copy_hashes(pieces: &Vec<Sha1Hash>) -> (r: Vec<Sha1Hash>)
    ensures
        r@ == pieces@,
{
    let mut out: Vec<Sha1Hash> = Vec::new();
    let mut i: usize = 0;
    while i < pieces.len()
        invariant
            i <= pieces@.len(),
            out@ == pieces@.take(i as int),
        decreases pieces@.len() - i,
    {
        out.push(pieces[i]);
        proof {
            assert(pieces@.take(i + 1) =~= pieces@.take(i as int).push(pieces@[i as int]));
        }
        i = i + 1;
    }
    assert(pieces@.take(i as int) =~= pieces@);
    out
}

/// The pieces of the torrent of `meta_info`.
pub open spec fn meta_piece_info(meta_info: MetaInfo) -> PieceInfo {
    PieceInfo {
        piece_length: meta_info.piece_length,
        total_pieces: meta_info.pieces@.len() as usize,
        total_length: meta_info.total_size,
    }
}

/// Starts sharing the torrent of `meta_info`, whose pieces on disk are `piece_have`: its
/// missing pieces are to be assigned, its cache knows the pieces on disk and the pieces'
/// hashes, nothing was transferred and no peer is known. It replaces a torrent with the same
/// info hash, else it comes last.
pub fn start_torrent(torrents: &mut Vec<TorrentData>, meta_info: &MetaInfo, piece_have: BitVec)
    requires
        torrents_wf(old(torrents)@),
        meta_info.piece_length > 0,
        meta_info.piece_length <= u32::MAX,
        meta_info.pieces@.len() > 0,
        meta_info.pieces@.len() <= u32::MAX,
        bits(piece_have).len() == meta_info.pieces@.len(),
    ensures
        torrents_wf(final(torrents)@),
        ({
            let j = match find_index(old(torrents)@, meta_info.info_hash_raw) {
                Some(j) => j,
                None => old(torrents)@.len() as int,
            };
            let t = final(torrents)@[j];
            &&& final(torrents)@.len() == if j < old(torrents)@.len() {
                old(torrents)@.len() as int
            } else {
                old(torrents)@.len() + 1int
            }
            &&& forall|k: int|
                0 <= k < old(torrents)@.len() && k != j ==> #[trigger] final(torrents)@[k] == old(
                    torrents,
                )@[k]
            &&& t.info_hash == meta_info.info_hash_raw
            &&& t.piece_info == meta_piece_info(*meta_info)
            &&& t.piece_assigner.info() == meta_piece_info(*meta_info)
            &&& !t.piece_assigner.in_endgame()
            &&& t.block_cache.have_bits() == bits(piece_have)
            &&& t.block_cache.hashes() == meta_info.pieces@
            &&& bits(t.have_on_disk) == bits(piece_have)
            &&& t.downloaded == 0 && t.uploaded == 0
            &&& t.peers_data.ids() == Set::<Seq<u8>>::empty()
            &&& t.peers_data.unconnected() == Seq::<crate::client::peers_data::PeerInfo>::empty()
        }),
{
    let piece_info = PieceInfo {
        piece_length: meta_info.piece_length,
        total_pieces: meta_info.pieces.len(),
        total_length: meta_info.total_size,
    };
    let piece_assigner = PieceAssigner::new(piece_info, &piece_have);
    let block_cache = BlockCache::new(
        meta_info.info_hash_raw,
        piece_info,
        bitvec_clone(&piece_have),
        copy_hashes(&meta_info.pieces),
    );
    let torrent_data = TorrentData {
        info_hash: meta_info.info_hash_raw,
        piece_assigner,
        downloaded: 0,
        uploaded: 0,
        piece_info,
        block_cache,
        have_on_disk: piece_have,
        peers_data: PeersData::new(),
    };
    let ghost before = torrents@;
    match find_torrent(torrents, &meta_info.info_hash_raw) {
        Some(j) => {
            proof {
                lemma_find_index(before, meta_info.info_hash_raw, j as int);
            }
            torrents.set(j, torrent_data);
            proof {
                assert forall|a: int, b: int| 0 <= a < b < torrents@.len() implies torrents@[a].info_hash
                    != torrents@[b].info_hash by {
                    if a == j {
                        assert(torrents@[a].info_hash == before[a].info_hash) by {
                            assert(torrents@[a].info_hash@ == before[a].info_hash@);
                        }
                    }
                    if b == j {
                        assert(torrents@[b].info_hash == before[b].info_hash) by {
                            assert(torrents@[b].info_hash@ == before[b].info_hash@);
                        }
                    }
                }
            }
        },
        None => {
            proof {
                lemma_find_index_none(before, meta_info.info_hash_raw);
            }
            torrents.push(torrent_data);
            proof {
                assert forall|a: int, b: int| 0 <= a < b < torrents@.len() implies torrents@[a].info_hash
                    != torrents@[b].info_hash by {
                    if b == before.len() {
                        assert(torrents@[a] == before[a]);
                        if torrents@[a].info_hash == meta_info.info_hash_raw {
                            assert(before[a].info_hash@ == meta_info.info_hash_raw@);
                        }
                    }
                }
            }
        },
    }
}

/// The position of the first torrent of `torrents` with info hash `info_hash`.
pub open spec fn find_index(torrents: Seq<TorrentData>, info_hash: Sha1Hash) -> Option<int> {
    if exists|j: int| 0 <= j < torrents.len() && (#[trigger] torrents[j]).info_hash == info_hash {
        Some(choose|j: int| 0 <= j < torrents.len() && (#[trigger] torrents[j]).info_hash == info_hash)
    } else {
        None
    }
}

/// With distinct info hashes, the torrent found is the one with the hash.
proof fn lemma_find_index(torrents: Seq<TorrentData>, info_hash: Sha1Hash, j: int)
    requires
        torrents_wf(torrents),
        0 <= j < torrents.len(),
        torrents[j].info_hash@ == info_hash@,
    ensures
        find_index(torrents, info_hash) == Some(j),
{
    assert(torrents[j].info_hash == info_hash) by {
        assert(torrents[j].info_hash@ == info_hash@);
    }
    let k = choose|k: int| 0 <= k < torrents.len() && (#[trigger] torrents[k]).info_hash == info_hash;
    if k < j {
        assert(torrents[k].info_hash != torrents[j].info_hash);
    } else if k > j {
        assert(torrents[j].info_hash != torrents[k].info_hash);
    }
}

/// No torrent has an info hash that none has.
proof fn lemma_find_index_none(torrents: Seq<TorrentData>, info_hash: Sha1Hash)
    requires
        forall|j: int| 0 <= j < torrents.len() ==> (#[trigger] torrents[j]).info_hash@ != info_hash@,
    ensures
        find_index(torrents, info_hash) is None,
{
    assert forall|j: int| 0 <= j < torrents.len() implies (#[trigger] torrents[j]).info_hash != info_hash by {
        assert(torrents[j].info_hash@ != info_hash@);
    }
}

/// Queues the peers of a tracker's answer for the torrent `info_hash` that are not
/// connected. A torrent not shared here is left alone.
pub fn add_peers(torrents: &mut Vec<TorrentData>, info_hash: &Sha1Hash, peer_list: Vec<PeerInfo>)
    requires
        torrents_wf(old(torrents)@),
    ensures
        torrents_wf(final(torrents)@),
        final(torrents)@.len() == old(torrents)@.len(),
        forall|j: int|
            0 <= j < old(torrents)@.len() ==> {
                let before = old(torrents)@[j];
                let after = #[trigger] final(torrents)@[j];
                if before.info_hash@ == info_hash@ {
                    &&& after.peers_data.unconnected() == before.peers_data.unconnected()
                        + peer_list@.filter(
                        |p: PeerInfo|
                            is_new_peer(before.peers_data.ids(), before.peers_data.addrs(), p),
                    )
                    &&& after.peers_data.ids() == before.peers_data.ids()
                    &&& after.peers_data.addrs() == before.peers_data.addrs()
                    &&& after.info_hash == before.info_hash
                    &&& after.piece_info == before.piece_info
                    &&& after.block_cache == before.block_cache
                    &&& after.piece_assigner == before.piece_assigner
                } else {
                    after == before
                }
            },
{
    match find_torrent(torrents, info_hash) {
        Some(j) => {
            let ghost before = torrents@;
            let mut t = torrents.remove(j);
            assert(t == before[j as int]);
            t.peers_data.add_peers_from_tracker(peer_list);
            torrents.insert(j, t);
            proof {
                assert(torrents@ =~= before.update(j as int, t));
                assert forall|k: int| 0 <= k < before.len() && k != j implies before[k].info_hash@
                    != info_hash@ by {
                    if before[k].info_hash@ == info_hash@ {
                        assert(before[k].info_hash == before[j as int].info_hash) by {
                            assert(before[k].info_hash@ == before[j as int].info_hash@);
                        }
                        if k < j {
                            assert(before[k].info_hash != before[j as int].info_hash);
                        } else {
                            assert(before[j as int].info_hash != before[k].info_hash);
                        }
                    }
                }
            }
        },
        None => {},
    }
}

/// The peers of the torrent `info_hash` to connect to now: as many of those waiting as
/// there is room for beside the `num_connections` open, up to the configured `max_peers`;
/// none when there is no room or nobody waits, or the torrent is not shared here.
pub fn connect_peers(
    torrents: &mut Vec<TorrentData>,
    info_hash: &Sha1Hash,
    config: &ConnectionManagerConfig,
    num_connections: usize,
) -> (r: Vec<PeerInfo>)
    requires
        torrents_wf(old(torrents)@),
    ensures
        torrents_wf(final(torrents)@),
        final(torrents)@.len() == old(torrents)@.len(),
        forall|j: int|
            0 <= j < old(torrents)@.len() ==> {
                let before = old(torrents)@[j];
                let after = #[trigger] final(torrents)@[j];
                let free = if config.max_peers > num_connections {
                    config.max_peers - num_connections
                } else {
                    0
                };
                let waiting = before.peers_data.unconnected();
                let n = if free < waiting.len() {
                    free
                } else {
                    waiting.len() as int
                };
                if before.info_hash@ == info_hash@ {
                    &&& r@ == waiting.take(n)
                    &&& after.peers_data.unconnected() == waiting.skip(n)
                    &&& after.peers_data.ids() == before.peers_data.ids()
                    &&& after.peers_data.addrs() == before.peers_data.addrs()
                    &&& after.info_hash == before.info_hash
                    &&& after.piece_info == before.piece_info
                    &&& after.block_cache == before.block_cache
                    &&& after.piece_assigner == before.piece_assigner
                } else {
                    after == before
                }
            },
        (forall|j: int|
            0 <= j < old(torrents)@.len() ==> (#[trigger] old(torrents)@[j]).info_hash@
                != info_hash@) ==> r@.len() == 0,
{
    let j = match find_torrent(torrents, info_hash) {
        Some(j) => j,
        None => {
            return Vec::new();
        },
    };
    let ghost before = torrents@;
    proof {
        assert forall|k: int| 0 <= k < before.len() && k != j implies before[k].info_hash@
            != info_hash@ by {
            if before[k].info_hash@ == info_hash@ {
                assert(before[k].info_hash == before[j as int].info_hash) by {
                    assert(before[k].info_hash@ == before[j as int].info_hash@);
                }
                if k < j {
                    assert(before[k].info_hash != before[j as int].info_hash);
                } else {
                    assert(before[j as int].info_hash != before[k].info_hash);
                }
            }
        }
    }
    let free = config.max_peers.saturating_sub(num_connections);
    if free == 0 || !torrents[j].peers_data.have_unconnected() {
        assert(torrents@[j as int].peers_data.unconnected().take(0) =~= Seq::<PeerInfo>::empty());
        assert(torrents@[j as int].peers_data.unconnected().skip(0) =~= torrents@[j as int].peers_data.unconnected());
        return Vec::new();
    }
    let mut t = torrents.remove(j);
    assert(t == before[j as int]);
    let peers = t.peers_data.get_unconnected(free);
    torrents.insert(j, t);
    proof {
        assert(torrents@ =~= before.update(j as int, t));
    }
    peers
}

} // verus!
