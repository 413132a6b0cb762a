use vstd::prelude::*;

use crate::client::connection::{UpdateError, UpdateSuccess};
use crate::client::connection_manager::{find_torrent, torrents_wf, TorrentData};
use crate::client::peers_data::{same_id, with_id, PeerAddr, PeerInfo};
use crate::client::table::{find_entry, keys_distinct, lemma_table_push, lemma_table_remove, lemma_table_update, lemma_table_value, table};
use crate::client::utp::connection::{handshake_reply, UtpConnection};
use crate::client::utp::connection_info::UtpConnectionInfo;
use crate::client::utp::established::{handled_packet, newly_established, EstablishedUtpConnection};
use crate::client::utp::handshaking::{IncomingUtpConnection, OutgoingUtpConnection, OutgoingUtpState};
use crate::client::utp::header::{lemma_fields, type_of_code, Header, Type, HEADER_SIZE};
use crate::client::utp::send_buffer::UtpSendBuffer;
use crate::common::bits::{bits, bitvec_clone};
use crate::common::hash::Sha1Hash;
use crate::constants::PEER_ID_LENGTH;
use crate::io::read_buffer::ReadBuffer;
use crate::common::bits::pack_bits;
use crate::message::{flag_bytes, pstr, Bitfield, Interested, Unchoke, HANDSHAKE_LENGTH};
use crate::wire::be32;
use crate::wire::from_be16;

verus! {

/// The error of a peer that is connected already (`std::io::ErrorKind::AlreadyExists`).
#[verifier::external_body]
fn already_exists_error() -> std::io::Error {
    std::io::Error::from(std::io::ErrorKind::AlreadyExists)
}

/// An established connection holds what the cache of each torrent with its info hash calls
/// for.
pub open spec fn fits_torrents(c: UtpConnection<PeerAddr>, torrents: Seq<TorrentData>) -> bool {
    c matches UtpConnection::Established(e) ==> (forall|j: int|
        0 <= j < torrents.len() && (#[trigger] torrents[j]).info_hash == e.spec_info_hash()
            ==> e.wf(torrents[j].block_cache))
}

/// Each entry of `conns` fits `torrents`.
pub open spec fn all_fit(
    conns: Seq<(PeerAddr, u16, UtpConnection<PeerAddr>)>,
    torrents: Seq<TorrentData>,
) -> bool {
    forall|i: int| 0 <= i < conns.len() ==> fits_torrents((#[trigger] conns[i]).2, torrents)
}

/// `after` holds the same torrents as `before`, with the same pieces.
pub open spec fn same_torrents(before: Seq<TorrentData>, after: Seq<TorrentData>) -> bool {
    &&& after.len() == before.len()
    &&& forall|j: int|
        0 <= j < before.len() ==> (#[trigger] after[j]).info_hash == before[j].info_hash
            && after[j].piece_info == before[j].piece_info && after[j].block_cache.info()
            == before[j].block_cache.info()
}

/// Connections that fit torrents still fit them once their caches changed, the pieces
/// staying the same.
proof fn lemma_all_fit_same_torrents(
    conns: Seq<(PeerAddr, u16, UtpConnection<PeerAddr>)>,
    before: Seq<TorrentData>,
    after: Seq<TorrentData>,
)
    requires
        all_fit(conns, before),
        same_torrents(before, after),
    ensures
        all_fit(conns, after),
{
    assert forall|i: int| 0 <= i < conns.len() implies fits_torrents((#[trigger] conns[i]).2, after) by {
        if let UtpConnection::Established(e) = conns[i].2 {
            assert forall|j: int|
                0 <= j < after.len() && (#[trigger] after[j]).info_hash == e.spec_info_hash()
                implies e.wf(after[j].block_cache) by {
                assert(before[j].info_hash == e.spec_info_hash());
                e.lemma_wf_same_info(before[j].block_cache, after[j].block_cache);
            }
        }
    }
}

/// Maps that differ from `removed` only at `key`, where `removed` differs from `mid` only at
/// `key`, where `mid` differs from `start` only at `key`, hold the same other keys as `start`.
proof fn lemma_same_other_keys<V>(
    last: Map<(PeerAddr, u16), V>,
    removed: Map<(PeerAddr, u16), V>,
    mid: Map<(PeerAddr, u16), V>,
    start: Map<(PeerAddr, u16), V>,
    key: (PeerAddr, u16),
)
    requires
        last.remove(key) == removed.remove(key),
        removed == mid.remove(key),
        forall|k: (PeerAddr, u16)| k != key ==> (#[trigger] mid.contains_key(k)) == start.contains_key(k),
    ensures
        forall|k: (PeerAddr, u16)| k != key ==> (#[trigger] last.contains_key(k)) == start.contains_key(k),
{
    assert forall|k: (PeerAddr, u16)| k != key implies (#[trigger] last.contains_key(k)) == start.contains_key(k) by {
        assert(last.remove(key).contains_key(k) == last.contains_key(k));
        assert(removed.remove(key).contains_key(k) == removed.contains_key(k));
        assert(mid.contains_key(k) == start.contains_key(k));
    }
}

/// What handling one received packet came to.
pub enum PacketOutcome {
    /// Not a packet to handle: DHT traffic, a packet shorter than a header, or one of an
    /// unknown type.
    Ignored,
    /// Handled on the connection with this key; what is to be sent on it is queued.
    Handled { addr: PeerAddr, connection_id: u16 },
    /// The connection of the peer at `addr` sending with `connection_id` broke, and is to
    /// be dropped.
    Failed { addr: PeerAddr, connection_id: u16, error: UpdateError },
}

/// The uTP connections to peers, keyed by the peer's address and the connection id, and
/// what is to be sent on them.
pub struct UtpConnectionManager {
    addr_to_info_hash: Vec<(PeerAddr, u16, Sha1Hash)>,
    pub utp_send_buffer: UtpSendBuffer,
    utp_connections: Vec<(PeerAddr, u16, UtpConnection<PeerAddr>)>,
    peer_id: [u8; PEER_ID_LENGTH],
}

/// Whether one of `torrents` has the info hash `ih`.
pub open spec fn has_torrent(torrents: Seq<TorrentData>, ih: Seq<u8>) -> bool {
    exists|j: int| 0 <= j < torrents.len() && (#[trigger] torrents[j]).info_hash@ == ih
}

/// Whether the peer `pid` is connected for the torrent `ih` of `torrents`.
pub open spec fn peer_connected(torrents: Seq<TorrentData>, ih: Seq<u8>, pid: Seq<u8>) -> bool {
    exists|j: int|
        0 <= j < torrents.len() && (#[trigger] torrents[j]).info_hash@ == ih
            && torrents[j].peers_data.ids().contains(pid)
}

/// What handling a packet with header `header` and data `unread` from the peer at `addr`
/// comes to, with the connections `conns` and the torrents `torrents`, we being `peer_id`;
/// the connections and torrents are `conns_after` and `torrents_after` after it. The
/// packet goes to the connection keyed by `connection_key`; a new one is opened and the
/// packet starts its handshake. An established connection, whose torrent must be shared
/// here, handles the packet itself (see `handled_packet`): an acknowledgement is handled,
/// a packet that is neither one nor data breaks the protocol, and the connection's error
/// is the result's. A connection in its handshake gives an error when the packet breaks
/// it, goes on while it lasts, and once the peer's handshake came needs the torrent it
/// names and a peer that is neither connected already nor ourselves.
pub open spec fn packet_outcome(
    conns: Map<(PeerAddr, u16), UtpConnection<PeerAddr>>,
    torrents: Seq<TorrentData>,
    peer_id: Seq<u8>,
    addr: PeerAddr,
    header: Header,
    unread: Seq<u8>,
    conns_after: Map<(PeerAddr, u16), UtpConnection<PeerAddr>>,
    torrents_after: Seq<TorrentData>,
    r: Result<(PeerAddr, u16), UpdateError>,
) -> bool {
    let key = (addr, connection_key(conns, addr, header.connection_id));
    let t = type_of_code(header.type_number());
    &&& r matches Ok(p) ==> p == key
    &&& if !conns.contains_key(key) {
        r == Ok::<(PeerAddr, u16), UpdateError>(key)
    } else {
        match conns[key] {
            UtpConnection::Established(e) => if !has_torrent(torrents, e.spec_info_hash()@) {
                r == Err::<(PeerAddr, u16), UpdateError>(
                    UpdateError::TorrentNotManaged { info_hash: e.spec_info_hash() },
                )
            } else if t == Type::StState {
                r == Ok::<(PeerAddr, u16), UpdateError>(key)
            } else if t != Type::StData {
                r matches Err(UpdateError::CommunicationError(_))
            } else {
                established_handled(e, header, unread, conns_after, torrents_after, key, r)
            },
            c => match handshake_reply(c, header, unread) {
                None => r matches Err(UpdateError::CommunicationError(_)),
                Some(None) => r == Ok::<(PeerAddr, u16), UpdateError>(key),
                Some(Some((ih, pid))) => if !has_torrent(torrents, ih) {
                    r matches Err(UpdateError::TorrentNotManaged { info_hash }) && info_hash@ == ih
                } else if peer_connected(torrents, ih, pid) || pid == peer_id {
                    r matches Err(UpdateError::CommunicationError(_))
                } else {
                    promoted_handled(header, unread, conns_after, torrents_after, key, ih, pid, r)
                },
            },
        }
    }
}

/// The established connection `before`, keyed by `key`, handled the packet with header
/// `header` and data `unread`: under `key` in `conns_after` stands the connection it
/// became, with the block cache its torrent has in `torrents_after`, and the result `r`
/// is the key when the connection succeeded, else the connection's error.
pub open spec fn established_handled(
    before: EstablishedUtpConnection<PeerAddr>,
    header: Header,
    unread: Seq<u8>,
    conns_after: Map<(PeerAddr, u16), UtpConnection<PeerAddr>>,
    torrents_after: Seq<TorrentData>,
    key: (PeerAddr, u16),
    r: Result<(PeerAddr, u16), UpdateError>,
) -> bool {
    &&& conns_after.contains_key(key)
    &&& conns_after[key] is Established
    &&& exists|j: int, s: Result<UpdateSuccess, UpdateError>|
        0 <= j < torrents_after.len() && torrents_after[j].info_hash == before.spec_info_hash()
            && #[trigger] handled_packet(
            before,
            conns_after[key]->Established_0,
            header,
            unread,
            torrents_after[j].block_cache,
            s,
        ) && (s is Ok ==> r == Ok::<(PeerAddr, u16), UpdateError>(key)) && (s matches Err(
            err,
        ) ==> r == Err::<(PeerAddr, u16), UpdateError>(err))
}

/// The connection keyed by `key`, whose handshake a packet with header `header` and data
/// `unread` completed for the torrent `ih` and the peer `pid`, was promoted: the peer is
/// noted among the torrent's peers, and a connection newly established for the torrent
/// handled the packet's data after the handshake (see `handled_packet`). When that
/// succeeded, it stands under `key` and the result is the key; otherwise it is dropped
/// and the result is its error.
pub open spec fn promoted_handled(
    header: Header,
    unread: Seq<u8>,
    conns_after: Map<(PeerAddr, u16), UtpConnection<PeerAddr>>,
    torrents_after: Seq<TorrentData>,
    key: (PeerAddr, u16),
    ih: Seq<u8>,
    pid: Seq<u8>,
    r: Result<(PeerAddr, u16), UpdateError>,
) -> bool {
    &&& peer_connected(torrents_after, ih, pid)
    &&& exists|
        j: int,
        e0: EstablishedUtpConnection<PeerAddr>,
        e1: EstablishedUtpConnection<PeerAddr>,
        s: Result<UpdateSuccess, UpdateError>,
    |
        0 <= j < torrents_after.len() && torrents_after[j].info_hash@ == ih && newly_established(
            e0,
            torrents_after[j].info_hash,
            torrents_after[j].piece_info.total_pieces,
        ) && #[trigger] handled_packet(
            e0,
            e1,
            header,
            unread.skip(HANDSHAKE_LENGTH as int),
            torrents_after[j].block_cache,
            s,
        ) && (s is Ok ==> r == Ok::<(PeerAddr, u16), UpdateError>(key) && conns_after.contains_key(
            key,
        ) && conns_after[key] == UtpConnection::Established(e1)) && (s matches Err(err) ==> r
            == Err::<(PeerAddr, u16), UpdateError>(err) && !conns_after.contains_key(key))
}

/// The messages that greet a peer once its connection is established: our bitfield
/// `have`, an unchoke and an interest.
pub open spec fn greeting(have: Seq<bool>) -> Seq<u8> {
    be32((1 + pack_bits(have).len()) as u32) + seq![5u8] + pack_bits(have) + flag_bytes(1)
        + flag_bytes(2)
}

/// The key under which a packet from `addr` with connection id `id` is handled: its own id
/// when a connection has it, else the next one (wrapping), which the peer sends with.
pub open spec fn connection_key(
    conns: Map<(PeerAddr, u16), UtpConnection<PeerAddr>>,
    addr: PeerAddr,
    id: u16,
) -> u16 {
    if conns.contains_key((addr, id)) {
        id
    } else {
        ((id + 1) % 65536) as u16
    }
}

/// `after` is the established connection `before` with its sequence number moved to `seq`:
/// the same torrent, peer, state, acknowledgement number, waiting packets and kept bytes.
pub open spec fn moved_seq(
    before: EstablishedUtpConnection<PeerAddr>,
    after: EstablishedUtpConnection<PeerAddr>,
    seq: int,
) -> bool {
    &&& after.spec_info_hash() == before.spec_info_hash()
    &&& after.spec_stream().spec_seq_nr() == seq
    &&& after.spec_stream().spec_ack_nr() == before.spec_stream().spec_ack_nr()
    &&& after.spec_peer() == before.spec_peer()
    &&& after.spec_state() == before.spec_state()
    &&& after.spec_next_seq() == before.spec_next_seq()
    &&& after.waiting() == before.waiting()
    &&& after.kept_data() == before.kept_data()
}

/// The connections `conns` without those of the packets that failed among `outcomes`.
pub open spec fn without_failed(
    conns: Map<(PeerAddr, u16), UtpConnection<PeerAddr>>,
    outcomes: Seq<PacketOutcome>,
) -> Map<(PeerAddr, u16), UtpConnection<PeerAddr>>
    decreases outcomes.len(),
{
    if outcomes.len() == 0 {
        conns
    } else {
        let rest = without_failed(conns, outcomes.drop_last());
        match outcomes.last() {
            PacketOutcome::Failed { addr, connection_id, .. } => rest.remove((addr, connection_id)),
            _ => rest,
        }
    }
}

impl UtpConnectionManager {
    /// No key is held twice.
    pub closed spec fn table_ok(&self) -> bool {
        &&& keys_distinct(self.utp_connections@)
        &&& keys_distinct(self.addr_to_info_hash@)
    }

    /// The established connections fit `torrents`.
    pub closed spec fn fits(&self, torrents: Seq<TorrentData>) -> bool {
        all_fit(self.utp_connections@, torrents)
    }

    /// No key is held twice, and the established connections fit `torrents`.
    pub open spec fn wf(&self, torrents: Seq<TorrentData>) -> bool {
        &&& self.table_ok()
        &&& self.fits(torrents)
    }

    /// The connections, by the peer's address and the connection id.
    pub closed spec fn conns(&self) -> Map<(PeerAddr, u16), UtpConnection<PeerAddr>> {
        table(self.utp_connections@)
    }

    /// The torrent of each established connection, by the peer's address and the id the
    /// peer sends with.
    pub closed spec fn info_hashes(&self) -> Map<(PeerAddr, u16), Sha1Hash> {
        table(self.addr_to_info_hash@)
    }

    /// What is to be sent.
    pub closed spec fn spec_send_buffer(&self) -> UtpSendBuffer {
        self.utp_send_buffer
    }

    /// Our peer id.
    pub closed spec fn spec_peer_id(&self) -> [u8; PEER_ID_LENGTH] {
        self.peer_id
    }

    /// No connection yet; we are `peer_id`.
    pub fn new(peer_id: [u8; PEER_ID_LENGTH]) -> (r: UtpConnectionManager)
        ensures
            forall|t: Seq<TorrentData>| r.wf(t),
            r.conns() == Map::<(PeerAddr, u16), UtpConnection<PeerAddr>>::empty(),
            r.info_hashes() == Map::<(PeerAddr, u16), Sha1Hash>::empty(),
            r.spec_peer_id() == peer_id,
            r.spec_send_buffer().data() == Seq::<u8>::empty(),
            r.spec_send_buffer().headers() == Seq::<crate::client::utp::header::Type>::empty(),
    {
        let r = UtpConnectionManager {
            addr_to_info_hash: Vec::new(),
            utp_send_buffer: UtpSendBuffer::new(),
            utp_connections: Vec::new(),
            peer_id,
        };
        assert(r.conns() =~= Map::<(PeerAddr, u16), UtpConnection<PeerAddr>>::empty());
        assert(r.info_hashes() =~= Map::<(PeerAddr, u16), Sha1Hash>::empty());
        r
    }

    /// Sets the torrent of the connection with the peer at `addr` sending with `id`.
    fn insert_info_hash(&mut self, addr: PeerAddr, id: u16, info_hash: Sha1Hash)
        requires
            keys_distinct(old(self).addr_to_info_hash@),
        ensures
            keys_distinct(final(self).addr_to_info_hash@),
            final(self).info_hashes() == old(self).info_hashes().insert((addr, id), info_hash),
            final(self).utp_connections == old(self).utp_connections,
            final(self).utp_send_buffer == old(self).utp_send_buffer,
            final(self).peer_id == old(self).peer_id,
    {
        match find_entry(&self.addr_to_info_hash, addr, id) {
            Some(i) => {
                proof {
                    lemma_table_update(self.addr_to_info_hash@, i as int, (addr, id, info_hash));
                }
                self.addr_to_info_hash.set(i, (addr, id, info_hash));
            },
            None => {
                proof {
                    lemma_table_push(self.addr_to_info_hash@, (addr, id, info_hash));
                }
                self.addr_to_info_hash.push((addr, id, info_hash));
            },
        }
    }

    /// Handles a packet with header `header` on the established connection `conn`, taken
    /// out of the table at key `(addr, key_id)`, and puts it back. Its torrent must be one
    /// of `torrents`.
    fn update_established(
        &mut self,
        addr: PeerAddr,
        key_id: u16,
        conn: EstablishedUtpConnection<PeerAddr>,
        read_buffer: &mut ReadBuffer,
        header: &Header,
        torrents: &mut Vec<TorrentData>,
    ) -> (r: Result<(PeerAddr, u16), UpdateError>)
        requires
            header.type_number() <= 4,
            old(read_buffer).wf(),
            keys_distinct(old(self).utp_connections@),
            keys_distinct(old(self).addr_to_info_hash@),
            all_fit(old(self).utp_connections@, old(torrents)@),
            fits_torrents(UtpConnection::Established(conn), old(torrents)@),
            !table(old(self).utp_connections@).contains_key((addr, key_id)),
            torrents_wf(old(torrents)@),
        ensures
            final(read_buffer).wf(),
            final(self).wf(final(torrents)@),
            torrents_wf(final(torrents)@),
            same_torrents(old(torrents)@, final(torrents)@),
            final(self).conns().contains_key((addr, key_id)),
            final(self).conns()[(addr, key_id)] is Established,
            final(self).conns().remove((addr, key_id)) == old(self).conns(),
            final(self).info_hashes() == old(self).info_hashes(),
            final(self).peer_id == old(self).peer_id,
            r matches Ok(p) ==> p == (addr, key_id),
            !has_torrent(old(torrents)@, conn.spec_info_hash()@) ==> r == Err::<
                (PeerAddr, u16),
                UpdateError,
            >(UpdateError::TorrentNotManaged { info_hash: conn.spec_info_hash() }),
            has_torrent(old(torrents)@, conn.spec_info_hash()@) && type_of_code(
                header.type_number(),
            ) == Type::StState ==> r == Ok::<(PeerAddr, u16), UpdateError>((addr, key_id)),
            has_torrent(old(torrents)@, conn.spec_info_hash()@) && type_of_code(
                header.type_number(),
            ) != Type::StState && type_of_code(header.type_number()) != Type::StData ==> r matches Err(
                UpdateError::CommunicationError(_),
            ),
            has_torrent(old(torrents)@, conn.spec_info_hash()@) ==> established_handled(
                conn,
                *header,
                old(read_buffer).unread_data(),
                final(self).conns(),
                final(torrents)@,
                (addr, key_id),
                r,
            ),
    {
        let ghost conn0 = conn;
        let ghost mut found: int = -1;
        let ghost mut step: Result<UpdateSuccess, UpdateError> = Ok(UpdateSuccess::NoUpdate);
        let mut conn = conn;
        let info_hash = conn.get_info_hash();
        let result = match find_torrent(torrents, &info_hash) {
            None => Err(UpdateError::TorrentNotManaged { info_hash }),
            Some(j) => {
                let ghost before = torrents@;
                let mut t = torrents.remove(j);
                assert(t.info_hash == conn.spec_info_hash()) by {
                    assert(t.info_hash@ == conn.spec_info_hash()@);
                }
                assert(conn.wf(t.block_cache)) by {
                    assert(before[j as int] == t);
                }
                let result = conn.update(
                    read_buffer,
                    header,
                    &mut self.utp_send_buffer,
                    &mut t.piece_assigner,
                    &mut t.block_cache,
                );
                torrents.insert(j, t);
                proof {
                    found = j as int;
                    step = result;
                    assert(torrents@ =~= before.update(j as int, t));
                    lemma_all_fit_same_torrents(self.utp_connections@, before, torrents@);
                    assert forall|k: int|
                        0 <= k < torrents@.len() && (#[trigger] torrents@[k]).info_hash
                            == conn.spec_info_hash() implies conn.wf(torrents@[k].block_cache) by {
                        if k != j {
                            assert(torrents@[k] == before[k]);
                            if k < j {
                                assert(before[k].info_hash != before[j as int].info_hash);
                            } else {
                                assert(before[j as int].info_hash != before[k].info_hash);
                            }
                        }
                    }
                }
                match result {
                    Ok(_) => Ok((addr, key_id)),
                    Err(e) => Err(e),
                }
            },
        };
        proof {
            lemma_table_push(self.utp_connections@, (addr, key_id, UtpConnection::Established(conn)));
        }
        self.utp_connections.push((addr, key_id, UtpConnection::Established(conn)));
        proof {
            assert(self.conns().remove((addr, key_id)) =~= old(self).conns());
            lemma_table_value(self.utp_connections@, self.utp_connections@.len() - 1);
            if found >= 0 {
                assert(handled_packet(
                    conn0,
                    self.conns()[(addr, key_id)]->Established_0,
                    *header,
                    old(read_buffer).unread_data(),
                    torrents@[found].block_cache,
                    step,
                ));
            }
        }
        result
    }

    /// Handles a packet with header `header` from the peer at `addr`, its data unread in
    /// `read_buffer`. The packet goes to the connection with the packet's connection id, or
    /// else to the one with the next id, which is opened as an incoming connection when
    /// there is none. Once a connection's handshake completes it is promoted: the torrent
    /// must be one of `torrents` and the peer neither connected already nor ourselves; the
    /// connection is then established, noted among the torrent's peers, greeted with our
    /// bitfield, an unchoke and an interest, and handed the packet. Gives the connection's
    /// key.
    pub fn handle_utp_event_more_inner(
        &mut self,
        read_buffer: &mut ReadBuffer,
        header: &Header,
        addr: PeerAddr,
        torrents: &mut Vec<TorrentData>,
    ) -> (r: Result<(PeerAddr, u16), UpdateError>)
        requires
            header.type_number() <= 4,
            old(read_buffer).wf(),
            old(self).wf(old(torrents)@),
            torrents_wf(old(torrents)@),
        ensures
            final(read_buffer).wf(),
            final(self).wf(final(torrents)@),
            torrents_wf(final(torrents)@),
            same_torrents(old(torrents)@, final(torrents)@),
            final(self).spec_peer_id() == old(self).spec_peer_id(),
            packet_outcome(
                old(self).conns(),
                old(torrents)@,
                old(self).spec_peer_id()@,
                addr,
                *header,
                old(read_buffer).unread_data(),
                final(self).conns(),
                final(torrents)@,
                r,
            ),
            ({
                let key = (addr, connection_key(old(self).conns(), addr, header.connection_id));
                let c = old(self).conns()[key];
                let reply = handshake_reply(c, *header, old(read_buffer).unread_data());
                let ih = reply.unwrap().unwrap().0;
                reply is Some && reply.unwrap() is Some && old(self).conns().contains_key(key)
                    && !(c is Established) && r is Ok ==> exists|j: int|
                    0 <= j < old(torrents)@.len() && (#[trigger] old(torrents)@[j]).info_hash@
                        == ih && (old(self).spec_send_buffer().data() + (if c is Incoming {
                        seq![19u8] + pstr() + Seq::new(8, |i: int| 0u8) + ih
                            + c->Incoming_0.spec_peer_id()@
                    } else {
                        Seq::<u8>::empty()
                    }) + greeting(bits(old(torrents)@[j].have_on_disk))).is_prefix_of(
                        final(self).spec_send_buffer().data(),
                    )
            }),
            ({
                let key = (addr, connection_key(old(self).conns(), addr, header.connection_id));
                &&& r matches Ok(p) ==> p == key && final(self).conns().contains_key(key)
                &&& forall|k: (PeerAddr, u16)|
                    k != key ==> (#[trigger] final(self).conns().contains_key(k)) == old(
                        self,
                    ).conns().contains_key(k)
                &&& (old(self).conns().contains_key(key) && old(self).conns()[key] is Established)
                    ==> final(self).conns().contains_key(key) && final(self).conns()[key] is Established
                &&& (final(self).conns().contains_key(key) && final(self).conns()[key] is Established
                    && !(old(self).conns().contains_key(key) && old(self).conns()[key] is Established))
                    ==> final(self).info_hashes().contains_key((addr, header.connection_id))
                    && final(self).info_hashes()[(addr, header.connection_id)]
                    == final(self).conns()[key]->Established_0.spec_info_hash()
                &&& !(old(self).conns().contains_key(key) && old(self).conns()[key] is Established)
                    && final(self).conns().contains_key(key) ==> (r matches Err(
                    UpdateError::TorrentNotManaged { info_hash },
                ) ==> forall|
                    j: int,
                |
                    0 <= j < old(torrents)@.len() ==> (#[trigger] old(torrents)@[j]).info_hash@
                        != info_hash@)
            }),
    {
        let connection_id = header.connection_id;
        let key_id = match find_entry(&self.utp_connections, addr, connection_id) {
            Some(_) => connection_id,
            None => {
                let id = connection_id.wrapping_add(1);
                if find_entry(&self.utp_connections, addr, id).is_none() {
                    let conn = UtpConnection::Incoming(
                        IncomingUtpConnection::new(
                            UtpConnectionInfo::new_from_incoming(addr, header),
                            self.peer_id,
                        ),
                    );
                    proof {
                        lemma_table_push(self.utp_connections@, (addr, id, conn));
                        assert(all_fit(self.utp_connections@.push((addr, id, conn)), torrents@)) by {
                            let w = self.utp_connections@.push((addr, id, conn));
                            assert forall|i: int| 0 <= i < w.len() implies fits_torrents(
                                (#[trigger] w[i]).2,
                                torrents@,
                            ) by {
                                if i < self.utp_connections@.len() {
                                    assert(w[i] == self.utp_connections@[i]);
                                }
                            }
                        }
                    }
                    self.utp_connections.push((addr, id, conn));
                }
                id
            },
        };
        proof {
            assert(key_id == connection_key(old(self).conns(), addr, connection_id));
            assert(self.conns().contains_key((addr, key_id)));
            assert(forall|k: (PeerAddr, u16)|
                k != (addr, key_id) ==> (#[trigger] self.conns().contains_key(k)) == old(
                    self,
                ).conns().contains_key(k));
            assert(old(self).conns().contains_key((addr, key_id)) ==> self.conns()[(addr, key_id)]
                == old(self).conns()[(addr, key_id)]);
        }
        let ghost conns0 = self.conns();
        let index = match find_entry(&self.utp_connections, addr, key_id) {
            Some(i) => i,
            None => {
                return Err(UpdateError::PeerRemoved);
            },
        };
        proof {
            lemma_table_value(self.utp_connections@, index as int);
            lemma_table_remove(self.utp_connections@, index as int);
            assert(fits_torrents(self.utp_connections@[index as int].2, torrents@));
            let w = self.utp_connections@.remove(index as int);
            assert forall|i: int| 0 <= i < w.len() implies fits_torrents(
                (#[trigger] w[i]).2,
                torrents@,
            ) by {
                if i < index {
                    assert(w[i] == self.utp_connections@[i]);
                } else {
                    assert(w[i] == self.utp_connections@[i + 1]);
                }
            }
        }
        let entry = self.utp_connections.remove(index);
        let ghost conns_removed = self.conns();
        proof {
            assert(conns_removed == conns0.remove((addr, key_id)));
        }
        let conn = entry.2;
        let established = match &conn {
            UtpConnection::Established(_) => true,
            _ => false,
        };
        if established {
            match conn {
                UtpConnection::Established(e) => {
                    let r = self.update_established(addr, key_id, e, read_buffer, header, torrents);
                    proof {
                        assert forall|k: (PeerAddr, u16)| k != (addr, key_id) implies (
                        #[trigger] self.conns().contains_key(k)) == old(self).conns().contains_key(
                            k,
                        ) by {
                            assert(self.conns().remove((addr, key_id)).contains_key(k)
                                == self.conns().contains_key(k));
                            assert(conns_removed.contains_key(k) == conns0.contains_key(k));
                        }
                    }
                    return r;
                },
                _ => {
                    return Err(UpdateError::PeerRemoved);
                },
            }
        }
        let mut conn = conn;
        let ghost c0 = conn;
        let ghost sb0 = self.utp_send_buffer.data();
        let handshake = match conn.handshake_update(header, read_buffer, &mut self.utp_send_buffer) {
            Err(err) => {
                proof {
                    lemma_table_push(self.utp_connections@, (addr, key_id, conn));
                }
                self.utp_connections.push((addr, key_id, conn));
                proof {
                    self.lemma_fit_after_push(torrents@, addr, key_id, conn);
                    assert(self.conns().remove((addr, key_id)) =~= conns_removed.remove((addr, key_id)));
                    lemma_same_other_keys(self.conns(), conns_removed, conns0, old(self).conns(), (addr, key_id));
                }
                return Err(err);
            },
            Ok(None) => {
                proof {
                    lemma_table_push(self.utp_connections@, (addr, key_id, conn));
                }
                self.utp_connections.push((addr, key_id, conn));
                proof {
                    self.lemma_fit_after_push(torrents@, addr, key_id, conn);
                    assert(self.conns().remove((addr, key_id)) =~= conns_removed.remove((addr, key_id)));
                    lemma_same_other_keys(self.conns(), conns_removed, conns0, old(self).conns(), (addr, key_id));
                }
                return Ok((addr, key_id));
            },
            Ok(Some(h)) => h,
        };
        let j = match find_torrent(torrents, &handshake.info_hash) {
            None => {
                proof {
                    lemma_table_push(self.utp_connections@, (addr, key_id, conn));
                }
                self.utp_connections.push((addr, key_id, conn));
                proof {
                    self.lemma_fit_after_push(torrents@, addr, key_id, conn);
                    assert(self.conns().remove((addr, key_id)) =~= conns_removed.remove((addr, key_id)));
                    lemma_same_other_keys(self.conns(), conns_removed, conns0, old(self).conns(), (addr, key_id));
                }
                return Err(UpdateError::TorrentNotManaged { info_hash: handshake.info_hash });
            },
            Some(j) => j,
        };
        if torrents[j].peers_data.is_connected(&handshake.peer_id) || same_id(
            &handshake.peer_id,
            &self.peer_id,
        ) {
            proof {
                lemma_table_push(self.utp_connections@, (addr, key_id, conn));
            }
            self.utp_connections.push((addr, key_id, conn));
            proof {
                self.lemma_fit_after_push(torrents@, addr, key_id, conn);
                assert(self.conns().remove((addr, key_id)) =~= conns_removed.remove((addr, key_id)));
                    lemma_same_other_keys(self.conns(), conns_removed, conns0, old(self).conns(), (addr, key_id));
            }
            return Err(UpdateError::CommunicationError(already_exists_error()));
        }
        proof {
            assert(torrents@ == old(torrents)@);
            assert(has_torrent(old(torrents)@, handshake.info_hash@)) by {
                assert(torrents@[j as int].info_hash@ == handshake.info_hash@);
            }
            if peer_connected(old(torrents)@, handshake.info_hash@, handshake.peer_id@) {
                let j2 = choose|j2: int|
                    0 <= j2 < old(torrents)@.len() && (#[trigger] old(torrents)@[j2]).info_hash@
                        == handshake.info_hash@ && old(torrents)@[j2].peers_data.ids().contains(
                        handshake.peer_id@,
                    );
                assert(old(torrents)@[j2].info_hash == old(torrents)@[j as int].info_hash);
                if j2 < j {
                    assert(old(torrents)@[j2].info_hash != old(torrents)@[j as int].info_hash);
                } else if j2 > j {
                    assert(old(torrents)@[j as int].info_hash != old(torrents)@[j2].info_hash);
                }
            }
        }
        let socket = conn.promote();
        self.insert_info_hash(addr, connection_id, handshake.info_hash);
        let ghost before = torrents@;
        let mut t = torrents.remove(j);
        assert(t == before[j as int]);
        t.peers_data.add_connected_id_utp(socket.get_conn_id_recv(), handshake.peer_id, addr);
        let mut promoted = EstablishedUtpConnection::new(
            0,
            handshake.info_hash,
            socket,
            t.piece_info.total_pieces,
        );
        proof {
            t.block_cache.lemma_info_ok();
        }
        let ghost sb1 = self.utp_send_buffer.data();
        let bitfield = Bitfield { bitfield: bitvec_clone(&t.have_on_disk) };
        self.utp_send_buffer.add_message(bitfield);
        self.utp_send_buffer.add_message(Unchoke {});
        self.utp_send_buffer.add_message(Interested {});
        let ghost sb2 = self.utp_send_buffer.data();
        proof {
            assert(sb2 =~= sb1 + greeting(bits(t.have_on_disk)));
        }
        let ghost e0 = promoted;
        let ghost rest = read_buffer.unread_data();
        proof {
            assert(newly_established(e0, handshake.info_hash, t.piece_info.total_pieces));
        }
        let result = promoted.update(
            read_buffer,
            header,
            &mut self.utp_send_buffer,
            &mut t.piece_assigner,
            &mut t.block_cache,
        );
        let ghost outcome = result;
        torrents.insert(j, t);
        proof {
            assert(torrents@ =~= before.update(j as int, t));
            lemma_all_fit_same_torrents(self.utp_connections@, before, torrents@);
            assert(torrents@[j as int] == t);
            assert(rest == old(read_buffer).unread_data().skip(HANDSHAKE_LENGTH as int));
            assert(handled_packet(e0, promoted, *header, rest, torrents@[j as int].block_cache, outcome));
            assert(torrents@[j as int].info_hash == handshake.info_hash) by {
                assert(torrents@[j as int].info_hash@ == handshake.info_hash@);
            }
            assert(newly_established(
                e0,
                torrents@[j as int].info_hash,
                torrents@[j as int].piece_info.total_pieces,
            ));
            assert(torrents@[j as int].peers_data.ids().contains(handshake.peer_id@));
            assert(peer_connected(torrents@, handshake.info_hash@, handshake.peer_id@));
            assert(handshake_reply(c0, *header, old(read_buffer).unread_data()) == Some(
                Some((handshake.info_hash@, handshake.peer_id@)),
            ));
        }
        match result {
            Err(e) => {
                proof {
                    assert(!self.conns().contains_key((addr, key_id)));
                    assert(promoted_handled(
                        *header,
                        old(read_buffer).unread_data(),
                        self.conns(),
                        torrents@,
                        (addr, key_id),
                        handshake.info_hash@,
                        handshake.peer_id@,
                        Err(e),
                    ));
                }
                Err(e)
            },
            Ok(_) => {
                proof {
                    assert(sb0 == old(self).spec_send_buffer().data());
                    lemma_table_push(
                        self.utp_connections@,
                        (addr, key_id, UtpConnection::Established(promoted)),
                    );
                    assert forall|k: int|
                        0 <= k < torrents@.len() && (#[trigger] torrents@[k]).info_hash
                            == promoted.spec_info_hash() implies promoted.wf(
                        torrents@[k].block_cache,
                    ) by {
                        if k != j {
                            assert(torrents@[k] == before[k]);
                            assert(before[j as int].info_hash == handshake.info_hash) by {
                                assert(before[j as int].info_hash@ == handshake.info_hash@);
                            }
                            if k < j {
                                assert(before[k].info_hash != before[j as int].info_hash);
                            } else {
                                assert(before[j as int].info_hash != before[k].info_hash);
                            }
                        }
                    }
                }
                self.utp_connections.push((addr, key_id, UtpConnection::Established(promoted)));
                proof {
                    self.lemma_fit_after_push(
                        torrents@,
                        addr,
                        key_id,
                        UtpConnection::Established(promoted),
                    );
                    lemma_table_value(self.utp_connections@, self.utp_connections@.len() - 1);
                    assert(self.conns()[(addr, key_id)] == UtpConnection::Established(promoted));
                    assert(promoted_handled(
                        *header,
                        old(read_buffer).unread_data(),
                        self.conns(),
                        torrents@,
                        (addr, key_id),
                        handshake.info_hash@,
                        handshake.peer_id@,
                        Ok((addr, key_id)),
                    ));
                }
                Ok((addr, key_id))
            },
        }
    }

    /// A connection put back fits the torrents when it and the others did.
    proof fn lemma_fit_after_push(
        &self,
        torrents: Seq<TorrentData>,
        addr: PeerAddr,
        key_id: u16,
        conn: UtpConnection<PeerAddr>,
    )
        requires
            self.utp_connections@.len() > 0,
            self.utp_connections@.last() == (addr, key_id, conn),
            all_fit(self.utp_connections@.drop_last(), torrents),
            fits_torrents(conn, torrents),
        ensures
            all_fit(self.utp_connections@, torrents),
    {
        let v = self.utp_connections@;
        assert forall|i: int| 0 <= i < v.len() implies fits_torrents((#[trigger] v[i]).2, torrents) by {
            if i < v.len() - 1 {
                assert(v[i] == v.drop_last()[i]);
            }
        }
    }

    /// Handles a packet received from `addr`, its bytes unread in `read_buffer`: DHT
    /// traffic (a packet that is not a bare header and starts with `d`), a packet shorter
    /// than a header and one of an unknown type are ignored; another goes to its connection
    /// after its header.
    pub fn handle_packet(
        &mut self,
        read_buffer: &mut ReadBuffer,
        addr: PeerAddr,
        torrents: &mut Vec<TorrentData>,
    ) -> (r: PacketOutcome)
        requires
            old(read_buffer).wf(),
            old(self).wf(old(torrents)@),
            torrents_wf(old(torrents)@),
        ensures
            final(read_buffer).wf(),
            final(self).wf(final(torrents)@),
            torrents_wf(final(torrents)@),
            same_torrents(old(torrents)@, final(torrents)@),
            ({
                let data = old(read_buffer).unread_data();
                &&& (data.len() < HEADER_SIZE || (data.len() != HEADER_SIZE && data[0] == 100u8))
                    ==> r is Ignored && *final(self) == *old(self)
                &&& (r is Ignored) == (data.len() < HEADER_SIZE || (data.len() != HEADER_SIZE
                    && data[0] == 100u8) || from_be16(data.subrange(0, 2)) / 4096 > 4)
                &&& r is Ignored ==> *final(self) == *old(self)
                &&& !(r is Ignored) ==> exists|h: Header|
                    #[trigger] h.spec_bytes() == data.take(HEADER_SIZE as int) && match r {
                        PacketOutcome::Handled { addr: a, connection_id: k } => packet_outcome(
                            old(self).conns(),
                            old(torrents)@,
                            old(self).spec_peer_id()@,
                            addr,
                            h,
                            data.skip(HEADER_SIZE as int),
                            final(self).conns(),
                            final(torrents)@,
                            Ok((a, k)),
                        ),
                        PacketOutcome::Failed { error, .. } => packet_outcome(
                            old(self).conns(),
                            old(torrents)@,
                            old(self).spec_peer_id()@,
                            addr,
                            h,
                            data.skip(HEADER_SIZE as int),
                            final(self).conns(),
                            final(torrents)@,
                            Err(error),
                        ),
                        PacketOutcome::Ignored => false,
                    }
                &&& r matches PacketOutcome::Handled { addr: a, connection_id: k } ==> a == addr
                    && final(self).conns().contains_key((a, k))
                &&& r matches PacketOutcome::Failed { addr: a, connection_id: k, .. } ==> a
                    == addr && k == from_be16(data.subrange(2, 4))
            }),
    {
        let read = read_buffer.unread();
        if read != HEADER_SIZE && read > 0 && read_buffer.get_unread()[0] == 100u8 {
            return PacketOutcome::Ignored;
        }
        let header = match Header::read_from(read_buffer.get_unread()) {
            None => {
                return PacketOutcome::Ignored;
            },
            Some(h) => h,
        };
        proof {
            lemma_fields(header);
            assert(header.spec_bytes().subrange(0, 2) =~= old(read_buffer).unread_data().subrange(0, 2));
        }
        read_buffer.consume(HEADER_SIZE);
        if header.type_ver_extension / 4096 > 4 {
            return PacketOutcome::Ignored;
        }
        proof {
            lemma_fields(header);
            assert(header.spec_bytes().subrange(2, 4) =~= old(read_buffer).unread_data().subrange(2, 4));
        }
        match self.handle_utp_event_more_inner(read_buffer, &header, addr, torrents) {
            Ok((a, k)) => PacketOutcome::Handled { addr: a, connection_id: k },
            Err(e) => PacketOutcome::Failed { addr, connection_id: header.connection_id, error: e },
        }
    }

    /// Drops, once a round of packets was handled, the connection of each packet that
    /// failed, in the order of `outcomes`, with its peer from its torrent's peers.
    pub fn disconnect_failed(&mut self, outcomes: Vec<PacketOutcome>, torrents: &mut Vec<TorrentData>)
        requires
            old(self).wf(old(torrents)@),
            torrents_wf(old(torrents)@),
        ensures
            final(self).wf(final(torrents)@),
            torrents_wf(final(torrents)@),
            same_torrents(old(torrents)@, final(torrents)@),
            final(self).conns() == without_failed(old(self).conns(), outcomes@),
    {
        let ghost all = outcomes@;
        let total = outcomes.len();
        let mut outcomes = outcomes;
        let mut done: usize = 0;
        while outcomes.len() > 0
            invariant
                self.wf(torrents@),
                torrents_wf(torrents@),
                same_torrents(old(torrents)@, torrents@),
                done + outcomes@.len() == all.len(),
                all.len() == total,
                outcomes@ == all.skip(done as int),
                self.conns() == without_failed(old(self).conns(), all.take(done as int)),
            decreases outcomes@.len(),
        {
            let ghost before = torrents@;
            let outcome = outcomes.remove(0);
            proof {
                assert(all.take(done + 1).drop_last() =~= all.take(done as int));
                assert(all.take(done + 1).last() == outcome);
                assert(outcomes@ =~= all.skip(done + 1));
            }
            match outcome {
                PacketOutcome::Failed { addr, connection_id, error } => {
                    self.disconnect_peer_utp(addr, connection_id, error, torrents);
                },
                _ => {},
            }
            done = done + 1;
        }
        assert(all.take(done as int) =~= all);
    }

    /// Drops the connection with the peer at `addr` sending with `id`, and the peer from
    /// its torrent's peers. Gives `addr` when there was such a connection.
    pub fn disconnect_peer_utp(
        &mut self,
        addr: PeerAddr,
        id: u16,
        error: UpdateError,
        torrents: &mut Vec<TorrentData>,
    ) -> (r: Option<PeerAddr>)
        requires
            old(self).wf(old(torrents)@),
            torrents_wf(old(torrents)@),
        ensures
            final(self).wf(final(torrents)@),
            torrents_wf(final(torrents)@),
            same_torrents(old(torrents)@, final(torrents)@),
            final(self).conns() == old(self).conns().remove((addr, id)),
            final(self).info_hashes() == old(self).info_hashes().remove((addr, id)),
            r == if old(self).conns().contains_key((addr, id)) {
                Some(addr)
            } else {
                None::<PeerAddr>
            },
            forall|j: int|
                0 <= j < old(torrents)@.len() ==> {
                    let before = old(torrents)@[j];
                    let after = (#[trigger] final(torrents)@[j]);
                    if old(self).info_hashes().contains_key((addr, id)) && old(
                        self,
                    ).info_hashes()[(addr, id)]@ == before.info_hash@ {
                        after.peers_data.utp() == before.peers_data.utp().remove((addr, id))
                            && after.peers_data.addrs() == before.peers_data.addrs().remove(addr)
                    } else {
                        after == before
                    }
                },
    {
        match find_entry(&self.addr_to_info_hash, addr, id) {
            Some(i) => {
                proof {
                    lemma_table_value(self.addr_to_info_hash@, i as int);
                    lemma_table_remove(self.addr_to_info_hash@, i as int);
                }
                let entry = self.addr_to_info_hash.remove(i);
                let info_hash = entry.2;
                match find_torrent(torrents, &info_hash) {
                    Some(j) => {
                        let ghost before = torrents@;
                        let mut t = torrents.remove(j);
                        assert(t == before[j as int]);
                        t.peers_data.disconnected_utp(addr, id);
                        torrents.insert(j, t);
                        proof {
                            assert(torrents@ =~= before.update(j as int, t));
                            lemma_all_fit_same_torrents(self.utp_connections@, before, torrents@);
                            assert forall|k: int| 0 <= k < before.len() && k != j implies before[k].info_hash@
                                != info_hash@ by {
                                if before[k].info_hash@ == info_hash@ {
                                    assert(before[k].info_hash == before[j as int].info_hash) by {
                                        assert(before[k].info_hash@ == before[j as int].info_hash@);
                                    }
                                    if k < j {
                                        assert(before[k].info_hash != before[j as int].info_hash);
                                    } else {
                                        assert(before[j as int].info_hash != before[k].info_hash);
                                    }
                                }
                            }
                        }
                    },
                    None => {},
                }
            },
            None => {
                assert(self.info_hashes() =~= old(self).info_hashes().remove((addr, id)));
            },
        }
        match find_entry(&self.utp_connections, addr, id) {
            Some(i) => {
                proof {
                    lemma_table_remove(self.utp_connections@, i as int);
                    let v = self.utp_connections@;
                    let w = v.remove(i as int);
                    assert forall|k: int| 0 <= k < w.len() implies fits_torrents(
                        (#[trigger] w[k]).2,
                        torrents@,
                    ) by {
                        if k < i {
                            assert(w[k] == v[k]);
                        } else {
                            assert(w[k] == v[k + 1]);
                        }
                    }
                }
                self.utp_connections.remove(i);
                Some(addr)
            },
            None => {
                assert(self.conns() =~= old(self).conns().remove((addr, id)));
                None
            },
        }
    }

    /// Opens a connection to `peer_info` for `torrent`: a SYN is queued. Once it is sent,
    /// the connection is added with `add_outgoing`.
    pub fn connect_to(&mut self, torrent: &TorrentData, peer_info: PeerInfo) -> (r:
        OutgoingUtpConnection<PeerAddr>)
        ensures
            r.spec_state() == OutgoingUtpState::CsSynSent,
            r.spec_info_hash() == torrent.info_hash,
            r.spec_peer_id() == old(self).spec_peer_id(),
            r.spec_socket().spec_addr() == peer_info.addr,
            r.spec_socket().spec_seq_nr() == 1,
            final(self).spec_send_buffer().headers() == old(self).spec_send_buffer().headers().push(
                Type::StSyn,
            ),
            final(self).spec_send_buffer().data() == old(self).spec_send_buffer().data(),
            final(self).conns() == old(self).conns(),
            final(self).info_hashes() == old(self).info_hashes(),
            final(self).spec_peer_id() == old(self).spec_peer_id(),
            forall|t: Seq<TorrentData>| old(self).wf(t) ==> final(self).wf(t),
    {
        let connection = OutgoingUtpConnection::new(
            UtpConnectionInfo::new(peer_info.addr),
            torrent.info_hash,
            self.peer_id,
        );
        self.utp_send_buffer.add_header(Type::StSyn);
        connection
    }

    /// Adds `connection`, opened by `connect_to` to `peer_info` and whose SYN was sent,
    /// under its id, and notes the peer among `torrent`'s peers.
    pub fn add_outgoing(
        &mut self,
        torrent: &mut TorrentData,
        peer_info: PeerInfo,
        connection: OutgoingUtpConnection<PeerAddr>,
    )
        requires
            old(torrent).wf(),
            old(self).table_ok(),
        ensures
            final(self).table_ok(),
            final(torrent).wf(),
            final(torrent).info_hash == old(torrent).info_hash,
            final(torrent).piece_info == old(torrent).piece_info,
            final(torrent).block_cache == old(torrent).block_cache,
            final(torrent).peers_data.ids() == with_id(old(torrent).peers_data.ids(), peer_info),
            final(torrent).peers_data.addrs() == old(torrent).peers_data.addrs().insert(
                peer_info.addr,
            ),
            final(self).conns() == old(self).conns().insert(
                (peer_info.addr, connection.spec_socket().spec_conn_id_recv()),
                UtpConnection::Outgoing(connection),
            ),
            final(self).info_hashes() == old(self).info_hashes(),
            final(self).spec_peer_id() == old(self).spec_peer_id(),
            forall|t: Seq<TorrentData>| old(self).fits(t) ==> final(self).fits(t),
    {
        let connection_id = connection.socket_id();
        torrent.peers_data.connected_utp(connection_id, peer_info);
        let entry = (peer_info.addr, connection_id, UtpConnection::Outgoing(connection));
        match find_entry(&self.utp_connections, peer_info.addr, connection_id) {
            Some(i) => {
                proof {
                    lemma_table_update(self.utp_connections@, i as int, entry);
                    let v = self.utp_connections@;
                    let w = v.update(i as int, entry);
                    assert forall|t: Seq<TorrentData>| all_fit(v, t) implies all_fit(w, t) by {
                        assert forall|k: int| 0 <= k < w.len() implies fits_torrents(
                            (#[trigger] w[k]).2,
                            t,
                        ) by {
                            if k != i {
                                assert(w[k] == v[k]);
                            }
                        }
                    }
                }
                self.utp_connections.set(i, entry);
            },
            None => {
                proof {
                    lemma_table_push(self.utp_connections@, entry);
                    let v = self.utp_connections@;
                    let w = v.push(entry);
                    assert forall|t: Seq<TorrentData>| all_fit(v, t) implies all_fit(w, t) by {
                        assert forall|k: int| 0 <= k < w.len() implies fits_torrents(
                            (#[trigger] w[k]).2,
                            t,
                        ) by {
                            if k < v.len() {
                                assert(w[k] == v[k]);
                            }
                        }
                    }
                }
                self.utp_connections.push(entry);
            },
        }
    }

    /// The header of a block message to be sent on the established connection with the
    /// peer at `addr` receiving with `conn_id`; its sequence number advances. `None` when
    /// there is no such connection.
    pub fn block_header(&mut self, addr: PeerAddr, conn_id: u16) -> (r: Option<Header>)
        requires
            old(self).table_ok(),
        ensures
            final(self).conns().dom() == old(self).conns().dom(),
            final(self).info_hashes() == old(self).info_hashes(),
            final(self).spec_peer_id() == old(self).spec_peer_id(),
            final(self).table_ok(),
            forall|t: Seq<TorrentData>| old(self).wf(t) ==> final(self).wf(t),
            !(old(self).conns().contains_key((addr, conn_id)) && old(self).conns()[(
            addr,
            conn_id,
            )] is Established) ==> r is None && *final(self) == *old(self),
            old(self).conns().contains_key((addr, conn_id)) && old(self).conns()[(addr, conn_id)]
                is Established ==> ({
                let e0 = old(self).conns()[(addr, conn_id)]->Established_0;
                let c1 = final(self).conns()[(addr, conn_id)];
                &&& final(self).conns() == old(self).conns().insert((addr, conn_id), c1)
                &&& c1 is Established
                &&& moved_seq(e0, c1->Established_0, (e0.spec_stream().spec_seq_nr() + 1) % 65536)
                &&& r matches Some(h) && h.type_ver_extension == 256 && h.seq_nr
                    == e0.spec_stream().spec_seq_nr() && h.ack_nr == e0.spec_stream().spec_ack_nr()
                    && h.connection_id == e0.spec_stream().spec_conn_id_send()
            }),
    {
        self.on_established(addr, conn_id, 0, true)
    }

    /// Takes note that a block message went out in `sent` packets, after the header from
    /// `block_header`, on the established connection with the peer at `addr` receiving
    /// with `conn_id`: the sequence number advances by the packets after the first.
    pub fn block_sent(&mut self, addr: PeerAddr, conn_id: u16, sent: usize)
        requires
            old(self).table_ok(),
            sent >= 1,
        ensures
            final(self).conns().dom() == old(self).conns().dom(),
            final(self).info_hashes() == old(self).info_hashes(),
            final(self).spec_peer_id() == old(self).spec_peer_id(),
            final(self).table_ok(),
            forall|t: Seq<TorrentData>| old(self).wf(t) ==> final(self).wf(t),
            !(old(self).conns().contains_key((addr, conn_id)) && old(self).conns()[(addr, conn_id)]
                is Established) ==> *final(self) == *old(self),
            old(self).conns().contains_key((addr, conn_id)) && old(self).conns()[(addr, conn_id)]
                is Established ==> ({
                let e0 = old(self).conns()[(addr, conn_id)]->Established_0;
                let c1 = final(self).conns()[(addr, conn_id)];
                &&& final(self).conns() == old(self).conns().insert((addr, conn_id), c1)
                &&& c1 is Established
                &&& moved_seq(
                    e0,
                    c1->Established_0,
                    (e0.spec_stream().spec_seq_nr() + (sent - 1) % 65536) % 65536,
                )
            }),
    {
        self.on_established(addr, conn_id, sent - 1, false);
    }

    /// On the established connection with key `(addr, conn_id)`, if there is one, makes a
    /// data header when `header`, else advances the sequence number by `advance`.
    fn on_established(&mut self, addr: PeerAddr, conn_id: u16, advance: usize, header: bool) -> (r:
        Option<Header>)
        requires
            old(self).table_ok(),
        ensures
            final(self).conns().dom() == old(self).conns().dom(),
            final(self).info_hashes() == old(self).info_hashes(),
            final(self).spec_peer_id() == old(self).spec_peer_id(),
            final(self).table_ok(),
            forall|t: Seq<TorrentData>| old(self).wf(t) ==> final(self).wf(t),
            !(old(self).conns().contains_key((addr, conn_id)) && old(self).conns()[(
            addr,
            conn_id,
            )] is Established) ==> r is None && *final(self) == *old(self),
            old(self).conns().contains_key((addr, conn_id)) && old(self).conns()[(addr, conn_id)]
                is Established ==> ({
                let e0 = old(self).conns()[(addr, conn_id)]->Established_0;
                let c1 = final(self).conns()[(addr, conn_id)];
                &&& final(self).conns() == old(self).conns().insert((addr, conn_id), c1)
                &&& c1 is Established
                &&& header ==> (r matches Some(h) && h.type_ver_extension == 256 && h.seq_nr
                    == e0.spec_stream().spec_seq_nr() && h.ack_nr == e0.spec_stream().spec_ack_nr()
                    && h.connection_id == e0.spec_stream().spec_conn_id_send())
                &&& header ==> moved_seq(
                    e0,
                    c1->Established_0,
                    (e0.spec_stream().spec_seq_nr() + 1) % 65536,
                )
                &&& !header ==> moved_seq(
                    e0,
                    c1->Established_0,
                    (e0.spec_stream().spec_seq_nr() + advance % 65536) % 65536,
                ) && r is None
            }),
    {
        let i = match find_entry(&self.utp_connections, addr, conn_id) {
            Some(i) => i,
            None => {
                return None;
            },
        };
        let is_established = match &self.utp_connections[i].2 {
            UtpConnection::Established(_) => true,
            _ => false,
        };
        if !is_established {
            proof {
                lemma_table_value(self.utp_connections@, i as int);
            }
            return None;
        }
        let ghost v = self.utp_connections@;
        let entry = self.utp_connections.remove(i);
        let (a, k, conn) = entry;
        let (r, conn) = match conn {
            UtpConnection::Established(mut e) => {
                let r = if header {
                    Some(e.get_utp_header())
                } else {
                    e.add_seq_nr(advance);
                    None
                };
                (r, UtpConnection::Established(e))
            },
            other => (None, other),
        };
        self.utp_connections.insert(i, (a, k, conn));
        proof {
            let w = self.utp_connections@;
            assert(w =~= v.update(i as int, (a, k, conn)));
            assert forall|t: Seq<TorrentData>| old(self).wf(t) implies self.wf(t) by {
                lemma_table_update(v, i as int, (a, k, conn));
                assert forall|j: int| 0 <= j < w.len() implies fits_torrents((#[trigger] w[j]).2, t) by {
                    if j != i {
                        assert(w[j] == v[j]);
                    } else {
                        assert(fits_torrents(v[j].2, t));
                    }
                }
            }
            lemma_table_update(v, i as int, (a, k, conn));
            lemma_table_value(v, i as int);
            assert(self.conns().dom() =~= old(self).conns().dom());
        }
        r
    }
}

} // verus!