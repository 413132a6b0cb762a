use rustytorrent::client::utp::packets::{plan_packets, PacketPlan};
use bit_vec::BitVec;
use rustytorrent::client::block_cache::BlockCache;
use rustytorrent::client::connection_manager::{
    add_peers, connect_peers, start_torrent, ConnectionManagerConfig, TorrentData,
};
use rustytorrent::common::meta_info::MetaInfo;
use rustytorrent::client::peers_data::{PeerAddr, PeerInfo, PeersData};
use rustytorrent::client::utp::connection_manager::{PacketOutcome, UtpConnectionManager};
use rustytorrent::client::connection::{UpdateError, UpdateSuccess};
use rustytorrent::client::piece_assigner::PieceAssigner;
use rustytorrent::client::piece_info::PieceInfo;
use rustytorrent::client::utp::established::EstablishedUtpConnection;
use rustytorrent::client::utp::{
    Header, IncomingUtpConnection, Type, UtpConnection, UtpConnectionInfo, UtpSendBuffer,
};
use rustytorrent::common::hash::hash_to_bytes;
use rustytorrent::io::ReadBuffer;
use rustytorrent::message::{Bitfield, Handshake, Have, ProtocolMessage};

fn info() -> PieceInfo {
    PieceInfo { total_length: 40000, piece_length: 32768, total_pieces: 2 }
}

fn header(t: Type, seq_nr: u16) -> Header {
    Header::new(t, 7, 0, 0, 0, seq_nr, 0)
}

fn message_bytes<T: ProtocolMessage>(m: &T) -> Vec<u8> {
    let mut out = Vec::new();
    m.write(&mut out);
    out
}

fn connection() -> EstablishedUtpConnection<u8> {
    let syn = header(Type::StSyn, 5);
    let mut stream = UtpConnectionInfo::new_from_incoming(1u8, &syn);
    stream.process_header(&syn);
    let mut conn = EstablishedUtpConnection::new(3, [1; 20], stream, 2);
    let mut probe = ReadBuffer::new(16);
    let mut send = UtpSendBuffer::new();
    let mut cache = BlockCache::new([1; 20], info(), BitVec::from_elem(2, false), vec![[0; 20]; 2]);
    let mut assigner = PieceAssigner::new(info(), &BitVec::from_elem(2, false));
    // An acknowledgement changes nothing.
    let r = conn.update(&mut probe, &header(Type::StState, 1), &mut send, &mut assigner, &mut cache);
    assert!(matches!(r, Ok(UpdateSuccess::NoUpdate)));
    assert!(send.take_headers().is_empty());
    conn
}

#[test]
fn utp_packets_are_read_in_sequence_order() {
    let mut conn = connection();
    let mut cache = BlockCache::new([1; 20], info(), BitVec::from_elem(2, false), vec![[0; 20]; 2]);
    let mut assigner = PieceAssigner::new(info(), &BitVec::from_elem(2, false));
    let mut send = UtpSendBuffer::new();

    let mut early = ReadBuffer::new(64);
    early.write(&message_bytes(&Have { index: 1 })).unwrap();
    let r = conn.update(&mut early, &header(Type::StData, 6), &mut send, &mut assigner, &mut cache);
    assert!(matches!(r, Ok(UpdateSuccess::NoUpdate)));
    assert_eq!(conn.stream.ack_nr, 6);
    assert_eq!(send.take_headers(), vec![Type::StState]);
    assert!(send.take_data().is_empty());

    let mut first = ReadBuffer::new(64);
    first.write(&message_bytes(&Have { index: 0 })).unwrap();
    let r = conn.update(&mut first, &header(Type::StData, 5), &mut send, &mut assigner, &mut cache);
    assert!(matches!(r, Ok(UpdateSuccess::Transferred { downloaded: 9, uploaded: 0 })));
    assert_eq!(send.take_headers(), vec![Type::StState]);
    // The peer has both pieces now: their three blocks are requested.
    assert_eq!(send.take_data().len(), 3 * 17);
}

#[test]
fn utp_block_spanning_packets_completes_its_piece() {
    let mut conn = connection();
    let piece1 = vec![9u8; 7232];
    let hashes = vec![hash_to_bytes(&vec![0u8; 32768]), hash_to_bytes(&piece1)];
    let mut cache = BlockCache::new([1; 20], info(), BitVec::from_elem(2, false), hashes);
    let mut assigner = PieceAssigner::new(info(), &BitVec::from_elem(2, false));
    let mut send = UtpSendBuffer::new();

    let mut buffer = ReadBuffer::new(1 << 14);
    buffer.write(&message_bytes(&Bitfield { bitfield: BitVec::from_bytes(&[0xc0]) })).unwrap();
    let r = conn.update(&mut buffer, &header(Type::StData, 5), &mut send, &mut assigner, &mut cache);
    assert!(matches!(r, Ok(UpdateSuccess::Success) | Ok(UpdateSuccess::Transferred { .. })));
    assert_eq!(send.take_data().len(), 3 * 17);

    let mut message = Vec::new();
    message.extend_from_slice(&7241u32.to_be_bytes());
    message.push(7);
    message.extend_from_slice(&1u32.to_be_bytes());
    message.extend_from_slice(&0u32.to_be_bytes());
    message.extend_from_slice(&piece1);
    buffer.write(&message[..1013]).unwrap();
    conn.update(&mut buffer, &header(Type::StData, 6), &mut send, &mut assigner, &mut cache).unwrap();
    assert!(conn.completed_pieces.is_empty());
    buffer.write(&message[1013..]).unwrap();
    conn.update(&mut buffer, &header(Type::StData, 7), &mut send, &mut assigner, &mut cache).unwrap();
    assert_eq!(conn.completed_pieces.len(), 1);
    assert_eq!(conn.completed_pieces[0].index, 1);
    assert_eq!(conn.completed_pieces[0].piece, piece1);
    assert_eq!((cache.have_maybe_unwritten_to_disk()).get(1), Some(true));
}

#[test]
fn utp_short_message_is_kept_for_the_next_packet() {
    let mut conn = connection();
    let mut cache = BlockCache::new([1; 20], info(), BitVec::from_elem(2, false), vec![[0; 20]; 2]);
    let mut assigner = PieceAssigner::new(info(), &BitVec::from_elem(2, false));
    let mut send = UtpSendBuffer::new();
    let have = message_bytes(&Have { index: 1 });
    let mut buffer = ReadBuffer::new(64);
    buffer.write(&have[..3]).unwrap();
    let r = conn.update(&mut buffer, &header(Type::StData, 5), &mut send, &mut assigner, &mut cache);
    assert!(matches!(r, Ok(UpdateSuccess::NoUpdate)));
    buffer.write(&have[3..]).unwrap();
    let r = conn.update(&mut buffer, &header(Type::StData, 6), &mut send, &mut assigner, &mut cache);
    assert!(r.is_ok());
    // Reading the peer's piece makes the connection request its blocks.
    assert_eq!(send.take_data().len(), 17);
}

#[test]
fn utp_other_packet_types_break_the_protocol() {
    let mut conn = connection();
    let mut cache = BlockCache::new([1; 20], info(), BitVec::from_elem(2, false), vec![[0; 20]; 2]);
    let mut assigner = PieceAssigner::new(info(), &BitVec::from_elem(2, false));
    let mut send = UtpSendBuffer::new();
    let mut buffer = ReadBuffer::new(16);
    let r = conn.update(&mut buffer, &header(Type::StFin, 5), &mut send, &mut assigner, &mut cache);
    assert!(matches!(r, Err(UpdateError::CommunicationError(_))));
    assert!(send.take_headers().is_empty());
}

#[test]
fn utp_sequence_numbers_advance() {
    let mut conn = connection();
    let seq = conn.stream.seq_nr;
    let h = conn.get_utp_header();
    assert_eq!(h.seq_nr, seq);
    assert_eq!(h.get_type(), Type::StData);
    assert_eq!(conn.stream.seq_nr, seq.wrapping_add(1));
    conn.add_seq_nr(65537);
    assert_eq!(conn.stream.seq_nr, seq.wrapping_add(2));
}

#[test]
fn utp_connection_goes_through_its_stages() {
    let syn = header(Type::StSyn, 5);
    let stream = UtpConnectionInfo::new_from_incoming(1u8, &syn);
    let mut conn = UtpConnection::Incoming(IncomingUtpConnection::new(stream, [3; 20]));
    let mut cache = BlockCache::new([1; 20], info(), BitVec::from_elem(2, false), vec![[0; 20]; 2]);
    let mut assigner = PieceAssigner::new(info(), &BitVec::from_elem(2, false));
    let mut send = UtpSendBuffer::new();
    let mut buffer = ReadBuffer::new(200);
    let r = conn.update(&syn, &mut buffer, &mut send, &mut assigner, &mut cache);
    assert!(matches!(r, Ok(None)));
    assert_eq!(conn.connection_info().ack_nr, 5);
    buffer.write(&[0u8; 68]).unwrap();
    let r = conn.update(&header(Type::StData, 6), &mut buffer, &mut send, &mut assigner, &mut cache);
    assert!(matches!(r, Err(UpdateError::CommunicationError(_))));
    buffer.clear();
    let mut bytes = Vec::new();
    Handshake { info_hash: [4; 20], peer_id: [5; 20] }.write_to(&mut bytes);
    buffer.write(&bytes).unwrap();
    let r = conn.update(&header(Type::StData, 6), &mut buffer, &mut send, &mut assigner, &mut cache);
    match r {
        Ok(Some(h)) => assert_eq!(h.peer_id, [5; 20]),
        _ => panic!("expected the handshake"),
    }
    let socket = conn.promote();
    assert_eq!(socket.ack_nr, 6);
}

fn torrent() -> TorrentData {
    TorrentData {
        info_hash: [4; 20],
        piece_assigner: PieceAssigner::new(info(), &BitVec::from_elem(2, false)),
        downloaded: 0,
        uploaded: 0,
        piece_info: info(),
        block_cache: BlockCache::new([4; 20], info(), BitVec::from_elem(2, false), vec![[0; 20]; 2]),
        have_on_disk: BitVec::from_elem(2, false),
        peers_data: PeersData::new(),
    }
}

fn packet(h: Header, payload: &[u8]) -> ReadBuffer {
    let mut bytes = Vec::new();
    h.write_to(&mut bytes);
    bytes.extend_from_slice(payload);
    let mut buffer = ReadBuffer::new(512);
    buffer.write(&bytes).unwrap();
    buffer
}

#[test]
fn utp_manager_promotes_a_connection_after_the_handshake() {
    let peer = PeerAddr { ip: 0x7f00_0001, v6: false, port: 6881 };
    let mut torrents = vec![torrent()];
    let mut manager = UtpConnectionManager::new([3; 20]);

    let mut dht = ReadBuffer::new(64);
    dht.write(b"d1:ad2:id20:abcdefghij0123456789e").unwrap();
    assert!(matches!(manager.handle_packet(&mut dht, peer, &mut torrents), PacketOutcome::Ignored));
    let mut short = ReadBuffer::new(64);
    short.write(&[0u8; 10]).unwrap();
    assert!(matches!(manager.handle_packet(&mut short, peer, &mut torrents), PacketOutcome::Ignored));

    let mut syn = packet(Header::new(Type::StSyn, 7, 0, 0, 0, 5, 0), &[]);
    match manager.handle_packet(&mut syn, peer, &mut torrents) {
        PacketOutcome::Handled { addr, connection_id } => {
            assert_eq!(addr, peer);
            assert_eq!(connection_id, 8);
        }
        _ => panic!("expected the SYN to open a connection"),
    }
    assert_eq!(manager.utp_send_buffer.take_headers(), vec![Type::StState]);

    let mut hs = Vec::new();
    Handshake { info_hash: [4; 20], peer_id: [5; 20] }.write_to(&mut hs);
    let mut data = packet(Header::new(Type::StData, 7, 0, 0, 0, 6, 0), &hs);
    assert!(matches!(
        manager.handle_packet(&mut data, peer, &mut torrents),
        PacketOutcome::Handled { connection_id: 8, .. }
    ));
    assert!(torrents[0].peers_data.is_connected(&[5; 20]));
    let mut expected = Vec::new();
    Handshake { info_hash: [4; 20], peer_id: [3; 20] }.write_to(&mut expected);
    expected.extend(message_bytes(&Bitfield { bitfield: BitVec::from_elem(2, false) }));
    expected.extend(message_bytes(&rustytorrent::message::Unchoke {}));
    expected.extend(message_bytes(&rustytorrent::message::Interested {}));
    assert_eq!(manager.utp_send_buffer.take_data(), expected);

    let mut have = packet(Header::new(Type::StData, 7, 0, 0, 0, 7, 0), &message_bytes(&Have { index: 0 }));
    assert!(matches!(
        manager.handle_packet(&mut have, peer, &mut torrents),
        PacketOutcome::Handled { connection_id: 8, .. }
    ));
    assert_eq!(manager.utp_send_buffer.take_data().len(), 2 * 17);

    assert_eq!(manager.disconnect_peer_utp(peer, 8, UpdateError::PeerRemoved, &mut torrents), Some(peer));
    assert_eq!(manager.disconnect_peer_utp(peer, 8, UpdateError::PeerRemoved, &mut torrents), None);
}

#[test]
fn utp_manager_refuses_a_handshake_for_an_unknown_torrent() {
    let peer = PeerAddr { ip: 0x7f00_0002, v6: false, port: 6881 };
    let mut torrents = vec![torrent()];
    let mut manager = UtpConnectionManager::new([3; 20]);
    let mut syn = packet(Header::new(Type::StSyn, 20, 0, 0, 0, 1, 0), &[]);
    manager.handle_packet(&mut syn, peer, &mut torrents);
    let mut hs = Vec::new();
    Handshake { info_hash: [9; 20], peer_id: [5; 20] }.write_to(&mut hs);
    let mut data = packet(Header::new(Type::StData, 20, 0, 0, 0, 2, 0), &hs);
    match manager.handle_packet(&mut data, peer, &mut torrents) {
        PacketOutcome::Failed { addr, connection_id, error: UpdateError::TorrentNotManaged { info_hash } } => {
            assert_eq!(addr, peer);
            assert_eq!(connection_id, 20);
            assert_eq!(info_hash, [9; 20]);
        }
        _ => panic!("expected the torrent to be unknown"),
    }
}

#[test]
fn starting_a_torrent_replaces_one_with_the_same_hash() {
    let meta = MetaInfo {
        announce: String::from("http://tracker"),
        piece_length: 32768,
        pieces: vec![[0; 20], [1; 20]],
        files: Vec::new(),
        total_size: 40000,
        info_hash_raw: [4; 20],
        info_hash_uri: String::new(),
    };
    let mut torrents = vec![torrent()];
    torrents[0].downloaded = 7;
    start_torrent(&mut torrents, &meta, BitVec::from_elem(2, false));
    assert_eq!(torrents.len(), 1);
    assert_eq!(torrents[0].downloaded, 0);
    let other = MetaInfo { info_hash_raw: [8; 20], ..meta };
    start_torrent(&mut torrents, &other, BitVec::from_elem(2, true));
    assert_eq!(torrents.len(), 2);
    assert_eq!(torrents[1].info_hash, [8; 20]);
    assert!(torrents[1].block_cache.done());
    assert!(!torrents[0].block_cache.done());
}

#[test]
fn tracker_peers_are_connected_as_room_allows() {
    let mut torrents = vec![torrent()];
    let peers: Vec<PeerInfo> = (1..=5u16)
        .map(|i| PeerInfo { addr: PeerAddr { ip: 0x0a00_0000 + i as u128, v6: false, port: 6881 }, id: None })
        .collect();
    add_peers(&mut torrents, &[9; 20], peers.clone());
    assert!(!torrents[0].peers_data.have_unconnected());
    add_peers(&mut torrents, &[4; 20], peers);
    assert!(torrents[0].peers_data.have_unconnected());
    assert!(connect_peers(&mut torrents, &[4; 20], &config(10), 10).is_empty());
    let first = connect_peers(&mut torrents, &[4; 20], &config(10), 7);
    assert_eq!(first.len(), 3);
    assert_eq!(first[0].addr.ip, 0x0a00_0001);
    let rest = connect_peers(&mut torrents, &[4; 20], &config(100), 0);
    assert_eq!(rest.len(), 2);
    assert_eq!(rest[1].addr.ip, 0x0a00_0005);
    assert!(connect_peers(&mut torrents, &[4; 20], &config(100), 0).is_empty());
}

fn config(max_peers: usize) -> ConnectionManagerConfig {
    ConnectionManagerConfig { listen_port: 6881, max_peers, seed: false, print_output: false }
}

#[test]
fn block_packets_carry_the_prefix_first_and_fill_each_packet() {
    let plan = plan_packets(65535, 30, 3, 25);
    assert_eq!(
        plan,
        vec![
            PacketPlan { seq_nr: 65535, prefix_len: 3, start: 0, end: 7 },
            PacketPlan { seq_nr: 0, prefix_len: 0, start: 7, end: 17 },
            PacketPlan { seq_nr: 1, prefix_len: 0, start: 17, end: 25 },
        ]
    );
    let block = plan_packets(10, 1500, 13, 16384);
    assert_eq!(block.len(), 12);
    assert_eq!(block[0].end, 1467);
    assert_eq!(block[11].end, 16384);
}

#[test]
fn utp_kept_bytes_are_read_before_the_next_packet() {
    let mut conn = connection();
    let mut cache = BlockCache::new([1; 20], info(), BitVec::from_elem(2, false), vec![[0; 20]; 2]);
    let mut assigner = PieceAssigner::new(info(), &BitVec::from_elem(2, false));
    let have = message_bytes(&Have { index: 1 });
    let mut buffer = ReadBuffer::new(64);
    buffer.write(&have[..3]).unwrap();
    let r = conn.read(&mut buffer, &mut assigner, &mut cache);
    assert!(matches!(r, Ok(UpdateSuccess::NoUpdate)));
    assert_eq!(buffer.unread(), 0);
    let mut next = ReadBuffer::new(64);
    next.write(&have[3..]).unwrap();
    let r = conn.read(&mut next, &mut assigner, &mut cache);
    assert!(matches!(r, Ok(UpdateSuccess::Transferred { downloaded: 9, uploaded: 0 })));
    assert_eq!(next.unread(), 0);
    assert_eq!(conn.completed_pieces.len(), 0);
}

#[test]
fn failed_packets_drop_their_connections() {
    let peer = PeerAddr { ip: 0x7f00_0003, v6: false, port: 6881 };
    let other = PeerAddr { ip: 0x7f00_0004, v6: false, port: 6881 };
    let mut torrents = vec![torrent()];
    let mut manager = UtpConnectionManager::new([3; 20]);
    let mut syn = packet(Header::new(Type::StSyn, 7, 0, 0, 0, 5, 0), &[]);
    manager.handle_packet(&mut syn, peer, &mut torrents);
    let mut syn = packet(Header::new(Type::StSyn, 30, 0, 0, 0, 5, 0), &[]);
    manager.handle_packet(&mut syn, other, &mut torrents);
    let outcomes = vec![
        PacketOutcome::Ignored,
        PacketOutcome::Failed { addr: peer, connection_id: 8, error: UpdateError::PeerRemoved },
        PacketOutcome::Handled { addr: other, connection_id: 31 },
    ];
    manager.disconnect_failed(outcomes, &mut torrents);
    assert_eq!(manager.disconnect_peer_utp(peer, 8, UpdateError::PeerRemoved, &mut torrents), None);
    assert_eq!(manager.disconnect_peer_utp(other, 31, UpdateError::PeerRemoved, &mut torrents), Some(other));
}

#[test]
fn utp_peer_messages_update_the_peer_and_queue_requests() {
    let mut conn = connection();
    let mut cache = BlockCache::new([1; 20], info(), BitVec::from_elem(2, false), vec![[0; 20]; 2]);
    let mut assigner = PieceAssigner::new(info(), &BitVec::from_elem(2, false));
    let mut buffer = ReadBuffer::new(64);
    buffer.write(&message_bytes(&rustytorrent::message::Choke {})).unwrap();
    let r = conn.read(&mut buffer, &mut assigner, &mut cache);
    assert!(matches!(r, Ok(UpdateSuccess::Transferred { downloaded: 5, uploaded: 0 })));
    let request = rustytorrent::message::Request { index: 0, begin: 0, length: 16384 };
    let mut buffer = ReadBuffer::new(64);
    buffer.write(&message_bytes(&request)).unwrap();
    let r = conn.read(&mut buffer, &mut assigner, &mut cache);
    assert!(matches!(r, Ok(UpdateSuccess::Transferred { downloaded: 17, uploaded: 0 })));
    assert_eq!(conn.disk_requests.len(), 1);
    assert_eq!(conn.disk_requests[0].length, 16384);
}

#[test]
fn timestamps_keep_the_low_32_bits() {
    assert_eq!(rustytorrent::client::utp::connection_info::low_32_bits(0x1_0000_0005), 5);
    assert_eq!(rustytorrent::client::utp::connection_info::low_32_bits(7), 7);
}
