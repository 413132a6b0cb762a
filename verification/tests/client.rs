use rustytorrent::client::controller::{poll_action, PollAction, STOP_MESSAGE, TCP_LISTENER};
use bit_vec::BitVec;
use std::collections::HashMap;

use rustytorrent::client::block_cache::{BlockCache, BlockError, PieceInFlight};
use rustytorrent::client::connection::UpdateError;
use rustytorrent::client::dispatch::{dispatch_message, Dispatched, PeerData};
use rustytorrent::client::piece_assigner::{AssignedBlockResult, PieceAssigner};
use rustytorrent::client::piece_info::PieceInfo;
use rustytorrent::client::utp::{
    Header, HandshakingUpdateSuccess, IncomingUtpConnection, OutgoingUtpConnection, Type,
    UtpConnectionInfo, UtpSendBuffer,
};
use rustytorrent::common::hash::hash_to_bytes;
use rustytorrent::io::ReadBuffer;
use rustytorrent::message::{Block, Cancel, Handshake, Request};

fn info() -> PieceInfo {
    PieceInfo { total_length: 40000, piece_length: 32768, total_pieces: 2 }
}

fn no_unreceived() -> Vec<Request> {
    Vec::new()
}

#[test]
fn assigner_hands_out_blocks_piece_by_piece() {
    let have = BitVec::from_elem(2, false);
    let mut assigner = PieceAssigner::new(info(), &have);
    let peer_has = BitVec::from_elem(2, true);
    let mut requests = Vec::new();
    for _ in 0..3 {
        match assigner.get_block(&peer_has, 0, no_unreceived) {
            AssignedBlockResult::AssignedBlock { request } => requests.push(request),
            _ => panic!("expected a block"),
        }
    }
    requests.sort_by_key(|r| (r.index, r.begin));
    assert_eq!(
        requests,
        vec![
            Request { index: 0, begin: 0, length: 16384 },
            Request { index: 0, begin: 16384, length: 16384 },
            Request { index: 1, begin: 0, length: 7232 },
        ]
    );
    assert!(!assigner.is_endgame());
}

#[test]
fn assigner_skips_pieces_the_peer_lacks() {
    let have = BitVec::from_elem(2, false);
    let mut assigner = PieceAssigner::new(info(), &have);
    let mut peer_has = BitVec::from_elem(2, false);
    assert!(matches!(
        assigner.get_block(&peer_has, 0, no_unreceived),
        AssignedBlockResult::NoBlocksToAssign
    ));
    peer_has.set(1, true);
    match assigner.get_block(&peer_has, 0, no_unreceived) {
        AssignedBlockResult::AssignedBlock { request } => {
            assert_eq!(request, Request { index: 1, begin: 0, length: 7232 })
        }
        _ => panic!("expected piece 1"),
    }
}

#[test]
fn assigner_endgame_hands_each_block_once_per_connection() {
    let have = BitVec::from_elem(2, true);
    let mut assigner = PieceAssigner::new(info(), &have);
    let peer_has = BitVec::from_elem(2, true);
    let unreceived = || vec![Request { index: 0, begin: 0, length: 16384 }];
    // The first call right after creation is throttled.
    assert!(matches!(
        assigner.get_block(&peer_has, 0, unreceived),
        AssignedBlockResult::NoBlocksToAssign
    ));
    let start = std::time::Instant::now();
    while start.elapsed() < std::time::Duration::from_millis(1100) {}
    match assigner.get_block(&peer_has, 0, unreceived) {
        AssignedBlockResult::EndgameAssignedBlock { request } => {
            assert_eq!(request, Request { index: 0, begin: 0, length: 16384 })
        }
        _ => panic!("expected an endgame block"),
    }
    assert!(assigner.is_endgame());
}

fn block(index: u32, begin: u32, len: usize, byte: u8) -> Block {
    Block { index, begin, block: vec![byte; len] }
}

#[test]
fn piece_in_flight_collects_blocks() {
    let mut piece = PieceInFlight::new(0, info());
    assert!(piece.add_block(&block(0, 0, 16384, 1)).unwrap().is_none());
    assert!(piece.add_block(&block(0, 0, 16384, 9)).unwrap().is_none());
    assert_eq!(piece.add_block(&block(0, 16384, 10, 2)).unwrap_err(), BlockError::InvalidBlock);
    assert_eq!(
        piece.add_block(&block(0, 3 * 16384, 16384, 2)).unwrap_err(),
        BlockError::InvalidBlock
    );
    let done = piece.add_block(&block(0, 16384, 16384, 2)).unwrap().unwrap();
    assert_eq!(done.index, 0);
    assert_eq!(done.piece.len(), 32768);
    assert!(done.piece[..16384].iter().all(|b| *b == 1));
    assert!(done.piece[16384..].iter().all(|b| *b == 2));
}

fn cache() -> BlockCache {
    let piece1 = vec![5u8; 7232];
    let hashes = vec![hash_to_bytes(&vec![0u8; 32768]), hash_to_bytes(&piece1)];
    BlockCache::new([1; 20], info(), BitVec::from_elem(2, false), hashes)
}

#[test]
fn block_cache_checks_completed_pieces() {
    let mut cache = cache();
    assert!(!cache.done());
    let done = cache.write_block(&block(1, 0, 7232, 5)).unwrap().unwrap();
    assert_eq!(done.index, 1);
    assert_eq!((cache.have_maybe_unwritten_to_disk()).get(1), Some(true));
    assert!(cache.write_block(&block(1, 0, 7232, 6)).unwrap().is_none());
    assert!(cache.write_block(&block(0, 0, 16384, 0)).unwrap().is_none());
    assert_eq!(cache.write_block(&block(0, 16384, 16384, 3)).unwrap_err(), BlockError::InvalidPiece);
    assert!(!cache.done());
}

#[test]
fn a_piece_that_fails_its_hash_can_be_received_again() {
    let mut cache = cache();
    cache.write_block(&block(0, 0, 16384, 0)).unwrap();
    assert_eq!(cache.write_block(&block(0, 16384, 16384, 3)).unwrap_err(), BlockError::InvalidPiece);
    assert_eq!(cache.get_block_have(0).get(0), Some(false));
    assert!(cache.write_block(&block(0, 0, 16384, 0)).unwrap().is_none());
    let done = cache.write_block(&block(0, 16384, 16384, 0)).unwrap().unwrap();
    assert_eq!(done.index, 0);
    assert_eq!(cache.have_maybe_unwritten_to_disk().get(0), Some(true));
}

#[test]
fn block_cache_lists_unreceived_blocks() {
    let mut cache = cache();
    cache.write_block(&block(0, 0, 16384, 0)).unwrap();
    let unreceived = cache.endgame_get_unreceived_blocks();
    assert_eq!(
        unreceived,
        vec![
            Request { index: 0, begin: 16384, length: 16384 },
            Request { index: 1, begin: 0, length: 7232 },
        ]
    );
    let have = cache.get_block_have(0);
    assert_eq!(have.len(), 2);
    assert_eq!(have.get(0), Some(true));
}

#[test]
fn block_cache_reconciles_sent_requests() {
    let mut cache = cache();
    cache.write_block(&block(0, 0, 16384, 0)).unwrap();
    cache.write_block(&block(1, 0, 7232, 5)).unwrap();
    let mut sent: HashMap<usize, bit_vec::BitVec> = HashMap::new();
    sent.insert(0, BitVec::from_elem(2, true));
    sent.insert(1, BitVec::from_elem(1, true));
    let (still_wanted, cancels) = cache.reconcile(&mut sent);
    assert_eq!(still_wanted, 1);
    assert_eq!(cancels, vec![Cancel { index: 0, begin: 0, length: 16384 }]);
    assert_eq!(sent.len(), 1);
    assert_eq!(sent[&0].get(0), Some(false));
    assert_eq!(sent[&0].get(1), Some(true));
}

#[test]
fn dispatch_updates_peer_data() {
    let mut peer = PeerData::new([0; 20], 10);
    let mut buffer = ReadBuffer::new(64);
    assert!(matches!(dispatch_message(&mut buffer, 1, 0, &mut peer), Ok(Dispatched::Success)));
    assert!(peer.peer_choking);
    assert!(matches!(dispatch_message(&mut buffer, 1, 1, &mut peer), Ok(Dispatched::Success)));
    assert!(!peer.peer_choking);
    assert!(matches!(dispatch_message(&mut buffer, 1, 3, &mut peer), Ok(Dispatched::Success)));
    assert!(!peer.peer_interested);
    buffer.write(&[0, 0, 0, 3]).unwrap();
    assert!(matches!(dispatch_message(&mut buffer, 5, 4, &mut peer), Ok(Dispatched::Success)));
    assert_eq!(peer.peer_has.get(3), Some(true));
    buffer.write(&[0, 0, 0, 10]).unwrap();
    assert!(matches!(
        dispatch_message(&mut buffer, 5, 4, &mut peer),
        Err(UpdateError::IndexOutOfBounds)
    ));
    buffer.write(&[0b1000_0000, 0b0100_0000]).unwrap();
    assert!(matches!(dispatch_message(&mut buffer, 3, 5, &mut peer), Ok(Dispatched::Success)));
    assert_eq!(peer.peer_has.len(), 10);
    assert_eq!(peer.peer_has.get(0), Some(true));
    assert_eq!(peer.peer_has.get(9), Some(true));
    assert_eq!(peer.peer_has.get(3), Some(false));
    buffer.write(&[0, 0, 0, 1, 0, 0, 0, 2, 0, 0, 0, 3]).unwrap();
    match dispatch_message(&mut buffer, 13, 6, &mut peer) {
        Ok(Dispatched::PeerRequest(r)) => assert_eq!(r, Request { index: 1, begin: 2, length: 3 }),
        _ => panic!("expected a request"),
    }
    buffer.write(&[0, 0, 0, 1, 0, 0, 0, 2, 0, 0, 0, 3]).unwrap();
    assert!(matches!(dispatch_message(&mut buffer, 13, 8, &mut peer), Ok(Dispatched::Success)));
    assert_eq!(peer.pending_peer_cancels, vec![Cancel { index: 1, begin: 2, length: 3 }]);
    assert!(matches!(dispatch_message(&mut buffer, 9, 7, &mut peer), Ok(Dispatched::BlockArrived)));
    assert!(matches!(
        dispatch_message(&mut buffer, 1, 20, &mut peer),
        Err(UpdateError::UnknownMessage { id: 20 })
    ));
    assert!(matches!(
        dispatch_message(&mut buffer, 3, 9, &mut peer),
        Err(UpdateError::CommunicationError(_))
    ));
}

#[test]
fn bitfield_bits_come_most_significant_first() {
    let bits = BitVec::from_bytes(&[0b0110_0000]);
    assert_eq!(bits.get(0), Some(false));
    assert_eq!(bits.get(1), Some(true));
    assert_eq!(bits.get(100), None);
}

fn header(t: Type, seq_nr: u16) -> Header {
    Header::new(t, 7, 0, 0, 0, seq_nr, 0)
}

#[test]
fn connection_info_headers() {
    let syn = header(Type::StSyn, 5);
    let mut info = UtpConnectionInfo::new_from_incoming(1u8, &syn);
    assert_eq!(info.conn_id_recv, 8);
    assert_eq!(info.addr(), 1u8);
    info.process_header(&syn);
    assert_eq!(info.ack_nr, 5);
    let state = info.create_header(Type::StState);
    assert_eq!(state.connection_id, 7);
    assert_eq!(state.seq_nr, 1);
    assert_eq!(state.ack_nr, 5);
    assert_eq!(info.seq_nr, 1);
    let data = info.create_header(Type::StData);
    assert_eq!(data.seq_nr, 1);
    assert_eq!(info.seq_nr, 2);
    info.record_data_sent(3);
    assert_eq!(info.seq_nr, 4);
    let outgoing = UtpConnectionInfo::new(2u8);
    assert_eq!(outgoing.seq_nr, 1);
}

#[test]
fn incoming_handshake() {
    let syn = header(Type::StSyn, 5);
    let info = UtpConnectionInfo::new_from_incoming(1u8, &syn);
    let mut conn = IncomingUtpConnection::new(info, [3; 20]);
    let mut buffer = ReadBuffer::new(200);
    let mut send = UtpSendBuffer::new();
    assert!(matches!(
        conn.update(&mut buffer, &syn, &mut send),
        Ok(HandshakingUpdateSuccess::NoUpdate)
    ));
    assert_eq!(send.take_headers(), vec![Type::StState]);
    assert!(conn.update(&mut buffer, &header(Type::StState, 6), &mut send).is_err());
    let mut bytes = Vec::new();
    Handshake { info_hash: [4; 20], peer_id: [5; 20] }.write_to(&mut bytes);
    buffer.write(&bytes).unwrap();
    match conn.update(&mut buffer, &header(Type::StData, 6), &mut send) {
        Ok(HandshakingUpdateSuccess::Complete(h)) => {
            assert_eq!(h.info_hash, [4; 20]);
            assert_eq!(h.peer_id, [5; 20]);
        }
        _ => panic!("expected the handshake"),
    }
    assert_eq!(send.take_headers(), vec![Type::StState]);
    let mut expected = Vec::new();
    Handshake { info_hash: [4; 20], peer_id: [3; 20] }.write_to(&mut expected);
    assert_eq!(send.take_data(), expected);
}

#[test]
fn outgoing_handshake() {
    let info = UtpConnectionInfo::new(1u8);
    let mut conn = OutgoingUtpConnection::new(info, [4; 20], [3; 20]);
    let mut buffer = ReadBuffer::new(200);
    let mut send = UtpSendBuffer::new();
    assert!(conn.update(&mut buffer, &header(Type::StData, 1), &mut send).is_err());
    assert!(matches!(
        conn.update(&mut buffer, &header(Type::StState, 9), &mut send),
        Ok(HandshakingUpdateSuccess::NoUpdate)
    ));
    let mut expected = Vec::new();
    Handshake { info_hash: [4; 20], peer_id: [3; 20] }.write_to(&mut expected);
    assert_eq!(send.take_data(), expected);
    assert!(matches!(
        conn.update(&mut buffer, &header(Type::StState, 10), &mut send),
        Ok(HandshakingUpdateSuccess::NoUpdate)
    ));
    assert!(matches!(
        conn.update(&mut buffer, &header(Type::StState, 10), &mut send),
        Ok(HandshakingUpdateSuccess::NoUpdate)
    ));
    let mut bytes = Vec::new();
    Handshake { info_hash: [4; 20], peer_id: [8; 20] }.write_to(&mut bytes);
    buffer.write(&bytes).unwrap();
    match conn.update(&mut buffer, &header(Type::StData, 11), &mut send) {
        Ok(HandshakingUpdateSuccess::Complete(h)) => assert_eq!(h.peer_id, [8; 20]),
        _ => panic!("expected the handshake"),
    }
    let socket = conn.promote();
    assert_eq!(socket.ack_nr, 11);
}

#[test]
fn poll_events_are_routed_by_token() {
    assert_eq!(poll_action(TCP_LISTENER), PollAction::AcceptTcp);
    assert_eq!(poll_action(usize::MAX - 2), PollAction::HandleDisk);
    assert_eq!(poll_action(usize::MAX - 3), PollAction::HandleTracker);
    assert_eq!(poll_action(STOP_MESSAGE), PollAction::Stop);
    assert_eq!(poll_action(usize::MAX - 5), PollAction::HandleUtp);
    assert_eq!(poll_action(3), PollAction::HandleConnection { token: 3 });
}
