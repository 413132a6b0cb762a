use bit_vec::BitVec;
use std::io::{Read, Write};

use rustytorrent::client::block_cache::BlockCache;
use rustytorrent::client::block_manager::BlockManager;
use rustytorrent::client::connection::{UpdateError, UpdateSuccess};
use rustytorrent::client::established_connection::{EstablishedConnection, ReadStep};
use rustytorrent::client::handshaking_connection::{
    starts_with_protocol, HandshakeUpdateSuccess, HandshakingConnection, HandshakingState,
};
use rustytorrent::client::piece_assigner::PieceAssigner;
use rustytorrent::client::piece_info::PieceInfo;
use rustytorrent::common::hash::hash_to_bytes;
use rustytorrent::io::ReadBuffer;
use rustytorrent::message::{Block, Handshake, Have, Interested, ProtocolMessage, Request, Unchoke};
use std::cell::RefCell;
use std::rc::Rc;

struct Pipe {
    incoming: Vec<u8>,
    outgoing: Vec<u8>,
}

impl Read for Pipe {
    fn read(&mut self, buf: &mut [u8]) -> std::io::Result<usize> {
        if self.incoming.is_empty() {
            return Err(std::io::ErrorKind::WouldBlock.into());
        }
        let n = buf.len().min(self.incoming.len());
        buf[..n].copy_from_slice(&self.incoming[..n]);
        self.incoming.drain(..n);
        Ok(n)
    }
}

impl Write for Pipe {
    fn write(&mut self, buf: &[u8]) -> std::io::Result<usize> {
        self.outgoing.extend_from_slice(buf);
        Ok(buf.len())
    }
    fn flush(&mut self) -> std::io::Result<()> {
        Ok(())
    }
}

fn info() -> PieceInfo {
    PieceInfo { total_length: 40000, piece_length: 32768, total_pieces: 2 }
}

#[test]
fn block_manager_fills_requests_up_to_the_limit() {
    let piece1 = vec![5u8; 7232];
    let hashes = vec![hash_to_bytes(&vec![0u8; 32768]), hash_to_bytes(&piece1)];
    let mut cache = BlockCache::new([1; 20], info(), BitVec::from_elem(2, false), hashes);
    let mut assigner = PieceAssigner::new(info(), &BitVec::from_elem(2, false));
    let mut manager = BlockManager::new();
    let mut out = Vec::new();
    let peer_has = BitVec::from_elem(2, true);
    let sent = manager.send_block_requests(&mut out, &peer_has, 0, &mut assigner, &cache);
    assert_eq!(sent, 3);
    assert_eq!(manager.blocks_in_flight, 3);
    assert_eq!(out.len(), 3 * 17);
    let mut expected = Vec::new();
    Request { index: 1, begin: 0, length: 7232 }.write(&mut expected);
    assert!(out.chunks(17).any(|c| c == expected.as_slice()));
    let done = manager.add_block(
        &Block { index: 1, begin: 0, block: piece1.clone() },
        &mut assigner,
        &mut cache,
    );
    assert_eq!(done.unwrap().piece, piece1);
    assert_eq!(manager.blocks_in_flight, 2);
}

#[test]
fn outgoing_tcp_handshake() {
    let pipe = Pipe { incoming: Vec::new(), outgoing: Vec::new() };
    let mut conn = HandshakingConnection::new_from_outgoing(pipe, [4; 20], [3; 20]);
    assert!(matches!(conn.update(), Ok(HandshakeUpdateSuccess::NoUpdate)));
    assert!(matches!(conn.state, HandshakingState::Reading));
    assert!(matches!(conn.update(), Ok(HandshakeUpdateSuccess::NoUpdate)));
    let mut stream = conn.into_network_source();
    let mut ours = Vec::new();
    Handshake { info_hash: [4; 20], peer_id: [3; 20] }.write_to(&mut ours);
    assert_eq!(stream.outgoing, ours);
    stream.outgoing.clear();
    Handshake { info_hash: [4; 20], peer_id: [8; 20] }.write_to(&mut stream.incoming);
    let mut conn = HandshakingConnection::new_from_incoming(stream, [3; 20]);
    match conn.update() {
        Ok(HandshakeUpdateSuccess::Complete(h)) => assert_eq!(h.peer_id, [8; 20]),
        _ => panic!("expected the handshake"),
    }
    assert!(matches!(conn.state, HandshakingState::Done));
    let stream = conn.into_network_source();
    assert_eq!(stream.outgoing, ours);
}

#[test]
fn handshake_must_name_the_protocol() {
    let mut bytes = Vec::new();
    Handshake { info_hash: [0; 20], peer_id: [0; 20] }.write_to(&mut bytes);
    assert!(starts_with_protocol(&bytes));
    bytes[3] = b'x';
    assert!(!starts_with_protocol(&bytes));
    let pipe = Pipe { incoming: bytes, outgoing: Vec::new() };
    let mut conn = HandshakingConnection::new_from_incoming(pipe, [3; 20]);
    assert!(conn.update().is_err());
}

struct SharedPipe {
    incoming: Rc<RefCell<Vec<u8>>>,
    outgoing: Rc<RefCell<Vec<u8>>>,
}

impl Read for SharedPipe {
    fn read(&mut self, buf: &mut [u8]) -> std::io::Result<usize> {
        let mut incoming = self.incoming.borrow_mut();
        if incoming.is_empty() {
            return Err(std::io::ErrorKind::WouldBlock.into());
        }
        let n = buf.len().min(incoming.len());
        buf[..n].copy_from_slice(&incoming[..n]);
        incoming.drain(..n);
        Ok(n)
    }
}

impl Write for SharedPipe {
    fn write(&mut self, buf: &[u8]) -> std::io::Result<usize> {
        self.outgoing.borrow_mut().extend_from_slice(buf);
        Ok(buf.len())
    }
    fn flush(&mut self) -> std::io::Result<()> {
        Ok(())
    }
}

fn read_all<S: Read + Write>(
    conn: &mut EstablishedConnection<S>,
    buffer: &mut ReadBuffer,
    assigner: &mut PieceAssigner,
    cache: &mut BlockCache,
) -> Result<UpdateSuccess, UpdateError> {
    let (mut downloaded, mut uploaded) = (0, 0);
    loop {
        match conn.read_step(buffer, assigner, cache, downloaded, uploaded)? {
            ReadStep::Continue { downloaded: d, uploaded: u } => {
                downloaded = d;
                uploaded = u;
            }
            ReadStep::Finished(s) => return Ok(s),
        }
    }
}

fn message_bytes<T: ProtocolMessage>(m: &T) -> Vec<u8> {
    let mut out = Vec::new();
    m.write(&mut out);
    out
}

#[test]
fn established_connection_reads_messages_and_requests_blocks() {
    let incoming = Rc::new(RefCell::new(Vec::new()));
    let outgoing = Rc::new(RefCell::new(Vec::new()));
    incoming.borrow_mut().extend(message_bytes(&Unchoke {}));
    incoming.borrow_mut().extend(message_bytes(&Have { index: 0 }));
    let pipe = SharedPipe { incoming: incoming.clone(), outgoing: outgoing.clone() };
    let mut conn = EstablishedConnection::new(7, [1; 20], pipe, 2);
    assert!(conn.peer.peer_choking);
    let hashes = vec![hash_to_bytes(&vec![3u8; 32768]), hash_to_bytes(&vec![0u8; 7232])];
    let mut cache = BlockCache::new([1; 20], info(), BitVec::from_elem(2, false), hashes);
    let mut assigner = PieceAssigner::new(info(), &BitVec::from_elem(2, false));
    let mut buffer = ReadBuffer::new(1 << 16);
    let read = read_all(&mut conn, &mut buffer, &mut assigner, &mut cache);
    assert!(matches!(read, Ok(UpdateSuccess::Transferred { downloaded: 14, uploaded: 0 })));
    assert!(!conn.peer.peer_choking);
    assert_eq!(conn.peer.peer_has.get(0), Some(true));
    assert_eq!(conn.peer.peer_has.get(1), Some(false));
    let result = conn.update_after_read(read, &mut buffer, &mut assigner, &cache);
    assert!(matches!(result, Ok(UpdateSuccess::Transferred { downloaded: 14, uploaded: 0 })));
    let mut expected = message_bytes(&Request { index: 0, begin: 0, length: 16384 });
    expected.extend(message_bytes(&Request { index: 0, begin: 16384, length: 16384 }));
    assert_eq!(*outgoing.borrow(), expected);

    incoming.borrow_mut().extend(message_bytes(&Block { index: 0, begin: 0, block: vec![3; 16384] }));
    incoming.borrow_mut().extend(message_bytes(&Block {
        index: 0,
        begin: 16384,
        block: vec![3; 16384],
    }));
    let read = read_all(&mut conn, &mut buffer, &mut assigner, &mut cache);
    assert!(matches!(read, Ok(UpdateSuccess::Transferred { downloaded: 32794, uploaded: 0 })));
    assert_eq!(conn.completed_pieces.len(), 1);
    assert_eq!(conn.completed_pieces[0].index, 0);
    assert_eq!(conn.completed_pieces[0].piece, vec![3u8; 32768]);
}

#[test]
fn established_connection_keeps_an_incomplete_message() {
    let incoming = Rc::new(RefCell::new(Vec::new()));
    let outgoing = Rc::new(RefCell::new(Vec::new()));
    let have = message_bytes(&Have { index: 1 });
    incoming.borrow_mut().extend(&have[..6]);
    let pipe = SharedPipe { incoming: incoming.clone(), outgoing };
    let mut conn = EstablishedConnection::new(0, [1; 20], pipe, 2);
    let hashes = vec![[0; 20], [0; 20]];
    let mut cache = BlockCache::new([1; 20], info(), BitVec::from_elem(2, false), hashes);
    let mut assigner = PieceAssigner::new(info(), &BitVec::from_elem(2, false));
    let mut buffer = ReadBuffer::new(64);
    let read = read_all(&mut conn, &mut buffer, &mut assigner, &mut cache);
    assert!(matches!(read, Ok(UpdateSuccess::NoUpdate)));
    assert_eq!(buffer.unread(), 0);
    assert_eq!(conn.peer.peer_has.get(1), Some(false));
    incoming.borrow_mut().extend(&have[6..]);
    let read = read_all(&mut conn, &mut buffer, &mut assigner, &mut cache);
    assert!(matches!(read, Ok(UpdateSuccess::Transferred { downloaded: 9, uploaded: 0 })));
    assert_eq!(conn.peer.peer_has.get(1), Some(true));
}

#[test]
fn established_connection_sends_whole_messages() {
    let outgoing = Rc::new(RefCell::new(Vec::new()));
    let pipe = SharedPipe { incoming: Rc::new(RefCell::new(Vec::new())), outgoing: outgoing.clone() };
    let mut conn = EstablishedConnection::new(0, [1; 20], pipe, 2);
    assert!(conn.send(&Interested {}).unwrap());
    assert_eq!(*outgoing.borrow(), vec![0, 0, 0, 1, 2]);
}

#[test]
fn established_connection_seeds_once_done() {
    let outgoing = Rc::new(RefCell::new(Vec::new()));
    let pipe = SharedPipe { incoming: Rc::new(RefCell::new(Vec::new())), outgoing: outgoing.clone() };
    let mut conn = EstablishedConnection::new(0, [1; 20], pipe, 2);
    let cache = BlockCache::new([1; 20], info(), BitVec::from_elem(2, true), vec![[0; 20], [0; 20]]);
    let mut assigner = PieceAssigner::new(info(), &BitVec::from_elem(2, true));
    let mut buffer = ReadBuffer::new(64);
    conn.peer.peer_choking = false;
    let result = conn.update_after_read(Ok(UpdateSuccess::NoUpdate), &mut buffer, &mut assigner, &cache);
    assert!(matches!(result, Ok(UpdateSuccess::NoUpdate)));
    assert!(outgoing.borrow().is_empty());
}

#[test]
fn established_connection_rejects_a_block_out_of_range() {
    let incoming = Rc::new(RefCell::new(Vec::new()));
    incoming.borrow_mut().extend(message_bytes(&Block { index: 5, begin: 0, block: vec![1; 4] }));
    let pipe = SharedPipe { incoming, outgoing: Rc::new(RefCell::new(Vec::new())) };
    let mut conn = EstablishedConnection::new(0, [1; 20], pipe, 2);
    let mut cache = BlockCache::new([1; 20], info(), BitVec::from_elem(2, false), vec![[0; 20], [0; 20]]);
    let mut assigner = PieceAssigner::new(info(), &BitVec::from_elem(2, false));
    let mut buffer = ReadBuffer::new(64);
    let read = read_all(&mut conn, &mut buffer, &mut assigner, &mut cache);
    assert!(matches!(read, Err(UpdateError::IndexOutOfBounds)));
}

#[test]
fn a_peer_request_is_queued_for_the_disk() {
    let incoming = Rc::new(RefCell::new(Vec::new()));
    let outgoing = Rc::new(RefCell::new(Vec::new()));
    incoming.borrow_mut().extend(message_bytes(&Interested {}));
    incoming.borrow_mut().extend(message_bytes(&Request { index: 1, begin: 16384, length: 100 }));
    let pipe = SharedPipe { incoming: incoming.clone(), outgoing };
    let mut conn = EstablishedConnection::new(0, [1; 20], pipe, 2);
    let hashes = vec![[0; 20], [0; 20]];
    let mut cache = BlockCache::new([1; 20], info(), BitVec::from_elem(2, false), hashes);
    let mut assigner = PieceAssigner::new(info(), &BitVec::from_elem(2, false));
    let mut buffer = ReadBuffer::new(64);
    let read = conn.read(&mut buffer, &mut assigner, &mut cache);
    assert!(matches!(read, Ok(UpdateSuccess::Transferred { downloaded: 5, uploaded: 0 })));
    assert!(conn.disk_requests.is_empty());
    let read = conn.read(&mut buffer, &mut assigner, &mut cache);
    assert!(matches!(read, Ok(UpdateSuccess::Transferred { downloaded: 17, uploaded: 0 })));
    assert_eq!(conn.disk_requests.len(), 1);
    assert_eq!(conn.disk_requests[0].index, 1);
    assert_eq!(conn.disk_requests[0].begin, 16384);
    assert_eq!(conn.disk_requests[0].length, 100);
}
