use bit_vec::BitVec;
use rustytorrent::client::piece_info::PieceInfo;
use rustytorrent::client::utp::header::{Header, Type};
use rustytorrent::io::ReadBuffer;
use rustytorrent::message::{
    Bitfield, Block, Cancel, Choke, Handshake, Have, KeepAlive, Port, ProtocolMessage, Request,
};

#[test]
fn test_header() {
    let header = Header {
        type_ver_extension: 16640,
        connection_id: 0,
        timestamp_microseconds: 0,
        timestamp_difference_microseconds: 0,
        wnd_size: 0,
        seq_nr: 0,
        ack_nr: 0,
    };
    assert_eq!(header.get_type(), Type::StSyn);
    assert_eq!(header.get_ver(), 1);
}

#[test]
fn test_new_header() {
    let header = Header::new(Type::StSyn, 0, 0, 0, 0, 0, 0);
    assert_eq!(header.get_type(), Type::StSyn);
    assert_eq!(header.get_ver(), 1);
    assert_eq!(header.get_ext(), 0);
}

#[test]
fn header_encoding_round_trip() {
    let header = Header::new(Type::StData, 0x1234, 0xdeadbeef, 7, 10000, 0xfffe, 3);
    let mut bytes = Vec::new();
    header.write_to(&mut bytes);
    assert_eq!(
        bytes,
        vec![
            0x01, 0x00, 0x12, 0x34, 0xde, 0xad, 0xbe, 0xef, 0, 0, 0, 7, 0, 0, 0x27, 0x10, 0xff,
            0xfe, 0, 3
        ]
    );
    assert_eq!(Header::read_from(&bytes), Some(header));
    assert_eq!(Header::read_from(&bytes[..19]), None);
}

fn handshake() -> Handshake {
    Handshake::new("-QQ00010000000000000", &[9u8; 20])
}

#[test]
fn handshake_round_trip() {
    let h = handshake();
    assert_eq!(&h.peer_id, b"-QQ00010000000000000");
    let mut bytes = Vec::new();
    h.write_to(&mut bytes);
    assert_eq!(bytes.len(), 68);
    assert_eq!(bytes[0], 19);
    assert_eq!(&bytes[1..20], b"BitTorrent protocol");
    assert_eq!(&bytes[20..28], &[0u8; 8]);
    let mut buffer = ReadBuffer::new(100);
    buffer.write(&bytes).unwrap();
    buffer.write(b"rest").unwrap();
    let back = Handshake::read_from(&mut buffer).unwrap();
    assert_eq!(back.info_hash, h.info_hash);
    assert_eq!(back.peer_id, h.peer_id);
    assert_eq!(buffer.get_unread(), b"rest");
}

#[test]
fn short_handshake_is_an_error() {
    let mut bytes = Vec::new();
    handshake().write_to(&mut bytes);
    let mut buffer = ReadBuffer::new(100);
    buffer.write(&bytes[..40]).unwrap();
    assert!(Handshake::read_from(&mut buffer).is_err());
    assert_eq!(buffer.unread(), 0);
}

#[test]
fn message_encodings() {
    let mut out = Vec::new();
    KeepAlive {}.write(&mut out);
    assert_eq!(out, vec![0]);
    out.clear();
    Choke {}.write(&mut out);
    assert_eq!(out, vec![0, 0, 0, 1, 0]);
    out.clear();
    Have { index: 258 }.write(&mut out);
    assert_eq!(out, vec![0, 0, 0, 5, 4, 0, 0, 1, 2]);
    out.clear();
    Request { index: 1, begin: 16384, length: 16384 }.write(&mut out);
    assert_eq!(out, vec![0, 0, 0, 13, 6, 0, 0, 0, 1, 0, 0, 0x40, 0, 0, 0, 0x40, 0]);
    out.clear();
    Cancel { index: 2, begin: 0, length: 5 }.write(&mut out);
    assert_eq!(out, vec![0, 0, 0, 13, 8, 0, 0, 0, 2, 0, 0, 0, 0, 0, 0, 0, 5]);
    out.clear();
    Block { index: 1, begin: 2, block: vec![7, 8] }.write(&mut out);
    assert_eq!(out, vec![0, 0, 0, 11, 7, 0, 0, 0, 1, 0, 0, 0, 2, 7, 8]);
    out.clear();
    Port { listen_port: 6881 }.write(&mut out);
    assert_eq!(out, vec![0, 0, 0, 3, 9, 0x1a, 0xe1]);
    out.clear();
    Bitfield { bitfield: BitVec::from_bytes(&[0b1010_0000]) }.write(&mut out);
    assert_eq!(out, vec![0, 0, 0, 2, 5, 0b1010_0000]);
}

#[test]
fn message_decoding_reads_back_what_was_written() {
    let mut buffer = ReadBuffer::new(100);
    let mut out = Vec::new();
    Have { index: 77 }.write(&mut out);
    Request { index: 3, begin: 5, length: 9 }.write(&mut out);
    Port { listen_port: 80 }.write(&mut out);
    Block { index: 4, begin: 16384, block: vec![1, 2, 3] }.write(&mut out);
    buffer.write(&out).unwrap();
    buffer.consume(5);
    assert_eq!(Have::read_from(&mut buffer, 5).unwrap(), Have { index: 77 });
    buffer.consume(5);
    assert_eq!(
        Request::read_from(&mut buffer, 13).unwrap(),
        Request { index: 3, begin: 5, length: 9 }
    );
    buffer.consume(5);
    assert_eq!(Port::read_from(&mut buffer, 3).unwrap(), Port { listen_port: 80 });
    buffer.consume(5);
    let block = Block::read_from(&mut buffer, 12).unwrap();
    assert_eq!((block.index, block.begin, block.block), (4, 16384, vec![1, 2, 3]));
    assert_eq!(buffer.unread(), 0);
    assert!(Cancel::read_from(&mut buffer, 13).is_err());
}

#[test]
fn request_for_a_block() {
    let info = PieceInfo { total_length: 40000, piece_length: 32768, total_pieces: 2 };
    let r = Request::new(1, 0, info);
    assert_eq!(r, Request { index: 0, begin: 16384, length: 16384 });
    assert_eq!((r.piece_index(), r.block_index()), (0, 1));
    let last = Request::new(0, 1, info);
    assert_eq!(last, Request { index: 1, begin: 0, length: 7232 });
}
