use vstd::prelude::*;

use crate::common::bits::{bits, bitvec_from_bytes, bitvec_to_bytes, bytes_to_bits, pack_bits};
use crate::client::piece_info::PieceInfo;
use crate::common::hash::Sha1Hash;
use crate::constants::BLOCK_LENGTH;
use bit_vec::BitVec;
use crate::io::read_buffer::ReadBuffer;
use vstd::string::StringSliceAdditionalSpecFns;
use crate::wire::{
    be16, be32, from_be16, from_be32, lemma_be16_roundtrip, lemma_be32_roundtrip, read_u16,
    read_u32, write_all, write_u16, write_u32,
};

verus! {

/// Why a message could not be read.
#[derive(Debug, Clone, Copy, PartialEq, Eq, Structural)]
pub enum MessageError {
    /// The input ended before the message did.
    UnexpectedEof,
}

/// The protocol string that a handshake starts with, after its length:
/// `BitTorrent protocol`.
pub open spec fn pstr() -> Seq<u8> {
    seq![66u8, 105, 116, 84, 111, 114, 114, 101, 110, 116, 32, 112, 114, 111, 116, 111, 99, 111, 108]
}

/// Length in bytes of a handshake.
pub const HANDSHAKE_LENGTH: usize = 68;

/// The message that opens a connection: which torrent, and who is speaking.
#[derive(Debug, Clone, Copy)]
pub struct Handshake {
    pub info_hash: Sha1Hash,
    pub peer_id: [u8; 20],
}

/// Takes the first `n` unread bytes of `buffer` when there are that many; otherwise all
/// unread bytes are taken and the input is reported to have ended.
fn take_bytes(buffer: &mut ReadBuffer, n: usize) -> (r: Result<Vec<u8>, MessageError>)
    requires
        old(buffer).wf(),
    ensures
        final(buffer).wf(),
        final(buffer).spec_capacity() == old(buffer).spec_capacity(),
        n <= old(buffer).unread_data().len() ==> (r matches Ok(v) && v@ == old(buffer).unread_data().take(n as int) && final(buffer).unread_data() == old(buffer).unread_data().skip(n as int)),
        n > old(buffer).unread_data().len() ==> r == Err::<Vec<u8>, MessageError>(
            MessageError::UnexpectedEof,
        ) && final(buffer).unread_data() == Seq::<u8>::empty(),
{
    let available = buffer.unread();
    if available < n {
        buffer.consume(available);
        assert(buffer.unread_data() =~= Seq::<u8>::empty());
        return Err(MessageError::UnexpectedEof);
    }
    let mut out: Vec<u8> = Vec::new();
    write_all(&mut out, &buffer.get_unread()[0..n]);
    assert(out@ =~= old(buffer).unread_data().take(n as int));
    buffer.consume(n);
    Ok(out)
}

fn bytes_20(data: &[u8], at: usize) -> (r: [u8; 20])
    requires
        at + 20 <= data.len(),
    ensures
        r@ == data@.subrange(at as int, at + 20),
{
    let mut r = [0u8; 20];
    let mut i: usize = 0;
    while i < 20
        invariant
            i <= 20,
            at + 20 <= data.len(),
            r@.len() == 20,
            forall|k: int| 0 <= k < i ==> #[trigger] r@[k] == data@[at + k],
        decreases 20 - i,
    {
        r[i] = data[at + i];
        i = i + 1;
    }
    assert(r@ =~= data@.subrange(at as int, at + 20));
    r
}

impl Handshake {
    /// The encoding of this handshake: the length of the protocol string, the protocol
    /// string, eight reserved zero bytes, the info hash and the peer id.
    pub open spec fn spec_bytes(self) -> Seq<u8> {
        seq![19u8] + pstr() + Seq::new(8, |i: int| 0u8) + self.info_hash@ + self.peer_id@
    }

    /// A handshake for torrent `info_hash` from the peer with id `peer_id`, which must be
    /// 20 bytes long.
    pub fn new(peer_id: &str, info_hash: &Sha1Hash) -> (r: Handshake)
        requires
            peer_id.spec_bytes().len() == 20,
        ensures
            r.info_hash == *info_hash,
            r.peer_id@ == peer_id.spec_bytes(),
    {
        let bytes = peer_id.as_bytes();
        Handshake { info_hash: *info_hash, peer_id: bytes_20(bytes, 0) }
    }

    /// Reads a handshake from the unread bytes of `buffer`, which must start with the
    /// protocol string and its length; the reserved bytes are skipped. Fails when the input
    /// ends too early, and then all unread bytes are used up.
    pub fn read_from(buffer: &mut ReadBuffer) -> (r: Result<Handshake, MessageError>)
        requires
            old(buffer).wf(),
            old(buffer).unread_data().len() >= 20,
            old(buffer).unread_data().take(20) == seq![19u8] + pstr(),
        ensures
            final(buffer).wf(),
            final(buffer).spec_capacity() == old(buffer).spec_capacity(),
            old(buffer).unread_data().len() >= HANDSHAKE_LENGTH ==> (r matches Ok(h)
                && h.info_hash@ == old(buffer).unread_data().subrange(28, 48) && h.peer_id@ == old(buffer).unread_data().subrange(48, 68) && final(buffer).unread_data() == old(buffer).unread_data().skip(HANDSHAKE_LENGTH as int)),
            old(buffer).unread_data().len() < HANDSHAKE_LENGTH ==> r == Err::<
                Handshake,
                MessageError,
            >(MessageError::UnexpectedEof) && final(buffer).unread_data() == Seq::<u8>::empty(),
    {
        let bytes = match take_bytes(buffer, HANDSHAKE_LENGTH) {
            Ok(b) => b,
            Err(e) => return Err(e),
        };
        let info_hash = bytes_20(bytes.as_slice(), 28);
        let peer_id = bytes_20(bytes.as_slice(), 48);
        Ok(Handshake { info_hash, peer_id })
    }

    /// Appends the encoding of this handshake.
    pub fn write_to(&self, out: &mut Vec<u8>)
        ensures
            final(out)@ == old(out)@ + self.spec_bytes(),
    {
        out.push(19);
        let protocol: [u8; 19] = [66, 105, 116, 84, 111, 114, 114, 101, 110, 116, 32, 112, 114, 111, 116, 111, 99, 111, 108];
        write_all(out, &protocol);
        let reserved: [u8; 8] = [0, 0, 0, 0, 0, 0, 0, 0];
        write_all(out, &reserved);
        write_all(out, &self.info_hash);
        write_all(out, &self.peer_id);
        assert(protocol@ =~= pstr());
        assert(reserved@ =~= Seq::new(8, |i: int| 0u8));
        assert(final(out)@ =~= old(out)@ + self.spec_bytes());
    }
}

/// How long a message is, counting its id byte.
#[derive(Debug, Clone, Copy, PartialEq, Eq, Structural)]
pub enum MessageLength {
    Fixed(u32),
    Variable,
}

/// A message of the peer protocol that follows the handshake.
pub trait ProtocolMessage {
    /// The encoding of this message: its length (a big-endian `u32`, counting the id
    /// byte), its id byte, and its data.
    spec fn spec_bytes(&self) -> Seq<u8>;

    /// Whether the length of this message fits in its length prefix.
    spec fn fits(&self) -> bool;

    /// Appends the encoding of this message.
    fn write(&self, out: &mut Vec<u8>)
        requires
            self.fits(),
        ensures
            final(out)@ == old(out)@ + self.spec_bytes(),
    ;
}

/// A message that keeps a connection open.
#[derive(Debug, Clone, Copy, PartialEq, Eq, Structural)]
pub struct KeepAlive {}

impl ProtocolMessage for KeepAlive {
    open spec fn fits(&self) -> bool {
        true
    }

    /// A single zero byte.
    open spec fn spec_bytes(&self) -> Seq<u8> {
        seq![0u8]
    }

    fn write(&self, out: &mut Vec<u8>) {
        out.push(0);
    }
}

/// The encoding of a message of length 1 (an id and no data).
pub open spec fn flag_bytes(id: u8) -> Seq<u8> {
    be32(1) + seq![id]
}

fn write_flag(out: &mut Vec<u8>, id: u8)
    ensures
        final(out)@ == old(out)@ + flag_bytes(id),
{
    write_u32(out, 1);
    out.push(id);
    assert(final(out)@ =~= old(out)@ + flag_bytes(id));
}

/// The peer will not answer requests.
#[derive(Debug, Clone, Copy, PartialEq, Eq, Structural)]
pub struct Choke {}

/// The peer answers requests.
#[derive(Debug, Clone, Copy, PartialEq, Eq, Structural)]
pub struct Unchoke {}

/// The peer wants to request blocks.
#[derive(Debug, Clone, Copy, PartialEq, Eq, Structural)]
pub struct Interested {}

/// The peer does not want to request blocks.
#[derive(Debug, Clone, Copy, PartialEq, Eq, Structural)]
pub struct NotInterested {}

impl Choke {
    pub const ID: u8 = 0;
}

impl Unchoke {
    pub const ID: u8 = 1;
}

impl Interested {
    pub const ID: u8 = 2;
}

impl NotInterested {
    pub const ID: u8 = 3;
}

impl ProtocolMessage for Choke {
    open spec fn fits(&self) -> bool {
        true
    }

    open spec fn spec_bytes(&self) -> Seq<u8> {
        flag_bytes(0)
    }

    fn write(&self, out: &mut Vec<u8>) {
        write_flag(out, 0);
    }
}

impl ProtocolMessage for Unchoke {
    open spec fn fits(&self) -> bool {
        true
    }

    open spec fn spec_bytes(&self) -> Seq<u8> {
        flag_bytes(1)
    }

    fn write(&self, out: &mut Vec<u8>) {
        write_flag(out, 1);
    }
}

impl ProtocolMessage for Interested {
    open spec fn fits(&self) -> bool {
        true
    }

    open spec fn spec_bytes(&self) -> Seq<u8> {
        flag_bytes(2)
    }

    fn write(&self, out: &mut Vec<u8>) {
        write_flag(out, 2);
    }
}

impl ProtocolMessage for NotInterested {
    open spec fn fits(&self) -> bool {
        true
    }

    open spec fn spec_bytes(&self) -> Seq<u8> {
        flag_bytes(3)
    }

    fn write(&self, out: &mut Vec<u8>) {
        write_flag(out, 3);
    }
}

/// The peer has piece `index`.
#[derive(Debug, Clone, Copy, PartialEq, Eq, Structural)]
pub struct Have {
    pub index: u32,
}

impl Have {
    pub const ID: u8 = 4;

    /// Reads the data of a message of length `length` (5) from `buffer`.
    pub fn read_from(buffer: &mut ReadBuffer, length: u32) -> (r: Result<Have, MessageError>)
        requires
            old(buffer).wf(),
            length == 5,
        ensures
            final(buffer).wf(),
            final(buffer).spec_capacity() == old(buffer).spec_capacity(),
            old(buffer).unread_data().len() >= 4 ==> (r matches Ok(m) && m.spec_bytes() == be32(
                length,
            ) + seq![Self::ID] + old(buffer).unread_data().take(4) && final(buffer).unread_data()
                == old(buffer).unread_data().skip(4)),
            old(buffer).unread_data().len() < 4 ==> r is Err && final(buffer).unread_data()
                == Seq::<u8>::empty(),
    {
        let data = match take_bytes(buffer, 4) {
            Ok(d) => d,
            Err(e) => return Err(e),
        };
        let index = read_u32(data.as_slice(), 0);
        let m = Have { index };
        assert(data@.subrange(0, 4) =~= data@);
        assert(m.spec_bytes() =~= be32(length) + seq![Self::ID] + data@);
        Ok(m)
    }
}

impl ProtocolMessage for Have {
    open spec fn fits(&self) -> bool {
        true
    }

    open spec fn spec_bytes(&self) -> Seq<u8> {
        be32(5) + seq![4u8] + be32(self.index)
    }

    fn write(&self, out: &mut Vec<u8>) {
        write_u32(out, 5);
        out.push(4);
        write_u32(out, self.index);
        assert(final(out)@ =~= old(out)@ + self.spec_bytes());
    }
}

/// A request for `length` bytes of piece `index`, from offset `begin`.
#[derive(Debug, Clone, Copy, PartialEq, Eq, Structural)]
pub struct Request {
    pub index: u32,
    pub begin: u32,
    pub length: u32,
}

/// A request that is no longer wanted.
#[derive(Debug, Clone, Copy, PartialEq, Eq, Structural)]
pub struct Cancel {
    pub index: u32,
    pub begin: u32,
    pub length: u32,
}

/// The encoding of a message with id `id` and three `u32` fields.
pub open spec fn triple_bytes(id: u8, a: u32, b: u32, c: u32) -> Seq<u8> {
    be32(13) + seq![id] + be32(a) + be32(b) + be32(c)
}

fn write_triple(out: &mut Vec<u8>, id: u8, a: u32, b: u32, c: u32)
    ensures
        final(out)@ == old(out)@ + triple_bytes(id, a, b, c),
{
    write_u32(out, 13);
    out.push(id);
    write_u32(out, a);
    write_u32(out, b);
    write_u32(out, c);
    assert(final(out)@ =~= old(out)@ + triple_bytes(id, a, b, c));
}

/// Reads three `u32` fields (12 bytes) from `buffer`.
fn read_triple(buffer: &mut ReadBuffer) -> (r: Result<(u32, u32, u32), MessageError>)
    requires
        old(buffer).wf(),
    ensures
        final(buffer).wf(),
        final(buffer).spec_capacity() == old(buffer).spec_capacity(),
        old(buffer).unread_data().len() >= 12 ==> (r matches Ok((a, b, c)) && be32(a) + be32(b)
            + be32(c) == old(buffer).unread_data().take(12) && final(buffer).unread_data() == old(buffer).unread_data().skip(12)),
        old(buffer).unread_data().len() < 12 ==> r is Err && final(buffer).unread_data()
            == Seq::<u8>::empty(),
{
    let data = match take_bytes(buffer, 12) {
        Ok(d) => d,
        Err(e) => return Err(e),
    };
    let a = read_u32(data.as_slice(), 0);
    let b = read_u32(data.as_slice(), 4);
    let c = read_u32(data.as_slice(), 8);
    assert(data@ =~= data@.subrange(0, 4) + data@.subrange(4, 8) + data@.subrange(8, 12));
    Ok((a, b, c))
}

impl Request {
    pub const ID: u8 = 6;

    /// The piece this request is for.
    pub open spec fn spec_piece_index(self) -> int {
        self.index as int
    }

    /// The block of the piece this request is for.
    pub open spec fn spec_block_index(self) -> int {
        self.begin as int / (BLOCK_LENGTH as int)
    }

    /// The request for block `block_index` of piece `piece_index`.
    pub fn new(block_index: usize, piece_index: usize, piece_info: PieceInfo) -> (r: Request)
        requires
            piece_info.total_pieces > 0,
            piece_index == piece_info.total_pieces - 1 ==> piece_info.piece_length > 0,
            piece_info.spec_piece_length(piece_index as int) > 0,
            piece_index <= u32::MAX,
            block_index * BLOCK_LENGTH <= u32::MAX,
            piece_info.spec_block_length(block_index as int, piece_index as int) <= u32::MAX,
        ensures
            r.index == piece_index,
            r.begin == block_index * BLOCK_LENGTH,
            r.length == piece_info.spec_block_length(block_index as int, piece_index as int),
            r.spec_piece_index() == piece_index,
            r.spec_block_index() == block_index,
    {
        let length = piece_info.get_block_length(block_index, piece_index);
        Request {
            index: piece_index as u32,
            begin: (block_index * BLOCK_LENGTH) as u32,
            length: length as u32,
        }
    }

    /// The piece this request is for.
    pub fn piece_index(&self) -> (r: usize)
        ensures
            r == self.spec_piece_index(),
    {
        self.index as usize
    }

    /// The block of the piece this request is for.
    pub fn block_index(&self) -> (r: usize)
        ensures
            r == self.spec_block_index(),
    {
        self.begin as usize / BLOCK_LENGTH
    }

    /// Reads the data of a message of length `length` (13) from `buffer`.
    pub fn read_from(buffer: &mut ReadBuffer, length: u32) -> (r: Result<Request, MessageError>)
        requires
            old(buffer).wf(),
            length == 13,
        ensures
            final(buffer).wf(),
            final(buffer).spec_capacity() == old(buffer).spec_capacity(),
            old(buffer).unread_data().len() >= 12 ==> (r matches Ok(m) && m.spec_bytes() == be32(
                length,
            ) + seq![Self::ID] + old(buffer).unread_data().take(12) && final(buffer).unread_data()
                == old(buffer).unread_data().skip(12)),
            old(buffer).unread_data().len() < 12 ==> r is Err && final(buffer).unread_data()
                == Seq::<u8>::empty(),
    {
        let (index, begin, len) = match read_triple(buffer) {
            Ok(t) => t,
            Err(e) => return Err(e),
        };
        let m = Request { index, begin, length: len };
        assert(m.spec_bytes() =~= be32(length) + seq![Self::ID] + (be32(index) + be32(begin)
            + be32(len)));
        Ok(m)
    }
}

impl ProtocolMessage for Request {
    open spec fn fits(&self) -> bool {
        true
    }

    open spec fn spec_bytes(&self) -> Seq<u8> {
        triple_bytes(6, self.index, self.begin, self.length)
    }

    fn write(&self, out: &mut Vec<u8>) {
        write_triple(out, 6, self.index, self.begin, self.length);
    }
}

impl Cancel {
    pub const ID: u8 = 8;

    /// Reads the data of a message of length `length` (13) from `buffer`.
    pub fn read_from(buffer: &mut ReadBuffer, length: u32) -> (r: Result<Cancel, MessageError>)
        requires
            old(buffer).wf(),
            length == 13,
        ensures
            final(buffer).wf(),
            final(buffer).spec_capacity() == old(buffer).spec_capacity(),
            old(buffer).unread_data().len() >= 12 ==> (r matches Ok(m) && m.spec_bytes() == be32(
                length,
            ) + seq![Self::ID] + old(buffer).unread_data().take(12) && final(buffer).unread_data()
                == old(buffer).unread_data().skip(12)),
            old(buffer).unread_data().len() < 12 ==> r is Err && final(buffer).unread_data()
                == Seq::<u8>::empty(),
    {
        let (index, begin, len) = match read_triple(buffer) {
            Ok(t) => t,
            Err(e) => return Err(e),
        };
        let m = Cancel { index, begin, length: len };
        assert(m.spec_bytes() =~= be32(length) + seq![Self::ID] + (be32(index) + be32(begin)
            + be32(len)));
        Ok(m)
    }
}

impl ProtocolMessage for Cancel {
    open spec fn fits(&self) -> bool {
        true
    }

    open spec fn spec_bytes(&self) -> Seq<u8> {
        triple_bytes(8, self.index, self.begin, self.length)
    }

    fn write(&self, out: &mut Vec<u8>) {
        write_triple(out, 8, self.index, self.begin, self.length);
    }
}

/// The bytes of piece `index` from offset `begin`.
#[derive(Debug, Clone)]
pub struct Block {
    pub index: u32,
    pub begin: u32,
    pub block: Vec<u8>,
}

impl Block {
    pub const ID: u8 = 7;

    /// Reads the data of a message of length `length` (at least 9: the id byte, the index,
    /// the offset, then the block) from `buffer`.
    pub fn read_from(buffer: &mut ReadBuffer, length: u32) -> (r: Result<Block, MessageError>)
        requires
            old(buffer).wf(),
            length >= 9,
        ensures
            final(buffer).wf(),
            final(buffer).spec_capacity() == old(buffer).spec_capacity(),
            old(buffer).unread_data().len() >= length - 1 ==> (r matches Ok(m) && m.spec_bytes()
                == be32(length) + seq![Self::ID] + old(buffer).unread_data().take(length - 1)
                && final(buffer).unread_data() == old(buffer).unread_data().skip(length - 1)
                && m.index == from_be32(old(buffer).unread_data().take(4)) && m.begin
                == from_be32(old(buffer).unread_data().subrange(4, 8)) && m.block@ == old(
                buffer).unread_data().subrange(8, length - 1)),
            old(buffer).unread_data().len() < length - 1 ==> r is Err && final(buffer).unread_data() == Seq::<u8>::empty(),
    {
        let size = (length - 1) as usize;
        let data = match take_bytes(buffer, size) {
            Ok(d) => d,
            Err(e) => return Err(e),
        };
        let index = read_u32(data.as_slice(), 0);
        let begin = read_u32(data.as_slice(), 4);
        let mut block: Vec<u8> = Vec::new();
        write_all(&mut block, &data.as_slice()[8..size]);
        let m = Block { index, begin, block };
        assert(data@.subrange(0, 4) =~= old(buffer).unread_data().take(4));
        assert(data@.subrange(4, 8) =~= old(buffer).unread_data().subrange(4, 8));
        assert(data@.subrange(8, size as int) =~= old(buffer).unread_data().subrange(
            8,
            length - 1,
        ));
        assert(data@ =~= data@.subrange(0, 4) + data@.subrange(4, 8) + data@.subrange(
            8,
            size as int,
        ));
        assert(m.spec_bytes() =~= be32(length) + seq![Self::ID] + data@);
        Ok(m)
    }
}

impl ProtocolMessage for Block {
    open spec fn fits(&self) -> bool {
        9 + self.block@.len() <= u32::MAX
    }

    /// The length counts the id byte, the index, the offset and the block.
    open spec fn spec_bytes(&self) -> Seq<u8> {
        be32((9 + self.block@.len()) as u32) + seq![7u8] + be32(self.index) + be32(self.begin)
            + self.block@
    }

    fn write(&self, out: &mut Vec<u8>) {
        write_u32(out, (9 + self.block.len()) as u32);
        out.push(7);
        write_u32(out, self.index);
        write_u32(out, self.begin);
        write_all(out, self.block.as_slice());
        assert(final(out)@ =~= old(out)@ + self.spec_bytes());
    }
}

/// The port a peer's DHT node listens on.
#[derive(Debug, Clone, Copy, PartialEq, Eq, Structural)]
pub struct Port {
    pub listen_port: u16,
}

impl Port {
    pub const ID: u8 = 9;

    /// Reads the data of a message of length `length` (3) from `buffer`.
    pub fn read_from(buffer: &mut ReadBuffer, length: u32) -> (r: Result<Port, MessageError>)
        requires
            old(buffer).wf(),
            length == 3,
        ensures
            final(buffer).wf(),
            final(buffer).spec_capacity() == old(buffer).spec_capacity(),
            old(buffer).unread_data().len() >= 2 ==> (r matches Ok(m) && m.spec_bytes() == be32(
                length,
            ) + seq![Self::ID] + old(buffer).unread_data().take(2) && final(buffer).unread_data()
                == old(buffer).unread_data().skip(2)),
            old(buffer).unread_data().len() < 2 ==> r is Err && final(buffer).unread_data()
                == Seq::<u8>::empty(),
    {
        let data = match take_bytes(buffer, 2) {
            Ok(d) => d,
            Err(e) => return Err(e),
        };
        let listen_port = read_u16(data.as_slice(), 0);
        let m = Port { listen_port };
        assert(data@.subrange(0, 2) =~= data@);
        assert(m.spec_bytes() =~= be32(length) + seq![Self::ID] + data@);
        Ok(m)
    }
}

impl ProtocolMessage for Port {
    open spec fn fits(&self) -> bool {
        true
    }

    open spec fn spec_bytes(&self) -> Seq<u8> {
        be32(3) + seq![9u8] + be16(self.listen_port)
    }

    fn write(&self, out: &mut Vec<u8>) {
        write_u32(out, 3);
        out.push(9);
        write_u16(out, self.listen_port);
        assert(final(out)@ =~= old(out)@ + self.spec_bytes());
    }
}

/// The pieces a peer has, one bit per piece.
pub struct Bitfield {
    pub bitfield: BitVec,
}

impl Bitfield {
    pub const ID: u8 = 5;

    /// Reads the data of a message of length `length` (the id byte, then the bits packed
    /// eight per byte) from `buffer`.
    pub fn read_from(buffer: &mut ReadBuffer, length: u32) -> (r: Result<Bitfield, MessageError>)
        requires
            old(buffer).wf(),
            length >= 1,
            8 * (length - 1) <= usize::MAX,
        ensures
            final(buffer).wf(),
            final(buffer).spec_capacity() == old(buffer).spec_capacity(),
            old(buffer).unread_data().len() >= length - 1 ==> (r matches Ok(m) && bits(m.bitfield)
                == bytes_to_bits(old(buffer).unread_data().take(length - 1)) && final(
                buffer).unread_data() == old(buffer).unread_data().skip(length - 1)),
            old(buffer).unread_data().len() < length - 1 ==> r is Err && final(buffer).unread_data()
                == Seq::<u8>::empty(),
    {
        let size = (length - 1) as usize;
        let data = match take_bytes(buffer, size) {
            Ok(d) => d,
            Err(e) => return Err(e),
        };
        Ok(Bitfield { bitfield: bitvec_from_bytes(data.as_slice()) })
    }
}

impl ProtocolMessage for Bitfield {
    open spec fn fits(&self) -> bool {
        1 + pack_bits(bits(self.bitfield)).len() <= u32::MAX
    }

    /// The length counts the id byte and the packed bits.
    open spec fn spec_bytes(&self) -> Seq<u8> {
        be32((1 + pack_bits(bits(self.bitfield)).len()) as u32) + seq![5u8] + pack_bits(
            bits(self.bitfield),
        )
    }

    fn write(&self, out: &mut Vec<u8>) {
        let data = bitvec_to_bytes(&self.bitfield);
        write_u32(out, (1 + data.len()) as u32);
        out.push(5);
        write_all(out, data.as_slice());
        assert(final(out)@ =~= old(out)@ + self.spec_bytes());
    }
}

/// The encoding of a handshake is what reading one requires (the protocol string and its
/// length first), and the torrent and peer ids are read back from it.
pub proof fn lemma_handshake_roundtrip(h: Handshake)
    ensures
        h.spec_bytes().len() == HANDSHAKE_LENGTH,
        h.spec_bytes().take(20) == seq![19u8] + pstr(),
        h.spec_bytes().subrange(28, 48) == h.info_hash@,
        h.spec_bytes().subrange(48, 68) == h.peer_id@,
{
    let b = h.spec_bytes();
    assert(b.take(20) =~= seq![19u8] + pstr());
    assert(b.subrange(28, 48) =~= h.info_hash@);
    assert(b.subrange(48, 68) =~= h.peer_id@);
}

/// The fields of a request are read back from its encoding, after the length and id.
pub proof fn lemma_request_roundtrip(m: Request)
    ensures
        m.spec_bytes().len() == 17,
        m.spec_bytes().take(5) == be32(13) + seq![Request::ID],
        from_be32(m.spec_bytes().subrange(5, 9)) == m.index,
        from_be32(m.spec_bytes().subrange(9, 13)) == m.begin,
        from_be32(m.spec_bytes().subrange(13, 17)) == m.length,
{
    lemma_triple_roundtrip(6, m.index, m.begin, m.length);
}

/// The fields of a cancel are read back from its encoding, after the length and id.
pub proof fn lemma_cancel_roundtrip(m: Cancel)
    ensures
        m.spec_bytes().len() == 17,
        m.spec_bytes().take(5) == be32(13) + seq![Cancel::ID],
        from_be32(m.spec_bytes().subrange(5, 9)) == m.index,
        from_be32(m.spec_bytes().subrange(9, 13)) == m.begin,
        from_be32(m.spec_bytes().subrange(13, 17)) == m.length,
{
    lemma_triple_roundtrip(8, m.index, m.begin, m.length);
}

proof fn lemma_triple_roundtrip(id: u8, a: u32, b: u32, c: u32)
    ensures
        triple_bytes(id, a, b, c).len() == 17,
        triple_bytes(id, a, b, c).take(5) == be32(13) + seq![id],
        from_be32(triple_bytes(id, a, b, c).subrange(5, 9)) == a,
        from_be32(triple_bytes(id, a, b, c).subrange(9, 13)) == b,
        from_be32(triple_bytes(id, a, b, c).subrange(13, 17)) == c,
{
    lemma_be32_roundtrip(13);
    lemma_be32_roundtrip(a);
    lemma_be32_roundtrip(b);
    lemma_be32_roundtrip(c);
    let t = triple_bytes(id, a, b, c);
    assert(t.take(5) =~= be32(13) + seq![id]);
    assert(t.subrange(5, 9) =~= be32(a));
    assert(t.subrange(9, 13) =~= be32(b));
    assert(t.subrange(13, 17) =~= be32(c));
}

/// The piece index of a have is read back from its encoding, after the length and id.
pub proof fn lemma_have_roundtrip(m: Have)
    ensures
        m.spec_bytes().len() == 9,
        m.spec_bytes().take(5) == be32(5) + seq![Have::ID],
        from_be32(m.spec_bytes().subrange(5, 9)) == m.index,
{
    lemma_be32_roundtrip(m.index);
    lemma_be32_roundtrip(5);
    let t = m.spec_bytes();
    assert(t.take(5) =~= be32(5) + seq![Have::ID]);
    assert(t.subrange(5, 9) =~= be32(m.index));
}

/// The port of a port message is read back from its encoding, after the length and id.
pub proof fn lemma_port_roundtrip(m: Port)
    ensures
        m.spec_bytes().len() == 7,
        m.spec_bytes().take(5) == be32(3) + seq![Port::ID],
        from_be16(m.spec_bytes().subrange(5, 7)) == m.listen_port,
{
    lemma_be16_roundtrip(m.listen_port);
    lemma_be32_roundtrip(3);
    let t = m.spec_bytes();
    assert(t.take(5) =~= be32(3) + seq![Port::ID]);
    assert(t.subrange(5, 7) =~= be16(m.listen_port));
}

/// The fields of a block message are read back from its encoding, after the length and id;
/// its length counts everything after the length itself.
pub proof fn lemma_block_roundtrip(m: Block)
    requires
        m.fits(),
    ensures
        m.spec_bytes().len() == 13 + m.block@.len(),
        from_be32(m.spec_bytes().take(4)) == m.spec_bytes().len() - 4,
        m.spec_bytes()[4] == Block::ID,
        from_be32(m.spec_bytes().subrange(5, 9)) == m.index,
        from_be32(m.spec_bytes().subrange(9, 13)) == m.begin,
        m.spec_bytes().skip(13) == m.block@,
{
    let len = (9 + m.block@.len()) as u32;
    lemma_be32_roundtrip(len);
    lemma_be32_roundtrip(m.index);
    lemma_be32_roundtrip(m.begin);
    let t = m.spec_bytes();
    assert(t.take(4) =~= be32(len));
    assert(t.subrange(5, 9) =~= be32(m.index));
    assert(t.subrange(9, 13) =~= be32(m.begin));
    assert(t.skip(13) =~= m.block@);
}

} // verus!
