use vstd::prelude::*;

use crate::wire::{be16, be32, from_be16, from_be32, read_u16, read_u32, write_u16, write_u32};

verus! {

/// The header that starts every uTP packet.
#[derive(Debug, Clone, Copy, PartialEq, Eq, Structural)]
pub struct Header {
    /// Packet type (top four bits), protocol version (next four) and first extension (low
    /// byte).
    pub type_ver_extension: u16,
    pub connection_id: u16,
    pub timestamp_microseconds: u32,
    pub timestamp_difference_microseconds: u32,
    pub wnd_size: u32,
    pub seq_nr: u16,
    pub ack_nr: u16,
}

/// Kinds of uTP packet.
#[derive(PartialEq, Eq, Structural, Debug, Clone, Copy)]
pub enum Type {
    StData,
    StFin,
    StState,
    StReset,
    StSyn,
}

/// The number of a packet type in the header.
pub open spec fn type_code(t: Type) -> u16 {
    match t {
        Type::StData => 0,
        Type::StFin => 1,
        Type::StState => 2,
        Type::StReset => 3,
        Type::StSyn => 4,
    }
}

/// The packet type of number `code`.
pub open spec fn type_of_code(code: int) -> Type {
    if code == 0 {
        Type::StData
    } else if code == 1 {
        Type::StFin
    } else if code == 2 {
        Type::StState
    } else if code == 3 {
        Type::StReset
    } else {
        Type::StSyn
    }
}

/// Length in bytes of an encoded header.
pub const HEADER_SIZE: usize = 20;

impl Header {
    /// The packet type number of this header.
    pub open spec fn type_number(self) -> int {
        (self.type_ver_extension / 4096) as int
    }

    /// The encoding of this header: its fields in order, big-endian.
    pub open spec fn spec_bytes(self) -> Seq<u8> {
        be16(self.type_ver_extension) + be16(self.connection_id) + be32(
            self.timestamp_microseconds,
        ) + be32(self.timestamp_difference_microseconds) + be32(self.wnd_size) + be16(
            self.seq_nr,
        ) + be16(self.ack_nr)
    }

    /// The packet type; the header must name one of the known types.
    pub fn get_type(&self) -> (r: Type)
        requires
            self.type_number() <= 4,
        ensures
            r == type_of_code(self.type_number()),
    {
        let value = self.type_ver_extension / 4096;
        if value == 0 {
            Type::StData
        } else if value == 1 {
            Type::StFin
        } else if value == 2 {
            Type::StState
        } else if value == 3 {
            Type::StReset
        } else {
            Type::StSyn
        }
    }

    /// The protocol version.
    pub fn get_ver(&self) -> (r: u8)
        ensures
            r == (self.type_ver_extension / 256) % 16,
    {
        ((self.type_ver_extension / 256) % 16) as u8
    }

    /// The first extension.
    pub fn get_ext(&self) -> (r: u8)
        ensures
            r == self.type_ver_extension % 256,
    {
        (self.type_ver_extension % 256) as u8
    }

    /// A header of type `type_`, protocol version 1 and no extension.
    pub fn new(
        type_: Type,
        connection_id: u16,
        timestamp_microseconds: u32,
        timestamp_difference_microseconds: u32,
        wnd_size: u32,
        seq_nr: u16,
        ack_nr: u16,
    ) -> (r: Header)
        ensures
            r.type_ver_extension == type_code(type_) * 4096 + 256,
            r.connection_id == connection_id,
            r.timestamp_microseconds == timestamp_microseconds,
            r.timestamp_difference_microseconds == timestamp_difference_microseconds,
            r.wnd_size == wnd_size,
            r.seq_nr == seq_nr,
            r.ack_nr == ack_nr,
    {
        let code: u16 = match type_ {
            Type::StData => 0,
            Type::StFin => 1,
            Type::StState => 2,
            Type::StReset => 3,
            Type::StSyn => 4,
        };
        let type_ver_extension: u16 = code * 4096 + 256;
        Header {
            type_ver_extension,
            connection_id,
            timestamp_microseconds,
            timestamp_difference_microseconds,
            wnd_size,
            seq_nr,
            ack_nr,
        }
    }

    /// Appends the encoding of this header.
    pub fn write_to(&self, out: &mut Vec<u8>)
        ensures
            final(out)@ == old(out)@ + self.spec_bytes(),
    {
        write_u16(out, self.type_ver_extension);
        write_u16(out, self.connection_id);
        write_u32(out, self.timestamp_microseconds);
        write_u32(out, self.timestamp_difference_microseconds);
        write_u32(out, self.wnd_size);
        write_u16(out, self.seq_nr);
        write_u16(out, self.ack_nr);
        assert(final(out)@ =~= old(out)@ + self.spec_bytes());
    }

    /// Reads a header from the first `HEADER_SIZE` bytes of `data`; `None` when there are
    /// fewer.
    pub fn read_from(data: &[u8]) -> (r: Option<Header>)
        ensures
            data@.len() < HEADER_SIZE ==> r is None,
            data@.len() >= HEADER_SIZE ==> (r matches Some(h) && h.spec_bytes() == data@.take(
                HEADER_SIZE as int,
            )),
    {
        if data.len() < HEADER_SIZE {
            return None;
        }
        let h = Header {
            type_ver_extension: read_u16(data, 0),
            connection_id: read_u16(data, 2),
            timestamp_microseconds: read_u32(data, 4),
            timestamp_difference_microseconds: read_u32(data, 8),
            wnd_size: read_u32(data, 12),
            seq_nr: read_u16(data, 16),
            ack_nr: read_u16(data, 18),
        };
        let ghost d = data@;
        assert(h.spec_bytes() =~= d.subrange(0, 2) + d.subrange(2, 4) + d.subrange(4, 8)
            + d.subrange(8, 12) + d.subrange(12, 16) + d.subrange(16, 18) + d.subrange(18, 20));
        assert(h.spec_bytes() =~= data@.take(20));
        Some(h)
    }
}

/// Reading back the encoding of a header gives the header.
pub proof fn lemma_header_roundtrip(h: Header, rest: Seq<u8>)
    ensures
        h.spec_bytes().len() == HEADER_SIZE,
        (h.spec_bytes() + rest).take(HEADER_SIZE as int) == h.spec_bytes(),
{
    assert((h.spec_bytes() + rest).take(20) =~= h.spec_bytes());
}

/// Two headers with the same encoding are the same header: reading back an encoded header
/// gives that header.
pub proof fn lemma_header_bytes_injective(h1: Header, h2: Header)
    requires
        h1.spec_bytes() == h2.spec_bytes(),
    ensures
        h1 == h2,
{
    lemma_fields(h1);
    lemma_fields(h2);
}

/// The fields of a header are read back from its encoding.
pub proof fn lemma_fields(h: Header)
    ensures
        from_be16(h.spec_bytes().subrange(0, 2)) == h.type_ver_extension,
        from_be16(h.spec_bytes().subrange(2, 4)) == h.connection_id,
        from_be32(h.spec_bytes().subrange(4, 8)) == h.timestamp_microseconds,
        from_be32(h.spec_bytes().subrange(8, 12)) == h.timestamp_difference_microseconds,
        from_be32(h.spec_bytes().subrange(12, 16)) == h.wnd_size,
        from_be16(h.spec_bytes().subrange(16, 18)) == h.seq_nr,
        from_be16(h.spec_bytes().subrange(18, 20)) == h.ack_nr,
{
    crate::wire::lemma_be16_roundtrip(h.type_ver_extension);
    crate::wire::lemma_be16_roundtrip(h.connection_id);
    crate::wire::lemma_be32_roundtrip(h.timestamp_microseconds);
    crate::wire::lemma_be32_roundtrip(h.timestamp_difference_microseconds);
    crate::wire::lemma_be32_roundtrip(h.wnd_size);
    crate::wire::lemma_be16_roundtrip(h.seq_nr);
    crate::wire::lemma_be16_roundtrip(h.ack_nr);
    let b = h.spec_bytes();
    assert(b.subrange(0, 2) =~= be16(h.type_ver_extension));
    assert(b.subrange(2, 4) =~= be16(h.connection_id));
    assert(b.subrange(4, 8) =~= be32(h.timestamp_microseconds));
    assert(b.subrange(8, 12) =~= be32(h.timestamp_difference_microseconds));
    assert(b.subrange(12, 16) =~= be32(h.wnd_size));
    assert(b.subrange(16, 18) =~= be16(h.seq_nr));
    assert(b.subrange(18, 20) =~= be16(h.ack_nr));
}

/// A header made with `Header::new` names its type, version 1 and no extension.
pub proof fn lemma_new_header_fields(t: Type, h: Header)
    requires
        h.type_ver_extension == type_code(t) * 4096 + 256,
    ensures
        h.type_number() <= 4,
        type_of_code(h.type_number()) == t,
        (h.type_ver_extension / 256) % 16 == 1,
        h.type_ver_extension % 256 == 0,
{
}

} // verus!
