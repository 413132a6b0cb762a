use vstd::prelude::*;

verus! {

/// Big-endian bytes of a 16-bit value.
pub open spec fn be16(v: u16) -> Seq<u8> {
    seq![(v / 256) as u8, (v % 256) as u8]
}

/// Big-endian bytes of a 32-bit value.
pub open spec fn be32(v: u32) -> Seq<u8> {
    seq![
        (v / 16777216) as u8,
        ((v / 65536) % 256) as u8,
        ((v / 256) % 256) as u8,
        (v % 256) as u8,
    ]
}

/// The 16-bit value of two big-endian bytes.
pub open spec fn from_be16(s: Seq<u8>) -> u16
    recommends
        s.len() >= 2,
{
    (s[0] * 256 + s[1]) as u16
}

/// The 32-bit value of four big-endian bytes.
pub open spec fn from_be32(s: Seq<u8>) -> u32
    recommends
        s.len() >= 4,
{
    (s[0] * 16777216 + s[1] * 65536 + s[2] * 256 + s[3]) as u32
}

/// Reading back the big-endian bytes of a value gives the value.
pub proof fn lemma_be16_roundtrip(v: u16)
    ensures
        from_be16(be16(v)) == v,
        be16(v).len() == 2,
{
}

/// Reading back the big-endian bytes of a value gives the value.
pub proof fn lemma_be32_roundtrip(v: u32)
    ensures
        from_be32(be32(v)) == v,
        be32(v).len() == 4,
{
    let a = v / 16777216;
    let b = (v / 65536) % 256;
    let c = (v / 256) % 256;
    let d = v % 256;
    assert(a * 16777216 + b * 65536 + c * 256 + d == v) by (bit_vector)
        requires
            a == v / 16777216,
            b == (v / 65536) % 256,
            c == (v / 256) % 256,
            d == v % 256,
    ;
    assert(be32(v)[0] == a && be32(v)[1] == b && be32(v)[2] == c && be32(v)[3] == d);
}

/// Encoding two bytes read as a big-endian value gives the two bytes back.
pub proof fn lemma_be16_of_bytes(s: Seq<u8>)
    requires
        s.len() == 2,
    ensures
        be16(from_be16(s)) == s,
{
    let v = s[0] * 256 + s[1];
    assert(v / 256 == s[0] && v % 256 == s[1]) by (nonlinear_arith)
        requires
            v == s[0] * 256 + s[1],
            0 <= s[0] < 256,
            0 <= s[1] < 256,
    ;
    assert(be16(from_be16(s)) =~= s);
}

/// Encoding four bytes read as a big-endian value gives the four bytes back.
pub proof fn lemma_be32_of_bytes(s: Seq<u8>)
    requires
        s.len() == 4,
    ensures
        be32(from_be32(s)) == s,
{
    let v = s[0] * 16777216 + s[1] * 65536 + s[2] * 256 + s[3];
    assert(v / 16777216 == s[0] && (v / 65536) % 256 == s[1] && (v / 256) % 256 == s[2] && v
        % 256 == s[3]) by (nonlinear_arith)
        requires
            v == s[0] * 16777216 + s[1] * 65536 + s[2] * 256 + s[3],
            0 <= s[0] < 256,
            0 <= s[1] < 256,
            0 <= s[2] < 256,
            0 <= s[3] < 256,
    ;
    assert(be32(from_be32(s)) =~= s);
}

/// Appends the big-endian bytes of `v`.
pub fn write_u16(out: &mut Vec<u8>, v: u16)
    ensures
        final(out)@ == old(out)@ + be16(v),
{
    out.push((v / 256) as u8);
    out.push((v % 256) as u8);
    assert(final(out)@ =~= old(out)@ + be16(v));
}

/// Appends the big-endian bytes of `v`.
pub fn write_u32(out: &mut Vec<u8>, v: u32)
    ensures
        final(out)@ == old(out)@ + be32(v),
{
    out.push((v / 16777216) as u8);
    out.push(((v / 65536) % 256) as u8);
    out.push(((v / 256) % 256) as u8);
    out.push((v % 256) as u8);
    assert(final(out)@ =~= old(out)@ + be32(v));
}

/// The big-endian value of the two bytes of `data` at `at`.
pub fn read_u16(data: &[u8], at: usize) -> (r: u16)
    requires
        at + 2 <= data@.len(),
    ensures
        r == from_be16(data@.subrange(at as int, at + 2)),
        be16(r) == data@.subrange(at as int, at + 2),
{
    proof {
        lemma_be16_of_bytes(data@.subrange(at as int, at + 2));
    }
    (data[at] as u16) * 256 + (data[at + 1] as u16)
}

/// The big-endian value of the four bytes of `data` at `at`.
pub fn read_u32(data: &[u8], at: usize) -> (r: u32)
    requires
        at + 4 <= data@.len(),
    ensures
        r == from_be32(data@.subrange(at as int, at + 4)),
        be32(r) == data@.subrange(at as int, at + 4),
{
    proof {
        lemma_be32_of_bytes(data@.subrange(at as int, at + 4));
    }
    (data[at] as u32) * 16777216 + (data[at + 1] as u32) * 65536 + (data[at + 2] as u32) * 256 + (
    data[at + 3] as u32)
}

/// Appends the bytes of `data`.
pub fn write_all(out: &mut Vec<u8>, data: &[u8])
    ensures
        final(out)@ == old(out)@ + data@,
{
    let mut i: usize = 0;
    while i < data.len()
        invariant
            i <= data@.len(),
            out@ == old(out)@ + data@.take(i as int),
        decreases data@.len() - i,
    {
        out.push(data[i]);
        i = i + 1;
        assert(out@ =~= old(out)@ + data@.take(i as int));
    }
    assert(data@.take(i as int) =~= data@);
}

} // verus!
