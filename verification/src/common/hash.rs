use vstd::prelude::*;

use crate::bencoding::data_kind::{key_bytes, string_from_utf8};
use crate::bencoding::format::lemma_ascii_valid_utf8;
use sha1::Digest;

verus! {

broadcast use vstd::utf8::decode_utf8_encode_utf8;

/// Length in bytes of a SHA-1 digest.
pub const SHA1_HASH_LENGTH: usize = 20;

/// A SHA-1 digest.
pub type Sha1Hash = [u8; 20];

/// The SHA-1 digest of `data`.
pub uninterp spec fn sha1_digest(data: Seq<u8>) -> Seq<u8>;

/// The SHA-1 digest of `data`, computed by the `sha1` crate (`Sha1::digest`). The result
/// is named `sha1_digest` of the input; nothing more is stated of it.
#[verifier::external_body]
pub fn hash_to_bytes(data: &[u8]) -> (r: Sha1Hash)
    ensures
        r@ == sha1_digest(data@),
{
    sha1::Sha1::digest(data).into()
}

/// Whether `b` is an ASCII letter or digit.
pub open spec fn is_ascii_alphanumeric(b: u8) -> bool {
    (48 <= b <= 57) || (65 <= b <= 90) || (97 <= b <= 122)
}

/// The upper-case hexadecimal digit of a value below 16.
pub open spec fn hex_digit(n: int) -> u8 {
    if n < 10 {
        (48 + n) as u8
    } else {
        (55 + n) as u8
    }
}

/// How one byte is written in a URI: ASCII letters and digits as they are, every other
/// byte as `%` and two upper-case hexadecimal digits.
pub open spec fn uri_byte(b: u8) -> Seq<u8> {
    if is_ascii_alphanumeric(b) {
        seq![b]
    } else {
        seq![37u8, hex_digit((b / 16) as int), hex_digit((b % 16) as int)]
    }
}

/// How a byte string is written in a URI, byte after byte.
pub open spec fn uri_bytes(s: Seq<u8>) -> Seq<u8>
    decreases s.len(),
{
    if s.len() == 0 {
        Seq::empty()
    } else {
        uri_bytes(s.drop_last()) + uri_byte(s.last())
    }
}

proof fn lemma_uri_bytes_ascii(s: Seq<u8>)
    ensures
        forall|i: int| 0 <= i < uri_bytes(s).len() ==> #[trigger] uri_bytes(s)[i] < 128,
        uri_bytes(s).len() <= 3 * s.len(),
    decreases s.len(),
{
    if s.len() > 0 {
        lemma_uri_bytes_ascii(s.drop_last());
        let a = uri_bytes(s.drop_last());
        let b = uri_byte(s.last());
        assert forall|i: int| 0 <= i < (a + b).len() implies #[trigger] (a + b)[i] < 128 by {
            if i >= a.len() {
                assert((a + b)[i] == b[i - a.len()]);
            }
        }
    }
}

fn hex_digit_exec(n: u8) -> (r: u8)
    requires
        n < 16,
    ensures
        r == hex_digit(n as int),
{
    if n < 10 {
        48 + n
    } else {
        55 + n
    }
}

/// Writes `data` as URI text: ASCII letters and digits stay, every other byte becomes
/// `%` and two upper-case hexadecimal digits.
pub fn bytes_to_uri(data: &[u8]) -> (r: String)
    requires
        3 * data@.len() <= usize::MAX,
    ensures
        key_bytes(r) == uri_bytes(data@),
{
    let mut out: Vec<u8> = Vec::new();
    let mut i: usize = 0;
    while i < data.len()
        invariant
            i <= data@.len(),
            out@ == uri_bytes(data@.take(i as int)),
        decreases data@.len() - i,
    {
        let byte = data[i];
        let alnum = (48 <= byte && byte <= 57) || (65 <= byte && byte <= 90) || (97 <= byte
            && byte <= 122);
        if alnum {
            out.push(byte);
        } else {
            out.push(37);
            out.push(hex_digit_exec(byte / 16));
            out.push(hex_digit_exec(byte % 16));
        }
        proof {
            let t = data@.take(i + 1);
            assert(t.drop_last() =~= data@.take(i as int));
            assert(t.last() == byte);
        }
        i = i + 1;
        assert(out@ =~= uri_bytes(data@.take(i as int)));
    }
    assert(data@.take(data@.len() as int) =~= data@);
    proof {
        lemma_uri_bytes_ascii(data@);
        lemma_ascii_valid_utf8(out@);
    }
    let ghost bytes = out@;
    match string_from_utf8(out) {
        Some(s) => s,
        None => {
            proof {
                assert(false);
            }
            String::new()
        },
    }
}

/// The SHA-1 digest of `data`, written as URI text.
pub fn hash_to_uri_str(data: &[u8]) -> (r: String)
    ensures
        key_bytes(r) == uri_bytes(sha1_digest(data@)),
{
    let hash = hash_to_bytes(data);
    bytes_to_uri(&hash)
}

/// Whether the SHA-1 digest of `piece` is the expected hash of piece `index`.
pub fn is_valid_piece(piece: &[u8], index: usize, piece_hashes: &Vec<Sha1Hash>) -> (r: bool)
    requires
        index < piece_hashes@.len(),
    ensures
        r == (sha1_digest(piece@) == piece_hashes@[index as int]@),
{
    let actual = hash_to_bytes(piece);
    let expected = &piece_hashes[index];
    let mut i: usize = 0;
    while i < 20
        invariant
            i <= 20,
            actual@ == sha1_digest(piece@),
            index < piece_hashes@.len(),
            *expected == piece_hashes@[index as int],
            actual@.len() == 20,
            expected@.len() == 20,
            forall|j: int| 0 <= j < i ==> actual@[j] == expected@[j],
        decreases 20 - i,
    {
        if actual[i] != expected[i] {
            assert(actual@[i as int] != expected@[i as int]);
            return false;
        }
        i = i + 1;
    }
    assert(actual@ =~= expected@);
    true
}

} // verus!
