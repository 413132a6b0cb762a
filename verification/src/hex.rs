use vstd::prelude::*;

use vstd::string::StringSliceAdditionalSpecFns;
use vstd::utf8::{is_char_boundary, is_char_boundary_iff_not_is_continuation_byte, valid_utf8};

verus! {

#[verifier::external_type_specification]
#[verifier::external_body]
pub struct ExParseIntError(std::num::ParseIntError);

/// The value of a hexadecimal digit (either case).
pub open spec fn hex_value(c: u8) -> Option<int> {
    if 48 <= c <= 57 {
        Some(c - 48)
    } else if 65 <= c <= 70 {
        Some(c - 55)
    } else if 97 <= c <= 102 {
        Some(c - 87)
    } else {
        None
    }
}

/// What `u8::from_str_radix` reads from two ASCII bytes in base 16: two digits, or a `+`
/// sign and one digit.
pub open spec fn hex_pair(a: u8, b: u8) -> Option<u8> {
    match (hex_value(a), hex_value(b)) {
        (Some(x), Some(y)) => Some((16 * x + y) as u8),
        (None, Some(y)) => if a == 43 {
            Some(y as u8)
        } else {
            None
        },
        _ => None,
    }
}

/// The byte written by the two bytes of `s` in base 16 (`u8::from_str_radix`, which also
/// takes a leading `+`), or the parse error; a character of two bytes is no digit.
#[verifier::external_body]
fn parse_hex_pair(s: &str) -> (r: Result<u8, std::num::ParseIntError>)
    requires
        s.spec_bytes().len() == 2,
    ensures
        match hex_pair(s.spec_bytes()[0], s.spec_bytes()[1]) {
            Some(v) => r == Ok::<u8, std::num::ParseIntError>(v),
            None => r is Err,
        },
{
    u8::from_str_radix(s, 16)
}

/// The bytes written in hexadecimal by `s`, two bytes of text per byte; `s` must be of even
/// length, with a character starting at every even position. Fails on the first pair that
/// is not a byte in base 16.
pub fn decode_hex(s: &str) -> (r: Result<Vec<u8>, std::num::ParseIntError>)
    requires
        valid_utf8(s.spec_bytes()),
        s.spec_bytes().len() % 2 == 0,
        forall|k: int|
            0 <= k <= s.spec_bytes().len() / 2 ==> #[trigger] is_char_boundary(
                s.spec_bytes(),
                2 * k,
            ),
    ensures
        (forall|k: int|
            0 <= k < s.spec_bytes().len() / 2 ==> #[trigger] hex_pair(
                s.spec_bytes()[2 * k],
                s.spec_bytes()[2 * k + 1],
            ) is Some) <==> r is Ok,
        r matches Ok(v) ==> v@.len() == s.spec_bytes().len() / 2 && forall|k: int|
            0 <= k < v@.len() ==> hex_pair(s.spec_bytes()[2 * k], s.spec_bytes()[2 * k + 1])
                == Some(#[trigger] v@[k]),
{
    let bytes = s.as_bytes();
    let n = bytes.len();
    let mut out: Vec<u8> = Vec::new();
    let mut i: usize = 0;
    while i < n
        invariant
            bytes@ == s.spec_bytes(),
            n == bytes@.len(),
            n % 2 == 0,
            i % 2 == 0,
            i <= n,
            out@.len() == i / 2,
            valid_utf8(s.spec_bytes()),
            forall|k: int|
                0 <= k <= s.spec_bytes().len() / 2 ==> #[trigger] is_char_boundary(
                    s.spec_bytes(),
                    2 * k,
                ),
            forall|k: int|
                0 <= k < out@.len() ==> hex_pair(bytes@[2 * k], bytes@[2 * k + 1]) == Some(
                    #[trigger] out@[k],
                ),
        decreases n - i,
    {
        assert(is_char_boundary(s.spec_bytes(), 2 * ((i + 2) / 2) as int));
        assert(is_char_boundary(s.spec_bytes(), 2 * (i / 2) as int));
        let pair = pair_str(s, i);
        match parse_hex_pair(pair) {
            Ok(v) => {
                out.push(v);
            },
            Err(e) => {
                assert(hex_pair(bytes@[2 * (i / 2) as int], bytes@[2 * (i / 2) as int + 1]) is None);
                return Err(e);
            },
        }
        i = i + 2;
    }
    assert forall|k: int|
        0 <= k < s.spec_bytes().len() / 2 implies #[trigger] hex_pair(
        s.spec_bytes()[2 * k],
        s.spec_bytes()[2 * k + 1],
    ) is Some by {
        assert(hex_pair(bytes@[2 * k], bytes@[2 * k + 1]) == Some(out@[k]));
    }
    Ok(out)
}

/// The two bytes of `s` at byte `i`, where characters start.
fn pair_str(s: &str, i: usize) -> (r: &str)
    requires
        valid_utf8(s.spec_bytes()),
        i + 2 <= s.spec_bytes().len() <= usize::MAX,
        is_char_boundary(s.spec_bytes(), i as int),
        is_char_boundary(s.spec_bytes(), i + 2),
    ensures
        r.spec_bytes() == s.spec_bytes().subrange(i as int, i + 2),
{
    broadcast use vstd::utf8::group_utf8_lib;

    let (left, _) = s.split_at(i + 2);
    proof {
        assert(valid_utf8(left.spec_bytes()));
        if i > 0 {
            assert(left.spec_bytes()[i as int] == s.spec_bytes()[i as int]);
            is_char_boundary_iff_not_is_continuation_byte(s.spec_bytes(), i as int);
            is_char_boundary_iff_not_is_continuation_byte(left.spec_bytes(), i as int);
        }
    }
    let (_, pair) = left.split_at(i);
    assert(pair.spec_bytes() =~= s.spec_bytes().subrange(i as int, i + 2));
    pair
}

} // verus!
