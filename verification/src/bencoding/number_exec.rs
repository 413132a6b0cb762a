use vstd::prelude::*;

use super::number::{
    all_digits, digits_value, find_first, first_at, is_digit, lemma_find_first_is, parse_i64_spec,
    parse_unsigned, parse_usize_spec,
};

verus! {

/// Index of the first `b` in `data`.
pub fn find_byte(data: &[u8], b: u8) -> (r: Option<usize>)
    ensures
        match r {
            Some(i) => find_first(data@, b) == Some(i as int) && i < data.len(),
            None => find_first(data@, b) is None,
        },
{
    let mut i: usize = 0;
    while i < data.len()
        invariant
            0 <= i <= data@.len(),
            forall|j: int| 0 <= j < i ==> data@[j] != b,
        decreases data@.len() - i,
    {
        if data[i] == b {
            proof {
                lemma_find_first_is(data@, b, i as int);
            }
            return Some(i);
        }
        i = i + 1;
    }
    proof {
        if exists|k: int| first_at(data@, b, k) {
            let k = choose|k: int| first_at(data@, b, k);
            assert(data@[k] == b);
        }
    }
    None
}

proof fn lemma_digits_value_take(s: Seq<u8>, i: int)
    requires
        0 <= i < s.len(),
    ensures
        digits_value(s.take(i + 1)) == digits_value(s.take(i)) * 10 + (s[i] - 48) as nat,
{
    assert(s.take(i + 1).drop_last() =~= s.take(i));
}

proof fn lemma_digits_value_grows(s: Seq<u8>, i: int, j: int)
    requires
        0 <= i <= j <= s.len(),
        all_digits(s),
    ensures
        digits_value(s.take(j)) >= digits_value(s.take(i)),
    decreases j - i,
{
    if i < j {
        lemma_digits_value_grows(s, i, j - 1);
        lemma_digits_value_take(s, j - 1);
        assert(is_digit(s[j - 1]));
    }
}

/// The value of the decimal digits `d`, when they are all digits and the value is at most
/// `max`.
fn digits_at_most(d: &[u8], max: u64) -> (r: Option<u64>)
    requires
        max >= 9,
    ensures
        match r {
            Some(v) => all_digits(d@) && digits_value(d@) <= max && v == digits_value(d@),
            None => !(all_digits(d@) && digits_value(d@) <= max),
        },
{
    let mut value: u64 = 0;
    let mut i: usize = 0;
    assert(d@.take(0) =~= Seq::<u8>::empty());
    while i < d.len()
        invariant
            0 <= i <= d@.len(),
            all_digits(d@.take(i as int)),
            value == digits_value(d@.take(i as int)),
            value <= max,
            max >= 9,
        decreases d@.len() - i,
    {
        let c = d[i];
        proof {
            lemma_digits_value_take(d@, i as int);
        }
        if c < 48 || c > 57 {
            assert(!is_digit(d@[i as int]));
            return None;
        }
        let digit = (c - 48) as u64;
        if value > (max - digit) / 10 {
            proof {
                assert(value * 10 + digit > max) by (nonlinear_arith)
                    requires
                        value > (max - digit) / 10,
                        digit <= max,
                ;
                if all_digits(d@) {
                    lemma_digits_value_grows(d@, i + 1, d@.len() as int);
                    assert(d@.take(d@.len() as int) =~= d@);
                }
            }
            return None;
        }
        proof {
            assert(value * 10 + digit <= max) by (nonlinear_arith)
                requires
                    value <= (max - digit) / 10,
                    digit <= max,
            ;
        }
        value = value * 10 + digit;
        i = i + 1;
        assert(all_digits(d@.take(i as int))) by {
            assert forall|j: int| 0 <= j < i implies is_digit(#[trigger] d@.take(i as int)[j]) by {
                if j < i - 1 {
                    assert(d@.take(i as int)[j] == d@.take(i - 1)[j]);
                }
            }
        }
    }
    assert(d@.take(d@.len() as int) =~= d@);
    Some(value)
}

/// What `parse_unsigned(s, max)` is, for a text `s`.
fn parse_unsigned_text(s: &[u8], max: u64) -> (r: Option<u64>)
    requires
        max >= 9,
    ensures
        match parse_unsigned(s@, max as nat) {
            Some(n) => r == Some(n as u64),
            None => r is None,
        },
{
    let d = if s.len() > 0 && s[0] == 43u8 {
        &s[1..s.len()]
    } else {
        s
    };
    assert(s.len() > 0 && s@[0] == 43u8 ==> d@ =~= s@.drop_first());
    if d.len() == 0 {
        return None;
    }
    digits_at_most(d, max)
}

/// Parses `s` as `str::parse::<usize>` does.
pub fn parse_usize_text(s: &[u8]) -> (r: Option<usize>)
    ensures
        r == parse_usize_spec(s@),
{
    match parse_unsigned_text(s, usize::MAX as u64) {
        Some(v) => Some(v as usize),
        None => None,
    }
}

/// Parses `s` as `str::parse::<i64>` does.
pub fn parse_i64_text(s: &[u8]) -> (r: Option<i64>)
    ensures
        r == parse_i64_spec(s@),
{
    if s.len() > 0 && s[0] == 45u8 {
        let d = &s[1..s.len()];
        assert(d@ =~= s@.drop_first());
        if d.len() == 0 {
            return None;
        }
        match digits_at_most(d, 0x8000_0000_0000_0000u64) {
            Some(v) => {
                if v == 0x8000_0000_0000_0000u64 {
                    Some(i64::MIN)
                } else {
                    Some(-(v as i64))
                }
            },
            None => None,
        }
    } else {
        match parse_unsigned_text(s, i64::MAX as u64) {
            Some(v) => Some(v as i64),
            None => None,
        }
    }
}

} // verus!
