use vstd::prelude::*;

verus! {

pub open spec fn is_digit(b: u8) -> bool {
    48 <= b <= 57
}

pub open spec fn all_digits(s: Seq<u8>) -> bool {
    forall|i: int| 0 <= i < s.len() ==> is_digit(#[trigger] s[i])
}

/// The number written by the ASCII decimal digits `s` (most significant first).
pub open spec fn digits_value(s: Seq<u8>) -> nat
    decreases s.len(),
{
    if s.len() == 0 {
        0
    } else {
        digits_value(s.drop_last()) * 10 + (s.last() - 48) as nat
    }
}

/// The shortest decimal text of `n`.
pub open spec fn decimal(n: nat) -> Seq<u8>
    decreases n,
{
    if n < 10 {
        seq![(n + 48) as u8]
    } else {
        decimal(n / 10).push((n % 10 + 48) as u8)
    }
}

/// The decimal text of a signed integer, with a leading `-` when negative.
pub open spec fn int_text(i: int) -> Seq<u8> {
    if i < 0 {
        seq![45u8] + decimal((-i) as nat)
    } else {
        decimal(i as nat)
    }
}

/// What parsing `s` as an unsigned integer of at most `max` yields: an optional `+`
/// followed by at least one decimal digit, with a value of at most `max`.
pub open spec fn parse_unsigned(s: Seq<u8>, max: nat) -> Option<nat> {
    let d = if s.len() > 0 && s[0] == 43u8 {
        s.drop_first()
    } else {
        s
    };
    if d.len() > 0 && all_digits(d) && digits_value(d) <= max {
        Some(digits_value(d))
    } else {
        None
    }
}

/// What `str::parse::<usize>` yields on the text `s`.
pub open spec fn parse_usize_spec(s: Seq<u8>) -> Option<usize> {
    match parse_unsigned(s, usize::MAX as nat) {
        Some(n) => Some(n as usize),
        None => None,
    }
}

/// What `str::parse::<i64>` yields on the text `s`: an optional sign followed by at
/// least one decimal digit, with a value that fits in an `i64`.
pub open spec fn parse_i64_spec(s: Seq<u8>) -> Option<i64> {
    if s.len() > 0 && s[0] == 45u8 {
        let d = s.drop_first();
        if d.len() > 0 && all_digits(d) && digits_value(d) <= 0x8000_0000_0000_0000 {
            Some((-(digits_value(d) as int)) as i64)
        } else {
            None
        }
    } else {
        match parse_unsigned(s, i64::MAX as nat) {
            Some(n) => Some(n as i64),
            None => None,
        }
    }
}

pub proof fn lemma_decimal(n: nat)
    ensures
        decimal(n).len() > 0,
        all_digits(decimal(n)),
        digits_value(decimal(n)) == n,
        decimal(n)[0] != 43u8,
        decimal(n)[0] != 45u8,
    decreases n,
{
    if n >= 10 {
        lemma_decimal(n / 10);
        let d = decimal(n);
        assert(d.drop_last() =~= decimal(n / 10));
        assert(d[0] == decimal(n / 10)[0]);
        assert(d.last() == (n % 10 + 48) as u8);
        assert((d.last() - 48) as nat == n % 10);
        assert(digits_value(d) == digits_value(decimal(n / 10)) * 10 + n % 10);
        assert((n / 10) * 10 + n % 10 == n);
    } else {
        let d = decimal(n);
        assert(d.drop_last().len() == 0);
        assert(digits_value(d.drop_last()) == 0);
    }
}

/// Parsing the decimal text of a number gives the number back.
pub proof fn lemma_parse_decimal(n: nat)
    requires
        n <= usize::MAX,
    ensures
        parse_usize_spec(decimal(n)) == Some(n as usize),
{
    lemma_decimal(n);
}

/// Parsing the text of an `i64` gives it back.
pub proof fn lemma_parse_int_text(i: i64)
    ensures
        parse_i64_spec(int_text(i as int)) == Some(i),
        all_digits(int_text(i as int).drop_first()) || all_digits(int_text(i as int)),
{
    if i < 0 {
        let n = (-(i as int)) as nat;
        lemma_decimal(n);
        assert((seq![45u8] + decimal(n)).drop_first() =~= decimal(n));
    } else {
        lemma_decimal(i as nat);
    }
}

/// `b` occurs in `s` first at index `i`.
pub open spec fn first_at(s: Seq<u8>, b: u8, i: int) -> bool {
    &&& 0 <= i < s.len()
    &&& s[i] == b
    &&& forall|j: int| 0 <= j < i ==> s[j] != b
}

/// Index of the first occurrence of `b` in `s`.
pub open spec fn find_first(s: Seq<u8>, b: u8) -> Option<int> {
    if exists|i: int| first_at(s, b, i) {
        Some(choose|i: int| first_at(s, b, i))
    } else {
        None
    }
}

pub proof fn lemma_first_at_unique(s: Seq<u8>, b: u8, i: int, j: int)
    requires
        first_at(s, b, i),
        first_at(s, b, j),
    ensures
        i == j,
{
}

pub proof fn lemma_find_first_is(s: Seq<u8>, b: u8, i: int)
    requires
        first_at(s, b, i),
    ensures
        find_first(s, b) == Some(i),
{
    let k = choose|k: int| first_at(s, b, k);
    lemma_first_at_unique(s, b, i, k);
}

/// Digits of a decimal text are never `b` when `b` is not a digit.
pub proof fn lemma_digits_exclude(s: Seq<u8>, rest: Seq<u8>, b: u8)
    requires
        all_digits(s),
        !is_digit(b),
        rest.len() > 0,
        rest[0] == b,
    ensures
        find_first(s + rest, b) == Some(s.len() as int),
{
    lemma_find_first_is(s + rest, b, s.len() as int);
}

} // verus!
