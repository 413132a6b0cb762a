use vstd::prelude::*;

use super::number::{decimal, find_first, int_text, is_digit, lemma_decimal, lemma_digits_exclude, lemma_find_first_is, lemma_parse_decimal, lemma_parse_int_text, parse_i64_spec, parse_usize_spec};
use super::spec::{from_pairs, last_value, lemma_from_pairs_order, lemma_from_pairs_sorted, wf, BValue};
use vstd::utf8::{is_leading_byte_width_1, partial_valid_utf8, partial_valid_utf8_extend_ascii_block, valid_utf8};

verus! {

pub const CHAR_I: u8 = 105;
pub const CHAR_E: u8 = 101;
pub const CHAR_L: u8 = 108;
pub const CHAR_D: u8 = 100;
pub const CHAR_COLON: u8 = 58;

/// Bencoding of a byte string: its length in decimal, a colon, then the bytes.
pub open spec fn encode_bytes(b: Seq<u8>) -> Seq<u8> {
    decimal(b.len()) + seq![CHAR_COLON] + b
}

/// Bencoding of an integer: `i`, its decimal text, `e`.
pub open spec fn encode_int(i: i64) -> Seq<u8> {
    seq![CHAR_I] + int_text(i as int) + seq![CHAR_E]
}

/// Bencoding of a value.
pub open spec fn encode(v: BValue) -> Seq<u8>
    decreases v, 1int,
{
    match v {
        BValue::Bytes(b) => encode_bytes(b),
        BValue::Int(i) => encode_int(i),
        BValue::List(l) => seq![CHAR_L] + encode_list(l) + seq![CHAR_E],
        BValue::Dict(d) => seq![CHAR_D] + encode_entries(d) + seq![CHAR_E],
    }
}

/// Concatenated bencodings of the elements of a list.
pub open spec fn encode_list(l: Seq<BValue>) -> Seq<u8>
    decreases l, 0int,
{
    if l.len() == 0 {
        Seq::empty()
    } else {
        encode(l[0]) + encode_list(l.drop_first())
    }
}

/// Concatenated bencodings of the keys and values of dictionary entries, in order.
pub open spec fn encode_entries(d: Seq<(Seq<u8>, BValue)>) -> Seq<u8>
    decreases d, 0int,
{
    if d.len() == 0 {
        Seq::empty()
    } else {
        encode_bytes(d[0].0) + encode(d[0].1) + encode_entries(d.drop_first())
    }
}

/// Why parsing failed.
#[derive(Debug, Clone, Copy, PartialEq, Eq)]
pub enum ParseErrorKind {
    /// A number was not a valid integer (or did not fit its type).
    ParseIntError,
    /// A text that had to be UTF-8 was not.
    Utf8Error,
    /// An integer had no `e`, or a byte string was shorter than its length prefix.
    MissingTerminator,
    /// A byte string had no `:` after its length.
    MissingLengthPrefix,
    /// The input ended where an item or a list or dictionary end was expected.
    UnexpectedEnd,
}

/// Reading the length prefix of a byte string: the text before the first `:`, which
/// must be UTF-8 and a `usize`. Gives the length and the number of bytes up to and
/// including the colon.
pub open spec fn spec_length_prefix(s: Seq<u8>) -> Result<(nat, int), ParseErrorKind> {
    match find_first(s, CHAR_COLON) {
        None => Err(ParseErrorKind::MissingLengthPrefix),
        Some(i) => if !vstd::utf8::valid_utf8(s.take(i)) {
            Err(ParseErrorKind::Utf8Error)
        } else {
            match parse_usize_spec(s.take(i)) {
                None => Err(ParseErrorKind::ParseIntError),
                Some(n) => Ok((n as nat, i + 1)),
            }
        },
    }
}

/// Reading a byte string: the bytes and the number of bytes consumed.
pub open spec fn spec_parse_data(s: Seq<u8>) -> Result<(Seq<u8>, int), ParseErrorKind> {
    match spec_length_prefix(s) {
        Err(e) => Err(e),
        Ok((n, start)) => if start >= s.len() || start + n > s.len() {
            Err(ParseErrorKind::MissingTerminator)
        } else {
            Ok((s.subrange(start, start + n), start + n))
        },
    }
}

/// Reading a dictionary key: a byte string that must be UTF-8.
pub open spec fn spec_parse_key(s: Seq<u8>) -> Result<(Seq<u8>, int), ParseErrorKind> {
    match spec_parse_data(s) {
        Err(e) => Err(e),
        Ok((k, n)) => if vstd::utf8::valid_utf8(k) {
            Ok((k, n))
        } else {
            Err(ParseErrorKind::Utf8Error)
        },
    }
}

/// Reading an integer `i...e` (the first byte of `s` is `i`): the text up to the first
/// `e` must be UTF-8 and an `i64`.
pub open spec fn spec_parse_int(s: Seq<u8>) -> Result<(i64, int), ParseErrorKind> {
    match find_first(s, CHAR_E) {
        None => Err(ParseErrorKind::MissingTerminator),
        Some(i) => {
            let text = s.subrange(1, i);
            if !vstd::utf8::valid_utf8(text) {
                Err(ParseErrorKind::Utf8Error)
            } else {
                match parse_i64_spec(text) {
                    None => Err(ParseErrorKind::ParseIntError),
                    Some(v) => Ok((v, i + 1)),
                }
            }
        },
    }
}

/// Reading one value from the start of `s`: the value and the number of bytes consumed.
pub open spec fn spec_parse(s: Seq<u8>) -> Result<(BValue, int), ParseErrorKind>
    decreases s.len(), 0int,
{
    if s.len() == 0 {
        Err(ParseErrorKind::UnexpectedEnd)
    } else if s[0] == CHAR_D {
        match spec_parse_entries(s.drop_first()) {
            Err(e) => Err(e),
            Ok((pairs, n)) => Ok((BValue::Dict(from_pairs(pairs)), n + 1)),
        }
    } else if s[0] == CHAR_I {
        match spec_parse_int(s) {
            Err(e) => Err(e),
            Ok((v, n)) => Ok((BValue::Int(v), n)),
        }
    } else if s[0] == CHAR_L {
        match spec_parse_items(s.drop_first()) {
            Err(e) => Err(e),
            Ok((items, n)) => Ok((BValue::List(items), n + 1)),
        }
    } else {
        match spec_parse_data(s) {
            Err(e) => Err(e),
            Ok((b, n)) => Ok((BValue::Bytes(b), n)),
        }
    }
}

/// Reading list elements up to and including the closing `e`.
pub open spec fn spec_parse_items(s: Seq<u8>) -> Result<(Seq<BValue>, int), ParseErrorKind>
    decreases s.len(), 1int,
{
    if s.len() == 0 {
        Err(ParseErrorKind::UnexpectedEnd)
    } else if s[0] == CHAR_E {
        Ok((Seq::empty(), 1))
    } else {
        match spec_parse(s) {
            Err(e) => Err(e),
            Ok((v, n)) => if 0 < n <= s.len() {
                match spec_parse_items(s.skip(n)) {
                    Err(e) => Err(e),
                    Ok((vs, m)) => Ok((seq![v] + vs, n + m)),
                }
            } else {
                Err(ParseErrorKind::UnexpectedEnd)
            },
        }
    }
}

/// Reading dictionary entries (in input order) up to and including the closing `e`.
pub open spec fn spec_parse_entries(s: Seq<u8>) -> Result<
    (Seq<(Seq<u8>, BValue)>, int),
    ParseErrorKind,
>
    decreases s.len(), 1int,
{
    if s.len() == 0 {
        Err(ParseErrorKind::UnexpectedEnd)
    } else if s[0] == CHAR_E {
        Ok((Seq::empty(), 1))
    } else {
        match spec_parse_key(s) {
            Err(e) => Err(e),
            Ok((k, n)) => if 0 < n <= s.len() {
                match spec_parse(s.skip(n)) {
                    Err(e) => Err(e),
                    Ok((v, m)) => if 0 < m <= s.len() - n {
                        match spec_parse_entries(s.skip(n + m)) {
                            Err(e) => Err(e),
                            Ok((kvs, r)) => Ok((seq![(k, v)] + kvs, n + m + r)),
                        }
                    } else {
                        Err(ParseErrorKind::UnexpectedEnd)
                    },
                }
            } else {
                Err(ParseErrorKind::UnexpectedEnd)
            },
        }
    }
}

/// Bytes below 128 always form valid UTF-8.
pub proof fn lemma_ascii_valid_utf8(s: Seq<u8>)
    requires
        forall|i: int| 0 <= i < s.len() ==> #[trigger] s[i] < 128,
    ensures
        valid_utf8(s),
{
    assert(s.subrange(0, 0) =~= Seq::<u8>::empty());
    assert(partial_valid_utf8(s, 0));
    assert forall|i: int| 0 <= 0 <= i < s.len() <= s.len() implies #[trigger] is_leading_byte_width_1(
        s[i],
    ) by {}
    partial_valid_utf8_extend_ascii_block(s, 0, s.len() as int);
    assert(s.subrange(0, s.len() as int) =~= s);
}

proof fn lemma_parse_data_encode(b: Seq<u8>, rest: Seq<u8>)
    requires
        b.len() <= usize::MAX,
        rest.len() > 0 || b.len() > 0,
    ensures
        spec_parse_data(encode_bytes(b) + rest) == Ok::<(Seq<u8>, int), ParseErrorKind>(
            (b, encode_bytes(b).len() as int),
        ),
        (encode_bytes(b) + rest)[0] != CHAR_E,
        is_digit((encode_bytes(b) + rest)[0]),
{
    let dl = decimal(b.len());
    lemma_decimal(b.len());
    let s = encode_bytes(b) + rest;
    let tail = seq![CHAR_COLON] + b + rest;
    assert(s =~= dl + tail);
    lemma_digits_exclude(dl, tail, CHAR_COLON);
    assert(s.take(dl.len() as int) =~= dl);
    lemma_ascii_valid_utf8(dl);
    lemma_parse_decimal(b.len());
    assert(s.subrange(dl.len() as int + 1, dl.len() as int + 1 + b.len()) =~= b);
    assert(s[0] == dl[0]);
}

proof fn lemma_parse_int_encode(i: i64, rest: Seq<u8>)
    ensures
        spec_parse_int(encode_int(i) + rest) == Ok::<(i64, int), ParseErrorKind>(
            (i, encode_int(i).len() as int),
        ),
{
    let t = int_text(i as int);
    let s = encode_int(i) + rest;
    lemma_parse_int_text(i);
    if i < 0 {
        lemma_decimal((-(i as int)) as nat);
    } else {
        lemma_decimal(i as nat);
    }
    assert forall|j: int| 0 <= j < t.len() implies #[trigger] t[j] != CHAR_E && t[j] < 128 by {
        if i < 0 {
            if j > 0 {
                assert(t[j] == decimal((-(i as int)) as nat)[j - 1]);
            }
        }
    }
    assert forall|j: int| 0 <= j < t.len() as int + 1 implies s[j] != CHAR_E by {
        if j > 0 {
            assert(s[j] == t[j - 1]);
        }
    }
    assert(s[t.len() as int + 1] == CHAR_E);
    lemma_find_first_is(s, CHAR_E, t.len() as int + 1);
    assert(s.subrange(1, t.len() as int + 1) =~= t);
    lemma_ascii_valid_utf8(t);
}

/// The first byte of a bencoding is never `e`.
proof fn lemma_encode_first(v: BValue, rest: Seq<u8>)
    requires
        wf(v),
    ensures
        encode(v).len() > 0,
        (encode(v) + rest)[0] != CHAR_E,
{
    match v {
        BValue::Bytes(b) => {
            lemma_decimal(b.len());
            assert((encode(v) + rest)[0] == decimal(b.len())[0]);
        },
        _ => {},
    }
}

/// Parsing the bencoding of a well-formed value, followed by anything, gives the value
/// back and consumes exactly its bencoding; the one exception is an empty byte string
/// at the very end of the input.
pub proof fn lemma_parse_encode(v: BValue, rest: Seq<u8>)
    requires
        wf(v),
        rest.len() > 0 || !(v matches BValue::Bytes(b) && b.len() == 0),
    ensures
        spec_parse(encode(v) + rest) == Ok::<(BValue, int), ParseErrorKind>(
            (v, encode(v).len() as int),
        ),
    decreases v, 1int,
{
    let s = encode(v) + rest;
    match v {
        BValue::Bytes(b) => {
            lemma_parse_data_encode(b, rest);
            assert(s =~= encode_bytes(b) + rest);
            assert(s[0] != CHAR_D && s[0] != CHAR_I && s[0] != CHAR_L);
        },
        BValue::Int(i) => {
            lemma_parse_int_encode(i, rest);
        },
        BValue::List(l) => {
            assert(s.drop_first() =~= encode_list(l) + seq![CHAR_E] + rest);
            lemma_parse_items_encode(l, rest);
        },
        BValue::Dict(d) => {
            assert(s.drop_first() =~= encode_entries(d) + seq![CHAR_E] + rest);
            lemma_parse_entries_encode(d, rest);
            lemma_from_pairs_sorted(d);
            assert(s[0] == CHAR_D);
        },
    }
}

#[verifier::rlimit(100)]
proof fn lemma_parse_items_encode(l: Seq<BValue>, rest: Seq<u8>)
    requires
        forall|i: int| 0 <= i < l.len() ==> wf(#[trigger] l[i]),
    ensures
        spec_parse_items(encode_list(l) + seq![CHAR_E] + rest) == Ok::<
            (Seq<BValue>, int),
            ParseErrorKind,
        >((l, encode_list(l).len() as int + 1)),
    decreases l, 0int,
{
    let s = encode_list(l) + seq![CHAR_E] + rest;
    if l.len() == 0 {
        assert(s[0] == CHAR_E);
        assert(l =~= Seq::<BValue>::empty());
    } else {
        let tl = l.drop_first();
        let tail = encode_list(tl) + seq![CHAR_E] + rest;
        assert(wf(l[0]));
        assert(s =~= encode(l[0]) + tail);
        lemma_encode_first(l[0], tail);
        lemma_parse_encode(l[0], tail);
        let n = encode(l[0]).len() as int;
        assert(s.skip(n) =~= tail);
        assert forall|i: int| 0 <= i < tl.len() implies wf(#[trigger] tl[i]) by {
            assert(tl[i] == l[i + 1]);
        }
        lemma_parse_items_encode(tl, rest);
        assert(seq![l[0]] + tl =~= l);
    }
}

proof fn lemma_parse_key_encode(k: Seq<u8>, rest: Seq<u8>)
    requires
        valid_utf8(k),
        k.len() <= usize::MAX,
        rest.len() > 0,
    ensures
        spec_parse_key(encode_bytes(k) + rest) == Ok::<(Seq<u8>, int), ParseErrorKind>(
            (k, encode_bytes(k).len() as int),
        ),
        (encode_bytes(k) + rest)[0] != CHAR_E,
        encode_bytes(k).len() > 0,
{
    lemma_parse_data_encode(k, rest);
}

proof fn lemma_parse_entries_step(
    s: Seq<u8>,
    k: Seq<u8>,
    nk: int,
    v: BValue,
    nv: int,
    rest: Seq<(Seq<u8>, BValue)>,
    r: int,
)
    requires
        s.len() > 0,
        s[0] != CHAR_E,
        0 < nk,
        0 < nv,
        nk + nv <= s.len(),
        spec_parse_key(s) == Ok::<(Seq<u8>, int), ParseErrorKind>((k, nk)),
        spec_parse(s.skip(nk)) == Ok::<(BValue, int), ParseErrorKind>((v, nv)),
        spec_parse_entries(s.skip(nk + nv)) == Ok::<(Seq<(Seq<u8>, BValue)>, int), ParseErrorKind>(
            (rest, r),
        ),
    ensures
        spec_parse_entries(s) == Ok::<(Seq<(Seq<u8>, BValue)>, int), ParseErrorKind>(
            (seq![(k, v)] + rest, nk + nv + r),
        ),
{
    assert(s.skip(nk).skip(nv) =~= s.skip(nk + nv));
}

/// Reading the first entry of an encoded entry list.
proof fn lemma_entry_head(k: Seq<u8>, v: BValue, tail: Seq<u8>)
    requires
        valid_utf8(k),
        k.len() <= usize::MAX,
        wf(v),
        tail.len() > 0,
    ensures
        ({
            let s = encode_bytes(k) + encode(v) + tail;
            let nk = encode_bytes(k).len() as int;
            let nv = encode(v).len() as int;
            &&& s.len() > 0
            &&& s[0] != CHAR_E
            &&& 0 < nk
            &&& 0 < nv
            &&& nk + nv <= s.len()
            &&& spec_parse_key(s) == Ok::<(Seq<u8>, int), ParseErrorKind>((k, nk))
            &&& spec_parse(s.skip(nk)) == Ok::<(BValue, int), ParseErrorKind>((v, nv))
            &&& s.skip(nk + nv) == tail
        }),
    decreases v, 2int,
{
    let s = encode_bytes(k) + encode(v) + tail;
    let tail1 = encode(v) + tail;
    assert(s =~= encode_bytes(k) + tail1);
    lemma_encode_first(v, tail);
    lemma_parse_key_encode(k, tail1);
    let nk = encode_bytes(k).len() as int;
    assert(s.skip(nk) =~= tail1);
    lemma_parse_encode(v, tail);
    let nv = encode(v).len() as int;
    assert(s.skip(nk + nv) =~= tail);
}

/// The entries after the first keep the per-entry facts.
proof fn lemma_entries_tail_ok(d: Seq<(Seq<u8>, BValue)>)
    requires
        d.len() > 0,
        forall|i: int|
            0 <= i < d.len() ==> valid_utf8(#[trigger] d[i].0) && d[i].0.len() <= usize::MAX,
        forall|i: int| 0 <= i < d.len() ==> wf(#[trigger] d[i].1),
    ensures
        forall|i: int|
            0 <= i < d.drop_first().len() ==> valid_utf8(#[trigger] d.drop_first()[i].0)
                && d.drop_first()[i].0.len() <= usize::MAX,
        forall|i: int| 0 <= i < d.drop_first().len() ==> wf(#[trigger] d.drop_first()[i].1),
        valid_utf8(d[0].0),
        d[0].0.len() <= usize::MAX,
        wf(d[0].1),
{
    let td = d.drop_first();
    assert forall|i: int|
        0 <= i < td.len() implies valid_utf8(#[trigger] td[i].0) && td[i].0.len()
        <= usize::MAX by {
        assert(td[i] == d[i + 1]);
    }
    assert forall|i: int| 0 <= i < td.len() implies wf(#[trigger] td[i].1) by {
        assert(td[i] == d[i + 1]);
    }
}

#[verifier::rlimit(100)]
#[verifier::spinoff_prover]
proof fn lemma_parse_entries_encode(d: Seq<(Seq<u8>, BValue)>, rest: Seq<u8>)
    requires
        forall|i: int|
            0 <= i < d.len() ==> valid_utf8(#[trigger] d[i].0) && d[i].0.len() <= usize::MAX,
        forall|i: int| 0 <= i < d.len() ==> wf(#[trigger] d[i].1),
    ensures
        spec_parse_entries(encode_entries(d) + seq![CHAR_E] + rest) == Ok::<
            (Seq<(Seq<u8>, BValue)>, int),
            ParseErrorKind,
        >((d, encode_entries(d).len() as int + 1)),
    decreases d, 0int,
{
    let s = encode_entries(d) + seq![CHAR_E] + rest;
    if d.len() == 0 {
        assert(s[0] == CHAR_E);
        assert(d =~= Seq::<(Seq<u8>, BValue)>::empty());
    } else {
        let k = d[0].0;
        let v = d[0].1;
        let td = d.drop_first();
        lemma_entries_tail_ok(d);
        let tail = encode_entries(td) + seq![CHAR_E] + rest;
        assert(s =~= encode_bytes(k) + encode(v) + tail);
        lemma_entry_head(k, v, tail);
        lemma_parse_entries_encode(td, rest);
        lemma_parse_entries_step(
            s,
            k,
            encode_bytes(k).len() as int,
            v,
            encode(v).len() as int,
            td,
            encode_entries(td).len() as int + 1,
        );
        assert(seq![(k, v)] + td =~= d);
    }
}

pub proof fn lemma_encode_list_append(a: Seq<BValue>, b: Seq<BValue>)
    ensures
        encode_list(a + b) == encode_list(a) + encode_list(b),
    decreases a.len(),
{
    if a.len() == 0 {
        assert(a + b =~= b);
    } else {
        lemma_encode_list_append(a.drop_first(), b);
        assert((a + b).drop_first() =~= a.drop_first() + b);
        assert((a + b)[0] == a[0]);
    }
}

pub proof fn lemma_encode_entries_append(a: Seq<(Seq<u8>, BValue)>, b: Seq<(Seq<u8>, BValue)>)
    ensures
        encode_entries(a + b) == encode_entries(a) + encode_entries(b),
    decreases a.len(),
{
    if a.len() == 0 {
        assert(a + b =~= b);
    } else {
        lemma_encode_entries_append(a.drop_first(), b);
        assert((a + b).drop_first() =~= a.drop_first() + b);
        assert((a + b)[0] == a[0]);
    }
}

pub proof fn lemma_encode_list_push(a: Seq<BValue>, v: BValue)
    ensures
        encode_list(a.push(v)) == encode_list(a) + encode(v),
{
    lemma_encode_list_append(a, seq![v]);
    assert(a.push(v) =~= a + seq![v]);
    let one = seq![v];
    assert(one[0] == v);
    assert(one.drop_first() =~= Seq::<BValue>::empty());
    assert(encode_list(one.drop_first()) == Seq::<u8>::empty());
    assert(encode_list(one) == encode(v) + encode_list(one.drop_first()));
    assert(encode(v) + Seq::<u8>::empty() =~= encode(v));
}

pub proof fn lemma_encode_entries_push(a: Seq<(Seq<u8>, BValue)>, e: (Seq<u8>, BValue))
    ensures
        encode_entries(a.push(e)) == encode_entries(a) + encode_bytes(e.0) + encode(e.1),
{
    lemma_encode_entries_append(a, seq![e]);
    assert(a.push(e) =~= a + seq![e]);
    let one = seq![e];
    assert(one[0] == e);
    assert(one.drop_first() =~= Seq::<(Seq<u8>, BValue)>::empty());
    assert(encode_entries(one.drop_first()) == Seq::<u8>::empty());
    assert(encode_entries(one) == encode_bytes(e.0) + encode(e.1) + encode_entries(
        one.drop_first(),
    ));
    assert(encode_bytes(e.0) + encode(e.1) + Seq::<u8>::empty() =~= encode_bytes(e.0) + encode(
        e.1,
    ));
}

/// Two sequences of insertions into a dictionary that leave the same value last under
/// every key bencode alike: the order of the insertions does not show in the encoding.
pub proof fn lemma_insert_order_encoding(a: Seq<(Seq<u8>, BValue)>, b: Seq<(Seq<u8>, BValue)>)
    requires
        forall|k: Seq<u8>| #[trigger] last_value(a, k) == last_value(b, k),
    ensures
        encode(BValue::Dict(from_pairs(a))) == encode(BValue::Dict(from_pairs(b))),
{
    lemma_from_pairs_order(a, b);
}

} // verus!
