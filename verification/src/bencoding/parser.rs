use vstd::prelude::*;

use super::data_kind::{key_bytes, lemma_model_dict, lemma_model_list, list_model, str_from_utf8, string_from_utf8, DataKind, Dictionary};
use super::format::{spec_length_prefix, spec_parse, spec_parse_data, spec_parse_entries, spec_parse_int, spec_parse_items, spec_parse_key, ParseErrorKind, CHAR_COLON, CHAR_D, CHAR_E, CHAR_I, CHAR_L};
use super::number_exec::{find_byte, parse_i64_text, parse_usize_text};
use super::encoder::Encode;
use super::format::{encode, lemma_parse_encode};
use super::spec::{from_pairs, keys_sorted, wf, BValue};
use vstd::utf8::valid_utf8;

verus! {

broadcast use vstd::utf8::decode_utf8_encode_utf8, vstd::utf8::encode_utf8_valid_utf8;

/// Why bencoded input could not be read.
#[derive(Debug, Clone, Copy, PartialEq, Eq)]
pub struct ParseError {
    kind: ParseErrorKind,
}

impl ParseError {
    pub closed spec fn error_kind(self) -> ParseErrorKind {
        self.kind
    }

    /// Why parsing failed.
    pub fn kind(&self) -> (k: ParseErrorKind)
        ensures
            k == self.error_kind(),
    {
        self.kind
    }

    fn new(kind: ParseErrorKind) -> (e: ParseError)
        ensures
            e.error_kind() == kind,
    {
        ParseError { kind }
    }
}

/// Matches the outcome of reading one item with the mathematical reading.
pub open spec fn parse_outcome(
    spec: Result<(BValue, int), ParseErrorKind>,
    r: Result<(DataKind, usize), ParseErrorKind>,
) -> bool {
    match spec {
        Ok((v, n)) => r matches Ok((d, m)) && d.model() == v && m == n && wf(v) && 0 < n,
        Err(k) => r == Err::<(DataKind, usize), ParseErrorKind>(k),
    }
}

fn get_length_prefix(data: &[u8]) -> (r: Result<(usize, usize), ParseErrorKind>)
    ensures
        match spec_length_prefix(data@) {
            Ok((n, start)) => r == Ok::<(usize, usize), ParseErrorKind>(
                (n as usize, start as usize),
            ) && start <= data@.len(),
            Err(e) => r == Err::<(usize, usize), ParseErrorKind>(e),
        },
{
    match find_byte(data, CHAR_COLON) {
        None => Err(ParseErrorKind::MissingLengthPrefix),
        Some(index) => {
            let prefix = &data[0..index];
            assert(prefix@ =~= data@.take(index as int));
            if str_from_utf8(prefix).is_none() {
                return Err(ParseErrorKind::Utf8Error);
            }
            match parse_usize_text(prefix) {
                None => Err(ParseErrorKind::ParseIntError),
                Some(length) => Ok((length, index + 1)),
            }
        },
    }
}

fn parse_data(data: &[u8]) -> (r: Result<(Vec<u8>, usize), ParseErrorKind>)
    ensures
        match spec_parse_data(data@) {
            Ok((b, n)) => r matches Ok((v, m)) && v@ == b && m == n && 0 < n <= data@.len()
                && b.len() <= usize::MAX,
            Err(e) => r == Err::<(Vec<u8>, usize), ParseErrorKind>(e),
        },
{
    let data_len = data.len();
    let (length, start) = get_length_prefix(data)?;
    if start >= data.len() || length > data.len() - start {
        return Err(ParseErrorKind::MissingTerminator);
    }
    let end = start + length;
    let bytes = vstd::slice::slice_to_vec(&data[start..end]);
    Ok((bytes, end))
}

fn parse_string(data: &[u8]) -> (r: Result<(String, usize), ParseErrorKind>)
    ensures
        match spec_parse_key(data@) {
            Ok((k, n)) => r matches Ok((s, m)) && key_bytes(s) == k && m == n && 0 < n
                <= data@.len() && k.len() <= usize::MAX,
            Err(e) => r == Err::<(String, usize), ParseErrorKind>(e),
        },
{
    let (bytes, end) = parse_data(data)?;
    let ghost b = bytes@;
    match string_from_utf8(bytes) {
        Some(text) => Ok((text, end)),
        None => Err(ParseErrorKind::Utf8Error),
    }
}

fn parse_integer(data: &[u8]) -> (r: Result<(i64, usize), ParseErrorKind>)
    requires
        data@.len() > 0,
        data@[0] == CHAR_I,
    ensures
        match spec_parse_int(data@) {
            Ok((v, n)) => r == Ok::<(i64, usize), ParseErrorKind>((v, n as usize)) && 0 < n
                <= data@.len(),
            Err(e) => r == Err::<(i64, usize), ParseErrorKind>(e),
        },
{
    match find_byte(data, CHAR_E) {
        None => Err(ParseErrorKind::MissingTerminator),
        Some(index) => {
            let text = &data[1..index];
            if str_from_utf8(text).is_none() {
                return Err(ParseErrorKind::Utf8Error);
            }
            match parse_i64_text(text) {
                None => Err(ParseErrorKind::ParseIntError),
                Some(value) => Ok((value, index + 1)),
            }
        },
    }
}

/// Reads one item from the start of `data`.
fn parse_value(data: &[u8]) -> (r: Result<(DataKind, usize), ParseErrorKind>)
    ensures
        parse_outcome(spec_parse(data@), r),
        r matches Ok((_, n)) ==> n <= data@.len(),
    decreases data@.len(), 1int,
{
    if data.len() == 0 {
        return Err(ParseErrorKind::UnexpectedEnd);
    }
    let c = data[0];
    if c == CHAR_D {
        let (dict, spent) = parse_dictionary(data)?;
        proof {
            lemma_model_dict(dict);
            let m = dict.model();
            assert forall|i: int| 0 <= i < m.len() implies wf(#[trigger] m[i].1) by {
                assert(valid_utf8(m[i].0));
            }
        }
        Ok((DataKind::Dictionary(dict), spent))
    } else if c == CHAR_I {
        let (value, spent) = parse_integer(data)?;
        Ok((DataKind::Integer(value), spent))
    } else if c == CHAR_L {
        let (list, spent) = parse_list(data)?;
        proof {
            lemma_model_list(list);
        }
        Ok((DataKind::List(list), spent))
    } else {
        let (bytes, spent) = parse_data(data)?;
        Ok((DataKind::Data(bytes), spent))
    }
}

/// Prepends already-read list items to the outcome of reading the rest of a list.
pub open spec fn prepend_items(
    vs: Seq<BValue>,
    off: int,
    r: Result<(Seq<BValue>, int), ParseErrorKind>,
) -> Result<(Seq<BValue>, int), ParseErrorKind> {
    match r {
        Ok((ws, m)) => Ok((vs + ws, off + m)),
        Err(e) => Err(e),
    }
}

/// Prepends already-read dictionary entries to the outcome of reading the rest.
pub open spec fn prepend_entries(
    ps: Seq<(Seq<u8>, BValue)>,
    off: int,
    r: Result<(Seq<(Seq<u8>, BValue)>, int), ParseErrorKind>,
) -> Result<(Seq<(Seq<u8>, BValue)>, int), ParseErrorKind> {
    match r {
        Ok((qs, m)) => Ok((ps + qs, off + m)),
        Err(e) => Err(e),
    }
}

proof fn lemma_items_step(
    data: Seq<u8>,
    s0: Seq<u8>,
    index: int,
    spent: int,
    vs: Seq<BValue>,
    v: BValue,
)
    requires
        1 <= index < data.len(),
        0 < spent,
        index + spent <= data.len(),
        data[index] != CHAR_E,
        spec_parse(data.skip(index)) == Ok::<(BValue, int), ParseErrorKind>((v, spent)),
        spec_parse_items(s0) == prepend_items(vs, index - 1, spec_parse_items(data.skip(index))),
    ensures
        spec_parse_items(s0) == prepend_items(
            vs.push(v),
            index + spent - 1,
            spec_parse_items(data.skip(index + spent)),
        ),
{
    let rest = data.skip(index);
    assert(rest[0] == data[index]);
    assert(rest.skip(spent) =~= data.skip(index + spent));
    match spec_parse_items(data.skip(index + spent)) {
        Ok((ws, m)) => {
            assert(vs + (seq![v] + ws) =~= vs.push(v) + ws);
        },
        Err(_) => {},
    }
}

proof fn lemma_entries_step(
    data: Seq<u8>,
    s0: Seq<u8>,
    index: int,
    sk: int,
    sv: int,
    ps: Seq<(Seq<u8>, BValue)>,
    k: Seq<u8>,
    v: BValue,
)
    requires
        1 <= index < data.len(),
        0 < sk,
        0 < sv,
        index + sk + sv <= data.len(),
        data[index] != CHAR_E,
        spec_parse_key(data.skip(index)) == Ok::<(Seq<u8>, int), ParseErrorKind>((k, sk)),
        spec_parse(data.skip(index + sk)) == Ok::<(BValue, int), ParseErrorKind>((v, sv)),
        spec_parse_entries(s0) == prepend_entries(
            ps,
            index - 1,
            spec_parse_entries(data.skip(index)),
        ),
    ensures
        spec_parse_entries(s0) == prepend_entries(
            ps.push((k, v)),
            index + sk + sv - 1,
            spec_parse_entries(data.skip(index + sk + sv)),
        ),
{
    let rest = data.skip(index);
    assert(rest[0] == data[index]);
    assert(rest.skip(sk) =~= data.skip(index + sk));
    assert(rest.skip(sk + sv) =~= data.skip(index + sk + sv));
    match spec_parse_entries(data.skip(index + sk + sv)) {
        Ok((qs, m)) => {
            assert(ps + (seq![(k, v)] + qs) =~= ps.push((k, v)) + qs);
        },
        Err(_) => {},
    }
}

/// Entry facts that a sorted insertion keeps.
proof fn lemma_insert_keeps(before: Seq<(Seq<u8>, BValue)>, k: Seq<u8>, v: BValue)
    requires
        keys_sorted(before),
        valid_utf8(k),
        k.len() <= usize::MAX,
        wf(v),
        forall|i: int|
            0 <= i < before.len() ==> valid_utf8(#[trigger] before[i].0) && before[i].0.len()
                <= usize::MAX && wf(before[i].1),
    ensures
        forall|i: int|
            0 <= i < super::spec::sorted_insert(before, k, v).len() ==> valid_utf8(
                #[trigger] super::spec::sorted_insert(before, k, v)[i].0,
            ) && super::spec::sorted_insert(before, k, v)[i].0.len() <= usize::MAX && wf(
                super::spec::sorted_insert(before, k, v)[i].1,
            ),
{
    let after = super::spec::sorted_insert(before, k, v);
    let p = super::spec::lower_bound(before, k);
    super::spec::lemma_lower_bound(before, k);
    assert forall|i: int| 0 <= i < after.len() implies valid_utf8(#[trigger] after[i].0)
        && after[i].0.len() <= usize::MAX && wf(after[i].1) by {
        if p < before.len() && before[p].0 == k {
            if i != p {
                assert(after[i] == before[i]);
            }
        } else if i < p {
            assert(after[i] == before[i]);
        } else if i > p {
            assert(after[i] == before[i - 1]);
        }
    }
}

/// Reads a list `l...e` (the first byte of `data` is `l`).
fn parse_list(data: &[u8]) -> (r: Result<(Vec<DataKind>, usize), ParseErrorKind>)
    requires
        data@.len() > 0,
        data@[0] == CHAR_L,
    ensures
        match spec_parse_items(data@.drop_first()) {
            Ok((vs, n)) => r matches Ok((l, m)) && list_model(l@) == vs && m == n + 1 && 1 < m
                <= data@.len() && forall|i: int| 0 <= i < vs.len() ==> wf(#[trigger] vs[i]),
            Err(e) => r == Err::<(Vec<DataKind>, usize), ParseErrorKind>(e),
        },
    decreases data@.len(), 0int,
{
    let ghost s0 = data@.drop_first();
    let mut result: Vec<DataKind> = Vec::new();
    let mut index: usize = 1;
    assert(data@.skip(1) =~= s0);
    assert(list_model(result@) + Seq::<BValue>::empty() =~= Seq::<BValue>::empty());
    loop
        invariant
            1 <= index <= data@.len(),
            s0 == data@.drop_first(),
            spec_parse_items(s0) == prepend_items(
                list_model(result@),
                index - 1,
                spec_parse_items(data@.skip(index as int)),
            ),
            forall|i: int| 0 <= i < result@.len() ==> wf(#[trigger] result@[i].model()),
        decreases data@.len() - index,
    {
        let ghost rest = data@.skip(index as int);
        if index >= data.len() {
            return Err(ParseErrorKind::UnexpectedEnd);
        }
        if data[index] == CHAR_E {
            assert(rest[0] == CHAR_E);
            assert(list_model(result@) + Seq::<BValue>::empty() =~= list_model(result@));
            return Ok((result, index + 1));
        }
        assert(rest[0] == data@[index as int]);
        let tail = &data[index..data.len()];
        assert(tail@ =~= rest);
        let (value, spent) = match parse_value(tail) {
            Ok(x) => x,
            Err(e) => {
                return Err(e);
            },
        };
        proof {
            lemma_items_step(data@, s0, index as int, spent as int, list_model(result@), value.model());
            assert(list_model(result@.push(value)) =~= list_model(result@).push(value.model()));
        }
        result.push(value);
        index = index + spent;
    }
}

/// Reads a dictionary `d...e` (the first byte of `data` is `d`).
fn parse_dictionary(data: &[u8]) -> (r: Result<(Dictionary, usize), ParseErrorKind>)
    requires
        data@.len() > 0,
        data@[0] == CHAR_D,
    ensures
        match spec_parse_entries(data@.drop_first()) {
            Ok((ps, n)) => r matches Ok((d, m)) && d.model() == from_pairs(ps) && m == n + 1 && 1 < m
                <= data@.len() && keys_sorted(d.model()) && (forall|i: int|
                0 <= i < d.model().len() ==> valid_utf8(#[trigger] d.model()[i].0)
                    && d.model()[i].0.len() <= usize::MAX && wf(d.model()[i].1)),
            Err(e) => r == Err::<(Dictionary, usize), ParseErrorKind>(e),
        },
    decreases data@.len(), 0int,
{
    let ghost s0 = data@.drop_first();
    let ghost mut pairs: Seq<(Seq<u8>, BValue)> = Seq::empty();
    let mut result = Dictionary::new();
    let mut index: usize = 1;
    assert(data@.skip(1) =~= s0);
    assert(pairs + Seq::<(Seq<u8>, BValue)>::empty() =~= pairs);
    loop
        invariant
            1 <= index <= data@.len(),
            s0 == data@.drop_first(),
            spec_parse_entries(s0) == prepend_entries(
                pairs,
                index - 1,
                spec_parse_entries(data@.skip(index as int)),
            ),
            result.model() == from_pairs(pairs),
            keys_sorted(result.model()),
            forall|i: int|
                0 <= i < result.model().len() ==> valid_utf8(#[trigger] result.model()[i].0)
                    && result.model()[i].0.len() <= usize::MAX && wf(result.model()[i].1),
        decreases data@.len() - index,
    {
        let ghost rest = data@.skip(index as int);
        if index >= data.len() {
            return Err(ParseErrorKind::UnexpectedEnd);
        }
        if data[index] == CHAR_E {
            assert(rest[0] == CHAR_E);
            assert(pairs + Seq::<(Seq<u8>, BValue)>::empty() =~= pairs);
            return Ok((result, index + 1));
        }
        assert(rest[0] == data@[index as int]);
        let tail = &data[index..data.len()];
        assert(tail@ =~= rest);
        let (key, spent_key) = match parse_string(tail) {
            Ok(x) => x,
            Err(e) => {
                return Err(e);
            },
        };
        let index2 = index + spent_key;
        let tail2 = &data[index2..data.len()];
        assert(tail2@ =~= rest.skip(spent_key as int));
        let (value, spent_value) = match parse_value(tail2) {
            Ok(x) => x,
            Err(e) => {
                return Err(e);
            },
        };
        let ghost k = key_bytes(key);
        let ghost v = value.model();
        proof {
            assert(data@.skip(index as int).skip(spent_key as int) =~= data@.skip(index2 as int));
            lemma_entries_step(
                data@,
                s0,
                index as int,
                spent_key as int,
                spent_value as int,
                pairs,
                k,
                v,
            );
            assert(pairs.push((k, v)).drop_last() =~= pairs);
            lemma_insert_keeps(result.model(), k, v);
        }
        result.insert(key, value);
        proof {
            pairs = pairs.push((k, v));
        }
        index = index2 + spent_value;
    }
}

/// A reader of bencoded input.
pub struct Parser<'a> {
    current_index: usize,
    data: &'a [u8],
}

impl<'a> Parser<'a> {
    pub closed spec fn consumed(&self) -> usize {
        self.current_index
    }

    pub closed spec fn input(&self) -> Seq<u8> {
        self.data@
    }

    /// A reader over `data` that has consumed nothing yet.
    pub fn new(data: &'a [u8]) -> (r: Parser<'a>)
        ensures
            r.consumed() == 0,
            r.input() == data@,
    {
        Parser { current_index: 0, data: data }
    }

    /// Reads one item from the start of `data`: the item and the number of bytes it took.
    /// The count of consumed bytes grows by that number (saturating at `usize::MAX`).
    pub fn parse(&mut self, data: &[u8]) -> (r: Result<(DataKind, usize), ParseError>)
        ensures
            match spec_parse(data@) {
                Ok((v, n)) => r matches Ok((d, m)) && d.model() == v && m == n && wf(v),
                Err(k) => r matches Err(e) && e.error_kind() == k,
            },
            final(self).input() == old(self).input(),
            final(self).consumed() == (match r {
                Ok((_, n)) => if old(self).consumed() + n <= usize::MAX {
                    (old(self).consumed() + n) as usize
                } else {
                    usize::MAX
                },
                Err(_) => old(self).consumed(),
            }),
    {
        match parse_value(data) {
            Ok((value, spent)) => {
                self.current_index = match self.current_index.checked_add(spent) {
                    Some(x) => x,
                    None => usize::MAX,
                };
                Ok((value, spent))
            },
            Err(kind) => Err(ParseError::new(kind)),
        }
    }
}

/// Reads the bencoded item at the start of `data`.
pub fn parse(data: &[u8]) -> (r: Result<DataKind, ParseError>)
    ensures
        match spec_parse(data@) {
            Ok((v, _)) => r matches Ok(d) && d.model() == v && wf(v),
            Err(k) => r matches Err(e) && e.error_kind() == k,
        },
{
    let mut parser = Parser::new(data);
    let (result, _) = parser.parse(data)?;
    Ok(result)
}

/// Why bytes could not be read as a bencoded dictionary.
#[derive(Debug)]
pub enum DictionaryError {
    /// The bytes are not bencoding.
    Parse(ParseError),
    /// The bytes are bencoding of something other than a dictionary.
    NotADictionary,
}

/// Reads the bencoded item at the start of `data`, which must be a dictionary.
pub fn parse_into_dictionary(data: &[u8]) -> (r: Result<Dictionary, DictionaryError>)
    ensures
        match spec_parse(data@) {
            Ok((BValue::Dict(d), _)) => r matches Ok(dict) && dict.model() == d,
            Ok(_) => r matches Err(DictionaryError::NotADictionary),
            Err(k) => r matches Err(DictionaryError::Parse(e)) && e.error_kind() == k,
        },
{
    match parse(data) {
        Ok(DataKind::Dictionary(d)) => {
            proof {
                lemma_model_dict(d);
            }
            Ok(d)
        },
        Ok(other) => {
            proof {
                if other is List {
                    lemma_model_list(other->List_0);
                }
            }
            Err(DictionaryError::NotADictionary)
        },
        Err(e) => Err(DictionaryError::Parse(e)),
    }
}

/// Reading back the bencoding of an item gives the item and uses up the whole encoding;
/// the one exception is an empty byte string on its own, whose encoding `0:` ends before
/// the reader sees its (empty) contents.
pub proof fn lemma_parse_bencode(d: DataKind)
    requires
        wf(d.model()),
        !(d.model() matches BValue::Bytes(b) && b.len() == 0),
    ensures
        spec_parse(d.spec_bencode()) == Ok::<(BValue, int), ParseErrorKind>(
            (d.model(), d.spec_bencode().len() as int),
        ),
{
    lemma_parse_encode(d.model(), Seq::empty());
    assert(encode(d.model()) + Seq::<u8>::empty() =~= encode(d.model()));
}

} // verus!
