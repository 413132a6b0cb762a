use vstd::prelude::*;

use super::data_kind::{list_model, write_bytes, write_dict, write_int, write_kind, write_list, Data, DataKind, Dictionary, List};
use super::format::{encode, encode_bytes, encode_int, lemma_parse_encode, spec_parse, ParseErrorKind};
use super::spec::BValue;
use vstd::utf8::encode_utf8;

verus! {

/// Values that have a bencoding.
pub trait Encode {
    /// The bencoding of this value.
    spec fn spec_bencode(&self) -> Seq<u8>;

    /// The bencoding of this value.
    fn bencode(&self) -> (r: Vec<u8>)
        ensures
            r@ == self.spec_bencode(),
    ;

    /// Appends the bencoding of this value to `out`.
    fn bencode_to(&self, out: &mut Vec<u8>)
        ensures
            final(out)@ == old(out)@ + self.spec_bencode(),
    ;
}

impl Encode for &[u8] {
    open spec fn spec_bencode(&self) -> Seq<u8> {
        encode_bytes(self@)
    }

    fn bencode(&self) -> (r: Vec<u8>) {
        let mut result = Vec::new();
        self.bencode_to(&mut result);
        result
    }

    fn bencode_to(&self, out: &mut Vec<u8>) {
        write_bytes(out, self);
    }
}

impl Encode for Data {
    open spec fn spec_bencode(&self) -> Seq<u8> {
        encode_bytes(self@)
    }

    fn bencode(&self) -> (r: Vec<u8>) {
        let mut result = Vec::new();
        self.bencode_to(&mut result);
        result
    }

    fn bencode_to(&self, out: &mut Vec<u8>) {
        write_bytes(out, self.as_slice());
    }
}

impl Encode for String {
    open spec fn spec_bencode(&self) -> Seq<u8> {
        encode_bytes(encode_utf8(self@))
    }

    fn bencode(&self) -> (r: Vec<u8>) {
        let mut result = Vec::new();
        self.bencode_to(&mut result);
        result
    }

    fn bencode_to(&self, out: &mut Vec<u8>) {
        write_bytes(out, self.as_str().as_bytes());
    }
}

impl Encode for &str {
    open spec fn spec_bencode(&self) -> Seq<u8> {
        encode_bytes(encode_utf8(self@))
    }

    fn bencode(&self) -> (r: Vec<u8>) {
        let mut result = Vec::new();
        self.bencode_to(&mut result);
        result
    }

    fn bencode_to(&self, out: &mut Vec<u8>) {
        write_bytes(out, self.as_bytes());
    }
}

impl Encode for i64 {
    open spec fn spec_bencode(&self) -> Seq<u8> {
        encode_int(*self)
    }

    fn bencode(&self) -> (r: Vec<u8>) {
        let mut result = Vec::new();
        self.bencode_to(&mut result);
        result
    }

    fn bencode_to(&self, out: &mut Vec<u8>) {
        write_int(out, *self);
    }
}

impl Encode for List {
    open spec fn spec_bencode(&self) -> Seq<u8> {
        encode(BValue::List(list_model(self@)))
    }

    fn bencode(&self) -> (r: Vec<u8>) {
        let mut result = Vec::new();
        self.bencode_to(&mut result);
        result
    }

    fn bencode_to(&self, out: &mut Vec<u8>) {
        write_list(out, self);
    }
}

impl Encode for Dictionary {
    open spec fn spec_bencode(&self) -> Seq<u8> {
        encode(BValue::Dict(self.model()))
    }

    fn bencode(&self) -> (r: Vec<u8>) {
        let mut result = Vec::new();
        self.bencode_to(&mut result);
        result
    }

    fn bencode_to(&self, out: &mut Vec<u8>) {
        write_dict(out, self);
    }
}

impl Encode for DataKind {
    open spec fn spec_bencode(&self) -> Seq<u8> {
        encode(self.model())
    }

    fn bencode(&self) -> (r: Vec<u8>) {
        let mut result = Vec::new();
        self.bencode_to(&mut result);
        result
    }

    fn bencode_to(&self, out: &mut Vec<u8>) {
        write_kind(out, self);
    }
}

/// What a value bencodes to is what the format gives its mathematical value: a byte
/// string (held as bytes, a slice, a `String` or a `&str`) as a byte string, an integer as
/// an integer, a list, dictionary or item as itself. A byte string bencodes as it does
/// once wrapped as an item, and reading its bencoding back, followed by anything, gives
/// the same bytes, as reading back an integer's gives the integer.
pub proof fn lemma_bencode_agrees(
    d: Data,
    b: &[u8],
    t: String,
    s: &str,
    i: i64,
    l: List,
    m: Dictionary,
    k: DataKind,
    rest: Seq<u8>,
)
    requires
        rest.len() > 0,
        d@.len() <= usize::MAX,
        b@.len() <= usize::MAX,
    ensures
        d.spec_bencode() == encode(BValue::Bytes(d@)),
        d.spec_bencode() == DataKind::Data(d).spec_bencode(),
        spec_parse(d.spec_bencode() + rest) == Ok::<(BValue, int), ParseErrorKind>(
            (BValue::Bytes(d@), d.spec_bencode().len() as int),
        ),
        b.spec_bencode() == encode(BValue::Bytes(b@)),
        spec_parse(b.spec_bencode() + rest) == Ok::<(BValue, int), ParseErrorKind>(
            (BValue::Bytes(b@), b.spec_bencode().len() as int),
        ),
        t.spec_bencode() == encode(BValue::Bytes(encode_utf8(t@))),
        s.spec_bencode() == encode(BValue::Bytes(encode_utf8(s@))),
        i.spec_bencode() == encode(BValue::Int(i)),
        i.spec_bencode() == DataKind::Integer(i).spec_bencode(),
        spec_parse(i.spec_bencode() + rest) == Ok::<(BValue, int), ParseErrorKind>(
            (BValue::Int(i), i.spec_bencode().len() as int),
        ),
        l.spec_bencode() == encode(BValue::List(list_model(l@))),
        m.spec_bencode() == encode(BValue::Dict(m.model())),
        k.spec_bencode() == encode(k.model()),
{
    lemma_parse_encode(BValue::Bytes(d@), rest);
    lemma_parse_encode(BValue::Bytes(b@), rest);
    lemma_parse_encode(BValue::Int(i), rest);
}

} // verus!
