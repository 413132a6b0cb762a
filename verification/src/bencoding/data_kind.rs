use vstd::prelude::*;
use vstd::string::StringExecFns;

use super::spec::{bytes_lt, dict_lookup, keys_sorted, lemma_keys_sorted_unique, lemma_lower_bound, lemma_sorted_insert, lower_bound, sorted_insert, BValue};
use super::format::{encode, encode_bytes, encode_entries, encode_int, encode_list, lemma_encode_entries_push, lemma_encode_list_push, CHAR_COLON, CHAR_D, CHAR_E, CHAR_I, CHAR_L};
use super::number::decimal;
use vstd::utf8::{decode_utf8, encode_utf8, valid_utf8};

verus! {

/// A bencoded item.
#[derive(Debug, PartialEq)]
pub enum DataKind {
    Data(Data),
    Integer(i64),
    List(List),
    Dictionary(Dictionary),
}

/// A bencoded byte string.
pub type Data = Vec<u8>;

/// A bencoded list.
pub type List = Vec<DataKind>;

/// A bencoded dictionary: entries kept in increasing byte order of their keys, each key
/// present once.
#[derive(Debug, PartialEq)]
pub struct Dictionary {
    data: Vec<(String, DataKind)>,
}

/// The UTF-8 bytes of a string.
pub open spec fn key_bytes(s: String) -> Seq<u8> {
    encode_utf8(s@)
}

impl View for Dictionary {
    type V = Seq<(String, DataKind)>;

    closed spec fn view(&self) -> Seq<(String, DataKind)> {
        self.data@
    }
}

impl DataKind {
    /// The mathematical value of this item.
    pub open spec fn model(self) -> BValue
        decreases self,
    {
        match self {
            DataKind::Data(v) => BValue::Bytes(v@),
            DataKind::Integer(i) => BValue::Int(i),
            DataKind::List(l) => BValue::List(
                Seq::new(
                    l@.len(),
                    |i: int|
                        if 0 <= i < l@.len() {
                            l@[i].model()
                        } else {
                            BValue::Int(0)
                        },
                ),
            ),
            DataKind::Dictionary(d) => BValue::Dict(
                Seq::new(
                    d@.len(),
                    |i: int|
                        if 0 <= i < d@.len() {
                            (key_bytes(d@[i].0), d@[i].1.model())
                        } else {
                            (Seq::empty(), BValue::Int(0))
                        },
                ),
            ),
        }
    }
}

/// The mathematical entries of a dictionary: key bytes and item values, in order.
pub open spec fn entries_model(d: Seq<(String, DataKind)>) -> Seq<(Seq<u8>, BValue)> {
    Seq::new(d.len(), |i: int| (key_bytes(d[i].0), d[i].1.model()))
}

/// The mathematical values of the items of a list.
pub open spec fn list_model(l: Seq<DataKind>) -> Seq<BValue> {
    Seq::new(l.len(), |i: int| l[i].model())
}

pub proof fn lemma_model_list(l: Vec<DataKind>)
    ensures
        DataKind::List(l).model() == BValue::List(list_model(l@)),
{
    assert(DataKind::List(l).model()->List_0 =~= list_model(l@));
}

pub proof fn lemma_model_dict(d: Dictionary)
    ensures
        DataKind::Dictionary(d).model() == BValue::Dict(d.model()),
{
    assert(DataKind::Dictionary(d).model()->Dict_0 =~= d.model());
}

/// Why an item could not be read as the requested type.
#[derive(Debug, Clone, PartialEq, Eq)]
pub struct ConvertError {
    message: String,
}

impl ConvertError {
    pub fn new(message: &str) -> (r: ConvertError)
        ensures
            r.message() == message@,
    {
        ConvertError { message: String::from_str(message) }
    }

    /// The text describing the error.
    pub closed spec fn message(self) -> Seq<char> {
        self.message@
    }

    /// The text describing the error.
    pub fn as_str(&self) -> (r: &str)
        ensures
            r@ == self.message(),
    {
        self.message.as_str()
    }
}

/// The error of a dictionary without the item `name`, which names it.
pub fn missing_key_error(name: &str) -> (r: ConvertError)
    ensures
        r.message() == "dictionary is missing '"@ + name@ + "' key"@,
{
    let message = String::from_str("dictionary is missing '").concat(name).concat("' key");
    ConvertError { message }
}

/// Checks whether `bytes` are valid UTF-8, and reads them as text when they are.
#[verifier::external_body]
pub(crate) fn str_from_utf8(bytes: &[u8]) -> (r: Option<&str>)
    ensures
        r is Some <==> valid_utf8(bytes@),
        r matches Some(s) ==> s@ == decode_utf8(bytes@),
{
    std::str::from_utf8(bytes).ok()
}

/// Reads `bytes` as a `String` when they are valid UTF-8.
#[verifier::external_body]
pub(crate) fn string_from_utf8(bytes: Vec<u8>) -> (r: Option<String>)
    ensures
        r is Some <==> valid_utf8(bytes@),
        r matches Some(s) ==> s@ == decode_utf8(bytes@),
{
    String::from_utf8(bytes).ok()
}

/// Whether two byte sequences are equal.
pub fn bytes_equal(a: &[u8], b: &[u8]) -> (r: bool)
    ensures
        r == (a@ == b@),
{
    if a.len() != b.len() {
        return false;
    }
    let mut i: usize = 0;
    while i < a.len()
        invariant
            a@.len() == b@.len(),
            0 <= i <= a@.len(),
            forall|j: int| 0 <= j < i ==> a@[j] == b@[j],
        decreases a@.len() - i,
    {
        if a[i] != b[i] {
            return false;
        }
        i = i + 1;
    }
    assert(a@ =~= b@);
    true
}

/// Whether `a` comes before `b` in byte order.
pub fn bytes_less(a: &[u8], b: &[u8]) -> (r: bool)
    ensures
        r == bytes_lt(a@, b@),
{
    let mut i: usize = 0;
    assert(a@.skip(0) =~= a@);
    assert(b@.skip(0) =~= b@);
    while i < a.len() && i < b.len()
        invariant
            0 <= i <= a@.len(),
            i <= b@.len(),
            bytes_lt(a@, b@) == bytes_lt(a@.skip(i as int), b@.skip(i as int)),
        decreases a@.len() - i,
    {
        if a[i] < b[i] {
            assert(a@.skip(i as int)[0] == a@[i as int]);
            assert(b@.skip(i as int)[0] == b@[i as int]);
            return true;
        }
        if a[i] > b[i] {
            assert(a@.skip(i as int)[0] == a@[i as int]);
            assert(b@.skip(i as int)[0] == b@[i as int]);
            return false;
        }
        assert(a@.skip(i as int).drop_first() =~= a@.skip(i + 1));
        assert(b@.skip(i as int).drop_first() =~= b@.skip(i + 1));
        i = i + 1;
    }
    i < b.len()
}

impl Clone for DataKind {
    fn clone(&self) -> (r: Self)
        ensures
            r.model() == self.model(),
        decreases self,
    {
        match self {
            DataKind::Data(v) => DataKind::Data(v.clone()),
            DataKind::Integer(i) => DataKind::Integer(*i),
            DataKind::List(l) => {
                let out = clone_list(l);
                proof {
                    lemma_model_list(out);
                    lemma_model_list(*l);
                    assert(list_model(out@) =~= list_model(l@));
                }
                DataKind::List(out)
            },
            DataKind::Dictionary(d) => {
                let c = d.clone();
                proof {
                    lemma_model_dict(c);
                    lemma_model_dict(*d);
                }
                DataKind::Dictionary(c)
            },
        }
    }
}

/// Every bencoded item held in a `DataKind` is well formed in the sense of `wf`: its
/// dictionaries keep their keys in increasing order (their invariant), every key is UTF-8
/// (it is a `String`) and every byte string fits in memory. Walks the item; it changes
/// nothing.
pub fn assert_well_formed(x: &DataKind)
    ensures
        super::spec::wf(x.model()),
    decreases x,
{
    match x {
        DataKind::Data(v) => {
            let _n = v.len();
        },
        DataKind::Integer(_) => {},
        DataKind::List(l) => {
            list_well_formed(l);
            proof {
                lemma_model_list(*l);
                assert forall|j: int| 0 <= j < list_model(l@).len() implies super::spec::wf(
                    #[trigger] list_model(l@)[j],
                ) by {
                    assert(list_model(l@)[j] == l@[j].model());
                }
            }
        },
        DataKind::Dictionary(d) => {
            dictionary_well_formed(d);
            proof {
                lemma_model_dict(*d);
            }
        },
    }
}

fn list_well_formed(l: &Vec<DataKind>)
    ensures
        forall|j: int| 0 <= j < l@.len() ==> super::spec::wf(#[trigger] l@[j].model()),
    decreases l,
{
    let mut i: usize = 0;
    while i < l.len()
        invariant
            i <= l@.len(),
            forall|j: int| 0 <= j < i ==> super::spec::wf(#[trigger] l@[j].model()),
        decreases l@.len() - i,
    {
        proof {
            vstd::std_specs::vec::axiom_vec_index_decreases(*l, i as int);
        }
        assert_well_formed(&l[i]);
        i = i + 1;
    }
}

fn dictionary_well_formed(d: &Dictionary)
    ensures
        super::spec::wf(BValue::Dict(d.model())),
    decreases d,
{
    proof {
        use_type_invariant(d);
    }
    let mut i: usize = 0;
    while i < d.data.len()
        invariant
            i <= d.data@.len(),
            forall|j: int| 0 <= j < i ==> super::spec::wf(#[trigger] d.data@[j].1.model()),
            forall|j: int| 0 <= j < i ==> (#[trigger] key_bytes(d.data@[j].0)).len() <= usize::MAX,
        decreases d.data@.len() - i,
    {
        proof {
            vstd::std_specs::vec::axiom_vec_index_decreases(d.data, i as int);
        }
        let key = d.data[i].0.as_str().as_bytes();
        let _key_len = key.len();
        assert(key@ == key_bytes(d.data@[i as int].0));
        assert_well_formed(&d.data[i].1);
        i = i + 1;
    }
    proof {
        let m = d.model();
        assert forall|j: int| 0 <= j < m.len() implies vstd::utf8::valid_utf8(
            #[trigger] m[j].0,
        ) && m[j].0.len() <= usize::MAX && super::spec::wf(m[j].1) by {
            vstd::utf8::encode_utf8_valid_utf8(d.data@[j].0@);
            assert(m[j].1 == d.data@[j].1.model());
            assert(m[j].0 == key_bytes(d.data@[j].0));
        }
    }
}

fn clone_list(l: &Vec<DataKind>) -> (out: Vec<DataKind>)
    ensures
        out@.len() == l@.len(),
        forall|j: int| 0 <= j < l@.len() ==> (#[trigger] out@[j]).model() == l@[j].model(),
    decreases l,
{
    let mut out: Vec<DataKind> = Vec::new();
    let mut i: usize = 0;
    while i < l.len()
        invariant
            0 <= i <= l@.len(),
            out@.len() == i,
            forall|j: int| 0 <= j < i ==> (#[trigger] out@[j]).model() == l@[j].model(),
        decreases l@.len() - i,
    {
        proof {
            vstd::std_specs::vec::axiom_vec_index_decreases(*l, i as int);
        }
        out.push(l[i].clone());
        i = i + 1;
    }
    out
}

impl Clone for Dictionary {
    fn clone(&self) -> (r: Self)
        ensures
            r.model() == self.model(),
        decreases self,
    {
        proof {
            use_type_invariant(self);
        }
        let mut out: Vec<(String, DataKind)> = Vec::new();
        let mut i: usize = 0;
        while i < self.data.len()
            invariant
                0 <= i <= self.data@.len(),
                out@.len() == i,
                forall|j: int|
                    0 <= j < i ==> (#[trigger] out@[j]).0@ == self.data@[j].0@ && out@[j].1.model()
                        == self.data@[j].1.model(),
            decreases self.data@.len() - i,
        {
            let k = self.data[i].0.clone();
            proof {
                vstd::std_specs::vec::axiom_vec_index_decreases(self.data, i as int);
            }
            let v = self.data[i].1.clone();
            out.push((k, v));
            i = i + 1;
        }
        assert(entries_model(out@) =~= entries_model(self.data@));
        Dictionary { data: out }
    }
}

impl Dictionary {
    #[verifier::type_invariant]
    closed spec fn sorted(self) -> bool {
        keys_sorted(entries_model(self.data@))
    }

    /// The mathematical entries of this dictionary.
    pub open spec fn model(&self) -> Seq<(Seq<u8>, BValue)> {
        entries_model(self@)
    }

    /// An empty dictionary.
    pub fn new() -> (r: Dictionary)
        ensures
            r@ == Seq::<(String, DataKind)>::empty(),
            r.model() == Seq::<(Seq<u8>, BValue)>::empty(),
            keys_sorted(r.model()),
    {
        let r = Dictionary { data: Vec::new() };
        assert(r.model() =~= Seq::<(Seq<u8>, BValue)>::empty());
        r
    }

    /// Position of the first entry whose key is not less than `key`.
    fn position(&self, key: &[u8]) -> (p: usize)
        requires
            keys_sorted(self.model()),
        ensures
            p == lower_bound(self.model(), key@),
            p <= self@.len(),
    {
        let ghost m = self.model();
        proof {
            lemma_lower_bound(m, key@);
        }
        let mut i: usize = 0;
        while i < self.data.len()
            invariant
                m == entries_model(self.data@),
                keys_sorted(m),
                0 <= i <= self.data@.len(),
                forall|j: int| 0 <= j < i ==> bytes_lt(#[trigger] m[j].0, key@),
                0 <= lower_bound(m, key@) <= m.len(),
                forall|j: int| 0 <= j < lower_bound(m, key@) ==> bytes_lt(#[trigger] m[j].0, key@),
                forall|j: int|
                    lower_bound(m, key@) <= j < m.len() ==> !bytes_lt(#[trigger] m[j].0, key@),
            decreases self.data@.len() - i,
        {
            let k = self.data[i].0.as_str().as_bytes();
            if !bytes_less(k, key) {
                assert(m[i as int].0 == k@);
                proof {
                    let lb = lower_bound(m, key@);
                    if lb < i {
                        assert(bytes_lt(m[lb].0, key@));
                    } else if lb > i {
                        assert(bytes_lt(m[i as int].0, key@));
                    }
                }
                return i;
            }
            assert(m[i as int].0 == k@);
            i = i + 1;
        }
        proof {
            let lb = lower_bound(m, key@);
            if lb < i {
                assert(bytes_lt(m[lb].0, key@));
            }
        }
        i
    }

    /// Inserts `value` under `key`, replacing the entry already under `key`.
    pub fn insert(&mut self, key: String, value: DataKind)
        ensures
            final(self).model() == sorted_insert(old(self).model(), key_bytes(key), value.model()),
            keys_sorted(final(self).model()),
            dict_lookup(final(self).model(), key_bytes(key)) == Some(value.model()),
            forall|k: Seq<u8>|
                k != key_bytes(key) ==> dict_lookup(final(self).model(), k) == dict_lookup(
                    old(self).model(),
                    k,
                ),
    {
        proof {
            use_type_invariant(&*self);
        }
        let ghost m = self.model();
        let ghost kb = key_bytes(key);
        let p = self.position(key.as_str().as_bytes());
        proof {
            lemma_sorted_insert(m, kb, value.model());
        }
        let replace = p < self.data.len() && bytes_equal(
            self.data[p].0.as_str().as_bytes(),
            key.as_str().as_bytes(),
        );
        let mut data = Vec::new();
        std::mem::swap(&mut data, &mut self.data);
        let ghost old_data = data@;
        if replace {
            assert(m[p as int].0 == kb);
            data.set(p, (key, value));
            assert(entries_model(data@) =~= m.update(p as int, (kb, value.model())));
        } else {
            data.insert(p, (key, value));
            assert(entries_model(data@) =~= m.insert(p as int, (kb, value.model())));
        }
        self.data = data;
    }

    /// The item under `key`, if any.
    pub fn get(&self, key: &str) -> (r: Option<&DataKind>)
        ensures
            match r {
                Some(v) => dict_lookup(self.model(), encode_utf8(key@)) == Some(v.model()),
                None => dict_lookup(self.model(), encode_utf8(key@)) is None,
            },
    {
        proof {
            use_type_invariant(self);
            lemma_keys_sorted_unique(self.model());
        }
        let ghost m = self.model();
        let kb = key.as_bytes();
        let mut i: usize = 0;
        while i < self.data.len()
            invariant
                m == entries_model(self.data@),
                kb@ == encode_utf8(key@),
                0 <= i <= self.data@.len(),
                forall|j: int| 0 <= j < i ==> #[trigger] m[j].0 != kb@,
            decreases self.data@.len() - i,
        {
            if bytes_equal(self.data[i].0.as_str().as_bytes(), kb) {
                assert(m[i as int].0 == kb@);
                proof {
                    use_type_invariant(self);
                    lemma_keys_sorted_unique(m);
                    assert(exists|c: int| 0 <= c < m.len() && #[trigger] m[c].0 == kb@);
                    let c = choose|c: int| 0 <= c < m.len() && #[trigger] m[c].0 == kb@;
                    assert(m[c].0 == m[i as int].0);
                    assert(c == i);
                    assert(m[i as int].1 == self.data@[i as int].1.model());
                }
                return Some(&self.data[i].1);
            }
            assert(m[i as int].0 != kb@);
            i = i + 1;
        }
        None
    }

    /// The entries of this dictionary, in increasing key order.
    pub fn iter(&self) -> (r: &[(String, DataKind)])
        ensures
            r@ == self@,
            keys_sorted(self.model()),
    {
        proof {
            use_type_invariant(self);
        }
        self.data.as_slice()
    }

    /// The number of entries.
    pub fn len(&self) -> (r: usize)
        ensures
            r == self@.len(),
    {
        self.data.len()
    }
}

impl DataKind {
    /// The bytes of a byte string, read as UTF-8 text.
    pub fn as_utf8(&self) -> (r: Result<&str, ConvertError>)
        ensures
            r is Ok <==> (self matches DataKind::Data(v) && valid_utf8(v@)),
            r matches Ok(s) ==> self matches DataKind::Data(v) && s@ == decode_utf8(v@),
    {
        if let DataKind::Data(value) = self {
            match str_from_utf8(value.as_slice()) {
                Some(s) => Ok(s),
                None => Err(ConvertError::new("DataKind is Data, but not valid UTF-8")),
            }
        } else {
            Err(ConvertError::new("DataKind is not Data"))
        }
    }

    /// The bytes of a byte string.
    pub fn as_bytes(&self) -> (r: Result<&[u8], ConvertError>)
        ensures
            r is Ok <==> self is Data,
            r matches Ok(b) ==> self matches DataKind::Data(v) && b@ == v@,
    {
        if let DataKind::Data(value) = self {
            Ok(value.as_slice())
        } else {
            Err(ConvertError::new("DataKind is not Data"))
        }
    }

    /// The value of an integer.
    pub fn as_int(&self) -> (r: Result<i64, ConvertError>)
        ensures
            r is Ok <==> self is Integer,
            r matches Err(e) ==> e.message() == "DataKind is not Integer"@,
            r matches Ok(i) ==> self matches DataKind::Integer(j) && i == j,
    {
        if let DataKind::Integer(value) = self {
            Ok(*value)
        } else {
            Err(ConvertError::new("DataKind is not Integer"))
        }
    }

    /// The items of a list.
    pub fn as_list(&self) -> (r: Result<&List, ConvertError>)
        ensures
            r is Ok <==> self is List,
            r matches Ok(l) ==> self matches DataKind::List(m) && l == m,
    {
        if let DataKind::List(value) = self {
            Ok(value)
        } else {
            Err(ConvertError::new("DataKind is not List"))
        }
    }

    /// The dictionary.
    pub fn as_dict(&self) -> (r: Result<&Dictionary, ConvertError>)
        ensures
            r is Ok <==> self is Dictionary,
            r matches Ok(d) ==> self matches DataKind::Dictionary(e) && d == e,
    {
        if let DataKind::Dictionary(value) = self {
            Ok(value)
        } else {
            Err(ConvertError::new("DataKind is not Dictionary"))
        }
    }
}

/// Types that an item can be read as.
pub trait FromDataKind: Sized {
    /// Whether an item of value `value` can be read as this type.
    spec fn accepts(value: BValue) -> bool;

    /// `out` is what an item of value `value` reads as.
    spec fn reads_as(value: BValue, out: Self) -> bool;

    /// The message of the error when an item of value `value` cannot be read as this type.
    spec fn refusal(value: BValue) -> Seq<char>;

    /// Reads `value` as this type.
    fn from_data_kind(value: DataKind) -> (r: Result<Self, ConvertError>)
        ensures
            r is Ok <==> Self::accepts(value.model()),
            r matches Ok(out) ==> Self::reads_as(value.model(), out),
            r matches Err(e) ==> e.message() == Self::refusal(value.model());
}

impl FromDataKind for i64 {
    open spec fn accepts(value: BValue) -> bool {
        value is Int
    }

    open spec fn reads_as(value: BValue, out: i64) -> bool {
        value == BValue::Int(out)
    }

    open spec fn refusal(value: BValue) -> Seq<char> {
        "DataKind is not Integer"@
    }

    fn from_data_kind(value: DataKind) -> (r: Result<i64, ConvertError>) {
        if let DataKind::Integer(v) = value {
            Ok(v)
        } else {
            Err(ConvertError::new("DataKind is not Integer"))
        }
    }
}

impl FromDataKind for usize {
    open spec fn accepts(value: BValue) -> bool {
        value matches BValue::Int(v) && 0 <= v <= usize::MAX
    }

    open spec fn reads_as(value: BValue, out: usize) -> bool {
        value matches BValue::Int(v) && v == out
    }

    open spec fn refusal(value: BValue) -> Seq<char> {
        match value {
            BValue::Int(v) => if v < 0 {
                "DataKind is Integer, but negative"@
            } else {
                "DataKind is Integer, but too large"@
            },
            _ => "DataKind is not Integer"@,
        }
    }

    fn from_data_kind(value: DataKind) -> (r: Result<usize, ConvertError>) {
        if let DataKind::Integer(v) = value {
            if v < 0 {
                Err(ConvertError::new("DataKind is Integer, but negative"))
            } else if (v as u64) > (usize::MAX as u64) {
                Err(ConvertError::new("DataKind is Integer, but too large"))
            } else {
                Ok(v as usize)
            }
        } else {
            Err(ConvertError::new("DataKind is not Integer"))
        }
    }
}

impl FromDataKind for Vec<u8> {
    open spec fn accepts(value: BValue) -> bool {
        value is Bytes
    }

    open spec fn reads_as(value: BValue, out: Vec<u8>) -> bool {
        value == BValue::Bytes(out@)
    }

    open spec fn refusal(value: BValue) -> Seq<char> {
        "DataKind is not Data"@
    }

    fn from_data_kind(value: DataKind) -> (r: Result<Vec<u8>, ConvertError>) {
        if let DataKind::Data(v) = value {
            Ok(v)
        } else {
            Err(ConvertError::new("DataKind is not Data"))
        }
    }
}

impl FromDataKind for Vec<DataKind> {
    open spec fn accepts(value: BValue) -> bool {
        value is List
    }

    open spec fn reads_as(value: BValue, out: Vec<DataKind>) -> bool {
        value == BValue::List(list_model(out@))
    }

    open spec fn refusal(value: BValue) -> Seq<char> {
        "DataKind is not List"@
    }

    fn from_data_kind(value: DataKind) -> (r: Result<Vec<DataKind>, ConvertError>) {
        if let DataKind::List(v) = value {
            proof {
                lemma_model_list(v);
            }
            Ok(v)
        } else {
            Err(ConvertError::new("DataKind is not List"))
        }
    }
}

impl FromDataKind for Dictionary {
    open spec fn accepts(value: BValue) -> bool {
        value is Dict
    }

    open spec fn reads_as(value: BValue, out: Dictionary) -> bool {
        value == BValue::Dict(out.model())
    }

    open spec fn refusal(value: BValue) -> Seq<char> {
        "DataKind is not Dictionary"@
    }

    fn from_data_kind(value: DataKind) -> (r: Result<Dictionary, ConvertError>) {
        if let DataKind::Dictionary(v) = value {
            proof {
                lemma_model_dict(v);
            }
            Ok(v)
        } else {
            Err(ConvertError::new("DataKind is not Dictionary"))
        }
    }
}

impl FromDataKind for String {
    open spec fn accepts(value: BValue) -> bool {
        value matches BValue::Bytes(v) && valid_utf8(v)
    }

    open spec fn reads_as(value: BValue, out: String) -> bool {
        value matches BValue::Bytes(v) && out@ == decode_utf8(v)
    }

    open spec fn refusal(value: BValue) -> Seq<char> {
        if value is Bytes {
            "DataKind is Data, but not valid UTF-8"@
        } else {
            "DataKind is not Data"@
        }
    }

    fn from_data_kind(value: DataKind) -> (r: Result<String, ConvertError>) {
        if let DataKind::Data(v) = value {
            match string_from_utf8(v) {
                Some(text) => Ok(text),
                None => Err(ConvertError::new("DataKind is Data, but not valid UTF-8")),
            }
        } else {
            Err(ConvertError::new("DataKind is not Data"))
        }
    }
}

impl Dictionary {
    /// The item under `name` read as a `T`: `None` when there is no such item.
    pub fn get_as<T: FromDataKind>(&self, name: &str) -> (r: Result<Option<T>, ConvertError>)
        ensures
            match dict_lookup(self.model(), encode_utf8(name@)) {
                None => r == Ok::<Option<T>, ConvertError>(None),
                Some(v) => (r is Ok <==> T::accepts(v)) && (r matches Ok(o) ==> (o matches Some(
                    out,
                ) && T::reads_as(v, out))) && (r matches Err(e) ==> e.message() == T::refusal(v)),
            },
    {
        match self.get(name) {
            Some(v) => {
                let c = v.clone();
                match T::from_data_kind(c) {
                    Ok(out) => Ok(Some(out)),
                    Err(e) => Err(e),
                }
            },
            None => Ok(None),
        }
    }
}

/// The item under `name` read as a `T`; a missing item is an error.
pub fn get_as<T: FromDataKind>(dict: &Dictionary, name: &str) -> (r: Result<T, ConvertError>)
    ensures
        match dict_lookup(dict.model(), encode_utf8(name@)) {
            None => r matches Err(e) && e.message() == "dictionary is missing '"@ + name@
                + "' key"@,
            Some(v) => (r is Ok <==> T::accepts(v)) && (r matches Ok(out) ==> T::reads_as(v, out))
                && (r matches Err(e) ==> e.message() == T::refusal(v)),
        },
{
    match dict.get_as::<T>(name) {
        Ok(Some(v)) => Ok(v),
        Ok(None) => Err(missing_key_error(name)),
        Err(e) => Err(e),
    }
}

/// Appends the decimal text of `n` to `out`.
pub(crate) fn write_decimal(out: &mut Vec<u8>, n: u64)
    ensures
        final(out)@ == old(out)@ + decimal(n as nat),
    decreases n,
{
    if n >= 10 {
        write_decimal(out, n / 10);
    }
    let digit = (n % 10) as u8 + 48;
    out.push(digit);
    proof {
        if n < 10 {
            assert(final(out)@ =~= old(out)@ + decimal(n as nat));
        } else {
            assert(final(out)@ =~= old(out)@ + decimal(n as nat));
        }
    }
}

/// Appends the bencoding of the byte string `b` to `out`.
pub(crate) fn write_bytes(out: &mut Vec<u8>, b: &[u8])
    ensures
        final(out)@ == old(out)@ + encode_bytes(b@),
{
    write_decimal(out, b.len() as u64);
    out.push(CHAR_COLON);
    let ghost mid = out@;
    let mut i: usize = 0;
    while i < b.len()
        invariant
            0 <= i <= b@.len(),
            out@ == mid + b@.take(i as int),
        decreases b@.len() - i,
    {
        out.push(b[i]);
        i = i + 1;
        assert(out@ =~= mid + b@.take(i as int));
    }
    assert(b@.take(b@.len() as int) =~= b@);
    assert(final(out)@ =~= old(out)@ + encode_bytes(b@));
}

/// Appends the bencoding of the integer `i` to `out`.
pub(crate) fn write_int(out: &mut Vec<u8>, i: i64)
    ensures
        final(out)@ == old(out)@ + encode_int(i),
{
    out.push(CHAR_I);
    if i < 0 {
        out.push(45u8);
        let m: u64 = if i == i64::MIN {
            0x8000_0000_0000_0000u64
        } else {
            (-i) as u64
        };
        write_decimal(out, m);
    } else {
        write_decimal(out, i as u64);
    }
    out.push(CHAR_E);
    assert(final(out)@ =~= old(out)@ + encode_int(i));
}

/// Appends the bencoding of `v` to `out`.
pub(crate) fn write_kind(out: &mut Vec<u8>, v: &DataKind)
    ensures
        final(out)@ == old(out)@ + encode(v.model()),
    decreases v,
{
    match v {
        DataKind::Data(b) => write_bytes(out, b.as_slice()),
        DataKind::Integer(i) => write_int(out, *i),
        DataKind::List(l) => {
            proof {
                lemma_model_list(*l);
            }
            write_list(out, l);
        },
        DataKind::Dictionary(d) => {
            proof {
                lemma_model_dict(*d);
            }
            write_dict(out, d);
        },
    }
}

/// Appends the bencoding of the list `l` to `out`.
pub(crate) fn write_list(out: &mut Vec<u8>, l: &Vec<DataKind>)
    ensures
        final(out)@ == old(out)@ + encode(BValue::List(list_model(l@))),
    decreases l,
{
    out.push(CHAR_L);
    let ghost mid = out@;
    let mut i: usize = 0;
    while i < l.len()
        invariant
            0 <= i <= l@.len(),
            out@ == mid + encode_list(list_model(l@).take(i as int)),
        decreases l@.len() - i,
    {
        proof {
            vstd::std_specs::vec::axiom_vec_index_decreases(*l, i as int);
            lemma_encode_list_push(list_model(l@).take(i as int), l@[i as int].model());
            assert(list_model(l@).take(i as int).push(l@[i as int].model()) =~= list_model(
                l@,
            ).take(i + 1));
        }
        write_kind(out, &l[i]);
        i = i + 1;
    }
    assert(list_model(l@).take(l@.len() as int) =~= list_model(l@));
    out.push(CHAR_E);
    assert(final(out)@ =~= old(out)@ + encode(BValue::List(list_model(l@))));
}

/// Appends the bencoding of the dictionary `d` to `out`.
pub(crate) fn write_dict(out: &mut Vec<u8>, d: &Dictionary)
    ensures
        final(out)@ == old(out)@ + encode(BValue::Dict(d.model())),
    decreases d,
{
    out.push(CHAR_D);
    let ghost mid = out@;
    let mut i: usize = 0;
    while i < d.data.len()
        invariant
            0 <= i <= d.data@.len(),
            out@ == mid + encode_entries(d.model().take(i as int)),
        decreases d.data@.len() - i,
    {
        proof {
            vstd::std_specs::vec::axiom_vec_index_decreases(d.data, i as int);
            lemma_encode_entries_push(d.model().take(i as int), d.model()[i as int]);
            assert(d.model().take(i as int).push(d.model()[i as int]) =~= d.model().take(i + 1));
        }
        write_bytes(out, d.data[i].0.as_str().as_bytes());
        write_kind(out, &d.data[i].1);
        i = i + 1;
    }
    assert(d.model().take(d.data@.len() as int) =~= d.model());
    out.push(CHAR_E);
    assert(final(out)@ =~= old(out)@ + encode(BValue::Dict(d.model())));
}

} // verus!