use vstd::prelude::*;

verus! {

/// The mathematical value of a bencoded item: byte strings, integers, lists, and
/// dictionaries whose entries are listed in key order.
pub enum BValue {
    Bytes(Seq<u8>),
    Int(i64),
    List(Seq<BValue>),
    Dict(Seq<(Seq<u8>, BValue)>),
}

/// Lexicographic order on byte strings (the order of a byte-keyed sorted map).
pub open spec fn bytes_lt(a: Seq<u8>, b: Seq<u8>) -> bool
    decreases a.len(),
{
    if a.len() == 0 {
        b.len() > 0
    } else if b.len() == 0 {
        false
    } else if a[0] < b[0] {
        true
    } else if a[0] > b[0] {
        false
    } else {
        bytes_lt(a.drop_first(), b.drop_first())
    }
}

/// No key comes before itself.
pub proof fn lemma_bytes_lt_irreflexive(a: Seq<u8>)
    ensures
        !bytes_lt(a, a),
    decreases a.len(),
{
    if a.len() > 0 {
        lemma_bytes_lt_irreflexive(a.drop_first());
    }
}

/// The order of dictionary keys is transitive.
pub proof fn lemma_bytes_lt_transitive(a: Seq<u8>, b: Seq<u8>, c: Seq<u8>)
    requires
        bytes_lt(a, b),
        bytes_lt(b, c),
    ensures
        bytes_lt(a, c),
    decreases a.len(),
{
    if a.len() > 0 && b.len() > 0 && c.len() > 0 && a[0] == b[0] && b[0] == c[0] {
        lemma_bytes_lt_transitive(a.drop_first(), b.drop_first(), c.drop_first());
    }
}

/// Of two different keys, one comes before the other.
pub proof fn lemma_bytes_lt_total(a: Seq<u8>, b: Seq<u8>)
    ensures
        a =~= b || bytes_lt(a, b) || bytes_lt(b, a),
    decreases a.len(),
{
    if a.len() > 0 && b.len() > 0 && a[0] == b[0] {
        lemma_bytes_lt_total(a.drop_first(), b.drop_first());
        if a.drop_first() =~= b.drop_first() {
            assert(a =~= seq![a[0]] + a.drop_first());
            assert(b =~= seq![b[0]] + b.drop_first());
        }
    }
}

/// A key that comes before another does not come after it, and is not the same.
pub proof fn lemma_bytes_lt_asymmetric(a: Seq<u8>, b: Seq<u8>)
    requires
        bytes_lt(a, b),
    ensures
        !bytes_lt(b, a),
        a != b,
{
    lemma_bytes_lt_irreflexive(a);
    if bytes_lt(b, a) {
        lemma_bytes_lt_transitive(a, b, a);
    }
}

/// The keys of `d` are strictly increasing.
pub open spec fn keys_sorted(d: Seq<(Seq<u8>, BValue)>) -> bool {
    forall|i: int, j: int| 0 <= i < j < d.len() ==> bytes_lt(#[trigger] d[i].0, #[trigger] d[j].0)
}

/// Every dictionary inside `v` lists its entries in strictly increasing key order, every
/// key is valid UTF-8, and every byte string is short enough to be held in memory.
pub open spec fn wf(v: BValue) -> bool
    decreases v,
{
    match v {
        BValue::Bytes(b) => b.len() <= usize::MAX,
        BValue::Int(_) => true,
        BValue::List(l) => forall|i: int| 0 <= i < l.len() ==> wf(#[trigger] l[i]),
        BValue::Dict(d) => {
            &&& keys_sorted(d)
            &&& forall|i: int|
                0 <= i < d.len() ==> vstd::utf8::valid_utf8(#[trigger] d[i].0) && d[i].0.len()
                    <= usize::MAX
            &&& forall|i: int| 0 <= i < d.len() ==> wf(#[trigger] d[i].1)
        },
    }
}

/// Index of the first entry whose key is not less than `k`.
pub open spec fn lower_bound(d: Seq<(Seq<u8>, BValue)>, k: Seq<u8>) -> int
    decreases d.len(),
{
    if d.len() == 0 {
        0
    } else if bytes_lt(d[0].0, k) {
        1 + lower_bound(d.drop_first(), k)
    } else {
        0
    }
}

/// Inserting `(k, v)` into a sorted entry list: an entry with key `k` is replaced,
/// otherwise the new entry is placed so that the keys stay sorted.
pub open spec fn sorted_insert(d: Seq<(Seq<u8>, BValue)>, k: Seq<u8>, v: BValue) -> Seq<
    (Seq<u8>, BValue),
> {
    let p = lower_bound(d, k);
    if p < d.len() && d[p].0 == k {
        d.update(p, (k, v))
    } else {
        d.insert(p, (k, v))
    }
}

/// The dictionary obtained by inserting `pairs` one after the other into an empty one.
pub open spec fn from_pairs(pairs: Seq<(Seq<u8>, BValue)>) -> Seq<(Seq<u8>, BValue)>
    decreases pairs.len(),
{
    if pairs.len() == 0 {
        Seq::empty()
    } else {
        sorted_insert(from_pairs(pairs.drop_last()), pairs.last().0, pairs.last().1)
    }
}

/// Lookup of key `k` in an entry list.
pub open spec fn dict_lookup(d: Seq<(Seq<u8>, BValue)>, k: Seq<u8>) -> Option<BValue> {
    if exists|i: int| 0 <= i < d.len() && #[trigger] d[i].0 == k {
        let i = choose|i: int| 0 <= i < d.len() && #[trigger] d[i].0 == k;
        Some(d[i].1)
    } else {
        None
    }
}

pub proof fn lemma_lower_bound(d: Seq<(Seq<u8>, BValue)>, k: Seq<u8>)
    requires
        keys_sorted(d),
    ensures
        0 <= lower_bound(d, k) <= d.len(),
        forall|i: int| 0 <= i < lower_bound(d, k) ==> bytes_lt(#[trigger] d[i].0, k),
        forall|i: int| lower_bound(d, k) <= i < d.len() ==> !bytes_lt(#[trigger] d[i].0, k),
    decreases d.len(),
{
    if d.len() > 0 {
        let t = d.drop_first();
        assert(keys_sorted(t)) by {
            assert forall|i: int, j: int| 0 <= i < j < t.len() implies bytes_lt(
                #[trigger] t[i].0,
                #[trigger] t[j].0,
            ) by {
                assert(t[i] == d[i + 1] && t[j] == d[j + 1]);
            }
        }
        lemma_lower_bound(t, k);
        if bytes_lt(d[0].0, k) {
            assert forall|i: int| 0 <= i < lower_bound(d, k) implies bytes_lt(
                #[trigger] d[i].0,
                k,
            ) by {
                if i > 0 {
                    assert(d[i] == t[i - 1]);
                }
            }
            assert forall|i: int| lower_bound(d, k) <= i < d.len() implies !bytes_lt(
                #[trigger] d[i].0,
                k,
            ) by {
                assert(d[i] == t[i - 1]);
            }
        } else {
            assert forall|i: int| 0 <= i < d.len() implies !bytes_lt(#[trigger] d[i].0, k) by {
                if i > 0 && bytes_lt(d[i].0, k) {
                    lemma_bytes_lt_transitive(d[0].0, d[i].0, k);
                }
            }
        }
    }
}

/// Inserting into a sorted entry list keeps it sorted and makes `k` map to `v`.
pub proof fn lemma_sorted_insert(d: Seq<(Seq<u8>, BValue)>, k: Seq<u8>, v: BValue)
    requires
        keys_sorted(d),
    ensures
        keys_sorted(sorted_insert(d, k, v)),
        dict_lookup(sorted_insert(d, k, v), k) == Some(v),
        forall|k2: Seq<u8>| k2 != k ==> dict_lookup(sorted_insert(d, k, v), k2) == dict_lookup(d, k2),
{
    let p = lower_bound(d, k);
    lemma_lower_bound(d, k);
    let r = sorted_insert(d, k, v);
    if p < d.len() && d[p].0 == k {
        assert(keys_sorted(r));
    } else {
        if p < d.len() {
            lemma_bytes_lt_total(d[p].0, k);
        }
        assert forall|i: int, j: int| 0 <= i < j < r.len() implies bytes_lt(
            #[trigger] r[i].0,
            #[trigger] r[j].0,
        ) by {
            if j == p {
                assert(r[i] == d[i]);
            } else if i == p {
                assert(r[j] == d[j - 1]);
                if j - 1 > p {
                    lemma_bytes_lt_transitive(k, d[p].0, d[j - 1].0);
                }
            } else if i < p && j > p {
                assert(r[i] == d[i] && r[j] == d[j - 1]);
            } else if i > p {
                assert(r[i] == d[i - 1] && r[j] == d[j - 1]);
            } else {
                assert(r[i] == d[i] && r[j] == d[j]);
            }
        }
    }
    lemma_keys_sorted_unique(r);
    lemma_keys_sorted_unique(d);
    assert(r[p].0 == k);
    assert forall|k2: Seq<u8>| k2 != k implies dict_lookup(r, k2) == dict_lookup(d, k2) by {
        if exists|i: int| 0 <= i < d.len() && #[trigger] d[i].0 == k2 {
            let i = choose|i: int| 0 <= i < d.len() && #[trigger] d[i].0 == k2;
            if p < d.len() && d[p].0 == k {
                assert(r[i].0 == k2);
            } else if i < p {
                assert(r[i] == d[i]);
            } else {
                assert(r[i + 1] == d[i]);
            }
        }
        if exists|i: int| 0 <= i < r.len() && #[trigger] r[i].0 == k2 {
            let i = choose|i: int| 0 <= i < r.len() && #[trigger] r[i].0 == k2;
            if p < d.len() && d[p].0 == k {
                assert(d[i].0 == k2);
            } else if i < p {
                assert(d[i] == r[i]);
            } else {
                assert(d[i - 1] == r[i]);
            }
        }
    }
}

/// Building a dictionary from entries that are already sorted gives those entries.
pub proof fn lemma_from_pairs_sorted(d: Seq<(Seq<u8>, BValue)>)
    requires
        keys_sorted(d),
    ensures
        from_pairs(d) == d,
    decreases d.len(),
{
    if d.len() > 0 {
        let t = d.drop_last();
        assert(keys_sorted(t)) by {
            assert forall|i: int, j: int| 0 <= i < j < t.len() implies bytes_lt(
                #[trigger] t[i].0,
                #[trigger] t[j].0,
            ) by {
                assert(t[i] == d[i] && t[j] == d[j]);
            }
        }
        lemma_from_pairs_sorted(t);
        let k = d.last().0;
        lemma_lower_bound(t, k);
        let p = lower_bound(t, k);
        if p < t.len() {
            assert(t[p] == d[p]);
            assert(bytes_lt(d[p].0, d[d.len() - 1].0));
        }
        assert(sorted_insert(t, k, d.last().1) =~= d);
    }
}

/// In a sorted entry list, each key occurs once.
pub proof fn lemma_keys_sorted_unique(d: Seq<(Seq<u8>, BValue)>)
    requires
        keys_sorted(d),
    ensures
        forall|i: int, j: int|
            0 <= i < d.len() && 0 <= j < d.len() && #[trigger] d[i].0 == #[trigger] d[j].0 ==> i
                == j,
{
    assert forall|i: int, j: int|
        0 <= i < d.len() && 0 <= j < d.len() && #[trigger] d[i].0 == #[trigger] d[j].0 implies i
        == j by {
        if i < j {
            lemma_bytes_lt_irreflexive(d[i].0);
        } else if j < i {
            lemma_bytes_lt_irreflexive(d[j].0);
        }
    }
}

/// In entries with sorted keys, the key of entry `i` looks up that entry's value.
pub proof fn lemma_lookup_at(d: Seq<(Seq<u8>, BValue)>, i: int)
    requires
        keys_sorted(d),
        0 <= i < d.len(),
    ensures
        dict_lookup(d, d[i].0) == Some(d[i].1),
{
    lemma_keys_sorted_unique(d);
    assert(d[i].0 == d[i].0);
}

/// Dropping the first of entries with sorted keys drops its key and keeps the others.
proof fn lemma_lookup_drop_first(d: Seq<(Seq<u8>, BValue)>, k: Seq<u8>)
    requires
        keys_sorted(d),
        d.len() > 0,
    ensures
        k == d[0].0 ==> dict_lookup(d.drop_first(), k) is None,
        k != d[0].0 ==> dict_lookup(d.drop_first(), k) == dict_lookup(d, k),
{
    let t = d.drop_first();
    lemma_keys_sorted_unique(d);
    if k == d[0].0 {
        if exists|i: int| 0 <= i < t.len() && #[trigger] t[i].0 == k {
            let i = choose|i: int| 0 <= i < t.len() && #[trigger] t[i].0 == k;
            assert(d[i + 1].0 == d[0].0);
        }
    } else {
        if exists|i: int| 0 <= i < d.len() && #[trigger] d[i].0 == k {
            let i = choose|i: int| 0 <= i < d.len() && #[trigger] d[i].0 == k;
            assert(i > 0);
            assert(t[i - 1].0 == k);
            let j = choose|j: int| 0 <= j < t.len() && #[trigger] t[j].0 == k;
            assert(d[j + 1].0 == k);
            assert(j + 1 == i);
        } else {
            if exists|j: int| 0 <= j < t.len() && #[trigger] t[j].0 == k {
                let j = choose|j: int| 0 <= j < t.len() && #[trigger] t[j].0 == k;
                assert(d[j + 1].0 == k);
            }
        }
    }
}

/// Two entry lists with sorted keys that look up the same value under every key are the
/// same list: a dictionary is determined by what it maps.
pub proof fn lemma_sorted_entries_equal(a: Seq<(Seq<u8>, BValue)>, b: Seq<(Seq<u8>, BValue)>)
    requires
        keys_sorted(a),
        keys_sorted(b),
        forall|k: Seq<u8>| #[trigger] dict_lookup(a, k) == dict_lookup(b, k),
    ensures
        a == b,
    decreases a.len(),
{
    if a.len() == 0 || b.len() == 0 {
        if a.len() > 0 {
            lemma_lookup_at(a, 0);
            assert(dict_lookup(b, a[0].0) is None);
        }
        if b.len() > 0 {
            lemma_lookup_at(b, 0);
            assert(dict_lookup(a, b[0].0) is None);
        }
        assert(a =~= b);
    } else {
        let ka = a[0].0;
        let kb = b[0].0;
        lemma_lookup_at(a, 0);
        lemma_lookup_at(b, 0);
        assert(dict_lookup(b, ka) is Some);
        assert(dict_lookup(a, kb) is Some);
        let i = choose|i: int| 0 <= i < b.len() && #[trigger] b[i].0 == ka;
        let j = choose|j: int| 0 <= j < a.len() && #[trigger] a[j].0 == kb;
        if ka != kb {
            assert(i > 0 && j > 0);
            assert(bytes_lt(b[0].0, b[i].0));
            assert(bytes_lt(a[0].0, a[j].0));
            lemma_bytes_lt_asymmetric(ka, kb);
        }
        assert(ka == kb);
        assert(a[0].1 == b[0].1);
        let ta = a.drop_first();
        let tb = b.drop_first();
        assert(keys_sorted(ta)) by {
            assert forall|x: int, y: int| 0 <= x < y < ta.len() implies bytes_lt(
                #[trigger] ta[x].0,
                #[trigger] ta[y].0,
            ) by {
                assert(ta[x] == a[x + 1] && ta[y] == a[y + 1]);
            }
        }
        assert(keys_sorted(tb)) by {
            assert forall|x: int, y: int| 0 <= x < y < tb.len() implies bytes_lt(
                #[trigger] tb[x].0,
                #[trigger] tb[y].0,
            ) by {
                assert(tb[x] == b[x + 1] && tb[y] == b[y + 1]);
            }
        }
        assert forall|k: Seq<u8>| #[trigger] dict_lookup(ta, k) == dict_lookup(tb, k) by {
            lemma_lookup_drop_first(a, k);
            lemma_lookup_drop_first(b, k);
            assert(dict_lookup(a, k) == dict_lookup(b, k));
        }
        lemma_sorted_entries_equal(ta, tb);
        assert(a =~= seq![a[0]] + ta);
        assert(b =~= seq![b[0]] + tb);
    }
}

/// The order in which entries with different keys are put into a dictionary does not
/// change the dictionary, nor so its bencoding.
pub proof fn lemma_insert_order(
    d: Seq<(Seq<u8>, BValue)>,
    k1: Seq<u8>,
    v1: BValue,
    k2: Seq<u8>,
    v2: BValue,
)
    requires
        keys_sorted(d),
        k1 != k2,
    ensures
        sorted_insert(sorted_insert(d, k1, v1), k2, v2) == sorted_insert(
            sorted_insert(d, k2, v2),
            k1,
            v1,
        ),
{
    let a1 = sorted_insert(d, k1, v1);
    let b1 = sorted_insert(d, k2, v2);
    lemma_sorted_insert(d, k1, v1);
    lemma_sorted_insert(d, k2, v2);
    lemma_sorted_insert(a1, k2, v2);
    lemma_sorted_insert(b1, k1, v1);
    let a = sorted_insert(a1, k2, v2);
    let b = sorted_insert(b1, k1, v1);
    assert forall|k: Seq<u8>| #[trigger] dict_lookup(a, k) == dict_lookup(b, k) by {
        if k == k1 {
            assert(dict_lookup(a, k1) == dict_lookup(a1, k1));
        } else if k == k2 {
            assert(dict_lookup(b, k2) == dict_lookup(b1, k2));
        } else {
            assert(dict_lookup(a, k) == dict_lookup(a1, k));
            assert(dict_lookup(a1, k) == dict_lookup(d, k));
            assert(dict_lookup(b, k) == dict_lookup(b1, k));
            assert(dict_lookup(b1, k) == dict_lookup(d, k));
        }
    }
    lemma_sorted_entries_equal(a, b);
}

/// The value inserted last under key `k` among `pairs`, if any.
pub open spec fn last_value(pairs: Seq<(Seq<u8>, BValue)>, k: Seq<u8>) -> Option<BValue>
    decreases pairs.len(),
{
    if pairs.len() == 0 {
        None
    } else if pairs.last().0 == k {
        Some(pairs.last().1)
    } else {
        last_value(pairs.drop_last(), k)
    }
}

/// Inserting `pairs` one after the other into an empty dictionary (what `Dictionary::new`
/// and `Dictionary::insert` do, see `from_pairs`) gives entries in strictly increasing key
/// order, one for each key inserted and none other, each holding the value inserted last
/// under its key.
pub proof fn lemma_from_pairs(pairs: Seq<(Seq<u8>, BValue)>)
    ensures
        keys_sorted(from_pairs(pairs)),
        forall|k: Seq<u8>| #[trigger] dict_lookup(from_pairs(pairs), k) == last_value(pairs, k),
    decreases pairs.len(),
{
    if pairs.len() > 0 {
        let init = pairs.drop_last();
        lemma_from_pairs(init);
        lemma_sorted_insert(from_pairs(init), pairs.last().0, pairs.last().1);
        assert forall|k: Seq<u8>| #[trigger] dict_lookup(from_pairs(pairs), k) == last_value(
            pairs,
            k,
        ) by {
            assert(dict_lookup(from_pairs(init), k) == last_value(init, k));
        }
    } else {
        assert forall|k: Seq<u8>| #[trigger] dict_lookup(from_pairs(pairs), k) == last_value(
            pairs,
            k,
        ) by {
            assert(from_pairs(pairs) =~= Seq::<(Seq<u8>, BValue)>::empty());
        }
    }
}

/// Two sequences of insertions that leave the same value last under every key give the
/// same dictionary, whatever the order of the insertions.
pub proof fn lemma_from_pairs_order(a: Seq<(Seq<u8>, BValue)>, b: Seq<(Seq<u8>, BValue)>)
    requires
        forall|k: Seq<u8>| #[trigger] last_value(a, k) == last_value(b, k),
    ensures
        from_pairs(a) == from_pairs(b),
{
    lemma_from_pairs(a);
    lemma_from_pairs(b);
    assert forall|k: Seq<u8>| #[trigger] dict_lookup(from_pairs(a), k) == dict_lookup(
        from_pairs(b),
        k,
    ) by {
        assert(last_value(a, k) == last_value(b, k));
    }
    lemma_sorted_entries_equal(from_pairs(a), from_pairs(b));
}

} // verus!
