use vstd::prelude::*;

use crate::client::peers_data::PeerAddr;

verus! {

/// The key of an entry of a connection table: the peer's address and the connection id.
pub open spec fn key_of<V>(e: (PeerAddr, u16, V)) -> (PeerAddr, u16) {
    (e.0, e.1)
}

/// No key occurs twice among the entries `v`.
pub open spec fn keys_distinct<V>(v: Seq<(PeerAddr, u16, V)>) -> bool {
    forall|i: int, j: int| 0 <= i < j < v.len() ==> key_of(v[i]) != key_of(v[j])
}

/// The entries `v` as a map from key to value.
pub open spec fn table<V>(v: Seq<(PeerAddr, u16, V)>) -> Map<(PeerAddr, u16), V> {
    Map::new(
        |k: (PeerAddr, u16)| exists|i: int| #![trigger v[i]] 0 <= i < v.len() && key_of(v[i]) == k,
        |k: (PeerAddr, u16)| v[choose|i: int| #![trigger v[i]] 0 <= i < v.len() && key_of(v[i]) == k].2,
    )
}

/// The table maps the key of entry `i` to the entry's value.
pub proof fn lemma_table_value<V>(v: Seq<(PeerAddr, u16, V)>, i: int)
    requires
        keys_distinct(v),
        0 <= i < v.len(),
    ensures
        table(v).contains_key(key_of(v[i])),
        table(v)[key_of(v[i])] == v[i].2,
{
    let k = key_of(v[i]);
    assert(table(v).dom().contains(k));
    let j = choose|j: int| #![trigger v[j]] 0 <= j < v.len() && key_of(v[j]) == k;
    assert(j == i) by {
        if j < i {
            assert(key_of(v[j]) != key_of(v[i]));
        } else if j > i {
            assert(key_of(v[i]) != key_of(v[j]));
        }
    }
}

/// Every key of the table is the key of one of the entries.
pub proof fn lemma_table_key<V>(v: Seq<(PeerAddr, u16, V)>, k: (PeerAddr, u16)) -> (i: int)
    requires
        table(v).contains_key(k),
    ensures
        0 <= i < v.len(),
        key_of(v[i]) == k,
{
    choose|i: int| #![trigger v[i]] 0 <= i < v.len() && key_of(v[i]) == k
}

/// An entry with a new key added at the end adds that key.
pub proof fn lemma_table_push<V>(v: Seq<(PeerAddr, u16, V)>, e: (PeerAddr, u16, V))
    requires
        keys_distinct(v),
        !table(v).contains_key(key_of(e)),
    ensures
        keys_distinct(v.push(e)),
        table(v.push(e)) == table(v).insert(key_of(e), e.2),
{
    let w = v.push(e);
    assert forall|i: int, j: int| 0 <= i < j < w.len() implies key_of(w[i]) != key_of(w[j]) by {
        if j == v.len() {
            assert(w[i] == v[i]);
            if key_of(v[i]) == key_of(e) {
                assert(table(v).contains_key(key_of(e)));
            }
        }
    }
    let m = table(v).insert(key_of(e), e.2);
    assert forall|k: (PeerAddr, u16)| #[trigger] table(w).contains_key(k) == m.contains_key(k) by {
        if table(w).contains_key(k) {
            let i = lemma_table_key(w, k);
            if i < v.len() {
                assert(w[i] == v[i]);
                assert(table(v).contains_key(k));
            }
        }
        if table(v).contains_key(k) {
            let i = lemma_table_key(v, k);
            assert(w[i] == v[i]);
            assert(table(w).contains_key(k));
        }
        if k == key_of(e) {
            assert(w[v.len() as int] == e);
            assert(table(w).contains_key(k));
        }
    }
    assert forall|k: (PeerAddr, u16)| #[trigger] table(w).contains_key(k) implies table(w)[k]
        == m[k] by {
        let i = lemma_table_key(w, k);
        lemma_table_value(w, i);
        if i < v.len() {
            assert(w[i] == v[i]);
            lemma_table_value(v, i);
        }
    }
    assert(table(w) =~= m);
}

/// Replacing entry `i` by one with the same key sets that key's value.
pub proof fn lemma_table_update<V>(v: Seq<(PeerAddr, u16, V)>, i: int, e: (PeerAddr, u16, V))
    requires
        keys_distinct(v),
        0 <= i < v.len(),
        key_of(v[i]) == key_of(e),
    ensures
        keys_distinct(v.update(i, e)),
        table(v.update(i, e)) == table(v).insert(key_of(e), e.2),
{
    let w = v.update(i, e);
    assert forall|a: int, b: int| 0 <= a < b < w.len() implies key_of(w[a]) != key_of(w[b]) by {
        assert(key_of(w[a]) == key_of(v[a]));
        assert(key_of(w[b]) == key_of(v[b]));
    }
    let m = table(v).insert(key_of(e), e.2);
    assert forall|k: (PeerAddr, u16)| #[trigger] table(w).contains_key(k) == m.contains_key(k) by {
        if table(w).contains_key(k) {
            let j = lemma_table_key(w, k);
            assert(key_of(w[j]) == key_of(v[j]));
            assert(table(v).contains_key(k));
        }
        if table(v).contains_key(k) {
            let j = lemma_table_key(v, k);
            assert(key_of(w[j]) == key_of(v[j]));
            assert(table(w).contains_key(k));
        }
        if k == key_of(e) {
            assert(w[i] == e);
            assert(table(w).contains_key(k));
        }
    }
    assert forall|k: (PeerAddr, u16)| #[trigger] table(w).contains_key(k) implies table(w)[k]
        == m[k] by {
        let j = lemma_table_key(w, k);
        lemma_table_value(w, j);
        if j != i {
            assert(w[j] == v[j]);
            lemma_table_value(v, j);
        }
    }
    assert(table(w) =~= m);
}

/// Removing entry `i` removes its key.
pub proof fn lemma_table_remove<V>(v: Seq<(PeerAddr, u16, V)>, i: int)
    requires
        keys_distinct(v),
        0 <= i < v.len(),
    ensures
        keys_distinct(v.remove(i)),
        table(v.remove(i)) == table(v).remove(key_of(v[i])),
{
    let w = v.remove(i);
    assert forall|a: int, b: int| 0 <= a < b < w.len() implies key_of(w[a]) != key_of(w[b]) by {
        let a2 = if a < i { a } else { a + 1 };
        let b2 = if b < i { b } else { b + 1 };
        assert(w[a] == v[a2]);
        assert(w[b] == v[b2]);
    }
    let m = table(v).remove(key_of(v[i]));
    assert forall|k: (PeerAddr, u16)| #[trigger] table(w).contains_key(k) == m.contains_key(k) by {
        if table(w).contains_key(k) {
            let j = lemma_table_key(w, k);
            let j2 = if j < i { j } else { j + 1 };
            assert(w[j] == v[j2]);
            assert(table(v).contains_key(k));
            assert(key_of(v[j2]) != key_of(v[i]));
        }
        if m.contains_key(k) {
            let j = lemma_table_key(v, k);
            if j < i {
                assert(w[j] == v[j]);
            } else {
                assert(w[j - 1] == v[j]);
            }
            assert(table(w).contains_key(k));
        }
    }
    assert forall|k: (PeerAddr, u16)| #[trigger] table(w).contains_key(k) implies table(w)[k]
        == m[k] by {
        let j = lemma_table_key(w, k);
        lemma_table_value(w, j);
        let j2 = if j < i { j } else { j + 1 };
        assert(w[j] == v[j2]);
        lemma_table_value(v, j2);
    }
    assert(table(w) =~= m);
}

/// The position of the entry with key `(addr, id)` in `v`, if there is one.
pub fn find_entry<V>(v: &Vec<(PeerAddr, u16, V)>, addr: PeerAddr, id: u16) -> (r: Option<usize>)
    ensures
        r matches Some(i) ==> i < v@.len() && key_of(v@[i as int]) == (addr, id),
        r is None ==> !table(v@).contains_key((addr, id)),
{
    let mut i: usize = 0;
    while i < v.len()
        invariant
            i <= v@.len(),
            forall|j: int| 0 <= j < i ==> key_of(v@[j]) != (addr, id),
        decreases v@.len() - i,
    {
        if v[i].0 == addr && v[i].1 == id {
            return Some(i);
        }
        i = i + 1;
    }
    None
}

} // verus!
