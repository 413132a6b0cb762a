use vstd::prelude::*;

use bit_vec::BitVec;

verus! {

#[verifier::external_type_specification]
#[verifier::external_body]
#[verifier::reject_recursive_types(B)]
pub struct ExBitVec<B>(bit_vec::BitVec<B>);

/// The bits held by a bit vector, in order.
pub uninterp spec fn bits(v: BitVec) -> Seq<bool>;

/// The weight of bit `k` (0 to 7) of a byte, the most significant bit first.
pub open spec fn bit_weight(k: int) -> int {
    if k == 0 {
        128
    } else if k == 1 {
        64
    } else if k == 2 {
        32
    } else if k == 3 {
        16
    } else if k == 4 {
        8
    } else if k == 5 {
        4
    } else if k == 6 {
        2
    } else {
        1
    }
}

/// Bit `k` of byte `b`, the most significant bit first.
pub open spec fn byte_bit(b: u8, k: int) -> bool {
    ((b as int) / bit_weight(k)) % 2 == 1
}

/// The bits of a byte string: eight per byte, the most significant bit of each byte first.
pub open spec fn bytes_to_bits(bytes: Seq<u8>) -> Seq<bool> {
    Seq::new(8 * bytes.len(), |i: int| byte_bit(bytes[i / 8], i % 8))
}

/// A bit vector of `nbits` bits all equal to `bit` (`BitVec::from_elem`).
#[verifier::external_body]
pub(crate) fn bitvec_from_elem(nbits: usize, bit: bool) -> (r: BitVec)
    ensures
        bits(r) == Seq::new(nbits as nat, |i: int| bit),
{
    BitVec::from_elem(nbits, bit)
}

/// Bit `i`, `None` past the end (`BitVec::get`).
#[verifier::external_body]
pub(crate) fn bitvec_get(v: &BitVec, i: usize) -> (r: Option<bool>)
    ensures
        i < bits(*v).len() ==> r == Some(bits(*v)[i as int]),
        i >= bits(*v).len() ==> r is None,
{
    v.get(i)
}

/// Sets bit `i`, which must be in bounds (`BitVec::set` panics otherwise).
#[verifier::external_body]
pub(crate) fn bitvec_set(v: &mut BitVec, i: usize, x: bool)
    requires
        i < bits(*old(v)).len(),
    ensures
        bits(*final(v)) == bits(*old(v)).update(i as int, x),
{
    v.set(i, x)
}

/// The number of bits (`BitVec::len`).
#[verifier::external_body]
pub(crate) fn bitvec_len(v: &BitVec) -> (r: usize)
    ensures
        r == bits(*v).len(),
{
    v.len()
}

/// Whether every bit is set (`BitVec::all`).
#[verifier::external_body]
pub(crate) fn bitvec_all(v: &BitVec) -> (r: bool)
    ensures
        r == (forall|i: int| 0 <= i < bits(*v).len() ==> #[trigger] bits(*v)[i]),
{
    v.all()
}

/// A copy holding the same bits (`BitVec::clone`).
#[verifier::external_body]
pub(crate) fn bitvec_clone(v: &BitVec) -> (r: BitVec)
    ensures
        bits(r) == bits(*v),
{
    v.clone()
}

/// Keeps the bits that are set in both; the lengths must agree (`BitVec::and` panics
/// otherwise). Gives whether a bit changed.
#[verifier::external_body]
pub(crate) fn bitvec_and(v: &mut BitVec, other: &BitVec) -> (r: bool)
    requires
        bits(*old(v)).len() == bits(*other).len(),
    ensures
        bits(*final(v)) == Seq::new(
            bits(*old(v)).len(),
            |i: int| bits(*old(v))[i] && bits(*other)[i],
        ),
        r == (bits(*final(v)) != bits(*old(v))),
{
    v.and(other)
}

/// Drops the bits from `len` on (`BitVec::truncate`); no effect when `len` is not below
/// the length.
#[verifier::external_body]
pub(crate) fn bitvec_truncate(v: &mut BitVec, len: usize)
    ensures
        bits(*final(v)) == if len < bits(*old(v)).len() {
            bits(*old(v)).take(len as int)
        } else {
            bits(*old(v))
        },
{
    v.truncate(len)
}

/// The bits of `bytes`, eight per byte, the most significant first (`BitVec::from_bytes`,
/// which panics when the number of bits overflows).
#[verifier::external_body]
pub(crate) fn bitvec_from_bytes(bytes: &[u8]) -> (r: BitVec)
    requires
        8 * bytes@.len() <= usize::MAX,
    ensures
        bits(r) == bytes_to_bits(bytes@),
{
    BitVec::from_bytes(bytes)
}

/// Bit `i` of `b` as the value it adds to its byte: its weight when set, else 0.
pub open spec fn weighted(b: Seq<bool>, i: int, k: int) -> int {
    if i < b.len() && b[i] {
        bit_weight(k)
    } else {
        0
    }
}

/// Bits packed eight per byte, the most significant first, the last byte padded with
/// zero bits.
pub open spec fn pack_bits(b: Seq<bool>) -> Seq<u8> {
    Seq::new(
        (if b.len() % 8 == 0 {
            b.len() / 8
        } else {
            b.len() / 8 + 1
        }) as nat,
        |j: int|
            (weighted(b, 8 * j, 0) + weighted(b, 8 * j + 1, 1) + weighted(b, 8 * j + 2, 2)
                + weighted(b, 8 * j + 3, 3) + weighted(b, 8 * j + 4, 4) + weighted(b, 8 * j + 5, 5)
                + weighted(b, 8 * j + 6, 6) + weighted(b, 8 * j + 7, 7)) as u8,
    )
}

/// The bits packed eight per byte, the most significant first, the last byte padded with
/// zero bits (`BitVec::to_bytes`).
#[verifier::external_body]
pub(crate) fn bitvec_to_bytes(v: &BitVec) -> (r: Vec<u8>)
    ensures
        r@ == pack_bits(bits(*v)),
{
    v.to_bytes()
}

/// Sets every bit (`BitVec::set_all`).
#[verifier::external_body]
pub(crate) fn bitvec_set_all(v: &mut BitVec)
    ensures
        bits(*final(v)) == Seq::new(bits(*old(v)).len(), |i: int| true),
{
    v.set_all()
}

/// Flips every bit (`BitVec::negate`).
#[verifier::external_body]
pub(crate) fn bitvec_negate(v: &mut BitVec)
    ensures
        bits(*final(v)) == Seq::new(bits(*old(v)).len(), |i: int| !bits(*old(v))[i]),
{
    v.negate()
}

/// Whether no bit is set (`BitVec::none`).
#[verifier::external_body]
pub(crate) fn bitvec_none(v: &BitVec) -> (r: bool)
    ensures
        r == (forall|i: int| 0 <= i < bits(*v).len() ==> !#[trigger] bits(*v)[i]),
{
    v.none()
}

/// The number of set bits among the first `n` of `b`.
pub open spec fn count_set(b: Seq<bool>, n: int) -> int
    decreases n,
{
    if n <= 0 {
        0
    } else {
        count_set(b, n - 1) + if b[n - 1] {
            1int
        } else {
            0
        }
    }
}

/// The number of set bits of `b`.
pub open spec fn count_true(b: Seq<bool>) -> int {
    count_set(b, b.len() as int)
}

pub proof fn lemma_count_set_bounds(b: Seq<bool>, n: int)
    requires
        0 <= n <= b.len(),
    ensures
        0 <= count_set(b, n) <= n,
    decreases n,
{
    if n > 0 {
        lemma_count_set_bounds(b, n - 1);
    }
}

/// Setting a clear bit adds one to the count.
pub proof fn lemma_count_set_update(b: Seq<bool>, i: int, n: int)
    requires
        0 <= i < b.len(),
        0 <= n <= b.len(),
        !b[i],
    ensures
        count_set(b.update(i, true), n) == count_set(b, n) + if i < n {
            1int
        } else {
            0
        },
    decreases n,
{
    if n > 0 {
        lemma_count_set_update(b, i, n - 1);
    }
}

/// A bit vector with a clear bit does not have all its bits set.
pub proof fn lemma_count_set_lt(b: Seq<bool>, i: int, n: int)
    requires
        0 <= i < n <= b.len(),
        !b[i],
    ensures
        count_set(b, n) < n,
    decreases n,
{
    lemma_count_set_bounds(b, n - 1);
    if i < n - 1 {
        lemma_count_set_lt(b, i, n - 1);
    }
}

/// Counting the set bits of a bit vector (`BitVec::iter` and counting).
pub fn count_bits(v: &BitVec) -> (r: usize)
    ensures
        r == count_true(bits(*v)),
{
    let n = bitvec_len(v);
    let mut count: usize = 0;
    let mut i: usize = 0;
    while i < n
        invariant
            n == bits(*v).len(),
            i <= n,
            count == count_set(bits(*v), i as int),
        decreases n - i,
    {
        proof {
            lemma_count_set_bounds(bits(*v), i as int);
        }
        if bitvec_get(v, i) == Some(true) {
            count = count + 1;
        }
        i = i + 1;
    }
    count
}

} // verus!
