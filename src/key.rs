//! Byte keys and their order.
//!
//! A key is read as an infinite byte stream: past its end every byte is the
//! sentinel 0x00. Two keys that agree on every position of that stream are
//! equal; otherwise the first position where they differ decides.
use vstd::prelude::*;

verus! {

/// The byte that is read at `pos`, with 0x00 past the end of the key.
pub open spec fn byte_at(k: Seq<u8>, pos: int) -> u8 {
    if 0 <= pos < k.len() {
        k[pos]
    } else {
        0
    }
}

/// The first `n` bytes of the padded stream of `k`.
pub open spec fn padded_prefix(k: Seq<u8>, n: nat) -> Seq<u8> {
    Seq::new(n, |i: int| byte_at(k, i))
}

/// Both keys read the same byte at every position.
pub open spec fn key_eq(a: Seq<u8>, b: Seq<u8>) -> bool {
    forall|i: int| 0 <= i ==> #[trigger] byte_at(a, i) == byte_at(b, i)
}

/// `a` and `b` agree on every position before `pos` and `a` is smaller at `pos`.
pub open spec fn differs_below_at(a: Seq<u8>, b: Seq<u8>, pos: int) -> bool {
    &&& 0 <= pos
    &&& forall|j: int| 0 <= j < pos ==> #[trigger] byte_at(a, j) == byte_at(b, j)
    &&& byte_at(a, pos) < byte_at(b, pos)
}

/// `a` sorts strictly before `b`.
pub open spec fn key_lt(a: Seq<u8>, b: Seq<u8>) -> bool {
    exists|pos: int| #[trigger] differs_below_at(a, b, pos)
}

/// `a` sorts before `b` or equal to it.
pub open spec fn key_le(a: Seq<u8>, b: Seq<u8>) -> bool {
    key_lt(a, b) || key_eq(a, b)
}

/// Entry `i` comes before entry `j` in the sorted output: its key is
/// smaller, or the keys are equal and `i` was given first.
pub open spec fn precedes(keys: Seq<Seq<u8>>, i: int, j: int) -> bool {
    key_lt(keys[i], keys[j]) || (key_eq(keys[i], keys[j]) && i < j)
}

/// `ord` lists every index of `keys` exactly once, in ascending key order,
/// indices with equal keys in ascending index order.
pub open spec fn is_sorted_order(keys: Seq<Seq<u8>>, ord: Seq<int>) -> bool {
    &&& ord.len() == keys.len()
    &&& forall|p: int| 0 <= p < ord.len() ==> 0 <= #[trigger] ord[p] < keys.len()
    &&& forall|i: int| 0 <= i < keys.len() ==> #[trigger] ord.contains(i)
    &&& forall|p: int, q: int|
        #![trigger ord[p], ord[q]]
        0 <= p < q < ord.len() ==> precedes(keys, ord[p], ord[q])
}

/// `out` holds the items of `items` in the order `ord` gives for `keys`.
pub open spec fn sorted_by_key<T>(keys: Seq<Seq<u8>>, items: Seq<T>, out: Seq<T>) -> bool {
    exists|ord: Seq<int>| #[trigger]
        is_sorted_order(keys, ord) && out == ord.map_values(|i: int| items[i])
}

/// A key that sorts strictly before another neither equals it nor sorts
/// after it.
pub proof fn lemma_key_lt_asymmetric(a: Seq<u8>, b: Seq<u8>)
    requires
        key_lt(a, b),
    ensures
        !key_eq(a, b),
        !key_eq(b, a),
        !key_lt(b, a),
        !key_le(b, a),
{
    let p = choose|p: int| #[trigger] differs_below_at(a, b, p);
    if key_eq(a, b) {
        assert(byte_at(a, p) == byte_at(b, p));
    }
    if key_eq(b, a) {
        assert(byte_at(b, p) == byte_at(a, p));
    }
    if key_lt(b, a) {
        let q = choose|q: int| #[trigger] differs_below_at(b, a, q);
        if p < q {
            assert(byte_at(b, p) == byte_at(a, p));
        } else if q < p {
            assert(byte_at(a, q) == byte_at(b, q));
        }
    }
}

/// Two keys that agree on their first `n` padded bytes and end within them
/// are equal.
pub proof fn lemma_exhausted_eq(a: Seq<u8>, b: Seq<u8>, n: nat)
    requires
        padded_prefix(a, n) == padded_prefix(b, n),
        a.len() <= n,
        b.len() <= n,
    ensures
        key_eq(a, b),
{
    assert forall|i: int| 0 <= i implies #[trigger] byte_at(a, i) == byte_at(b, i) by {
        if i < n {
            assert(padded_prefix(a, n)[i] == byte_at(a, i));
            assert(padded_prefix(b, n)[i] == byte_at(b, i));
        }
    }
}

/// Reads the byte of `k` at `pos`, giving the sentinel past its end.
pub fn byte_at_exec(k: &Vec<u8>, pos: usize) -> (r: u8)
    ensures
        r == byte_at(k@, pos as int),
{
    if pos < k.len() {
        k[pos]
    } else {
        0
    }
}

} // verus!
