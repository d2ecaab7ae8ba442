//! The sort driver: keys every element, adds (key, index) pairs to a trie,
//! and reads the elements back in the order of the trie's walk.
use vstd::prelude::*;
use crate::key::{
    is_sorted_order, key_eq, key_le, key_lt, lemma_key_lt_asymmetric, precedes, sorted_by_key,
};
use crate::tree::Tree;
use vstd::seq_lib::{to_multiset_build, to_multiset_insert};

verus! {

/// The views of a sequence of byte vectors.
pub open spec fn key_views(keys: Seq<Vec<u8>>) -> Seq<Seq<u8>> {
    keys.map_values(|k: Vec<u8>| k@)
}

/// The values that a sequence of references points at.
pub open spec fn derefs<T>(s: Seq<&T>) -> Seq<T> {
    s.map_values(|x: &T| *x)
}

/// Sorts `list` by the byte keys `keys`, where `keys[i]` is the key of
/// `list[i]`: ascending key order, elements with equal keys in their
/// original order.
pub fn sort_by_keys<'a, T>(list: &'a [T], keys: Vec<Vec<u8>>) -> (r: Vec<&'a T>)
    requires
        keys@.len() == list@.len(),
    ensures
        sorted_by_key(key_views(keys@), list@, derefs(r@)),
{
    let mut keys = keys;
    let ghost all = key_views(keys@);
    let n = list.len();
    let mut tree: Tree<usize> = Tree::new();
    let mut i: usize = 0;
    while i < n
        invariant
            n == list@.len(),
            keys@.len() == n,
            all.len() == n,
            i <= n,
            tree.wf(),
            tree.key_seq() == all.subrange(0, i as int),
            tree.value_seq() == Seq::new(i as nat, |j: int| j as usize),
            forall|j: int| i <= j < n ==> (#[trigger] keys@[j])@ == all[j],
        decreases n - i,
    {
        let mut key: Vec<u8> = Vec::new();
        std::mem::swap(&mut keys[i], &mut key);
        proof {
            assert(key@ == all[i as int]);
        }
        tree.add(key, i);
        i = i + 1;
        proof {
            assert(tree.key_seq() =~= all.subrange(0, i as int));
            assert(tree.value_seq() =~= Seq::new(i as nat, |j: int| j as usize));
        }
    }
    proof {
        assert(all.subrange(0, n as int) =~= all);
    }
    let idx = tree.traverse();
    let ghost ord = choose|ord: Seq<int>|
        #[trigger] is_sorted_order(all, ord) && idx@ == ord.map_values(|j: int| tree.value_seq()[j]);
    proof {
        assert forall|p: int| 0 <= p < idx@.len() implies #[trigger] idx@[p] as int == ord[p] by {
            assert(0 <= ord[p] < n);
            assert(tree.value_seq()[ord[p]] == ord[p] as usize);
        }
    }
    let mut r: Vec<&'a T> = Vec::new();
    let mut k: usize = 0;
    while k < idx.len()
        invariant
            n == list@.len(),
            all.len() == n,
            is_sorted_order(all, ord),
            idx@.len() == ord.len(),
            forall|p: int| 0 <= p < idx@.len() ==> #[trigger] idx@[p] as int == ord[p],
            k <= idx@.len(),
            derefs(r@) == ord.subrange(0, k as int).map_values(|j: int| list@[j]),
        decreases idx@.len() - k,
    {
        proof {
            assert(0 <= ord[k as int] < n);
        }
        let ghost before = r@;
        let item = &list[idx[k]];
        proof {
            assert(*item == list@[ord[k as int]]);
        }
        r.push(item);
        k = k + 1;
        proof {
            assert(r@ == before.push(item));
            assert(derefs(r@) =~= derefs(before).push(*item));
            assert(derefs(r@) =~= ord.subrange(0, k as int).map_values(|j: int| list@[j]));
        }
    }
    proof {
        assert(ord.subrange(0, k as int) =~= ord);
    }
    r
}

/// Sorts `list` by the byte key that `keyer` gives each element: ascending
/// key order, elements with equal keys in their original order.
pub fn sort<'a, T, F: Fn(&T) -> Vec<u8>>(list: &'a [T], keyer: F) -> (r: Vec<&'a T>)
    requires
        forall|i: int| 0 <= i < list@.len() ==> keyer.requires((&list@[i],)),
    ensures
        exists|keys: Seq<Vec<u8>>|
            {
                &&& keys.len() == list@.len()
                &&& forall|i: int| 0 <= i < list@.len() ==> keyer.ensures((&list@[i],), #[trigger] keys[i])
                &&& sorted_by_key(key_views(keys), list@, derefs(r@))
            },
{
    let mut keys: Vec<Vec<u8>> = Vec::new();
    let mut i: usize = 0;
    while i < list.len()
        invariant
            i <= list@.len(),
            keys@.len() == i,
            forall|j: int| 0 <= j < list@.len() ==> keyer.requires((&list@[j],)),
            forall|j: int| 0 <= j < i ==> keyer.ensures((&list@[j],), #[trigger] keys@[j]),
        decreases list@.len() - i,
    {
        let k = keyer(&list[i]);
        keys.push(k);
        i = i + 1;
    }
    sort_by_keys(list, keys)
}


/// Order: along a sorted order, the key at an earlier position never sorts
/// after the key at a later one.
pub proof fn lemma_sorted_keys_ascend(keys: Seq<Seq<u8>>, ord: Seq<int>)
    requires
        is_sorted_order(keys, ord),
    ensures
        forall|p: int, q: int|
            #![trigger ord[p], ord[q]]
            0 <= p < q < ord.len() ==> key_le(keys[ord[p]], keys[ord[q]]),
{
}

/// Permutation: a sorted order takes every input position exactly once, so
/// the output holds each input element exactly once.
pub proof fn lemma_sorted_is_permutation<T>(
    keys: Seq<Seq<u8>>,
    items: Seq<T>,
    ord: Seq<int>,
    out: Seq<T>,
)
    requires
        is_sorted_order(keys, ord),
        items.len() == keys.len(),
        out == ord.map_values(|j: int| items[j]),
    ensures
        out.len() == items.len(),
        ord.no_duplicates(),
        forall|i: int| 0 <= i < items.len() ==> #[trigger] ord.contains(i),
        forall|p: int| 0 <= p < out.len() ==> 0 <= ord[p] < items.len() && #[trigger] out[p] == items[ord[p]],
        out.to_multiset() == items.to_multiset(),
{
    assert forall|p: int, q: int| 0 <= p < ord.len() && 0 <= q < ord.len() && p != q implies ord[p]
        != ord[q] by {
        if p < q {
            assert(precedes(keys, ord[p], ord[q]));
        } else {
            assert(precedes(keys, ord[q], ord[p]));
        }
        if ord[p] == ord[q] {
            assert(!key_lt(keys[ord[p]], keys[ord[p]]));
        }
    }
    lemma_permuted_multiset(items, ord);
}

/// Listing the items of `items` at the positions of a permutation `ord`
/// gives the same multiset of items.
proof fn lemma_permuted_multiset<T>(items: Seq<T>, ord: Seq<int>)
    requires
        ord.len() == items.len(),
        ord.no_duplicates(),
        forall|p: int| 0 <= p < ord.len() ==> 0 <= #[trigger] ord[p] < items.len(),
        forall|i: int| 0 <= i < items.len() ==> #[trigger] ord.contains(i),
    ensures
        ord.map_values(|j: int| items[j]).to_multiset() == items.to_multiset(),
    decreases items.len(),
{
    let n = items.len() as int;
    if n == 0 {
        assert(ord.map_values(|j: int| items[j]) =~= Seq::<T>::empty());
        assert(items =~= Seq::<T>::empty());
    } else {
        assert(ord.contains(n - 1));
        let p = choose|p: int| 0 <= p < ord.len() && ord[p] == n - 1;
        let ord2 = ord.remove(p);
        let items2 = items.drop_last();
        assert forall|q: int| 0 <= q < ord2.len() implies 0 <= #[trigger] ord2[q] < items2.len() by {
            if q < p {
                assert(ord2[q] == ord[q]);
                assert(ord[q] != ord[p]);
            } else {
                assert(ord2[q] == ord[q + 1]);
                assert(ord[q + 1] != ord[p]);
            }
        }
        assert forall|i: int| 0 <= i < items2.len() implies #[trigger] ord2.contains(i) by {
            assert(ord.contains(i));
            let q = choose|q: int| 0 <= q < ord.len() && ord[q] == i;
            if q < p {
                assert(ord2[q] == i);
            } else {
                assert(ord2[q - 1] == i);
            }
        }
        assert(ord2.no_duplicates()) by {
            assert forall|a: int, b: int| 0 <= a < ord2.len() && 0 <= b < ord2.len() && a != b implies ord2[a]
                != ord2[b] by {
                let a1 = if a < p { a } else { a + 1 };
                let b1 = if b < p { b } else { b + 1 };
                assert(ord2[a] == ord[a1]);
                assert(ord2[b] == ord[b1]);
            }
        }
        lemma_permuted_multiset(items2, ord2);
        let out = ord.map_values(|j: int| items[j]);
        let out2 = ord2.map_values(|j: int| items2[j]);
        assert(out =~= out2.insert(p, items[n - 1]));
        to_multiset_insert(out2, p, items[n - 1]);
        assert(items =~= items2.push(items[n - 1]));
        to_multiset_build(items2, items[n - 1]);
    }
}

/// Stability: positions whose keys are equal keep their input order.
pub proof fn lemma_sorted_is_stable(keys: Seq<Seq<u8>>, ord: Seq<int>)
    requires
        is_sorted_order(keys, ord),
    ensures
        forall|p: int, q: int|
            #![trigger ord[p], ord[q]]
            0 <= p < q < ord.len() && key_eq(keys[ord[p]], keys[ord[q]]) ==> ord[p] < ord[q],
{
    assert forall|p: int, q: int|
        #![trigger ord[p], ord[q]]
        0 <= p < q < ord.len() && key_eq(keys[ord[p]], keys[ord[q]]) implies ord[p] < ord[q] by {
        if key_lt(keys[ord[p]], keys[ord[q]]) {
            lemma_key_lt_asymmetric(keys[ord[p]], keys[ord[q]]);
        }
    }
}

/// A strictly increasing sequence of `n` positions below `n` is `0, 1, ..., n-1`.
proof fn lemma_increasing_is_identity(s: Seq<int>)
    requires
        forall|p: int| 0 <= p < s.len() ==> 0 <= #[trigger] s[p] < s.len(),
        forall|p: int, q: int| #![trigger s[p], s[q]] 0 <= p < q < s.len() ==> s[p] < s[q],
    ensures
        forall|p: int| 0 <= p < s.len() ==> #[trigger] s[p] == p,
{
    assert forall|p: int| 0 <= p < s.len() implies #[trigger] s[p] == p by {
        lemma_increasing_gap(s, 0, p);
        lemma_increasing_gap(s, p, s.len() - 1);
    }
}

proof fn lemma_increasing_gap(s: Seq<int>, p: int, q: int)
    requires
        0 <= p <= q < s.len(),
        forall|a: int, b: int| #![trigger s[a], s[b]] 0 <= a < b < s.len() ==> s[a] < s[b],
    ensures
        s[q] - s[p] >= q - p,
    decreases q - p,
{
    if p < q {
        lemma_increasing_gap(s, p, q - 1);
        assert(s[q - 1] < s[q]);
    }
}

/// Idempotence: sorting a sequence whose keys already ascend returns it
/// unchanged.
pub proof fn lemma_sorted_input_unchanged<T>(keys: Seq<Seq<u8>>, items: Seq<T>, out: Seq<T>)
    requires
        items.len() == keys.len(),
        forall|i: int, j: int|
            #![trigger keys[i], keys[j]]
            0 <= i < j < keys.len() ==> key_le(keys[i], keys[j]),
        sorted_by_key(keys, items, out),
    ensures
        out == items,
{
    let ord = choose|ord: Seq<int>|
        #[trigger] is_sorted_order(keys, ord) && out == ord.map_values(|i: int| items[i]);
    assert forall|p: int, q: int| #![trigger ord[p], ord[q]] 0 <= p < q < ord.len() implies ord[p] < ord[q] by {
        let a = ord[p];
        let b = ord[q];
        assert(precedes(keys, a, b));
        if key_lt(keys[a], keys[b]) {
            lemma_key_lt_asymmetric(keys[a], keys[b]);
            if b < a {
                assert(key_le(keys[b], keys[a]));
            }
            assert(a != b);
        }
    }
    lemma_increasing_is_identity(ord);
    assert(out =~= items);
}

/// Boundary: an empty input gives an empty output, and a one-element input
/// gives that element.
pub proof fn lemma_short_input_unchanged<T>(keys: Seq<Seq<u8>>, items: Seq<T>, out: Seq<T>)
    requires
        items.len() == keys.len(),
        items.len() <= 1,
        sorted_by_key(keys, items, out),
    ensures
        out == items,
{
    let ord = choose|ord: Seq<int>|
        #[trigger] is_sorted_order(keys, ord) && out == ord.map_values(|i: int| items[i]);
    if items.len() == 1 {
        assert(ord[0] == 0);
    }
    assert(out =~= items);
}

} // verus!
