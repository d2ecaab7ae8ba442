//! The sorted array tree: a 256-way trie over padded byte keys, kept in an
//! arena of nodes addressed by handle. The root has handle 0.
use vstd::prelude::*;
use crate::key::{
    byte_at, byte_at_exec, is_sorted_order, key_eq, lemma_exhausted_eq, padded_prefix, precedes,
    sorted_by_key,
};
use vstd::set_lib::{lemma_int_range, set_int_range};

verus! {

/// Number of slots of an internal node: one per byte value.
pub const ARITY: usize = 256;

/// The longest key of `keys`.
pub open spec fn max_len(keys: Seq<Seq<u8>>) -> nat
    decreases keys.len(),
{
    if keys.len() == 0 {
        0
    } else {
        let m = max_len(keys.drop_last());
        if keys.last().len() > m {
            keys.last().len()
        } else {
            m
        }
    }
}

proof fn lemma_max_len(keys: Seq<Seq<u8>>)
    ensures
        forall|i: int| 0 <= i < keys.len() ==> (#[trigger] keys[i]).len() <= max_len(keys),
    decreases keys.len(),
{
    if keys.len() > 0 {
        lemma_max_len(keys.drop_last());
        assert forall|i: int| 0 <= i < keys.len() implies (#[trigger] keys[i]).len() <= max_len(
            keys,
        ) by {
            if i < keys.len() - 1 {
                assert(keys[i] == keys.drop_last()[i]);
            }
        }
    }
}

proof fn lemma_max_len_push(keys: Seq<Seq<u8>>, k: Seq<u8>)
    ensures
        max_len(keys.push(k)) == if k.len() > max_len(keys) {
            k.len()
        } else {
            max_len(keys)
        },
{
    assert(keys.push(k).drop_last() == keys);
}

/// One node of the trie. An internal node has a table of `ARITY` child
/// handles and stores no entry; a leaf stores the entries whose padded keys
/// are all equal, in the order they were added.
struct Node {
    children: Option<Vec<Option<usize>>>,
    ids: Vec<usize>,
}

/// A trie of (key, value) entries that yields its values in ascending key
/// order, entries with equal keys in the order they were added.
pub struct Tree<V> {
    nodes: Vec<Node>,
    keys: Vec<Vec<u8>>,
    values: Vec<V>,
    /// The bytes that lead from the root to each node.
    paths: Ghost<Seq<Seq<u8>>>,
    /// The handle of each node's parent (unused for the root).
    parents: Ghost<Seq<int>>,
    /// The node that stores each entry.
    homes: Ghost<Seq<int>>,
}

impl<V> Tree<V> {
    /// The keys of the entries, in the order they were added.
    pub closed spec fn key_seq(&self) -> Seq<Seq<u8>> {
        self.keys@.map_values(|k: Vec<u8>| k@)
    }

    /// The values of the entries, in the order they were added.
    pub closed spec fn value_seq(&self) -> Seq<V> {
        self.values@
    }

    spec fn table(&self, i: int) -> Seq<Option<usize>> {
        self.nodes@[i].children->Some_0@
    }

    spec fn ids(&self, i: int) -> Seq<usize> {
        self.nodes@[i].ids@
    }

    /// Local shape of node `i`.
    spec fn node_ok(&self, i: int) -> bool {
        let n = self.nodes@.len();
        let e = self.keys@.len();
        if self.nodes@[i].children is Some {
            &&& self.table(i).len() == ARITY
            &&& self.ids(i).len() == 0
            &&& forall|b: int|
                0 <= b < ARITY && (#[trigger] self.table(i)[b]) is Some ==> {
                    let c = self.table(i)[b]->Some_0 as int;
                    &&& i < c < n
                    &&& self.parents@[c] == i
                    &&& self.paths@[c] == self.paths@[i].push(b as u8)
                }
        } else {
            &&& (i != 0 ==> self.ids(i).len() > 0)
            &&& forall|k: int, l: int|
                0 <= k < l < self.ids(i).len() ==> self.ids(i)[k] < self.ids(i)[l]
            &&& forall|k: int|
                0 <= k < self.ids(i).len() ==> {
                    let x = (#[trigger] self.ids(i)[k]) as int;
                    &&& x < e
                    &&& self.homes@[x] == i
                    &&& key_eq(self.key_seq()[x], self.key_seq()[self.ids(i)[0] as int])
                }
        }
    }

    /// Node `i` (not the root) is the child of its parent at the last byte
    /// of its path.
    spec fn linked(&self, i: int) -> bool {
        let p = self.parents@[i];
        let path = self.paths@[i];
        &&& 0 <= p < i
        &&& path.len() >= 1
        &&& self.paths@[p] == path.drop_last()
        &&& self.nodes@[p].children is Some
        &&& self.table(p)[path.last() as int] == Some(i as usize)
    }

    /// Entry `x` is stored at its home, whose path its padded key starts with.
    spec fn entry_ok(&self, x: int) -> bool {
        let h = self.homes@[x];
        &&& 0 <= h < self.nodes@.len()
        &&& exists|k: int| 0 <= k < self.ids(h).len() && self.ids(h)[k] as int == x
        &&& padded_prefix(self.key_seq()[x], self.paths@[h].len()) == self.paths@[h]
    }

    spec fn shape_ok(&self) -> bool {
        let n = self.nodes@.len();
        let e = self.keys@.len();
        &&& n >= 1
        &&& self.values@.len() == e
        &&& self.paths@.len() == n
        &&& self.parents@.len() == n
        &&& self.homes@.len() == e
        &&& self.paths@[0].len() == 0
        &&& forall|i: int| 0 <= i < n ==> #[trigger] self.node_ok(i)
        &&& forall|i: int| 0 < i < n ==> #[trigger] self.linked(i)
        &&& forall|i: int, j: int|
            #![trigger self.paths@[i], self.paths@[j]]
            0 <= i < n && 0 <= j < n && i != j ==> self.paths@[i] != self.paths@[j]
        &&& forall|x: int| 0 <= x < e ==> #[trigger] self.entry_ok(x)
    }

    /// No node lies deeper than `m`, and no internal node at depth `m`.
    spec fn depth_ok(&self, m: nat) -> bool {
        forall|i: int|
            0 <= i < self.nodes@.len() ==> {
                &&& (#[trigger] self.paths@[i]).len() <= m
                &&& (self.nodes@[i].children is Some ==> self.paths@[i].len() < m)
            }
    }

    /// The tree is well formed.
    pub closed spec fn wf(&self) -> bool {
        &&& self.shape_ok()
        &&& self.depth_ok(max_len(self.key_seq()))
        &&& max_len(self.key_seq()) <= usize::MAX
    }

    /// An empty tree.
    pub fn new() -> (t: Self)
        ensures
            t.wf(),
            t.key_seq() == Seq::<Seq<u8>>::empty(),
            t.value_seq() == Seq::<V>::empty(),
    {
        let mut nodes: Vec<Node> = Vec::new();
        nodes.push(Node { children: None, ids: Vec::new() });
        let ghost paths = seq![Seq::<u8>::empty()];
        let ghost parents = seq![0int];
        let ghost homes = Seq::<int>::empty();
        let t = Tree {
            nodes,
            keys: Vec::new(),
            values: Vec::new(),
            paths: Ghost(paths),
            parents: Ghost(parents),
            homes: Ghost(homes),
        };
        assert(t.node_ok(0));
        assert(t.key_seq() =~= Seq::<Seq<u8>>::empty());
        t
    }

    /// The handle in slot `b` of the internal node `i`.
    fn slot(&self, i: usize, b: usize) -> (r: Option<usize>)
        requires
            self.shape_ok(),
            i < self.nodes@.len(),
            self.nodes@[i as int].children is Some,
            b < ARITY,
        ensures
            r == self.table(i as int)[b as int],
    {
        assert(self.node_ok(i as int));
        match &self.nodes[i].children {
            Some(ch) => ch[b],
            None => None,
        }
    }

    /// Adds an entry with `key` and `value`.
    ///
    /// The entry descends by the bytes of its padded key. A leaf that already
    /// holds entries with another padded key is split: its entries move one
    /// level down by their own next byte, and the descent goes on.
    pub fn add(&mut self, key: Vec<u8>, value: V)
        requires
            old(self).wf(),
        ensures
            final(self).wf(),
            final(self).key_seq() == old(self).key_seq().push(key@),
            final(self).value_seq() == old(self).value_seq().push(value),
    {
        let ghost m: nat = if key@.len() > max_len(self.key_seq()) {
            key@.len()
        } else {
            max_len(self.key_seq())
        };
        proof {
            lemma_max_len(self.key_seq());
            lemma_max_len_push(self.key_seq(), key@);
            assert(padded_prefix(key@, 0) =~= self.paths@[0]);
        }
        let x = self.keys.len();
        let klen = key.len();
        let mut cur: usize = 0;
        let mut d: usize = 0;
        loop
            invariant
                self.shape_ok(),
                self.depth_ok(m),
                self.keys@ == old(self).keys@,
                self.values@ == old(self).values@,
                x == self.keys@.len(),
                m == max_len(self.key_seq().push(key@)),
                forall|i: int| 0 <= i < x ==> (#[trigger] self.key_seq()[i]).len() <= m,
                cur < self.nodes@.len(),
                self.paths@[cur as int].len() == d,
                padded_prefix(key@, d as nat) == self.paths@[cur as int],
                d <= m,
                m <= usize::MAX,
                klen == key@.len(),
            decreases 2 * (m - d) + if self.nodes@[cur as int].children is None {
                1int
            } else {
                0int
            },
        {
            proof {
                assert(self.node_ok(cur as int));
            }
            if self.nodes[cur].children.is_some() {
                let b = byte_at_exec(&key, d);
                match self.slot(cur, b as usize) {
                    Some(c) => {
                        proof {
                            assert(padded_prefix(key@, (d + 1) as nat) =~= self.paths@[cur as int].push(b));
                        }
                        cur = c;
                        d = d + 1;
                    },
                    None => {
                        self.attach_leaf(cur, b, key, value, Ghost(m));
                        return;
                    },
                }
            } else {
                let n_ids = self.nodes[cur].ids.len();
                if n_ids == 0 {
                    self.push_entry(cur, key, value, Ghost(m));
                    return;
                }
                let o = self.nodes[cur].ids[0];
                if d >= klen && d >= self.keys[o].len() {
                    proof {
                        assert(self.ids(cur as int)[0] == o);
                        assert(self.entry_ok(o as int));
                        lemma_exhausted_eq(key@, self.key_seq()[o as int], d as nat);
                    }
                    self.push_entry(cur, key, value, Ghost(m));
                    return;
                }
                proof {
                    assert(self.ids(cur as int)[0] == o);
                    assert(self.entry_ok(o as int));
                    assert(self.key_seq()[o as int].len() <= m);
                }
                self.split(cur, d, Ghost(m));
            }
        }
    }

    /// A table of `ARITY` empty slots.
    fn empty_table() -> (t: Vec<Option<usize>>)
        ensures
            t@.len() == ARITY,
            forall|b: int| 0 <= b < ARITY ==> (#[trigger] t@[b]) is None,
    {
        let mut t: Vec<Option<usize>> = Vec::new();
        while t.len() < ARITY
            invariant
                t@.len() <= ARITY,
                forall|b: int| 0 <= b < t@.len() ==> (#[trigger] t@[b]) is None,
            decreases ARITY - t@.len(),
        {
            t.push(None);
        }
        t
    }

    /// Stores a new entry at leaf `cur`, whose entries (if any) have the
    /// same padded key.
    fn push_entry(&mut self, cur: usize, key: Vec<u8>, value: V, m: Ghost<nat>)
        requires
            old(self).shape_ok(),
            old(self).depth_ok(m@),
            m@ == max_len(old(self).key_seq().push(key@)),
            m@ <= usize::MAX,
            cur < old(self).nodes@.len(),
            old(self).nodes@[cur as int].children is None,
            padded_prefix(key@, old(self).paths@[cur as int].len()) == old(self).paths@[cur as int],
            old(self).ids(cur as int).len() > 0 ==> key_eq(
                key@,
                old(self).key_seq()[old(self).ids(cur as int)[0] as int],
            ),
        ensures
            final(self).wf(),
            final(self).key_seq() == old(self).key_seq().push(key@),
            final(self).value_seq() == old(self).value_seq().push(value),
    {
        let ghost prev = *self;
        let x = self.keys.len();
        self.nodes[cur].ids.push(x);
        self.keys.push(key);
        self.values.push(value);
        proof {
            self.homes@ = self.homes@.push(cur as int);
            assert(self.key_seq() =~= prev.key_seq().push(key@));
            assert(self.ids(cur as int) == prev.ids(cur as int).push(x));
            assert forall|i: int| 0 <= i < self.nodes@.len() implies #[trigger] self.node_ok(i) by {
                assert(prev.node_ok(i));
                if i == cur {
                    assert forall|k: int| 0 <= k < self.ids(i).len() implies {
                        let y = (#[trigger] self.ids(i)[k]) as int;
                        &&& y < self.keys@.len()
                        &&& self.homes@[y] == i
                        &&& key_eq(self.key_seq()[y], self.key_seq()[self.ids(i)[0] as int])
                    } by {
                        if k < prev.ids(i).len() {
                            assert(self.ids(i)[k] == prev.ids(i)[k]);
                        }
                    }
                } else {
                    assert(self.ids(i) == prev.ids(i));
                }
            }
            assert forall|i: int| 0 < i < self.nodes@.len() implies #[trigger] self.linked(i) by {
                assert(prev.linked(i));
            }
            assert forall|y: int| 0 <= y < self.keys@.len() implies #[trigger] self.entry_ok(y) by {
                if y < x {
                    assert(prev.entry_ok(y));
                    let h = self.homes@[y];
                    if h == cur {
                        let k = choose|k: int| 0 <= k < prev.ids(h).len() && prev.ids(h)[k] as int == y;
                        assert(self.ids(h)[k] as int == y);
                    } else {
                        assert(self.ids(h) == prev.ids(h));
                    }
                } else {
                    assert(self.ids(cur as int)[prev.ids(cur as int).len() as int] == x);
                }
            }
            assert(self.shape_ok());
            assert forall|i: int| 0 <= i < self.nodes@.len() implies {
                &&& (#[trigger] self.paths@[i]).len() <= max_len(self.key_seq())
                &&& (self.nodes@[i].children is Some ==> self.paths@[i].len() < max_len(self.key_seq()))
            } by {
                assert(prev.depth_ok(m@));
            }
        }
    }

    /// Hangs a new leaf holding a new entry at the empty slot `b` of the
    /// internal node `cur`.
    fn attach_leaf(&mut self, cur: usize, b: u8, key: Vec<u8>, value: V, m: Ghost<nat>)
        requires
            old(self).shape_ok(),
            old(self).depth_ok(m@),
            m@ == max_len(old(self).key_seq().push(key@)),
            m@ <= usize::MAX,
            cur < old(self).nodes@.len(),
            old(self).nodes@[cur as int].children is Some,
            old(self).table(cur as int)[b as int] is None,
            b == byte_at(key@, old(self).paths@[cur as int].len() as int),
            padded_prefix(key@, old(self).paths@[cur as int].len()) == old(self).paths@[cur as int],
        ensures
            final(self).wf(),
            final(self).key_seq() == old(self).key_seq().push(key@),
            final(self).value_seq() == old(self).value_seq().push(value),
    {
        let ghost prev = *self;
        proof {
            assert(self.node_ok(cur as int));
        }
        let x = self.keys.len();
        let nn = self.nodes.len();
        let mut ids: Vec<usize> = Vec::new();
        ids.push(x);
        self.nodes.push(Node { children: None, ids });
        match &mut self.nodes[cur].children {
            Some(ch) => {
                ch[b as usize] = Some(nn);
            },
            None => {},
        }
        self.keys.push(key);
        self.values.push(value);
        proof {
            let d = prev.paths@[cur as int].len();
            let path = prev.paths@[cur as int].push(b);
            self.homes@ = self.homes@.push(nn as int);
            self.paths@ = self.paths@.push(path);
            self.parents@ = self.parents@.push(cur as int);
            assert(self.key_seq() =~= prev.key_seq().push(key@));
            assert(prev.node_ok(cur as int));
            assert(self.table(cur as int) == prev.table(cur as int).update(b as int, Some(nn)));
            assert forall|i: int| 0 <= i < self.nodes@.len() implies #[trigger] self.node_ok(i) by {
                if i < nn {
                    assert(prev.node_ok(i));
                    assert(self.paths@[i] == prev.paths@[i]);
                    if i != cur {
                        assert(self.nodes@[i] == prev.nodes@[i]);
                        if self.nodes@[i].children is Some {
                            assert(self.table(i) == prev.table(i));
                        } else {
                            assert(self.ids(i) == prev.ids(i));
                        }
                    }
                } else {
                    assert(self.ids(i) == seq![x]);
                }
            }
            assert forall|i: int| 0 < i < self.nodes@.len() implies #[trigger] self.linked(i) by {
                if i < nn {
                    assert(prev.linked(i));
                    let p = prev.parents@[i];
                    if p == cur {
                        assert(prev.table(p)[prev.paths@[i].last() as int] == Some(i as usize));
                    } else {
                        assert(self.nodes@[p] == prev.nodes@[p]);
                    }
                } else {
                    assert(path.drop_last() =~= prev.paths@[cur as int]);
                }
            }
            assert forall|i: int, j: int|
                #![trigger self.paths@[i], self.paths@[j]]
                0 <= i < self.nodes@.len() && 0 <= j < self.nodes@.len() && i != j
                    implies self.paths@[i] != self.paths@[j] by {
                if i == nn || j == nn {
                    let o = if i == nn { j } else { i };
                    if self.paths@[o] == path {
                        assert(o != 0);
                        assert(prev.linked(o));
                        let p = prev.parents@[o];
                        assert(path.drop_last() =~= prev.paths@[cur as int]);
                        assert(p == cur);
                        assert(prev.table(p)[b as int] == Some(o as usize));
                    }
                }
            }
            assert forall|y: int| 0 <= y < self.keys@.len() implies #[trigger] self.entry_ok(y) by {
                if y < x {
                    assert(prev.entry_ok(y));
                    let h = self.homes@[y];
                    assert(prev.ids(h).len() > 0);
                    assert(h != cur);
                    assert(self.ids(h) == prev.ids(h));
                } else {
                    assert(self.ids(nn as int)[0] == x);
                    assert(padded_prefix(key@, d + 1) =~= path);
                }
            }
            assert(self.shape_ok());
            assert forall|i: int| 0 <= i < self.nodes@.len() implies {
                &&& (#[trigger] self.paths@[i]).len() <= max_len(self.key_seq())
                &&& (self.nodes@[i].children is Some ==> self.paths@[i].len() < max_len(self.key_seq()))
            } by {
                assert(prev.depth_ok(m@));
                assert(prev.paths@[cur as int].len() < m@);
                if i < nn {
                    assert(self.paths@[i] == prev.paths@[i]);
                }
            }
        }
    }

    /// Turns leaf `cur` into an internal node: its entries move into a new
    /// leaf at the slot of their next byte.
    fn split(&mut self, cur: usize, d: usize, m: Ghost<nat>)
        requires
            old(self).shape_ok(),
            old(self).depth_ok(m@),
            forall|i: int| 0 <= i < old(self).keys@.len() ==> (#[trigger] old(self).key_seq()[i]).len() <= m@,
            cur < old(self).nodes@.len(),
            old(self).nodes@[cur as int].children is None,
            old(self).ids(cur as int).len() > 0,
            old(self).paths@[cur as int].len() == d,
            d < m@,
        ensures
            final(self).shape_ok(),
            final(self).depth_ok(m@),
            final(self).keys@ == old(self).keys@,
            final(self).values@ == old(self).values@,
            final(self).nodes@.len() == old(self).nodes@.len() + 1,
            final(self).paths@[cur as int] == old(self).paths@[cur as int],
            final(self).nodes@[cur as int].children is Some,
    {
        let ghost prev = *self;
        proof {
            assert(self.node_ok(cur as int));
        }
        let nn = self.nodes.len();
        let o = self.nodes[cur].ids[0];
        let ob = byte_at_exec(&self.keys[o], d);
        let mut table = Self::empty_table();
        table.set(ob as usize, Some(nn));
        let mut moved = Node { children: Some(table), ids: Vec::new() };
        std::mem::swap(&mut self.nodes[cur], &mut moved);
        self.nodes.push(moved);
        proof {
            let path = prev.paths@[cur as int].push(ob);
            let c = cur as int;
            self.paths@ = self.paths@.push(path);
            self.parents@ = self.parents@.push(c);
            self.homes@ = self.homes@.map_values(|h: int| if h == c { nn as int } else { h });
            assert(prev.node_ok(c));
            assert(self.ids(nn as int) == prev.ids(c));
            assert(self.table(c)[ob as int] == Some(nn));
            assert forall|i: int| 0 <= i < self.nodes@.len() implies #[trigger] self.node_ok(i) by {
                if i < nn && i != c {
                    assert(prev.node_ok(i));
                    assert(self.nodes@[i] == prev.nodes@[i]);
                    assert(self.paths@[i] == prev.paths@[i]);
                    if self.nodes@[i].children is Some {
                        assert(self.table(i) == prev.table(i));
                    } else {
                        assert(self.ids(i) == prev.ids(i));
                        assert forall|k: int| 0 <= k < self.ids(i).len() implies {
                            let y = (#[trigger] self.ids(i)[k]) as int;
                            &&& y < self.keys@.len()
                            &&& self.homes@[y] == i
                            &&& key_eq(self.key_seq()[y], self.key_seq()[self.ids(i)[0] as int])
                        } by {
                            assert(prev.homes@[prev.ids(i)[k] as int] == i);
                        }
                    }
                } else if i == c {
                    assert forall|b: int| 0 <= b < ARITY && (#[trigger] self.table(i)[b]) is Some implies {
                        let ch = self.table(i)[b]->Some_0 as int;
                        &&& i < ch < self.nodes@.len()
                        &&& self.parents@[ch] == i
                        &&& self.paths@[ch] == self.paths@[i].push(b as u8)
                    } by {
                        if b != ob as int {
                            assert(self.table(i)[b] == table@[b]);
                        }
                    }
                } else {
                    assert forall|k: int| 0 <= k < self.ids(i).len() implies {
                        let y = (#[trigger] self.ids(i)[k]) as int;
                        &&& y < self.keys@.len()
                        &&& self.homes@[y] == i
                        &&& key_eq(self.key_seq()[y], self.key_seq()[self.ids(i)[0] as int])
                    } by {
                        assert(prev.homes@[prev.ids(c)[k] as int] == c);
                    }
                }
            }
            assert forall|i: int| 0 < i < self.nodes@.len() implies #[trigger] self.linked(i) by {
                if i < nn {
                    assert(prev.linked(i));
                    let p = prev.parents@[i];
                    assert(p != c);
                    assert(self.nodes@[p] == prev.nodes@[p]);
                } else {
                    assert(path.drop_last() =~= prev.paths@[c]);
                }
            }
            assert forall|i: int, j: int|
                #![trigger self.paths@[i], self.paths@[j]]
                0 <= i < self.nodes@.len() && 0 <= j < self.nodes@.len() && i != j
                    implies self.paths@[i] != self.paths@[j] by {
                if i == nn || j == nn {
                    let q = if i == nn { j } else { i };
                    if self.paths@[q] == path {
                        assert(q != 0);
                        assert(prev.linked(q));
                        let p = prev.parents@[q];
                        assert(path.drop_last() =~= prev.paths@[c]);
                        assert(p == c);
                    }
                }
            }
            assert forall|y: int| 0 <= y < self.keys@.len() implies #[trigger] self.entry_ok(y) by {
                assert(prev.entry_ok(y));
                let h = prev.homes@[y];
                if h == c {
                    let k = choose|k: int| 0 <= k < prev.ids(h).len() && prev.ids(h)[k] as int == y;
                    assert(self.ids(nn as int)[k] as int == y);
                    assert(self.key_seq() == prev.key_seq());
                    assert(key_eq(self.key_seq()[y], self.key_seq()[o as int]));
                    assert(byte_at(self.key_seq()[y], d as int) == byte_at(self.key_seq()[o as int], d as int));
                    assert(padded_prefix(self.key_seq()[y], (d + 1) as nat) =~= path);
                    assert(self.homes@[y] == nn as int);
                    assert(self.paths@[nn as int] == path);
                } else {
                    assert(self.homes@[y] == h);
                    assert(self.nodes@[h] == prev.nodes@[h]);
                    assert(self.paths@[h] == prev.paths@[h]);
                    let k = choose|k: int| 0 <= k < prev.ids(h).len() && prev.ids(h)[k] as int == y;
                    assert(self.ids(h)[k] as int == y);
                }
            }
            assert forall|i: int| 0 <= i < self.nodes@.len() implies {
                &&& (#[trigger] self.paths@[i]).len() <= m@
                &&& (self.nodes@[i].children is Some ==> self.paths@[i].len() < m@)
            } by {
                assert(prev.depth_ok(m@));
                if i < nn {
                    assert(self.paths@[i] == prev.paths@[i]);
                }
            }
        }
    }

    /// Entry `x` is stored at node `i` or below it.
    spec fn below(&self, i: int, x: int) -> bool {
        self.paths@[i].is_prefix_of(self.paths@[self.homes@[x]])
    }

    /// A node whose path is a strict prefix of the path of node `l` is
    /// internal, and its child towards `l` exists.
    proof fn lemma_descend(&self, i: int, l: int)
        requires
            self.shape_ok(),
            0 <= i < self.nodes@.len(),
            0 <= l < self.nodes@.len(),
            self.paths@[i].is_prefix_of(self.paths@[l]),
            self.paths@[i].len() < self.paths@[l].len(),
        ensures
            self.nodes@[i].children is Some,
            self.table(i)[self.paths@[l][self.paths@[i].len() as int] as int] is Some,
            self.paths@[self.table(i)[self.paths@[l][self.paths@[i].len() as int] as int]->Some_0 as int].is_prefix_of(
                self.paths@[l],
            ),
        decreases l,
    {
        assert(l != 0);
        assert(self.linked(l));
        assert(self.node_ok(i));
        let p = self.parents@[l];
        let d = self.paths@[i].len() as int;
        if self.paths@[p].len() == d {
            assert(self.paths@[p] =~= self.paths@[i]);
            assert(p == i);
            assert(self.paths@[l].last() == self.paths@[l][d]);
            assert(self.paths@[l].subrange(0, self.paths@[l].len() as int) =~= self.paths@[l]);
        } else {
            assert(self.paths@[i].is_prefix_of(self.paths@[p]));
            self.lemma_descend(i, p);
            assert(self.paths@[p][d] == self.paths@[l][d]);
            let c = self.table(i)[self.paths@[l][d] as int]->Some_0 as int;
            let pc = self.paths@[c];
            assert forall|j: int| 0 <= j < pc.len() implies pc[j] == self.paths@[l][j] by {
                assert(pc[j] == self.paths@[p].subrange(0, pc.len() as int)[j]);
                assert(self.paths@[p][j] == self.paths@[l].drop_last()[j]);
            }
            assert(pc =~= self.paths@[l].subrange(0, pc.len() as int));
        }
    }

    /// The padded key of an entry below node `i` starts with the path of `i`.
    proof fn lemma_below_bytes(&self, i: int, x: int)
        requires
            self.shape_ok(),
            0 <= i < self.nodes@.len(),
            0 <= x < self.keys@.len(),
            self.below(i, x),
        ensures
            forall|j: int| 0 <= j < self.paths@[i].len() ==> byte_at(self.key_seq()[x], j) == #[trigger] self.paths@[i][j],
    {
        assert(self.entry_ok(x));
        let h = self.homes@[x];
        assert forall|j: int| 0 <= j < self.paths@[i].len() implies byte_at(self.key_seq()[x], j) == #[trigger] self.paths@[i][j] by {
            assert(self.paths@[h][j] == self.paths@[i][j]);
            assert(padded_prefix(self.key_seq()[x], self.paths@[h].len())[j] == byte_at(self.key_seq()[x], j));
        }
    }

    /// An entry below the internal node `i` lies below the child of `i` at
    /// its next byte.
    proof fn lemma_child_of_entry(&self, i: int, x: int)
        requires
            self.shape_ok(),
            0 <= i < self.nodes@.len(),
            self.nodes@[i].children is Some,
            0 <= x < self.keys@.len(),
            self.below(i, x),
        ensures
            self.table(i)[byte_at(self.key_seq()[x], self.paths@[i].len() as int) as int] is Some,
            self.below(
                self.table(i)[byte_at(self.key_seq()[x], self.paths@[i].len() as int) as int]->Some_0 as int,
                x,
            ),
    {
        assert(self.entry_ok(x));
        assert(self.node_ok(i));
        let h = self.homes@[x];
        let d = self.paths@[i].len() as int;
        assert(h != i);
        if self.paths@[h].len() == d {
            assert(self.paths@[h] =~= self.paths@[i]);
        }
        self.lemma_descend(i, h);
        assert(padded_prefix(self.key_seq()[x], self.paths@[h].len())[d] == byte_at(self.key_seq()[x], d));
    }

    /// Appends to `out` the entries stored at node `i` or below it, in
    /// ascending order.
    fn collect(&self, i: usize, out: &mut Vec<usize>)
        requires
            self.shape_ok(),
            i < self.nodes@.len(),
        ensures
            final(out)@.len() >= old(out)@.len(),
            final(out)@.subrange(0, old(out)@.len() as int) == old(out)@,
            forall|k: int|
                old(out)@.len() <= k < final(out)@.len() ==> {
                    &&& (#[trigger] final(out)@[k]) < self.keys@.len()
                    &&& self.below(i as int, final(out)@[k] as int)
                },
            forall|x: int|
                0 <= x < self.keys@.len() && #[trigger] self.below(i as int, x) ==> exists|k: int|
                    old(out)@.len() <= k < final(out)@.len() && final(out)@[k] as int == x,
            forall|k: int, l: int|
                #![trigger final(out)@[k], final(out)@[l]]
                old(out)@.len() <= k < l < final(out)@.len() ==> precedes(
                    self.key_seq(),
                    final(out)@[k] as int,
                    final(out)@[l] as int,
                ),
        decreases self.nodes@.len() - i,
    {
        proof {
            assert(self.node_ok(i as int));
        }
        let ghost start = out@.len() as int;
        if self.nodes[i].children.is_none() {
            let n_ids = self.nodes[i].ids.len();
            let mut k: usize = 0;
            while k < n_ids
                invariant
                    self.shape_ok(),
                    i < self.nodes@.len(),
                    self.node_ok(i as int),
                    self.nodes@[i as int].children is None,
                    n_ids == self.ids(i as int).len(),
                    k <= n_ids,
                    start == old(out)@.len(),
                    out@.len() == start + k,
                    out@.subrange(0, start) == old(out)@,
                    forall|l: int| 0 <= l < k ==> #[trigger] out@[start + l] == self.ids(i as int)[l],
                decreases n_ids - k,
            {
                let ghost prev_out = out@;
                out.push(self.nodes[i].ids[k]);
                proof {
                    assert(out@.subrange(0, start) =~= prev_out.subrange(0, start));
                    assert forall|l: int| 0 <= l < k + 1 implies #[trigger] out@[start + l] == self.ids(i as int)[l] by {
                        if l < k {
                            assert(out@[start + l] == prev_out[start + l]);
                        }
                    }
                }
                k = k + 1;
            }
            proof {
                let ids = self.ids(i as int);
                assert forall|k: int| start <= k < out@.len() implies {
                    &&& (#[trigger] out@[k]) < self.keys@.len()
                    &&& self.below(i as int, out@[k] as int)
                } by {
                    assert(out@[start + (k - start)] == ids[k - start]);
                    assert(self.homes@[ids[k - start] as int] == i);
                }
                assert forall|x: int|
                    0 <= x < self.keys@.len() && #[trigger] self.below(i as int, x) implies exists|k: int|
                        start <= k < out@.len() && out@[k] as int == x by {
                    assert(self.entry_ok(x));
                    let h = self.homes@[x];
                    if h != i {
                        if self.paths@[h].len() == self.paths@[i as int].len() {
                            assert(self.paths@[h] =~= self.paths@[i as int]);
                        } else {
                            self.lemma_descend(i as int, h);
                        }
                    }
                    let k = choose|k: int| 0 <= k < ids.len() && ids[k] as int == x;
                    assert(out@[start + k] == ids[k]);
                }
                assert forall|k: int, l: int|
                    #![trigger out@[k], out@[l]]
                    start <= k < l < out@.len() implies precedes(self.key_seq(), out@[k] as int, out@[l] as int) by {
                    assert(out@[start + (k - start)] == ids[k - start]);
                    assert(out@[start + (l - start)] == ids[l - start]);
                    let a = self.key_seq()[ids[k - start] as int];
                    let b = self.key_seq()[ids[l - start] as int];
                    let z = self.key_seq()[ids[0] as int];
                    assert(key_eq(a, z));
                    assert(key_eq(b, z));
                    assert forall|j: int| 0 <= j implies #[trigger] byte_at(a, j) == byte_at(b, j) by {
                        assert(byte_at(a, j) == byte_at(z, j));
                        assert(byte_at(b, j) == byte_at(z, j));
                    }
                }
            }
        } else {
            let ghost d = self.paths@[i as int].len() as int;
            let mut b: usize = 0;
            while b < ARITY
                invariant
                    self.shape_ok(),
                    i < self.nodes@.len(),
                    self.node_ok(i as int),
                    self.nodes@[i as int].children is Some,
                    d == self.paths@[i as int].len(),
                    b <= ARITY,
                    start == old(out)@.len(),
                    out@.len() >= start,
                    out@.subrange(0, start) == old(out)@,
                    forall|k: int|
                        start <= k < out@.len() ==> {
                            &&& (#[trigger] out@[k]) < self.keys@.len()
                            &&& self.below(i as int, out@[k] as int)
                            &&& byte_at(self.key_seq()[out@[k] as int], d) < b
                        },
                    forall|x: int|
                        0 <= x < self.keys@.len() && #[trigger] self.below(i as int, x) && byte_at(self.key_seq()[x], d) < b
                            ==> exists|k: int| start <= k < out@.len() && out@[k] as int == x,
                    forall|k: int, l: int|
                        #![trigger out@[k], out@[l]]
                        start <= k < l < out@.len() ==> precedes(self.key_seq(), out@[k] as int, out@[l] as int),
                decreases ARITY - b,
            {
                let ghost mid = out@.len() as int;
                let ghost before = out@;
                match self.slot(i, b) {
                    Some(c) => {
                        self.collect(c, out);
                        proof {
                            let ci = c as int;
                            assert(self.paths@[ci] == self.paths@[i as int].push(b as u8));
                            assert(out@.subrange(0, mid) == before);
                            assert(out@.subrange(0, start) =~= before.subrange(0, start));
                            assert forall|k: int| start <= k < mid implies out@[k] == before[k] by {
                                assert(out@.subrange(0, mid)[k] == out@[k]);
                            }
                            assert forall|k: int| mid <= k < out@.len() implies {
                                &&& self.below(i as int, out@[k] as int)
                                &&& byte_at(self.key_seq()[out@[k] as int], d) == b
                            } by {
                                let y = out@[k] as int;
                                assert(self.below(ci, y));
                                self.lemma_below_bytes(ci, y);
                                assert(self.paths@[ci][d] == b as u8);
                                let h = self.homes@[y];
                                assert forall|j: int| 0 <= j < d implies self.paths@[i as int][j] == self.paths@[h][j] by {
                                    assert(self.paths@[ci][j] == self.paths@[i as int][j]);
                                }
                                assert(self.paths@[i as int] =~= self.paths@[h].subrange(0, d));
                            }
                            assert forall|k: int| start <= k < out@.len() implies {
                                &&& (#[trigger] out@[k]) < self.keys@.len()
                                &&& self.below(i as int, out@[k] as int)
                                &&& byte_at(self.key_seq()[out@[k] as int], d) < b + 1
                            } by {
                                if k < mid {
                                    assert(out@[k] == before[k]);
                                }
                            }
                            assert forall|x: int|
                                0 <= x < self.keys@.len() && #[trigger] self.below(i as int, x) && byte_at(self.key_seq()[x], d) < b + 1
                                    implies exists|k: int| start <= k < out@.len() && out@[k] as int == x by {
                                if byte_at(self.key_seq()[x], d) < b {
                                    let k = choose|k: int| start <= k < before.len() && before[k] as int == x;
                                    assert(out@[k] == before[k]);
                                } else {
                                    self.lemma_child_of_entry(i as int, x);
                                    assert(self.below(ci, x));
                                }
                            }
                            assert forall|k: int, l: int|
                                #![trigger out@[k], out@[l]]
                                start <= k < l < out@.len() implies precedes(self.key_seq(), out@[k] as int, out@[l] as int) by {
                                if l < mid {
                                    assert(out@[k] == before[k]);
                                    assert(out@[l] == before[l]);
                                } else if k < mid {
                                    assert(out@[k] == before[k]);
                                    let ka = self.key_seq()[out@[k] as int];
                                    let kb = self.key_seq()[out@[l] as int];
                                    self.lemma_below_bytes(i as int, out@[k] as int);
                                    self.lemma_below_bytes(i as int, out@[l] as int);
                                    assert forall|j: int| 0 <= j < d implies #[trigger] byte_at(ka, j) == byte_at(kb, j) by {
                                        assert(byte_at(ka, j) == self.paths@[i as int][j]);
                                        assert(byte_at(kb, j) == self.paths@[i as int][j]);
                                    }
                                    assert(crate::key::differs_below_at(ka, kb, d));
                                }
                            }
                        }
                    },
                    None => {
                        proof {
                            assert forall|x: int|
                                0 <= x < self.keys@.len() && #[trigger] self.below(i as int, x) && byte_at(self.key_seq()[x], d) < b + 1
                                    implies exists|k: int| start <= k < out@.len() && out@[k] as int == x by {
                                if byte_at(self.key_seq()[x], d) == b {
                                    self.lemma_child_of_entry(i as int, x);
                                }
                            }
                        }
                    },
                }
                b = b + 1;
            }
            proof {
                assert forall|x: int|
                    0 <= x < self.keys@.len() && #[trigger] self.below(i as int, x) implies exists|k: int|
                        start <= k < out@.len() && out@[k] as int == x by {
                    assert(byte_at(self.key_seq()[x], d) < 256);
                }
            }
        }
    }
}

impl<V: Copy> Tree<V> {
    /// The handles of the entries, in ascending key order.
    fn order(&self) -> (r: Vec<usize>)
        requires
            self.wf(),
        ensures
            is_sorted_order(self.key_seq(), r@.map_values(|i: usize| i as int)),
    {
        let mut out: Vec<usize> = Vec::new();
        self.collect(0, &mut out);
        proof {
            let n = self.keys@.len() as int;
            let ord = out@.map_values(|i: usize| i as int);
            assert forall|x: int| 0 <= x < n implies #[trigger] ord.contains(x) by {
                assert(self.below(0, x)) by {
                    assert(self.entry_ok(x));
                    assert(self.paths@[self.homes@[x]].subrange(0, 0) =~= self.paths@[0]);
                }
                let k = choose|k: int| 0 <= k < out@.len() && out@[k] as int == x;
                assert(ord[k] == x);
            }
            assert(ord.no_duplicates()) by {
                assert forall|p: int, q: int| 0 <= p < ord.len() && 0 <= q < ord.len() && p != q implies ord[p] != ord[q] by {
                    if p < q {
                        assert(precedes(self.key_seq(), out@[p] as int, out@[q] as int));
                    } else {
                        assert(precedes(self.key_seq(), out@[q] as int, out@[p] as int));
                    }
                }
            }
            assert(ord.to_set() =~= set_int_range(0, n));
            ord.unique_seq_to_set();
            lemma_int_range(0, n);
            assert forall|p: int, q: int|
                #![trigger ord[p], ord[q]]
                0 <= p < q < ord.len() implies precedes(self.key_seq(), ord[p], ord[q]) by {
                assert(precedes(self.key_seq(), out@[p] as int, out@[q] as int));
            }
        }
        out
    }

    /// The values of all entries: in ascending key order, entries with
    /// equal keys in the order they were added.
    pub fn traverse(&self) -> (r: Vec<V>)
        requires
            self.wf(),
        ensures
            sorted_by_key(self.key_seq(), self.value_seq(), r@),
    {
        let ids = self.order();
        let ghost ord = ids@.map_values(|i: usize| i as int);
        let mut r: Vec<V> = Vec::new();
        let mut k: usize = 0;
        while k < ids.len()
            invariant
                self.wf(),
                is_sorted_order(self.key_seq(), ord),
                ord == ids@.map_values(|i: usize| i as int),
                k <= ids@.len(),
                r@ == ord.subrange(0, k as int).map_values(|i: int| self.value_seq()[i]),
            decreases ids@.len() - k,
        {
            proof {
                assert(0 <= ord[k as int] < self.keys@.len());
            }
            r.push(self.values[ids[k]]);
            k = k + 1;
            proof {
                assert(r@ =~= ord.subrange(0, k as int).map_values(|i: int| self.value_seq()[i]));
            }
        }
        proof {
            assert(ord.subrange(0, k as int) =~= ord);
        }
        r
    }

    /// A cursor over the values of all entries, in the order of `traverse`.
    pub fn into_iter(self) -> (it: TreeIter<V>)
        requires
            self.wf(),
        ensures
            sorted_by_key(self.key_seq(), self.value_seq(), it.rest()),
    {
        let items = self.traverse();
        proof {
            assert(items@.skip(0) =~= items@);
        }
        TreeIter { items, pos: 0 }
    }
}

/// A cursor over a sequence of values that hands them out one at a time.
pub struct TreeIter<V> {
    items: Vec<V>,
    pos: usize,
}

impl<V: Copy> TreeIter<V> {
    /// The values not handed out yet.
    pub closed spec fn rest(&self) -> Seq<V> {
        if self.pos <= self.items@.len() {
            self.items@.skip(self.pos as int)
        } else {
            Seq::empty()
        }
    }

    /// Hands out the next value, or `None` once all have been handed out.
    pub fn next(&mut self) -> (r: Option<V>)
        ensures
            old(self).rest().len() == 0 ==> r is None && final(self).rest() == old(self).rest(),
            old(self).rest().len() > 0 ==> r == Some(old(self).rest()[0]) && final(self).rest()
                == old(self).rest().drop_first(),
    {
        if self.pos < self.items.len() {
            let v = self.items[self.pos];
            proof {
                assert(old(self).rest()[0] == v);
            }
            self.pos = self.pos + 1;
            proof {
                assert(self.items@.skip(self.pos as int) =~= old(self).rest().drop_first());
            }
            Some(v)
        } else {
            None
        }
    }
}

} // verus!
