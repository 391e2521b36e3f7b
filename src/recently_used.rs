use std::collections::hash_map::RandomState;
use std::collections::HashMap;
use std::hash::Hash;
use vstd::prelude::*;
use vstd::std_specs::hash::{builds_valid_hashers, obeys_key_model};

verus! {

broadcast use vstd::std_specs::hash::group_hash_axioms;

struct RecentlyUsedItem<V> {
    node_idx: usize,
    value: V,
}

#[derive(Clone, Copy)]
enum Node<K> {
    Value { value: K, prev_idx: Option<usize>, next_idx: Option<usize> },
    Free { next_idx: Option<usize> },
}

/// The neighbour of position `i` in a sequence of node indices, if there is one.
spec fn opt_at(s: Seq<usize>, i: int) -> Option<usize> {
    if 0 <= i < s.len() {
        Some(s[i])
    } else {
        None
    }
}

spec fn node_key<K>(n: Node<K>) -> K {
    match n {
        Node::Value { value, .. } => value,
        Node::Free { .. } => arbitrary(),
    }
}

/// A map that remembers the order in which its keys were last inserted.
///
/// Entries live in a doubly linked list threaded through `nodes`, from the least
/// recently inserted to the most recently inserted; freed nodes are kept on a free
/// list and reused.
pub struct RecentlyUsedMap<K: Clone + Copy + Eq + Hash, V> {
    nodes: Vec<Node<K>>,
    least_recent_idx: Option<usize>,
    most_recent_idx: Option<usize>,
    map: HashMap<K, RecentlyUsedItem<V>>,
    free: Option<usize>,
    /// Indices of the linked nodes, least recent first.
    order: Ghost<Seq<usize>>,
    /// Indices of the free nodes, in free-list order.
    free_list: Ghost<Seq<usize>>,
}

impl<K: Clone + Copy + Eq + Hash, V> RecentlyUsedMap<K, V> {
    /// The keys, from the least recently inserted to the most recently inserted.
    pub closed spec fn order(&self) -> Seq<K> {
        self.order@.map_values(|idx: usize| node_key(self.nodes@[idx as int]))
    }

    /// The value stored under each key.
    pub closed spec fn contents(&self) -> Map<K, V> {
        self.map@.map_values(|item: RecentlyUsedItem<V>| item.value)
    }

    /// The number of storage nodes, linked or free.
    pub closed spec fn storage_len(&self) -> nat {
        self.nodes@.len()
    }

    closed spec fn key_at(&self, idx: usize) -> K {
        node_key(self.nodes@[idx as int])
    }

    closed spec fn linked_at(&self, i: int) -> bool {
        let idx = self.order@[i];
        &&& idx < self.nodes@.len()
        &&& self.nodes@[idx as int] == Node::Value {
            value: self.key_at(idx),
            prev_idx: opt_at(self.order@, i - 1),
            next_idx: opt_at(self.order@, i + 1),
        }
    }

    closed spec fn free_at(&self, j: int) -> bool {
        let idx = self.free_list@[j];
        &&& idx < self.nodes@.len()
        &&& self.nodes@[idx as int] == Node::<K>::Free { next_idx: opt_at(self.free_list@, j + 1) }
    }

    closed spec fn list_wf(&self) -> bool {
        &&& self.nodes@.len() < usize::MAX
        &&& self.nodes@.len() == self.order@.len() + self.free_list@.len()
        &&& self.order@.no_duplicates()
        &&& self.free_list@.no_duplicates()
        &&& forall|i: int| 0 <= i < self.order@.len() ==> #[trigger] self.linked_at(i)
        &&& forall|j: int| 0 <= j < self.free_list@.len() ==> #[trigger] self.free_at(j)
        &&& self.least_recent_idx == opt_at(self.order@, 0)
        &&& self.most_recent_idx == opt_at(self.order@, self.order@.len() - 1)
        &&& self.free == opt_at(self.free_list@, 0)
    }

    closed spec fn map_wf(&self) -> bool {
        &&& obeys_key_model::<K>()
        &&& builds_valid_hashers::<RandomState>()
        &&& forall|k: K| #[trigger]
            self.map@.contains_key(k) ==> {
                &&& self.order@.contains(self.map@[k].node_idx)
                &&& self.key_at(self.map@[k].node_idx) == k
            }
        &&& forall|i: int|
            0 <= i < self.order@.len() ==> {
                &&& self.map@.contains_key(#[trigger] self.key_at(self.order@[i]))
                &&& self.map@[self.key_at(self.order@[i])].node_idx == self.order@[i]
            }
    }

    proof fn lemma_list_wf_frame(&self, other: &Self)
        requires
            self.list_wf(),
            other.nodes@ == self.nodes@,
            other.order@ == self.order@,
            other.free_list@ == self.free_list@,
            other.least_recent_idx == self.least_recent_idx,
            other.most_recent_idx == self.most_recent_idx,
            other.free == self.free,
        ensures
            other.list_wf(),
    {
        assert forall|i: int| 0 <= i < other.order@.len() implies #[trigger] other.linked_at(i) by {
            assert(self.linked_at(i));
        }
        assert forall|j: int| 0 <= j < other.free_list@.len() implies #[trigger] other.free_at(j) by {
            assert(self.free_at(j));
        }
    }

    /// Well-formedness: the linked list, the free list and the key index agree.
    pub closed spec fn wf(&self) -> bool {
        self.list_wf() && self.map_wf()
    }

    /// Every key occurs once in the order, and the order holds exactly the stored keys.
    pub proof fn lemma_order_matches_contents(&self)
        requires
            self.wf(),
        ensures
            self.order().no_duplicates(),
            self.order().to_set() == self.contents().dom(),
    {
        assert forall|i: int, j: int|
            0 <= i < self.order().len() && 0 <= j < self.order().len() && i != j implies
            self.order()[i] != self.order()[j] by {
            assert(self.order()[i] == self.key_at(self.order@[i]));
            assert(self.order()[j] == self.key_at(self.order@[j]));
        }
        assert forall|k: K| self.order().to_set().contains(k) <==> self.contents().dom().contains(k) by {
            if self.contents().dom().contains(k) {
                assert(self.map@.contains_key(k));
                let p = self.order@.index_of(self.map@[k].node_idx);
                assert(self.order()[p] == k);
            }
            if self.order().to_set().contains(k) {
                let p = choose|p: int| 0 <= p < self.order().len() && self.order()[p] == k;
                assert(self.key_at(self.order@[p]) == k);
            }
        }
        assert(self.order().to_set() =~= self.contents().dom());
    }

    /// Creates an empty map.
    pub fn new() -> (r: Self)
        requires
            obeys_key_model::<K>(),
        ensures
            r.wf(),
            r.order() == Seq::<K>::empty(),
            r.contents() == Map::<K, V>::empty(),
            r.storage_len() == 0,
    {
        Self::with_capacity(0)
    }

    /// Creates an empty map with room for `capacity` entries.
    pub fn with_capacity(capacity: usize) -> (r: Self)
        requires
            obeys_key_model::<K>(),
            capacity < usize::MAX - 1,
        ensures
            r.wf(),
            r.order() == Seq::<K>::empty(),
            r.contents() == Map::<K, V>::empty(),
            r.storage_len() == 0,
    {
        let r = Self {
            nodes: Vec::with_capacity(capacity),
            least_recent_idx: None,
            most_recent_idx: None,
            free: None,
            map: HashMap::with_capacity(capacity),
            order: Ghost(Seq::empty()),
            free_list: Ghost(Seq::empty()),
        };
        assert(r.order() =~= Seq::<K>::empty());
        assert(r.contents() =~= Map::<K, V>::empty());
        r
    }

    /// Stores `node` in a free slot, reusing the head of the free list when there is one.
    fn allocate_node(&mut self, node: Node<K>) -> (idx: usize)
        requires
            old(self).list_wf(),
        ensures
            idx < final(self).nodes@.len(),
            !old(self).order@.contains(idx),
            final(self).nodes@ == (if idx < old(self).nodes@.len() {
                old(self).nodes@.update(idx as int, node)
            } else {
                old(self).nodes@.push(node)
            }),
            idx < old(self).nodes@.len() ==> old(self).free_list@.len() > 0
                && old(self).free_list@[0] == idx,
            idx >= old(self).nodes@.len() ==> old(self).free_list@.len() == 0,
            final(self).free_list@ == (if idx < old(self).nodes@.len() {
                old(self).free_list@.drop_first()
            } else {
                old(self).free_list@
            }),
            final(self).free == opt_at(final(self).free_list@, 0),
            final(self).order@ == old(self).order@,
            final(self).least_recent_idx == old(self).least_recent_idx,
            final(self).most_recent_idx == old(self).most_recent_idx,
            final(self).map@ == old(self).map@,
    {
        match self.free {
            Some(idx) => {
                assert(self.free_at(0));
                let next = match self.nodes[idx] {
                    Node::Free { next_idx } => next_idx,
                    Node::Value { .. } => None,
                };
                assert forall|i: int| 0 <= i < self.order@.len() implies self.order@[i] != idx by {
                    assert(self.linked_at(i));
                }
                self.free = next;
                self.nodes[idx] = node;
                self.free_list = Ghost(self.free_list@.drop_first());
                idx
            },
            None => {
                assert forall|i: int| 0 <= i < self.order@.len() implies self.order@[i]
                    != self.nodes@.len() by {
                    assert(self.linked_at(i));
                }
                self.nodes.push(node);
                self.nodes.len() - 1
            },
        }
    }

    /// Unlinks the node at position `p` of the order and puts it on the free list.
    fn remove_node(&mut self, idx: usize, Ghost(p): Ghost<int>)
        requires
            old(self).list_wf(),
            0 <= p < old(self).order@.len(),
            old(self).order@[p] == idx,
        ensures
            final(self).list_wf(),
            final(self).order@ == old(self).order@.remove(p),
            final(self).free_list@ == seq![idx].add(old(self).free_list@),
            final(self).nodes@.len() == old(self).nodes@.len(),
            forall|n: usize|
                n != idx && n < old(self).nodes@.len() ==> #[trigger] final(self).key_at(n)
                    == old(self).key_at(n),
            final(self).map@ == old(self).map@,
    {
        let ghost old_self = *self;
        let ghost ord = self.order@;
        assert(self.linked_at(p));
        let (prev_idx, next_idx) = match self.nodes[idx] {
            Node::Value { prev_idx, next_idx, .. } => (prev_idx, next_idx),
            Node::Free { .. } => (None, None),
        };
        match prev_idx {
            Some(prev) => {
                assert(self.linked_at(p - 1));
                if let Node::Value { value, prev_idx: pp, .. } = self.nodes[prev] {
                    self.nodes[prev] = Node::Value { value, prev_idx: pp, next_idx };
                }
            },
            None => {
                self.least_recent_idx = next_idx;
            },
        }
        match next_idx {
            Some(next) => {
                assert(old_self.linked_at(p + 1));
                if let Node::Value { value, next_idx: nn, .. } = self.nodes[next] {
                    self.nodes[next] = Node::Value { value, prev_idx, next_idx: nn };
                }
            },
            None => {
                self.most_recent_idx = prev_idx;
            },
        }
        self.nodes[idx] = Node::Free { next_idx: self.free };
        self.free = Some(idx);
        self.order = Ghost(ord.remove(p));
        self.free_list = Ghost(seq![idx].add(old_self.free_list@));
        let ghost new_ord = self.order@;
        assert forall|n: usize| n != idx && n < self.nodes@.len() implies #[trigger] self.key_at(n)
            == old_self.key_at(n) by {}
        assert forall|i: int| 0 <= i < new_ord.len() implies #[trigger] self.linked_at(i) by {
            if i < p {
                assert(old_self.linked_at(i));
                assert(ord[i] != idx);
            } else {
                assert(old_self.linked_at(i + 1));
                assert(ord[i + 1] != idx);
            }
        }
        assert forall|j: int| 0 <= j < self.free_list@.len() implies #[trigger] self.free_at(j) by {
            if j > 0 {
                assert(old_self.free_at(j - 1));
                assert(old_self.free_list@[j - 1] != idx) by {
                    assert(old_self.linked_at(p));
                }
                let f = old_self.free_list@[j - 1];
                if p > 0 && f == ord[p - 1] {
                    assert(old_self.linked_at(p - 1));
                }
                if p + 1 < ord.len() && f == ord[p + 1] {
                    assert(old_self.linked_at(p + 1));
                }
            }
        }
        assert(self.free_list@.no_duplicates()) by {
            assert forall|j: int| 0 <= j < old_self.free_list@.len() implies old_self.free_list@[j]
                != idx by {
                assert(old_self.free_at(j));
            }
        }
    }

    /// Removes `key`, returning the value that was stored under it.
    pub fn remove(&mut self, key: &K) -> (r: Option<V>)
        requires
            old(self).wf(),
        ensures
            final(self).wf(),
            r == (if old(self).contents().contains_key(*key) {
                Some(old(self).contents()[*key])
            } else {
                None
            }),
            final(self).contents() == old(self).contents().remove(*key),
            final(self).order() == old(self).order().remove_value(*key),
            final(self).storage_len() == old(self).storage_len(),
    {
        let ghost old_self = *self;
        proof {
            self.lemma_order_matches_contents();
        }
        match self.map.remove(key) {
            Some(entry) => {
                let ghost k = *key;
                assert(old_self.map@.contains_key(k) && old_self.map@[k] == entry);
                assert(self.map@ == old_self.map@.remove(k));
                let ghost p = self.order@.index_of(entry.node_idx);
                assert(old_self.key_at(old_self.order@[p]) == k);
                assert(old_self.order()[p] == k);
                proof {
                    old_self.order().index_of_first_ensures(k);
                }
                proof {
                    old_self.lemma_list_wf_frame(self);
                }
                self.remove_node(entry.node_idx, Ghost(p));
                assert forall|k2: K| #[trigger] self.map@.contains_key(k2) implies {
                    &&& self.order@.contains(self.map@[k2].node_idx)
                    &&& self.key_at(self.map@[k2].node_idx) == k2
                } by {
                    let n = self.map@[k2].node_idx;
                    assert(k2 != k);
                    assert(old_self.map@.contains_key(k2));
                    assert(old_self.map@[k2] == self.map@[k2]);
                    assert(old_self.order@.contains(n));
                    let q = old_self.order@.index_of(n);
                    assert(old_self.order@[q] == n);
                    assert(old_self.linked_at(q));
                    assert(old_self.key_at(n) == k2);
                    assert(q != p);
                    assert(self.key_at(n) == old_self.key_at(n));
                    if q < p {
                        assert(self.order@[q] == n);
                    } else {
                        assert(self.order@[q - 1] == n);
                    }
                }
                assert forall|i: int| 0 <= i < self.order@.len() implies {
                    &&& self.map@.contains_key(#[trigger] self.key_at(self.order@[i]))
                    &&& self.map@[self.key_at(self.order@[i])].node_idx == self.order@[i]
                } by {
                    let j = if i < p { i } else { i + 1 };
                    let n = old_self.order@[j];
                    assert(self.order@[i] == n);
                    assert(n != entry.node_idx);
                    assert(old_self.linked_at(j));
                    assert(self.key_at(n) == old_self.key_at(n));
                    let kk = old_self.key_at(n);
                    assert(old_self.map@.contains_key(kk) && old_self.map@[kk].node_idx == n);
                    assert(kk != k);
                }
                assert forall|i: int| 0 <= i < self.order().len() implies self.order()[i]
                    == old_self.order().remove(p)[i] by {
                    let j = if i < p { i } else { i + 1 };
                    let n = old_self.order@[j];
                    assert(n != entry.node_idx);
                    assert(old_self.linked_at(j));
                    assert(self.key_at(n) == old_self.key_at(n));
                }
                assert(self.order() =~= old_self.order().remove(p));
                assert(self.contents() =~= old_self.contents().remove(k));
                assert(self.list_wf());
                assert(self.map_wf());
                assert(old_self.order().remove_value(k) == old_self.order().remove(p));
                Some(entry.value)
            },
            None => {
                assert(self.map@ =~= old_self.map@);
                proof {
                    old_self.lemma_list_wf_frame(self);
                }
                assert(self.contents() =~= old_self.contents().remove(*key));
                assert(!old_self.order().contains(*key)) by {
                    if old_self.order().contains(*key) {
                        assert(old_self.order().to_set().contains(*key));
                    }
                }
                assert(self.list_wf());
                assert forall|i: int| 0 <= i < self.order@.len() implies {
                    &&& self.map@.contains_key(#[trigger] self.key_at(self.order@[i]))
                    &&& self.map@[self.key_at(self.order@[i])].node_idx == self.order@[i]
                } by {
                    assert(old_self.key_at(old_self.order@[i]) == self.key_at(self.order@[i]));
                }
                assert forall|k2: K| #[trigger] self.map@.contains_key(k2) implies {
                    &&& self.order@.contains(self.map@[k2].node_idx)
                    &&& self.key_at(self.map@[k2].node_idx) == k2
                } by {
                    assert(old_self.map@.contains_key(k2));
                    assert(old_self.key_at(old_self.map@[k2].node_idx) == k2);
                }
                assert(self.order() =~= old_self.order());
                proof {
                    old_self.order().index_of_first_ensures(*key);
                }
                None
            },
        }
    }

    /// Returns the value stored under `k`.
    pub fn get(&self, k: &K) -> (r: Option<&V>)
        requires
            self.wf(),
        ensures
            r == (if self.contents().contains_key(*k) {
                Some(&self.contents()[*k])
            } else {
                None
            }),
    {
        match self.map.get(k) {
            Some(item) => Some(&item.value),
            None => None,
        }
    }

    /// Whether a value is stored under `k`.
    pub fn contains_key(&self, k: &K) -> (r: bool)
        requires
            self.wf(),
        ensures
            r == self.contents().contains_key(*k),
    {
        self.map.contains_key(k)
    }

    /// The number of storage nodes, linked or free.
    pub fn num_nodes(&self) -> (r: usize)
        ensures
            r == self.storage_len(),
    {
        self.nodes.len()
    }

    /// Stores `value` under `key` and makes `key` the most recently inserted key. A freed
    /// storage node is reused when there is one; storage grows only when every node holds
    /// an entry.
    pub fn insert(&mut self, key: K, value: V)
        requires
            old(self).wf(),
            old(self).storage_len() < usize::MAX - 1,
        ensures
            final(self).wf(),
            final(self).contents() == old(self).contents().insert(key, value),
            final(self).order() == old(self).order().remove_value(key).push(key),
            final(self).storage_len() == if old(self).storage_len() < final(self).order().len() {
                final(self).order().len()
            } else {
                old(self).storage_len()
            },
    {
        let ghost old_self = *self;
        let _ = self.remove(&key);
        let ghost mid = *self;
        assert(!mid.contents().contains_key(key));
        assert(!mid.map@.contains_key(key)) by {
            if mid.map@.contains_key(key) {
                assert(mid.contents().contains_key(key));
            }
        }
        let prev = self.most_recent_idx;
        let new_idx = self.allocate_node(Node::Value { value: key, prev_idx: prev, next_idx: None });
        let ghost alloc = *self;
        let ghost n = mid.order@.len();
        match prev {
            Some(p) => {
                assert(mid.linked_at(n - 1));
                if let Node::Value { value: pk, prev_idx: pp, .. } = self.nodes[p] {
                    self.nodes[p] = Node::Value { value: pk, prev_idx: pp, next_idx: Some(new_idx) };
                }
            },
            None => {
                self.least_recent_idx = Some(new_idx);
            },
        }
        self.most_recent_idx = Some(new_idx);
        self.order = Ghost(mid.order@.push(new_idx));
        self.map.insert(key, RecentlyUsedItem { node_idx: new_idx, value });
        let ghost ord = self.order@;
        assert(self.key_at(new_idx) == key);
        assert forall|m: usize| m != new_idx && m < mid.nodes@.len() implies #[trigger] self.key_at(m)
            == mid.key_at(m) by {}
        assert forall|i: int| 0 <= i < ord.len() implies #[trigger] self.linked_at(i) by {
            if i < n {
                assert(mid.linked_at(i));
                assert(ord[i] != new_idx);
            }
        }
        assert forall|j: int| 0 <= j < self.free_list@.len() implies #[trigger] self.free_at(j) by {
            if new_idx < mid.nodes@.len() {
                assert(mid.free_at(j + 1));
                assert(mid.free_list@[j + 1] != new_idx);
                if n > 0 {
                    assert(mid.linked_at(n - 1));
                }
            } else {
                assert(mid.free_at(j));
                if n > 0 {
                    assert(mid.linked_at(n - 1));
                }
            }
        }
        assert(self.list_wf());
        assert forall|k2: K| #[trigger] self.map@.contains_key(k2) implies {
            &&& self.order@.contains(self.map@[k2].node_idx)
            &&& self.key_at(self.map@[k2].node_idx) == k2
        } by {
            if k2 == key {
                assert(ord[n as int] == new_idx);
            } else {
                assert(mid.map@.contains_key(k2));
                let q = mid.order@.index_of(mid.map@[k2].node_idx);
                assert(ord[q] == mid.map@[k2].node_idx);
                assert(mid.linked_at(q));
            }
        }
        assert forall|i: int| 0 <= i < ord.len() implies {
            &&& self.map@.contains_key(#[trigger] self.key_at(self.order@[i]))
            &&& self.map@[self.key_at(self.order@[i])].node_idx == self.order@[i]
        } by {
            if i < n {
                assert(mid.linked_at(i));
                let kk = mid.key_at(mid.order@[i]);
                assert(mid.map@.contains_key(kk));
                assert(kk != key);
            }
        }
        assert(self.order() =~= mid.order().push(key)) by {
            assert forall|i: int| 0 <= i < n implies self.order()[i] == mid.order()[i] by {
                assert(mid.linked_at(i));
            }
        }
        assert forall|k2: K| #[trigger] self.contents().contains_key(k2) <==> old_self.contents().insert(
            key,
            value,
        ).contains_key(k2) by {
            if k2 != key {
                assert(self.map@.contains_key(k2) == mid.map@.contains_key(k2));
                assert(mid.contents().contains_key(k2) == mid.map@.contains_key(k2));
            }
        }
        assert forall|k2: K| #[trigger] self.contents().contains_key(k2) implies self.contents()[k2]
            == old_self.contents().insert(key, value)[k2] by {
            if k2 != key {
                assert(self.map@.contains_key(k2));
                assert(self.map@[k2] == mid.map@[k2]);
                assert(mid.contents().contains_key(k2));
                assert(mid.contents()[k2] == mid.map@[k2].value);
                assert(self.contents()[k2] == self.map@[k2].value);
            } else {
                assert(self.map@.contains_key(key));
                assert(self.map@[key].value == value);
                assert(self.contents()[key] == self.map@[key].value);
            }
        }
        assert(self.contents() =~= old_self.contents().insert(key, value));
        assert(self.order().len() == self.order@.len());
        assert(mid.nodes@.len() == mid.order@.len() + mid.free_list@.len());
        assert(self.nodes@.len() == self.order@.len() + self.free_list@.len());
    }

    /// Removes and returns the least recently inserted entry.
    pub fn pop(&mut self) -> (r: Option<(K, V)>)
        requires
            old(self).wf(),
        ensures
            final(self).wf(),
            old(self).order().len() == 0 ==> r.is_none() && final(self).order() == old(self).order()
                && final(self).contents() == old(self).contents(),
            old(self).order().len() > 0 ==> {
                let k = old(self).order()[0];
                &&& r == Some((k, old(self).contents()[k]))
                &&& final(self).order() == old(self).order().drop_first()
                &&& final(self).contents() == old(self).contents().remove(k)
            },
            final(self).storage_len() == old(self).storage_len(),
    {
        proof {
            self.lemma_order_matches_contents();
        }
        let least_recent_idx = match self.least_recent_idx {
            Some(idx) => idx,
            None => return None,
        };
        assert(self.linked_at(0));
        let key = match self.nodes[least_recent_idx] {
            Node::Value { value, .. } => value,
            Node::Free { .. } => return None,
        };
        let ghost k = key;
        assert(self.order()[0] == k);
        assert(self.order().to_set().contains(k));
        proof {
            self.order().index_of_first_ensures(k);
        }
        let value = self.remove(&key);
        match value {
            Some(v) => Some((key, v)),
            None => None,
        }
    }
}

} // verus!
