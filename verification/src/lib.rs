//! A sixteen-way trie over caller-supplied four-bit key groups.
//!
//! The trie stores 31-bit items. It keeps no keys: an insertion or a lookup
//! is given a function from a group index to the group's value, and the trie
//! asks it for one group per level. What every operation does is stated over
//! [`TrieModel`], the tree that a trie stands for.

use vstd::prelude::*;

pub mod heuristic;
pub mod iter;
pub mod laws;
pub mod model;
mod node;
mod tree;

pub use heuristic::{FnHeuristic, Heuristic};
pub use iter::{ExploreIter, Iter};
pub use model::{Slot, TrieModel, FANOUT, HIGH};
use model::{blank, count, find, has_room, key_computes, key_is_function, key_usable, lookup_computes, lookup_is_function, lookup_usable};
use node::{Internal, Arena, arena_of, arena_put, bounded, fresh, is_ref, item_of, leaf_of, lemma_arena_of, lemma_node_shaped, lemma_put_keeps_nodes, lemma_put_refines, lemma_split_linked, lemma_tag, lemma_tree_shaped, linked, node_of, raw, slot_of, split, store, tree_shaped};
use tree::{lemma_count_blank, lemma_grows_bounded, lemma_put_count};

verus! {

/// A trie of 31-bit items with sixteen-way branching.
#[derive(Debug)]
pub struct BinTrie {
    /// The nodes; the root is at index `0`, so no slot ever refers to it.
    internals: Vec<Internal>,
    /// The number of groups that a key is asked for at most.
    depth: u32,
}

impl View for BinTrie {
    type V = TrieModel;

    closed spec fn view(&self) -> TrieModel {
        TrieModel { root: node_of(raw(self.internals@), 0), depth: self.depth as int }
    }
}

impl BinTrie {
    /// The invariant of the representation: the depth is positive, the nodes
    /// form one tree below the root that is no deeper than the depth, and
    /// every node belongs to it.
    pub closed spec fn wf(&self) -> bool {
        &&& self.depth >= 1
        &&& tree_shaped(raw(self.internals@), self.depth as int)
        &&& count(node_of(raw(self.internals@), 0)) == self.internals@.len()
    }

    /// A well-formed trie stands for a well-formed tree of at most 2^31
    /// nodes.
    pub proof fn lemma_view_wf(&self)
        requires
            self.wf(),
        ensures
            self@.wf(),
            1 <= self@.node_count() <= HIGH,
            1 <= self@.depth <= u32::MAX,
    {
        lemma_arena_of(raw(self.internals@), self.depth as int);
        lemma_node_shaped(arena_of(raw(self.internals@), self.depth as int), self.depth as int, 0);
    }

    /// What `wf` and the view are for the modules of this crate.
    pub(crate) proof fn lemma_open(&self)
        ensures
            self.wf() ==> self.depth >= 1 && tree_shaped(raw(self.internals@), self.depth as int),
            self@.root == node_of(raw(self.internals@), 0),
            self@.depth == self.depth,
    {
    }

    /// Makes a new trie with a maximum depth of `8192`.
    pub fn new() -> (trie: BinTrie)
        ensures
            trie.wf(),
            trie@ == TrieModel::empty(8192),
            trie@.node_count() == 1,
    {
        BinTrie::new_depth(8192)
    }

    /// Makes a new trie with the given maximum depth.
    pub fn new_depth(depth: u32) -> (trie: BinTrie)
        requires
            depth > 0,
        ensures
            trie.wf(),
            trie@ == TrieModel::empty(depth as int),
            trie@.node_count() == 1,
    {
        let mut internals: Vec<Internal> = Vec::new();
        internals.push(Internal::empty());
        let trie = BinTrie { internals, depth };
        proof {
            let cells = raw(trie.internals@);
            let a = Arena { cells, paths: seq![Seq::<int>::empty()] };
            assert(cells[0] == fresh(-1, 0));
            assert(linked(a));
            assert(bounded(a, depth as int));
            lemma_tree_shaped(a, depth as int);
            assert forall|s: int| 0 <= s < FANOUT implies node_of(cells, 0)[s] == blank()[s] by {
                assert(node_of(cells, 0)[s] == slot_of(cells, 0, s));
            }
            assert(node_of(cells, 0) =~= blank());
            lemma_count_blank();
        }
        trie
    }

    /// Returns the number of nodes, the root included.
    pub fn node_count(&self) -> (n: usize)
        requires
            self.wf(),
        ensures
            n == self@.node_count(),
    {
        self.internals.len()
    }

    /// Returns the maximum number of groups that a key is asked for.
    pub fn depth(&self) -> (d: u32)
        ensures
            d == self@.depth,
    {
        self.depth
    }

    /// Returns a walk over every stored item: depth first, the slots of a
    /// node in ascending order.
    pub fn items<'a>(&'a self) -> (iter: Iter<'a>)
        requires
            self.wf(),
        ensures
            iter.wf(),
            iter.trie() == *self,
            iter.remaining() == self@.items(),
    {
        Iter::new(self)
    }

    /// Returns a walk guided by `heuristic`: at every node it visits the
    /// slots that the heuristic names, in that order, and enters a child with
    /// the state that the heuristic gives for the child's slot.
    pub fn explore<'a, H: Heuristic>(&'a self, heuristic: H) -> (iter: ExploreIter<'a, H>)
        requires
            self.wf(),
            heuristic.valid(),
        ensures
            iter.wf(),
            iter.trie() == *self,
            iter.remaining() == self@.explore(heuristic),
    {
        ExploreIter::new(self, heuristic)
    }

    /// Looks up the item stored under `key`, where `key(n)` is the `n`th
    /// group of four bits of the key.
    ///
    /// The key must return a slot, that is a value below sixteen, for every
    /// group below the depth.
    pub fn get<K>(&self, key: K) -> (found: Option<u32>) where K: FnMut(u32) -> usize
        requires
            self.wf(),
            key_usable(key, self@.depth),
        ensures
            forall|k: spec_fn(u32) -> usize| #[trigger]
                key_computes(key, k) ==> found == self@.get(k),
    {
        self.get_unchecked(key)
    }

    /// Looks up the item stored under `key` without testing what the key
    /// returns: that every group is below sixteen is the caller's duty.
    #[verifier::loop_isolation(false)]
    pub fn get_unchecked<K>(&self, key: K) -> (found: Option<u32>) where
        K: FnMut(u32) -> usize,

        requires
            self.wf(),
            key_usable(key, self@.depth),
        ensures
            forall|k: spec_fn(u32) -> usize| #[trigger]
                key_computes(key, k) ==> found == self@.get(k),
    {
        let ghost key0 = key;
        let mut key = key;
        let ghost cells = raw(self.internals@);
        let ghost depth = self.depth as int;
        proof {
            lemma_arena_of(cells, depth);
        }
        let mut index: usize = 0;
        let mut i: u32 = 0;
        while i < self.depth
            invariant
                key == key0,
                i <= self.depth,
                depth == self.depth,
                index < self.internals@.len(),
                cells == raw(self.internals@),
                linked(arena_of(cells, depth)),
                key_usable(key, depth),
                forall|k: spec_fn(u32) -> usize| #[trigger]
                    key_computes(key, k) ==> find(node_of(cells, index as int), k, i as int, depth)
                        == find(node_of(cells, 0), k, 0, depth),
            decreases self.depth - i,
        {
            let position: usize = key(i);
            let v: u32 = self.internals[index].0[position];
            proof {
                lemma_tag(v);
                assert(cells[index as int][position as int] == v);
                assert(node_of(cells, index as int)[position as int] == slot_of(
                    cells,
                    index as int,
                    position as int,
                ));
            }
            if v == 0 {
                proof {
                    assert forall|k: spec_fn(u32) -> usize| #[trigger]
                        key_computes(key0, k) implies None::<u32> == self@.get(k) by {
                        assert(k(i) == position);
                    }
                }
                return None;
            }
            if v & HIGH != 0 {
                proof {
                    assert forall|k: spec_fn(u32) -> usize| #[trigger]
                        key_computes(key0, k) implies Some((v & !HIGH) as u32) == self@.get(k) by {
                        assert(k(i) == position);
                    }
                }
                return Some(v & !HIGH);
            }
            proof {
                assert(is_ref(v));
                assert forall|k: spec_fn(u32) -> usize| #[trigger]
                    key_computes(key0, k) implies find(node_of(cells, v as int), k, i + 1, depth)
                    == find(node_of(cells, 0), k, 0, depth) by {
                    assert(k(i) == position);
                }
            }
            index = v as usize;
            i = i + 1;
        }
        None
    }

    /// Inserts `item`, which must leave the top bit clear.
    ///
    /// `key(n)` is the `n`th group of four bits of the item's key, and
    /// `lookup(m, n)` is the `n`th group of the key of an item `m` that was
    /// inserted before. Both must return a value below sixteen and be
    /// functions of their arguments, and the trie must have room for the
    /// nodes that the insertion adds: it holds 2^31 nodes at most.
    ///
    /// An empty slot on the way takes the item. A leaf on the way makes way
    /// for a new node, in which the insertion goes on. At the last group only
    /// an empty slot takes the item: otherwise the item is left out.
    pub fn insert<K, F>(&mut self, item: u32, key: K, lookup: F) where
        K: FnMut(u32) -> usize,
        F: FnMut(u32, u32) -> usize,

        requires
            old(self).wf(),
            item < HIGH,
            key_usable(key, old(self)@.depth),
            lookup_usable(lookup, old(self)@.depth),
            key_is_function(key),
            lookup_is_function(lookup),
            has_room(old(self)@, item, key, lookup),
        ensures
            final(self).wf(),
            final(self)@.depth == old(self)@.depth,
            old(self)@.node_count() <= final(self)@.node_count() <= old(self)@.node_count() + old(
                self,
            )@.depth - 1,
            forall|k: spec_fn(u32) -> usize, l: spec_fn(u32, u32) -> usize|
                #![trigger key_computes(key, k), lookup_computes(lookup, l)]
                key_computes(key, k) && lookup_computes(lookup, l) ==> final(self)@ == old(
                    self,
                )@.insert(item, k, l),
    {
        self.insert_unchecked(item, key, lookup)
    }

    /// Inserts `item` without testing the item or what the callbacks return:
    /// that the item leaves the top bit clear and that every group is below
    /// sixteen is the caller's duty.
    #[verifier::loop_isolation(false)]
    pub fn insert_unchecked<K, F>(&mut self, item: u32, key: K, lookup: F) where
        K: FnMut(u32) -> usize,
        F: FnMut(u32, u32) -> usize,

        requires
            old(self).wf(),
            item < HIGH,
            key_usable(key, old(self)@.depth),
            lookup_usable(lookup, old(self)@.depth),
            key_is_function(key),
            lookup_is_function(lookup),
            has_room(old(self)@, item, key, lookup),
        ensures
            final(self).wf(),
            final(self)@.depth == old(self)@.depth,
            old(self)@.node_count() <= final(self)@.node_count() <= old(self)@.node_count() + old(
                self,
            )@.depth - 1,
            forall|k: spec_fn(u32) -> usize, l: spec_fn(u32, u32) -> usize|
                #![trigger key_computes(key, k), lookup_computes(lookup, l)]
                key_computes(key, k) && lookup_computes(lookup, l) ==> final(self)@ == old(
                    self,
                )@.insert(item, k, l),
    {
        let ghost key0 = key;
        let ghost lookup0 = lookup;
        let mut key = key;
        let mut lookup = lookup;
        let ghost before = *self;
        let ghost depth = self.depth as int;
        let ghost start = arena_of(raw(self.internals@), depth);
        let ghost k0 = groups_of(key);
        let ghost l0 = groups_by(lookup);
        let ghost mut cur = start;
        proof {
            lemma_arena_of(raw(self.internals@), depth);
            lemma_callbacks_compute(key, lookup);
            lemma_room(before@, item, key, lookup, k0, l0);
            lemma_put_count(node_of(start.cells, 0), item, k0, l0, 0, depth);
            lemma_put_refines(start, 0, item, k0, l0, 0, depth);
        }
        let last: u32 = self.depth - 1;
        let mut index: usize = 0;
        let mut i: u32 = 0;
        while i < last
            invariant
                key == key0,
                lookup == lookup0,
                self.depth == before.depth,
                depth == self.depth,
                last == self.depth - 1,
                i <= last,
                item < HIGH,
                cur.cells == raw(self.internals@),
                linked(cur),
                bounded(cur, depth),
                index < self.internals@.len(),
                cur.paths[index as int].len() == i,
                key_usable(key, depth),
                lookup_usable(lookup, depth),
                key_computes(key, k0),
                lookup_computes(lookup, l0),
                arena_put(start, 0, item, k0, l0, 0, depth).cells.len() <= HIGH,
                forall|k: spec_fn(u32) -> usize, l: spec_fn(u32, u32) -> usize|
                    #![trigger key_computes(key, k), lookup_computes(lookup, l)]
                    key_computes(key, k) && lookup_computes(lookup, l) ==> arena_put(
                        cur,
                        index as int,
                        item,
                        k,
                        l,
                        i as int,
                        depth,
                    ) == arena_put(start, 0, item, k, l, 0, depth),
            decreases last - i,
        {
            let position: usize = key(i);
            let v: u32 = self.internals[index].0[position];
            proof {
                lemma_tag(v);
                lemma_tag(item);
                assert(cur.cells[index as int][position as int] == v);
                assert(cur.cells[index as int].len() == FANOUT);
            }
            if v == 0 {
                self.internals[index].0[position] = item | HIGH;
                proof {
                    let fin = store(cur, index as int, position as int, leaf_of(item));
                    assert(raw(self.internals@) =~= fin.cells);
                    assert forall|k: spec_fn(u32) -> usize, l: spec_fn(u32, u32) -> usize|
                        #![trigger key_computes(key0, k), lookup_computes(lookup0, l)]
                        key_computes(key0, k) && lookup_computes(lookup0, l) implies raw(
                        self.internals@,
                    ) == arena_put(start, 0, item, k, l, 0, depth).cells by {
                        assert(k(i) == position);
                        assert(arena_put(cur, index as int, item, k, l, i as int, depth) == fin);
                    }
                    lemma_insert_exit(before, *self, item, key0, lookup0, start);
                }
                return ;
            } else if v & HIGH != 0 {
                let q: usize = lookup(v & !HIGH, i + 1);
                let mut node = Internal::empty();
                node.0[q] = v;
                let new_index: usize = self.internals.len();
                proof {
                    assert(node.0@ =~= fresh(q as int, v));
                    assert(k0(i) == position);
                    assert(l0(item_of(v), (i + 1) as u32) == q);
                    let nxt = split(cur, index as int, position as int, q as int);
                    assert(arena_put(cur, index as int, item, k0, l0, i as int, depth)
                        == arena_put(nxt, new_index as int, item, k0, l0, i + 1, depth));
                    lemma_put_keeps_nodes(nxt, new_index as int, item, k0, l0, i + 1, depth);
                    assert(nxt.cells.len() == new_index + 1);
                    assert(new_index < HIGH);
                }
                self.internals.push(node);
                self.internals[index].0[position] = new_index as u32;
                proof {
                    let nxt = split(cur, index as int, position as int, q as int);
                    assert(raw(self.internals@) =~= nxt.cells);
                    lemma_split_linked(cur, index as int, position as int, q as int);
                    assert(bounded(nxt, depth)) by {
                        assert forall|j: int| 0 <= j < nxt.paths.len() implies (
                        #[trigger] nxt.paths[j]).len() < depth by {
                            if j < cur.paths.len() {
                                assert(nxt.paths[j] == cur.paths[j]);
                            }
                        }
                        assert(nxt.paths[0] == cur.paths[0]);
                    }
                    assert(nxt.paths[new_index as int].len() == i + 1);
                    assert forall|k: spec_fn(u32) -> usize, l: spec_fn(u32, u32) -> usize|
                        #![trigger key_computes(key0, k), lookup_computes(lookup0, l)]
                        key_computes(key0, k) && lookup_computes(lookup0, l) implies arena_put(
                        nxt,
                        new_index as int,
                        item,
                        k,
                        l,
                        i + 1,
                        depth,
                    ) == arena_put(start, 0, item, k, l, 0, depth) by {
                        assert(k(i) == position);
                        assert(l(item_of(v), (i + 1) as u32) == q);
                        assert(arena_put(cur, index as int, item, k, l, i as int, depth)
                            == arena_put(nxt, new_index as int, item, k, l, i + 1, depth));
                    }
                    cur = nxt;
                }
                index = new_index;
            } else {
                proof {
                    assert(is_ref(v));
                    assert(cur.paths[v as int] == cur.paths[index as int].push(position as int));
                    assert forall|k: spec_fn(u32) -> usize, l: spec_fn(u32, u32) -> usize|
                        #![trigger key_computes(key0, k), lookup_computes(lookup0, l)]
                        key_computes(key0, k) && lookup_computes(lookup0, l) implies arena_put(
                        cur,
                        v as int,
                        item,
                        k,
                        l,
                        i + 1,
                        depth,
                    ) == arena_put(start, 0, item, k, l, 0, depth) by {
                        assert(k(i) == position);
                        assert(arena_put(cur, index as int, item, k, l, i as int, depth)
                            == arena_put(cur, v as int, item, k, l, i + 1, depth));
                    }
                }
                index = v as usize;
            }
            i = i + 1;
        }
        let position: usize = key(last);
        let v: u32 = self.internals[index].0[position];
        proof {
            lemma_tag(item);
            assert(cur.cells[index as int][position as int] == v);
            assert(cur.cells[index as int].len() == FANOUT);
        }
        if v == 0 {
            self.internals[index].0[position] = item | HIGH;
            proof {
                let fin = store(cur, index as int, position as int, leaf_of(item));
                assert(raw(self.internals@) =~= fin.cells);
                assert forall|k: spec_fn(u32) -> usize, l: spec_fn(u32, u32) -> usize|
                    #![trigger key_computes(key0, k), lookup_computes(lookup0, l)]
                    key_computes(key0, k) && lookup_computes(lookup0, l) implies raw(
                    self.internals@,
                ) == arena_put(start, 0, item, k, l, 0, depth).cells by {
                    assert(k(last) == position);
                    assert(arena_put(cur, index as int, item, k, l, last as int, depth) == fin);
                }
            }
        } else {
            proof {
                assert forall|k: spec_fn(u32) -> usize, l: spec_fn(u32, u32) -> usize|
                    #![trigger key_computes(key0, k), lookup_computes(lookup0, l)]
                    key_computes(key0, k) && lookup_computes(lookup0, l) implies raw(
                    self.internals@,
                ) == arena_put(start, 0, item, k, l, 0, depth).cells by {
                    assert(k(last) == position);
                    assert(arena_put(cur, index as int, item, k, l, last as int, depth) == cur);
                }
            }
        }
        proof {
            lemma_insert_exit(before, *self, item, key0, lookup0, start);
        }
    }
}

impl Clone for BinTrie {
    /// A trie of its own that stands for the same tree.
    fn clone(&self) -> (copy: BinTrie)
        ensures
            copy@ == self@,
            copy.wf() == self.wf(),
    {
        let internals: Vec<Internal> = self.internals.clone();
        proof {
            assert forall|i: int| 0 <= i < internals@.len() implies internals@[i]
                == self.internals@[i] by {
                assert(cloned::<Internal>(self.internals@[i], internals@[i]));
            }
            assert(internals@ =~= self.internals@);
        }
        BinTrie { internals, depth: self.depth }
    }
}

impl Default for BinTrie {
    /// The empty trie with a maximum depth of `8192`.
    fn default() -> (trie: BinTrie)
        ensures
            trie.wf(),
            trie@ == TrieModel::empty(8192),
            trie@.node_count() == 1,
    {
        BinTrie::new_depth(8192)
    }
}

/// The groups that a callback returns, where it is a function.
spec fn groups_of<K: FnMut(u32) -> usize>(key: K) -> spec_fn(u32) -> usize {
    |n: u32| choose|r: usize| call_ensures(key, (n,), r)
}

/// The groups that a callback returns for stored items, where it is a
/// function.
spec fn groups_by<F: FnMut(u32, u32) -> usize>(lookup: F) -> spec_fn(u32, u32) -> usize {
    |m: u32, n: u32| choose|r: usize| call_ensures(lookup, (m, n), r)
}

/// Callbacks that are functions compute the groups that they return.
proof fn lemma_callbacks_compute<K, F>(key: K, lookup: F) where
    K: FnMut(u32) -> usize,
    F: FnMut(u32, u32) -> usize,

    requires
        key_is_function(key),
        lookup_is_function(lookup),
    ensures
        key_computes(key, groups_of(key)),
        lookup_computes(lookup, groups_by(lookup)),
{
    assert forall|n: u32, r: usize| call_ensures(key, (n,), r) implies r == groups_of(key)(n) by {
        let other = choose|r: usize| call_ensures(key, (n,), r);
        assert(call_ensures(key, (n,), other));
    }
    assert forall|m: u32, n: u32, r: usize| call_ensures(lookup, (m, n), r) implies r == groups_by(
        lookup,
    )(m, n) by {
        let other = choose|r: usize| call_ensures(lookup, (m, n), r);
        assert(call_ensures(lookup, (m, n), other));
    }
}

/// A trie with room for an insertion holds 2^31 nodes at most after it,
/// whatever groups the callbacks compute.
proof fn lemma_room<K, F>(
    trie: TrieModel,
    item: u32,
    key: K,
    lookup: F,
    k: spec_fn(u32) -> usize,
    l: spec_fn(u32, u32) -> usize,
) where K: FnMut(u32) -> usize, F: FnMut(u32, u32) -> usize
    requires
        trie.depth >= 1,
        has_room(trie, item, key, lookup),
        key_computes(key, k),
        lookup_computes(lookup, l),
    ensures
        trie.insert(item, k, l).node_count() <= HIGH,
        trie.node_count() <= trie.insert(item, k, l).node_count() <= trie.node_count() + trie.depth
            - 1,
{
    lemma_put_count(trie.root, item, k, l, 0, trie.depth);
    lemma_grows_bounded(trie.root, k, l, 0, trie.depth);
}

/// What holds when an insertion is done: if, for all that the callbacks may
/// compute, the nodes are those that the insertion into the arena gives, then
/// the trie is well formed and stands for the tree that the model's insertion
/// gives.
proof fn lemma_insert_exit<K, F>(
    before: BinTrie,
    after: BinTrie,
    item: u32,
    key: K,
    lookup: F,
    start: Arena,
) where K: FnMut(u32) -> usize, F: FnMut(u32, u32) -> usize
    requires
        before.wf(),
        item < HIGH,
        after.depth == before.depth,
        start.cells == raw(before.internals@),
        linked(start),
        bounded(start, before.depth as int),
        key_is_function(key),
        lookup_is_function(lookup),
        has_room(before@, item, key, lookup),
        forall|k: spec_fn(u32) -> usize, l: spec_fn(u32, u32) -> usize|
            #![trigger key_computes(key, k), lookup_computes(lookup, l)]
            key_computes(key, k) && lookup_computes(lookup, l) ==> raw(after.internals@)
                == arena_put(start, 0, item, k, l, 0, before.depth as int).cells,
    ensures
        after.wf(),
        after@.depth == before@.depth,
        before@.node_count() <= after@.node_count() <= before@.node_count() + before@.depth - 1,
        forall|k: spec_fn(u32) -> usize, l: spec_fn(u32, u32) -> usize|
            #![trigger key_computes(key, k), lookup_computes(lookup, l)]
            key_computes(key, k) && lookup_computes(lookup, l) ==> after@ == before@.insert(
                item,
                k,
                l,
            ),
{
    let depth = before.depth as int;
    let root = node_of(start.cells, 0);
    assert forall|k: spec_fn(u32) -> usize, l: spec_fn(u32, u32) -> usize|
        #![trigger key_computes(key, k), lookup_computes(lookup, l)]
        key_computes(key, k) && lookup_computes(lookup, l) implies after@ == before@.insert(
        item,
        k,
        l,
    ) && linked(arena_put(start, 0, item, k, l, 0, depth)) && bounded(
        arena_put(start, 0, item, k, l, 0, depth),
        depth,
    ) && count(node_of(raw(after.internals@), 0)) == after.internals@.len() by {
        lemma_room(before@, item, key, lookup, k, l);
        lemma_put_count(root, item, k, l, 0, depth);
        lemma_put_refines(start, 0, item, k, l, 0, depth);
    }
    let k0 = groups_of(key);
    let l0 = groups_by(lookup);
    lemma_callbacks_compute(key, lookup);
    lemma_room(before@, item, key, lookup, k0, l0);
    let fin = arena_put(start, 0, item, k0, l0, 0, depth);
    assert(linked(fin) && bounded(fin, depth));
    lemma_tree_shaped(fin, depth);
}

} // verus!
