//! The arena of nodes behind a trie, and how it stands for a tree.
//!
//! A node is sixteen `u32` slots. A slot that holds `0` is empty, one with the
//! top bit set is a leaf whose item is the remaining bits, and any other value
//! is the index of a child node in the arena. Children are only ever appended,
//! so a child's index is above its parent's.

use vstd::prelude::*;
use crate::model::{Slot, FANOUT, HIGH, single, shaped, put, grows};

verus! {

/// Sixteen slots, the size of a cache line.
#[derive(Copy, Clone, Debug)]
pub(crate) struct Internal(pub(crate) [u32; 16]);

impl Internal {
    /// A node whose slots are all empty.
    pub(crate) fn empty() -> (node: Internal)
        ensures
            node.0@ == fresh(-1, 0),
    {
        let node = Internal([0u32; 16]);
        assert(node.0@ =~= fresh(-1, 0));
        node
    }
}

/// The arena as the proofs see it: the slots of every node, and for every
/// node the slots taken on the way to it.
pub(crate) struct Arena {
    pub cells: Seq<Seq<u32>>,
    pub paths: Seq<Seq<int>>,
}

/// The slot values of the nodes of an arena.
pub(crate) open spec fn raw(nodes: Seq<Internal>) -> Seq<Seq<u32>> {
    Seq::new(nodes.len(), |i: int| nodes[i].0@)
}

/// The value is the index of a child.
pub(crate) open spec fn is_ref(v: u32) -> bool {
    0 < v && v < HIGH
}

/// The value is a leaf.
pub(crate) open spec fn is_leaf(v: u32) -> bool {
    v >= HIGH
}

/// The item of a leaf value.
pub(crate) open spec fn item_of(v: u32) -> u32 {
    (v - HIGH) as u32
}

/// The leaf value of an item.
pub(crate) open spec fn leaf_of(item: u32) -> u32 {
    (item + HIGH) as u32
}

/// The tag test and the masks of the encoding, as arithmetic.
pub(crate) proof fn lemma_tag(v: u32)
    ensures
        (v & HIGH != 0) == is_leaf(v),
        is_leaf(v) ==> v & !HIGH == item_of(v),
        !is_leaf(v) ==> v | HIGH == leaf_of(v),
        !is_leaf(v) ==> v & HIGH == 0,
{
    assert((v & 0x8000_0000u32 != 0) == (v >= 0x8000_0000u32)) by (bit_vector);
    assert(v >= 0x8000_0000u32 ==> v & !0x8000_0000u32 == (v - 0x8000_0000u32) as u32)
        by (bit_vector);
    assert(v < 0x8000_0000u32 ==> v | 0x8000_0000u32 == (v + 0x8000_0000u32) as u32)
        by (bit_vector);
}

/// `p` is an initial part of `q`.
pub(crate) open spec fn is_prefix(p: Seq<int>, q: Seq<int>) -> bool {
    p.len() <= q.len() && forall|i: int| 0 <= i < p.len() ==> p[i] == #[trigger] q[i]
}

/// A path that starts with `p` and then `s` starts with `p`, is longer than
/// `p`, and has `s` where `p` ends.
pub(crate) proof fn lemma_prefix_push(p: Seq<int>, s: int, q: Seq<int>)
    requires
        is_prefix(p.push(s), q),
    ensures
        is_prefix(p, q),
        q.len() > p.len(),
        q[p.len() as int] == s,
{
    assert(p.push(s)[p.len() as int] == s);
    assert(q[p.len() as int] == p.push(s)[p.len() as int]);
    assert forall|i: int| 0 <= i < p.len() implies p[i] == #[trigger] q[i] by {
        assert(p.push(s)[i] == p[i]);
    }
}

/// The structure that every arena of a trie has: at least the root and no
/// more nodes than a slot can name, sixteen slots per node, and every child
/// above its parent, one step further along the parent's path.
pub(crate) open spec fn linked(a: Arena) -> bool {
    &&& 1 <= a.cells.len() <= HIGH
    &&& a.paths.len() == a.cells.len()
    &&& forall|n: int| 0 <= n < a.cells.len() ==> (#[trigger] a.cells[n]).len() == FANOUT
    &&& forall|n: int, s: int|
        0 <= n < a.cells.len() && 0 <= s < FANOUT && is_ref(#[trigger] a.cells[n][s]) ==> n
            < a.cells[n][s] < a.cells.len() && a.paths[a.cells[n][s] as int] == a.paths[n].push(s)
}

/// No node lies deeper than a key has groups: the root has the empty path
/// and every path is shorter than `depth`.
pub(crate) open spec fn bounded(a: Arena, depth: int) -> bool {
    &&& a.paths.len() > 0
    &&& a.paths[0].len() == 0
    &&& forall|n: int| 0 <= n < a.paths.len() ==> (#[trigger] a.paths[n]).len() < depth
}

/// The nodes form one tree that is no deeper than `depth`: some paths make
/// them linked and bounded.
pub(crate) open spec fn tree_shaped(cells: Seq<Seq<u32>>, depth: int) -> bool {
    exists|paths: Seq<Seq<int>>|
        #![trigger linked(Arena { cells, paths })]
        linked(Arena { cells, paths }) && bounded(Arena { cells, paths }, depth)
}

/// The arena of nodes that form one tree, with paths that show it.
pub(crate) open spec fn arena_of(cells: Seq<Seq<u32>>, depth: int) -> Arena {
    Arena {
        cells,
        paths: choose|paths: Seq<Seq<int>>|
            #![trigger linked(Arena { cells, paths })]
            linked(Arena { cells, paths }) && bounded(Arena { cells, paths }, depth),
    }
}

/// Nodes that form one tree have an arena that shows it.
pub(crate) proof fn lemma_arena_of(cells: Seq<Seq<u32>>, depth: int)
    requires
        tree_shaped(cells, depth),
    ensures
        arena_of(cells, depth).cells == cells,
        linked(arena_of(cells, depth)),
        bounded(arena_of(cells, depth), depth),
{
}

/// The nodes of a linked and bounded arena form one tree.
pub(crate) proof fn lemma_tree_shaped(a: Arena, depth: int)
    requires
        linked(a),
        bounded(a, depth),
    ensures
        tree_shaped(a.cells, depth),
{
    assert(a == Arena { cells: a.cells, paths: a.paths });
}

/// The slot of the tree that the value at slot `s` of node `n` stands for.
pub(crate) open spec fn slot_of(cells: Seq<Seq<u32>>, n: int, s: int) -> Slot
    decreases cells.len() - n, 0nat,
{
    let v = cells[n][s];
    if v == 0 {
        Slot::Empty
    } else if is_leaf(v) {
        Slot::Leaf(item_of(v))
    } else if n < v < cells.len() {
        Slot::Branch(node_of(cells, v as int))
    } else {
        Slot::Empty
    }
}

/// The node of the tree that node `n` of the arena stands for.
pub(crate) open spec fn node_of(cells: Seq<Seq<u32>>, n: int) -> Seq<Slot>
    decreases cells.len() - n, 1nat,
{
    Seq::new(FANOUT as nat, |s: int| slot_of(cells, n, s))
}

/// A node's slot values with `v` at slot `at` and zero elsewhere.
pub(crate) open spec fn fresh(at: int, v: u32) -> Seq<u32> {
    Seq::new(
        FANOUT as nat,
        |s: int|
            if s == at {
                v
            } else {
                0u32
            },
    )
}

/// The arena with `v` written to slot `p` of node `n`.
pub(crate) open spec fn store(a: Arena, n: int, p: int, v: u32) -> Arena {
    Arena { cells: a.cells.update(n, a.cells[n].update(p, v)), paths: a.paths }
}

/// The arena after the value at slot `p` of node `n` has made way for a new
/// node, appended to the arena, that holds that value at slot `q`.
pub(crate) open spec fn split(a: Arena, n: int, p: int, q: int) -> Arena {
    Arena {
        cells: a.cells.push(fresh(q, a.cells[n][p])).update(
            n,
            a.cells[n].update(p, a.cells.len() as u32),
        ),
        paths: a.paths.push(a.paths[n].push(p)),
    }
}

/// The arena after an insertion that has reached node `n` at group `level`.
pub(crate) open spec fn arena_put(
    a: Arena,
    n: int,
    item: u32,
    key: spec_fn(u32) -> usize,
    lookup: spec_fn(u32, u32) -> usize,
    level: int,
    depth: int,
) -> Arena
    decreases depth - level,
{
    let p = key(level as u32) as int;
    if level < 0 || level >= depth || p >= FANOUT || !(0 <= n < a.cells.len()) {
        a
    } else {
        let v = a.cells[n][p];
        if v == 0 {
            store(a, n, p, leaf_of(item))
        } else if level == depth - 1 {
            a
        } else if is_leaf(v) {
            arena_put(
                split(a, n, p, lookup(item_of(v), (level + 1) as u32) as int),
                a.cells.len() as int,
                item,
                key,
                lookup,
                level + 1,
                depth,
            )
        } else {
            arena_put(a, v as int, item, key, lookup, level + 1, depth)
        }
    }
}

/// An insertion never removes a node.
pub(crate) proof fn lemma_put_keeps_nodes(
    a: Arena,
    n: int,
    item: u32,
    key: spec_fn(u32) -> usize,
    lookup: spec_fn(u32, u32) -> usize,
    level: int,
    depth: int,
)
    ensures
        arena_put(a, n, item, key, lookup, level, depth).cells.len() >= a.cells.len(),
    decreases depth - level,
{
    let p = key(level as u32) as int;
    if level < 0 || level >= depth || p >= FANOUT || !(0 <= n < a.cells.len()) {
    } else {
        let v = a.cells[n][p];
        if v == 0 {
        } else if level == depth - 1 {
        } else if is_leaf(v) {
            let q = lookup(item_of(v), (level + 1) as u32) as int;
            lemma_put_keeps_nodes(
                split(a, n, p, q),
                a.cells.len() as int,
                item,
                key,
                lookup,
                level + 1,
                depth,
            );
        } else {
            lemma_put_keeps_nodes(a, v as int, item, key, lookup, level + 1, depth);
        }
    }
}

/// The tree below a node of a linked arena is well shaped, with as much room
/// as the node's path leaves of the depth.
pub(crate) proof fn lemma_node_shaped(a: Arena, depth: int, n: int)
    requires
        linked(a),
        bounded(a, depth),
        0 <= n < a.cells.len(),
    ensures
        shaped(node_of(a.cells, n), depth - a.paths[n].len()),
    decreases a.cells.len() - n,
{
    let t = node_of(a.cells, n);
    let room = depth - a.paths[n].len();
    assert forall|s: int| 0 <= s < FANOUT implies match #[trigger] t[s] {
        Slot::Empty => true,
        Slot::Leaf(x) => x < HIGH,
        Slot::Branch(c) => shaped(c, room - 1),
    } by {
        let v = a.cells[n][s];
        assert(t[s] == slot_of(a.cells, n, s));
        if is_ref(v) {
            lemma_node_shaped(a, depth, v as int);
            assert(a.paths[v as int].len() == a.paths[n].len() + 1);
        }
    }
}

/// The tree below node `c` is the same in two arenas that agree on every node
/// whose path starts with the path of `c`.
pub(crate) proof fn lemma_same_subtree(a: Arena, b: Arena, c: int)
    requires
        linked(a),
        0 <= c < a.cells.len() <= b.cells.len(),
        forall|j: int|
            0 <= j < a.cells.len() && is_prefix(a.paths[c], a.paths[j]) ==> #[trigger] b.cells[j]
                == a.cells[j],
    ensures
        node_of(b.cells, c) == node_of(a.cells, c),
    decreases a.cells.len() - c,
{
    assert(is_prefix(a.paths[c], a.paths[c]));
    assert(b.cells[c] == a.cells[c]);
    assert forall|s: int| 0 <= s < FANOUT implies node_of(b.cells, c)[s] == node_of(a.cells, c)[s] by {
        let v = a.cells[c][s];
        assert(node_of(b.cells, c)[s] == slot_of(b.cells, c, s));
        assert(node_of(a.cells, c)[s] == slot_of(a.cells, c, s));
        if is_ref(v) {
            let w = v as int;
            assert forall|j: int|
                0 <= j < a.cells.len() && is_prefix(a.paths[w], a.paths[j]) implies #[trigger] b.cells[j]
                == a.cells[j] by {
                lemma_prefix_push(a.paths[c], s, a.paths[j]);
            }
            lemma_same_subtree(a, b, w);
        }
    }
    assert(node_of(b.cells, c) =~= node_of(a.cells, c));
}

/// Where two arenas differ at slot `p` of node `n` and below it only, the
/// tree of `n` differs at slot `p` only.
pub(crate) proof fn lemma_node_update(a: Arena, b: Arena, n: int, p: int)
    requires
        linked(a),
        0 <= n < a.cells.len() <= b.cells.len(),
        0 <= p < FANOUT,
        b.cells[n].len() == FANOUT,
        forall|s: int| 0 <= s < FANOUT && s != p ==> #[trigger] b.cells[n][s] == a.cells[n][s],
        forall|j: int|
            0 <= j < a.cells.len() && j != n && !is_prefix(a.paths[n].push(p), a.paths[j])
                ==> #[trigger] b.cells[j] == a.cells[j],
    ensures
        node_of(b.cells, n) == node_of(a.cells, n).update(p, slot_of(b.cells, n, p)),
{
    assert forall|s: int| 0 <= s < FANOUT implies node_of(b.cells, n)[s] == node_of(a.cells, n).update(
        p,
        slot_of(b.cells, n, p),
    )[s] by {
        let v = a.cells[n][s];
        assert(node_of(b.cells, n)[s] == slot_of(b.cells, n, s));
        assert(node_of(a.cells, n)[s] == slot_of(a.cells, n, s));
        if s != p && is_ref(v) {
            let w = v as int;
            assert forall|j: int|
                0 <= j < a.cells.len() && is_prefix(a.paths[w], a.paths[j]) implies #[trigger] b.cells[j]
                == a.cells[j] by {
                lemma_prefix_push(a.paths[n], s, a.paths[j]);
                if is_prefix(a.paths[n].push(p), a.paths[j]) {
                    lemma_prefix_push(a.paths[n], p, a.paths[j]);
                }
            }
            lemma_same_subtree(a, b, w);
        }
    }
    assert(node_of(b.cells, n) =~= node_of(a.cells, n).update(p, slot_of(b.cells, n, p)));
}

/// Writing a leaf into an empty slot keeps the arena linked.
pub(crate) proof fn lemma_store_linked(a: Arena, n: int, p: int, item: u32)
    requires
        linked(a),
        0 <= n < a.cells.len(),
        0 <= p < FANOUT,
        item < HIGH,
        a.cells[n][p] == 0,
    ensures
        linked(store(a, n, p, leaf_of(item))),
{
    let b = store(a, n, p, leaf_of(item));
    assert forall|j: int| 0 <= j < b.cells.len() implies (#[trigger] b.cells[j]).len()
        == FANOUT by {
        assert(a.cells[j].len() == FANOUT);
    }
    assert forall|j: int, s: int|
        0 <= j < b.cells.len() && 0 <= s < FANOUT && is_ref(#[trigger] b.cells[j][s]) implies j
        < b.cells[j][s] < b.cells.len() && b.paths[b.cells[j][s] as int] == b.paths[j].push(s) by {
        assert(a.cells[j].len() == FANOUT);
        if j == n && s == p {
            assert(b.cells[j][s] == leaf_of(item));
        } else {
            assert(b.cells[j][s] == a.cells[j][s]);
        }
    }
}

/// Splitting a leaf keeps the arena linked, and the new node stands for a
/// node that holds the displaced item alone.
pub(crate) proof fn lemma_split_linked(a: Arena, n: int, p: int, q: int)
    requires
        linked(a),
        0 <= n < a.cells.len(),
        a.cells.len() < HIGH,
        0 <= p < FANOUT,
        is_leaf(a.cells[n][p]),
    ensures
        linked(split(a, n, p, q)),
        node_of(split(a, n, p, q).cells, a.cells.len() as int) == single(q, item_of(a.cells[n][p])),
{
    let b = split(a, n, p, q);
    let n1 = a.cells.len() as int;
    let v = a.cells[n][p];
    assert(a.cells[n].len() == FANOUT);
    assert(b.cells[n1] == fresh(q, v));
    assert(b.cells[n] == a.cells[n].update(p, n1 as u32));
    assert forall|j: int| 0 <= j < b.cells.len() implies (#[trigger] b.cells[j]).len()
        == FANOUT by {
        if j < n1 {
            assert(a.cells[j].len() == FANOUT);
        }
    }
    assert forall|j: int, s: int|
        0 <= j < b.cells.len() && 0 <= s < FANOUT && is_ref(#[trigger] b.cells[j][s]) implies j
        < b.cells[j][s] < b.cells.len() && b.paths[b.cells[j][s] as int] == b.paths[j].push(s) by {
        if j == n1 {
            assert(b.cells[j][s] == v || b.cells[j][s] == 0);
        } else if j == n && s == p {
            assert(b.cells[j][s] == n1 as u32);
        } else {
            assert(a.cells[j].len() == FANOUT);
            assert(b.cells[j][s] == a.cells[j][s]);
        }
    }
    assert forall|s: int| 0 <= s < FANOUT implies slot_of(b.cells, n1, s) == single(q, item_of(v))[s] by {
        assert(b.cells[n1][s] == if s == q {
            v
        } else {
            0u32
        });
    }
    assert(node_of(b.cells, n1) =~= single(q, item_of(v)));
}

/// What an insertion into the arena does to the tree: the arena stays
/// linked, grows by the nodes that the tree gains, keeps every node that does
/// not lie below the node it started from, and the tree of that node is the
/// tree that the model's insertion gives.
pub(crate) proof fn lemma_put_refines(
    a: Arena,
    n: int,
    item: u32,
    key: spec_fn(u32) -> usize,
    lookup: spec_fn(u32, u32) -> usize,
    level: int,
    depth: int,
)
    requires
        linked(a),
        bounded(a, depth),
        0 <= n < a.cells.len(),
        0 <= level < depth,
        level == a.paths[n].len(),
        item < HIGH,
        a.cells.len() + grows(node_of(a.cells, n), key, lookup, level, depth) <= HIGH,
    ensures
        ({
            let b = arena_put(a, n, item, key, lookup, level, depth);
            &&& linked(b)
            &&& bounded(b, depth)
            &&& b.cells.len() == a.cells.len() + grows(node_of(a.cells, n), key, lookup, level, depth)
            &&& forall|j: int| 0 <= j < a.cells.len() ==> #[trigger] b.paths[j] == a.paths[j]
            &&& forall|j: int|
                0 <= j < a.cells.len() && !is_prefix(a.paths[n], a.paths[j]) ==> #[trigger] b.cells[j]
                    == a.cells[j]
            &&& node_of(b.cells, n) == put(node_of(a.cells, n), item, key, lookup, level, depth)
        }),
    decreases depth - level,
{
    let p = key(level as u32) as int;
    let t = node_of(a.cells, n);
    let b = arena_put(a, n, item, key, lookup, level, depth);
    assert(is_prefix(a.paths[n], a.paths[n]));
    assert(a.cells[n].len() == FANOUT);
    if p >= FANOUT {
        assert(b == a);
    } else {
        let v = a.cells[n][p];
        assert(t[p] == slot_of(a.cells, n, p));
        if v == 0 {
            assert(b == store(a, n, p, leaf_of(item)));
            lemma_store_linked(a, n, p, item);
            lemma_node_update(a, b, n, p);
            assert(b.cells[n][p] == leaf_of(item));
            assert(slot_of(b.cells, n, p) == Slot::Leaf(item));
            assert(t[p] is Empty);
        } else if level == depth - 1 {
            assert(b == a);
            assert(!(t[p] is Empty));
        } else if is_leaf(v) {
            let m = item_of(v);
            let q = lookup(m, (level + 1) as u32) as int;
            let a1 = split(a, n, p, q);
            let n1 = a.cells.len() as int;
            assert(t[p] == Slot::Leaf(m));
            assert(grows(t, key, lookup, level, depth) == 1 + grows(
                single(q, m),
                key,
                lookup,
                level + 1,
                depth,
            ));
            lemma_split_linked(a, n, p, q);
            assert(a1.paths[n1] == a.paths[n].push(p));
            assert(bounded(a1, depth)) by {
                assert forall|j: int| 0 <= j < a1.paths.len() implies (#[trigger] a1.paths[j]).len()
                    < depth by {
                    if j < n1 {
                        assert(a1.paths[j] == a.paths[j]);
                    }
                }
                assert(a1.paths[0] == a.paths[0]);
            }
            assert(b == arena_put(a1, n1, item, key, lookup, level + 1, depth));
            lemma_put_refines(a1, n1, item, key, lookup, level + 1, depth);
            assert(a1.paths[n1] == a.paths[n].push(p));
            assert(a1.cells[n] == a.cells[n].update(p, n1 as u32));
            assert forall|j: int| 0 <= j < a.cells.len() implies #[trigger] b.paths[j]
                == a.paths[j] by {
                assert(b.paths[j] == a1.paths[j]);
            }
            assert forall|j: int|
                0 <= j < a.cells.len() && !is_prefix(a.paths[n].push(p), a.paths[j])
                implies #[trigger] b.cells[j] == a1.cells[j] by {
                assert(a1.paths[j] == a.paths[j]);
            }
            assert(!is_prefix(a.paths[n].push(p), a.paths[n]));
            assert(b.cells[n] == a1.cells[n]);
            assert forall|j: int|
                0 <= j < a.cells.len() && !is_prefix(a.paths[n], a.paths[j])
                implies #[trigger] b.cells[j] == a.cells[j] by {
                if is_prefix(a.paths[n].push(p), a.paths[j]) {
                    lemma_prefix_push(a.paths[n], p, a.paths[j]);
                }
                assert(b.cells[j] == a1.cells[j]);
            }
            assert forall|j: int|
                0 <= j < a.cells.len() && j != n && !is_prefix(a.paths[n].push(p), a.paths[j])
                implies #[trigger] b.cells[j] == a.cells[j] by {
                assert(b.cells[j] == a1.cells[j]);
            }
            lemma_node_update(a, b, n, p);
            assert(b.cells[n][p] == n1 as u32);
            assert(slot_of(b.cells, n, p) == Slot::Branch(node_of(b.cells, n1)));
        } else {
            let c = v as int;
            assert(is_ref(v));
            assert(t[p] == Slot::Branch(node_of(a.cells, c)));
            assert(a.paths[c] == a.paths[n].push(p));
            assert(b == arena_put(a, c, item, key, lookup, level + 1, depth));
            lemma_put_refines(a, c, item, key, lookup, level + 1, depth);
            assert(!is_prefix(a.paths[n].push(p), a.paths[n]));
            assert(b.cells[n] == a.cells[n]);
            assert forall|j: int|
                0 <= j < a.cells.len() && !is_prefix(a.paths[n], a.paths[j])
                implies #[trigger] b.cells[j] == a.cells[j] by {
                if is_prefix(a.paths[n].push(p), a.paths[j]) {
                    lemma_prefix_push(a.paths[n], p, a.paths[j]);
                }
            }
            lemma_node_update(a, b, n, p);
            assert(slot_of(b.cells, n, p) == Slot::Branch(node_of(b.cells, c)));
        }
    }
}

} // verus!
