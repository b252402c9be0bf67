//! The mathematical model of a trie: a tree of sixteen-slot nodes.
//!
//! Everything here is specification. A node is a sequence of [`Slot`]s, a key
//! is a function from a group index to the slot taken at that level, and the
//! operations of the trie are plain recursive functions over the tree.

use vstd::prelude::*;
use crate::heuristic::Heuristic;

verus! {

/// Number of slots in a node: one per value of a four-bit group.
pub const FANOUT: usize = 16;

/// Bit that marks a stored slot value as a leaf; items are the values below it.
pub const HIGH: u32 = 0x8000_0000;

/// One position of a node.
pub enum Slot {
    /// Nothing is stored here.
    Empty,
    /// An item is stored here.
    Leaf(u32),
    /// A child node hangs here; the sequence holds its slots.
    Branch(Seq<Slot>),
}

/// The callback `key` may be asked for every group below `depth`, and what it
/// returns for one is a slot.
pub open spec fn key_usable<K: FnMut(u32) -> usize>(key: K, depth: int) -> bool {
    &&& forall|n: u32| n < depth ==> call_requires(key, (n,))
    &&& forall|n: u32, r: usize| n < depth && call_ensures(key, (n,), r) ==> r < FANOUT
}

/// The callback `lookup` may be asked for every group below `depth` of every
/// item, and what it returns for one is a slot.
pub open spec fn lookup_usable<F: FnMut(u32, u32) -> usize>(lookup: F, depth: int) -> bool {
    &&& forall|m: u32, n: u32| m < HIGH && n < depth ==> call_requires(lookup, (m, n))
    &&& forall|m: u32, n: u32, r: usize|
        m < HIGH && n < depth && call_ensures(lookup, (m, n), r) ==> r < FANOUT
}

/// The callback `key` is a function of the group: it has one answer for each.
pub open spec fn key_is_function<K: FnMut(u32) -> usize>(key: K) -> bool {
    forall|n: u32, a: usize, b: usize|
        call_ensures(key, (n,), a) && call_ensures(key, (n,), b) ==> a == b
}

/// The callback `lookup` is a function of the item and the group.
pub open spec fn lookup_is_function<F: FnMut(u32, u32) -> usize>(lookup: F) -> bool {
    forall|m: u32, n: u32, a: usize, b: usize|
        call_ensures(lookup, (m, n), a) && call_ensures(lookup, (m, n), b) ==> a == b
}

/// `k` gives the groups that the callback `key` returns: whatever a call of
/// `key` returns for a group, `k` has for it.
pub open spec fn key_computes<K: FnMut(u32) -> usize>(key: K, k: spec_fn(u32) -> usize) -> bool {
    forall|n: u32, r: usize| call_ensures(key, (n,), r) ==> r == k(n)
}

/// `l` gives the groups that the callback `lookup` returns for stored items.
pub open spec fn lookup_computes<F: FnMut(u32, u32) -> usize>(
    lookup: F,
    l: spec_fn(u32, u32) -> usize,
) -> bool {
    forall|m: u32, n: u32, r: usize| call_ensures(lookup, (m, n), r) ==> r == l(m, n)
}

/// The trie has room for the nodes that an insertion adds, so that it holds
/// 2^31 nodes at most afterwards: for as many nodes as any insertion may add,
/// or for those that the insertion under these callbacks adds.
pub open spec fn has_room<K: FnMut(u32) -> usize, F: FnMut(u32, u32) -> usize>(
    trie: TrieModel,
    item: u32,
    key: K,
    lookup: F,
) -> bool {
    ||| trie.node_count() + trie.depth - 1 <= HIGH
    ||| forall|k: spec_fn(u32) -> usize, l: spec_fn(u32, u32) -> usize|
        #![trigger key_computes(key, k), lookup_computes(lookup, l)]
        key_computes(key, k) && lookup_computes(lookup, l) ==> trie.insert(item, k, l).node_count()
            <= HIGH
}

/// A node with nothing in it.
pub open spec fn blank() -> Seq<Slot> {
    Seq::new(FANOUT as nat, |s: int| Slot::Empty)
}

/// A node that holds `item` at slot `at` and nothing else. If `at` is not a
/// slot of a node, the node is empty.
pub open spec fn single(at: int, item: u32) -> Seq<Slot> {
    Seq::new(
        FANOUT as nat,
        |s: int|
            if s == at {
                Slot::Leaf(item)
            } else {
                Slot::Empty
            },
    )
}

/// Every node below and including `node` has sixteen slots, every item
/// leaves the top bit clear, and the tree is at most `room` nodes high, so
/// that a key with `room` groups left has a group for every node on its way.
pub open spec fn shaped(node: Seq<Slot>, room: int) -> bool
    decreases node,
{
    &&& room >= 1
    &&& node.len() == FANOUT
    &&& forall|s: int|
        0 <= s < FANOUT ==> match #[trigger] node[s] {
            Slot::Empty => true,
            Slot::Leaf(x) => x < HIGH,
            Slot::Branch(c) => shaped(c, room - 1),
        }
}

/// Number of nodes in the tree rooted at `node`, the root included.
pub open spec fn count(node: Seq<Slot>) -> nat
    decreases node, 1nat,
{
    1 + count_from(node, 0)
}

/// Number of nodes below the slots `from..` of `node`.
pub open spec fn count_from(node: Seq<Slot>, from: int) -> nat
    decreases node, 0nat, node.len() - from,
{
    if 0 <= from < node.len() {
        let here = match node[from] {
            Slot::Branch(c) => count(c),
            _ => 0,
        };
        here + count_from(node, from + 1)
    } else {
        0
    }
}

/// Result of a lookup that starts at `node` with group `level`.
///
/// The slot named by the key decides: an empty slot ends the search without a
/// result, a leaf is the result whatever the remaining groups are, a branch
/// is searched with the next group. After `depth` groups nothing is found.
pub open spec fn find(node: Seq<Slot>, key: spec_fn(u32) -> usize, level: int, depth: int) -> Option<
    u32,
>
    decreases depth - level,
{
    let p = key(level as u32) as int;
    if level < 0 || level >= depth || p >= node.len() {
        None
    } else {
        match node[p] {
            Slot::Empty => None,
            Slot::Leaf(x) => Some(x),
            Slot::Branch(c) => find(c, key, level + 1, depth),
        }
    }
}

/// The node that results from inserting `item` below `node`, which sits at
/// group `level`.
///
/// An empty slot takes the item. A leaf makes way for a new node that holds
/// the displaced item at the slot `lookup` names for the next group, and the
/// insertion goes on inside that node. At the last group only an empty slot
/// is filled; otherwise the tree stays as it is.
pub open spec fn put(
    node: Seq<Slot>,
    item: u32,
    key: spec_fn(u32) -> usize,
    lookup: spec_fn(u32, u32) -> usize,
    level: int,
    depth: int,
) -> Seq<Slot>
    decreases depth - level,
{
    let p = key(level as u32) as int;
    if level < 0 || level >= depth || p >= node.len() {
        node
    } else if level == depth - 1 {
        if node[p] is Empty {
            node.update(p, Slot::Leaf(item))
        } else {
            node
        }
    } else {
        match node[p] {
            Slot::Empty => node.update(p, Slot::Leaf(item)),
            Slot::Leaf(m) => node.update(
                p,
                Slot::Branch(
                    put(
                        single(lookup(m, (level + 1) as u32) as int, m),
                        item,
                        key,
                        lookup,
                        level + 1,
                        depth,
                    ),
                ),
            ),
            Slot::Branch(c) => node.update(
                p,
                Slot::Branch(put(c, item, key, lookup, level + 1, depth)),
            ),
        }
    }
}

/// Number of nodes that [`put`] adds.
pub open spec fn grows(
    node: Seq<Slot>,
    key: spec_fn(u32) -> usize,
    lookup: spec_fn(u32, u32) -> usize,
    level: int,
    depth: int,
) -> nat
    decreases depth - level,
{
    let p = key(level as u32) as int;
    if level < 0 || level >= depth - 1 || p >= node.len() {
        0
    } else {
        match node[p] {
            Slot::Empty => 0,
            Slot::Leaf(m) => 1 + grows(
                single(lookup(m, (level + 1) as u32) as int, m),
                key,
                lookup,
                level + 1,
                depth,
            ),
            Slot::Branch(c) => grows(c, key, lookup, level + 1, depth),
        }
    }
}

/// Whether [`put`] leaves the item out: the descent reaches the last group
/// and finds its slot taken.
pub open spec fn drops(
    node: Seq<Slot>,
    key: spec_fn(u32) -> usize,
    lookup: spec_fn(u32, u32) -> usize,
    level: int,
    depth: int,
) -> bool
    decreases depth - level,
{
    let p = key(level as u32) as int;
    if level < 0 || level >= depth || p >= node.len() {
        true
    } else if level == depth - 1 {
        !(node[p] is Empty)
    } else {
        match node[p] {
            Slot::Empty => false,
            Slot::Leaf(m) => drops(
                single(lookup(m, (level + 1) as u32) as int, m),
                key,
                lookup,
                level + 1,
                depth,
            ),
            Slot::Branch(c) => drops(c, key, lookup, level + 1, depth),
        }
    }
}

/// Items below one slot, in the order of a depth-first walk.
pub open spec fn slot_items(slot: Slot) -> Seq<u32>
    decreases slot,
{
    match slot {
        Slot::Empty => Seq::empty(),
        Slot::Leaf(x) => seq![x],
        Slot::Branch(c) => node_items(c, 0),
    }
}

/// Items below the slots `from..` of `node`: slots in ascending order, each
/// child walked completely where its slot stands.
pub open spec fn node_items(node: Seq<Slot>, from: int) -> Seq<u32>
    decreases node, node.len() - from,
{
    if 0 <= from < node.len() {
        slot_items(node[from]) + node_items(node, from + 1)
    } else {
        Seq::empty()
    }
}

/// Items that a guided walk yields below the slot `choice` of a node whose
/// heuristic state is `h`. A child is walked with the state that `h` enters
/// for `choice`, over the candidates of that state.
pub open spec fn guided_slot<H: Heuristic>(slot: Slot, h: H, choice: usize) -> Seq<u32>
    decreases slot,
{
    match slot {
        Slot::Empty => Seq::empty(),
        Slot::Leaf(x) => seq![x],
        Slot::Branch(c) => guided_items(
            c,
            h.spec_enter(choice),
            h.spec_enter(choice).spec_candidates(),
            0,
        ),
    }
}

/// Items that a guided walk yields at `node` for the candidates
/// `candidates[from..]`, in the order of the candidates. A candidate that is
/// no slot of the node yields nothing.
pub open spec fn guided_items<H: Heuristic>(
    node: Seq<Slot>,
    h: H,
    candidates: Seq<usize>,
    from: int,
) -> Seq<u32>
    decreases node, candidates.len() - from,
{
    if 0 <= from < candidates.len() {
        let choice = candidates[from];
        let here = if choice < node.len() {
            guided_slot(node[choice as int], h, choice)
        } else {
            Seq::empty()
        };
        here + guided_items(node, h, candidates, from + 1)
    } else {
        Seq::empty()
    }
}

/// The callback names a slot for every group of every item.
pub open spec fn names_slots(lookup: spec_fn(u32, u32) -> usize) -> bool {
    forall|m: u32, g: u32| #[trigger] lookup(m, g) < FANOUT
}

/// The group at which a lookup under `key` that starts at `node` ends: the
/// first whose slot holds no child.
pub open spec fn reach(node: Seq<Slot>, key: spec_fn(u32) -> usize, level: int, depth: int) -> int
    decreases depth - level,
{
    let p = key(level as u32) as int;
    if level < 0 || level >= depth || p >= node.len() {
        level
    } else {
        match node[p] {
            Slot::Branch(c) => reach(c, key, level + 1, depth),
            _ => level,
        }
    }
}

/// The slot at which a lookup under `key` that starts at `node` ends, where
/// it ends at one.
pub open spec fn landing(node: Seq<Slot>, key: spec_fn(u32) -> usize, level: int, depth: int) -> Slot
    decreases depth - level,
{
    let p = key(level as u32) as int;
    if level < 0 || level >= depth || p >= node.len() {
        Slot::Empty
    } else {
        match node[p] {
            Slot::Branch(c) => landing(c, key, level + 1, depth),
            slot => slot,
        }
    }
}

/// Every item below `slot`, which is slot `p` of a node at group `level`, has
/// `p` as its group `level`.
pub open spec fn slot_agrees(
    slot: Slot,
    lookup: spec_fn(u32, u32) -> usize,
    level: int,
    p: int,
) -> bool {
    forall|m: u32| #[trigger] slot_items(slot).contains(m) ==> lookup(m, level as u32) == p
}

/// The tree below `node`, which sits at group `level`, is laid out as
/// `lookup` says: every item lies below the slots that `lookup` names for it,
/// group by group from `level` on.
pub open spec fn consistent(node: Seq<Slot>, lookup: spec_fn(u32, u32) -> usize, level: int) -> bool
    decreases node,
{
    forall|p: int|
        0 <= p < node.len() ==> slot_agrees(#[trigger] node[p], lookup, level, p) && match node[p] {
            Slot::Branch(c) => consistent(c, lookup, level + 1),
            _ => true,
        }
}

/// The groups of `m`, as `lookup` gives them, are not those of `key`: they
/// part at some group below the depth.
pub open spec fn differs(
    lookup: spec_fn(u32, u32) -> usize,
    m: u32,
    key: spec_fn(u32) -> usize,
    depth: int,
) -> bool {
    exists|g: int| 0 <= g < depth && lookup(m, g as u32) != #[trigger] key(g as u32)
}

/// The abstract value of a trie: its root node and the number of groups that
/// a key is asked for at most.
pub struct TrieModel {
    pub root: Seq<Slot>,
    pub depth: int,
}

impl TrieModel {
    /// The trie of the given depth that holds nothing.
    pub open spec fn empty(depth: int) -> TrieModel {
        TrieModel { root: blank(), depth }
    }

    /// The depth is positive and the tree is well shaped: no node lies
    /// deeper than a key has groups.
    pub open spec fn wf(self) -> bool {
        shaped(self.root, self.depth)
    }

    /// The item found under `key`, if any.
    pub open spec fn get(self, key: spec_fn(u32) -> usize) -> Option<u32> {
        find(self.root, key, 0, self.depth)
    }

    /// The trie after inserting `item` under `key`, where `lookup` gives the
    /// groups of the items already stored.
    pub open spec fn insert(
        self,
        item: u32,
        key: spec_fn(u32) -> usize,
        lookup: spec_fn(u32, u32) -> usize,
    ) -> TrieModel {
        TrieModel { root: put(self.root, item, key, lookup, 0, self.depth), depth: self.depth }
    }

    /// Whether an insertion under `key` leaves the new item out.
    pub open spec fn saturated(
        self,
        key: spec_fn(u32) -> usize,
        lookup: spec_fn(u32, u32) -> usize,
    ) -> bool {
        drops(self.root, key, lookup, 0, self.depth)
    }

    /// Number of nodes that an insertion under `key` adds.
    pub open spec fn growth(
        self,
        key: spec_fn(u32) -> usize,
        lookup: spec_fn(u32, u32) -> usize,
    ) -> nat {
        grows(self.root, key, lookup, 0, self.depth)
    }

    /// The group at which a lookup under `key` ends: the first whose slot
    /// holds no child.
    pub open spec fn reach(self, key: spec_fn(u32) -> usize) -> int {
        reach(self.root, key, 0, self.depth)
    }

    /// The slot at which a lookup under `key` ends.
    pub open spec fn landing(self, key: spec_fn(u32) -> usize) -> Slot {
        landing(self.root, key, 0, self.depth)
    }

    /// The trie is laid out as `lookup` says: every item lies below the
    /// slots that `lookup` names for it, group by group.
    pub open spec fn follows(self, lookup: spec_fn(u32, u32) -> usize) -> bool {
        consistent(self.root, lookup, 0)
    }

    /// Number of nodes, the root included.
    pub open spec fn node_count(self) -> nat {
        count(self.root)
    }

    /// Every stored item, in the order of a depth-first walk.
    pub open spec fn items(self) -> Seq<u32> {
        node_items(self.root, 0)
    }

    /// The items that a walk guided by `h` yields.
    pub open spec fn explore<H: Heuristic>(self, h: H) -> Seq<u32> {
        guided_items(self.root, h, h.spec_candidates(), 0)
    }
}

} // verus!
