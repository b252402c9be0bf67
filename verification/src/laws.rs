//! Laws of the trie, stated over its model and proved once and for all.

use vstd::prelude::*;
use vstd::seq_lib::to_multiset_insert;
use crate::heuristic::{Heuristic, covering, exhaustive};
use crate::model::{Slot, TrieModel, FANOUT, HIGH, blank, single, shaped, slot_items, node_items, names_slots, slot_agrees, consistent, differs};
use crate::tree::{agrees_below, lemma_found_member, lemma_grows_to_parting, lemma_count_flat, lemma_flat_items, lemma_put_shaped, lemma_put_count, lemma_grows_bounded, lemma_put_find, lemma_put_consistent, lemma_stored_found, lemma_fresh_key_fits, lemma_put_items, lemma_find_stops, lemma_find_agree, lemma_put_blocked, lemma_single_grows, lemma_exhaustive_enter, lemma_exhaustive_walk, lemma_covering_walk};

verus! {

/// The empty trie has one node, holds nothing and finds nothing.
pub proof fn lemma_empty(depth: int, key: spec_fn(u32) -> usize)
    requires
        depth >= 1,
    ensures
        TrieModel::empty(depth).wf(),
        TrieModel::empty(depth).node_count() == 1,
        TrieModel::empty(depth).items() == Seq::<u32>::empty(),
        TrieModel::empty(depth).get(key) == None::<u32>,
{
    lemma_count_flat(blank(), 0);
    lemma_flat_items(blank(), 0);
    assert forall|s: int| 0 <= s < FANOUT implies match #[trigger] blank()[s] {
        Slot::Empty => true,
        Slot::Leaf(x) => x < HIGH,
        Slot::Branch(c) => shaped(c, depth - 1),
    } by {}
}

/// An insertion keeps the tree well formed.
pub proof fn lemma_insert_wf(
    trie: TrieModel,
    item: u32,
    key: spec_fn(u32) -> usize,
    lookup: spec_fn(u32, u32) -> usize,
)
    requires
        trie.wf(),
        item < HIGH,
    ensures
        trie.insert(item, key, lookup).wf(),
{
    lemma_put_shaped(trie.root, item, key, lookup, 0, trie.depth);
}

/// The number of nodes after an insertion is the number before it plus the
/// growth, and the growth is below the depth.
pub proof fn lemma_insert_node_count(
    trie: TrieModel,
    item: u32,
    key: spec_fn(u32) -> usize,
    lookup: spec_fn(u32, u32) -> usize,
)
    requires
        trie.depth >= 1,
    ensures
        trie.insert(item, key, lookup).node_count() == trie.node_count() + trie.growth(
            key,
            lookup,
        ),
        trie.growth(key, lookup) <= trie.depth - 1,
{
    lemma_put_count(trie.root, item, key, lookup, 0, trie.depth);
    lemma_grows_bounded(trie.root, key, lookup, 0, trie.depth);
}

/// Unless the trie is saturated for the key, a lookup under the key of an
/// insertion finds the inserted item.
pub proof fn lemma_insert_found(
    trie: TrieModel,
    item: u32,
    key: spec_fn(u32) -> usize,
    lookup: spec_fn(u32, u32) -> usize,
)
    requires
        !trie.saturated(key, lookup),
    ensures
        trie.insert(item, key, lookup).get(key) == Some(item),
{
    lemma_put_find(trie.root, item, key, lookup, 0, trie.depth);
}

/// The empty trie is laid out as any callback says.
pub proof fn lemma_empty_consistent(depth: int, lookup: spec_fn(u32, u32) -> usize)
    ensures
        TrieModel::empty(depth).follows(lookup),
{
    assert forall|p: int| 0 <= p < blank().len() implies slot_agrees(
        #[trigger] blank()[p],
        lookup,
        0,
        p,
    ) && match blank()[p] {
        Slot::Branch(c) => consistent(c, lookup, 1),
        _ => true,
    } by {
        assert(slot_items(blank()[p]) =~= Seq::<u32>::empty());
    }
}

/// An insertion under the key that `lookup` gives for the new item keeps the
/// trie laid out as `lookup` says.
pub proof fn lemma_insert_consistent(
    trie: TrieModel,
    item: u32,
    key: spec_fn(u32) -> usize,
    lookup: spec_fn(u32, u32) -> usize,
)
    requires
        trie.follows(lookup),
        names_slots(lookup),
        forall|g: int| 0 <= g < trie.depth ==> lookup(item, g as u32) == #[trigger] key(g as u32),
    ensures
        trie.insert(item, key, lookup).follows(lookup),
{
    lemma_put_consistent(trie.root, item, key, lookup, 0, trie.depth);
}

/// What the walk yields can be looked up: in a trie that is laid out as
/// `lookup` says, a lookup under the groups that `lookup` gives for an item of
/// the walk finds that item.
pub proof fn lemma_stored_item_found(
    trie: TrieModel,
    stored: u32,
    key: spec_fn(u32) -> usize,
    lookup: spec_fn(u32, u32) -> usize,
)
    requires
        trie.wf(),
        trie.follows(lookup),
        trie.items().contains(stored),
        forall|g: int| 0 <= g < trie.depth ==> #[trigger] key(g as u32) == lookup(stored, g as u32),
    ensures
        trie.get(key) == Some(stored),
{
    lemma_stored_found(trie.root, stored, key, lookup, 0, trie.depth);
}

/// What is inserted can be looked up: in a trie that is laid out as `lookup`
/// says, an insertion under a key from which every stored item parts at some
/// group below the depth is not left out, and a lookup under that key finds
/// the new item.
pub proof fn lemma_round_trip(
    trie: TrieModel,
    item: u32,
    key: spec_fn(u32) -> usize,
    lookup: spec_fn(u32, u32) -> usize,
)
    requires
        trie.wf(),
        trie.follows(lookup),
        names_slots(lookup),
        forall|g: int| 0 <= g < trie.depth ==> #[trigger] key(g as u32) < FANOUT,
        forall|m: u32| #[trigger] trie.items().contains(m) ==> differs(lookup, m, key, trie.depth),
    ensures
        !trie.saturated(key, lookup),
        trie.insert(item, key, lookup).get(key) == Some(item),
{
    assert forall|m: u32| #[trigger] node_items(trie.root, 0).contains(m) implies agrees_below(
        lookup,
        m,
        key,
        0,
    ) && differs(lookup, m, key, trie.depth) by {
        assert(trie.items().contains(m));
    }
    lemma_fresh_key_fits(trie.root, key, lookup, 0, trie.depth);
    lemma_put_find(trie.root, item, key, lookup, 0, trie.depth);
}

/// An insertion loses nothing: in a trie that is laid out as `lookup` says,
/// an item that was in the walk before an insertion is found afterwards
/// under the groups that `lookup` gives for it.
pub proof fn lemma_insert_keeps_found(
    trie: TrieModel,
    item: u32,
    key: spec_fn(u32) -> usize,
    lookup: spec_fn(u32, u32) -> usize,
    stored: u32,
    stored_key: spec_fn(u32) -> usize,
)
    requires
        trie.wf(),
        item < HIGH,
        trie.follows(lookup),
        names_slots(lookup),
        forall|g: int| 0 <= g < trie.depth ==> lookup(item, g as u32) == #[trigger] key(g as u32),
        trie.items().contains(stored),
        forall|g: int|
            0 <= g < trie.depth ==> #[trigger] stored_key(g as u32) == lookup(stored, g as u32),
    ensures
        trie.insert(item, key, lookup).get(stored_key) == Some(stored),
{
    let after = trie.insert(item, key, lookup);
    lemma_insert_wf(trie, item, key, lookup);
    lemma_insert_consistent(trie, item, key, lookup);
    lemma_insert_items(trie, item, key, lookup);
    if !trie.saturated(key, lookup) {
        let i = choose|i: int|
            0 <= i <= trie.items().len() && after.items() == #[trigger] trie.items().insert(
                i,
                item,
            );
        trie.items().insert_ensures(i, item);
        let j = choose|j: int| 0 <= j < trie.items().len() && trie.items()[j] == stored;
        if j < i {
            assert(after.items()[j] == stored);
        } else {
            assert(after.items()[j + 1] == stored);
        }
    }
    lemma_stored_item_found(after, stored, stored_key, lookup);
}

/// A lookup is decided by the first slot on its way that holds no child. An
/// empty slot there means that nothing is found, a leaf there is the result,
/// and a key that has the same groups up to that slot gets the same answer,
/// whatever its later groups are.
pub proof fn lemma_get_stops(
    trie: TrieModel,
    key: spec_fn(u32) -> usize,
    other: spec_fn(u32) -> usize,
)
    ensures
        trie.get(key) == match trie.landing(key) {
            Slot::Leaf(x) => Some(x),
            _ => None,
        },
        (forall|g: int| 0 <= g <= trie.reach(key) ==> #[trigger] other(g as u32) == key(g as u32))
            ==> trie.get(other) == trie.get(key),
{
    lemma_find_stops(trie.root, key, other, 0, trie.depth);
}

/// Two keys that never part: where the key of a second insertion has the
/// groups of the first one's key throughout, the second item is left out.
/// Lookups under either key find the first item, and the walk is the one from
/// before the second insertion.
pub proof fn lemma_equal_keys_saturate(
    trie: TrieModel,
    first: u32,
    first_key: spec_fn(u32) -> usize,
    first_lookup: spec_fn(u32, u32) -> usize,
    second: u32,
    second_key: spec_fn(u32) -> usize,
    second_lookup: spec_fn(u32, u32) -> usize,
)
    requires
        !trie.saturated(first_key, first_lookup),
        names_slots(second_lookup),
        forall|g: int|
            0 <= g < trie.depth ==> #[trigger] first_key(g as u32) < FANOUT && second_key(g as u32)
                == first_key(g as u32) && second_lookup(first, g as u32) == first_key(g as u32),
    ensures
        ({
            let one = trie.insert(first, first_key, first_lookup);
            let two = one.insert(second, second_key, second_lookup);
            &&& one.saturated(second_key, second_lookup)
            &&& one.get(first_key) == Some(first)
            &&& two.get(first_key) == Some(first)
            &&& two.get(second_key) == Some(first)
            &&& two.items() == one.items()
        }),
{
    let one = trie.insert(first, first_key, first_lookup);
    let two = one.insert(second, second_key, second_lookup);
    lemma_put_find(trie.root, first, first_key, first_lookup, 0, trie.depth);
    lemma_find_agree(one.root, first_key, second_key, 0, trie.depth);
    assert forall|g: int| 0 <= g < trie.depth implies second_lookup(first, g as u32)
        == #[trigger] second_key(g as u32) by {
        assert(first_key(g as u32) < FANOUT);
    }
    assert forall|g: int| 0 <= g < trie.depth implies #[trigger] second_key(g as u32)
        < FANOUT by {
        assert(first_key(g as u32) < FANOUT);
    }
    lemma_put_blocked(one.root, first, second, second_key, second_lookup, 0, trie.depth);
    lemma_put_items(one.root, second, second_key, second_lookup, 0, trie.depth);
    lemma_find_agree(two.root, second_key, first_key, 0, trie.depth);
}

/// What a lookup finds is an item of the walk.
pub proof fn lemma_found_item_stored(trie: TrieModel, key: spec_fn(u32) -> usize, found: u32)
    requires
        trie.get(key) == Some(found),
    ensures
        trie.items().contains(found),
{
    lemma_found_member(trie.root, key, 0, trie.depth, found);
}

/// A key that parts from a stored item at group `g`: where a lookup under
/// `key` lands on an item whose groups, as `lookup` gives them, are those of
/// `key` after the landing and before group `g` and part from them at `g`, an
/// insertion under `key` adds one node for every group after the landing up
/// to `g`, and does not leave the new item out.
pub proof fn lemma_growth_to_parting(
    trie: TrieModel,
    stored: u32,
    key: spec_fn(u32) -> usize,
    lookup: spec_fn(u32, u32) -> usize,
    g: int,
)
    requires
        trie.landing(key) == Slot::Leaf(stored),
        trie.reach(key) < g < trie.depth,
        forall|t: int|
            trie.reach(key) < t < g ==> #[trigger] key(t as u32) == lookup(stored, t as u32),
        key(g as u32) != lookup(stored, g as u32),
        forall|t: int| trie.reach(key) < t <= g ==> #[trigger] key(t as u32) < FANOUT,
        forall|t: int| trie.reach(key) < t <= g ==> #[trigger] lookup(stored, t as u32) < FANOUT,
    ensures
        trie.growth(key, lookup) == g - trie.reach(key),
        !trie.saturated(key, lookup),
{
    lemma_grows_to_parting(trie.root, stored, key, lookup, 0, trie.depth, g);
}

/// Two keys that part at group `g`: two insertions into an empty trie whose
/// keys have the same groups before group `g` and part there leave the trie
/// with one node for each of those groups beside the root, and both items are
/// found.
pub proof fn lemma_collision_expansion(
    depth: int,
    first: u32,
    first_key: spec_fn(u32) -> usize,
    first_lookup: spec_fn(u32, u32) -> usize,
    second: u32,
    second_key: spec_fn(u32) -> usize,
    second_lookup: spec_fn(u32, u32) -> usize,
    g: int,
)
    requires
        0 <= g < depth <= u32::MAX,
        forall|j: int| 0 <= j < g ==> #[trigger] second_key(j as u32) == first_key(j as u32),
        second_key(g as u32) != first_key(g as u32),
        forall|j: int|
            0 <= j <= g ==> #[trigger] first_key(j as u32) < FANOUT && second_key(j as u32)
                < FANOUT && second_lookup(first, j as u32) == first_key(j as u32),
    ensures
        ({
            let one = TrieModel::empty(depth).insert(first, first_key, first_lookup);
            let two = one.insert(second, second_key, second_lookup);
            &&& one.node_count() == 1
            &&& one.growth(second_key, second_lookup) == g
            &&& two.node_count() == g + 1
            &&& two.get(first_key) == Some(first)
            &&& two.get(second_key) == Some(second)
        }),
{
    let one = TrieModel::empty(depth).insert(first, first_key, first_lookup);
    let two = one.insert(second, second_key, second_lookup);
    assert(first_key(0u32) < FANOUT);
    assert(second_lookup(first, 0u32) == first_key(0u32));
    assert(one.root =~= single(second_lookup(first, 0u32) as int, first));
    lemma_count_flat(one.root, 0);
    assert forall|j: int| 0 <= j < g implies #[trigger] second_key(j as u32) == second_lookup(
        first,
        j as u32,
    ) by {
        assert(first_key(j as u32) < FANOUT);
    }
    assert forall|j: int| 0 <= j <= g implies #[trigger] second_key(j as u32) < FANOUT by {
        assert(first_key(j as u32) < FANOUT);
    }
    assert forall|j: int| 0 <= j <= g implies #[trigger] second_lookup(first, j as u32)
        < FANOUT by {
        assert(first_key(j as u32) < FANOUT);
    }
    assert(first_key(g as u32) < FANOUT);
    assert forall|j: int| 0 <= j <= g implies #[trigger] first_key(j as u32) == second_lookup(
        first,
        j as u32,
    ) by {}
    lemma_single_grows(first, first_key, second, second_key, second_lookup, 0, depth, g);
    lemma_put_count(one.root, second, second_key, second_lookup, 0, depth);
    lemma_put_find(one.root, second, second_key, second_lookup, 0, depth);
}

/// The walk holds what was inserted: an insertion that leaves the item out
/// leaves the walk as it was; any other adds the item to the walk once, at
/// some place, and changes nothing else. So the walk holds each item as often
/// as it was inserted with success.
pub proof fn lemma_insert_items(
    trie: TrieModel,
    item: u32,
    key: spec_fn(u32) -> usize,
    lookup: spec_fn(u32, u32) -> usize,
)
    requires
        names_slots(lookup),
    ensures
        trie.saturated(key, lookup) ==> trie.insert(item, key, lookup).items() == trie.items(),
        !trie.saturated(key, lookup) ==> exists|i: int|
            0 <= i <= trie.items().len() && trie.insert(item, key, lookup).items()
                == #[trigger] trie.items().insert(i, item),
        !trie.saturated(key, lookup) ==> trie.insert(item, key, lookup).items().to_multiset()
            == trie.items().to_multiset().insert(item),
{
    lemma_put_items(trie.root, item, key, lookup, 0, trie.depth);
    if !trie.saturated(key, lookup) {
        let i = choose|i: int|
            0 <= i <= trie.items().len() && trie.insert(item, key, lookup).items()
                == #[trigger] trie.items().insert(i, item);
        to_multiset_insert(trie.items(), i, item);
    }
}

/// A heuristic that prunes nothing hides nothing: a walk guided by a
/// heuristic that names every slot in ascending order at every node yields
/// all items, in the order of the plain walk.
pub proof fn lemma_exhaustive_explore<H: Heuristic>(trie: TrieModel, h: H)
    requires
        trie.wf(),
        exhaustive(h),
    ensures
        trie.explore(h) == trie.items(),
{
    lemma_exhaustive_enter(h, 0);
    lemma_exhaustive_walk(trie.root, trie.depth, h, 0);
}

/// The same in whatever order: a walk guided by a heuristic that names every
/// slot exactly once at every node yields the items of the plain walk, each
/// as often, in an order of its own.
pub proof fn lemma_covering_explore<H: Heuristic>(trie: TrieModel, h: H)
    requires
        trie.wf(),
        covering(h),
    ensures
        trie.explore(h).to_multiset() == trie.items().to_multiset(),
{
    lemma_covering_walk(trie.root, trie.depth, h);
}

} // verus!
