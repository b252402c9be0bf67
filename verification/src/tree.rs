//! Proofs about trees: what the operations of the model do to the count of
//! nodes, to the walk and to lookups, node by node.

use vstd::prelude::*;
use vstd::multiset::Multiset;
use vstd::seq_lib::lemma_multiset_commutative;
use crate::heuristic::{Heuristic, all_slots, descend, exhaustive, covering};
use crate::model::{Slot, FANOUT, HIGH, blank, single, shaped, count, count_from, find, put, grows, drops, slot_items, node_items, guided_slot, guided_items, names_slots, reach, landing, slot_agrees, consistent, differs};

verus! {

/// A node without children counts for one.
pub(crate) proof fn lemma_count_flat(node: Seq<Slot>, from: int)
    requires
        forall|s: int| 0 <= s < node.len() ==> !(#[trigger] node[s] is Branch),
    ensures
        count_from(node, from) == 0,
    decreases node.len() - from,
{
    if 0 <= from < node.len() {
        lemma_count_flat(node, from + 1);
    }
}

/// The number of nodes that one slot stands for.
pub(crate) open spec fn slot_count(slot: Slot) -> nat {
    match slot {
        Slot::Branch(c) => count(c),
        _ => 0,
    }
}

/// Replacing one slot changes the count by what the two slots stand for.
pub(crate) proof fn lemma_count_update(node: Seq<Slot>, p: int, slot: Slot, from: int)
    requires
        0 <= p < node.len(),
        0 <= from,
    ensures
        count_from(node.update(p, slot), from) + (if from <= p {
            slot_count(node[p])
        } else {
            0
        }) == count_from(node, from) + (if from <= p {
            slot_count(slot)
        } else {
            0
        }),
    decreases node.len() - from,
{
    if from < node.len() {
        lemma_count_update(node, p, slot, from + 1);
    }
}

/// The empty node stands for one node.
pub(crate) proof fn lemma_count_blank()
    ensures
        count(blank()) == 1,
{
    lemma_count_flat(blank(), 0);
}

/// An insertion adds exactly the nodes that [`grows`] counts, whatever the
/// tree and the callbacks are.
pub(crate) proof fn lemma_put_count(
    node: Seq<Slot>,
    item: u32,
    key: spec_fn(u32) -> usize,
    lookup: spec_fn(u32, u32) -> usize,
    level: int,
    depth: int,
)
    ensures
        count(put(node, item, key, lookup, level, depth)) == count(node) + grows(
            node,
            key,
            lookup,
            level,
            depth,
        ),
    decreases depth - level,
{
    let p = key(level as u32) as int;
    if level < 0 || level >= depth || p >= node.len() {
    } else if level == depth - 1 {
        lemma_count_update(node, p, Slot::Leaf(item), 0);
    } else {
        match node[p] {
            Slot::Empty => {
                lemma_count_update(node, p, Slot::Leaf(item), 0);
            },
            Slot::Leaf(m) => {
                let q = lookup(m, (level + 1) as u32) as int;
                let child = put(single(q, m), item, key, lookup, level + 1, depth);
                lemma_put_count(single(q, m), item, key, lookup, level + 1, depth);
                lemma_count_flat(single(q, m), 0);
                lemma_count_update(node, p, Slot::Branch(child), 0);
            },
            Slot::Branch(c) => {
                let child = put(c, item, key, lookup, level + 1, depth);
                lemma_put_count(c, item, key, lookup, level + 1, depth);
                lemma_count_update(node, p, Slot::Branch(child), 0);
            },
        }
    }
}

/// An insertion adds at most one node for each group after the one it starts
/// with, the last group excepted.
pub(crate) proof fn lemma_grows_bounded(
    node: Seq<Slot>,
    key: spec_fn(u32) -> usize,
    lookup: spec_fn(u32, u32) -> usize,
    level: int,
    depth: int,
)
    requires
        0 <= level < depth,
    ensures
        grows(node, key, lookup, level, depth) <= depth - 1 - level,
    decreases depth - level,
{
    let p = key(level as u32) as int;
    if level >= depth - 1 || p >= node.len() {
    } else {
        match node[p] {
            Slot::Empty => {},
            Slot::Leaf(m) => {
                let q = lookup(m, (level + 1) as u32) as int;
                lemma_grows_bounded(single(q, m), key, lookup, level + 1, depth);
            },
            Slot::Branch(c) => {
                lemma_grows_bounded(c, key, lookup, level + 1, depth);
            },
        }
    }
}

/// Items below the slots `from..to` of `node`.
pub(crate) open spec fn span_items(node: Seq<Slot>, from: int, to: int) -> Seq<u32>
    decreases to - from,
{
    if from < to {
        slot_items(node[from]) + span_items(node, from + 1, to)
    } else {
        Seq::empty()
    }
}

/// The walk of a node from slot `from` on is the walk of the slots up to `p`
/// followed by the walk from `p` on.
pub(crate) proof fn lemma_items_split(node: Seq<Slot>, from: int, p: int)
    requires
        0 <= from <= p <= node.len(),
    ensures
        node_items(node, from) == span_items(node, from, p) + node_items(node, p),
    decreases p - from,
{
    if from < p {
        lemma_items_split(node, from + 1, p);
        assert(node_items(node, from) =~= span_items(node, from, p) + node_items(node, p));
    } else {
        assert(node_items(node, from) =~= span_items(node, from, p) + node_items(node, p));
    }
}

/// The walk of the slots before `p` does not see slot `p`.
pub(crate) proof fn lemma_span_update(node: Seq<Slot>, from: int, to: int, p: int, slot: Slot)
    requires
        0 <= from,
        to <= p < node.len(),
    ensures
        span_items(node.update(p, slot), from, to) == span_items(node, from, to),
    decreases to - from,
{
    if from < to {
        lemma_span_update(node, from + 1, to, p, slot);
    }
}

/// The walk of the slots after `p` does not see slot `p`.
pub(crate) proof fn lemma_items_past_update(node: Seq<Slot>, from: int, p: int, slot: Slot)
    requires
        0 <= p < from,
        p < node.len(),
    ensures
        node_items(node.update(p, slot), from) == node_items(node, from),
    decreases node.len() - from,
{
    if from < node.len() {
        lemma_items_past_update(node, from + 1, p, slot);
    }
}

/// The items of a node, cut at slot `p`, before and after that slot is
/// replaced.
pub(crate) proof fn lemma_items_update(node: Seq<Slot>, p: int, slot: Slot)
    requires
        0 <= p < node.len(),
    ensures
        node_items(node, 0) == span_items(node, 0, p) + slot_items(node[p]) + node_items(
            node,
            p + 1,
        ),
        node_items(node.update(p, slot), 0) == span_items(node, 0, p) + slot_items(slot)
            + node_items(node, p + 1),
{
    let changed = node.update(p, slot);
    lemma_items_split(node, 0, p);
    lemma_items_split(changed, 0, p);
    lemma_span_update(node, 0, p, p, slot);
    lemma_items_past_update(node, p + 1, p, slot);
    assert(node_items(node, p) == slot_items(node[p]) + node_items(node, p + 1));
    assert(node_items(changed, p) == slot_items(changed[p]) + node_items(changed, p + 1));
    assert(node_items(node, 0) =~= span_items(node, 0, p) + slot_items(node[p]) + node_items(
        node,
        p + 1,
    ));
    assert(node_items(changed, 0) =~= span_items(node, 0, p) + slot_items(slot) + node_items(
        node,
        p + 1,
    ));
}

/// Inserting into the middle one of three sequences is inserting into their
/// concatenation.
pub(crate) proof fn lemma_insert_middle(a: Seq<u32>, b: Seq<u32>, c: Seq<u32>, i: int, x: u32)
    requires
        0 <= i <= b.len(),
    ensures
        a + b.insert(i, x) + c == (a + b + c).insert(a.len() + i, x),
{
    let whole = a + b + c;
    let at = a.len() + i;
    let front = b.subrange(0, i);
    let back = b.subrange(i, b.len() as int);
    assert(whole.subrange(0, at) =~= a + front);
    assert(whole.subrange(at, whole.len() as int) =~= back + c);
    assert(b.insert(i, x) == front.push(x) + back);
    assert(whole.insert(at, x) == (a + front).push(x) + (back + c));
    assert(a + (front.push(x) + back) + c =~= (a + front).push(x) + (back + c));
}

/// A node of empty slots yields nothing.
pub(crate) proof fn lemma_flat_items(node: Seq<Slot>, from: int)
    requires
        forall|s: int| 0 <= s < node.len() ==> #[trigger] node[s] is Empty,
    ensures
        node_items(node, from) == Seq::<u32>::empty(),
    decreases node.len() - from,
{
    if 0 <= from < node.len() {
        lemma_flat_items(node, from + 1);
        assert(slot_items(node[from]) =~= Seq::<u32>::empty());
        assert(node_items(node, from) =~= Seq::<u32>::empty());
    }
}

/// Empty slots yield nothing.
pub(crate) proof fn lemma_flat_span(node: Seq<Slot>, from: int, to: int)
    requires
        0 <= from,
        to <= node.len(),
        forall|s: int| 0 <= s < node.len() ==> #[trigger] node[s] is Empty,
    ensures
        span_items(node, from, to) == Seq::<u32>::empty(),
    decreases to - from,
{
    if from < to {
        lemma_flat_span(node, from + 1, to);
        assert(slot_items(node[from]) =~= Seq::<u32>::empty());
        assert(span_items(node, from, to) =~= Seq::<u32>::empty());
    }
}

/// A node that holds one item yields that item.
pub(crate) proof fn lemma_single_items(at: int, item: u32)
    requires
        0 <= at < FANOUT,
    ensures
        node_items(single(at, item), 0) == seq![item],
{
    assert(single(at, item) =~= blank().update(at, Slot::Leaf(item)));
    lemma_items_update(blank(), at, Slot::Leaf(item));
    lemma_flat_span(blank(), 0, at);
    lemma_flat_items(blank(), at + 1);
    assert(slot_items(Slot::Leaf(item)) =~= seq![item]);
    assert(node_items(single(at, item), 0) =~= seq![item]);
}

/// An insertion that leaves the item out leaves the walk as it was; any
/// other puts the item somewhere into the walk and keeps the order of the
/// rest.
pub(crate) proof fn lemma_put_items(
    node: Seq<Slot>,
    item: u32,
    key: spec_fn(u32) -> usize,
    lookup: spec_fn(u32, u32) -> usize,
    level: int,
    depth: int,
)
    requires
        names_slots(lookup),
    ensures
        drops(node, key, lookup, level, depth) ==> node_items(
            put(node, item, key, lookup, level, depth),
            0,
        ) == node_items(node, 0),
        !drops(node, key, lookup, level, depth) ==> exists|i: int|
            0 <= i <= node_items(node, 0).len() && node_items(
                put(node, item, key, lookup, level, depth),
                0,
            ) == #[trigger] node_items(node, 0).insert(i, item),
    decreases depth - level,
{
    let p = key(level as u32) as int;
    let before = node_items(node, 0);
    let after = node_items(put(node, item, key, lookup, level, depth), 0);
    if level < 0 || level >= depth || p >= node.len() {
    } else {
        let head = span_items(node, 0, p);
        let tail = node_items(node, p + 1);
        let none = Seq::<u32>::empty();
        if node[p] is Empty {
            lemma_items_update(node, p, Slot::Leaf(item));
            assert(slot_items(Slot::Leaf(item)) =~= none.insert(0, item));
            assert(slot_items(node[p]) =~= none);
            lemma_insert_middle(head, none, tail, 0, item);
            assert(after == before.insert(head.len() as int, item));
        } else if level == depth - 1 {
        } else {
            match node[p] {
                Slot::Empty => {},
                Slot::Leaf(m) => {
                    let q = lookup(m, (level + 1) as u32) as int;
                    let child = put(single(q, m), item, key, lookup, level + 1, depth);
                    assert(lookup(m, (level + 1) as u32) < FANOUT);
                    lemma_single_items(q, m);
                    lemma_put_items(single(q, m), item, key, lookup, level + 1, depth);
                    lemma_items_update(node, p, Slot::Branch(child));
                    assert(slot_items(node[p]) =~= seq![m]);
                    assert(slot_items(Slot::Branch(child)) == node_items(child, 0));
                    if !drops(node, key, lookup, level, depth) {
                        let i = choose|i: int|
                            0 <= i <= seq![m].len() && node_items(child, 0) == #[trigger] seq![
                                m,
                            ].insert(i, item);
                        lemma_insert_middle(head, seq![m], tail, i, item);
                        assert(after == before.insert(head.len() + i, item));
                    }
                },
                Slot::Branch(c) => {
                    let child = put(c, item, key, lookup, level + 1, depth);
                    lemma_put_items(c, item, key, lookup, level + 1, depth);
                    lemma_items_update(node, p, Slot::Branch(child));
                    assert(slot_items(node[p]) == node_items(c, 0));
                    assert(slot_items(Slot::Branch(child)) == node_items(child, 0));
                    if !drops(node, key, lookup, level, depth) {
                        let i = choose|i: int|
                            0 <= i <= node_items(c, 0).len() && node_items(child, 0)
                                == #[trigger] node_items(c, 0).insert(i, item);
                        lemma_insert_middle(head, node_items(c, 0), tail, i, item);
                        assert(after == before.insert(head.len() + i, item));
                    }
                },
            }
        }
    }
}

/// After an insertion that does not leave the item out, a lookup under the
/// same key finds the item.
pub(crate) proof fn lemma_put_find(
    node: Seq<Slot>,
    item: u32,
    key: spec_fn(u32) -> usize,
    lookup: spec_fn(u32, u32) -> usize,
    level: int,
    depth: int,
)
    requires
        !drops(node, key, lookup, level, depth),
    ensures
        find(put(node, item, key, lookup, level, depth), key, level, depth) == Some(item),
    decreases depth - level,
{
    let p = key(level as u32) as int;
    if level < 0 || level >= depth || p >= node.len() {
    } else if level == depth - 1 {
    } else {
        match node[p] {
            Slot::Empty => {},
            Slot::Leaf(m) => {
                let q = lookup(m, (level + 1) as u32) as int;
                lemma_put_find(single(q, m), item, key, lookup, level + 1, depth);
            },
            Slot::Branch(c) => {
                lemma_put_find(c, item, key, lookup, level + 1, depth);
            },
        }
    }
}

/// Where a lookup under `key` finds an item whose groups, as `lookup` gives
/// them, are those of `key` from `level` on, an insertion under `key` leaves
/// the new item out, the lookup still finds the old item, and the walk stays
/// as it was.
pub(crate) proof fn lemma_put_blocked(
    node: Seq<Slot>,
    stored: u32,
    item: u32,
    key: spec_fn(u32) -> usize,
    lookup: spec_fn(u32, u32) -> usize,
    level: int,
    depth: int,
)
    requires
        find(node, key, level, depth) == Some(stored),
        forall|g: int| level <= g < depth ==> lookup(stored, g as u32) == #[trigger] key(g as u32),
        forall|g: int| level <= g < depth ==> #[trigger] key(g as u32) < FANOUT,
    ensures
        drops(node, key, lookup, level, depth),
        find(put(node, item, key, lookup, level, depth), key, level, depth) == Some(stored),
    decreases depth - level,
{
    let p = key(level as u32) as int;
    if level < 0 || level >= depth || p >= node.len() {
    } else if level == depth - 1 {
    } else {
        match node[p] {
            Slot::Empty => {},
            Slot::Leaf(m) => {
                let q = lookup(m, (level + 1) as u32) as int;
                assert(m == stored);
                assert(q == key((level + 1) as u32));
                assert(key((level + 1) as u32) < FANOUT);
                assert(single(q, m)[q] == Slot::Leaf(m));
                assert(find(single(q, m), key, level + 1, depth) == Some(stored));
                lemma_put_blocked(single(q, m), stored, item, key, lookup, level + 1, depth);
            },
            Slot::Branch(c) => {
                lemma_put_blocked(c, stored, item, key, lookup, level + 1, depth);
            },
        }
    }
}

/// A lookup is decided by the first slot on its way that holds no child, and
/// by the groups up to that slot alone.
pub(crate) proof fn lemma_find_stops(
    node: Seq<Slot>,
    key: spec_fn(u32) -> usize,
    other: spec_fn(u32) -> usize,
    level: int,
    depth: int,
)
    ensures
        find(node, key, level, depth) == match landing(node, key, level, depth) {
            Slot::Leaf(x) => Some(x),
            _ => None,
        },
        level <= reach(node, key, level, depth),
        (forall|g: int|
            level <= g <= reach(node, key, level, depth) ==> #[trigger] other(g as u32) == key(
                g as u32,
            )) ==> find(node, other, level, depth) == find(node, key, level, depth),
    decreases depth - level,
{
    let p = key(level as u32) as int;
    if level < 0 || level >= depth || p >= node.len() {
        if forall|g: int|
            level <= g <= reach(node, key, level, depth) ==> #[trigger] other(g as u32) == key(
                g as u32,
            ) {
            assert(other(level as u32) == key(level as u32));
        }
    } else {
        match node[p] {
            Slot::Branch(c) => {
                lemma_find_stops(c, key, other, level + 1, depth);
                if forall|g: int|
                    level <= g <= reach(node, key, level, depth) ==> #[trigger] other(g as u32)
                        == key(g as u32) {
                    assert(other(level as u32) == key(level as u32));
                    assert forall|g: int|
                        level + 1 <= g <= reach(c, key, level + 1, depth) implies #[trigger] other(
                        g as u32,
                    ) == key(g as u32) by {}
                }
            },
            _ => {
                if forall|g: int|
                    level <= g <= reach(node, key, level, depth) ==> #[trigger] other(g as u32)
                        == key(g as u32) {
                    assert(other(level as u32) == key(level as u32));
                }
            },
        }
    }
}

/// Inserting under a key that parts at group `g` from the key of the one
/// item of a node adds a node for every group from `level` up to `g`, leaves
/// no item out, and a lookup under the old item's groups still finds it.
pub(crate) proof fn lemma_single_grows(
    stored: u32,
    stored_key: spec_fn(u32) -> usize,
    item: u32,
    key: spec_fn(u32) -> usize,
    lookup: spec_fn(u32, u32) -> usize,
    level: int,
    depth: int,
    g: int,
)
    requires
        0 <= level <= g < depth,
        forall|j: int| level <= j < g ==> #[trigger] key(j as u32) == lookup(stored, j as u32),
        key(g as u32) != lookup(stored, g as u32),
        forall|j: int| level <= j <= g ==> #[trigger] key(j as u32) < FANOUT,
        forall|j: int| level <= j <= g ==> #[trigger] lookup(stored, j as u32) < FANOUT,
        forall|j: int| level <= j <= g ==> #[trigger] stored_key(j as u32) == lookup(stored, j as u32),
    ensures
        grows(single(lookup(stored, level as u32) as int, stored), key, lookup, level, depth) == g
            - level,
        !drops(single(lookup(stored, level as u32) as int, stored), key, lookup, level, depth),
        find(
            put(
                single(lookup(stored, level as u32) as int, stored),
                item,
                key,
                lookup,
                level,
                depth,
            ),
            stored_key,
            level,
            depth,
        ) == Some(stored),
    decreases g - level,
{
    let q = lookup(stored, level as u32) as int;
    let p = key(level as u32) as int;
    let node = single(q, stored);
    assert(key(level as u32) < FANOUT);
    assert(lookup(stored, level as u32) < FANOUT);
    assert(stored_key(level as u32) == lookup(stored, level as u32));
    if level == g {
        assert(node[p] is Empty);
        assert(node.update(p, Slot::Leaf(item))[q] == Slot::Leaf(stored));
    } else {
        assert(key(level as u32) == lookup(stored, level as u32));
        assert(node[p] == Slot::Leaf(stored));
        lemma_single_grows(stored, stored_key, item, key, lookup, level + 1, depth, g);
    }
}

/// The groups of `m` below `level`, as `lookup` gives them, are those of
/// `key`.
pub(crate) open spec fn agrees_below(
    lookup: spec_fn(u32, u32) -> usize,
    m: u32,
    key: spec_fn(u32) -> usize,
    level: int,
) -> bool {
    forall|t: int| 0 <= t < level ==> lookup(m, t as u32) == #[trigger] key(t as u32)
}

/// A concatenation holds what its parts hold.
pub(crate) proof fn lemma_concat_contains(a: Seq<u32>, b: Seq<u32>, m: u32)
    ensures
        (a + b).contains(m) <==> (a.contains(m) || b.contains(m)),
{
    if (a + b).contains(m) {
        let i = choose|i: int| 0 <= i < (a + b).len() && (a + b)[i] == m;
        if i < a.len() {
            assert(a[i] == m);
        } else {
            assert(b[i - a.len()] == m);
        }
    }
    if a.contains(m) {
        let i = choose|i: int| 0 <= i < a.len() && a[i] == m;
        assert((a + b)[i] == m);
    }
    if b.contains(m) {
        let i = choose|i: int| 0 <= i < b.len() && b[i] == m;
        assert((a + b)[a.len() + i] == m);
    }
}

/// A sequence with `x` inserted holds what it held before, and `x`.
pub(crate) proof fn lemma_insert_contains(s: Seq<u32>, i: int, x: u32, m: u32)
    requires
        0 <= i <= s.len(),
        s.insert(i, x).contains(m),
    ensures
        s.contains(m) || m == x,
{
    s.insert_ensures(i, x);
    let j = choose|j: int| 0 <= j < s.insert(i, x).len() && s.insert(i, x)[j] == m;
    if j < i {
        assert(s[j] == m);
    } else if j > i {
        assert(s.insert(i, x)[(j - 1) + 1] == s[j - 1]);
        assert(s[j - 1] == m);
    }
}

/// An item is in the walk of a node exactly if it is in the walk of one of
/// its slots.
pub(crate) proof fn lemma_items_member(node: Seq<Slot>, from: int, m: u32)
    requires
        0 <= from,
    ensures
        node_items(node, from).contains(m) <==> exists|p: int|
            from <= p < node.len() && #[trigger] slot_items(node[p]).contains(m),
    decreases node.len() - from,
{
    if from < node.len() {
        lemma_items_member(node, from + 1, m);
        lemma_concat_contains(slot_items(node[from]), node_items(node, from + 1), m);
        if node_items(node, from).contains(m) {
            if slot_items(node[from]).contains(m) {
            } else {
                let p = choose|p: int|
                    from + 1 <= p < node.len() && #[trigger] slot_items(node[p]).contains(m);
                assert(from <= p < node.len() && slot_items(node[p]).contains(m));
            }
        }
        if exists|p: int| from <= p < node.len() && #[trigger] slot_items(node[p]).contains(m) {
            let p = choose|p: int|
                from <= p < node.len() && #[trigger] slot_items(node[p]).contains(m);
            if p > from {
                assert(from + 1 <= p < node.len() && slot_items(node[p]).contains(m));
            }
        }
    } else {
        assert(node_items(node, from) =~= Seq::<u32>::empty());
    }
}

/// An insertion brings no item into the walk but the new one.
pub(crate) proof fn lemma_put_members(
    node: Seq<Slot>,
    item: u32,
    key: spec_fn(u32) -> usize,
    lookup: spec_fn(u32, u32) -> usize,
    level: int,
    depth: int,
    m: u32,
)
    requires
        names_slots(lookup),
        node_items(put(node, item, key, lookup, level, depth), 0).contains(m),
    ensures
        node_items(node, 0).contains(m) || m == item,
{
    lemma_put_items(node, item, key, lookup, level, depth);
    if !drops(node, key, lookup, level, depth) {
        let i = choose|i: int|
            0 <= i <= node_items(node, 0).len() && node_items(
                put(node, item, key, lookup, level, depth),
                0,
            ) == #[trigger] node_items(node, 0).insert(i, item);
        lemma_insert_contains(node_items(node, 0), i, item, m);
    }
}

/// An insertion under the key that `lookup` gives for the new item keeps the
/// tree laid out as `lookup` says.
pub(crate) proof fn lemma_put_consistent(
    node: Seq<Slot>,
    item: u32,
    key: spec_fn(u32) -> usize,
    lookup: spec_fn(u32, u32) -> usize,
    level: int,
    depth: int,
)
    requires
        consistent(node, lookup, level),
        names_slots(lookup),
        0 <= level,
        forall|g: int| 0 <= g < depth ==> lookup(item, g as u32) == #[trigger] key(g as u32),
    ensures
        consistent(put(node, item, key, lookup, level, depth), lookup, level),
    decreases depth - level,
{
    let p = key(level as u32) as int;
    let after = put(node, item, key, lookup, level, depth);
    if level >= depth || p >= node.len() || after == node {
    } else {
        assert(lookup(item, level as u32) == key(level as u32));
        assert(slot_agrees(node[p], lookup, level, p));
        assert(after == node.update(p, after[p]));
        if node[p] is Empty {
            assert(after[p] == Slot::Leaf(item));
            assert forall|m: u32| #[trigger]
                slot_items(after[p]).contains(m) implies lookup(m, level as u32) == p by {
                assert(slot_items(after[p]) =~= seq![item]);
                assert(seq![item][0] == item);
            }
        } else {
            match node[p] {
                Slot::Empty => {},
                Slot::Leaf(stored) => {
                    let q = lookup(stored, (level + 1) as u32) as int;
                    let lone = single(q, stored);
                    let child = put(lone, item, key, lookup, level + 1, depth);
                    assert(after[p] == Slot::Branch(child));
                    assert(lookup(stored, (level + 1) as u32) < FANOUT);
                    lemma_single_items(q, stored);
                    assert(slot_items(node[p]) =~= seq![stored]);
                    assert(seq![stored][0] == stored);
                    assert(slot_items(node[p]).contains(stored));
                    assert forall|s: int| 0 <= s < lone.len() implies slot_agrees(
                        #[trigger] lone[s],
                        lookup,
                        level + 1,
                        s,
                    ) && match lone[s] {
                        Slot::Branch(c) => consistent(c, lookup, level + 2),
                        _ => true,
                    } by {
                        if s == q {
                            assert(slot_items(lone[s]) =~= seq![stored]);
                        } else {
                            assert(slot_items(lone[s]) =~= Seq::<u32>::empty());
                        }
                    }
                    lemma_put_consistent(lone, item, key, lookup, level + 1, depth);
                    assert forall|m: u32| #[trigger]
                        slot_items(after[p]).contains(m) implies lookup(m, level as u32) == p by {
                        lemma_put_members(lone, item, key, lookup, level + 1, depth, m);
                        if m != item {
                            assert(seq![stored].contains(m));
                            assert(m == stored);
                        }
                    }
                },
                Slot::Branch(c) => {
                    let child = put(c, item, key, lookup, level + 1, depth);
                    assert(after[p] == Slot::Branch(child));
                    lemma_put_consistent(c, item, key, lookup, level + 1, depth);
                    assert forall|m: u32| #[trigger]
                        slot_items(after[p]).contains(m) implies lookup(m, level as u32) == p by {
                        lemma_put_members(c, item, key, lookup, level + 1, depth, m);
                        if m != item {
                            assert(slot_items(node[p]).contains(m));
                        }
                    }
                },
            }
        }
        assert forall|s: int| 0 <= s < after.len() implies slot_agrees(
            #[trigger] after[s],
            lookup,
            level,
            s,
        ) && match after[s] {
            Slot::Branch(c) => consistent(c, lookup, level + 1),
            _ => true,
        } by {
            if s != p {
                assert(after[s] == node[s]);
            }
        }
    }
}

/// In a tree that is laid out as `lookup` says, a lookup under the groups
/// that `lookup` gives for a stored item finds that item.
pub(crate) proof fn lemma_stored_found(
    node: Seq<Slot>,
    stored: u32,
    key: spec_fn(u32) -> usize,
    lookup: spec_fn(u32, u32) -> usize,
    level: int,
    depth: int,
)
    requires
        shaped(node, depth - level),
        0 <= level,
        consistent(node, lookup, level),
        node_items(node, 0).contains(stored),
        forall|g: int| 0 <= g < depth ==> #[trigger] key(g as u32) == lookup(stored, g as u32),
    ensures
        find(node, key, level, depth) == Some(stored),
    decreases depth - level,
{
    lemma_items_member(node, 0, stored);
    let p = choose|p: int| 0 <= p < node.len() && #[trigger] slot_items(node[p]).contains(stored);
    assert(slot_agrees(node[p], lookup, level, p));
    assert(key(level as u32) == lookup(stored, level as u32));
    match node[p] {
        Slot::Empty => {
            assert(slot_items(node[p]) =~= Seq::<u32>::empty());
        },
        Slot::Leaf(x) => {
            assert(slot_items(node[p]) =~= seq![x]);
        },
        Slot::Branch(c) => {
            lemma_stored_found(c, stored, key, lookup, level + 1, depth);
        },
    }
}

/// Inserting under a key that parts at some group from the key of the one
/// item of a node does not leave the new item out.
pub(crate) proof fn lemma_single_fits(
    stored: u32,
    key: spec_fn(u32) -> usize,
    lookup: spec_fn(u32, u32) -> usize,
    level: int,
    depth: int,
    g: int,
)
    requires
        0 <= level <= g < depth,
        key(g as u32) != lookup(stored, g as u32),
        names_slots(lookup),
        forall|j: int| 0 <= j < depth ==> #[trigger] key(j as u32) < FANOUT,
    ensures
        !drops(single(lookup(stored, level as u32) as int, stored), key, lookup, level, depth),
    decreases g - level,
{
    let q = lookup(stored, level as u32) as int;
    let p = key(level as u32) as int;
    let node = single(q, stored);
    assert(key(level as u32) < FANOUT);
    assert(lookup(stored, level as u32) < FANOUT);
    if p != q {
        assert(node[p] is Empty);
    } else {
        assert(node[p] == Slot::Leaf(stored));
        lemma_single_fits(stored, key, lookup, level + 1, depth, g);
    }
}

/// In a tree that is laid out as `lookup` says, an insertion under a key
/// from which every stored item parts somewhere does not leave the new item
/// out.
pub(crate) proof fn lemma_fresh_key_fits(
    node: Seq<Slot>,
    key: spec_fn(u32) -> usize,
    lookup: spec_fn(u32, u32) -> usize,
    level: int,
    depth: int,
)
    requires
        shaped(node, depth - level),
        0 <= level,
        consistent(node, lookup, level),
        names_slots(lookup),
        forall|g: int| 0 <= g < depth ==> #[trigger] key(g as u32) < FANOUT,
        forall|m: u32| #[trigger]
            node_items(node, 0).contains(m) ==> agrees_below(lookup, m, key, level) && differs(
                lookup,
                m,
                key,
                depth,
            ),
    ensures
        !drops(node, key, lookup, level, depth),
    decreases depth - level,
{
    let p = key(level as u32) as int;
    assert(key(level as u32) < FANOUT);
    assert(slot_agrees(node[p], lookup, level, p));
    match node[p] {
        Slot::Empty => {},
        Slot::Leaf(stored) => {
            assert(slot_items(node[p]) =~= seq![stored]);
            assert(seq![stored][0] == stored);
            assert(slot_items(node[p]).contains(stored));
            lemma_items_member(node, 0, stored);
            assert(node_items(node, 0).contains(stored));
            let g = choose|g: int|
                0 <= g < depth && lookup(stored, g as u32) != #[trigger] key(g as u32);
            assert(agrees_below(lookup, stored, key, level));
            if g < level {
                assert(lookup(stored, g as u32) == key(g as u32));
            }
            assert(g > level);
            lemma_single_fits(stored, key, lookup, level + 1, depth, g);
        },
        Slot::Branch(c) => {
            assert forall|m: u32| #[trigger] node_items(c, 0).contains(m) implies agrees_below(
                lookup,
                m,
                key,
                level + 1,
            ) && differs(lookup, m, key, depth) by {
                assert(slot_items(node[p]).contains(m));
                lemma_items_member(node, 0, m);
                assert(node_items(node, 0).contains(m));
                assert(agrees_below(lookup, m, key, level));
                assert forall|t: int| 0 <= t < level + 1 implies lookup(m, t as u32)
                    == #[trigger] key(t as u32) by {
                    if t < level {
                    } else {
                        assert(lookup(m, level as u32) == p);
                    }
                }
            }
            lemma_fresh_key_fits(c, key, lookup, level + 1, depth);
        },
    }
}

/// For each slot of `node`, the items below it, as a multiset.
pub(crate) open spec fn slot_bag(node: Seq<Slot>) -> spec_fn(usize) -> Multiset<u32> {
    |c: usize| slot_items(node[c as int]).to_multiset()
}

/// The sum of what `f` gives for the members of `s`.
pub(crate) open spec fn tally(f: spec_fn(usize) -> Multiset<u32>, s: Seq<usize>) -> Multiset<u32>
    decreases s.len(),
{
    if s.len() == 0 {
        Multiset::empty()
    } else {
        f(s[0]).add(tally(f, s.drop_first()))
    }
}

/// The tally of a sequence is what `f` gives for one member plus the tally
/// of the rest.
pub(crate) proof fn lemma_tally_remove(f: spec_fn(usize) -> Multiset<u32>, s: Seq<usize>, j: int)
    requires
        0 <= j < s.len(),
    ensures
        tally(f, s) == f(s[j]).add(tally(f, s.remove(j))),
    decreases j,
{
    if j == 0 {
        assert(s.remove(0) =~= s.drop_first());
    } else {
        let rest = s.drop_first();
        let cut = s.remove(j);
        lemma_tally_remove(f, rest, j - 1);
        assert(cut[0] == s[0]);
        assert(cut.drop_first() =~= rest.remove(j - 1));
        assert(rest[j - 1] == s[j]);
        assert(tally(f, cut) == f(s[0]).add(tally(f, rest.remove(j - 1))));
        assert(tally(f, s) == f(s[0]).add(f(s[j]).add(tally(f, rest.remove(j - 1)))));
        assert(tally(f, s) =~= f(s[j]).add(tally(f, cut)));
    }
}

/// The tally does not depend on the order of the members.
pub(crate) proof fn lemma_tally_permutation(f: spec_fn(usize) -> Multiset<u32>, a: Seq<usize>, b: Seq<usize>)
    requires
        a.to_multiset() == b.to_multiset(),
    ensures
        tally(f, a) == tally(f, b),
    decreases a.len(),
{
    a.to_multiset_ensures();
    b.to_multiset_ensures();
    if a.len() == 0 {
        assert(b.len() == 0);
    } else {
        let x = a[0];
        assert(a.contains(x));
        assert(b.to_multiset().count(x) > 0);
        assert(b.contains(x));
        let j = choose|j: int| 0 <= j < b.len() && b[j] == x;
        assert(a.remove(0) =~= a.drop_first());
        assert(a.remove(0).to_multiset() =~= a.to_multiset().remove(a[0]));
        assert(b.remove(j).to_multiset() =~= b.to_multiset().remove(b[j]));
        lemma_tally_permutation(f, a.drop_first(), b.remove(j));
        lemma_tally_remove(f, b, j);
    }
}

/// The empty sequence stands for the empty multiset.
pub(crate) proof fn lemma_empty_bag()
    ensures
        Seq::<u32>::empty().to_multiset() == Multiset::<u32>::empty(),
{
    let none = Seq::<u32>::empty();
    none.to_multiset_ensures();
    assert forall|x: u32| none.to_multiset().count(x) == 0 by {
        assert(!none.contains(x));
    }
    assert(none.to_multiset() =~= Multiset::<u32>::empty());
}

/// The walk of a node holds, as a multiset, the tally of its slots.
pub(crate) proof fn lemma_items_tally(node: Seq<Slot>, from: int)
    requires
        node.len() == FANOUT,
        0 <= from <= FANOUT,
    ensures
        node_items(node, from).to_multiset() == tally(slot_bag(node), all_slots().skip(from)),
    decreases FANOUT - from,
{
    let rest = all_slots().skip(from);
    if from < FANOUT {
        lemma_items_tally(node, from + 1);
        assert(rest[0] == from);
        assert(rest.drop_first() =~= all_slots().skip(from + 1));
        lemma_multiset_commutative(slot_items(node[from]), node_items(node, from + 1));
        assert(slot_bag(node)(from as usize) == slot_items(node[from]).to_multiset());
    } else {
        lemma_empty_bag();
        assert(node_items(node, from) =~= Seq::<u32>::empty());
    }
}

/// A guided walk of a node holds, as a multiset, the tally of the slots that
/// are its candidates, provided that it holds below each slot what the plain
/// walk holds there.
pub(crate) proof fn lemma_guided_tally<H: Heuristic>(node: Seq<Slot>, h: H, candidates: Seq<usize>, from: int)
    requires
        node.len() == FANOUT,
        0 <= from <= candidates.len(),
        forall|i: int| 0 <= i < candidates.len() ==> #[trigger] candidates[i] < FANOUT,
        forall|c: usize|
            c < FANOUT ==> #[trigger] guided_slot(node[c as int], h, c).to_multiset() == slot_items(
                node[c as int],
            ).to_multiset(),
    ensures
        guided_items(node, h, candidates, from).to_multiset() == tally(
            slot_bag(node),
            candidates.skip(from),
        ),
    decreases candidates.len() - from,
{
    let rest = candidates.skip(from);
    if from < candidates.len() {
        let choice = candidates[from];
        lemma_guided_tally(node, h, candidates, from + 1);
        assert(rest[0] == choice);
        assert(rest.drop_first() =~= candidates.skip(from + 1));
        assert(choice < FANOUT);
        lemma_multiset_commutative(
            guided_slot(node[choice as int], h, choice),
            guided_items(node, h, candidates, from + 1),
        );
        assert(slot_bag(node)(choice) == slot_items(node[choice as int]).to_multiset());
    } else {
        lemma_empty_bag();
        assert(guided_items(node, h, candidates, from) =~= Seq::<u32>::empty());
    }
}

/// An insertion keeps a tree well shaped.
pub(crate) proof fn lemma_put_shaped(
    node: Seq<Slot>,
    item: u32,
    key: spec_fn(u32) -> usize,
    lookup: spec_fn(u32, u32) -> usize,
    level: int,
    depth: int,
)
    requires
        shaped(node, depth - level),
        item < HIGH,
    ensures
        shaped(put(node, item, key, lookup, level, depth), depth - level),
    decreases depth - level,
{
    let p = key(level as u32) as int;
    let room = depth - level;
    let after = put(node, item, key, lookup, level, depth);
    if level < 0 || level >= depth || p >= node.len() {
    } else {
        assert(match node[p] {
            Slot::Empty => true,
            Slot::Leaf(x) => x < HIGH,
            Slot::Branch(c) => shaped(c, room - 1),
        });
        if level < depth - 1 {
            match node[p] {
                Slot::Empty => {},
                Slot::Leaf(m) => {
                    let q = lookup(m, (level + 1) as u32) as int;
                    assert forall|s: int| 0 <= s < FANOUT implies match #[trigger] single(q, m)[s] {
                        Slot::Empty => true,
                        Slot::Leaf(x) => x < HIGH,
                        Slot::Branch(c) => shaped(c, room - 2),
                    } by {}
                    lemma_put_shaped(single(q, m), item, key, lookup, level + 1, depth);
                },
                Slot::Branch(c) => {
                    lemma_put_shaped(c, item, key, lookup, level + 1, depth);
                },
            }
        }
        assert forall|s: int| 0 <= s < FANOUT implies match #[trigger] after[s] {
            Slot::Empty => true,
            Slot::Leaf(x) => x < HIGH,
            Slot::Branch(c) => shaped(c, room - 1),
        } by {
            if s != p {
                assert(after[s] == node[s]);
            }
        }
    }
}

/// Two keys with the same groups below the depth lead to the same result.
pub(crate) proof fn lemma_find_agree(
    node: Seq<Slot>,
    key: spec_fn(u32) -> usize,
    other: spec_fn(u32) -> usize,
    level: int,
    depth: int,
)
    requires
        forall|g: int| 0 <= g < depth ==> #[trigger] key(g as u32) < FANOUT && other(g as u32)
            == key(g as u32),
    ensures
        find(node, other, level, depth) == find(node, key, level, depth),
    decreases depth - level,
{
    let p = key(level as u32) as int;
    if level < 0 || level >= depth {
    } else {
        assert(key(level as u32) < FANOUT);
        if p < node.len() {
            match node[p] {
                Slot::Branch(c) => {
                    lemma_find_agree(c, key, other, level + 1, depth);
                },
                _ => {},
            }
        }
    }
}

/// An exhaustive heuristic names all slots and stays exhaustive in every
/// child.
pub(crate) proof fn lemma_exhaustive_enter<H: Heuristic>(h: H, choice: usize)
    requires
        exhaustive(h),
    ensures
        exhaustive(h.spec_enter(choice)),
        h.spec_candidates() == all_slots(),
{
    assert(descend(h, Seq::empty()) == h);
    assert forall|path: Seq<usize>| #[trigger]
        descend(h.spec_enter(choice), path).spec_candidates() == all_slots() by {
        let longer = seq![choice] + path;
        assert(longer.drop_first() =~= path);
        assert(descend(h, longer) == descend(h.spec_enter(choice), path));
    }
}

/// Guided by an exhaustive heuristic, the walk of a node is the plain walk.
pub(crate) proof fn lemma_exhaustive_walk<H: Heuristic>(node: Seq<Slot>, room: int, h: H, from: int)
    requires
        shaped(node, room),
        exhaustive(h),
        0 <= from,
    ensures
        guided_items(node, h, all_slots(), from) == node_items(node, from),
    decreases node, FANOUT - from,
{
    if from < FANOUT {
        let choice = all_slots()[from];
        assert(choice == from);
        lemma_exhaustive_walk(node, room, h, from + 1);
        match node[from] {
            Slot::Branch(c) => {
                lemma_exhaustive_enter(h, choice);
                lemma_exhaustive_enter(h.spec_enter(choice), 0);
                lemma_exhaustive_walk(c, room - 1, h.spec_enter(choice), 0);
            },
            _ => {},
        }
        assert(guided_slot(node[from], h, choice) == slot_items(node[from]));
    }
}

/// A covering heuristic names slots only, each once, and stays covering in
/// every child.
pub(crate) proof fn lemma_covering_enter<H: Heuristic>(h: H, choice: usize)
    requires
        covering(h),
    ensures
        covering(h.spec_enter(choice)),
        h.spec_candidates().to_multiset() == all_slots().to_multiset(),
        forall|i: int|
            0 <= i < h.spec_candidates().len() ==> #[trigger] h.spec_candidates()[i] < FANOUT,
{
    assert(descend(h, Seq::empty()) == h);
    assert forall|path: Seq<usize>| #[trigger]
        descend(h.spec_enter(choice), path).spec_candidates().to_multiset()
        == all_slots().to_multiset() by {
        let longer = seq![choice] + path;
        assert(longer.drop_first() =~= path);
        assert(descend(h, longer) == descend(h.spec_enter(choice), path));
    }
    let named = h.spec_candidates();
    named.to_multiset_ensures();
    all_slots().to_multiset_ensures();
    assert forall|i: int| 0 <= i < named.len() implies #[trigger] named[i] < FANOUT by {
        assert(named.contains(named[i]));
        assert(all_slots().to_multiset().count(named[i]) > 0);
        assert(all_slots().contains(named[i]));
        let j = choose|j: int| 0 <= j < all_slots().len() && all_slots()[j] == named[i];
        assert(all_slots()[j] == j);
    }
}

/// Guided by a covering heuristic, the walk of a node holds what the plain
/// walk holds.
pub(crate) proof fn lemma_covering_walk<H: Heuristic>(node: Seq<Slot>, room: int, h: H)
    requires
        shaped(node, room),
        covering(h),
    ensures
        guided_items(node, h, h.spec_candidates(), 0).to_multiset() == node_items(
            node,
            0,
        ).to_multiset(),
    decreases node,
{
    let named = h.spec_candidates();
    lemma_covering_enter(h, 0);
    assert forall|c: usize| c < FANOUT implies #[trigger] guided_slot(
        node[c as int],
        h,
        c,
    ).to_multiset() == slot_items(node[c as int]).to_multiset() by {
        match node[c as int] {
            Slot::Branch(child) => {
                lemma_covering_enter(h, c);
                lemma_covering_walk(child, room - 1, h.spec_enter(c));
            },
            _ => {},
        }
    }
    lemma_guided_tally(node, h, named, 0);
    lemma_items_tally(node, 0);
    assert(named.skip(0) =~= named);
    assert(all_slots().skip(0) =~= all_slots());
    lemma_tally_permutation(slot_bag(node), named, all_slots());
}

/// What a lookup finds is in the walk.
pub(crate) proof fn lemma_found_member(
    node: Seq<Slot>,
    key: spec_fn(u32) -> usize,
    level: int,
    depth: int,
    found: u32,
)
    requires
        find(node, key, level, depth) == Some(found),
    ensures
        node_items(node, 0).contains(found),
    decreases depth - level,
{
    let p = key(level as u32) as int;
    lemma_items_member(node, 0, found);
    match node[p] {
        Slot::Empty => {},
        Slot::Leaf(x) => {
            assert(slot_items(node[p]) =~= seq![x]);
            assert(seq![x][0] == x);
            assert(slot_items(node[p]).contains(found));
        },
        Slot::Branch(c) => {
            lemma_found_member(c, key, level + 1, depth, found);
            assert(slot_items(node[p]).contains(found));
        },
    }
}

/// Where a lookup under `key` lands on an item whose groups, as `lookup`
/// gives them, are those of `key` after the landing and before group `g` and
/// part from them at `g`, an insertion under `key` adds a node for every
/// group after the landing up to `g`.
pub(crate) proof fn lemma_grows_to_parting(
    node: Seq<Slot>,
    stored: u32,
    key: spec_fn(u32) -> usize,
    lookup: spec_fn(u32, u32) -> usize,
    level: int,
    depth: int,
    g: int,
)
    requires
        0 <= level,
        landing(node, key, level, depth) == Slot::Leaf(stored),
        reach(node, key, level, depth) < g < depth,
        forall|t: int|
            reach(node, key, level, depth) < t < g ==> #[trigger] key(t as u32) == lookup(
                stored,
                t as u32,
            ),
        key(g as u32) != lookup(stored, g as u32),
        forall|t: int|
            reach(node, key, level, depth) < t <= g ==> #[trigger] key(t as u32) < FANOUT,
        forall|t: int|
            reach(node, key, level, depth) < t <= g ==> #[trigger] lookup(stored, t as u32)
                < FANOUT,
    ensures
        grows(node, key, lookup, level, depth) == g - reach(node, key, level, depth),
        !drops(node, key, lookup, level, depth),
    decreases depth - level,
{
    let p = key(level as u32) as int;
    if level >= depth || p >= node.len() {
    } else {
        match node[p] {
            Slot::Empty => {},
            Slot::Leaf(m) => {
                let same = |t: u32| lookup(stored, t);
                assert forall|t: int| level + 1 <= t <= g implies #[trigger] same(t as u32)
                    == lookup(stored, t as u32) by {}
                lemma_single_grows(stored, same, stored, key, lookup, level + 1, depth, g);
            },
            Slot::Branch(c) => {
                lemma_grows_to_parting(c, stored, key, lookup, level + 1, depth, g);
            },
        }
    }
}

} // verus!
