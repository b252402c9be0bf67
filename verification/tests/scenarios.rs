use bintrie::{BinTrie, ExploreIter, FnHeuristic, Heuristic, Iter};

fn drain(mut walk: Iter<'_>) -> Vec<u32> {
    let mut out = Vec::new();
    while let Some(item) = walk.next() {
        out.push(item);
    }
    out
}

fn drain_guided<H: Heuristic>(mut walk: ExploreIter<'_, H>) -> Vec<u32> {
    let mut out = Vec::new();
    while let Some(item) = walk.next() {
        out.push(item);
    }
    out
}

/// The groups of the two items that the guided walks below are about.
fn groups(item: u32, group: u32) -> usize {
    match item {
        3 => 0,
        5 => {
            if group == 1 {
                1
            } else {
                0
            }
        }
        _ => 0,
    }
}

fn two_items() -> BinTrie {
    let mut trie = BinTrie::new();
    trie.insert(3, |n| groups(3, n), groups);
    trie.insert(5, |n| groups(5, n), groups);
    trie
}

#[test]
fn new_trie_is_empty() {
    let trie = BinTrie::new();
    assert_eq!(trie.depth(), 8192);
    assert_eq!(trie.node_count(), 1);
    assert_eq!(drain(trie.items()), Vec::<u32>::new());
    assert_eq!(trie.get(|_| 0), None);
}

#[test]
fn default_trie_is_the_new_trie() {
    let trie = BinTrie::default();
    assert_eq!(trie.depth(), 8192);
    assert_eq!(trie.node_count(), 1);
    assert_eq!(drain(trie.items()), Vec::<u32>::new());
}

#[test]
fn new_depth_keeps_the_depth() {
    let trie = BinTrie::new_depth(128);
    assert_eq!(trie.depth(), 128);
    assert_eq!(trie.node_count(), 1);
}

#[test]
fn insert_one_item() {
    let mut trie = BinTrie::new();
    trie.insert(5, |_| 0, |_, _| 0);
    assert_eq!(drain(trie.items()), vec![5]);
    assert_eq!(trie.get(|_| 0), Some(5));
    assert_eq!(trie.get(|n| if n == 0 { 1 } else { 0 }), None);
    assert_eq!(trie.get(|_| 1), None);
    assert_eq!(trie.node_count(), 1);
}

#[test]
fn insert_unchecked_one_item() {
    let mut trie = BinTrie::new();
    trie.insert_unchecked(5, |_| 0, |_, _| 0);
    assert_eq!(drain(trie.items()), vec![5]);
    assert_eq!(trie.get_unchecked(|_| 0), Some(5));
    assert_eq!(trie.get_unchecked(|_| 1), None);
}

#[test]
fn items_of_one_insert() {
    let mut trie = BinTrie::new();
    trie.insert(3, |_| 0, |_, _| 0);
    assert_eq!(drain(trie.items()), vec![3]);
}

#[test]
fn insert_two_items_that_part_at_the_second_group() {
    let trie = two_items();
    assert_eq!(drain(trie.items()), vec![3, 5]);
    assert_eq!(trie.get(|n| groups(3, n)), Some(3));
    assert_eq!(trie.get(|n| groups(5, n)), Some(5));
    assert_eq!(trie.node_count(), 2);
}

#[test]
fn explore_with_a_made_heuristic() {
    let trie = two_items();
    assert_eq!(drain_guided(trie.explore(FnHeuristic::new(|n| n < 2))), vec![3, 5]);
    assert_eq!(drain_guided(trie.explore(FnHeuristic::new(|n| n == 1))), Vec::<u32>::new());
}

#[test]
fn explore_with_predicates() {
    let trie = two_items();
    assert_eq!(drain_guided(trie.explore(FnHeuristic(|n| n < 2))), vec![3, 5]);
    assert_eq!(drain_guided(trie.explore(FnHeuristic(|n| n == 0))), vec![3]);
    assert_eq!(drain_guided(trie.explore(FnHeuristic(|n| n == 1))), Vec::<u32>::new());
    assert_eq!(drain_guided(trie.explore(FnHeuristic(|_| false))), Vec::<u32>::new());
}

/// A heuristic with a state of its own: the level of the node.
#[derive(Clone)]
struct ByLevel {
    level: u32,
}

impl Heuristic for ByLevel {
    fn candidates(&self) -> Vec<usize> {
        match self.level {
            0 => vec![0],
            1 => vec![1],
            _ => vec![],
        }
    }

    fn enter(&self, _choice: usize) -> Self {
        ByLevel { level: self.level + 1 }
    }
}

#[test]
fn explore_with_a_state() {
    let trie = two_items();
    assert_eq!(drain_guided(trie.explore(ByLevel { level: 0 })), vec![5]);
}

/// A heuristic that names the slots in descending order.
#[derive(Clone)]
struct Backwards;

impl Heuristic for Backwards {
    fn candidates(&self) -> Vec<usize> {
        (0..16).rev().collect()
    }

    fn enter(&self, _choice: usize) -> Self {
        Backwards
    }
}

#[test]
fn explore_follows_the_order_of_the_candidates() {
    let trie = two_items();
    assert_eq!(drain_guided(trie.explore(Backwards)), vec![5, 3]);
}

#[test]
fn explore_everything_is_items() {
    let mut trie = BinTrie::new_depth(8);
    let nibble = |item: u32, n: u32| ((item >> (4 * n)) & 0xf) as usize;
    for item in [0x123u32, 0x223, 0x124, 0x7fff_ffff, 0, 0x10, 0x1000_0000] {
        trie.insert(item, |n| nibble(item, n), nibble);
    }
    let plain = drain(trie.items());
    assert_eq!(plain.len(), 7);
    assert_eq!(drain_guided(trie.explore(FnHeuristic(|_| true))), plain);
    let mut backwards = drain_guided(trie.explore(Backwards));
    let mut sorted = plain.clone();
    backwards.sort();
    sorted.sort();
    assert_eq!(backwards, sorted);
}

#[test]
fn round_trip_by_nibbles() {
    let mut trie = BinTrie::new_depth(8);
    let nibble = |item: u32, n: u32| ((item >> (4 * n)) & 0xf) as usize;
    let items = [0x0u32, 0x1, 0x11, 0x21, 0x121, 0x7fff_ffff, 0x7fff_fff0, 0x0fff_ffff, 42, 1 << 30];
    for &item in items.iter() {
        trie.insert(item, |n| nibble(item, n), nibble);
        assert_eq!(trie.get(|n| nibble(item, n)), Some(item));
    }
    for &item in items.iter() {
        assert_eq!(trie.get(|n| nibble(item, n)), Some(item));
    }
    let mut walked = drain(trie.items());
    walked.sort();
    let mut expected = items.to_vec();
    expected.sort();
    assert_eq!(walked, expected);
}

#[test]
fn the_largest_item_keeps_its_bits() {
    let mut trie = BinTrie::new();
    trie.insert(0x7fff_ffff, |_| 15, |_, _| 15);
    assert_eq!(trie.get(|_| 15), Some(0x7fff_ffff));
    assert_eq!(drain(trie.items()), vec![0x7fff_ffff]);
}

#[test]
fn item_zero_is_an_item() {
    let mut trie = BinTrie::new();
    trie.insert(0, |_| 7, |_, _| 7);
    assert_eq!(trie.get(|_| 7), Some(0));
    assert_eq!(drain(trie.items()), vec![0]);
}

#[test]
fn absent_key_asks_for_one_group() {
    let mut trie = BinTrie::new();
    trie.insert(5, |_| 0, |_, _| 0);
    let mut asked = Vec::new();
    let found = trie.get(|n| {
        asked.push(n);
        1
    });
    assert_eq!(found, None);
    assert_eq!(asked, vec![0]);
}

#[test]
fn leaf_answers_before_the_later_groups() {
    let trie = two_items();
    let mut asked = Vec::new();
    let found = trie.get(|n| {
        asked.push(n);
        if n < 2 {
            groups(5, n)
        } else {
            9
        }
    });
    assert_eq!(found, Some(5));
    assert_eq!(asked, vec![0, 1]);
}

#[test]
fn absent_below_a_child() {
    let trie = two_items();
    assert_eq!(trie.get(|n| if n == 1 { 2 } else { 0 }), None);
    assert_eq!(trie.get(|_| 3), None);
}

#[test]
fn equal_keys_saturate() {
    let mut trie = BinTrie::new_depth(4);
    trie.insert(1, |_| 0, |_, _| 0);
    assert_eq!(trie.node_count(), 1);
    trie.insert(2, |_| 0, |_, _| 0);
    assert_eq!(trie.get(|_| 0), Some(1));
    assert_eq!(drain(trie.items()), vec![1]);
    assert_eq!(trie.node_count(), 4);
    trie.insert(3, |_| 0, |_, _| 0);
    assert_eq!(trie.get(|_| 0), Some(1));
    assert_eq!(drain(trie.items()), vec![1]);
    assert_eq!(trie.node_count(), 4);
}

#[test]
fn depth_one_fills_the_root_only() {
    let mut trie = BinTrie::new_depth(1);
    trie.insert(1, |_| 4, |_, _| 4);
    trie.insert(2, |_| 4, |_, _| 4);
    trie.insert(3, |_| 5, |n, _| if n == 3 { 5 } else { 4 });
    assert_eq!(trie.node_count(), 1);
    assert_eq!(drain(trie.items()), vec![1, 3]);
    assert_eq!(trie.get(|_| 4), Some(1));
    assert_eq!(trie.get(|_| 5), Some(3));
}

#[test]
fn collision_adds_a_node_for_each_shared_group() {
    for shared in 0u32..7 {
        let mut trie = BinTrie::new_depth(8);
        let first = |_: u32| 0usize;
        let second = move |n: u32| if n == shared { 1usize } else { 0usize };
        let lookup = move |item: u32, n: u32| if item == 2 && n == shared { 1usize } else { 0usize };
        trie.insert(1, first, lookup);
        assert_eq!(trie.node_count(), 1);
        trie.insert(2, second, lookup);
        assert_eq!(trie.node_count() as u32, shared + 1);
        assert_eq!(trie.get(first), Some(1));
        assert_eq!(trie.get(second), Some(2));
        assert_eq!(drain(trie.items()), vec![1, 2]);
    }
}

#[test]
fn collision_at_the_last_group() {
    let mut trie = BinTrie::new_depth(3);
    let lookup = |item: u32, n: u32| if item == 2 && n == 2 { 9usize } else { 3usize };
    trie.insert(1, |n| lookup(1, n), lookup);
    trie.insert(2, |n| lookup(2, n), lookup);
    assert_eq!(trie.node_count(), 3);
    assert_eq!(drain(trie.items()), vec![1, 2]);
    assert_eq!(trie.get(|n| lookup(1, n)), Some(1));
    assert_eq!(trie.get(|n| lookup(2, n)), Some(2));
}

#[test]
fn items_come_in_slot_order() {
    let mut trie = BinTrie::new_depth(8);
    let nibble = |item: u32, n: u32| ((item >> (4 * n)) & 0xf) as usize;
    for item in [0x5u32, 0x3, 0x13, 0x23, 0xf, 0x1] {
        trie.insert(item, |n| nibble(item, n), nibble);
    }
    assert_eq!(drain(trie.items()), vec![0x1, 0x3, 0x13, 0x23, 0x5, 0xf]);
}

#[test]
fn walk_stays_over() {
    let mut trie = BinTrie::new();
    trie.insert(5, |_| 0, |_, _| 0);
    let mut walk = trie.items();
    assert_eq!(walk.next(), Some(5));
    assert_eq!(walk.next(), None);
    assert_eq!(walk.next(), None);
    let mut guided = trie.explore(FnHeuristic(|_| true));
    assert_eq!(guided.next(), Some(5));
    assert_eq!(guided.next(), None);
    assert_eq!(guided.next(), None);
}

#[test]
fn iter_new_starts_at_the_root() {
    let trie = two_items();
    assert_eq!(drain(Iter::new(&trie)), vec![3, 5]);
    assert_eq!(drain_guided(ExploreIter::new(&trie, FnHeuristic(|n| n == 0))), vec![3]);
}

#[test]
fn clone_is_independent() {
    let mut trie = BinTrie::new();
    trie.insert(5, |_| 0, |_, _| 0);
    let copy = trie.clone();
    trie.insert(6, |_| 1, |_, _| 0);
    assert_eq!(drain(copy.items()), vec![5]);
    assert_eq!(drain(trie.items()), vec![5, 6]);
}

#[test]
fn duplicates_are_kept_apart_by_their_keys() {
    let mut trie = BinTrie::new();
    trie.insert(7, |_| 0, |_, _| 0);
    trie.insert(7, |_| 1, |_, _| 0);
    assert_eq!(drain(trie.items()), vec![7, 7]);
    assert_eq!(trie.get(|_| 0), Some(7));
    assert_eq!(trie.get(|_| 1), Some(7));
}
