use bintrie::{BinTrie, ExploreIter, FnHeuristic, Heuristic, Iter, FANOUT, HIGH};

fn walk(mut iter: Iter<'_>) -> Vec<u32> {
    let mut out = Vec::new();
    while let Some(item) = iter.next() {
        out.push(item);
    }
    out
}

fn guided<H: Heuristic>(mut iter: ExploreIter<'_, H>) -> Vec<u32> {
    let mut out = Vec::new();
    while let Some(item) = iter.next() {
        out.push(item);
    }
    out
}

/// The `n`th group of four bits of `item`, lowest first.
fn nibble(item: u32, n: u32) -> usize {
    ((item >> (4 * n)) & 0xf) as usize
}

/// A few hundred items spread over the 31 bits.
fn many_items() -> Vec<u32> {
    let mut items = Vec::new();
    let mut x: u32 = 12345;
    for _ in 0..500 {
        x = x.wrapping_mul(1_103_515_245).wrapping_add(12_345);
        items.push(x & (HIGH - 1));
    }
    items.sort();
    items.dedup();
    items
}

fn filled() -> (BinTrie, Vec<u32>) {
    let items = many_items();
    let mut trie = BinTrie::new_depth(8);
    for &item in items.iter() {
        trie.insert(item, |n| nibble(item, n), nibble);
    }
    (trie, items)
}

#[test]
fn constants_of_the_encoding() {
    assert_eq!(FANOUT, 16);
    assert_eq!(HIGH, 0x8000_0000);
}

#[test]
fn every_inserted_item_is_found() {
    let (trie, items) = filled();
    for &item in items.iter() {
        assert_eq!(trie.get(|n| nibble(item, n)), Some(item));
    }
}

#[test]
fn items_not_inserted_are_not_found() {
    let (trie, items) = filled();
    let mut x: u32 = 777;
    let mut probed = 0;
    while probed < 200 {
        x = x.wrapping_mul(1_664_525).wrapping_add(1_013_904_223);
        let absent = x & (HIGH - 1);
        if items.binary_search(&absent).is_err() {
            assert_ne!(trie.get(|n| nibble(absent, n)), Some(absent));
            probed += 1;
        }
    }
}

#[test]
fn the_walk_holds_each_inserted_item_once() {
    let (trie, items) = filled();
    let mut walked = walk(trie.items());
    walked.sort();
    assert_eq!(walked, items);
}

#[test]
fn what_the_walk_yields_is_found() {
    let (trie, _) = filled();
    for item in walk(trie.items()) {
        assert_eq!(trie.get(|n| nibble(item, n)), Some(item));
    }
}

#[test]
fn the_walk_is_ordered_by_groups() {
    let (trie, _) = filled();
    let walked = walk(trie.items());
    let path = |item: u32| (0..8).map(|n| nibble(item, n)).collect::<Vec<usize>>();
    for pair in walked.windows(2) {
        assert!(path(pair[0]) < path(pair[1]));
    }
}

#[test]
fn a_predicate_that_accepts_all_prunes_nothing() {
    let (trie, _) = filled();
    assert_eq!(guided(trie.explore(FnHeuristic(|_| true))), walk(trie.items()));
}

/// Names every slot once, rotated by the level of the node.
#[derive(Clone)]
struct Rotating {
    level: usize,
}

impl Heuristic for Rotating {
    fn candidates(&self) -> Vec<usize> {
        (0..FANOUT).map(|n| (n + self.level) % FANOUT).collect()
    }

    fn enter(&self, _choice: usize) -> Self {
        Rotating { level: self.level + 1 }
    }
}

#[test]
fn any_order_of_all_slots_yields_the_same_items() {
    let (trie, items) = filled();
    let mut yielded = guided(trie.explore(Rotating { level: 3 }));
    assert_ne!(yielded, walk(trie.items()));
    yielded.sort();
    assert_eq!(yielded, items);
}

#[test]
fn a_predicate_selects_by_every_group() {
    let (trie, items) = filled();
    let low = guided(trie.explore(FnHeuristic(|n| n < 8)));
    let expected: Vec<u32> = walk(trie.items())
        .into_iter()
        .filter(|&item| {
            let stop = (0..8).find(|&n| {
                let prefix = |other: u32| (0..=n).all(|g| nibble(other, g) == nibble(item, g));
                items.iter().filter(|&&other| prefix(other)).count() == 1
            });
            (0..=stop.unwrap()).all(|g| nibble(item, g) < 8)
        })
        .collect();
    assert_eq!(low, expected);
    assert!(!low.is_empty());
    assert!(low.len() < items.len());
}

/// Visits one slot at the root and everything below it.
#[derive(Clone)]
struct Below {
    slot: usize,
    inside: bool,
}

impl Heuristic for Below {
    fn candidates(&self) -> Vec<usize> {
        if self.inside {
            (0..FANOUT).collect()
        } else {
            vec![self.slot]
        }
    }

    fn enter(&self, _choice: usize) -> Self {
        Below { slot: self.slot, inside: true }
    }
}

#[test]
fn a_heuristic_can_walk_one_subtree() {
    let (trie, items) = filled();
    for slot in 0..FANOUT {
        let mut yielded = guided(trie.explore(Below { slot, inside: false }));
        yielded.sort();
        let expected: Vec<u32> = items.iter().copied().filter(|&item| nibble(item, 0) == slot).collect();
        assert_eq!(yielded, expected);
    }
}

/// Names one slot twice.
#[derive(Clone)]
struct Twice;

impl Heuristic for Twice {
    fn candidates(&self) -> Vec<usize> {
        vec![2, 2]
    }

    fn enter(&self, _choice: usize) -> Self {
        Twice
    }
}

#[test]
fn a_candidate_may_come_twice() {
    let mut trie = BinTrie::new();
    trie.insert(4, |_| 2, |_, _| 2);
    assert_eq!(guided(trie.explore(Twice)), vec![4, 4]);
}

#[test]
fn inserting_an_item_again_costs_nodes_and_changes_no_answer() {
    let mut trie = BinTrie::new_depth(5);
    trie.insert(9, |_| 2, |_, _| 2);
    assert_eq!(trie.node_count(), 1);
    trie.insert(9, |_| 2, |_, _| 2);
    assert_eq!(trie.node_count(), 5);
    assert_eq!(trie.get(|_| 2), Some(9));
    assert_eq!(walk(trie.items()), vec![9]);
    trie.insert(9, |_| 2, |_, _| 2);
    assert_eq!(trie.node_count(), 5);
    assert_eq!(trie.get(|_| 2), Some(9));
    assert_eq!(walk(trie.items()), vec![9]);
}

#[test]
fn a_second_insertion_parts_from_a_moved_item() {
    // After the collision below, item 1 sits in a node of its own at the
    // second level; item 3 then parts from it at the third group.
    let groups = |item: u32, n: u32| -> usize {
        match (item, n) {
            (2, 1) => 7,
            (3, 2) => 5,
            _ => 0,
        }
    };
    let mut trie = BinTrie::new_depth(6);
    trie.insert(1, |n| groups(1, n), groups);
    trie.insert(2, |n| groups(2, n), groups);
    assert_eq!(trie.node_count(), 2);
    trie.insert(3, |n| groups(3, n), groups);
    assert_eq!(trie.node_count(), 3);
    assert_eq!(walk(trie.items()), vec![1, 3, 2]);
    for item in [1, 2, 3] {
        assert_eq!(trie.get(|n| groups(item, n)), Some(item));
    }
}

#[test]
fn the_last_group_takes_no_second_item() {
    let mut trie = BinTrie::new_depth(2);
    let groups = |item: u32, n: u32| -> usize {
        match (item, n) {
            (11, 1) => 3,
            _ => 1,
        }
    };
    trie.insert(10, |n| groups(10, n), groups);
    trie.insert(11, |n| groups(11, n), groups);
    trie.insert(12, |n| groups(12, n), groups);
    assert_eq!(trie.node_count(), 2);
    assert_eq!(walk(trie.items()), vec![10, 11]);
    assert_eq!(trie.get(|n| groups(12, n)), Some(10));
    assert_eq!(trie.get(|n| groups(11, n)), Some(11));
}

#[test]
fn insertion_asks_the_key_group_by_group() {
    let mut trie = BinTrie::new();
    let mut asked = Vec::new();
    trie.insert(
        1,
        |n| {
            asked.push(n);
            0
        },
        |_, _| 0,
    );
    assert_eq!(asked, vec![0]);
    let mut asked = Vec::new();
    let mut looked = Vec::new();
    trie.insert(
        2,
        |n| {
            asked.push(n);
            if n == 2 {
                1
            } else {
                0
            }
        },
        |item, n| {
            looked.push((item, n));
            0
        },
    );
    assert_eq!(asked, vec![0, 1, 2]);
    assert_eq!(looked, vec![(1, 1), (1, 2)]);
    assert_eq!(trie.node_count(), 3);
}

#[test]
fn node_count_grows_by_less_than_the_depth() {
    let mut trie = BinTrie::new_depth(7);
    trie.insert(1, |_| 0, |_, _| 0);
    let before = trie.node_count();
    trie.insert(2, |_| 0, |_, _| 0);
    assert_eq!(trie.node_count() - before, 6);
}
