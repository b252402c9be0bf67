//! Lazy walks through a trie, each with an explicit stack of the nodes that
//! are still open.

use vstd::prelude::*;
use crate::BinTrie;
use crate::heuristic::Heuristic;
use crate::model::{Slot, FANOUT, HIGH, node_items, slot_items, guided_items, guided_slot};
use crate::node::{arena_of, is_ref, item_of, lemma_arena_of, lemma_tag, linked, node_of, raw, slot_of};

verus! {

/// Steps that a walk still takes at `node` from slot `from` on: one for each
/// slot, those of the children below them, and one to leave the node.
pub(crate) open spec fn effort(node: Seq<Slot>, from: int) -> nat
    decreases node, node.len() - from,
{
    if 0 <= from < node.len() {
        let below = match node[from] {
            Slot::Branch(c) => effort(c, 0),
            _ => 0,
        };
        1 + below + effort(node, from + 1)
    } else {
        1
    }
}

/// Items that the open nodes of a walk still yield, the innermost node, which
/// is the last of the stack, first.
pub(crate) open spec fn pending(cells: Seq<Seq<u32>>, stack: Seq<(usize, usize)>) -> Seq<u32>
    decreases stack.len(),
{
    if stack.len() == 0 {
        Seq::empty()
    } else {
        node_items(node_of(cells, stack.last().0 as int), stack.last().1 as int) + pending(
            cells,
            stack.drop_last(),
        )
    }
}

/// Steps that the open nodes of a walk still take.
pub(crate) open spec fn pending_effort(cells: Seq<Seq<u32>>, stack: Seq<(usize, usize)>) -> nat
    decreases stack.len(),
{
    if stack.len() == 0 {
        0
    } else {
        effort(node_of(cells, stack.last().0 as int), stack.last().1 as int) + pending_effort(
            cells,
            stack.drop_last(),
        )
    }
}

/// What one more open node adds to the items and the steps that are left.
proof fn lemma_pending_push(cells: Seq<Seq<u32>>, stack: Seq<(usize, usize)>, top: (usize, usize))
    ensures
        pending(cells, stack.push(top)) == node_items(node_of(cells, top.0 as int), top.1 as int)
            + pending(cells, stack),
        pending_effort(cells, stack.push(top)) == effort(
            node_of(cells, top.0 as int),
            top.1 as int,
        ) + pending_effort(cells, stack),
{
    assert(stack.push(top).drop_last() =~= stack);
}

/// A walk over every item of a trie: depth first, the slots of a node in
/// ascending order.
pub struct Iter<'a> {
    trie: &'a BinTrie,
    /// The open nodes, each with the slot to visit next, innermost last.
    indices: Vec<(usize, usize)>,
}

impl<'a> Iter<'a> {
    /// The trie is well formed and every open node is a node of it.
    pub closed spec fn wf(&self) -> bool {
        &&& self.trie.wf()
        &&& forall|i: int|
            0 <= i < self.indices@.len() ==> (#[trigger] self.indices@[i]).0
                < self.trie.internals@.len() && self.indices@[i].1 <= FANOUT
    }

    /// The trie that is walked.
    pub closed spec fn trie(&self) -> BinTrie {
        *self.trie
    }

    /// The items that the walk has yet to yield, in order.
    pub closed spec fn remaining(&self) -> Seq<u32> {
        pending(raw(self.trie.internals@), self.indices@)
    }

    /// Starts a walk at the root of `trie`.
    pub fn new(trie: &'a BinTrie) -> (iter: Iter<'a>)
        requires
            trie.wf(),
        ensures
            iter.wf(),
            iter.trie() == *trie,
            iter.remaining() == trie@.items(),
    {
        let mut indices: Vec<(usize, usize)> = Vec::new();
        indices.push((0, 0));
        let iter = Iter { trie, indices };
        proof {
            trie.lemma_open();
            let cells = raw(trie.internals@);
            lemma_pending_push(cells, Seq::empty(), (0usize, 0usize));
            assert(iter.indices@ =~= Seq::<(usize, usize)>::empty().push((0usize, 0usize)));
            assert(pending(cells, Seq::empty()) =~= Seq::<u32>::empty());
            assert(iter.remaining() =~= trie@.items());
        }
        iter
    }

    /// Yields the next item, or `None` when the walk is over. Once it is
    /// over it stays over.
    pub fn next(&mut self) -> (item: Option<u32>)
        requires
            old(self).wf(),
        ensures
            final(self).wf(),
            final(self).trie() == old(self).trie(),
            match item {
                Some(x) => old(self).remaining().len() > 0 && x == old(self).remaining().first()
                    && final(self).remaining() == old(self).remaining().drop_first(),
                None => old(self).remaining().len() == 0 && final(self).remaining().len() == 0,
            },
    {
        let ghost cells = raw(self.trie.internals@);
        let ghost depth = self.trie.depth as int;
        proof {
            self.trie.lemma_open();
            lemma_arena_of(cells, depth);
        }
        loop
            invariant
                self.wf(),
                self.trie == old(self).trie,
                cells == raw(self.trie.internals@),
                linked(arena_of(cells, depth)),
                self.remaining() == old(self).remaining(),
            decreases pending_effort(cells, self.indices@),
        {
            let ghost stack = self.indices@;
            let (node, slot): (usize, usize) = match self.indices.pop() {
                Some(top) => top,
                None => {
                    return None;
                },
            };
            let ghost rest = self.indices@;
            proof {
                assert(rest == stack.drop_last());
                assert(stack.last() == (node, slot));
                assert forall|i: int| 0 <= i < rest.len() implies (#[trigger] rest[i]).0
                    < self.trie.internals@.len() && rest[i].1 <= FANOUT by {
                    assert(rest[i] == stack[i]);
                }
            }
            if slot < 16 {
                let v: u32 = self.trie.internals[node].0[slot];
                self.indices.push((node, slot + 1));
                proof {
                    lemma_tag(v);
                    lemma_pending_push(cells, rest, (node, (slot + 1) as usize));
                    assert(cells[node as int][slot as int] == v);
                    assert(node_of(cells, node as int)[slot as int] == slot_of(
                        cells,
                        node as int,
                        slot as int,
                    ));
                }
                if v == 0 {
                    proof {
                        let here = node_items(node_of(cells, node as int), slot as int);
                        let after = node_items(node_of(cells, node as int), slot + 1);
                        assert(here == slot_items(node_of(cells, node as int)[slot as int])
                            + after);
                        assert(slot_items(Slot::Empty) =~= Seq::<u32>::empty());
                        assert(here =~= after);
                        assert(self.remaining() =~= old(self).remaining());
                    }
                } else if v & HIGH != 0 {
                    proof {
                        let here = node_items(node_of(cells, node as int), slot as int);
                        let after = node_items(node_of(cells, node as int), slot + 1);
                        assert(here == slot_items(node_of(cells, node as int)[slot as int])
                            + after);
                        assert(slot_items(Slot::Leaf(item_of(v))) =~= seq![item_of(v)]);
                        assert(here =~= seq![item_of(v)] + after);
                        assert(old(self).remaining() =~= seq![item_of(v)] + self.remaining());
                        assert(self.remaining() =~= old(self).remaining().drop_first());
                    }
                    return Some(v & !HIGH);
                } else {
                    let ghost open = self.indices@;
                    self.indices.push((v as usize, 0));
                    proof {
                        assert(is_ref(v));
                        lemma_pending_push(cells, open, (v as usize, 0usize));
                        let here = node_items(node_of(cells, node as int), slot as int);
                        let after = node_items(node_of(cells, node as int), slot + 1);
                        let below = node_items(node_of(cells, v as int), 0);
                        assert(here == slot_items(node_of(cells, node as int)[slot as int])
                            + after);
                        assert(slot_items(Slot::Branch(node_of(cells, v as int))) == below);
                        assert(here =~= below + after);
                        assert(self.remaining() =~= old(self).remaining());
                    }
                }
            } else {
                proof {
                    assert(node_items(node_of(cells, node as int), slot as int) =~= Seq::<
                        u32,
                    >::empty());
                    assert(self.remaining() =~= old(self).remaining());
                }
            }
        }
    }
}

/// Steps that a guided walk still takes at `node` for the candidates
/// `candidates[from..]`.
pub(crate) open spec fn guided_effort<H: Heuristic>(
    node: Seq<Slot>,
    h: H,
    candidates: Seq<usize>,
    from: int,
) -> nat
    decreases node, candidates.len() - from,
{
    if 0 <= from < candidates.len() {
        let choice = candidates[from];
        let below = if choice < node.len() {
            match node[choice as int] {
                Slot::Branch(c) => guided_effort(
                    c,
                    h.spec_enter(choice),
                    h.spec_enter(choice).spec_candidates(),
                    0,
                ),
                _ => 0,
            }
        } else {
            0
        };
        1 + below + guided_effort(node, h, candidates, from + 1)
    } else {
        1
    }
}

/// Items that the open nodes of a guided walk still yield.
pub(crate) open spec fn guided_pending<H: Heuristic>(
    cells: Seq<Seq<u32>>,
    stack: Seq<(usize, H, Vec<usize>, usize)>,
) -> Seq<u32>
    decreases stack.len(),
{
    if stack.len() == 0 {
        Seq::empty()
    } else {
        let top = stack.last();
        guided_items(node_of(cells, top.0 as int), top.1, top.2@, top.3 as int) + guided_pending(
            cells,
            stack.drop_last(),
        )
    }
}

/// Steps that the open nodes of a guided walk still take.
pub(crate) open spec fn guided_pending_effort<H: Heuristic>(
    cells: Seq<Seq<u32>>,
    stack: Seq<(usize, H, Vec<usize>, usize)>,
) -> nat
    decreases stack.len(),
{
    if stack.len() == 0 {
        0
    } else {
        let top = stack.last();
        guided_effort(node_of(cells, top.0 as int), top.1, top.2@, top.3 as int)
            + guided_pending_effort(cells, stack.drop_last())
    }
}

/// What one more open node adds to the items and the steps that are left.
proof fn lemma_guided_push<H: Heuristic>(
    cells: Seq<Seq<u32>>,
    stack: Seq<(usize, H, Vec<usize>, usize)>,
    top: (usize, H, Vec<usize>, usize),
)
    ensures
        guided_pending(cells, stack.push(top)) == guided_items(
            node_of(cells, top.0 as int),
            top.1,
            top.2@,
            top.3 as int,
        ) + guided_pending(cells, stack),
        guided_pending_effort(cells, stack.push(top)) == guided_effort(
            node_of(cells, top.0 as int),
            top.1,
            top.2@,
            top.3 as int,
        ) + guided_pending_effort(cells, stack),
{
    assert(stack.push(top).drop_last() =~= stack);
}

/// A walk through a trie that visits, at every node, the slots that a
/// heuristic names, in the order in which it names them.
pub struct ExploreIter<'a, H: Heuristic> {
    trie: &'a BinTrie,
    /// The open nodes, each with its heuristic state, the candidates of that
    /// state and the position of the candidate to visit next, innermost last.
    indices: Vec<(usize, H, Vec<usize>, usize)>,
}

impl<'a, H: Heuristic> ExploreIter<'a, H> {
    /// The trie is well formed, every open node is a node of it, and every
    /// open node has a valid heuristic state with candidates that are slots.
    pub closed spec fn wf(&self) -> bool {
        &&& self.trie.wf()
        &&& forall|i: int|
            0 <= i < self.indices@.len() ==> {
                let e = #[trigger] self.indices@[i];
                &&& e.0 < self.trie.internals@.len()
                &&& e.1.valid()
                &&& e.3 <= e.2@.len()
                &&& forall|j: int| 0 <= j < e.2@.len() ==> #[trigger] e.2@[j] < FANOUT
            }
    }

    /// The trie that is walked.
    pub closed spec fn trie(&self) -> BinTrie {
        *self.trie
    }

    /// The items that the walk has yet to yield, in order.
    pub closed spec fn remaining(&self) -> Seq<u32> {
        guided_pending(raw(self.trie.internals@), self.indices@)
    }

    /// Starts a walk at the root of `trie` with the heuristic state
    /// `heuristic`.
    pub fn new(trie: &'a BinTrie, heuristic: H) -> (iter: ExploreIter<'a, H>)
        requires
            trie.wf(),
            heuristic.valid(),
        ensures
            iter.wf(),
            iter.trie() == *trie,
            iter.remaining() == trie@.explore(heuristic),
    {
        let candidates: Vec<usize> = heuristic.candidates();
        let mut indices: Vec<(usize, H, Vec<usize>, usize)> = Vec::new();
        let ghost top = (0usize, heuristic, candidates, 0usize);
        indices.push((0, heuristic, candidates, 0));
        let iter = ExploreIter { trie, indices };
        proof {
            trie.lemma_open();
            let cells = raw(trie.internals@);
            let none = Seq::<(usize, H, Vec<usize>, usize)>::empty();
            lemma_guided_push(cells, none, top);
            assert(iter.indices@ =~= none.push(top));
            assert(guided_pending(cells, none) =~= Seq::<u32>::empty());
            assert(iter.remaining() =~= trie@.explore(heuristic));
        }
        iter
    }

    /// Yields the next item, or `None` when the walk is over. Once it is
    /// over it stays over.
    pub fn next(&mut self) -> (item: Option<u32>)
        requires
            old(self).wf(),
        ensures
            final(self).wf(),
            final(self).trie() == old(self).trie(),
            match item {
                Some(x) => old(self).remaining().len() > 0 && x == old(self).remaining().first()
                    && final(self).remaining() == old(self).remaining().drop_first(),
                None => old(self).remaining().len() == 0 && final(self).remaining().len() == 0,
            },
    {
        let ghost cells = raw(self.trie.internals@);
        let ghost depth = self.trie.depth as int;
        proof {
            self.trie.lemma_open();
            lemma_arena_of(cells, depth);
        }
        loop
            invariant
                self.wf(),
                self.trie == old(self).trie,
                cells == raw(self.trie.internals@),
                linked(arena_of(cells, depth)),
                self.remaining() == old(self).remaining(),
            decreases guided_pending_effort(cells, self.indices@),
        {
            let ghost stack = self.indices@;
            let (node, heuristic, candidates, cursor): (usize, H, Vec<usize>, usize) =
                match self.indices.pop() {
                Some(top) => top,
                None => {
                    return None;
                },
            };
            let ghost rest = self.indices@;
            let ghost tree = node_of(cells, node as int);
            proof {
                assert(rest == stack.drop_last());
                assert(stack.last() == (node, heuristic, candidates, cursor));
                assert forall|i: int| 0 <= i < rest.len() implies {
                    let e = #[trigger] rest[i];
                    &&& e.0 < self.trie.internals@.len()
                    &&& e.1.valid()
                    &&& e.3 <= e.2@.len()
                    &&& forall|j: int| 0 <= j < e.2@.len() ==> #[trigger] e.2@[j] < FANOUT
                } by {
                    assert(rest[i] == stack[i]);
                }
            }
            if cursor < candidates.len() {
                let choice: usize = candidates[cursor];
                let v: u32 = self.trie.internals[node].0[choice];
                let ghost here = guided_items(tree, heuristic, candidates@, cursor as int);
                let ghost after = guided_items(tree, heuristic, candidates@, cursor + 1);
                proof {
                    lemma_tag(v);
                    assert(cells[node as int][choice as int] == v);
                    assert(tree[choice as int] == slot_of(cells, node as int, choice as int));
                    assert(here == guided_slot(tree[choice as int], heuristic, choice) + after);
                }
                if v != 0 && v & HIGH == 0 {
                    let inner: H = heuristic.enter(choice);
                    let inner_candidates: Vec<usize> = inner.candidates();
                    let ghost back = (node, heuristic, candidates, (cursor + 1) as usize);
                    let ghost top = (v as usize, inner, inner_candidates, 0usize);
                    self.indices.push((node, heuristic, candidates, cursor + 1));
                    let ghost open = self.indices@;
                    self.indices.push((v as usize, inner, inner_candidates, 0));
                    proof {
                        assert(is_ref(v));
                        lemma_guided_push(cells, rest, back);
                        lemma_guided_push(cells, open, top);
                        let below = guided_items(
                            node_of(cells, v as int),
                            inner,
                            inner_candidates@,
                            0,
                        );
                        assert(here =~= below + after);
                        assert(self.remaining() =~= old(self).remaining());
                    }
                } else {
                    let ghost back = (node, heuristic, candidates, (cursor + 1) as usize);
                    self.indices.push((node, heuristic, candidates, cursor + 1));
                    proof {
                        lemma_guided_push(cells, rest, back);
                    }
                    if v != 0 {
                        proof {
                            assert(here =~= seq![item_of(v)] + after);
                            assert(old(self).remaining() =~= seq![item_of(v)] + self.remaining());
                            assert(self.remaining() =~= old(self).remaining().drop_first());
                        }
                        return Some(v & !HIGH);
                    } else {
                        proof {
                            assert(here =~= after);
                            assert(self.remaining() =~= old(self).remaining());
                        }
                    }
                }
            } else {
                proof {
                    assert(guided_items(tree, heuristic, candidates@, cursor as int) =~= Seq::<
                        u32,
                    >::empty());
                    assert(self.remaining() =~= old(self).remaining());
                }
            }
        }
    }
}

} // verus!
