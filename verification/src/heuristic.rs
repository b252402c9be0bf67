//! Heuristics that guide a walk through a trie.

use vstd::prelude::*;
use crate::model::FANOUT;

verus! {

/// A policy that says, node by node, which slots a walk visits.
///
/// A heuristic value is the state of the policy at one node. It names the
/// slots worth visiting there, in the order in which to visit them, and for
/// each of them gives the state to use in the child that hangs at that slot.
/// Entering a child leaves the state of the parent as it was, so the walk can
/// go on with the parent's remaining candidates afterwards.
pub trait Heuristic: Sized {
    /// Whether this state may be used: what `candidates` and `enter` need in
    /// order to keep their promises. Unless an implementation says otherwise,
    /// every state may be used.
    open spec fn valid(&self) -> bool {
        true
    }

    /// The slots to visit at the current node, in visiting order. Unless an
    /// implementation says otherwise, there are none.
    open spec fn spec_candidates(&self) -> Seq<usize> {
        Seq::empty()
    }

    /// The state for the child at slot `choice`. Unless an implementation
    /// says otherwise, it is the state of the parent.
    open spec fn spec_enter(&self, choice: usize) -> Self {
        *self
    }

    /// Returns the slots to visit at the current node. Each is a slot of a
    /// node, that is below sixteen.
    fn candidates(&self) -> (c: Vec<usize>)
        requires
            self.valid(),
        ensures
            c@ == self.spec_candidates(),
            forall|i: int| 0 <= i < c@.len() ==> c@[i] < FANOUT,
    ;

    /// Returns the state for the child at slot `choice`.
    fn enter(&self, choice: usize) -> (next: Self)
        requires
            self.valid(),
            choice < FANOUT,
        ensures
            next == self.spec_enter(choice),
            next.valid(),
    ;
}

/// Whether the predicate accepts slot `n`.
pub open spec fn accepts<F: Fn(usize) -> bool>(f: F, n: usize) -> bool {
    call_ensures(f, (n,), true)
}

/// The slots `from..16` that the predicate accepts, in ascending order.
pub open spec fn accepted<F: Fn(usize) -> bool>(f: F, from: int) -> Seq<usize>
    decreases FANOUT - from,
{
    if 0 <= from < FANOUT {
        let here = if accepts(f, from as usize) {
            seq![from as usize]
        } else {
            Seq::empty()
        };
        here + accepted(f, from + 1)
    } else {
        Seq::empty()
    }
}

/// Adapter that lets a predicate on slots serve as a heuristic: at every
/// node the walk visits the slots that the predicate accepts, in ascending
/// order, and a child is entered with the same predicate.
pub struct FnHeuristic<F>(pub F);

impl<F: Fn(usize) -> bool + Copy> FnHeuristic<F> {
    /// Makes a heuristic of a predicate that can be asked about every slot
    /// and gives one answer for each.
    pub fn new(predicate: F) -> (heuristic: Self)
        requires
            forall|n: usize|
                #![trigger call_requires(predicate, (n,))]
                n < FANOUT ==> call_requires(predicate, (n,)) && !(call_ensures(
                    predicate,
                    (n,),
                    true,
                ) && call_ensures(predicate, (n,), false)),
        ensures
            heuristic == FnHeuristic(predicate),
            heuristic.valid(),
            heuristic.spec_candidates() == accepted(predicate, 0),
    {
        FnHeuristic(predicate)
    }
}

/// What the adapter is for a given predicate: it is valid where the
/// predicate can be asked about every slot and gives one answer for each, it
/// names the slots that the predicate accepts, and it enters every child
/// unchanged.
pub proof fn lemma_fn_heuristic<F: Fn(usize) -> bool + Copy>(f: F)
    ensures
        FnHeuristic(f).valid() ==> (forall|n: usize|
            #![trigger call_requires(f, (n,))]
            n < FANOUT ==> call_requires(f, (n,)) && !(call_ensures(f, (n,), true)
                && call_ensures(f, (n,), false))),
        (forall|n: usize|
            #![trigger call_requires(f, (n,))]
            n < FANOUT ==> call_requires(f, (n,)) && !(call_ensures(f, (n,), true)
                && call_ensures(f, (n,), false))) ==> FnHeuristic(f).valid(),
        FnHeuristic(f).spec_candidates() == accepted(f, 0),
        forall|choice: usize| #[trigger] FnHeuristic(f).spec_enter(choice) == FnHeuristic(f),
{
    let h = FnHeuristic(f);
    if h.valid() {
        assert forall|n: usize| #![trigger call_requires(f, (n,))] n < FANOUT implies call_requires(
            f,
            (n,),
        ) && !(call_ensures(f, (n,), true) && call_ensures(f, (n,), false)) by {
            assert(call_requires(h.0, (n,)));
        }
    }
}

impl<F: Fn(usize) -> bool + Copy> Heuristic for FnHeuristic<F> {
    /// The predicate can be asked about every slot and gives one answer for
    /// each.
    open spec fn valid(&self) -> bool {
        forall|n: usize|
            #![trigger call_requires(self.0, (n,))]
            n < FANOUT ==> call_requires(self.0, (n,)) && !(call_ensures(self.0, (n,), true)
                && call_ensures(self.0, (n,), false))
    }

    open spec fn spec_candidates(&self) -> Seq<usize> {
        accepted(self.0, 0)
    }

    open spec fn spec_enter(&self, choice: usize) -> Self {
        *self
    }

    fn candidates(&self) -> (c: Vec<usize>) {
        let mut c: Vec<usize> = Vec::new();
        let mut n: usize = 0;
        while n < FANOUT
            invariant
                n <= FANOUT,
                self.valid(),
                c@ + accepted(self.0, n as int) == accepted(self.0, 0),
                forall|i: int| 0 <= i < c@.len() ==> c@[i] < FANOUT,
            decreases FANOUT - n,
        {
            let ghost before = c@;
            let keep: bool = (self.0)(n);
            if keep {
                c.push(n);
            }
            proof {
                assert(call_requires(self.0, (n,)));
                assert(keep == accepts(self.0, n));
                let here = if keep {
                    seq![n]
                } else {
                    Seq::empty()
                };
                assert(accepted(self.0, n as int) =~= here + accepted(self.0, n as int + 1));
                assert(c@ =~= before + here);
                assert(c@ + accepted(self.0, n as int + 1) =~= before + accepted(self.0, n as int));
            }
            n = n + 1;
        }
        proof {
            assert(c@ + accepted(self.0, FANOUT as int) =~= c@);
        }
        c
    }

    fn enter(&self, choice: usize) -> (next: Self) {
        FnHeuristic(self.0)
    }
}

/// The slots of a node in ascending order.
pub open spec fn all_slots() -> Seq<usize> {
    Seq::new(FANOUT as nat, |i: int| i as usize)
}

/// The state that a heuristic has after entering the slots of `path` one
/// after the other.
pub open spec fn descend<H: Heuristic>(h: H, path: Seq<usize>) -> H
    decreases path.len(),
{
    if path.len() == 0 {
        h
    } else {
        descend(h.spec_enter(path[0]), path.drop_first())
    }
}

/// The heuristic names every slot, in ascending order, at every node.
pub open spec fn exhaustive<H: Heuristic>(h: H) -> bool {
    forall|path: Seq<usize>| #[trigger] descend(h, path).spec_candidates() == all_slots()
}

/// The heuristic names every slot exactly once, in whatever order, at every
/// node.
pub open spec fn covering<H: Heuristic>(h: H) -> bool {
    forall|path: Seq<usize>| #[trigger]
        descend(h, path).spec_candidates().to_multiset() == all_slots().to_multiset()
}

/// A predicate that accepts every slot accepts the slots `from..16`, in
/// ascending order.
proof fn lemma_accepted_all<F: Fn(usize) -> bool>(f: F, from: int)
    requires
        0 <= from <= FANOUT,
        forall|n: usize| n < FANOUT ==> accepts(f, n),
    ensures
        accepted(f, from) == all_slots().skip(from),
    decreases FANOUT - from,
{
    if from < FANOUT {
        lemma_accepted_all(f, from + 1);
        assert(accepts(f, from as usize));
        assert(accepted(f, from) =~= all_slots().skip(from));
    } else {
        assert(accepted(f, from) =~= all_slots().skip(from));
    }
}

/// The adapter stays the same whatever path is entered.
proof fn lemma_descend_fn<F: Fn(usize) -> bool + Copy>(f: F, path: Seq<usize>)
    ensures
        descend(FnHeuristic(f), path) == FnHeuristic(f),
    decreases path.len(),
{
    if path.len() > 0 {
        lemma_descend_fn(f, path.drop_first());
    }
}

/// A predicate that accepts every slot makes a heuristic that names every
/// slot, in ascending order, at every node.
pub proof fn lemma_accept_all_exhaustive<F: Fn(usize) -> bool + Copy>(f: F)
    requires
        forall|n: usize| n < FANOUT ==> accepts(f, n),
    ensures
        exhaustive(FnHeuristic(f)),
{
    lemma_accepted_all(f, 0);
    assert(all_slots().skip(0) =~= all_slots());
    assert forall|path: Seq<usize>| #[trigger]
        descend(FnHeuristic(f), path).spec_candidates() == all_slots() by {
        lemma_descend_fn(f, path);
    }
}

} // verus!
