//! A priority queue made of binomial trees, at most one of each rank.

use crate::tree::binomial::joined;
use crate::tree::binomial::BinomialTree;
use crate::util::order::lemma_total_order;
use crate::util::order::total_order;
use vstd::multiset::Multiset;
use vstd::prelude::*;
use vstd::string::StringExecFns;

verus! {

broadcast use vstd::multiset::group_multiset_axioms;

/// What a tree holds, and nothing for no tree.
pub open spec fn slot_items<T: Ord>(slot: Option<BinomialTree<T>>) -> Multiset<T> {
    match slot {
        Some(tree) => tree.items(),
        None => Multiset::empty(),
    }
}

/// What the trees of `roots` hold together.
pub open spec fn forest_items<T: Ord>(roots: Seq<Option<BinomialTree<T>>>) -> Multiset<T>
    decreases roots.len(),
{
    if roots.len() == 0 {
        Multiset::empty()
    } else {
        forest_items(roots.drop_last()).add(slot_items(roots.last()))
    }
}

/// A forest with one more slot holds what that slot holds besides.
pub proof fn lemma_forest_push<T: Ord>(
    roots: Seq<Option<BinomialTree<T>>>,
    slot: Option<BinomialTree<T>>,
)
    ensures
        forest_items(roots.push(slot)) == forest_items(roots).add(slot_items(slot)),
{
    assert(roots.push(slot).drop_last() =~= roots);
}

/// A forest holds what one of its trees holds and what it holds without
/// that tree.
pub proof fn lemma_forest_split<T: Ord>(roots: Seq<Option<BinomialTree<T>>>, at: int)
    requires
        0 <= at < roots.len(),
    ensures
        forest_items(roots) == forest_items(roots.update(at, None)).add(slot_items(roots[at])),
    decreases roots.len(),
{
    let without = roots.update(at, None);
    let none = slot_items::<T>(None);
    assert(none =~= Multiset::<T>::empty());
    if at == roots.len() - 1 {
        assert(without.drop_last() =~= roots.drop_last());
        assert(without.last() == None::<BinomialTree<T>>);
        assert(roots.last() == roots[at]);
        let a = forest_items(roots.drop_last());
        assert(forest_items(without) == a.add(none));
        assert(a.add(slot_items(roots[at])) =~= a.add(none).add(slot_items(roots[at])));
    } else {
        lemma_forest_split(roots.drop_last(), at);
        assert(without.drop_last() =~= roots.drop_last().update(at, None));
        assert(without.last() == roots.last());
        assert(roots.drop_last()[at] == roots[at]);
        let u = forest_items(without.drop_last());
        let l = slot_items(roots.last());
        let y = slot_items(roots[at]);
        assert(forest_items(roots.drop_last()) == u.add(y));
        assert(u.add(y).add(l) =~= u.add(l).add(y));
    }
}

/// A forest with another tree in one slot holds what it held without the
/// tree that was there, and what the new tree holds.
pub proof fn lemma_forest_update<T: Ord>(
    roots: Seq<Option<BinomialTree<T>>>,
    at: int,
    slot: Option<BinomialTree<T>>,
)
    requires
        0 <= at < roots.len(),
    ensures
        forest_items(roots.update(at, slot)) == forest_items(roots.update(at, None)).add(
            slot_items(slot),
        ),
{
    lemma_forest_split(roots.update(at, slot), at);
    assert(roots.update(at, slot).update(at, None) =~= roots.update(at, None));
}

/// A payload of a forest is a payload of one of its trees.
pub proof fn lemma_forest_member<T: Ord>(roots: Seq<Option<BinomialTree<T>>>, item: T) -> (at: int)
    requires
        forest_items(roots).count(item) > 0,
    ensures
        0 <= at < roots.len(),
        roots[at] is Some,
        roots[at].unwrap().items().count(item) > 0,
    decreases roots.len(),
{
    if roots.len() == 0 {
        0
    } else if slot_items(roots.last()).count(item) > 0 {
        roots.len() - 1
    } else {
        let at = lemma_forest_member(roots.drop_last(), item);
        assert(roots.drop_last()[at] == roots[at]);
        at
    }
}

/// A forest holds the payloads of each of its trees.
pub proof fn lemma_forest_holds<T: Ord>(roots: Seq<Option<BinomialTree<T>>>, at: int, item: T)
    requires
        0 <= at < roots.len(),
        slot_items(roots[at]).count(item) > 0,
    ensures
        forest_items(roots).count(item) > 0,
    decreases roots.len(),
{
    if at < roots.len() - 1 {
        lemma_forest_holds(roots.drop_last(), at, item);
    }
}

/// A forest without trees holds nothing.
pub proof fn lemma_forest_empty<T: Ord>(roots: Seq<Option<BinomialTree<T>>>)
    requires
        forall|i: int| 0 <= i < roots.len() ==> (#[trigger] roots[i]) is None,
    ensures
        forest_items(roots) == Multiset::<T>::empty(),
    decreases roots.len(),
{
    if roots.len() > 0 {
        assert(roots.last() == roots[roots.len() - 1]);
        assert forall|i: int| 0 <= i < roots.drop_last().len() implies (
        #[trigger] roots.drop_last()[i]) is None by {
            assert(roots.drop_last()[i] == roots[i]);
        }
        lemma_forest_empty(roots.drop_last());
        assert(forest_items(roots) =~= Multiset::<T>::empty());
    }
}

/// A priority queue: a min heap hands out its smallest payload first, a max
/// heap its largest.
#[derive(Debug)]
pub struct BinomialHeap<T: Ord> {
    roots: Vec<Option<BinomialTree<T>>>,
    candidate_root_index: usize,
    size: usize,
    min: bool,
}

impl<T: Ord> View for BinomialHeap<T> {
    type V = Multiset<T>;

    /// The payloads of the heap.
    closed spec fn view(&self) -> Multiset<T> {
        forest_items(self.roots@)
    }
}

impl<T: Ord> BinomialHeap<T> {
    /// Whether smaller payloads come out first.
    pub closed spec fn spec_is_min(&self) -> bool {
        self.min
    }

    /// The trees of the heap by rank; a rank without a tree holds `None`.
    pub closed spec fn spec_roots(&self) -> Seq<Option<BinomialTree<T>>> {
        self.roots@
    }

    /// There is room for a tree of rank 0, and the tree at each rank is a
    /// well-formed tree of that rank and of the kind of the heap.
    pub closed spec fn shaped(&self) -> bool {
        &&& self.roots@.len() >= 1
        &&& forall|i: int|
            0 <= i < self.roots@.len() ==> ((#[trigger] self.roots@[i]) matches Some(tree)
                ==> tree.well_formed() && tree.spec_rank() == i && tree.spec_is_min() == self.min)
    }

    /// The tree at rank `index` is one whose root may stand above the roots
    /// of all trees of the heap.
    pub closed spec fn best(&self, index: int) -> bool {
        &&& 0 <= index < self.roots@.len()
        &&& self.roots@[index] is Some
        &&& forall|j: int|
            0 <= j < self.roots@.len() ==> ((#[trigger] self.roots@[j]) matches Some(tree)
                ==> BinomialTree::above(
                self.min,
                self.roots@[index].unwrap().spec_payload().unwrap(),
                tree.spec_payload().unwrap(),
            ))
    }

    /// The invariant of the heap: it is shaped as `shaped` says, the size
    /// it keeps is the number of its payloads, and unless it is empty the
    /// tree it points to is one whose root may stand above all others.
    pub closed spec fn well_formed(&self) -> bool {
        &&& self.shaped()
        &&& self.size == self@.len()
        &&& self.size > 0 ==> self.best(self.candidate_root_index as int)
    }

    /// The root of a tree that is `best` may stand above every payload of
    /// the heap, and is one of them.
    proof fn lemma_best_first(&self, index: int, item: T)
        requires
            total_order::<T>(),
            self.shaped(),
            self.best(index),
            self@.count(item) > 0,
        ensures
            BinomialTree::above(
                self.min,
                self.roots@[index].unwrap().spec_payload().unwrap(),
                item,
            ),
            self@.count(self.roots@[index].unwrap().spec_payload().unwrap()) > 0,
    {
        lemma_total_order::<T>();
        let at = lemma_forest_member(self.roots@, item);
        let tree = self.roots@[at].unwrap();
        tree.lemma_root_first(item);
        let top = self.roots@[index].unwrap();
        top.lemma_items_some();
        lemma_forest_holds(self.roots@, index, top.spec_payload().unwrap());
    }

    /// A heap with one payload.
    fn init(payload: T, min: bool) -> (r: BinomialHeap<T>)
        ensures
            r.well_formed(),
            r@ == Multiset::<T>::empty().insert(payload),
            r.spec_is_min() == min,
            r.spec_roots().len() == 1,
    {
        let tree = BinomialTree::init(payload, min);
        proof {
            tree.lemma_single_well_formed();
            tree.lemma_items();
        }
        let root = Some(tree);
        let mut roots = Vec::new();
        roots.push(root);
        let r = BinomialHeap { roots, size: 1, candidate_root_index: 0, min };
        proof {
            let s = r.roots@;
            assert(s.drop_last() =~= Seq::empty());
            assert(s.last() == Some(tree));
            assert(forest_items(s.drop_last()) =~= Multiset::<T>::empty());
            assert(tree.items() =~= Multiset::<T>::empty().insert(payload));
            assert(r@ =~= Multiset::<T>::empty().insert(payload));
            assert(r@.len() == 1);
            lemma_total_order_reflexive::<T>(payload);
        }
        r
    }

    /// A min heap with one payload.
    pub fn init_min(payload: T) -> (r: BinomialHeap<T>)
        ensures
            r.well_formed(),
            r@ == Multiset::<T>::empty().insert(payload),
            r.spec_is_min(),
    {
        BinomialHeap::init(payload, true)
    }

    /// A max heap with one payload.
    pub fn init_max(payload: T) -> (r: BinomialHeap<T>)
        ensures
            r.well_formed(),
            r@ == Multiset::<T>::empty().insert(payload),
            !r.spec_is_min(),
    {
        BinomialHeap::init(payload, false)
    }

    /// One heap with the payloads of two heaps of one kind.
    pub fn merge(binomial_heap_1: BinomialHeap<T>, binomial_heap_2: BinomialHeap<T>) -> (r:
        BinomialHeap<T>)
        requires
            total_order::<T>(),
            binomial_heap_1.well_formed(),
            binomial_heap_2.well_formed(),
            binomial_heap_1.spec_is_min() == binomial_heap_2.spec_is_min(),
            binomial_heap_1@.len() + binomial_heap_2@.len() <= usize::MAX,
        ensures
            r.well_formed(),
            r@ == binomial_heap_1@.add(binomial_heap_2@),
            r.spec_is_min() == binomial_heap_1.spec_is_min(),
    {
        if binomial_heap_1.max_tree_rank() <= binomial_heap_2.max_tree_rank() {
            BinomialHeap::_merge(binomial_heap_1, binomial_heap_2)
        } else {
            let r = BinomialHeap::_merge(binomial_heap_2, binomial_heap_1);
            proof {
                assert(binomial_heap_2@.add(binomial_heap_1@) =~= binomial_heap_1@.add(
                    binomial_heap_2@,
                ));
            }
            r
        }
    }

    /// Moves the trees of the first heap, which has no more ranks than the
    /// second, into the second.
    fn _merge(binomial_heap_1: BinomialHeap<T>, binomial_heap_2: BinomialHeap<T>) -> (r:
        BinomialHeap<T>)
        requires
            total_order::<T>(),
            binomial_heap_1.well_formed(),
            binomial_heap_2.well_formed(),
            binomial_heap_1.spec_is_min() == binomial_heap_2.spec_is_min(),
            binomial_heap_1@.len() + binomial_heap_2@.len() <= usize::MAX,
            binomial_heap_1.spec_roots().len() <= binomial_heap_2.spec_roots().len(),
        ensures
            r.well_formed(),
            r@ == binomial_heap_1@.add(binomial_heap_2@),
            r.spec_is_min() == binomial_heap_2.spec_is_min(),
    {
        let mut binomial_heap_1 = binomial_heap_1;
        let mut binomial_heap_2 = binomial_heap_2;
        let ghost first = binomial_heap_1;
        let ghost second = binomial_heap_2;
        binomial_heap_2.set_size(binomial_heap_2.size() + binomial_heap_1.size());
        let ranks = binomial_heap_1.max_tree_rank();
        let mut i: usize = 0;
        while i < ranks
            invariant
                total_order::<T>(),
                i <= ranks,
                ranks == binomial_heap_1.roots@.len(),
                ranks <= binomial_heap_2.roots@.len(),
                binomial_heap_1.min == binomial_heap_2.min,
                binomial_heap_2.min == second.min,
                binomial_heap_2.shaped(),
                binomial_heap_2.size == first@.len() + second@.len(),
                binomial_heap_2@.len() > 0 ==> binomial_heap_2.best(
                    binomial_heap_2.candidate_root_index as int,
                ),
                first.roots@.len() == ranks,
                first.min == binomial_heap_1.min,
                forall|j: int|
                    i <= j < ranks ==> #[trigger] binomial_heap_1.roots@[j] == first.roots@[j],
                forall|j: int| 0 <= j < i ==> (#[trigger] binomial_heap_1.roots@[j]) is None,
                first.shaped(),
                binomial_heap_2@.add(forest_items(binomial_heap_1.roots@)) == first@.add(second@),
            decreases ranks - i,
        {
            let ghost before_1 = binomial_heap_1.roots@;
            let ghost total = first@.add(second@);
            let mut slot: Option<BinomialTree<T>> = None;
            binomial_heap_1.roots.set_and_swap(i, &mut slot);
            let ghost taken = binomial_heap_1.roots@;
            proof {
                lemma_forest_split(before_1, i as int);
                assert(taken =~= before_1.update(i as int, None));
                assert(slot == first.roots@[i as int]);
                assert(binomial_heap_2@.add(forest_items(taken)).add(slot_items(slot)) =~= total);
            }
            match slot {
                Some(binomial_tree) => {
                    let ghost mid = binomial_heap_2@;
                    binomial_heap_2._push(binomial_tree);
                    proof {
                        binomial_tree.lemma_items_some();
                        assert(binomial_heap_2@ =~= mid.add(binomial_tree.items()));
                        assert(binomial_heap_2@.len() > 0);
                        assert(binomial_heap_2@.add(forest_items(taken)) =~= total);
                    }
                },
                None => {
                    proof {
                        assert(slot_items(slot) =~= Multiset::<T>::empty());
                        assert(binomial_heap_2@.add(forest_items(taken)) =~= total);
                    }
                },
            }
            i += 1;
        }
        proof {
            lemma_forest_empty(binomial_heap_1.roots@);
            assert(binomial_heap_2@ =~= first@.add(second@));
            assert(first@.add(second@).len() == first@.len() + second@.len());
            if first@.len() > 0 {
                let some = first@.choose();
                assert(first@.count(some) > 0);
                let at = lemma_forest_member(first.roots@, some);
            }
        }
        binomial_heap_2
    }

    /// Adds `payload` to the heap.
    pub fn push(&mut self, payload: T)
        requires
            total_order::<T>(),
            old(self).well_formed(),
            old(self)@.len() < usize::MAX,
        ensures
            final(self).well_formed(),
            final(self)@ == old(self)@.insert(payload),
            final(self).spec_is_min() == old(self).spec_is_min(),
    {
        let new_node = BinomialTree::init(payload, self.is_min());
        proof {
            new_node.lemma_single_well_formed();
            new_node.lemma_items();
        }
        self._push(new_node);
        self.size += 1;
        proof {
            assert(self@ =~= old(self)@.insert(payload));
        }
    }

    /// Puts the tree `new_node` into the heap: where a tree of its rank is
    /// there, the two are merged and the result goes on to the next rank.
    fn _push(&mut self, new_node: BinomialTree<T>)
        requires
            total_order::<T>(),
            old(self).shaped(),
            new_node.well_formed(),
            new_node.spec_is_min() == old(self).spec_is_min(),
            new_node.spec_rank() < old(self).spec_roots().len(),
        ensures
            final(self).shaped(),
            final(self)@ == old(self)@.add(new_node.items()),
            final(self).best(final(self).candidate_root_index as int),
            final(self).spec_roots().len() >= old(self).spec_roots().len(),
            final(self).size == old(self).size,
            final(self).min == old(self).min,
    {
        let max_rank = self.roots.len();
        let start_rank = new_node.rank();
        let mut new_node = new_node;
        let ghost added = new_node;
        let mut carried = Some(new_node);
        let mut i: usize = start_rank;
        while carried.is_some() && i < max_rank
            invariant
                total_order::<T>(),
                start_rank <= i <= max_rank,
                max_rank == old(self).roots@.len(),
                self.size == old(self).size,
                self.min == old(self).min,
                self.shaped(),
                self.roots@.len() >= max_rank,
                carried is Some ==> i < max_rank && self.roots@.len() == max_rank,
                carried matches Some(tree) ==> tree.well_formed() && tree.spec_rank() == i
                    && tree.spec_is_min() == self.min,
                self@.add(slot_items(carried)) == old(self)@.add(added.items()),
            decreases
                    if carried is Some {
                        max_rank - i + 1
                    } else {
                        0
                    },
        {
            let ghost before = self.roots@;
            let ghost total = old(self)@.add(added.items());
            let mut slot: Option<BinomialTree<T>> = None;
            self.roots.set_and_swap(i, &mut slot);
            let ghost taken = self.roots@;
            proof {
                lemma_forest_split(before, i as int);
                assert(taken =~= before.update(i as int, None));
                assert(slot == before[i as int]);
            }
            let current = carried.unwrap();
            proof {
                current.lemma_well_formed();
                assert(forest_items(taken).add(slot_items(slot)).add(current.items()) =~= total);
            }
            match slot {
                Some(node) => {
                    proof {
                        node.lemma_well_formed();
                    }
                    let merged = BinomialTree::merge(node, current);
                    proof {
                        assert(forest_items(taken).add(merged.items()) =~= total);
                    }
                    if i == max_rank - 1 {
                        self.roots.push(Some(merged));
                        carried = None;
                        proof {
                            lemma_forest_push(taken, Some(merged));
                            assert(self.roots@ =~= taken.push(Some(merged)));
                            assert(slot_items(carried) =~= Multiset::<T>::empty());
                            assert(self@.add(slot_items(carried)) =~= total);
                        }
                    } else {
                        carried = Some(merged);
                        proof {
                            assert(self@.add(slot_items(carried)) =~= total);
                        }
                        i += 1;
                    }
                },
                None => {
                    self.roots.set(i, Some(current));
                    carried = None;
                    proof {
                        lemma_forest_update(taken, i as int, Some(current));
                        assert(taken.update(i as int, None) =~= taken);
                        assert(self.roots@ =~= taken.update(i as int, Some(current)));
                        assert(slot_items::<T>(None) =~= Multiset::<T>::empty());
                        assert(slot_items(carried) =~= Multiset::<T>::empty());
                        assert(self@.add(slot_items(carried)) =~= total);
                    }
                },
            }
        }
        proof {
            assert(slot_items(carried) =~= Multiset::<T>::empty());
            assert(self@ =~= old(self)@.add(added.items()));
            added.lemma_items_some();
            let p = added.spec_payload().unwrap();
            assert(self@.count(p) > 0);
            let at = lemma_forest_member(self.roots@, p);
        }
        self.candidate_root_index = self.find_candidate_root_index();
    }

    /// Takes the payload that comes first out of the heap: the smallest of
    /// a min heap, the largest of a max heap.
    pub fn pop(&mut self) -> (r: Option<T>)
        requires
            total_order::<T>(),
            old(self).well_formed(),
        ensures
            final(self).well_formed(),
            final(self).spec_is_min() == old(self).spec_is_min(),
            old(self)@.len() == 0 ==> r is None && final(self)@ == old(self)@,
            old(self)@.len() > 0 ==> r is Some && old(self)@.count(r.unwrap()) > 0 && final(self)@
                == old(self)@.remove(r.unwrap()) && forall|item: T|
                old(self)@.count(item) > 0 ==> BinomialTree::above(
                    old(self).spec_is_min(),
                    r.unwrap(),
                    item,
                ),
    {
        if self.is_empty() {
            return None;
        }
        proof {
            let some = old(self)@.choose();
            assert(old(self)@.len() > 0);
            assert(old(self)@.count(some) > 0);
            let at = lemma_forest_member(self.roots@, some);
        }
        let candidate_index = self.find_candidate_root_index();
        let ghost before = self.roots@;
        let mut slot: Option<BinomialTree<T>> = None;
        self.roots.set_and_swap(candidate_index, &mut slot);
        let mut popped_node = slot.unwrap();
        let ghost popped = popped_node;
        let ghost taken = self.roots@;
        let ghost top = popped.spec_payload().unwrap();
        proof {
            lemma_forest_split(before, candidate_index as int);
            assert(taken =~= before.update(candidate_index as int, None));
            popped.lemma_well_formed();
            popped.lemma_items();
            popped.lemma_items_some();
            lemma_forest_holds(before, candidate_index as int, top);
            assert(old(self).roots@[candidate_index as int].unwrap() == popped);
            assert forall|item: T| #[trigger] old(self)@.count(item) > 0 implies BinomialTree::above(
                old(self).min,
                top,
                item,
            ) by {
                old(self).lemma_best_first(candidate_index as int, item);
            }
        }
        let count = popped_node.children().len();
        let mut i: usize = 0;
        while i < count
            invariant
                total_order::<T>(),
                i <= count,
                count == popped.spec_children().len(),
                count < self.roots@.len(),
                popped_node.spec_children().len() == count,
                popped_node.spec_payload() == popped.spec_payload(),
                forall|j: int|
                    i <= j < count ==> #[trigger] popped_node.spec_children()[j]
                        == popped.spec_children()[j],
                forall|j: int|
                    0 <= j < count ==> (#[trigger] popped.spec_children()[j]) is Some
                        && popped.spec_children()[j].unwrap().well_formed()
                        && popped.spec_children()[j].unwrap().spec_rank() == j
                        && popped.spec_children()[j].unwrap().spec_is_min() == self.min,
                self.shaped(),
                self.size == old(self).size,
                self.min == old(self).min,
                self@ == forest_items(taken).add(popped.items_below(i as nat)),
                popped.spec_payload() == Some(top),
                old(self)@ == forest_items(taken).add(popped.items()),
                forall|item: T|
                    #[trigger] old(self)@.count(item) > 0 ==> BinomialTree::above(
                        old(self).min,
                        top,
                        item,
                    ),
            decreases count - i,
        {
            let mut child_slot: Option<BinomialTree<T>> = None;
            popped_node.children_mut().set_and_swap(i, &mut child_slot);
            let child = child_slot.unwrap();
            proof {
                popped.lemma_items();
                assert(child == popped.spec_children()[i as int].unwrap());
                assert(popped.items_below((i + 1) as nat) == popped.items_below(
                    ((i + 1) - 1) as nat,
                ).add(child.items()));
            }
            self._push(child);
            proof {
                assert(self@ =~= forest_items(taken).add(popped.items_below((i + 1) as nat)));
            }
            i += 1;
        }
        self.size -= 1;
        let payload = popped_node.get_payload();
        proof {
            popped.lemma_items();
            let rest = popped.items_below(count as nat);
            assert(popped.items() =~= Multiset::<T>::empty().insert(payload).add(rest));
            assert(old(self)@ =~= forest_items(taken).add(popped.items()));
            assert(self@ =~= old(self)@.remove(payload));
            assert(old(self)@.count(payload) > 0);
            assert(self@.len() == old(self)@.len() - 1);
        }
        if self.size > 0 {
            proof {
                let some = self@.choose();
                assert(self@.len() > 0);
                assert(self@.count(some) > 0);
                let at = lemma_forest_member(self.roots@, some);
            }
            self.candidate_root_index = self.find_candidate_root_index();
        }
        Some(payload)
    }

    /// The payload that comes first, if the heap is not empty.
    pub fn peek(&self) -> (r: &Option<T>)
        requires
            total_order::<T>(),
            self.well_formed(),
        ensures
            self@.len() == 0 ==> *r is None,
            self@.len() > 0 ==> *r is Some && self@.count(r.unwrap()) > 0 && forall|item: T|
                self@.count(item) > 0 ==> BinomialTree::above(
                    self.spec_is_min(),
                    r.unwrap(),
                    item,
                ),
    {
        if self.is_empty() {
            return &None;
        }
        proof {
            let top = self.roots@[self.candidate_root_index as int].unwrap();
            top.lemma_well_formed();
            assert forall|item: T| self@.count(item) > 0 implies BinomialTree::above(
                self.min,
                top.spec_payload().unwrap(),
                item,
            ) by {
                self.lemma_best_first(self.candidate_root_index as int, item);
            }
            let some = self@.choose();
            assert(self@.count(some) > 0);
            self.lemma_best_first(self.candidate_root_index as int, some);
        }
        match &self.roots[self.candidate_root_index] {
            Some(tree) => tree.peek_payload(),
            None => &None,
        }
    }

    /// Empties the heap.
    pub fn clear(&mut self)
        ensures
            final(self).well_formed(),
            final(self)@ == Multiset::<T>::empty(),
            final(self).spec_is_min() == old(self).spec_is_min(),
    {
        self.roots.clear();
        self.roots.push(None);
        self.size = 0;
        self.candidate_root_index = 0;
        proof {
            lemma_forest_empty(self.roots@);
        }
    }

    /// The number of payloads in the heap.
    pub fn size(&self) -> (r: usize)
        ensures
            r == self.spec_size(),
            self.well_formed() ==> r == self@.len(),
    {
        self.size
    }

    /// The number of payloads that the heap has counted.
    pub closed spec fn spec_size(&self) -> nat {
        self.size as nat
    }

    /// Sets the number of payloads that the heap has counted.
    fn set_size(&mut self, size: usize)
        ensures
            final(self).size == size,
            final(self).roots == old(self).roots,
            final(self).min == old(self).min,
            final(self).candidate_root_index == old(self).candidate_root_index,
    {
        self.size = size;
    }

    /// Whether smaller payloads come out first.
    pub fn is_min(&self) -> (r: bool)
        ensures
            r == self.spec_is_min(),
    {
        self.min
    }

    /// Whether larger payloads come out first.
    pub fn is_max(&self) -> (r: bool)
        ensures
            r == !self.spec_is_min(),
    {
        !self.is_min()
    }

    /// Whether the heap holds no payload.
    pub fn is_empty(&self) -> (r: bool)
        ensures
            r == (self.spec_size() == 0),
            self.well_formed() ==> r == (self@.len() == 0),
    {
        self.size() == 0
    }

    /// The number of ranks that the heap has room for.
    fn max_tree_rank(&self) -> (r: usize)
        ensures
            r == self.spec_roots().len(),
    {
        self.roots.len()
    }

    /// The rank of a tree whose root may stand above the roots of all
    /// trees: the last of them where several may.
    fn find_candidate_root_index(&self) -> (r: usize)
        requires
            total_order::<T>(),
            self.shaped(),
            exists|i: int| 0 <= i < self.roots@.len() && (#[trigger] self.roots@[i]) is Some,
        ensures
            self.best(r as int),
    {
        let mut candidate_index: usize = 0;
        let mut i: usize = 0;
        let mut found = false;
        while !found && i < self.roots.len()
            invariant
                i <= self.roots@.len(),
                forall|j: int| 0 <= j < i && !found ==> (#[trigger] self.roots@[j]) is None,
                found ==> candidate_index < self.roots@.len() && self.roots@[candidate_index as int]
                    is Some && forall|j: int|
                    0 <= j < candidate_index ==> (#[trigger] self.roots@[j]) is None,
            decreases
                    if found {
                        0
                    } else {
                        self.roots@.len() - i + 1
                    },
        {
            match &self.roots[i] {
                Some(_) => {
                    candidate_index = i;
                    found = true;
                },
                None => {
                    i += 1;
                },
            }
        }
        proof {
            if !found {
                let at = choose|at: int|
                    0 <= at < self.roots@.len() && (#[trigger] self.roots@[at]) is Some;
                assert(self.roots@[at] is None);
            }
            lemma_total_order::<T>();
            self.roots@[candidate_index as int].unwrap().lemma_well_formed();
        }
        let ranks = self.roots.len();
        let mut i: usize = candidate_index + 1;
        while i < ranks
            invariant
                total_order::<T>(),
                self.shaped(),
                ranks == self.roots@.len(),
                candidate_index < i <= self.roots@.len(),
                self.roots@[candidate_index as int] is Some,
                forall|j: int|
                    0 <= j < i ==> ((#[trigger] self.roots@[j]) matches Some(tree)
                        ==> BinomialTree::above(
                        self.min,
                        self.roots@[candidate_index as int].unwrap().spec_payload().unwrap(),
                        tree.spec_payload().unwrap(),
                    )),
            decreases self.roots@.len() - i,
        {
            proof {
                lemma_total_order::<T>();
                self.roots@[candidate_index as int].unwrap().lemma_well_formed();
                if self.roots@[i as int] is Some {
                    self.roots@[i as int].unwrap().lemma_well_formed();
                }
            }
            match (&self.roots[i], &self.roots[candidate_index]) {
                (Some(node), Some(largest_priority_node)) => {
                    if (self.is_min() && BinomialTree::is_smaller_or_equall(
                        node,
                        largest_priority_node,
                    )) || (self.is_max() && BinomialTree::is_greater_or_equall(
                        node,
                        largest_priority_node,
                    )) {
                        candidate_index = i;
                    }
                },
                _ => (),
            }
            i += 1;
        }
        candidate_index
    }
}

/// A value does not sort before itself.
proof fn lemma_total_order_reflexive<T: Ord>(value: T)
    ensures
        crate::util::order::le(value, value),
{
}

impl<T: Ord + std::fmt::Display> BinomialHeap<T> {
    /// `text` lists the first `count` ranks of the heap, each on a line of
    /// its own: the word `Rank`, the rank as it prints, a colon and a
    /// blank, then the payloads of the tree of that rank as
    /// `BinomialTree::preorder` lists them.
    pub closed spec fn listed(&self, count: nat, text: Seq<char>) -> bool
        decreases count,
    {
        if count == 0 || count > self.roots@.len() {
            text == Seq::<char>::empty()
        } else {
            exists|first: Seq<char>, line: Seq<char>|
                {
                    &&& text == #[trigger] joined(first, line)
                    &&& self.listed((count - 1) as nat, first)
                    &&& self.line_of((count - 1) as nat, line)
                }
        }
    }

    /// `line` is the line of the rank `rank` in the text of the heap.
    pub closed spec fn line_of(&self, rank: nat, line: Seq<char>) -> bool {
        exists|number: String, tree_text: Seq<char>|
            {
                &&& line == #[trigger] rank_line(number@, tree_text)
                &&& vstd::string::to_string_from_display_ensures::<usize>(&(rank as usize), number)
                &&& rank < self.roots@.len()
                &&& match self.roots@[rank as int] {
                    Some(tree) => exists|whole: Seq<char>| #[trigger]
                        tree.shown(whole) && tree_text == crate::tree::binomial::trimmed_text(
                            whole,
                        ),
                    None => tree_text == Seq::<char>::empty(),
                }
            }
    }

    /// The trees of the heap as text, one rank to a line.
    pub fn preorder(binomial_heap: &BinomialHeap<T>) -> (r: String)
        ensures
            binomial_heap.listed(binomial_heap.spec_roots().len(), r@),
    {
        let mut node_list = String::new();
        let mut i: usize = 0;
        while i < binomial_heap.roots.len()
            invariant
                i <= binomial_heap.roots@.len(),
                binomial_heap.listed(i as nat, node_list@),
            decreases binomial_heap.roots@.len() - i,
        {
            let ghost first = node_list@;
            let number = i.to_string();
            node_list.append("Rank ");
            node_list.append(number.as_str());
            node_list.append(": ");
            let ghost mut tree_text = Seq::<char>::empty();
            match &binomial_heap.roots[i] {
                Some(binomial_tree) => {
                    let tree_string = BinomialTree::preorder(binomial_tree);
                    node_list.append(tree_string.as_str());
                    proof {
                        tree_text = tree_string@;
                    }
                },
                None => (),
            }
            node_list.append("\n");
            proof {
                reveal_strlit("Rank ");
                reveal_strlit(": ");
                reveal_strlit("\n");
                let line = rank_line(number@, tree_text);
                assert(node_list@ =~= first + line);
                assert(node_list@ == joined(first, line));
                assert(binomial_heap.line_of(i as nat, line));
                assert(binomial_heap.listed(((i + 1) - 1) as nat, first));
            }
            i += 1;
        }
        node_list
    }
}

/// The line of one rank in the text of a heap.
pub open spec fn rank_line(number: Seq<char>, tree_text: Seq<char>) -> Seq<char> {
    seq!['R', 'a', 'n', 'k', ' '] + number + seq![':', ' '] + tree_text + seq!['\n']
}

} // verus!
