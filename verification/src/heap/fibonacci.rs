//! A priority queue that keeps a list of heap-ordered trees and tidies it
//! only when a payload is taken out.

use crate::tree::binomial::joined;
use crate::tree::binomial::trim_text;
use crate::tree::binomial::trimmed_text;
use crate::util::order::is_le;
use crate::util::order::le;
use crate::util::order::lemma_total_order;
use crate::util::order::total_order;
use std::collections::VecDeque;
use vstd::multiset::Multiset;
use vstd::prelude::*;
use vstd::string::StringExecFns;

verus! {

broadcast use vstd::multiset::group_multiset_axioms;

/// Whether `upper` may stand above `lower` in a heap of this kind: `upper`
/// does not sort after `lower` in a min heap, and does not sort before it
/// in a max heap.
pub open spec fn outranks<T: Ord>(min: bool, upper: T, lower: T) -> bool {
    if min {
        le(upper, lower)
    } else {
        le(lower, upper)
    }
}

/// A heap-ordered tree of a Fibonacci heap: a payload at the root and below
/// it a list of trees of the same kind.
#[derive(Debug)]
pub struct InternalTree<T: Ord> {
    degree: usize,
    payload: T,
    children_list: VecDeque<InternalTree<T>>,
    min: bool,
}

/// What the trees of `trees` hold together.
pub open spec fn grove_items<T: Ord>(trees: Seq<InternalTree<T>>) -> Multiset<T>
    decreases trees.len(),
{
    if trees.len() == 0 {
        Multiset::empty()
    } else {
        grove_items(trees.drop_last()).add(trees.last().items())
    }
}

/// What a tree holds, and nothing for no tree.
pub open spec fn place_items<T: Ord>(place: Option<InternalTree<T>>) -> Multiset<T> {
    match place {
        Some(tree) => tree.items(),
        None => Multiset::empty(),
    }
}

/// What the trees in the places of `places` hold together.
pub open spec fn places_items<T: Ord>(places: Seq<Option<InternalTree<T>>>) -> Multiset<T>
    decreases places.len(),
{
    if places.len() == 0 {
        Multiset::empty()
    } else {
        places_items(places.drop_last()).add(place_items(places.last()))
    }
}

/// One more tree at the end of a list.
pub proof fn lemma_grove_push<T: Ord>(trees: Seq<InternalTree<T>>, tree: InternalTree<T>)
    ensures
        grove_items(trees.push(tree)) == grove_items(trees).add(tree.items()),
{
    assert(trees.push(tree).drop_last() =~= trees);
}

/// Two lists, one after the other.
pub proof fn lemma_grove_join<T: Ord>(first: Seq<InternalTree<T>>, second: Seq<InternalTree<T>>)
    ensures
        grove_items(first + second) == grove_items(first).add(grove_items(second)),
    decreases second.len(),
{
    if second.len() == 0 {
        assert(first + second =~= first);
        assert(grove_items(first + second) =~= grove_items(first).add(grove_items(second)));
    } else {
        lemma_grove_join(first, second.drop_last());
        assert((first + second).drop_last() =~= first + second.drop_last());
        assert((first + second).last() == second.last());
        assert(grove_items(first + second) =~= grove_items(first).add(grove_items(second)));
    }
}

/// A list of one tree.
pub proof fn lemma_grove_one<T: Ord>(tree: InternalTree<T>)
    ensures
        grove_items(seq![tree]) == tree.items(),
{
    let one = seq![tree];
    assert(one.drop_last() =~= Seq::<InternalTree<T>>::empty());
    assert(one.last() == tree);
    assert(grove_items(one.drop_last()) =~= Multiset::<T>::empty());
    assert(grove_items(one) == grove_items(one.drop_last()).add(one.last().items()));
    assert(grove_items(one) =~= tree.items());
}

/// A list without its first tree.
pub proof fn lemma_grove_front<T: Ord>(trees: Seq<InternalTree<T>>)
    requires
        trees.len() > 0,
    ensures
        grove_items(trees) == trees[0].items().add(
            grove_items(trees.subrange(1, trees.len() as int)),
        ),
{
    let rest = trees.subrange(1, trees.len() as int);
    assert(trees =~= seq![trees[0]] + rest);
    lemma_grove_join(seq![trees[0]], rest);
    lemma_grove_one(trees[0]);
}

/// A payload of a list of trees is a payload of one of them.
pub proof fn lemma_grove_member<T: Ord>(trees: Seq<InternalTree<T>>, item: T) -> (at: int)
    requires
        grove_items(trees).count(item) > 0,
    ensures
        0 <= at < trees.len(),
        trees[at].items().count(item) > 0,
    decreases trees.len(),
{
    if trees.len() == 0 {
        0
    } else if trees.last().items().count(item) > 0 {
        trees.len() - 1
    } else {
        let at = lemma_grove_member(trees.drop_last(), item);
        assert(trees.drop_last()[at] == trees[at]);
        at
    }
}

/// A list of trees holds the payloads of each of them.
pub proof fn lemma_grove_holds<T: Ord>(trees: Seq<InternalTree<T>>, at: int, item: T)
    requires
        0 <= at < trees.len(),
        trees[at].items().count(item) > 0,
    ensures
        grove_items(trees).count(item) > 0,
    decreases trees.len(),
{
    if at < trees.len() - 1 {
        lemma_grove_holds(trees.drop_last(), at, item);
    }
}

/// One more place at the end.
pub proof fn lemma_places_push<T: Ord>(
    places: Seq<Option<InternalTree<T>>>,
    place: Option<InternalTree<T>>,
)
    ensures
        places_items(places.push(place)) == places_items(places).add(place_items(place)),
{
    assert(places.push(place).drop_last() =~= places);
}

/// The places hold what one of them holds and what they hold without it.
pub proof fn lemma_places_split<T: Ord>(places: Seq<Option<InternalTree<T>>>, at: int)
    requires
        0 <= at < places.len(),
    ensures
        places_items(places) == places_items(places.update(at, None)).add(place_items(places[at])),
    decreases places.len(),
{
    let without = places.update(at, None);
    let none = place_items::<T>(None);
    assert(none =~= Multiset::<T>::empty());
    if at == places.len() - 1 {
        assert(without.drop_last() =~= places.drop_last());
        assert(without.last() == None::<InternalTree<T>>);
        assert(places.last() == places[at]);
        let a = places_items(places.drop_last());
        assert(places_items(without) == a.add(none));
        assert(a.add(place_items(places[at])) =~= a.add(none).add(place_items(places[at])));
    } else {
        lemma_places_split(places.drop_last(), at);
        assert(without.drop_last() =~= places.drop_last().update(at, None));
        assert(without.last() == places.last());
        assert(places.drop_last()[at] == places[at]);
        let u = places_items(without.drop_last());
        let l = place_items(places.last());
        let y = place_items(places[at]);
        assert(places_items(places.drop_last()) == u.add(y));
        assert(u.add(y).add(l) =~= u.add(l).add(y));
    }
}

/// Another tree in one place.
pub proof fn lemma_places_update<T: Ord>(
    places: Seq<Option<InternalTree<T>>>,
    at: int,
    place: Option<InternalTree<T>>,
)
    requires
        0 <= at < places.len(),
    ensures
        places_items(places.update(at, place)) == places_items(places.update(at, None)).add(
            place_items(place),
        ),
{
    lemma_places_split(places.update(at, place), at);
    assert(places.update(at, place).update(at, None) =~= places.update(at, None));
}

/// Places without trees hold nothing.
pub proof fn lemma_places_empty<T: Ord>(places: Seq<Option<InternalTree<T>>>)
    requires
        forall|i: int| 0 <= i < places.len() ==> (#[trigger] places[i]) is None,
    ensures
        places_items(places) == Multiset::<T>::empty(),
    decreases places.len(),
{
    if places.len() > 0 {
        assert(places.last() == places[places.len() - 1]);
        assert forall|i: int| 0 <= i < places.drop_last().len() implies (
        #[trigger] places.drop_last()[i]) is None by {
            assert(places.drop_last()[i] == places[i]);
        }
        lemma_places_empty(places.drop_last());
        assert(places_items(places) =~= Multiset::<T>::empty());
    }
}

impl<T: Ord> InternalTree<T> {
    /// The number of trees directly below the root.
    pub closed spec fn spec_degree(&self) -> nat {
        self.degree as nat
    }

    /// The payload at the root.
    pub closed spec fn spec_payload(&self) -> T {
        self.payload
    }

    /// The trees below the root, the oldest first.
    pub closed spec fn spec_children(&self) -> Seq<InternalTree<T>> {
        self.children_list@
    }

    /// Whether smaller payloads go to the root.
    pub closed spec fn spec_is_min(&self) -> bool {
        self.min
    }

    /// The payloads of the first `count` trees below the root, with all
    /// that is below them.
    pub closed spec fn items_below(&self, count: nat) -> Multiset<T>
        decreases self, count,
    {
        if count == 0 || count > self.children_list@.len() {
            Multiset::empty()
        } else {
            self.items_below((count - 1) as nat).add(self.children_list@[count - 1].items())
        }
    }

    /// The payloads of the tree.
    pub closed spec fn items(&self) -> Multiset<T>
        decreases self, self.spec_children().len() + 1,
    {
        Multiset::empty().insert(self.payload).add(self.items_below(self.children_list@.len()))
    }

    /// The first `count` trees below the root are well-formed trees of this
    /// kind, and the payload of each may stand below that of the root.
    pub closed spec fn well_formed_below(&self, count: nat) -> bool
        decreases self, count,
    {
        if count == 0 {
            true
        } else if count > self.children_list@.len() {
            false
        } else {
            &&& self.well_formed_below((count - 1) as nat)
            &&& self.children_list@[count - 1].well_formed()
            &&& self.children_list@[count - 1].min == self.min
            &&& outranks(self.min, self.payload, self.children_list@[count - 1].payload)
        }
    }

    /// The invariant of a tree: the degree is the number of trees below the
    /// root, and these are well-formed trees of the same kind whose payloads
    /// may stand below that of the root.
    pub closed spec fn well_formed(&self) -> bool
        decreases self, self.spec_children().len() + 1,
    {
        &&& self.degree == self.children_list@.len()
        &&& self.well_formed_below(self.children_list@.len())
    }

    /// What the invariant says of the trees below the root.
    pub proof fn lemma_well_formed(&self)
        requires
            self.well_formed(),
        ensures
            self.spec_degree() == self.spec_children().len(),
            forall|i: int|
                0 <= i < self.spec_children().len() ==> (#[trigger] self.spec_children()[i]).well_formed()
                    && self.spec_children()[i].spec_is_min() == self.spec_is_min(),
    {
        self.lemma_well_formed_below(self.children_list@.len());
    }

    proof fn lemma_well_formed_below(&self, count: nat)
        requires
            self.well_formed_below(count),
        ensures
            count <= self.children_list@.len(),
            forall|i: int|
                0 <= i < count ==> (#[trigger] self.children_list@[i]).well_formed()
                    && self.children_list@[i].min == self.min && outranks(
                    self.min,
                    self.payload,
                    self.children_list@[i].payload,
                ),
        decreases count,
    {
        if count > 0 {
            self.lemma_well_formed_below((count - 1) as nat);
        }
    }

    proof fn lemma_well_formed_below_same(&self, other: InternalTree<T>, count: nat)
        requires
            count <= other.children_list@.len(),
            count <= self.children_list@.len(),
            forall|i: int| 0 <= i < count ==> self.children_list@[i] == other.children_list@[i],
            self.payload == other.payload,
            self.min == other.min,
            other.well_formed_below(count),
        ensures
            self.well_formed_below(count),
        decreases count,
    {
        if count > 0 {
            self.lemma_well_formed_below_same(other, (count - 1) as nat);
        }
    }

    proof fn lemma_items_below_same(&self, other: InternalTree<T>, count: nat)
        requires
            count <= other.children_list@.len(),
            count <= self.children_list@.len(),
            forall|i: int| 0 <= i < count ==> self.children_list@[i] == other.children_list@[i],
        ensures
            self.items_below(count) == other.items_below(count),
        decreases count,
    {
        if count > 0 {
            self.lemma_items_below_same(other, (count - 1) as nat);
        }
    }

    /// A tree that took another as its last child holds the payloads of
    /// both.
    proof fn lemma_items_added(&self, before: InternalTree<T>, added: InternalTree<T>)
        requires
            self.children_list@ == before.children_list@.push(added),
            self.payload == before.payload,
        ensures
            self.items() == before.items().add(added.items()),
    {
        let n = before.children_list@.len();
        self.lemma_items_below_same(before, n);
        assert(self.children_list@[n as int] == added);
        assert(self.items_below(n + 1) == self.items_below(n).add(added.items()));
        assert(self.items() =~= before.items().add(added.items()));
    }

    /// The payload at the root of a well-formed tree may stand above every
    /// payload of the tree.
    pub proof fn lemma_root_first(&self, item: T)
        requires
            total_order::<T>(),
            self.well_formed(),
            self.items().count(item) > 0,
        ensures
            outranks(self.spec_is_min(), self.spec_payload(), item),
        decreases self, self.spec_children().len() + 1,
    {
        lemma_total_order::<T>();
        if item != self.payload {
            self.lemma_root_first_below(self.children_list@.len(), item);
        }
    }

    proof fn lemma_root_first_below(&self, count: nat, item: T)
        requires
            total_order::<T>(),
            self.well_formed_below(count),
            count <= self.children_list@.len(),
            self.items_below(count).count(item) > 0,
        ensures
            outranks(self.min, self.payload, item),
        decreases self, count,
    {
        lemma_total_order::<T>();
        if count > 0 {
            let child = self.children_list@[count - 1];
            if self.items_below((count - 1) as nat).count(item) > 0 {
                self.lemma_root_first_below((count - 1) as nat, item);
            } else {
                child.lemma_root_first(item);
            }
        }
    }

    /// A tree holds the payload at its root, and at least one payload more
    /// than its degree where it is well-formed.
    pub proof fn lemma_items_some(&self)
        ensures
            self.items().count(self.spec_payload()) > 0,
            self.items().len() >= 1,
            self.well_formed() ==> self.items().len() >= self.spec_degree() + 1,
        decreases self, self.spec_children().len() + 1,
    {
        if self.well_formed() {
            self.lemma_items_count_below(self.children_list@.len());
        }
    }

    proof fn lemma_items_count_below(&self, count: nat)
        requires
            self.well_formed_below(count),
            count <= self.children_list@.len(),
        ensures
            self.items_below(count).len() >= count,
        decreases self, count,
    {
        if count > 0 {
            self.lemma_items_count_below((count - 1) as nat);
            self.children_list@[count - 1].lemma_items_some();
        }
    }

    /// What a tree holds: the payload at the root and what the trees below
    /// it hold.
    pub proof fn lemma_items(&self)
        ensures
            self.items() == Multiset::empty().insert(self.spec_payload()).add(
                self.items_below(self.spec_children().len()),
            ),
            self.items_below(0) == Multiset::<T>::empty(),
            forall|count: nat|
                0 < count <= self.spec_children().len() ==> #[trigger] self.items_below(count)
                    == self.items_below((count - 1) as nat).add(
                    self.spec_children()[count - 1].items(),
                ),
    {
    }

    /// What the trees below the root hold is what the list of them holds.
    pub proof fn lemma_items_below_grove(&self, count: nat)
        requires
            count <= self.spec_children().len(),
        ensures
            self.items_below(count) == grove_items(self.spec_children().subrange(0, count as int)),
        decreases count,
    {
        let part = self.children_list@.subrange(0, count as int);
        if count > 0 {
            self.lemma_items_below_grove((count - 1) as nat);
            assert(part.drop_last() =~= self.children_list@.subrange(0, count - 1));
            assert(part.last() == self.children_list@[count - 1]);
        }
    }

    /// A tree of one payload.
    pub fn init(payload: T, min: bool) -> (r: InternalTree<T>)
        ensures
            r.spec_degree() == 0,
            r.spec_payload() == payload,
            r.spec_children() == Seq::<InternalTree<T>>::empty(),
            r.spec_is_min() == min,
            r.well_formed(),
            r.items() == Multiset::<T>::empty().insert(payload),
    {
        let r = InternalTree { degree: 0, payload, children_list: VecDeque::new(), min };
        proof {
            assert(r.items() =~= Multiset::<T>::empty().insert(payload));
        }
        r
    }

    /// Whether the payload of the first tree sorts before that of the
    /// second or is the same.
    pub fn is_smaller_or_equal(internal_tree_1: &InternalTree<T>, internal_tree_2: &InternalTree<T>) -> (r: bool)
        ensures
            total_order::<T>() ==> r == le(
                internal_tree_1.spec_payload(),
                internal_tree_2.spec_payload(),
            ),
    {
        let payload1 = internal_tree_1.peek_payload();
        let payload2 = internal_tree_2.peek_payload();
        is_le(payload1, payload2)
    }

    /// Whether the payload of the first tree sorts after that of the second
    /// or is the same.
    pub fn is_greater_or_equal(internal_tree_1: &InternalTree<T>, internal_tree_2: &InternalTree<T>) -> (r: bool)
        ensures
            total_order::<T>() ==> r == le(
                internal_tree_2.spec_payload(),
                internal_tree_1.spec_payload(),
            ),
    {
        let payload1 = internal_tree_1.peek_payload();
        let payload2 = internal_tree_2.peek_payload();
        is_le(payload2, payload1)
    }

    /// Whether the root of the first tree may stand above that of the
    /// second in a heap of the kind `is_min`.
    pub fn has_higher_priority(
        internal_tree_1: &InternalTree<T>,
        internal_tree_2: &InternalTree<T>,
        is_min: bool,
    ) -> (r: bool)
        ensures
            total_order::<T>() ==> r == outranks(
                is_min,
                internal_tree_1.spec_payload(),
                internal_tree_2.spec_payload(),
            ),
    {
        if is_min {
            InternalTree::is_smaller_or_equal(internal_tree_1, internal_tree_2)
        } else {
            InternalTree::is_greater_or_equal(internal_tree_1, internal_tree_2)
        }
    }

    /// Merges two trees of one kind: the tree whose root may stand above
    /// the other's, the first on a tie, takes the other as its last child.
    pub fn merge(internal_tree_1: InternalTree<T>, internal_tree_2: InternalTree<T>) -> (r:
        InternalTree<T>)
        requires
            total_order::<T>(),
            internal_tree_1.spec_is_min() == internal_tree_2.spec_is_min(),
            internal_tree_1.spec_degree() < usize::MAX,
            internal_tree_2.spec_degree() < usize::MAX,
        ensures
            r.spec_is_min() == internal_tree_1.spec_is_min(),
            r.items() == internal_tree_1.items().add(internal_tree_2.items()),
            internal_tree_1.well_formed() && internal_tree_2.well_formed() ==> r.well_formed(),
            outranks(
                internal_tree_1.spec_is_min(),
                internal_tree_1.spec_payload(),
                internal_tree_2.spec_payload(),
            ) ==> r.spec_payload() == internal_tree_1.spec_payload() && r.spec_children()
                == internal_tree_1.spec_children().push(internal_tree_2) && r.spec_degree()
                == internal_tree_1.spec_degree() + 1,
            !outranks(
                internal_tree_1.spec_is_min(),
                internal_tree_1.spec_payload(),
                internal_tree_2.spec_payload(),
            ) ==> r.spec_payload() == internal_tree_2.spec_payload() && r.spec_children()
                == internal_tree_2.spec_children().push(internal_tree_1) && r.spec_degree()
                == internal_tree_2.spec_degree() + 1,
    {
        let mut internal_tree_1 = internal_tree_1;
        let mut internal_tree_2 = internal_tree_2;
        let ghost first = internal_tree_1;
        let ghost second = internal_tree_2;
        let trees_are_min = internal_tree_1.is_min();
        if InternalTree::has_higher_priority(&internal_tree_1, &internal_tree_2, trees_are_min) {
            internal_tree_1.add_child(internal_tree_2);
            proof {
                internal_tree_1.lemma_items_added(first, second);
                if first.well_formed() && second.well_formed() {
                    internal_tree_1.lemma_well_formed_below_same(
                        first,
                        first.children_list@.len(),
                    );
                }
            }
            internal_tree_1
        } else {
            internal_tree_2.add_child(internal_tree_1);
            proof {
                lemma_total_order::<T>();
                internal_tree_2.lemma_items_added(second, first);
                assert(internal_tree_2.items() =~= first.items().add(second.items()));
                if first.well_formed() && second.well_formed() {
                    internal_tree_2.lemma_well_formed_below_same(
                        second,
                        second.children_list@.len(),
                    );
                }
            }
            internal_tree_2
        }
    }

    /// Puts `internal_tree` below the root, after the trees that are there.
    pub fn add_child(&mut self, internal_tree: InternalTree<T>)
        requires
            old(self).spec_degree() < usize::MAX,
        ensures
            final(self).spec_degree() == old(self).spec_degree() + 1,
            final(self).spec_children() == old(self).spec_children().push(internal_tree),
            final(self).spec_payload() == old(self).spec_payload(),
            final(self).spec_is_min() == old(self).spec_is_min(),
    {
        self.children_list.push_back(internal_tree);
        self.degree += 1;
    }

    /// The number of trees directly below the root.
    pub fn degree(&self) -> (r: usize)
        ensures
            r == self.spec_degree(),
    {
        self.degree
    }

    /// The payload at the root.
    pub fn peek_payload(&self) -> (r: &T)
        ensures
            *r == self.spec_payload(),
    {
        &self.payload
    }

    /// The trees below the root.
    pub fn children_list(&self) -> (r: &VecDeque<InternalTree<T>>)
        ensures
            r@ == self.spec_children(),
    {
        &self.children_list
    }

    /// Whether smaller payloads go to the root.
    pub fn is_min(&self) -> (r: bool)
        ensures
            r == self.spec_is_min(),
    {
        self.min
    }

    /// Takes the tree apart: its payload, and the trees below the root.
    fn into_parts(self) -> (r: (T, VecDeque<InternalTree<T>>))
        ensures
            r.0 == self.spec_payload(),
            r.1@ == self.spec_children(),
    {
        (self.payload, self.children_list)
    }
}

impl<T: Ord + std::fmt::Display> InternalTree<T> {
    /// `text` lists the payloads of the first `count` trees below the root
    /// with all that is below them, as `shown` lists those of a tree.
    pub closed spec fn shown_below(&self, count: nat, text: Seq<char>) -> bool
        decreases self, count,
    {
        if count == 0 || count > self.spec_children().len() {
            text == Seq::<char>::empty()
        } else {
            exists|first: Seq<char>, last: Seq<char>|
                {
                    &&& text == #[trigger] joined(first, last)
                    &&& self.shown_below((count - 1) as nat, first)
                    &&& self.spec_children()[count - 1].shown(last)
                }
        }
    }

    /// `text` lists the payloads of the tree, each as it prints and with a
    /// blank after it: that of the root, then those of the trees below it
    /// from the oldest on, each tree in this same way.
    pub closed spec fn shown(&self, text: Seq<char>) -> bool
        decreases self, self.spec_children().len() + 1,
    {
        exists|own: String, rest: Seq<char>|
            {
                &&& text == #[trigger] joined(own@ + seq![' '], rest)
                &&& vstd::string::to_string_from_display_ensures::<T>(&self.spec_payload(), own)
                &&& self.shown_below(self.spec_children().len(), rest)
            }
    }

    proof fn lemma_shown_next(&self, count: nat, first: Seq<char>, last: Seq<char>)
        requires
            count < self.spec_children().len(),
            self.shown_below(count, first),
            self.spec_children()[count as int].shown(last),
        ensures
            self.shown_below(count + 1, first + last),
    {
        let next = count + 1;
        assert(self.shown_below((next - 1) as nat, first));
        assert(self.spec_children()[next - 1] == self.spec_children()[count as int]);
        assert(first + last == joined(first, last));
    }

    proof fn lemma_shown_whole(&self, own: String, rest: Seq<char>)
        requires
            self.shown_below(self.spec_children().len(), rest),
            vstd::string::to_string_from_display_ensures::<T>(&self.spec_payload(), own),
        ensures
            self.shown(own@ + seq![' '] + rest),
    {
        assert(own@ + seq![' '] + rest == joined(own@ + seq![' '], rest));
    }

    /// The payloads of the tree as text, with a blank between one and the
    /// next: that of the root, then those of the trees below it from the
    /// oldest on, each tree in this same way.
    pub fn preorder(internal_tree: &InternalTree<T>) -> (r: String)
        ensures
            exists|text: Seq<char>| #[trigger] internal_tree.shown(text) && r@ == trimmed_text(text),
    {
        let text = InternalTree::_preorder(&Some(internal_tree));
        trim_text(text.as_str())
    }

    /// The text of `shown` for a tree, and no text for none.
    pub fn _preorder(node_opt: &Option<&InternalTree<T>>) -> (r: String)
        ensures
            match *node_opt {
                None => r@ == Seq::<char>::empty(),
                Some(tree) => tree.shown(r@),
            },
    {
        match *node_opt {
            None => String::new(),
            Some(node) => InternalTree::visit(node),
        }
    }

    /// The text of `shown` for `node`.
    fn visit(node: &InternalTree<T>) -> (r: String)
        ensures
            node.shown(r@),
        decreases node,
    {
        let mut node_list = String::new();
        let own = node.peek_payload().to_string();
        node_list.append(own.as_str());
        node_list.append(" ");
        let ghost own_text = own@ + seq![' '];
        let ghost mut below = Seq::<char>::empty();
        proof {
            reveal_strlit(" ");
            assert(node_list@ =~= own_text + below);
        }
        let mut i: usize = 0;
        while i < node.children_list.len()
            invariant
                i <= node.children_list@.len(),
                node_list@ == own_text + below,
                node.shown_below(i as nat, below),
            decreases node.children_list@.len() - i,
        {
            let ghost first = below;
            let item = &node.children_list[i];
            let child_text = InternalTree::visit(item);
            node_list.append(child_text.as_str());
            proof {
                below = below + child_text@;
                node.lemma_shown_next(i as nat, first, child_text@);
                assert(node_list@ =~= own_text + below);
            }
            i += 1;
        }
        proof {
            node.lemma_shown_whole(own, below);
        }
        node_list
    }
}

/// Every tree of `trees` is a well-formed tree of the kind `min`.
pub open spec fn trees_fit<T: Ord>(trees: Seq<InternalTree<T>>, min: bool) -> bool {
    forall|i: int|
        0 <= i < trees.len() ==> (#[trigger] trees[i]).well_formed() && trees[i].spec_is_min()
            == min
}

/// The tree in `place`, if there is one, is a well-formed tree of the kind
/// `min`.
pub open spec fn place_fits<T: Ord>(place: Option<InternalTree<T>>, min: bool) -> bool {
    place matches Some(tree) ==> tree.well_formed() && tree.spec_is_min() == min
}

/// `top` may stand above the root of every tree of `trees`.
pub open spec fn leads<T: Ord>(min: bool, top: T, trees: Seq<InternalTree<T>>) -> bool {
    forall|i: int| 0 <= i < trees.len() ==> outranks(min, top, (#[trigger] trees[i]).spec_payload())
}

/// A priority queue: a min heap hands out its smallest payload first, a max
/// heap its largest.
#[derive(Debug)]
pub struct FibonacciHeap<T: Ord> {
    children_list: VecDeque<InternalTree<T>>,
    size: usize,
    priority_pointer: Option<InternalTree<T>>,
    min: bool,
}

impl<T: Ord> View for FibonacciHeap<T> {
    type V = Multiset<T>;

    /// The payloads of the heap.
    closed spec fn view(&self) -> Multiset<T> {
        place_items(self.priority_pointer).add(grove_items(self.children_list@))
    }
}

impl<T: Ord> FibonacciHeap<T> {
    /// Whether smaller payloads come out first.
    pub closed spec fn spec_is_min(&self) -> bool {
        self.min
    }

    /// The number of payloads that the heap has counted.
    pub closed spec fn spec_size(&self) -> nat {
        self.size as nat
    }

    /// The tree whose root comes out next, if the heap has one.
    pub closed spec fn spec_priority(&self) -> Option<InternalTree<T>> {
        self.priority_pointer
    }

    /// The other trees of the heap.
    pub closed spec fn spec_children(&self) -> Seq<InternalTree<T>> {
        self.children_list@
    }

    /// The trees of the heap are well-formed trees of its kind, the heap
    /// has counted its payloads, and it points to a tree unless it is
    /// empty.
    pub closed spec fn shaped(&self) -> bool {
        &&& trees_fit(self.children_list@, self.min)
        &&& place_fits(self.priority_pointer, self.min)
        &&& self.size == self@.len()
        &&& self.size > 0 ==> self.priority_pointer is Some
    }

    /// The invariant of the heap: it is shaped as `shaped` says, and the
    /// root of the tree it points to may stand above the roots of all its
    /// other trees.
    pub closed spec fn well_formed(&self) -> bool {
        &&& self.shaped()
        &&& self.priority_pointer is None ==> self.children_list@.len() == 0
        &&& self.priority_pointer matches Some(tree) ==> leads(
            self.min,
            tree.spec_payload(),
            self.children_list@,
        )
    }

    /// The root that a well-formed heap points to may stand above every
    /// payload of the heap, and is one of them.
    proof fn lemma_top_first(&self, item: T)
        requires
            total_order::<T>(),
            self.well_formed(),
            self@.count(item) > 0,
        ensures
            self.priority_pointer is Some,
            outranks(self.min, self.priority_pointer.unwrap().spec_payload(), item),
            self@.count(self.priority_pointer.unwrap().spec_payload()) > 0,
    {
        lemma_total_order::<T>();
        if self.priority_pointer is None {
            assert(grove_items(self.children_list@) =~= Multiset::<T>::empty());
        } else {
            let top = self.priority_pointer.unwrap();
            top.lemma_items_some();
            if top.items().count(item) > 0 {
                top.lemma_root_first(item);
            } else {
                let at = lemma_grove_member(self.children_list@, item);
                self.children_list@[at].lemma_root_first(item);
            }
        }
    }

    /// An empty heap.
    fn init(min: bool) -> (r: FibonacciHeap<T>)
        ensures
            r.well_formed(),
            r@ == Multiset::<T>::empty(),
            r.spec_is_min() == min,
    {
        let r = FibonacciHeap {
            children_list: VecDeque::new(),
            size: 0,
            priority_pointer: None,
            min,
        };
        proof {
            assert(r@ =~= Multiset::<T>::empty());
        }
        r
    }

    /// An empty min heap.
    pub fn init_min() -> (r: FibonacciHeap<T>)
        ensures
            r.well_formed(),
            r@ == Multiset::<T>::empty(),
            r.spec_is_min(),
    {
        FibonacciHeap::init(true)
    }

    /// An empty max heap.
    pub fn init_max() -> (r: FibonacciHeap<T>)
        ensures
            r.well_formed(),
            r@ == Multiset::<T>::empty(),
            !r.spec_is_min(),
    {
        FibonacciHeap::init(false)
    }

    /// Adds `payload` to the heap.
    pub fn push(&mut self, payload: T)
        requires
            total_order::<T>(),
            old(self).well_formed(),
            old(self)@.len() < usize::MAX,
        ensures
            final(self).well_formed(),
            final(self)@ == old(self)@.insert(payload),
            final(self).spec_is_min() == old(self).spec_is_min(),
    {
        let new_node = InternalTree::init(payload, self.is_min());
        let heap_is_min = self.is_min();
        let ghost trees = self.children_list@;
        proof {
            lemma_total_order::<T>();
        }
        match self.priority_pointer.take() {
            None => {
                self.priority_pointer = Some(new_node);
                proof {
                    assert(grove_items(trees) =~= Multiset::<T>::empty());
                    assert(self@ =~= old(self)@.insert(payload));
                }
            },
            Some(current) => {
                if InternalTree::has_higher_priority(&new_node, &current, heap_is_min) {
                    self.priority_pointer = Some(new_node);
                    self.children_list.push_back(current);
                    proof {
                        lemma_grove_push(trees, current);
                        assert(self@ =~= old(self)@.insert(payload));
                        assert forall|i: int| 0 <= i < self.children_list@.len() implies outranks(
                            self.min,
                            payload,
                            (#[trigger] self.children_list@[i]).spec_payload(),
                        ) by {
                            if i < trees.len() {
                                assert(self.children_list@[i] == trees[i]);
                                assert(outranks(
                                    self.min,
                                    current.spec_payload(),
                                    trees[i].spec_payload(),
                                ));
                            }
                        }
                    }
                } else {
                    self.priority_pointer = Some(current);
                    self.children_list.push_back(new_node);
                    proof {
                        lemma_grove_push(trees, new_node);
                        assert(self@ =~= old(self)@.insert(payload));
                        assert forall|i: int| 0 <= i < self.children_list@.len() implies outranks(
                            self.min,
                            current.spec_payload(),
                            (#[trigger] self.children_list@[i]).spec_payload(),
                        ) by {
                            if i < trees.len() {
                                assert(self.children_list@[i] == trees[i]);
                            }
                        }
                    }
                }
            },
        }
        self.size += 1;
    }

    /// One heap with the payloads of two heaps of one kind.
    pub fn merge(fibonacci_heap_1: FibonacciHeap<T>, fibonacci_heap_2: FibonacciHeap<T>) -> (r:
        FibonacciHeap<T>)
        requires
            total_order::<T>(),
            fibonacci_heap_1.well_formed(),
            fibonacci_heap_2.well_formed(),
            fibonacci_heap_1.spec_is_min() == fibonacci_heap_2.spec_is_min(),
            fibonacci_heap_1@.len() + fibonacci_heap_2@.len() <= usize::MAX,
        ensures
            r.well_formed(),
            r@ == fibonacci_heap_1@.add(fibonacci_heap_2@),
            r.spec_is_min() == fibonacci_heap_1.spec_is_min(),
    {
        let mut fibonacci_heap_1 = fibonacci_heap_1;
        let mut fibonacci_heap_2 = fibonacci_heap_2;
        let ghost first = fibonacci_heap_1;
        let ghost second = fibonacci_heap_2;
        if fibonacci_heap_1.is_empty() {
            proof {
                assert(first@.add(second@) =~= second@);
            }
            return fibonacci_heap_2;
        } else if fibonacci_heap_2.is_empty() {
            proof {
                assert(first@.add(second@) =~= first@);
            }
            return fibonacci_heap_1;
        }
        proof {
            lemma_total_order::<T>();
            lemma_grove_join(first.children_list@, second.children_list@);
        }
        fibonacci_heap_1.children_list.append(&mut fibonacci_heap_2.children_list);
        let ghost joined_trees = fibonacci_heap_1.children_list@;
        let heap_is_min = fibonacci_heap_1.is_min();
        let top_1 = fibonacci_heap_1.priority_pointer.take().unwrap();
        let top_2 = fibonacci_heap_2.priority_pointer.take().unwrap();
        if InternalTree::has_higher_priority(&top_2, &top_1, heap_is_min) {
            fibonacci_heap_1.priority_pointer = Some(top_2);
            fibonacci_heap_1.children_list.push_back(top_1);
            proof {
                lemma_grove_push(joined_trees, top_1);
                assert(fibonacci_heap_1@ =~= first@.add(second@));
                assert forall|i: int|
                    0 <= i < fibonacci_heap_1.children_list@.len() implies outranks(
                    heap_is_min,
                    top_2.spec_payload(),
                    (#[trigger] fibonacci_heap_1.children_list@[i]).spec_payload(),
                ) by {
                    let tree = fibonacci_heap_1.children_list@[i];
                    if i < first.children_list@.len() {
                        assert(tree == first.children_list@[i]);
                        assert(outranks(heap_is_min, top_1.spec_payload(), tree.spec_payload()));
                    } else if i < joined_trees.len() {
                        assert(tree == second.children_list@[i - first.children_list@.len()]);
                    }
                }
                assert forall|i: int|
                    0 <= i < fibonacci_heap_1.children_list@.len() implies (
                #[trigger] fibonacci_heap_1.children_list@[i]).well_formed()
                    && fibonacci_heap_1.children_list@[i].spec_is_min() == heap_is_min by {
                    let tree = fibonacci_heap_1.children_list@[i];
                    if i < first.children_list@.len() {
                        assert(tree == first.children_list@[i]);
                    } else if i < joined_trees.len() {
                        assert(tree == second.children_list@[i - first.children_list@.len()]);
                    }
                }
            }
        } else {
            fibonacci_heap_1.priority_pointer = Some(top_1);
            fibonacci_heap_1.children_list.push_back(top_2);
            proof {
                lemma_grove_push(joined_trees, top_2);
                assert(fibonacci_heap_1@ =~= first@.add(second@));
                assert forall|i: int|
                    0 <= i < fibonacci_heap_1.children_list@.len() implies outranks(
                    heap_is_min,
                    top_1.spec_payload(),
                    (#[trigger] fibonacci_heap_1.children_list@[i]).spec_payload(),
                ) by {
                    let tree = fibonacci_heap_1.children_list@[i];
                    if i < first.children_list@.len() {
                        assert(tree == first.children_list@[i]);
                    } else if i < joined_trees.len() {
                        assert(tree == second.children_list@[i - first.children_list@.len()]);
                        assert(outranks(heap_is_min, top_2.spec_payload(), tree.spec_payload()));
                    }
                }
                assert forall|i: int|
                    0 <= i < fibonacci_heap_1.children_list@.len() implies (
                #[trigger] fibonacci_heap_1.children_list@[i]).well_formed()
                    && fibonacci_heap_1.children_list@[i].spec_is_min() == heap_is_min by {
                    let tree = fibonacci_heap_1.children_list@[i];
                    if i < first.children_list@.len() {
                        assert(tree == first.children_list@[i]);
                    } else if i < joined_trees.len() {
                        assert(tree == second.children_list@[i - first.children_list@.len()]);
                    }
                }
            }
        }
        fibonacci_heap_1.size += fibonacci_heap_2.size;
        fibonacci_heap_1
    }

    /// Takes the payload that comes first out of the heap: the smallest of
    /// a min heap, the largest of a max heap.
    pub fn pop(&mut self) -> (r: Option<T>)
        requires
            total_order::<T>(),
            old(self).well_formed(),
        ensures
            final(self).well_formed(),
            final(self).spec_is_min() == old(self).spec_is_min(),
            old(self)@.len() == 0 ==> r is None && final(self)@ == old(self)@,
            old(self)@.len() > 0 ==> r is Some && old(self)@.count(r.unwrap()) > 0 && final(self)@
                == old(self)@.remove(r.unwrap()) && forall|item: T|
                #[trigger] old(self)@.count(item) > 0 ==> outranks(
                    old(self).spec_is_min(),
                    r.unwrap(),
                    item,
                ),
    {
        if self.is_empty() {
            return None;
        }
        let priority_node = self.priority_pointer.take().unwrap();
        self.size -= 1;
        let ghost top = priority_node.spec_payload();
        let ghost trees = self.children_list@;
        let ghost below = priority_node.spec_children();
        proof {
            priority_node.lemma_well_formed();
            priority_node.lemma_items();
            priority_node.lemma_items_some();
            priority_node.lemma_items_below_grove(below.len());
            assert(below.subrange(0, below.len() as int) =~= below);
            assert forall|item: T| #[trigger] old(self)@.count(item) > 0 implies outranks(
                self.min,
                top,
                item,
            ) by {
                old(self).lemma_top_first(item);
            }
        }
        let (payload, mut rest) = priority_node.into_parts();
        self.children_list.append(&mut rest);
        proof {
            lemma_grove_join(trees, below);
            assert(old(self)@ =~= Multiset::<T>::empty().insert(top).add(
                grove_items(self.children_list@),
            ));
            assert(grove_items(self.children_list@) =~= old(self)@.remove(top));
            assert forall|i: int| 0 <= i < self.children_list@.len() implies (
            #[trigger] self.children_list@[i]).well_formed() && self.children_list@[i].spec_is_min()
                == self.min by {
                if i < trees.len() {
                    assert(self.children_list@[i] == trees[i]);
                } else {
                    assert(self.children_list@[i] == below[i - trees.len()]);
                }
            }
        }
        if !self.is_empty() {
            proof {
                let some = grove_items(self.children_list@).choose();
                assert(grove_items(self.children_list@).len() > 0);
                assert(grove_items(self.children_list@).count(some) > 0);
                let at = lemma_grove_member(self.children_list@, some);
                lemma_grove_front(self.children_list@);
            }
            self.priority_pointer = self.children_list.pop_front();
            proof {
                assert(self@ =~= old(self)@.remove(top));
            }
            self.consolidate();
        } else {
            proof {
                if self.children_list@.len() > 0 {
                    let tree = self.children_list@[0];
                    tree.lemma_items_some();
                    lemma_grove_holds(self.children_list@, 0, tree.spec_payload());
                }
                assert(self@ =~= old(self)@.remove(top));
            }
        }
        Some(payload)
    }

    /// Merges trees of one degree until every tree left has a degree of its
    /// own, then points to the tree whose root comes out next.
    pub fn consolidate(&mut self)
        requires
            total_order::<T>(),
            old(self).shaped(),
        ensures
            final(self).well_formed(),
            final(self)@ == old(self)@,
            final(self).spec_is_min() == old(self).spec_is_min(),
    {
        if self.is_empty() {
            proof {
                if self.priority_pointer is Some {
                    self.priority_pointer.unwrap().lemma_items_some();
                }
                if self.children_list@.len() > 0 {
                    let tree = self.children_list@[0];
                    tree.lemma_items_some();
                    lemma_grove_holds(self.children_list@, 0, tree.spec_payload());
                }
            }
            return ;
        }
        let ghost total = self@;
        let mut a: Vec<Option<InternalTree<T>>> = Vec::new();
        let first = self.priority_pointer.take().unwrap();
        proof {
            assert(seq![first] + self.children_list@ =~= seq![first] + self.children_list@);
            lemma_grove_join(seq![first], self.children_list@);
            lemma_grove_one(first);
        }
        self.children_list.push_front(first);
        proof {
            assert(places_items(a@) =~= Multiset::<T>::empty());
            assert(grove_items(self.children_list@).add(places_items(a@)) =~= total);
        }
        let mut draining = true;
        while draining
            invariant
                total_order::<T>(),
                self.min == old(self).min,
                self.size == old(self).size,
                self.size == total.len(),
                self.priority_pointer is None,
                trees_fit(self.children_list@, self.min),
                forall|i: int|
                    0 <= i < a@.len() ==> ((#[trigger] a@[i]) matches Some(tree)
                        ==> tree.well_formed() && tree.spec_is_min() == self.min
                        && tree.spec_degree() == i),
                grove_items(self.children_list@).add(places_items(a@)) == total,
                !draining ==> self.children_list@.len() == 0,
            decreases self.children_list@.len() + (if draining { 1nat } else { 0nat }),
        {
            let ghost trees = self.children_list@;
            match self.children_list.pop_front() {
                None => {
                    draining = false;
                },
                Some(tree) => {
                    proof {
                        lemma_grove_front(trees);
                        assert(self.children_list@ =~= trees.subrange(1, trees.len() as int));
                        assert(tree == trees[0]);
                        assert forall|i: int| 0 <= i < self.children_list@.len() implies (
                        #[trigger] self.children_list@[i]).well_formed()
                            && self.children_list@[i].spec_is_min() == self.min by {
                            assert(self.children_list@[i] == trees[i + 1]);
                        }
                    }
                    let mut d = tree.degree();
                    let mut carried = Some(tree);
                    proof {
                        assert(grove_items(self.children_list@).add(places_items(a@)).add(
                            place_items(carried),
                        ) =~= total);
                    }
                    while carried.is_some()
                        invariant
                            total_order::<T>(),
                            self.min == old(self).min,
                            self.size == old(self).size,
                            self.size == total.len(),
                            self.priority_pointer is None,
                            trees_fit(self.children_list@, self.min),
                            self.children_list@.len() < trees.len(),
                            forall|i: int|
                                0 <= i < a@.len() ==> ((#[trigger] a@[i]) matches Some(t)
                                    ==> t.well_formed() && t.spec_is_min() == self.min
                                    && t.spec_degree() == i),
                            carried matches Some(x) ==> x.well_formed() && x.spec_is_min()
                                == self.min && x.spec_degree() == d,
                            grove_items(self.children_list@).add(places_items(a@)).add(
                                place_items(carried),
                            ) == total,
                        decreases
                                if carried is Some {
                                    total.len() - d + 1
                                } else {
                                    0
                                },
                    {
                        let x = carried.unwrap();
                        proof {
                            x.lemma_items_some();
                            assert(total.len() >= x.items().len());
                        }
                        while a.len() <= d
                            invariant
                                forall|i: int|
                                    0 <= i < a@.len() ==> ((#[trigger] a@[i]) matches Some(t)
                                        ==> t.well_formed() && t.spec_is_min() == self.min
                                        && t.spec_degree() == i),
                                grove_items(self.children_list@).add(places_items(a@)).add(
                                    x.items(),
                                ) == total,
                            decreases d + 1 - a@.len(),
                        {
                            let ghost before = a@;
                            a.push(None);
                            proof {
                                lemma_places_push(before, None);
                                assert(place_items::<T>(None) =~= Multiset::<T>::empty());
                                assert(places_items(a@) =~= places_items(before));
                            }
                        }
                        let ghost before = a@;
                        let mut place: Option<InternalTree<T>> = None;
                        a.set_and_swap(d, &mut place);
                        let ghost taken = a@;
                        proof {
                            lemma_places_split(before, d as int);
                            assert(taken =~= before.update(d as int, None));
                            assert(grove_items(self.children_list@).add(places_items(taken)).add(
                                place_items(place),
                            ).add(x.items()) =~= total);
                        }
                        match place {
                            Some(y) => {
                                proof {
                                    y.lemma_items_some();
                                    assert(total.len() >= x.items().len() + y.items().len());
                                }
                                let merged = InternalTree::merge(x, y);
                                carried = Some(merged);
                                d += 1;
                                proof {
                                    assert(grove_items(self.children_list@).add(
                                        places_items(a@),
                                    ).add(place_items(carried)) =~= total);
                                }
                            },
                            None => {
                                a.set(d, Some(x));
                                carried = None;
                                proof {
                                    lemma_places_update(taken, d as int, Some(x));
                                    assert(taken.update(d as int, None) =~= taken);
                                    assert(a@ =~= taken.update(d as int, Some(x)));
                                    assert(place_items::<T>(None) =~= Multiset::<T>::empty());
                                    assert(grove_items(self.children_list@).add(
                                        places_items(a@),
                                    ).add(place_items(carried)) =~= total);
                                }
                            },
                        }
                    }
                    proof {
                        assert(place_items(carried) =~= Multiset::<T>::empty());
                        assert(grove_items(self.children_list@).add(places_items(a@)) =~= total);
                    }
                },
            }
        }
        let heap_is_min = self.is_min();
        let mut best: Option<InternalTree<T>> = None;
        let mut i: usize = 0;
        proof {
            lemma_total_order::<T>();
            assert(grove_items(self.children_list@) =~= Multiset::<T>::empty());
            assert(place_items(best) =~= Multiset::<T>::empty());
            assert(grove_items(self.children_list@).add(places_items(a@)).add(place_items(best))
                =~= total);
        }
        while i < a.len()
            invariant
                total_order::<T>(),
                heap_is_min == self.min,
                self.min == old(self).min,
                self.size == old(self).size,
                self.size == total.len(),
                self.priority_pointer is None,
                i <= a@.len(),
                trees_fit(self.children_list@, self.min),
                place_fits(best, self.min),
                forall|j: int|
                    0 <= j < a@.len() ==> ((#[trigger] a@[j]) matches Some(tree)
                        ==> tree.well_formed() && tree.spec_is_min() == self.min),
                forall|j: int| 0 <= j < i ==> (#[trigger] a@[j]) is None,
                best is None ==> self.children_list@.len() == 0,
                best matches Some(tree) ==> leads(
                    self.min,
                    tree.spec_payload(),
                    self.children_list@,
                ),
                grove_items(self.children_list@).add(places_items(a@)).add(place_items(best))
                    == total,
            decreases a@.len() - i,
        {
            let ghost before = a@;
            let ghost trees = self.children_list@;
            let mut place: Option<InternalTree<T>> = None;
            a.set_and_swap(i, &mut place);
            let ghost taken = a@;
            proof {
                lemma_total_order::<T>();
                lemma_places_split(before, i as int);
                assert(taken =~= before.update(i as int, None));
                assert(grove_items(trees).add(places_items(taken)).add(place_items(place)).add(
                    place_items(best),
                ) =~= total);
            }
            match place {
                None => {
                    proof {
                        assert(place_items(place) =~= Multiset::<T>::empty());
                        assert(grove_items(trees).add(places_items(taken)).add(place_items(best))
                            =~= total);
                    }
                },
                Some(node) => {
                    match best {
                        None => {
                            best = Some(node);
                            proof {
                                assert(grove_items(trees).add(places_items(taken)).add(
                                    place_items(best),
                                ) =~= total);
                            }
                        },
                        Some(current) => {
                            if InternalTree::has_higher_priority(&node, &current, heap_is_min) {
                                self.children_list.push_back(current);
                                best = Some(node);
                                proof {
                                    lemma_grove_push(trees, current);
                                    assert(grove_items(self.children_list@).add(
                                        places_items(taken),
                                    ).add(place_items(best)) =~= total);
                                    assert forall|j: int|
                                        0 <= j < self.children_list@.len() implies outranks(
                                        self.min,
                                        node.spec_payload(),
                                        (#[trigger] self.children_list@[j]).spec_payload(),
                                    ) by {
                                        if j < trees.len() {
                                            assert(self.children_list@[j] == trees[j]);
                                            assert(outranks(
                                                self.min,
                                                current.spec_payload(),
                                                trees[j].spec_payload(),
                                            ));
                                        }
                                    }
                                    assert forall|j: int|
                                        0 <= j < self.children_list@.len() implies (
                                    #[trigger] self.children_list@[j]).well_formed()
                                        && self.children_list@[j].spec_is_min() == self.min by {
                                        if j < trees.len() {
                                            assert(self.children_list@[j] == trees[j]);
                                        }
                                    }
                                }
                            } else {
                                self.children_list.push_back(node);
                                best = Some(current);
                                proof {
                                    lemma_grove_push(trees, node);
                                    assert(grove_items(self.children_list@).add(
                                        places_items(taken),
                                    ).add(place_items(best)) =~= total);
                                    assert forall|j: int|
                                        0 <= j < self.children_list@.len() implies outranks(
                                        self.min,
                                        current.spec_payload(),
                                        (#[trigger] self.children_list@[j]).spec_payload(),
                                    ) by {
                                        if j < trees.len() {
                                            assert(self.children_list@[j] == trees[j]);
                                        }
                                    }
                                    assert forall|j: int|
                                        0 <= j < self.children_list@.len() implies (
                                    #[trigger] self.children_list@[j]).well_formed()
                                        && self.children_list@[j].spec_is_min() == self.min by {
                                        if j < trees.len() {
                                            assert(self.children_list@[j] == trees[j]);
                                        }
                                    }
                                }
                            }
                        },
                    }
                },
            }
            i += 1;
        }
        proof {
            lemma_places_empty(a@);
            assert(place_items(best).add(grove_items(self.children_list@)) =~= total);
            if best is None {
                assert(grove_items(self.children_list@) =~= Multiset::<T>::empty());
            }
        }
        self.priority_pointer = best;
    }

    /// The payload that comes first, if the heap is not empty.
    pub fn peek(&self) -> (r: Option<&T>)
        requires
            total_order::<T>(),
            self.well_formed(),
        ensures
            self@.len() == 0 ==> r is None,
            self@.len() > 0 ==> r is Some && self@.count(*r.unwrap()) > 0 && forall|item: T|
                #[trigger] self@.count(item) > 0 ==> outranks(
                    self.spec_is_min(),
                    *r.unwrap(),
                    item,
                ),
    {
        if self.is_empty() {
            return None;
        }
        proof {
            let some = self@.choose();
            assert(self@.count(some) > 0);
            self.lemma_top_first(some);
            assert forall|item: T| #[trigger] self@.count(item) > 0 implies outranks(
                self.min,
                self.priority_pointer.unwrap().spec_payload(),
                item,
            ) by {
                self.lemma_top_first(item);
            }
        }
        match &self.priority_pointer {
            Some(tree) => Some(tree.peek_payload()),
            None => None,
        }
    }

    /// Empties the heap.
    pub fn clear(&mut self)
        ensures
            final(self).well_formed(),
            final(self)@ == Multiset::<T>::empty(),
            final(self).spec_is_min() == old(self).spec_is_min(),
    {
        self.children_list.clear();
        self.size = 0;
        self.priority_pointer = None;
        proof {
            assert(self@ =~= Multiset::<T>::empty());
        }
    }

    /// Whether the heap holds no payload.
    pub fn is_empty(&self) -> (r: bool)
        ensures
            r == (self.spec_size() == 0),
            self.shaped() ==> r == (self@.len() == 0),
    {
        self.size == 0
    }

    /// The number of payloads in the heap.
    pub fn size(&self) -> (r: usize)
        ensures
            r == self.spec_size(),
            self.shaped() ==> r == self@.len(),
    {
        self.size
    }

    /// Whether smaller payloads come out first.
    pub fn is_min(&self) -> (r: bool)
        ensures
            r == self.spec_is_min(),
    {
        self.min
    }

    /// Whether larger payloads come out first.
    pub fn is_max(&self) -> (r: bool)
        ensures
            r == !self.spec_is_min(),
    {
        !self.is_min()
    }

    /// The tree whose root comes out next, if the heap has one.
    pub fn priority_pointer(&self) -> (r: &Option<InternalTree<T>>)
        ensures
            *r == self.spec_priority(),
    {
        &self.priority_pointer
    }

    /// The other trees of the heap.
    pub fn children_list(&self) -> (r: &VecDeque<InternalTree<T>>)
        ensures
            r@ == self.spec_children(),
    {
        &self.children_list
    }
}

/// The line of the tree that a heap points to, in the text of the heap.
pub open spec fn priority_line(tree_text: Seq<char>) -> Seq<char> {
    seq!['P', 'r', 'i', 'o', 'r', 'i', 't', 'y', ':', ' '] + tree_text + seq!['\n']
}

/// The line of one of the other trees of a heap, in the text of the heap.
pub open spec fn tree_line(number: Seq<char>, tree_text: Seq<char>) -> Seq<char> {
    seq!['T', 'r', 'e', 'e', ' '] + number + seq![':', ' '] + tree_text + seq!['\n']
}

impl<T: Ord + std::fmt::Display> FibonacciHeap<T> {
    /// `line` is the line of the tree at position `at` of the list, counted
    /// from 0: the word `Tree`, the position counted from 1 as it prints, a
    /// colon and a blank, then the payloads of the tree as
    /// `InternalTree::preorder` lists them.
    pub closed spec fn line_of(&self, at: nat, line: Seq<char>) -> bool {
        exists|number: String, whole: Seq<char>|
            {
                &&& line == #[trigger] tree_line(number@, trimmed_text(whole))
                &&& vstd::string::to_string_from_display_ensures::<usize>(
                    &((at + 1) as usize),
                    number,
                )
                &&& at < self.children_list@.len()
                &&& self.children_list@[at as int].shown(whole)
            }
    }

    /// `text` holds the lines of the first `count` trees of the list.
    pub closed spec fn listed(&self, count: nat, text: Seq<char>) -> bool
        decreases count,
    {
        if count == 0 || count > self.children_list@.len() {
            text == Seq::<char>::empty()
        } else {
            exists|first: Seq<char>, line: Seq<char>|
                {
                    &&& text == #[trigger] joined(first, line)
                    &&& self.listed((count - 1) as nat, first)
                    &&& self.line_of((count - 1) as nat, line)
                }
        }
    }

    /// `text` is the text of the heap: the line of the tree that the heap
    /// points to, if it has one, then the lines of its other trees.
    pub closed spec fn described(&self, text: Seq<char>) -> bool {
        exists|head: Seq<char>, rest: Seq<char>|
            {
                &&& text == #[trigger] joined(head, rest)
                &&& self.listed(self.children_list@.len(), rest)
                &&& match self.priority_pointer {
                    Some(tree) => exists|whole: Seq<char>| #[trigger]
                        tree.shown(whole) && head == priority_line(trimmed_text(whole)),
                    None => head == Seq::<char>::empty(),
                }
            }
    }

    /// The trees of the heap as text, one to a line.
    pub fn preorder(fibonacci_heap: &FibonacciHeap<T>) -> (r: String)
        ensures
            fibonacci_heap.described(r@),
    {
        let mut node_list = String::new();
        match &fibonacci_heap.priority_pointer {
            Some(tree) => {
                let tree_string = InternalTree::preorder(tree);
                node_list.append("Priority: ");
                node_list.append(tree_string.as_str());
                node_list.append("\n");
                proof {
                    reveal_strlit("Priority: ");
                    reveal_strlit("\n");
                    assert(node_list@ =~= priority_line(tree_string@));
                }
            },
            None => {},
        }
        let ghost head = node_list@;
        let ghost mut rest = Seq::<char>::empty();
        proof {
            assert(node_list@ =~= head + rest);
        }
        let mut index: usize = 0;
        while index < fibonacci_heap.children_list.len()
            invariant
                index <= fibonacci_heap.children_list@.len(),
                node_list@ == head + rest,
                fibonacci_heap.listed(index as nat, rest),
            decreases fibonacci_heap.children_list@.len() - index,
        {
            let ghost first = rest;
            let internal_tree = &fibonacci_heap.children_list[index];
            let number = (index + 1).to_string();
            let tree_string = InternalTree::preorder(internal_tree);
            node_list.append("Tree ");
            node_list.append(number.as_str());
            node_list.append(": ");
            node_list.append(tree_string.as_str());
            node_list.append("\n");
            proof {
                reveal_strlit("Tree ");
                reveal_strlit(": ");
                reveal_strlit("\n");
                let line = tree_line(number@, tree_string@);
                rest = first + line;
                assert(node_list@ =~= head + rest);
                assert(rest == joined(first, line));
                assert(fibonacci_heap.line_of(index as nat, line));
                assert(fibonacci_heap.listed(((index + 1) - 1) as nat, first));
            }
            index += 1;
        }
        proof {
            assert(node_list@ == joined(head, rest));
        }
        node_list
    }
}

} // verus!
