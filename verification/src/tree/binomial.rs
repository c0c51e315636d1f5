//! Binomial trees: heap-ordered trees that double when two of one rank are
//! merged.

use crate::util::order::is_le;
use crate::util::order::le;
use crate::util::order::lemma_total_order;
use crate::util::order::total_order;
use vstd::multiset::Multiset;
use vstd::prelude::*;
use vstd::string::StringExecFns;

verus! {

/// A heap-ordered tree: a payload at the root and below it a list of trees
/// of the same kind.
#[derive(Debug)]
pub struct BinomialTree<T: Ord> {
    rank: usize,
    children: Vec<Option<BinomialTree<T>>>,
    payload: Option<T>,
    min: bool,
}

/// Two texts, one after the other.
pub open spec fn joined(first: Seq<char>, last: Seq<char>) -> Seq<char> {
    first + last
}

/// The text without the white space at its two ends, as `str::trim` of the
/// standard library gives it.
pub uninterp spec fn trimmed_text(text: Seq<char>) -> Seq<char>;

/// A copy of `text` without the white space at its two ends. This is
/// `str::trim` of the standard library; the contract gives its result a
/// name.
#[verifier::external_body]
pub(crate) fn trim_text(text: &str) -> (r: String)
    ensures
        r@ == trimmed_text(text@),
{
    String::from(text.trim())
}

impl<T: Ord> BinomialTree<T> {
    /// The rank of the tree: the number of merges that made it.
    pub closed spec fn spec_rank(&self) -> nat {
        self.rank as nat
    }

    /// The trees below the root, the oldest first.
    pub closed spec fn spec_children(&self) -> Seq<Option<BinomialTree<T>>> {
        self.children@
    }

    /// The payload at the root, unless it was taken out.
    pub closed spec fn spec_payload(&self) -> Option<T> {
        self.payload
    }

    /// Whether smaller payloads go to the root.
    pub closed spec fn spec_is_min(&self) -> bool {
        self.min
    }

    /// The payloads of the first `count` trees below the root, with all
    /// that is below them.
    pub closed spec fn items_below(&self, count: nat) -> Multiset<T>
        decreases self, count,
    {
        if count == 0 || count > self.children@.len() {
            Multiset::empty()
        } else {
            self.items_below((count - 1) as nat).add(
                match self.children@[count - 1] {
                    Some(child) => child.items(),
                    None => Multiset::empty(),
                },
            )
        }
    }

    /// The payloads of the tree.
    pub closed spec fn items(&self) -> Multiset<T>
        decreases self, self.spec_children().len() + 1,
    {
        (match self.payload {
            Some(p) => Multiset::empty().insert(p),
            None => Multiset::empty(),
        }).add(self.items_below(self.children@.len()))
    }

    /// Whether `upper` may stand above `lower` in a tree of this kind:
    /// `upper` does not sort after `lower` where smaller payloads go to the
    /// root, and does not sort before it where larger ones do.
    pub open spec fn above(min: bool, upper: T, lower: T) -> bool {
        if min {
            le(upper, lower)
        } else {
            le(lower, upper)
        }
    }

    /// The first `count` trees below the root are well-formed trees of this
    /// kind, of the ranks 0, 1, 2 and so on, and the payload of each may
    /// stand below that of the root.
    pub closed spec fn well_formed_below(&self, count: nat) -> bool
        decreases self, count,
    {
        if count == 0 {
            true
        } else if count > self.children@.len() {
            false
        } else {
            &&& self.well_formed_below((count - 1) as nat)
            &&& self.payload is Some
            &&& match self.children@[count - 1] {
                Some(child) => child.well_formed() && child.rank == count - 1 && child.min
                    == self.min && BinomialTree::above(
                    self.min,
                    self.payload.unwrap(),
                    child.payload.unwrap(),
                ),
                None => false,
            }
        }
    }

    /// The invariant of a binomial tree: the root has a payload, the rank
    /// is the number of trees below the root, and these are well-formed
    /// trees of the same kind, of the ranks 0, 1, 2 and so on, whose
    /// payloads may stand below that of the root.
    pub closed spec fn well_formed(&self) -> bool
        decreases self, self.spec_children().len() + 1,
    {
        &&& self.payload is Some
        &&& self.rank == self.children@.len()
        &&& self.well_formed_below(self.children@.len())
    }

    /// What the invariant says of the root and of the trees below it.
    pub proof fn lemma_well_formed(&self)
        requires
            self.well_formed(),
        ensures
            self.spec_payload() is Some,
            self.spec_rank() == self.spec_children().len(),
            forall|i: int|
                0 <= i < self.spec_children().len() ==> (#[trigger] self.spec_children()[i]) is Some
                    && self.spec_children()[i].unwrap().well_formed()
                    && self.spec_children()[i].unwrap().spec_rank() == i
                    && self.spec_children()[i].unwrap().spec_is_min() == self.spec_is_min(),
    {
        self.lemma_well_formed_below(self.children@.len());
    }

    proof fn lemma_well_formed_below(&self, count: nat)
        requires
            self.well_formed_below(count),
        ensures
            count <= self.children@.len(),
            forall|i: int|
                0 <= i < count ==> (#[trigger] self.children@[i]) is Some
                    && self.children@[i].unwrap().well_formed() && self.children@[i].unwrap().rank
                    == i && self.children@[i].unwrap().min == self.min && BinomialTree::above(
                    self.min,
                    self.payload.unwrap(),
                    self.children@[i].unwrap().payload.unwrap(),
                ),
        decreases count,
    {
        if count > 0 {
            self.lemma_well_formed_below((count - 1) as nat);
        }
    }

    /// Two trees with the same first children are well-formed below the
    /// root alike.
    proof fn lemma_well_formed_below_same(&self, other: BinomialTree<T>, count: nat)
        requires
            count <= other.children@.len(),
            count <= self.children@.len(),
            forall|i: int| 0 <= i < count ==> self.children@[i] == other.children@[i],
            self.payload == other.payload,
            self.min == other.min,
            other.well_formed_below(count),
        ensures
            self.well_formed_below(count),
        decreases count,
    {
        if count > 0 {
            self.lemma_well_formed_below_same(other, (count - 1) as nat);
        }
    }

    /// A tree of one payload is well-formed.
    pub proof fn lemma_single_well_formed(&self)
        requires
            self.spec_payload() is Some,
            self.spec_rank() == 0,
            self.spec_children().len() == 0,
        ensures
            self.well_formed(),
    {
    }

    /// The payload at the root of a well-formed tree may stand above every
    /// payload of the tree, and is one of them.
    pub proof fn lemma_root_first(&self, item: T)
        requires
            total_order::<T>(),
            self.well_formed(),
            self.items().count(item) > 0,
        ensures
            BinomialTree::above(self.spec_is_min(), self.spec_payload().unwrap(), item),
            self.items().count(self.spec_payload().unwrap()) > 0,
        decreases self, self.spec_children().len() + 1,
    {
        lemma_total_order::<T>();
        let p = self.payload.unwrap();
        if item != p {
            self.lemma_root_first_below(self.children@.len(), item);
        }
    }

    proof fn lemma_root_first_below(&self, count: nat, item: T)
        requires
            total_order::<T>(),
            self.well_formed_below(count),
            count <= self.children@.len(),
            self.payload is Some,
            self.items_below(count).count(item) > 0,
        ensures
            BinomialTree::above(self.min, self.payload.unwrap(), item),
        decreases self, count,
    {
        lemma_total_order::<T>();
        if count > 0 {
            let child = self.children@[count - 1].unwrap();
            if self.items_below((count - 1) as nat).count(item) > 0 {
                self.lemma_root_first_below((count - 1) as nat, item);
            } else {
                child.lemma_root_first(item);
            }
        }
    }

    /// A well-formed tree holds a payload.
    pub proof fn lemma_items_some(&self)
        requires
            self.well_formed(),
        ensures
            self.items().len() >= 1,
            self.items().count(self.spec_payload().unwrap()) > 0,
    {
    }

    /// What a tree holds: the payload at the root and what the trees below
    /// it hold.
    pub proof fn lemma_items(&self)
        ensures
            self.items() == (match self.spec_payload() {
                Some(p) => Multiset::empty().insert(p),
                None => Multiset::empty(),
            }).add(self.items_below(self.spec_children().len())),
            self.items_below(0) == Multiset::<T>::empty(),
            forall|count: nat|
                0 < count <= self.spec_children().len() ==> #[trigger] self.items_below(count)
                    == self.items_below((count - 1) as nat).add(
                    match self.spec_children()[count - 1] {
                        Some(child) => child.items(),
                        None => Multiset::empty(),
                    },
                ),
    {
    }

    /// A tree of one payload in which smaller payloads go to the root.
    pub fn init_min(payload: T) -> (r: BinomialTree<T>)
        ensures
            r.spec_rank() == 0,
            r.spec_children() == Seq::<Option<BinomialTree<T>>>::empty(),
            r.spec_payload() == Some(payload),
            r.spec_is_min(),
    {
        BinomialTree::init(payload, true)
    }

    /// A tree of one payload in which larger payloads go to the root.
    pub fn init_max(payload: T) -> (r: BinomialTree<T>)
        ensures
            r.spec_rank() == 0,
            r.spec_children() == Seq::<Option<BinomialTree<T>>>::empty(),
            r.spec_payload() == Some(payload),
            !r.spec_is_min(),
    {
        BinomialTree::init(payload, false)
    }

    /// A tree of one payload.
    pub fn init(payload: T, min: bool) -> (r: BinomialTree<T>)
        ensures
            r.spec_rank() == 0,
            r.spec_children() == Seq::<Option<BinomialTree<T>>>::empty(),
            r.spec_payload() == Some(payload),
            r.spec_is_min() == min,
    {
        BinomialTree { rank: 0, children: Vec::new(), payload: Some(payload), min }
    }

    /// Puts `binomial_tree` below the root, after the trees that are there.
    fn add(&mut self, binomial_tree: BinomialTree<T>)
        requires
            old(self).spec_rank() < usize::MAX,
        ensures
            final(self).spec_rank() == old(self).spec_rank() + 1,
            final(self).spec_children() == old(self).spec_children().push(Some(binomial_tree)),
            final(self).spec_payload() == old(self).spec_payload(),
            final(self).spec_is_min() == old(self).spec_is_min(),
    {
        self.children.push(Some(binomial_tree));
        self.rank += 1;
    }

    /// Whether, of two trees of one kind, the first is the one whose root
    /// stays the root when the two are merged.
    pub open spec fn first_stays(first: BinomialTree<T>, second: BinomialTree<T>) -> bool {
        if first.spec_is_min() {
            le(first.spec_payload().unwrap(), second.spec_payload().unwrap())
        } else {
            le(second.spec_payload().unwrap(), first.spec_payload().unwrap())
        }
    }

    /// Merges two trees of one rank and one kind: the tree whose payload
    /// has to stay at the root, the first on a tie, takes the other as its
    /// last child.
    pub fn merge(binomial_tree_1: BinomialTree<T>, binomial_tree_2: BinomialTree<T>) -> (r:
        BinomialTree<T>)
        requires
            total_order::<T>(),
            binomial_tree_1.spec_rank() == binomial_tree_2.spec_rank(),
            binomial_tree_1.spec_is_min() == binomial_tree_2.spec_is_min(),
            binomial_tree_1.spec_payload() is Some,
            binomial_tree_2.spec_payload() is Some,
            binomial_tree_1.spec_rank() < usize::MAX,
        ensures
            r.spec_rank() == binomial_tree_1.spec_rank() + 1,
            r.spec_is_min() == binomial_tree_1.spec_is_min(),
            BinomialTree::first_stays(binomial_tree_1, binomial_tree_2) ==> r.spec_payload()
                == binomial_tree_1.spec_payload() && r.spec_children()
                == binomial_tree_1.spec_children().push(Some(binomial_tree_2)),
            !BinomialTree::first_stays(binomial_tree_1, binomial_tree_2) ==> r.spec_payload()
                == binomial_tree_2.spec_payload() && r.spec_children()
                == binomial_tree_2.spec_children().push(Some(binomial_tree_1)),
            r.items() == binomial_tree_1.items().add(binomial_tree_2.items()),
            binomial_tree_1.well_formed() && binomial_tree_2.well_formed() ==> r.well_formed(),
    {
        let mut binomial_tree_1 = binomial_tree_1;
        let mut binomial_tree_2 = binomial_tree_2;
        let trees_are_min = binomial_tree_1.is_min();
        let ghost first = binomial_tree_1;
        let ghost second = binomial_tree_2;
        if (trees_are_min && BinomialTree::is_smaller_or_equall(&binomial_tree_1, &binomial_tree_2))
            || (!trees_are_min && BinomialTree::is_smaller_or_equall(
            &binomial_tree_2,
            &binomial_tree_1,
        )) {
            binomial_tree_1.add(binomial_tree_2);
            proof {
                binomial_tree_1.lemma_items_added(first, second);
                if first.well_formed() && second.well_formed() {
                    binomial_tree_1.lemma_well_formed_below_same(first, first.children@.len());
                }
            }
            return binomial_tree_1;
        } else {
            binomial_tree_2.add(binomial_tree_1);
            proof {
                binomial_tree_2.lemma_items_added(second, first);
                if first.well_formed() && second.well_formed() {
                    lemma_total_order::<T>();
                    binomial_tree_2.lemma_well_formed_below_same(second, second.children@.len());
                }
            }
            return binomial_tree_2;
        }
    }

    /// A tree that took another as its last child holds the payloads of
    /// both.
    proof fn lemma_items_added(&self, before: BinomialTree<T>, added: BinomialTree<T>)
        requires
            self.spec_children() == before.spec_children().push(Some(added)),
            self.spec_payload() == before.spec_payload(),
        ensures
            self.items() == before.items().add(added.items()),
    {
        let n = before.spec_children().len();
        self.lemma_items_below_same(before, n);
        assert(self.spec_children()[n as int] == Some(added));
        assert(self.items_below(n + 1) == self.items_below(n).add(added.items()));
        assert(self.items() =~= before.items().add(added.items()));
    }

    /// Two trees with the same first children hold the same payloads below
    /// them.
    proof fn lemma_items_below_same(&self, other: BinomialTree<T>, count: nat)
        requires
            count <= other.spec_children().len(),
            count <= self.spec_children().len(),
            forall|i: int| 0 <= i < count ==> self.spec_children()[i] == other.spec_children()[i],
        ensures
            self.items_below(count) == other.items_below(count),
        decreases count,
    {
        if count > 0 {
            self.lemma_items_below_same(other, (count - 1) as nat);
        }
    }

    /// The rank of the tree.
    pub fn rank(&self) -> (r: usize)
        ensures
            r == self.spec_rank(),
    {
        self.rank
    }

    /// Whether smaller payloads go to the root.
    pub fn is_min(&self) -> (r: bool)
        ensures
            r == self.spec_is_min(),
    {
        self.min
    }

    /// Takes the payload out of the root.
    pub fn get_payload(&mut self) -> (r: T)
        requires
            old(self).spec_payload() is Some,
        ensures
            Some(r) == old(self).spec_payload(),
            final(self).spec_payload() is None,
            final(self).spec_rank() == old(self).spec_rank(),
            final(self).spec_children() == old(self).spec_children(),
            final(self).spec_is_min() == old(self).spec_is_min(),
    {
        self.payload.take().unwrap()
    }

    /// The payload at the root, unless it was taken out.
    pub fn peek_payload(&self) -> (r: &Option<T>)
        ensures
            *r == self.spec_payload(),
    {
        &self.payload
    }

    /// Whether the payload of `first` sorts before that of `other` or is
    /// the same.
    pub fn is_smaller_or_equall(first: &BinomialTree<T>, other: &BinomialTree<T>) -> (r: bool)
        requires
            first.spec_payload() is Some,
            other.spec_payload() is Some,
        ensures
            total_order::<T>() ==> r == le(
                first.spec_payload().unwrap(),
                other.spec_payload().unwrap(),
            ),
    {
        match (first.peek_payload(), other.peek_payload()) {
            (Some(payload1), Some(payload2)) => is_le(payload1, payload2),
            _ => false,
        }
    }

    /// Whether the payload of `first` sorts after that of `other` or is
    /// the same.
    pub fn is_greater_or_equall(first: &BinomialTree<T>, other: &BinomialTree<T>) -> (r: bool)
        requires
            first.spec_payload() is Some,
            other.spec_payload() is Some,
        ensures
            total_order::<T>() ==> r == le(
                other.spec_payload().unwrap(),
                first.spec_payload().unwrap(),
            ),
    {
        BinomialTree::is_smaller_or_equall(other, first)
    }

    /// The trees below the root, to change them.
    pub fn children_mut(&mut self) -> (r: &mut Vec<Option<BinomialTree<T>>>)
        ensures
            r@ == old(self).spec_children(),
            final(self).spec_children() == final(r)@,
            final(self).spec_payload() == old(self).spec_payload(),
            final(self).spec_rank() == old(self).spec_rank(),
            final(self).spec_is_min() == old(self).spec_is_min(),
    {
        &mut self.children
    }

    /// The trees below the root.
    pub fn children(&self) -> (r: &Vec<Option<BinomialTree<T>>>)
        ensures
            r@ == self.spec_children(),
    {
        &self.children
    }
}

impl<T: Ord + std::fmt::Display> BinomialTree<T> {
    /// `text` lists the payloads of the first `count` trees below the root
    /// with all that is below them, as `shown` lists those of a tree.
    pub closed spec fn shown_below(&self, count: nat, text: Seq<char>) -> bool
        decreases self, count, 1nat,
    {
        if count == 0 || count > self.spec_children().len() {
            text == Seq::<char>::empty()
        } else {
            exists|first: Seq<char>, last: Seq<char>|
                {
                    &&& text == #[trigger] joined(first, last)
                    &&& self.shown_below((count - 1) as nat, first)
                    &&& self.shown_at(count, last)
                }
        }
    }

    /// `text` lists the payloads of the tree that is the `count`-th below
    /// the root, and is empty where no tree is there.
    pub closed spec fn shown_at(&self, count: nat, text: Seq<char>) -> bool
        decreases self, count, 0nat,
    {
        if count == 0 || count > self.spec_children().len() {
            text == Seq::<char>::empty()
        } else {
            match self.spec_children()[count - 1] {
                Some(child) => child.shown(text),
                None => text == Seq::<char>::empty(),
            }
        }
    }

    /// `text` lists the payloads of the tree, each as it prints and with a
    /// blank after it: that of the root, then those of the trees below it
    /// from the oldest on, each tree in this same way.
    pub closed spec fn shown(&self, text: Seq<char>) -> bool
        decreases self, self.spec_children().len() + 1, 0nat,
    {
        match self.spec_payload() {
            Some(p) => exists|own: String, rest: Seq<char>|
                {
                    &&& text == #[trigger] joined(own@ + seq![' '], rest)
                    &&& vstd::string::to_string_from_display_ensures::<T>(&p, own)
                    &&& self.shown_below(self.spec_children().len(), rest)
                },
            None => self.shown_below(self.spec_children().len(), text),
        }
    }

    /// The text for one more tree below the root.
    proof fn lemma_shown_next(&self, count: nat, first: Seq<char>, last: Seq<char>)
        requires
            count < self.spec_children().len(),
            self.shown_below(count, first),
            match self.spec_children()[count as int] {
                Some(child) => child.shown(last),
                None => last == Seq::<char>::empty(),
            },
        ensures
            self.shown_below(count + 1, first + last),
    {
        let next = count + 1;
        assert(self.shown_below((next - 1) as nat, first));
        assert(self.spec_children()[next - 1] == self.spec_children()[count as int]);
        assert(self.shown_at(next, last));
        assert(first + last == joined(first, last));
    }

    /// The text of a tree from that of its root and that of what is below.
    proof fn lemma_shown_whole(&self, own: String, rest: Seq<char>)
        requires
            self.shown_below(self.spec_children().len(), rest),
            match self.spec_payload() {
                Some(p) => vstd::string::to_string_from_display_ensures::<T>(&p, own),
                None => true,
            },
        ensures
            self.shown(
                match self.spec_payload() {
                    Some(p) => own@ + seq![' '] + rest,
                    None => rest,
                },
            ),
    {
        assert(own@ + seq![' '] + rest == joined(own@ + seq![' '], rest));
    }

    /// The payloads of the tree as text, with a blank between one and the
    /// next: that of the root, then those of the trees below it from the
    /// oldest on, each tree in this same way.
    pub fn preorder(root: &BinomialTree<T>) -> (r: String)
        ensures
            exists|text: Seq<char>| #[trigger] root.shown(text) && r@ == trimmed_text(text),
    {
        let text = BinomialTree::_pre_visit(&Some(root));
        trim_text(text.as_str())
    }

    /// The text of `shown` for a tree, and no text for none.
    fn _pre_visit(node: &Option<&BinomialTree<T>>) -> (r: String)
        ensures
            match *node {
                None => r@ == Seq::<char>::empty(),
                Some(tree) => tree.shown(r@),
            },
    {
        match *node {
            None => String::new(),
            Some(data) => BinomialTree::visit(data),
        }
    }

    /// The text of `shown` for `data`.
    fn visit(data: &BinomialTree<T>) -> (r: String)
        ensures
            data.shown(r@),
        decreases data,
    {
        let mut node_list = String::new();
        let ghost mut own_text = Seq::<char>::empty();
        let ghost mut own_string = node_list;
        match data.peek_payload() {
            Some(value) => {
                let own = value.to_string();
                node_list.append(own.as_str());
                node_list.append(" ");
                proof {
                    reveal_strlit(" ");
                    own_string = own;
                    own_text = own@ + seq![' '];
                    assert(node_list@ =~= own_text);
                }
            },
            None => (),
        }
        let ghost mut below = Seq::<char>::empty();
        let mut i: usize = 0;
        proof {
            assert(node_list@ =~= own_text + below);
        }
        while i < data.children.len()
            invariant
                i <= data.children@.len(),
                node_list@ == own_text + below,
                data.shown_below(i as nat, below),
            decreases data.children@.len() - i,
        {
            let ghost first = below;
            match &data.children[i] {
                Some(child) => {
                    let child_text = BinomialTree::visit(child);
                    node_list.append(child_text.as_str());
                    proof {
                        below = below + child_text@;
                        data.lemma_shown_next(i as nat, first, child_text@);
                        assert(node_list@ =~= own_text + below);
                    }
                },
                None => {
                    proof {
                        data.lemma_shown_next(i as nat, first, Seq::<char>::empty());
                        assert(below =~= first + Seq::<char>::empty());
                    }
                },
            }
            proof {
                assert(data.shown_below((i + 1) as nat, below));
            }
            i += 1;
        }
        proof {
            data.lemma_shown_whole(own_string, below);
            if data.spec_payload() is None {
                assert(node_list@ =~= below);
            }
        }
        node_list
    }
}

} // verus!
