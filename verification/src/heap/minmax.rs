//! A double-ended priority queue in one array: a heap whose levels take
//! turns, the even ones holding small items and the odd ones large items.

use crate::util::items::lemma_swapped_multiset;
use crate::util::items::swap_items;
use crate::util::order::is_lt;
use crate::util::order::lt;
use crate::util::order::total_order;
use vstd::prelude::*;

verus! {

/// The level of slot `index` in the tree that the array lays out: 0 for the
/// root, one more than that of its parent for any other slot.
pub open spec fn level_of(index: nat) -> nat
    decreases index,
{
    if index == 0 {
        0
    } else {
        1 + level_of(((index - 1) / 2) as nat)
    }
}

/// The slot where the largest item of a heap laid out as `s` is looked for:
/// the root where nothing else is there, else the larger child of the root,
/// the right one on a tie.
pub open spec fn max_slot<T: Ord>(s: Seq<T>) -> int {
    if s.len() <= 1 {
        0
    } else if s.len() == 2 {
        1
    } else if lt(s[2], s[1]) {
        1
    } else {
        2
    }
}

/// A double-ended priority queue. Its view is the array that lays the heap
/// out, the root first.
pub struct MinMax<T: Ord> {
    tree: Vec<T>,
}

impl<T: Ord> View for MinMax<T> {
    type V = Seq<T>;

    closed spec fn view(&self) -> Seq<T> {
        self.tree@
    }
}

/// The number of halvings that bring `n` down to 1.
spec fn halvings(n: nat) -> nat
    decreases n,
{
    if n <= 1 {
        0
    } else {
        1 + halvings(n / 2)
    }
}

proof fn lemma_level_halvings(index: nat)
    ensures
        level_of(index) == halvings(index + 1),
    decreases index,
{
    if index > 0 {
        lemma_level_halvings(((index - 1) / 2) as nat);
        assert((index - 1) / 2 + 1 == (index + 1) / 2);
    }
}

/// Whether slot `index` lies on a level that holds small items.
pub fn is_on_min_level(index: usize) -> (r: bool)
    requires
        index < usize::MAX,
    ensures
        r == (level_of(index as nat) % 2 == 0),
{
    let mut n: usize = index + 1;
    let mut even = true;
    proof {
        lemma_level_halvings(index as nat);
    }
    while n > 1
        invariant
            n >= 1,
            (level_of(index as nat) % 2 == 0) == (even == (halvings(n as nat) % 2 == 0)),
        decreases n,
    {
        n = n / 2;
        even = !even;
    }
    even
}

/// Whether slot `index` has a grandparent.
pub fn has_grandparent(index: usize) -> (r: bool)
    ensures
        r == (index > 2),
{
    index > 2
}

/// Whether slot `index` has a left child among `size` slots.
pub fn has_left_child(index: usize, size: usize) -> (r: bool)
    ensures
        r == (2 * index + 1 < size),
{
    size >= 2 && index <= (size - 2) / 2
}

/// Whether slot `index` has a right child among `size` slots.
pub fn has_right_child(index: usize, size: usize) -> (r: bool)
    ensures
        r == (2 * index + 2 < size),
{
    size >= 3 && index <= (size - 3) / 2
}

/// Whether slot `index` has a child among `size` slots.
pub fn has_child(index: usize, size: usize) -> (r: bool)
    ensures
        r == (2 * index + 1 < size),
{
    has_left_child(index, size) || has_left_child(index, size)
}

/// The slot of the left child of slot `index`.
pub fn left_child(index: usize) -> (r: usize)
    requires
        2 * index + 1 <= usize::MAX,
    ensures
        r == 2 * index + 1,
{
    2 * index + 1
}

/// The slot of the right child of slot `index`.
pub fn right_child(index: usize) -> (r: usize)
    requires
        2 * index + 2 <= usize::MAX,
    ensures
        r == 2 * index + 2,
{
    2 * index + 2
}

/// The slot of the parent of slot `index`.
pub fn parent(index: usize) -> (r: usize)
    requires
        index > 0,
    ensures
        r == (index - 1) / 2,
{
    (index - 1) / 2
}

/// The slot of the grandparent of slot `index`.
pub fn grandparent(index: usize) -> (r: usize)
    requires
        index > 2,
    ensures
        r == ((index - 1) / 2 - 1) / 2,
{
    parent(parent(index))
}

/// Makes room for `additional` more items and no more. This is
/// `Vec::reserve_exact` of the standard library; the contract states that
/// the items stay as they are, and leaves out the requests on which the
/// standard library panics: those for more room than `isize::MAX` bytes.
#[verifier::external_body]
fn reserve_exact_items<T>(v: &mut Vec<T>, additional: usize)
    requires
        old(v)@.len() + additional <= usize::MAX,
        (old(v)@.len() + additional) * vstd::layout::size_of::<T>() <= isize::MAX,
    ensures
        final(v)@ == old(v)@,
{
    v.reserve_exact(additional)
}

/// Gives back the room that holds no item. This is `Vec::shrink_to_fit` of
/// the standard library; the contract states that the items stay as they
/// are.
#[verifier::external_body]
fn shrink_items<T>(v: &mut Vec<T>)
    ensures
        final(v)@ == old(v)@,
{
    v.shrink_to_fit()
}

/// The number of items that fit without a new allocation. This is
/// `Vec::capacity` of the standard library; the contract states that there
/// is room for the items that are there.
#[verifier::external_body]
fn room_for_items<T>(v: &Vec<T>) -> (r: usize)
    ensures
        r >= v@.len(),
{
    v.capacity()
}

impl<T: Ord> MinMax<T> {
    /// An empty heap.
    pub fn init() -> (r: MinMax<T>)
        ensures
            r@ == Seq::<T>::empty(),
    {
        MinMax { tree: Vec::new() }
    }

    /// An empty heap with room for `capacity` items.
    pub fn with_capacity(capacity: usize) -> (r: MinMax<T>)
        ensures
            r@ == Seq::<T>::empty(),
    {
        MinMax { tree: Vec::with_capacity(capacity) }
    }

    /// A heap of the items of `vector`.
    pub fn build_heap(vector: Vec<T>) -> (r: MinMax<T>)
        ensures
            r@.to_multiset() == vector@.to_multiset(),
            r@.len() == vector@.len(),
    {
        let mut minmax_heap = MinMax { tree: vector };
        let upper_bound = minmax_heap.size() / 2;
        let mut i = upper_bound;
        while i > 0
            invariant
                i <= upper_bound,
                upper_bound == vector@.len() / 2,
                minmax_heap@.to_multiset() == vector@.to_multiset(),
                minmax_heap@.len() == vector@.len(),
            decreases i,
        {
            i -= 1;
            minmax_heap.push_down(i);
        }
        minmax_heap
    }

    /// A heap over the array `vector` as it stands, without putting it in
    /// order.
    pub fn with_items(vector: Vec<T>) -> (r: MinMax<T>)
        ensures
            r@ == vector@,
    {
        MinMax { tree: vector }
    }

    /// The array of the heap.
    pub fn items(&self) -> (r: &Vec<T>)
        ensures
            r@ == self@,
    {
        &self.tree
    }

    /// Lets the item at `index` sink to where it belongs.
    pub fn push_down(&mut self, index: usize)
        requires
            index < old(self)@.len(),
        ensures
            final(self)@.to_multiset() == old(self)@.to_multiset(),
            final(self)@.len() == old(self)@.len(),
            forall|i: int| 0 <= i < index ==> final(self)@[i] == old(self)@[i],
    {
        let size = self.size();
        if is_on_min_level(index) {
            self.push_down_min(index);
        } else {
            self.push_down_max(index);
        }
    }

    /// Lets an item on a level of small items sink.
    fn push_down_min(&mut self, index: usize)
        requires
            index < old(self)@.len(),
        ensures
            final(self)@.to_multiset() == old(self)@.to_multiset(),
            final(self)@.len() == old(self)@.len(),
            forall|i: int| 0 <= i < index ==> final(self)@[i] == old(self)@[i],
    {
        let mut index = index;
        let ghost first = index;
        while has_child(index, self.size())
            invariant
                first <= index < self@.len(),
                self@.to_multiset() == old(self)@.to_multiset(),
                self@.len() == old(self)@.len(),
                forall|i: int| 0 <= i < first ==> self@[i] == old(self)@[i],
            decreases self@.len() - index,
        {
            let (smallest_index, is_grandchild) = self.smallest_child_or_grandchild(index);
            if is_grandchild {
                if is_lt(&self.tree[smallest_index], &self.tree[index]) {
                    proof {
                        lemma_swapped_multiset(self@, smallest_index as int, index as int);
                    }
                    swap_items(&mut self.tree, smallest_index, index);
                    let up = parent(smallest_index);
                    if is_lt(&self.tree[up], &self.tree[smallest_index]) {
                        proof {
                            lemma_swapped_multiset(self@, smallest_index as int, up as int);
                        }
                        swap_items(&mut self.tree, smallest_index, up);
                    }
                }
            } else {
                if is_lt(&self.tree[smallest_index], &self.tree[index]) {
                    proof {
                        lemma_swapped_multiset(self@, index as int, smallest_index as int);
                    }
                    swap_items(&mut self.tree, index, smallest_index);
                }
            }
            index = smallest_index;
        }
    }

    /// Lets an item on a level of large items sink.
    fn push_down_max(&mut self, index: usize)
        requires
            index < old(self)@.len(),
        ensures
            final(self)@.to_multiset() == old(self)@.to_multiset(),
            final(self)@.len() == old(self)@.len(),
            forall|i: int| 0 <= i < index ==> final(self)@[i] == old(self)@[i],
    {
        let mut index = index;
        let ghost first = index;
        while has_child(index, self.size())
            invariant
                first <= index < self@.len(),
                self@.to_multiset() == old(self)@.to_multiset(),
                self@.len() == old(self)@.len(),
                forall|i: int| 0 <= i < first ==> self@[i] == old(self)@[i],
            decreases self@.len() - index,
        {
            let (greatest_index, is_grandchild) = self.greatest_child_or_grandchild(index);
            if is_grandchild {
                if is_lt(&self.tree[index], &self.tree[greatest_index]) {
                    proof {
                        lemma_swapped_multiset(self@, index as int, greatest_index as int);
                    }
                    swap_items(&mut self.tree, index, greatest_index);
                    let up = parent(greatest_index);
                    if is_lt(&self.tree[greatest_index], &self.tree[up]) {
                        proof {
                            lemma_swapped_multiset(self@, greatest_index as int, up as int);
                        }
                        swap_items(&mut self.tree, greatest_index, up);
                    }
                }
            } else {
                if is_lt(&self.tree[index], &self.tree[greatest_index]) {
                    proof {
                        lemma_swapped_multiset(self@, index as int, greatest_index as int);
                    }
                    swap_items(&mut self.tree, index, greatest_index);
                }
            }
            index = greatest_index;
        }
    }

    /// The slot of the smallest item among the children and grandchildren of
    /// slot `index`, and whether it is a grandchild; the first such slot in
    /// the order left child, its children, right child, its children.
    pub fn smallest_child_or_grandchild(&self, index: usize) -> (r: (usize, bool))
        requires
            index < self@.len(),
        ensures
            2 * index + 1 < self@.len() ==> index < r.0 < self@.len(),
            2 * index + 1 < self@.len() ==> (r.0 - 1) / 2 >= index,
            2 * index + 1 < self@.len() ==> (r.1 <==> r.0 > 2 * index + 2),
            2 * index + 1 < self@.len() ==> r.0 <= 4 * index + 6,
            2 * index + 1 >= self@.len() ==> r == (index, false),
    {
        let size = self.size();
        if has_left_child(index, size) {
            let left_child_index = left_child(index);
            let mut smallest_index = left_child_index;
            let mut is_grandchild = false;
            if has_left_child(left_child_index, size) {
                let left_grandchild_index = left_child(left_child_index);
                if is_lt(&self.tree[left_grandchild_index], &self.tree[smallest_index]) {
                    smallest_index = left_grandchild_index;
                    is_grandchild = true;
                }
            }
            if has_right_child(left_child_index, size) {
                let right_grandchild_index = right_child(left_child_index);
                if is_lt(&self.tree[right_grandchild_index], &self.tree[smallest_index]) {
                    smallest_index = right_grandchild_index;
                    is_grandchild = true;
                }
            }
            if has_right_child(index, size) {
                let right_child_index = right_child(index);
                if is_lt(&self.tree[right_child_index], &self.tree[smallest_index]) {
                    smallest_index = right_child_index;
                    is_grandchild = false;
                }
                if has_left_child(right_child_index, size) {
                    let left_grandchild_index = left_child(right_child_index);
                    if is_lt(&self.tree[left_grandchild_index], &self.tree[smallest_index]) {
                        smallest_index = left_grandchild_index;
                        is_grandchild = true;
                    }
                }
                if has_right_child(right_child_index, size) {
                    let right_grandchild_index = right_child(right_child_index);
                    if is_lt(&self.tree[right_grandchild_index], &self.tree[smallest_index]) {
                        smallest_index = right_grandchild_index;
                        is_grandchild = true;
                    }
                }
            }
            (smallest_index, is_grandchild)
        } else {
            (index, false)
        }
    }

    /// The slot of the largest item among the children and grandchildren of
    /// slot `index`, and whether it is a grandchild; the first such slot in
    /// the order left child, its children, right child, its children.
    pub fn greatest_child_or_grandchild(&self, index: usize) -> (r: (usize, bool))
        requires
            index < self@.len(),
        ensures
            2 * index + 1 < self@.len() ==> index < r.0 < self@.len(),
            2 * index + 1 < self@.len() ==> (r.0 - 1) / 2 >= index,
            2 * index + 1 < self@.len() ==> (r.1 <==> r.0 > 2 * index + 2),
            2 * index + 1 < self@.len() ==> r.0 <= 4 * index + 6,
            2 * index + 1 >= self@.len() ==> r == (index, false),
    {
        let size = self.size();
        if has_left_child(index, size) {
            let left_child_index = left_child(index);
            let mut greatest_index = left_child_index;
            let mut is_grandchild = false;
            if has_left_child(left_child_index, size) {
                let left_grandchild_index = left_child(left_child_index);
                if is_lt(&self.tree[greatest_index], &self.tree[left_grandchild_index]) {
                    greatest_index = left_grandchild_index;
                    is_grandchild = true;
                }
            }
            if has_right_child(left_child_index, size) {
                let right_grandchild_index = right_child(left_child_index);
                if is_lt(&self.tree[greatest_index], &self.tree[right_grandchild_index]) {
                    greatest_index = right_grandchild_index;
                    is_grandchild = true;
                }
            }
            if has_right_child(index, size) {
                let right_child_index = right_child(index);
                if is_lt(&self.tree[greatest_index], &self.tree[right_child_index]) {
                    greatest_index = right_child_index;
                    is_grandchild = false;
                }
                if has_left_child(right_child_index, size) {
                    let left_grandchild_index = left_child(right_child_index);
                    if is_lt(&self.tree[greatest_index], &self.tree[left_grandchild_index]) {
                        greatest_index = left_grandchild_index;
                        is_grandchild = true;
                    }
                }
                if has_right_child(right_child_index, size) {
                    let right_grandchild_index = right_child(right_child_index);
                    if is_lt(&self.tree[greatest_index], &self.tree[right_grandchild_index]) {
                        greatest_index = right_grandchild_index;
                        is_grandchild = true;
                    }
                }
            }
            (greatest_index, is_grandchild)
        } else {
            (index, false)
        }
    }

    /// Adds `item` to the heap.
    pub fn push(&mut self, item: T)
        ensures
            final(self)@.to_multiset() == old(self)@.to_multiset().insert(item),
            final(self)@.len() == old(self)@.len() + 1,
    {
        proof {
            vstd::seq_lib::to_multiset_build(self@, item);
        }
        self.tree.push(item);
        self.push_up(self.tree.len() - 1);
    }

    /// Lets the item at `index` rise to where it belongs.
    fn push_up(&mut self, index: usize)
        requires
            index < old(self)@.len(),
        ensures
            final(self)@.to_multiset() == old(self)@.to_multiset(),
            final(self)@.len() == old(self)@.len(),
    {
        let size = self.size();
        if index != 0 {
            let up = parent(index);
            if is_on_min_level(index) {
                if is_lt(&self.tree[up], &self.tree[index]) {
                    proof {
                        lemma_swapped_multiset(self@, index as int, up as int);
                    }
                    swap_items(&mut self.tree, index, up);
                    self.push_up_max(up);
                } else {
                    self.push_up_min(index);
                }
            } else {
                if is_lt(&self.tree[index], &self.tree[up]) {
                    proof {
                        lemma_swapped_multiset(self@, index as int, up as int);
                    }
                    swap_items(&mut self.tree, index, up);
                    self.push_up_min(up);
                } else {
                    self.push_up_max(index);
                }
            }
        }
    }

    /// Lets a small item rise past its grandparents.
    fn push_up_min(&mut self, index: usize)
        requires
            index < old(self)@.len(),
        ensures
            final(self)@.to_multiset() == old(self)@.to_multiset(),
            final(self)@.len() == old(self)@.len(),
    {
        let mut index = index;
        while has_grandparent(index) && is_lt(&self.tree[index], &self.tree[grandparent(index)])
            invariant
                index < self@.len(),
                self@.to_multiset() == old(self)@.to_multiset(),
                self@.len() == old(self)@.len(),
            decreases index,
        {
            let up = grandparent(index);
            proof {
                lemma_swapped_multiset(self@, index as int, up as int);
            }
            swap_items(&mut self.tree, index, up);
            index = up;
        }
    }

    /// Lets a large item rise past its grandparents.
    fn push_up_max(&mut self, index: usize)
        requires
            index < old(self)@.len(),
        ensures
            final(self)@.to_multiset() == old(self)@.to_multiset(),
            final(self)@.len() == old(self)@.len(),
    {
        let mut index = index;
        while has_grandparent(index) && is_lt(&self.tree[grandparent(index)], &self.tree[index])
            invariant
                index < self@.len(),
                self@.to_multiset() == old(self)@.to_multiset(),
                self@.len() == old(self)@.len(),
            decreases index,
        {
            let up = grandparent(index);
            proof {
                lemma_swapped_multiset(self@, index as int, up as int);
            }
            swap_items(&mut self.tree, index, up);
            index = up;
        }
    }

    /// The item at the root, if the heap is not empty.
    pub fn peek_min(&self) -> (r: Option<&T>)
        ensures
            r == if self@.len() == 0 {
                None
            } else {
                Some(&self@[0])
            },
    {
        if self.is_empty() {
            return None;
        }
        Some(&self.tree[0])
    }

    /// The item at the slot of the largest item, if the heap is not empty.
    pub fn peek_max(&self) -> (r: Option<&T>)
        requires
            total_order::<T>(),
        ensures
            r == if self@.len() == 0 {
                None
            } else {
                Some(&self@[max_slot(self@)])
            },
    {
        match self.size() {
            0 => None,
            1 => Some(&self.tree[0]),
            2 => Some(&self.tree[1]),
            _ => {
                if is_lt(&self.tree[2], &self.tree[1]) {
                    Some(&self.tree[1])
                } else {
                    Some(&self.tree[2])
                }
            },
        }
    }

    /// Takes the last item off the array and puts it at `slot`, where
    /// another item is; hands that one out.
    fn take_at(&mut self, slot: usize) -> (r: T)
        requires
            slot < old(self)@.len(),
        ensures
            r == old(self)@[slot as int],
            final(self)@.len() == old(self)@.len() - 1,
            final(self)@.to_multiset() == old(self)@.to_multiset().remove(r),
            slot < old(self)@.len() - 1 ==> final(self)@ == old(self)@.drop_last().update(
                slot as int,
                old(self)@.last(),
            ),
            slot == old(self)@.len() - 1 ==> final(self)@ == old(self)@.drop_last(),
    {
        let ghost before = self@;
        let mut last_item = self.tree.pop().unwrap();
        proof {
            broadcast use vstd::multiset::group_multiset_axioms;

            assert(before =~= before.drop_last().push(before.last()));
            vstd::seq_lib::to_multiset_build(before.drop_last(), before.last());
        }
        if slot < self.tree.len() {
            proof {
                broadcast use vstd::multiset::group_multiset_axioms;

                vstd::seq_lib::to_multiset_update(self@, slot as int, last_item);
                vstd::seq_lib::to_multiset_contains(self@, self@[slot as int]);
                assert(self@.to_multiset().count(self@[slot as int]) > 0);
                assert(self@.update(slot as int, last_item).to_multiset()
                    =~= before.to_multiset().remove(before[slot as int]));
            }
            self.tree.set_and_swap(slot, &mut last_item);
        } else {
            proof {
                broadcast use vstd::multiset::group_multiset_axioms;

                assert(self@.to_multiset() =~= before.to_multiset().remove(last_item));
            }
        }
        last_item
    }

    /// Puts `item` at `slot`, where another item is; hands that one out.
    pub fn put_at(&mut self, slot: usize, item: T) -> (r: T)
        requires
            slot < old(self)@.len(),
        ensures
            r == old(self)@[slot as int],
            final(self)@ == old(self)@.update(slot as int, item),
            final(self)@.to_multiset() == old(self)@.to_multiset().remove(r).insert(item),
    {
        let mut item = item;
        proof {
            broadcast use vstd::multiset::group_multiset_axioms;

            vstd::seq_lib::to_multiset_update(self@, slot as int, item);
            vstd::seq_lib::to_multiset_contains(self@, self@[slot as int]);
            assert(self@.to_multiset().count(self@[slot as int]) > 0);
            assert(self@.update(slot as int, item).to_multiset() =~= self@.to_multiset().remove(
                self@[slot as int],
            ).insert(item));
        }
        self.tree.set_and_swap(slot, &mut item);
        item
    }

    /// Takes the item at the root out of the heap.
    pub fn pop_min(&mut self) -> (r: Option<T>)
        ensures
            old(self)@.len() == 0 ==> r is None && final(self)@ == old(self)@,
            old(self)@.len() > 0 ==> r == Some(old(self)@[0]) && final(self)@.to_multiset() == old(self)@.to_multiset().remove(old(self)@[0]) && final(self)@.len() == old(self)@.len() - 1,
    {
        match self.size() {
            0 => None,
            1 => Some(self.take_at(0)),
            _ => {
                let last_item = self.take_at(0);
                self.push_down(0);
                Some(last_item)
            },
        }
    }

    /// Takes the item at the slot of the largest item out of the heap.
    pub fn pop_max(&mut self) -> (r: Option<T>)
        requires
            total_order::<T>(),
        ensures
            old(self)@.len() == 0 ==> r is None && final(self)@ == old(self)@,
            old(self)@.len() > 0 ==> r == Some(old(self)@[max_slot(old(self)@)]) && final(self)@.to_multiset() == old(self)@.to_multiset().remove(old(self)@[max_slot(old(self)@)])
                && final(self)@.len() == old(self)@.len() - 1,
    {
        match self.size() {
            0 => None,
            1 => Some(self.take_at(0)),
            2 => Some(self.take_at(1)),
            _ => {
                let last_item: T;
                if is_lt(&self.tree[2], &self.tree[1]) {
                    last_item = self.take_at(1);
                    self.push_down(1);
                } else {
                    last_item = self.take_at(2);
                    if self.size() > 2 {
                        self.push_down(2);
                    }
                }
                Some(last_item)
            },
        }
    }

    /// Adds `item` and takes the item at the root out, in one step: `item`
    /// comes back where the heap is empty or `item` sorts before the root.
    pub fn push_pop_min(&mut self, item: T) -> (r: Option<T>)
        requires
            total_order::<T>(),
        ensures
            old(self)@.len() == 0 || lt(item, old(self)@[0]) ==> r == Some(item) && final(self)@
                == old(self)@,
            !(old(self)@.len() == 0 || lt(item, old(self)@[0])) ==> r == Some(old(self)@[0])
                && final(self)@.to_multiset() == old(self)@.to_multiset().remove(
                old(self)@[0],
            ).insert(item) && final(self)@.len() == old(self)@.len(),
    {
        if self.is_empty() || is_lt(&item, &self.tree[0]) {
            return Some(item);
        }
        let item = self.put_at(0, item);
        self.push_down(0);
        Some(item)
    }

    /// Adds `item` and takes the largest item out, in one step: `item` comes
    /// back where the heap is empty or `item` sorts after the item at the
    /// slot of the largest.
    pub fn push_pop_max(&mut self, item: T) -> (r: Option<T>)
        requires
            total_order::<T>(),
        ensures
            old(self)@.len() == 0 || lt(old(self)@[max_slot(old(self)@)], item) ==> r == Some(item)
                && final(self)@ == old(self)@,
            !(old(self)@.len() == 0 || lt(old(self)@[max_slot(old(self)@)], item)) ==> r == Some(
                old(self)@[max_slot(old(self)@)],
            ) && final(self)@.to_multiset() == old(self)@.to_multiset().remove(
                old(self)@[max_slot(old(self)@)],
            ).insert(item) && final(self)@.len() == old(self)@.len(),
    {
        match self.size() {
            0 => Some(item),
            _ => {
                let max_index = self.find_max_index();
                if is_lt(&self.tree[max_index], &item) {
                    Some(item)
                } else {
                    let item = self.put_at(max_index, item);
                    if is_lt(&self.tree[max_index], &self.tree[0]) {
                        proof {
                            lemma_swapped_multiset(self@, max_index as int, 0);
                        }
                        swap_items(&mut self.tree, max_index, 0);
                    }
                    self.push_down(max_index);
                    Some(item)
                }
            },
        }
    }

    /// Puts `item` in the place of the item at the root and hands that one
    /// out; where the heap is empty, `item` is added and nothing comes back.
    pub fn replace_min(&mut self, item: T) -> (r: Option<T>)
        ensures
            old(self)@.len() == 0 ==> r is None && final(self)@.to_multiset() == old(self)@.to_multiset().insert(item) && final(self)@.len() == 1,
            old(self)@.len() > 0 ==> r == Some(old(self)@[0]) && final(self)@.to_multiset() == old(self)@.to_multiset().remove(old(self)@[0]).insert(item) && final(self)@.len() == old(self)@.len(),
    {
        if self.is_empty() {
            self.push(item);
            return None;
        }
        let item = self.put_at(0, item);
        self.push_down(0);
        Some(item)
    }

    /// Puts `item` in the place of the item at the slot of the largest and
    /// hands that one out; where the heap is empty, `item` is added and
    /// nothing comes back.
    pub fn replace_max(&mut self, item: T) -> (r: Option<T>)
        requires
            total_order::<T>(),
        ensures
            old(self)@.len() == 0 ==> r is None && final(self)@.to_multiset() == old(self)@.to_multiset().insert(item) && final(self)@.len() == 1,
            old(self)@.len() > 0 ==> r == Some(old(self)@[max_slot(old(self)@)]) && final(self)@.to_multiset() == old(self)@.to_multiset().remove(
                old(self)@[max_slot(old(self)@)],
            ).insert(item) && final(self)@.len() == old(self)@.len(),
    {
        if self.is_empty() {
            self.push(item);
            return None;
        }
        let max_index = self.find_max_index();
        let item = self.put_at(max_index, item);
        if is_lt(&self.tree[max_index], &self.tree[0]) {
            proof {
                lemma_swapped_multiset(self@, max_index as int, 0);
            }
            swap_items(&mut self.tree, max_index, 0);
        }
        self.push_down(max_index);
        Some(item)
    }

    /// The slot where the largest item is looked for.
    fn find_max_index(&self) -> (r: usize)
        requires
            total_order::<T>(),
            self@.len() > 0,
        ensures
            r == max_slot(self@),
            r < self@.len(),
    {
        match self.size() {
            1 => 0,
            2 => 1,
            _ => {
                if is_lt(&self.tree[2], &self.tree[1]) {
                    1
                } else {
                    2
                }
            },
        }
    }

    /// Makes room for at least `additional` more items.
    pub fn reserve(&mut self, additional: usize)
        requires
            old(self)@.len() + additional <= usize::MAX,
            (old(self)@.len() + additional) * vstd::layout::size_of::<T>() <= isize::MAX,
        ensures
            final(self)@ == old(self)@,
    {
        self.tree.reserve(additional);
    }

    /// Makes room for `additional` more items and no more.
    pub fn reserve_exact(&mut self, additional: usize)
        requires
            old(self)@.len() + additional <= usize::MAX,
            (old(self)@.len() + additional) * vstd::layout::size_of::<T>() <= isize::MAX,
        ensures
            final(self)@ == old(self)@,
    {
        reserve_exact_items(&mut self.tree, additional);
    }

    /// Gives back the room that holds no item.
    pub fn shrink_to_fit(&mut self)
        ensures
            final(self)@ == old(self)@,
    {
        shrink_items(&mut self.tree);
    }

    /// The array of the heap.
    pub fn into_vec(self) -> (r: Vec<T>)
        ensures
            r@ == self@,
    {
        self.tree
    }

    /// The number of items in the heap.
    pub fn size(&self) -> (r: usize)
        ensures
            r == self@.len(),
    {
        self.tree.len()
    }

    /// Whether the heap holds no item.
    pub fn is_empty(&self) -> (r: bool)
        ensures
            r == (self@.len() == 0),
    {
        self.size() == 0
    }

    /// Empties the heap.
    pub fn clear(&mut self)
        ensures
            final(self)@ == Seq::<T>::empty(),
    {
        self.tree.clear()
    }

    /// The number of items that fit without a new allocation.
    pub fn capacity(&self) -> (r: usize)
        ensures
            r >= self@.len(),
    {
        room_for_items(&self.tree)
    }
}

} // verus!
