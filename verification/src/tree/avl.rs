//! An ordered map on a height-balanced search tree, with lookup by key, by
//! position and by rank.

use crate::tree::balance::lemma_min_size_limit;
use crate::tree::balance::lemma_min_size_monotone;
use crate::tree::balance::min_size;
use crate::tree::keyed::drop_value;
use crate::tree::keyed::is_ceiling;
use crate::tree::keyed::is_floor;
use crate::tree::keyed::lemma_drop_left;
use crate::tree::keyed::lemma_drop_middle;
use crate::tree::keyed::lemma_drop_right;
use crate::tree::keyed::lemma_put_left;
use crate::tree::keyed::lemma_put_middle;
use crate::tree::keyed::lemma_put_right;
use crate::tree::keyed::put_value;
use crate::util::order::is_eq;
use crate::util::order::is_lt;
use crate::util::order::key_order;
use crate::util::order::le;
use crate::util::order::lemma_key_order;
use crate::util::order::lemma_total_order;
use crate::util::order::total_order;
use crate::util::sorted::all_after;
use crate::util::sorted::all_before;
use crate::util::sorted::ascending;
use crate::util::sorted::between;
use crate::util::sorted::lemma_after_further;
use crate::util::sorted::lemma_before_further;
use crate::util::sorted::lemma_between_join;
use crate::util::sorted::lemma_between_left_empty;
use crate::util::sorted::lemma_between_len;
use crate::util::sorted::lemma_between_none;
use crate::util::sorted::lemma_between_right_empty;
use crate::util::sorted::lemma_index_of_rank;
use crate::util::sorted::lemma_join_after;
use crate::util::sorted::lemma_join_ascending;
use crate::util::sorted::lemma_join_before;
use crate::util::sorted::lemma_join_contains;
use crate::util::sorted::lemma_rank_bound;
use crate::util::sorted::lemma_rank_join;
use crate::util::sorted::lemma_rank_monotone;
use crate::util::sorted::lemma_rank_of_index;
use crate::util::sorted::lemma_with_left;
use crate::util::sorted::lemma_with_right;
use crate::util::sorted::lemma_without_left;
use crate::util::sorted::lemma_without_middle;
use crate::util::sorted::lemma_without_right;
use crate::util::sorted::rank_of;
use crate::util::sorted::with_item;
use crate::util::sorted::without_item;
use std::collections::VecDeque;
use vstd::multiset::Multiset;
use vstd::prelude::*;

verus! {

/// The contents of a sequence of borrowed values.
pub open spec fn deref_all<A>(s: Seq<&A>) -> Seq<A> {
    s.map_values(|r: &A| *r)
}

/// A node of the tree with its two subtrees.
pub struct Node<K: Ord, V> {
    key: K,
    value: V,
    height: usize,
    size: usize,
    left_child: Option<Box<Node<K, V>>>,
    right_child: Option<Box<Node<K, V>>>,
}

impl<K: Ord, V> Node<K, V> {
    /// The keys of a subtree, in order.
    spec fn keys(link: Option<Box<Node<K, V>>>) -> Seq<K>
        decreases link,
    {
        match link {
            None => Seq::empty(),
            Some(n) => Node::keys(n.left_child) + seq![n.key] + Node::keys(n.right_child),
        }
    }

    /// The values of a subtree, in the order of their keys.
    spec fn values(link: Option<Box<Node<K, V>>>) -> Seq<V>
        decreases link,
    {
        match link {
            None => Seq::empty(),
            Some(n) => Node::values(n.left_child) + seq![n.value] + Node::values(n.right_child),
        }
    }

    /// The cached height of a subtree; an absent one counts -1.
    pub closed spec fn height_of(link: Option<Box<Node<K, V>>>) -> int {
        match link {
            None => -1,
            Some(n) => n.height as int,
        }
    }

    /// The cached size of a subtree; an absent one counts 0.
    spec fn size_of(link: Option<Box<Node<K, V>>>) -> int {
        match link {
            None => 0,
            Some(n) => n.size as int,
        }
    }

    /// Height of the left subtree less height of the right subtree.
    spec fn lean(self) -> int {
        Node::height_of(self.left_child) - Node::height_of(self.right_child)
    }

    /// What holds of one node, given its subtrees: the search order, and the
    /// cached height and size.
    spec fn local(self) -> bool {
        &&& all_before(Node::keys(self.left_child), self.key, key_order::<K>())
        &&& all_after(Node::keys(self.right_child), self.key, key_order::<K>())
        &&& self.height == 1 + vstd::math::max(
            Node::height_of(self.left_child),
            Node::height_of(self.right_child),
        )
        &&& self.size == Node::keys(Some(Box::new(self))).len()
    }

    /// `local` holds of every node of the subtree.
    spec fn shaped(link: Option<Box<Node<K, V>>>) -> bool
        decreases link,
    {
        match link {
            None => true,
            Some(n) => Node::shaped(n.left_child) && Node::shaped(n.right_child) && n.local(),
        }
    }

    /// At every node of the subtree the heights of the two subtrees differ by
    /// at most one.
    spec fn balanced(link: Option<Box<Node<K, V>>>) -> bool
        decreases link,
    {
        match link {
            None => true,
            Some(n) => Node::balanced(n.left_child) && Node::balanced(n.right_child) && -1
                <= n.lean() <= 1,
        }
    }

    /// At every node of the subtree the keys of the left subtree sort before
    /// the node's key and those of the right subtree after it.
    spec fn ordered(link: Option<Box<Node<K, V>>>) -> bool
        decreases link,
    {
        match link {
            None => true,
            Some(n) => Node::ordered(n.left_child) && Node::ordered(n.right_child) && all_before(
                Node::keys(n.left_child),
                n.key,
                key_order::<K>(),
            ) && all_after(Node::keys(n.right_child), n.key, key_order::<K>()),
        }
    }

    /// At every node of the subtree the cached size is one more than the
    /// cached sizes of its two subtrees.
    spec fn sized(link: Option<Box<Node<K, V>>>) -> bool
        decreases link,
    {
        match link {
            None => true,
            Some(n) => Node::sized(n.left_child) && Node::sized(n.right_child) && n.size == 1
                + Node::size_of(n.left_child) + Node::size_of(n.right_child),
        }
    }

    spec fn wf(link: Option<Box<Node<K, V>>>) -> bool {
        Node::shaped(link) && Node::balanced(link)
    }

    /// Every key of `s` lies strictly between `low` and `high`, where they
    /// are given.
    spec fn within(s: Seq<K>, low: Option<&K>, high: Option<&K>) -> bool {
        &&& low matches Some(l) ==> all_after(s, *l, key_order::<K>())
        &&& high matches Some(h) ==> all_before(s, *h, key_order::<K>())
    }

    proof fn lemma_shaped(link: Option<Box<Node<K, V>>>)
        requires
            total_order::<K>(),
            Node::shaped(link),
        ensures
            ascending(Node::keys(link), key_order::<K>()),
            -1 <= Node::height_of(link) < Node::keys(link).len(),
            link is None <==> Node::keys(link).len() == 0,
            Node::size_of(link) == Node::keys(link).len(),
            Node::values(link).len() == Node::keys(link).len(),
            Node::ordered(link),
            Node::sized(link),
        decreases link,
    {
        lemma_key_order::<K>();
        if let Some(n) = link {
            Node::lemma_shaped(n.left_child);
            Node::lemma_shaped(n.right_child);
            lemma_join_ascending(
                Node::keys(n.left_child),
                n.key,
                Node::keys(n.right_child),
                key_order::<K>(),
            );
        }
    }

    proof fn lemma_values_len(link: Option<Box<Node<K, V>>>)
        ensures
            Node::values(link).len() == Node::keys(link).len(),
        decreases link,
    {
        if let Some(n) = link {
            Node::lemma_values_len(n.left_child);
            Node::lemma_values_len(n.right_child);
        }
    }

    proof fn lemma_balanced_size(link: Option<Box<Node<K, V>>>)
        requires
            total_order::<K>(),
            Node::wf(link),
        ensures
            min_size(Node::height_of(link)) <= Node::keys(link).len(),
        decreases link,
    {
        if let Some(n) = link {
            Node::lemma_balanced_size(n.left_child);
            Node::lemma_balanced_size(n.right_child);
            Node::lemma_shaped(n.left_child);
            Node::lemma_shaped(n.right_child);
            let h = n.height as int;
            let hl = Node::height_of(n.left_child);
            let hr = Node::height_of(n.right_child);
            if h >= 1 {
                if hl >= hr {
                    lemma_min_size_monotone(h - 2, hr);
                } else {
                    lemma_min_size_monotone(h - 2, hl);
                }
            }
        }
    }

    /// The keys of the subtrees that a walk by level has still to visit.
    spec fn pending(q: Seq<&Option<Box<Node<K, V>>>>) -> Multiset<K>
        decreases q.len(),
    {
        if q.len() == 0 {
            Multiset::empty()
        } else {
            Node::pending(q.drop_last()).add(Node::keys(*q.last()).to_multiset())
        }
    }

    /// The number of keys of the subtrees that a walk by level has still to
    /// visit.
    spec fn pending_count(q: Seq<&Option<Box<Node<K, V>>>>) -> nat
        decreases q.len(),
    {
        if q.len() == 0 {
            0
        } else {
            Node::pending_count(q.drop_last()) + Node::keys(*q.last()).len()
        }
    }

    proof fn lemma_pending_push(q: Seq<&Option<Box<Node<K, V>>>>, x: &Option<Box<Node<K, V>>>)
        ensures
            Node::pending(q.push(x)) == Node::pending(q).add(Node::keys(*x).to_multiset()),
            Node::pending_count(q.push(x)) == Node::pending_count(q) + Node::keys(*x).len(),
    {
        assert(q.push(x).drop_last() =~= q);
    }

    /// An absent subtree holds no keys.
    proof fn lemma_no_keys(link: Option<Box<Node<K, V>>>)
        requires
            link is None,
        ensures
            Node::keys(link).to_multiset() == Multiset::<K>::empty(),
            Node::keys(link).len() == 0,
    {
        broadcast use vstd::seq_lib::group_to_multiset_ensures;

        assert(Node::keys(link).to_multiset() =~= Multiset::<K>::empty());
    }

    proof fn lemma_pending_front(q: Seq<&Option<Box<Node<K, V>>>>)
        requires
            q.len() > 0,
        ensures
            Node::pending(q) == Node::keys(*q.first()).to_multiset().add(
                Node::pending(q.drop_first()),
            ),
            Node::pending_count(q) == Node::keys(*q.first()).len() + Node::pending_count(
                q.drop_first(),
            ),
        decreases q.len(),
    {
        if q.len() == 1 {
            assert(q.drop_first() =~= Seq::empty());
            assert(q.drop_last() =~= Seq::empty());
            assert(Node::pending(q) =~= Node::keys(*q.first()).to_multiset().add(
                Node::pending(q.drop_first()),
            ));
        } else {
            Node::lemma_pending_front(q.drop_last());
            assert(q.drop_last().drop_first() =~= q.drop_first().drop_last());
            assert(q.drop_first().last() == q.last());
            assert(q.drop_last().first() == q.first());
            assert(Node::pending(q) =~= Node::keys(*q.first()).to_multiset().add(
                Node::pending(q.drop_first()),
            ));
        }
    }

    /// The keys of a subtree are those of its two subtrees and that of its
    /// root.
    proof fn lemma_keys_multiset(link: Option<Box<Node<K, V>>>)
        requires
            link is Some,
        ensures
            Node::keys(link).to_multiset() == Multiset::<K>::empty().insert(
                link.unwrap().key,
            ).add(Node::keys(link.unwrap().left_child).to_multiset()).add(
                Node::keys(link.unwrap().right_child).to_multiset(),
            ),
            Node::keys(link).len() == 1 + Node::keys(link.unwrap().left_child).len() + Node::keys(
                link.unwrap().right_child,
            ).len(),
    {
        let n = link.unwrap();
        let a = Node::keys(n.left_child);
        let b = Node::keys(n.right_child);
        vstd::seq_lib::lemma_multiset_commutative(a + seq![n.key], b);
        vstd::seq_lib::lemma_multiset_commutative(a, seq![n.key]);
        assert(seq![n.key] =~= Seq::<K>::empty().push(n.key));
        vstd::seq_lib::to_multiset_build(Seq::<K>::empty(), n.key);
        assert(Seq::<K>::empty().to_multiset() =~= Multiset::empty()) by {
            broadcast use vstd::seq_lib::group_to_multiset_ensures;
        }
        assert(Node::keys(link).to_multiset() =~= Multiset::<K>::empty().insert(n.key).add(
            a.to_multiset(),
        ).add(b.to_multiset()));
    }

    fn make(key: K, value: V, height: usize, size: usize) -> (r: Node<K, V>)
        ensures
            r.key == key,
            r.value == value,
            r.height == height,
            r.size == size,
            r.left_child is None,
            r.right_child is None,
    {
        Node { key, value, height, size, left_child: None, right_child: None }
    }

    fn key(&self) -> (r: &K)
        ensures
            *r == self.key,
    {
        &self.key
    }

    fn value(&self) -> (r: &V)
        ensures
            *r == self.value,
    {
        &self.value
    }

    fn renew_height(&mut self)
        requires
            Node::height_of(old(self).left_child) < usize::MAX - 1,
            Node::height_of(old(self).right_child) < usize::MAX - 1,
        ensures
            *final(self) == (Node { height: final(self).height, ..*old(self) }),
            final(self).height == 1 + vstd::math::max(
                Node::height_of(old(self).left_child),
                Node::height_of(old(self).right_child),
            ),
    {
        self.height = match (&self.left_child, &self.right_child) {
            (Some(l), Some(r)) => if l.height >= r.height {
                l.height + 1
            } else {
                r.height + 1
            },
            (Some(l), None) => l.height + 1,
            (None, Some(r)) => r.height + 1,
            (None, None) => 0,
        };
    }

    fn update_size(&mut self)
        requires
            1 + Node::size_of(old(self).left_child) + Node::size_of(old(self).right_child)
                <= usize::MAX,
        ensures
            *final(self) == (Node { size: final(self).size, ..*old(self) }),
            final(self).size == 1 + Node::size_of(old(self).left_child) + Node::size_of(
                old(self).right_child,
            ),
    {
        self.size = 1 + Node::size(&self.left_child) + Node::size(&self.right_child);
    }

    /// The left subtree.
    pub closed spec fn spec_left(self) -> Option<Box<Node<K, V>>> {
        self.left_child
    }

    /// The right subtree.
    pub closed spec fn spec_right(self) -> Option<Box<Node<K, V>>> {
        self.right_child
    }

    /// The height that the node caches.
    pub closed spec fn spec_cached_height(self) -> nat {
        self.height as nat
    }

    /// A node without subtrees that caches the given height and size.
    pub fn init(key: K, value: V, height: usize, size: usize) -> (r: Node<K, V>)
        ensures
            r.spec_cached_height() == height,
            r.spec_left() is None,
            r.spec_right() is None,
    {
        Node::make(key, value, height, size)
    }

    /// The larger of the cached heights of two subtrees.
    pub fn _max_height(node1: &Option<Box<Node<K, V>>>, node2: &Option<Box<Node<K, V>>>) -> (r: i64)
        requires
            Node::height_of(*node1) <= i64::MAX,
            Node::height_of(*node2) <= i64::MAX,
        ensures
            r == vstd::math::max(Node::height_of(*node1), Node::height_of(*node2)),
    {
        let first = Node::height(node1);
        let second = Node::height(node2);
        if first >= second {
            first
        } else {
            second
        }
    }

    /// The height that the node caches.
    pub fn cached_height(&self) -> (r: usize)
        ensures
            r == self.spec_cached_height(),
    {
        self.height
    }

    /// The left subtree.
    pub fn left_child(&self) -> (r: &Option<Box<Node<K, V>>>)
        ensures
            *r == self.spec_left(),
    {
        &self.left_child
    }

    /// The right subtree.
    pub fn right_child(&self) -> (r: &Option<Box<Node<K, V>>>)
        ensures
            *r == self.spec_right(),
    {
        &self.right_child
    }

    /// Puts `child` in the place of the left subtree.
    pub fn set_left_child(&mut self, child: Option<Box<Node<K, V>>>)
        ensures
            final(self).spec_left() == child,
            final(self).spec_right() == old(self).spec_right(),
            final(self).spec_cached_height() == old(self).spec_cached_height(),
    {
        self.left_child = child;
    }

    /// Puts `child` in the place of the right subtree.
    pub fn set_right_child(&mut self, child: Option<Box<Node<K, V>>>)
        ensures
            final(self).spec_right() == child,
            final(self).spec_left() == old(self).spec_left(),
            final(self).spec_cached_height() == old(self).spec_cached_height(),
    {
        self.right_child = child;
    }

    /// Sets the cached height to one more than the larger cached height of
    /// the two subtrees.
    pub fn update_height(&mut self)
        requires
            Node::height_of(old(self).spec_left()) < usize::MAX - 1,
            Node::height_of(old(self).spec_right()) < usize::MAX - 1,
        ensures
            final(self).spec_left() == old(self).spec_left(),
            final(self).spec_right() == old(self).spec_right(),
            final(self).spec_cached_height() == 1 + vstd::math::max(
                Node::height_of(old(self).spec_left()),
                Node::height_of(old(self).spec_right()),
            ),
    {
        self.renew_height();
    }

    /// The cached height of a subtree; an absent one counts -1.
    pub fn height(link: &Option<Box<Node<K, V>>>) -> (r: i64)
        requires
            Node::height_of(*link) <= i64::MAX,
        ensures
            r == Node::height_of(*link),
    {
        match link {
            Some(n) => n.height as i64,
            None => -1,
        }
    }

    fn size(link: &Option<Box<Node<K, V>>>) -> (r: usize)
        ensures
            r == Node::size_of(*link),
    {
        match link {
            Some(n) => n.size,
            None => 0,
        }
    }

    /// Whether the heights of the two subtrees differ by at most one.
    fn level(&self) -> (r: bool)
        ensures
            r == (-1 <= self.lean() <= 1),
    {
        match (&self.left_child, &self.right_child) {
            (Some(l), Some(r)) => if l.height >= r.height {
                l.height - r.height <= 1
            } else {
                r.height - l.height <= 1
            },
            (Some(l), None) => l.height == 0,
            (None, Some(r)) => r.height == 0,
            (None, None) => true,
        }
    }

    fn balance_factor(node: &Box<Node<K, V>>) -> (r: i64)
        requires
            -2 <= node.lean() <= 2,
        ensures
            r == node.lean(),
    {
        let l: usize = match &node.left_child {
            Some(c) => c.height,
            None => 0,
        };
        let r: usize = match &node.right_child {
            Some(c) => c.height,
            None => 0,
        };
        let lift_l: i64 = if node.left_child.is_some() {
            0
        } else {
            -1
        };
        let lift_r: i64 = if node.right_child.is_some() {
            0
        } else {
            -1
        };
        if l >= r {
            (l - r) as i64 + lift_l - lift_r
        } else {
            lift_l - lift_r - ((r - l) as i64)
        }
    }
}

/// An ordered map from `K` to `V`.
pub struct AVL<K: Ord, V> {
    root: Option<Box<Node<K, V>>>,
}

impl<K: Ord, V> View for AVL<K, V> {
    type V = Seq<K>;

    /// The keys of the map in increasing order.
    closed spec fn view(&self) -> Seq<K> {
        Node::keys(self.root)
    }
}

impl<K: Ord, V> AVL<K, V> {
    /// The values of the map, in the order of their keys.
    pub closed spec fn values(&self) -> Seq<V> {
        Node::values(self.root)
    }

    /// The invariant of the tree. At every node: the keys of the left
    /// subtree sort before the node's key and those of the right subtree
    /// after it; the heights of the two subtrees differ by at most one; the
    /// cached height is one more than the larger height of the two subtrees,
    /// and the cached size is the number of keys of the subtree.
    pub closed spec fn well_formed(&self) -> bool {
        Node::wf(self.root)
    }

    /// The height of the tree: -1 where it is empty, 0 for a single node.
    pub closed spec fn spec_height(&self) -> int {
        Node::height_of(self.root)
    }

    /// At every node the heights of the two subtrees differ by at most one.
    pub closed spec fn spec_balanced(&self) -> bool {
        Node::balanced(self.root)
    }

    /// At every node the keys of the left subtree sort before the node's
    /// key and those of the right subtree after it.
    pub closed spec fn spec_ordered(&self) -> bool {
        Node::ordered(self.root)
    }

    /// At every node the cached size is one more than the cached sizes of
    /// the two subtrees.
    pub closed spec fn spec_sized(&self) -> bool {
        Node::sized(self.root)
    }

    /// What the invariant means: the keys stand in strictly increasing
    /// order with one value each, a `usize` counts them, the tree is
    /// balanced, ordered and consistent in its sizes, and its height is that
    /// of a balanced tree.
    pub proof fn lemma_well_formed(&self)
        requires
            total_order::<K>(),
            self.well_formed(),
        ensures
            ascending(self@, key_order::<K>()),
            self.values().len() == self@.len(),
            self@.len() <= usize::MAX,
            self.spec_balanced(),
            self.spec_ordered(),
            self.spec_sized(),
            -1 <= self.spec_height() < self@.len(),
            self.spec_height() < 128,
            min_size(self.spec_height()) <= self@.len(),
    {
        Node::lemma_shaped(self.root);
        Node::lemma_balanced_size(self.root);
        lemma_min_size_limit(self.spec_height());
    }

    /// The rank of the key at position `i` is `i`.
    pub proof fn lemma_rank_of_select(&self, i: int)
        requires
            total_order::<K>(),
            self.well_formed(),
            0 <= i < self@.len(),
        ensures
            rank_of(self@, self@[i], key_order::<K>()) == i,
    {
        self.lemma_well_formed();
        lemma_key_order::<K>();
        lemma_rank_of_index(self@, i, key_order::<K>());
    }

    /// A key of the map stands at the position that is its rank.
    pub proof fn lemma_select_of_rank(&self, key: K)
        requires
            total_order::<K>(),
            self.well_formed(),
            self@.contains(key),
        ensures
            rank_of(self@, key, key_order::<K>()) < self@.len(),
            self@[rank_of(self@, key, key_order::<K>()) as int] == key,
    {
        self.lemma_well_formed();
        lemma_key_order::<K>();
        lemma_index_of_rank(self@, key, key_order::<K>());
    }

    /// An empty map.
    pub fn init() -> (r: AVL<K, V>)
        ensures
            r.well_formed(),
            r@ == Seq::<K>::empty(),
            r.values() == Seq::<V>::empty(),
    {
        AVL { root: None }
    }

    /// Whether the map holds no key.
    pub fn is_empty(&self) -> (r: bool)
        requires
            total_order::<K>(),
            self.well_formed(),
        ensures
            r == (self@.len() == 0),
    {
        proof {
            Node::lemma_shaped(self.root);
        }
        self.root.is_none()
    }

    /// The number of keys in the map.
    pub fn size(&self) -> (r: usize)
        requires
            total_order::<K>(),
            self.well_formed(),
        ensures
            r == self@.len(),
    {
        proof {
            Node::lemma_shaped(self.root);
        }
        Node::size(&self.root)
    }

    /// The height of the tree.
    pub fn height(&self) -> (r: i64)
        requires
            total_order::<K>(),
            self.well_formed(),
        ensures
            r == self.spec_height(),
    {
        proof {
            self.lemma_well_formed();
        }
        Node::height(&self.root)
    }

    /// Whether the map holds `key`.
    pub fn contains(&self, key: &K) -> (r: bool)
        requires
            total_order::<K>(),
            self.well_formed(),
        ensures
            r == self@.contains(*key),
    {
        !self.get(key).is_none()
    }

    /// The value of `key`, if the map holds `key`.
    pub fn get(&self, key: &K) -> (r: Option<&V>)
        requires
            total_order::<K>(),
            self.well_formed(),
        ensures
            r is Some <==> self@.contains(*key),
            r matches Some(v) ==> *v == self.values()[rank_of(self@, *key, key_order::<K>()) as int],
    {
        AVL::_get(&self.root, key)
    }

    fn _get<'a>(node: &'a Option<Box<Node<K, V>>>, key: &K) -> (r: Option<&'a V>)
        requires
            total_order::<K>(),
            Node::shaped(*node),
        ensures
            r is Some <==> Node::keys(*node).contains(*key),
            r matches Some(v) ==> *v == Node::values(*node)[rank_of(
                Node::keys(*node),
                *key,
                key_order::<K>(),
            ) as int],
        decreases *node,
    {
        match node {
            None => None,
            Some(node_ref) => {
                proof {
                    lemma_key_order::<K>();
                    lemma_total_order::<K>();
                    Node::lemma_shaped(node_ref.left_child);
                    Node::lemma_shaped(node_ref.right_child);
                    lemma_rank_join(
                        Node::keys(node_ref.left_child),
                        node_ref.key,
                        Node::keys(node_ref.right_child),
                        *key,
                        key_order::<K>(),
                    );
                    lemma_rank_bound(Node::keys(node_ref.right_child), *key, key_order::<K>());
                    lemma_rank_bound(Node::keys(node_ref.left_child), *key, key_order::<K>());
                }
                if is_lt(key, &node_ref.key) {
                    let r = AVL::_get(&node_ref.left_child, key);
                    proof {
                        if r is Some {
                            lemma_index_of_rank(
                                Node::keys(node_ref.left_child),
                                *key,
                                key_order::<K>(),
                            );
                        }
                    }
                    r
                } else if is_lt(&node_ref.key, key) {
                    let r = AVL::_get(&node_ref.right_child, key);
                    proof {
                        if r is Some {
                            lemma_index_of_rank(
                                Node::keys(node_ref.right_child),
                                *key,
                                key_order::<K>(),
                            );
                        }
                    }
                    r
                } else {
                    Some(node_ref.value())
                }
            },
        }
    }

    /// Gives `key` the value `value`, in place of the one it had if the map
    /// held `key` already.
    pub fn insert(&mut self, key: K, value: V)
        requires
            total_order::<K>(),
            old(self).well_formed(),
            old(self)@.len() < usize::MAX,
        ensures
            final(self).well_formed(),
            final(self)@ == with_item(old(self)@, key, key_order::<K>()),
            final(self).values() == put_value(old(self)@, old(self).values(), key, value),
    {
        self.root = AVL::_insert(self.root.take(), key, value);
    }

    fn _insert(node: Option<Box<Node<K, V>>>, key: K, value: V) -> (r: Option<Box<Node<K, V>>>)
        requires
            total_order::<K>(),
            Node::wf(node),
            Node::keys(node).len() < usize::MAX,
        ensures
            r is Some,
            Node::wf(r),
            Node::keys(r) == with_item(Node::keys(node), key, key_order::<K>()),
            Node::values(r) == put_value(Node::keys(node), Node::values(node), key, value),
            Node::height_of(node) <= Node::height_of(r) <= Node::height_of(node) + 1,
        decreases node,
    {
        let ghost less = key_order::<K>();
        match node {
            None => {
                let leaf = Box::new(Node::make(key, value, 0, 1));
                proof {
                    assert(Node::keys(leaf.left_child) =~= Seq::<K>::empty());
                    assert(Node::keys(leaf.right_child) =~= Seq::<K>::empty());
                    assert(Node::values(leaf.left_child) =~= Seq::<V>::empty());
                    assert(Node::values(leaf.right_child) =~= Seq::<V>::empty());
                    assert(Node::keys(Some(leaf)) =~= seq![key]);
                    assert(Node::values(Some(leaf)) =~= seq![value]);
                    assert(Seq::<K>::empty().insert(0, key) =~= seq![key]);
                    assert(Seq::<V>::empty().insert(0, value) =~= seq![value]);
                    assert(!Seq::<K>::empty().contains(key));
                    assert(leaf.local());
                    assert(Node::shaped(Some(leaf)));
                    assert(Node::balanced(Some(leaf)));
                }
                Some(leaf)
            },
            Some(mut n) => {
                let ghost a = Node::keys(n.left_child);
                let ghost b = Node::keys(n.right_child);
                let ghost va = Node::values(n.left_child);
                let ghost vb = Node::values(n.right_child);
                let ghost nk = n.key;
                let ghost nv = n.value;
                proof {
                    lemma_key_order::<K>();
                    Node::lemma_shaped(n.left_child);
                    Node::lemma_shaped(n.right_child);
                }
                if is_lt(&key, &n.key) {
                    let left = AVL::_insert(n.left_child.take(), key, value);
                    proof {
                        lemma_with_left(a, nk, b, key, less);
                        lemma_put_left(a, va, nk, nv, b, vb, key, value);
                    }
                    n.left_child = left;
                    Some(AVL::rebuild(n))
                } else if is_lt(&n.key, &key) {
                    let right = AVL::_insert(n.right_child.take(), key, value);
                    proof {
                        lemma_with_right(a, nk, b, key, less);
                        lemma_put_right(a, va, nk, nv, b, vb, key, value);
                    }
                    n.right_child = right;
                    Some(AVL::rebuild(n))
                } else {
                    n.value = value;
                    proof {
                        assert(less(key, nk) || key == nk || less(nk, key));
                        lemma_put_middle(a, va, nk, nv, b, vb, value);
                        assert(n.local());
                    }
                    Some(n)
                }
            },
        }
    }

    /// Removes `key` and its value, if the map holds `key`.
    pub fn delete(&mut self, key: &K)
        requires
            total_order::<K>(),
            old(self).well_formed(),
        ensures
            final(self).well_formed(),
            final(self)@ == without_item(old(self)@, *key, key_order::<K>()),
            final(self).values() == drop_value(old(self)@, old(self).values(), *key),
    {
        if !self.is_empty() {
            self.root = AVL::_delete(self.root.take(), key);
        }
    }

    fn _delete(node: Option<Box<Node<K, V>>>, key: &K) -> (r: Option<Box<Node<K, V>>>)
        requires
            total_order::<K>(),
            Node::wf(node),
        ensures
            Node::wf(r),
            Node::keys(r) == without_item(Node::keys(node), *key, key_order::<K>()),
            Node::values(r) == drop_value(Node::keys(node), Node::values(node), *key),
            Node::height_of(node) - 1 <= Node::height_of(r) <= Node::height_of(node),
        decreases node,
    {
        let ghost less = key_order::<K>();
        match node {
            None => None,
            Some(mut n) => {
                let ghost a = Node::keys(n.left_child);
                let ghost b = Node::keys(n.right_child);
                let ghost va = Node::values(n.left_child);
                let ghost vb = Node::values(n.right_child);
                let ghost nk = n.key;
                let ghost nv = n.value;
                proof {
                    lemma_key_order::<K>();
                    Node::lemma_shaped(n.left_child);
                    Node::lemma_shaped(n.right_child);
                }
                if is_lt(key, &n.key) {
                    let left = AVL::_delete(n.left_child.take(), key);
                    proof {
                        lemma_without_left(a, nk, b, *key, less);
                        lemma_drop_left(a, va, nk, nv, b, vb, *key);
                    }
                    n.left_child = left;
                    Some(AVL::rebuild(n))
                } else if is_lt(&n.key, key) {
                    let right = AVL::_delete(n.right_child.take(), key);
                    proof {
                        lemma_without_right(a, nk, b, *key, less);
                        lemma_drop_right(a, va, nk, nv, b, vb, *key);
                    }
                    n.right_child = right;
                    Some(AVL::rebuild(n))
                } else {
                    proof {
                        assert(less(*key, nk) || *key == nk || less(nk, *key));
                        lemma_without_middle(a, nk, b, less);
                        lemma_drop_middle(a, va, nk, nv, b, vb);
                    }
                    AVL::remove_root(n)
                }
            },
        }
    }

    /// Takes the root out of a subtree: its place goes to the one child it
    /// has, or to the first key of its right subtree.
    fn remove_root(node: Box<Node<K, V>>) -> (r: Option<Box<Node<K, V>>>)
        requires
            total_order::<K>(),
            Node::wf(Some(node)),
        ensures
            Node::wf(r),
            Node::keys(r) == Node::keys(node.left_child) + Node::keys(node.right_child),
            Node::values(r) == Node::values(node.left_child) + Node::values(node.right_child),
            node.height - 1 <= Node::height_of(r) <= node.height,
    {
        let ghost less = key_order::<K>();
        let ghost a = Node::keys(node.left_child);
        let ghost b = Node::keys(node.right_child);
        let ghost va = Node::values(node.left_child);
        let ghost vb = Node::values(node.right_child);
        let ghost nk = node.key;
        proof {
            Node::lemma_shaped(node.left_child);
            Node::lemma_shaped(node.right_child);
        }
        let mut n = node;
        if n.left_child.is_none() {
            proof {
                assert(a + b =~= b);
                assert(va + vb =~= vb);
            }
            n.right_child
        } else if n.right_child.is_none() {
            proof {
                assert(a + b =~= a);
                assert(va + vb =~= va);
            }
            n.left_child
        } else {
            let right = n.right_child.take().unwrap();
            let (rest, key, value) = AVL::_take_min(right);
            n.key = key;
            n.value = value;
            n.right_child = rest;
            proof {
                lemma_key_order::<K>();
                let m = b[0];
                assert(less(nk, m));
                lemma_before_further(a, nk, m, less);
                assert(a + b =~= a + seq![m] + b.drop_first());
                assert(va + vb =~= va + seq![vb[0]] + vb.drop_first());
                assert forall|i: int| 0 <= i < b.drop_first().len() implies less(
                    m,
                    #[trigger] b.drop_first()[i],
                ) by {
                    assert(b.drop_first()[i] == b[i + 1]);
                }
            }
            Some(AVL::rebuild(n))
        }
    }

    /// Takes the first key and its value out of a subtree.
    fn _take_min(node: Box<Node<K, V>>) -> (r: (Option<Box<Node<K, V>>>, K, V))
        requires
            total_order::<K>(),
            Node::wf(Some(node)),
        ensures
            Node::wf(r.0),
            Node::keys(r.0) == Node::keys(Some(node)).drop_first(),
            Node::values(r.0) == Node::values(Some(node)).drop_first(),
            r.1 == Node::keys(Some(node))[0],
            r.2 == Node::values(Some(node))[0],
            node.height - 1 <= Node::height_of(r.0) <= node.height,
        decreases node,
    {
        let ghost less = key_order::<K>();
        let ghost a = Node::keys(node.left_child);
        let ghost b = Node::keys(node.right_child);
        let ghost va = Node::values(node.left_child);
        let ghost vb = Node::values(node.right_child);
        let ghost nk = node.key;
        let ghost nv = node.value;
        proof {
            lemma_key_order::<K>();
            Node::lemma_shaped(node.left_child);
            Node::lemma_shaped(node.right_child);
        }
        let mut node = node;
        match node.left_child.take() {
            None => {
                proof {
                    assert((a + seq![nk] + b).drop_first() =~= b);
                    assert((va + seq![nv] + vb).drop_first() =~= vb);
                }
                let n = *node;
                (n.right_child, n.key, n.value)
            },
            Some(l) => {
                let (rest, key, value) = AVL::_take_min(l);
                node.left_child = rest;
                proof {
                    assert((a + seq![nk] + b).drop_first() =~= a.drop_first() + seq![nk] + b);
                    assert((va + seq![nv] + vb).drop_first() =~= va.drop_first() + seq![nv] + vb);
                    assert forall|i: int| 0 <= i < a.drop_first().len() implies less(
                        #[trigger] a.drop_first()[i],
                        nk,
                    ) by {
                        assert(a.drop_first()[i] == a[i + 1]);
                    }
                }
                (Some(AVL::rebuild(node)), key, value)
            },
        }
    }

    /// Removes the first key and its value, if there is one.
    pub fn delete_min(&mut self)
        requires
            total_order::<K>(),
            old(self).well_formed(),
        ensures
            final(self).well_formed(),
            final(self)@ == if old(self)@.len() > 0 {
                old(self)@.drop_first()
            } else {
                old(self)@
            },
            final(self).values() == if old(self)@.len() > 0 {
                old(self).values().drop_first()
            } else {
                old(self).values()
            },
    {
        if !self.is_empty() {
            self.root = AVL::_delete_min(self.root.take().unwrap());
        }
    }

    fn _delete_min(node: Box<Node<K, V>>) -> (r: Option<Box<Node<K, V>>>)
        requires
            total_order::<K>(),
            Node::wf(Some(node)),
        ensures
            Node::wf(r),
            Node::keys(r) == Node::keys(Some(node)).drop_first(),
            Node::values(r) == Node::values(Some(node)).drop_first(),
            node.height - 1 <= Node::height_of(r) <= node.height,
    {
        AVL::_take_min(node).0
    }

    /// Removes the last key and its value, if there is one.
    pub fn delete_max(&mut self)
        requires
            total_order::<K>(),
            old(self).well_formed(),
        ensures
            final(self).well_formed(),
            final(self)@ == if old(self)@.len() > 0 {
                old(self)@.drop_last()
            } else {
                old(self)@
            },
            final(self).values() == if old(self)@.len() > 0 {
                old(self).values().drop_last()
            } else {
                old(self).values()
            },
    {
        proof {
            Node::lemma_values_len(self.root);
        }
        if !self.is_empty() {
            self.root = AVL::_delete_max(self.root.take().unwrap());
        }
    }

    fn _delete_max(node: Box<Node<K, V>>) -> (r: Option<Box<Node<K, V>>>)
        requires
            total_order::<K>(),
            Node::wf(Some(node)),
        ensures
            Node::wf(r),
            Node::keys(r) == Node::keys(Some(node)).drop_last(),
            Node::values(r) == Node::values(Some(node)).drop_last(),
            node.height - 1 <= Node::height_of(r) <= node.height,
        decreases node,
    {
        let ghost less = key_order::<K>();
        let ghost a = Node::keys(node.left_child);
        let ghost b = Node::keys(node.right_child);
        let ghost va = Node::values(node.left_child);
        let ghost vb = Node::values(node.right_child);
        let ghost nk = node.key;
        let ghost nv = node.value;
        proof {
            lemma_key_order::<K>();
            Node::lemma_shaped(node.left_child);
            Node::lemma_shaped(node.right_child);
        }
        let mut node = node;
        match node.right_child.take() {
            None => {
                proof {
                    assert((a + seq![nk] + b).drop_last() =~= a);
                    assert((va + seq![nv] + vb).drop_last() =~= va);
                }
                node.left_child.take()
            },
            Some(r) => {
                node.right_child = AVL::_delete_max(r);
                proof {
                    assert((a + seq![nk] + b).drop_last() =~= a + seq![nk] + b.drop_last());
                    assert((va + seq![nv] + vb).drop_last() =~= va + seq![nv] + vb.drop_last());
                    assert forall|i: int| 0 <= i < b.drop_last().len() implies less(
                        nk,
                        #[trigger] b.drop_last()[i],
                    ) by {
                        assert(b.drop_last()[i] == b[i]);
                    }
                }
                Some(AVL::rebuild(node))
            },
        }
    }

    /// The largest key that does not sort after `key`, if there is one.
    pub fn floor(&self, key: &K) -> (r: Option<&K>)
        requires
            total_order::<K>(),
            self.well_formed(),
        ensures
            r matches Some(f) ==> is_floor(self@, *key, *f),
            r is None ==> all_after(self@, *key, key_order::<K>()),
    {
        AVL::_floor(&self.root, key)
    }

    fn _floor<'a>(node: &'a Option<Box<Node<K, V>>>, key: &K) -> (r: Option<&'a K>)
        requires
            total_order::<K>(),
            Node::shaped(*node),
        ensures
            r matches Some(f) ==> is_floor(Node::keys(*node), *key, *f),
            r is None ==> all_after(Node::keys(*node), *key, key_order::<K>()),
        decreases *node,
    {
        let ghost less = key_order::<K>();
        match node {
            None => None,
            Some(node_ref) => {
                let ghost a = Node::keys(node_ref.left_child);
                let ghost b = Node::keys(node_ref.right_child);
                let ghost nk = node_ref.key;
                let ghost s = Node::keys(*node);
                proof {
                    lemma_key_order::<K>();
                    assert(s[a.len() as int] == nk);
                    assert(less(*key, nk) || *key == nk || less(nk, *key));
                }
                if is_eq(key, &node_ref.key) {
                    Some(&node_ref.key)
                } else if is_lt(key, &node_ref.key) {
                    let found = AVL::_floor(&node_ref.left_child, key);
                    proof {
                        lemma_after_further(b, nk, *key, less);
                        lemma_join_after(a, nk, b, *key, less);
                        if let Some(f) = found {
                            lemma_join_contains(a, nk, b, *f);
                            assert forall|i: int| 0 <= i < s.len() && le(
                                #[trigger] s[i],
                                *key,
                            ) implies le(s[i], *f) by {
                                if i < a.len() {
                                    assert(s[i] == a[i]);
                                } else if i > a.len() {
                                    assert(s[i] == b[i - a.len() - 1]);
                                    assert(less(*key, s[i]));
                                }
                            }
                        }
                    }
                    found
                } else {
                    let found = AVL::_floor(&node_ref.right_child, key);
                    proof {
                        match found {
                            Some(f) => {
                                lemma_join_contains(a, nk, b, *f);
                                let j = choose|j: int| 0 <= j < b.len() && b[j] == *f;
                                assert(less(nk, b[j]));
                                assert forall|i: int| 0 <= i < s.len() && le(
                                    #[trigger] s[i],
                                    *key,
                                ) implies le(s[i], *f) by {
                                    if i < a.len() {
                                        assert(s[i] == a[i]);
                                        assert(less(a[i], nk));
                                    } else if i > a.len() {
                                        assert(s[i] == b[i - a.len() - 1]);
                                    }
                                }
                            },
                            None => {
                                lemma_join_contains(a, nk, b, nk);
                                assert forall|i: int| 0 <= i < s.len() && le(
                                    #[trigger] s[i],
                                    *key,
                                ) implies le(s[i], nk) by {
                                    if i < a.len() {
                                        assert(s[i] == a[i]);
                                        assert(less(a[i], nk));
                                    } else if i > a.len() {
                                        assert(s[i] == b[i - a.len() - 1]);
                                        assert(less(*key, b[i - a.len() - 1]));
                                    }
                                }
                            },
                        }
                    }
                    match found {
                        Some(f) => Some(f),
                        None => Some(&node_ref.key),
                    }
                }
            },
        }
    }

    /// The smallest key that does not sort before `key`, if there is one.
    pub fn ceiling(&self, key: &K) -> (r: Option<&K>)
        requires
            total_order::<K>(),
            self.well_formed(),
        ensures
            r matches Some(c) ==> is_ceiling(self@, *key, *c),
            r is None ==> all_before(self@, *key, key_order::<K>()),
    {
        AVL::_ceiling(&self.root, key)
    }

    fn _ceiling<'a>(node: &'a Option<Box<Node<K, V>>>, key: &K) -> (r: Option<&'a K>)
        requires
            total_order::<K>(),
            Node::shaped(*node),
        ensures
            r matches Some(c) ==> is_ceiling(Node::keys(*node), *key, *c),
            r is None ==> all_before(Node::keys(*node), *key, key_order::<K>()),
        decreases *node,
    {
        let ghost less = key_order::<K>();
        match node {
            None => None,
            Some(node_ref) => {
                let ghost a = Node::keys(node_ref.left_child);
                let ghost b = Node::keys(node_ref.right_child);
                let ghost nk = node_ref.key;
                let ghost s = Node::keys(*node);
                proof {
                    lemma_key_order::<K>();
                    assert(s[a.len() as int] == nk);
                    assert(less(*key, nk) || *key == nk || less(nk, *key));
                }
                if is_eq(key, &node_ref.key) {
                    Some(&node_ref.key)
                } else if is_lt(&node_ref.key, key) {
                    let found = AVL::_ceiling(&node_ref.right_child, key);
                    proof {
                        lemma_before_further(a, nk, *key, less);
                        lemma_join_before(a, nk, b, *key, less);
                        if let Some(c) = found {
                            lemma_join_contains(a, nk, b, *c);
                            assert forall|i: int| 0 <= i < s.len() && le(
                                *key,
                                #[trigger] s[i],
                            ) implies le(*c, s[i]) by {
                                if i < a.len() {
                                    assert(s[i] == a[i]);
                                    assert(less(s[i], *key));
                                } else if i > a.len() {
                                    assert(s[i] == b[i - a.len() - 1]);
                                }
                            }
                        }
                    }
                    found
                } else {
                    let found = AVL::_ceiling(&node_ref.left_child, key);
                    proof {
                        match found {
                            Some(c) => {
                                lemma_join_contains(a, nk, b, *c);
                                let j = choose|j: int| 0 <= j < a.len() && a[j] == *c;
                                assert(less(a[j], nk));
                                assert forall|i: int| 0 <= i < s.len() && le(
                                    *key,
                                    #[trigger] s[i],
                                ) implies le(*c, s[i]) by {
                                    if i < a.len() {
                                        assert(s[i] == a[i]);
                                    } else if i > a.len() {
                                        assert(s[i] == b[i - a.len() - 1]);
                                        assert(less(nk, b[i - a.len() - 1]));
                                    }
                                }
                            },
                            None => {
                                lemma_join_contains(a, nk, b, nk);
                                assert forall|i: int| 0 <= i < s.len() && le(
                                    *key,
                                    #[trigger] s[i],
                                ) implies le(nk, s[i]) by {
                                    if i < a.len() {
                                        assert(s[i] == a[i]);
                                        assert(less(a[i], *key));
                                    } else if i > a.len() {
                                        assert(s[i] == b[i - a.len() - 1]);
                                        assert(less(nk, b[i - a.len() - 1]));
                                    }
                                }
                            },
                        }
                    }
                    match found {
                        Some(c) => Some(c),
                        None => Some(&node_ref.key),
                    }
                }
            },
        }
    }

    /// The key at position `k` of the order, counted from 0, and its value,
    /// if the map holds more than `k` keys.
    pub fn select(&self, k: usize) -> (r: Option<(&K, &V)>)
        requires
            total_order::<K>(),
            self.well_formed(),
        ensures
            r is Some <==> k < self@.len(),
            r matches Some(found) ==> *found.0 == self@[k as int] && *found.1
                == self.values()[k as int],
    {
        AVL::_select(&self.root, k)
    }

    fn _select(node: &Option<Box<Node<K, V>>>, k: usize) -> (r: Option<(&K, &V)>)
        requires
            total_order::<K>(),
            Node::shaped(*node),
        ensures
            r is Some <==> k < Node::keys(*node).len(),
            r matches Some(found) ==> *found.0 == Node::keys(*node)[k as int] && *found.1
                == Node::values(*node)[k as int],
        decreases *node,
    {
        match node {
            None => None,
            Some(node_ref) => {
                proof {
                    Node::lemma_shaped(node_ref.left_child);
                    Node::lemma_shaped(node_ref.right_child);
                }
                let t = Node::size(&node_ref.left_child);
                if t > k {
                    AVL::_select(&node_ref.left_child, k)
                } else if t < k {
                    AVL::_select(&node_ref.right_child, k - t - 1)
                } else {
                    Some((node_ref.key(), node_ref.value()))
                }
            },
        }
    }

    /// The first key and its value, if the map is not empty.
    pub fn min(&self) -> (r: Option<(&K, &V)>)
        requires
            total_order::<K>(),
            self.well_formed(),
        ensures
            r is Some <==> self@.len() > 0,
            r matches Some(found) ==> *found.0 == self@.first() && *found.1
                == self.values().first(),
    {
        self.select(0)
    }

    /// The last key and its value, if the map is not empty.
    pub fn max(&self) -> (r: Option<(&K, &V)>)
        requires
            total_order::<K>(),
            self.well_formed(),
        ensures
            r is Some <==> self@.len() > 0,
            r matches Some(found) ==> *found.0 == self@.last() && *found.1 == self.values().last(),
    {
        proof {
            Node::lemma_values_len(self.root);
        }
        let size = self.size();
        if size == 0 {
            None
        } else {
            self.select(size - 1)
        }
    }

    /// The number of keys that sort before `key`.
    pub fn rank(&self, key: &K) -> (r: usize)
        requires
            total_order::<K>(),
            self.well_formed(),
        ensures
            r == rank_of(self@, *key, key_order::<K>()),
    {
        AVL::_rank(&self.root, key)
    }

    fn _rank(node: &Option<Box<Node<K, V>>>, key: &K) -> (r: usize)
        requires
            total_order::<K>(),
            Node::shaped(*node),
        ensures
            r == rank_of(Node::keys(*node), *key, key_order::<K>()),
        decreases *node,
    {
        match node {
            None => 0,
            Some(node_ref) => {
                proof {
                    lemma_key_order::<K>();
                    Node::lemma_shaped(node_ref.left_child);
                    Node::lemma_shaped(node_ref.right_child);
                    assert(key_order::<K>()(*key, node_ref.key) || *key == node_ref.key
                        || key_order::<K>()(node_ref.key, *key));
                    lemma_rank_join(
                        Node::keys(node_ref.left_child),
                        node_ref.key,
                        Node::keys(node_ref.right_child),
                        *key,
                        key_order::<K>(),
                    );
                    lemma_rank_bound(Node::keys(node_ref.right_child), *key, key_order::<K>());
                }
                if is_lt(key, &node_ref.key) {
                    AVL::_rank(&node_ref.left_child, key)
                } else if is_lt(&node_ref.key, key) {
                    1 + Node::size(&node_ref.left_child) + AVL::_rank(&node_ref.right_child, key)
                } else {
                    Node::size(&node_ref.left_child)
                }
            },
        }
    }

    /// The keys of the map in increasing order.
    pub fn keys(&self) -> (r: Vec<&K>)
        requires
            total_order::<K>(),
            self.well_formed(),
        ensures
            deref_all(r@) == self@,
    {
        let mut keys: Vec<&K> = Vec::new();
        AVL::_keys_in_order(&self.root, &mut keys);
        proof {
            assert(deref_all(Seq::<&K>::empty()) + self@ =~= self@);
        }
        keys
    }

    fn _keys_in_order<'a>(node: &'a Option<Box<Node<K, V>>>, keys: &mut Vec<&'a K>)
        ensures
            deref_all(final(keys)@) == deref_all(old(keys)@) + Node::keys(*node),
        decreases *node,
    {
        let ghost before = deref_all(keys@);
        match node {
            None => {
                proof {
                    assert(before + Seq::<K>::empty() =~= before);
                }
            },
            Some(node_ref) => {
                AVL::_keys_in_order(&node_ref.left_child, keys);
                keys.push(&node_ref.key);
                proof {
                    assert(deref_all(keys@) =~= before + Node::keys(node_ref.left_child)
                        + seq![node_ref.key]);
                }
                AVL::_keys_in_order(&node_ref.right_child, keys);
                proof {
                    assert(deref_all(keys@) =~= before + (Node::keys(node_ref.left_child)
                        + seq![node_ref.key] + Node::keys(node_ref.right_child)));
                }
            },
        }
    }

    /// The keys of the map by level: the key of the root, then those of its
    /// children, and so on, each level from left to right.
    pub fn keys_in_level_order(&self) -> (r: Vec<&K>)
        ensures
            deref_all(r@).to_multiset() == self@.to_multiset(),
    {
        let mut keys: Vec<&K> = Vec::new();
        AVL::_keys_in_level_order(&self.root, &mut keys);
        proof {
            broadcast use vstd::seq_lib::group_to_multiset_ensures;

            assert(deref_all(Seq::<&K>::empty()) =~= Seq::<K>::empty());
            assert(Seq::<K>::empty().to_multiset() =~= Multiset::<K>::empty());
            assert(Multiset::<K>::empty().add(self@.to_multiset()) =~= self@.to_multiset());
        }
        keys
    }

    fn _keys_in_level_order<'a>(node: &'a Option<Box<Node<K, V>>>, keys: &mut Vec<&'a K>)
        ensures
            deref_all(final(keys)@).to_multiset() == deref_all(old(keys)@).to_multiset().add(
                Node::keys(*node).to_multiset(),
            ),
    {
        let ghost start = deref_all(keys@).to_multiset();
        let ghost all = Node::keys(*node).to_multiset();
        if node.is_none() {
            proof {
                Node::lemma_no_keys(*node);
                assert(start.add(all) =~= start);
            }
            return ;
        }
        let mut queue = VecDeque::<&Option<Box<Node<K, V>>>>::with_capacity(Node::size(node));
        queue.push_back(node);
        proof {
            let none = Seq::<&Option<Box<Node<K, V>>>>::empty();
            assert(queue@ =~= none.push(node));
            Node::lemma_pending_push(none, node);
            assert(Node::pending(queue@) =~= all);
        }
        while queue.len() > 0
            invariant
                forall|i: int| 0 <= i < queue@.len() ==> (#[trigger] queue@[i]) is Some,
                deref_all(keys@).to_multiset().add(Node::pending(queue@)) == start.add(all),
            decreases Node::pending_count(queue@),
        {
            let ghost q0 = queue@;
            let ghost k0 = deref_all(keys@);
            let current = queue.pop_front().unwrap();
            proof {
                Node::lemma_pending_front(q0);
                assert(queue@ =~= q0.drop_first());
                assert(q0[0] is Some);
            }
            match current {
                None => {},
                Some(current_node) => {
                    keys.push(&current_node.key);
                    proof {
                        assert(deref_all(keys@) =~= k0.push(current_node.key));
                        vstd::seq_lib::to_multiset_build(k0, current_node.key);
                        Node::lemma_keys_multiset(*current);
                    }
                    let ghost q1 = queue@;
                    if !current_node.left_child.is_none() {
                        queue.push_back(&current_node.left_child);
                        proof {
                            Node::lemma_pending_push(q1, &current_node.left_child);
                        }
                    } else {
                        proof {
                            Node::lemma_no_keys(current_node.left_child);
                        }
                    }
                    let ghost q2 = queue@;
                    if !current_node.right_child.is_none() {
                        queue.push_back(&current_node.right_child);
                        proof {
                            Node::lemma_pending_push(q2, &current_node.right_child);
                        }
                    } else {
                        proof {
                            Node::lemma_no_keys(current_node.right_child);
                        }
                    }
                    proof {
                        let l = Node::keys(current_node.left_child).to_multiset();
                        let r = Node::keys(current_node.right_child).to_multiset();
                        assert(Node::pending(q2) =~= Node::pending(q1).add(l));
                        assert(Node::pending(queue@) =~= Node::pending(q2).add(r));
                        assert(deref_all(keys@).to_multiset().add(Node::pending(queue@))
                            =~= k0.to_multiset().add(Node::pending(q0)));
                    }
                },
            }
        }
        proof {
            assert(Node::pending(queue@) =~= Multiset::empty());
            assert(deref_all(keys@).to_multiset().add(Multiset::empty()) =~= deref_all(
                keys@,
            ).to_multiset());
        }
    }

    /// The keys from `low_key` on and before `high_key`, in increasing
    /// order.
    pub fn keys_between(&self, low_key: &K, high_key: &K) -> (r: Vec<&K>)
        requires
            total_order::<K>(),
            self.well_formed(),
        ensures
            deref_all(r@) == between(self@, *low_key, *high_key, key_order::<K>()),
    {
        let mut keys: Vec<&K> = Vec::new();
        AVL::_keys_between(&self.root, low_key, high_key, &mut keys);
        proof {
            assert(deref_all(Seq::<&K>::empty()) + between(
                self@,
                *low_key,
                *high_key,
                key_order::<K>(),
            ) =~= between(self@, *low_key, *high_key, key_order::<K>()));
        }
        keys
    }

    fn _keys_between<'a>(
        node: &'a Option<Box<Node<K, V>>>,
        low_key: &K,
        high_key: &K,
        keys: &mut Vec<&'a K>,
    )
        requires
            total_order::<K>(),
            Node::shaped(*node),
        ensures
            deref_all(final(keys)@) == deref_all(old(keys)@) + between(
                Node::keys(*node),
                *low_key,
                *high_key,
                key_order::<K>(),
            ),
        decreases *node,
    {
        let ghost less = key_order::<K>();
        let ghost before = deref_all(keys@);
        match node {
            None => {
                proof {
                    reveal(Seq::filter);
                    assert(before + Seq::<K>::empty() =~= before);
                }
            },
            Some(node_ref) => {
                let ghost a = Node::keys(node_ref.left_child);
                let ghost b = Node::keys(node_ref.right_child);
                let ghost nk = node_ref.key;
                let ghost low = *low_key;
                let ghost high = *high_key;
                let ghost own = if !less(nk, low) && less(nk, high) {
                    seq![nk]
                } else {
                    Seq::<K>::empty()
                };
                proof {
                    lemma_key_order::<K>();
                    lemma_between_join(a, nk, b, low, high, less);
                }
                if is_lt(low_key, &node_ref.key) {
                    AVL::_keys_between(&node_ref.left_child, low_key, high_key, keys);
                } else {
                    proof {
                        lemma_between_left_empty(a, nk, low, high, less);
                    }
                }
                proof {
                    assert(deref_all(keys@) =~= before + between(a, low, high, less));
                }
                if !is_lt(&node_ref.key, low_key) && is_lt(&node_ref.key, high_key) {
                    keys.push(&node_ref.key);
                }
                proof {
                    assert(deref_all(keys@) =~= before + between(a, low, high, less) + own);
                }
                if is_lt(&node_ref.key, high_key) {
                    AVL::_keys_between(&node_ref.right_child, low_key, high_key, keys);
                } else {
                    proof {
                        lemma_between_right_empty(b, nk, low, high, less);
                    }
                }
                proof {
                    assert(deref_all(keys@) =~= before + (between(a, low, high, less) + own
                        + between(b, low, high, less)));
                }
            },
        }
    }

    /// The number of keys from `low_key` on and before `high_key`.
    pub fn size_between(&self, low_key: &K, high_key: &K) -> (r: usize)
        requires
            total_order::<K>(),
            self.well_formed(),
        ensures
            r == between(self@, *low_key, *high_key, key_order::<K>()).len(),
    {
        proof {
            lemma_key_order::<K>();
            reveal(Seq::filter);
        }
        if self.is_empty() {
            return 0;
        }
        if is_lt(high_key, low_key) {
            proof {
                lemma_between_none(self@, *low_key, *high_key, key_order::<K>());
            }
            return 0;
        }
        proof {
            lemma_between_len(self@, *low_key, *high_key, key_order::<K>());
            lemma_rank_monotone(self@, *low_key, *high_key, key_order::<K>());
        }
        self.rank(high_key) - self.rank(low_key)
    }

    /// Whether the heights of the two subtrees differ by at most one at
    /// every node.
    pub fn is_avl(&self) -> (r: bool)
        ensures
            r == self.spec_balanced(),
    {
        AVL::_is_avl(&self.root)
    }

    fn _is_avl(node: &Option<Box<Node<K, V>>>) -> (r: bool)
        ensures
            r == Node::balanced(*node),
        decreases *node,
    {
        match node {
            None => true,
            Some(node_ref) => node_ref.level() && AVL::_is_avl(&node_ref.left_child)
                && AVL::_is_avl(&node_ref.right_child),
        }
    }

    /// Whether the keys stand in search order at every node.
    pub fn is_bst(&self) -> (r: bool)
        requires
            total_order::<K>(),
        ensures
            r == self.spec_ordered(),
    {
        AVL::_is_bst(&self.root, None, None)
    }

    fn _is_bst(node: &Option<Box<Node<K, V>>>, min: Option<&K>, max: Option<&K>) -> (r: bool)
        requires
            total_order::<K>(),
        ensures
            r == (Node::ordered(*node) && Node::<K, V>::within(Node::keys(*node), min, max)),
        decreases *node,
    {
        let ghost less = key_order::<K>();
        match node {
            None => true,
            Some(node_ref) => {
                let ghost a = Node::keys(node_ref.left_child);
                let ghost b = Node::keys(node_ref.right_child);
                let ghost nk = node_ref.key;
                proof {
                    lemma_key_order::<K>();
                    if let Some(l) = min {
                        lemma_join_after(a, nk, b, *l, less);
                        assert(less(*l, nk) || *l == nk || less(nk, *l));
                        if less(*l, nk) {
                            if all_after(b, nk, less) {
                                lemma_after_further(b, nk, *l, less);
                            }
                        }
                    }
                    if let Some(h) = max {
                        lemma_join_before(a, nk, b, *h, less);
                        assert(less(*h, nk) || *h == nk || less(nk, *h));
                        if less(nk, *h) {
                            if all_before(a, nk, less) {
                                lemma_before_further(a, nk, *h, less);
                            }
                        }
                    }
                }
                let above = match min {
                    Some(l) => is_lt(l, &node_ref.key),
                    None => true,
                };
                let below = match max {
                    Some(h) => is_lt(&node_ref.key, h),
                    None => true,
                };
                above && below && AVL::_is_bst(&node_ref.left_child, min, Some(&node_ref.key))
                    && AVL::_is_bst(&node_ref.right_child, Some(&node_ref.key), max)
            },
        }
    }

    /// Whether the cached size of every node is one more than the cached
    /// sizes of its two subtrees.
    pub fn is_size_consistent(&self) -> (r: bool)
        ensures
            r == self.spec_sized(),
    {
        AVL::_is_size_consistent(&self.root)
    }

    fn _is_size_consistent(node: &Option<Box<Node<K, V>>>) -> (r: bool)
        ensures
            r == Node::sized(*node),
        decreases *node,
    {
        match node {
            None => true,
            Some(node_ref) => {
                let l = Node::size(&node_ref.left_child);
                let r = Node::size(&node_ref.right_child);
                let fits = l < usize::MAX && r < usize::MAX - l && node_ref.size == l + r + 1;
                fits && AVL::_is_size_consistent(&node_ref.left_child)
                    && AVL::_is_size_consistent(&node_ref.right_child)
            },
        }
    }

    /// Recomputes what `node` caches from its subtrees, then restores the
    /// balance at `node`.
    fn rebuild(node: Box<Node<K, V>>) -> (r: Box<Node<K, V>>)
        requires
            total_order::<K>(),
            Node::wf(node.left_child),
            Node::wf(node.right_child),
            all_before(Node::keys(node.left_child), node.key, key_order::<K>()),
            all_after(Node::keys(node.right_child), node.key, key_order::<K>()),
            -2 <= node.lean() <= 2,
            Node::keys(Some(node)).len() <= usize::MAX,
        ensures
            Node::wf(Some(r)),
            Node::keys(Some(r)) == Node::keys(Some(node)),
            Node::values(Some(r)) == Node::values(Some(node)),
            vstd::math::max(Node::height_of(node.left_child), Node::height_of(node.right_child))
                <= r.height <= 1 + vstd::math::max(
                Node::height_of(node.left_child),
                Node::height_of(node.right_child),
            ),
            -1 <= node.lean() <= 1 ==> r.height == 1 + vstd::math::max(
                Node::height_of(node.left_child),
                Node::height_of(node.right_child),
            ),
    {
        proof {
            Node::lemma_shaped(node.left_child);
            Node::lemma_shaped(node.right_child);
        }
        let mut node = node;
        node.renew_height();
        node.update_size();
        AVL::balance(node)
    }

    /// Restores the balance at `node` after one of its subtrees grew or
    /// shrank by one level.
    fn balance(node: Box<Node<K, V>>) -> (r: Box<Node<K, V>>)
        requires
            total_order::<K>(),
            Node::shaped(Some(node)),
            Node::balanced(node.left_child),
            Node::balanced(node.right_child),
            -2 <= node.lean() <= 2,
        ensures
            Node::wf(Some(r)),
            Node::keys(Some(r)) == Node::keys(Some(node)),
            Node::values(Some(r)) == Node::values(Some(node)),
            node.height - 1 <= r.height <= node.height,
            -1 <= node.lean() <= 1 ==> r.height == node.height,
    {
        let mut node = node;
        let lean = Node::balance_factor(&node);
        if lean < -1 {
            let right = node.right_child.take().unwrap();
            proof {
                assert(Node::shaped(Some(right)));
                assert(Node::balanced(Some(right)));
                assert(Node::shaped(right.left_child));
                assert(Node::balanced(right.left_child));
            }
            let right = if Node::balance_factor(&right) > 0 {
                AVL::rotate_right(right)
            } else {
                right
            };
            proof {
                assert(Node::shaped(right.right_child));
                assert(Node::balanced(right.right_child));
            }
            node.right_child = Some(right);
            proof {
                assert(node.local());
            }
            node = AVL::rotate_left(node);
            proof {
                assert(Node::shaped(node.left_child));
                assert(Node::balanced(node.left_child));
                assert(Node::balanced(node.right_child));
            }
        } else if lean > 1 {
            let left = node.left_child.take().unwrap();
            proof {
                assert(Node::shaped(Some(left)));
                assert(Node::balanced(Some(left)));
                assert(Node::shaped(left.right_child));
                assert(Node::balanced(left.right_child));
            }
            let left = if Node::balance_factor(&left) < 0 {
                AVL::rotate_left(left)
            } else {
                left
            };
            proof {
                assert(Node::shaped(left.left_child));
                assert(Node::balanced(left.left_child));
            }
            node.left_child = Some(left);
            proof {
                assert(node.local());
            }
            node = AVL::rotate_right(node);
            proof {
                assert(Node::shaped(node.right_child));
                assert(Node::balanced(node.right_child));
                assert(Node::balanced(node.left_child));
            }
        }
        node
    }

    /// Lifts the left child of `node` into its place; `node` becomes the
    /// right child of the new root.
    fn rotate_right(node: Box<Node<K, V>>) -> (y: Box<Node<K, V>>)
        requires
            total_order::<K>(),
            Node::shaped(Some(node)),
            node.left_child is Some,
        ensures
            Node::shaped(Some(y)),
            Node::keys(Some(y)) == Node::keys(Some(node)),
            Node::values(Some(y)) == Node::values(Some(node)),
            y.right_child is Some,
            y.left_child == node.left_child.unwrap().left_child,
            y.right_child.unwrap().left_child == node.left_child.unwrap().right_child,
            y.right_child.unwrap().right_child == node.right_child,
    {
        let ghost a = Node::keys(node.left_child.unwrap().left_child);
        let ghost b = Node::keys(node.left_child.unwrap().right_child);
        let ghost c = Node::keys(node.right_child);
        let ghost va = Node::values(node.left_child.unwrap().left_child);
        let ghost vb = Node::values(node.left_child.unwrap().right_child);
        let ghost vc = Node::values(node.right_child);
        let ghost xk = node.key;
        let ghost yk = node.left_child.unwrap().key;
        let ghost xv = node.value;
        let ghost yv = node.left_child.unwrap().value;
        let ghost whole = Node::keys(Some(node));
        let ghost whole_values = Node::values(Some(node));
        proof {
            lemma_key_order::<K>();
            assert(Node::shaped(node.left_child));
            Node::lemma_shaped(node.left_child.unwrap().left_child);
            Node::lemma_shaped(node.left_child.unwrap().right_child);
            Node::lemma_shaped(node.right_child);
            Node::lemma_shaped(node.left_child);
            lemma_join_before(a, yk, b, xk, key_order::<K>());
            lemma_after_further(c, xk, yk, key_order::<K>());
            lemma_join_after(b, xk, c, yk, key_order::<K>());
            assert(whole =~= a + seq![yk] + (b + seq![xk] + c));
            assert(whole_values =~= va + seq![yv] + (vb + seq![xv] + vc));
        }
        let mut node = node;
        let mut y = node.left_child.take().unwrap();
        node.left_child = y.right_child.take();
        y.size = node.size;
        node.renew_height();
        node.update_size();
        proof {
            assert(Node::keys(Some(node)) =~= b + seq![xk] + c);
            assert(node.local());
        }
        y.right_child = Some(node);
        y.renew_height();
        proof {
            assert(Node::keys(y.right_child) =~= b + seq![xk] + c);
            assert(Node::values(y.right_child) =~= vb + seq![xv] + vc);
            assert(Node::keys(Some(y)) =~= whole);
            assert(Node::values(Some(y)) =~= whole_values);
            assert(Node::shaped(y.right_child));
            assert(y.local());
        }
        y
    }

    /// Lifts the right child of `node` into its place; `node` becomes the
    /// left child of the new root.
    fn rotate_left(node: Box<Node<K, V>>) -> (y: Box<Node<K, V>>)
        requires
            total_order::<K>(),
            Node::shaped(Some(node)),
            node.right_child is Some,
        ensures
            Node::shaped(Some(y)),
            Node::keys(Some(y)) == Node::keys(Some(node)),
            Node::values(Some(y)) == Node::values(Some(node)),
            y.left_child is Some,
            y.left_child.unwrap().left_child == node.left_child,
            y.left_child.unwrap().right_child == node.right_child.unwrap().left_child,
            y.right_child == node.right_child.unwrap().right_child,
    {
        let ghost a = Node::keys(node.left_child);
        let ghost b = Node::keys(node.right_child.unwrap().left_child);
        let ghost c = Node::keys(node.right_child.unwrap().right_child);
        let ghost va = Node::values(node.left_child);
        let ghost vb = Node::values(node.right_child.unwrap().left_child);
        let ghost vc = Node::values(node.right_child.unwrap().right_child);
        let ghost xk = node.key;
        let ghost yk = node.right_child.unwrap().key;
        let ghost xv = node.value;
        let ghost yv = node.right_child.unwrap().value;
        let ghost whole = Node::keys(Some(node));
        let ghost whole_values = Node::values(Some(node));
        proof {
            lemma_key_order::<K>();
            assert(Node::shaped(node.right_child));
            Node::lemma_shaped(node.left_child);
            Node::lemma_shaped(node.right_child.unwrap().left_child);
            Node::lemma_shaped(node.right_child.unwrap().right_child);
            Node::lemma_shaped(node.right_child);
            lemma_join_after(b, yk, c, xk, key_order::<K>());
            lemma_before_further(a, xk, yk, key_order::<K>());
            lemma_join_before(a, xk, b, yk, key_order::<K>());
            assert(whole =~= (a + seq![xk] + b) + seq![yk] + c);
            assert(whole_values =~= (va + seq![xv] + vb) + seq![yv] + vc);
        }
        let mut node = node;
        let mut y = node.right_child.take().unwrap();
        node.right_child = y.left_child.take();
        y.size = node.size;
        node.renew_height();
        node.update_size();
        proof {
            assert(Node::keys(Some(node)) =~= a + seq![xk] + b);
            assert(node.local());
        }
        y.left_child = Some(node);
        y.renew_height();
        proof {
            assert(Node::keys(y.left_child) =~= a + seq![xk] + b);
            assert(Node::values(y.left_child) =~= va + seq![xv] + vb);
            assert(Node::keys(Some(y)) =~= whole);
            assert(Node::values(Some(y)) =~= whole_values);
            assert(Node::shaped(y.left_child));
            assert(y.local());
        }
        y
    }
}

} // verus!
