//! An ordered map on a left-leaning red-black search tree, with lookup by
//! key, by position and by rank.

use crate::tree::keyed::drop_value;
use crate::tree::keyed::is_ceiling;
use crate::tree::keyed::is_floor;
use crate::tree::keyed::lemma_drop_left;
use crate::tree::keyed::lemma_drop_middle;
use crate::tree::keyed::lemma_drop_right;
use crate::tree::keyed::lemma_put_left;
use crate::tree::keyed::lemma_put_middle;
use crate::tree::keyed::lemma_put_right;
use crate::tree::keyed::put_value;
use crate::tree::avl::deref_all;
use crate::util::order::is_eq;
use crate::util::order::is_lt;
use crate::util::order::key_order;
use crate::util::order::le;
use crate::util::order::lemma_key_order;
use crate::util::order::lt;
use crate::util::order::total_order;
use crate::util::sorted::all_after;
use crate::util::sorted::all_before;
use crate::util::sorted::ascending;
use crate::util::sorted::between;
use crate::util::sorted::lemma_after_further;
use crate::util::sorted::lemma_before_further;
use crate::util::sorted::lemma_between_join;
use crate::util::sorted::lemma_between_left_empty;
use crate::util::sorted::lemma_between_len;
use crate::util::sorted::lemma_between_none;
use crate::util::sorted::lemma_between_right_empty;
use crate::util::sorted::lemma_index_of_rank;
use crate::util::sorted::lemma_join_after;
use crate::util::sorted::lemma_join_ascending;
use crate::util::sorted::lemma_join_before;
use crate::util::sorted::lemma_join_contains;
use crate::util::sorted::lemma_rank_bound;
use crate::util::sorted::lemma_rank_join;
use crate::util::sorted::lemma_rank_monotone;
use crate::util::sorted::lemma_rank_of_index;
use crate::util::sorted::lemma_with_left;
use crate::util::sorted::lemma_with_right;
use crate::util::sorted::lemma_without_left;
use crate::util::sorted::lemma_without_middle;
use crate::util::sorted::lemma_without_right;
use crate::util::sorted::rank_of;
use crate::util::sorted::with_item;
use crate::util::sorted::without_item;
use std::collections::VecDeque;
use vstd::multiset::Multiset;
use vstd::prelude::*;

verus! {

/// The colour of a node that hangs on a red link.
pub const RED: bool = true;

/// The colour of a node that hangs on a black link.
pub const BLACK: bool = false;

struct Node<K: Ord, V> {
    key: K,
    value: V,
    color: bool,
    size: usize,
    left_child: Option<Box<Node<K, V>>>,
    right_child: Option<Box<Node<K, V>>>,
}

impl<K: Ord, V> Node<K, V> {
    /// The keys of a subtree, in order.
    spec fn keys(link: Option<Box<Node<K, V>>>) -> Seq<K>
        decreases link,
    {
        match link {
            None => Seq::empty(),
            Some(n) => Node::keys(n.left_child) + seq![n.key] + Node::keys(n.right_child),
        }
    }
    /// The values of a subtree, in the order of their keys.
    spec fn values(link: Option<Box<Node<K, V>>>) -> Seq<V>
        decreases link,
    {
        match link {
            None => Seq::empty(),
            Some(n) => Node::values(n.left_child) + seq![n.value] + Node::values(n.right_child),
        }
    }
    /// The cached size of a subtree; an absent one counts 0.
    spec fn size_of(link: Option<Box<Node<K, V>>>) -> int {
        match link {
            None => 0,
            Some(n) => n.size as int,
        }
    }
    /// At every node of the subtree the keys of the left subtree sort before
    /// the node's key and those of the right subtree after it.
    spec fn ordered(link: Option<Box<Node<K, V>>>) -> bool
        decreases link,
    {
        match link {
            None => true,
            Some(n) => Node::ordered(n.left_child) && Node::ordered(n.right_child) && all_before(
                Node::keys(n.left_child),
                n.key,
                key_order::<K>(),
            ) && all_after(Node::keys(n.right_child), n.key, key_order::<K>()),
        }
    }
    /// At every node of the subtree the cached size is one more than the
    /// cached sizes of its two subtrees.
    spec fn sized(link: Option<Box<Node<K, V>>>) -> bool
        decreases link,
    {
        match link {
            None => true,
            Some(n) => Node::sized(n.left_child) && Node::sized(n.right_child) && n.size == 1
                + Node::size_of(n.left_child) + Node::size_of(n.right_child),
        }
    }
    /// Every key of `s` lies strictly between `low` and `high`, where they
    /// are given.
    spec fn within(s: Seq<K>, low: Option<&K>, high: Option<&K>) -> bool {
        &&& low matches Some(l) ==> all_after(s, *l, key_order::<K>())
        &&& high matches Some(h) ==> all_before(s, *h, key_order::<K>())
    }
    proof fn lemma_values_len(link: Option<Box<Node<K, V>>>)
        ensures
            Node::values(link).len() == Node::keys(link).len(),
        decreases link,
    {
        if let Some(n) = link {
            Node::lemma_values_len(n.left_child);
            Node::lemma_values_len(n.right_child);
        }
    }
    /// The keys of the subtrees that a walk by level has still to visit.
    spec fn pending(q: Seq<&Option<Box<Node<K, V>>>>) -> Multiset<K>
        decreases q.len(),
    {
        if q.len() == 0 {
            Multiset::empty()
        } else {
            Node::pending(q.drop_last()).add(Node::keys(*q.last()).to_multiset())
        }
    }
    /// The number of keys of the subtrees that a walk by level has still to
    /// visit.
    spec fn pending_count(q: Seq<&Option<Box<Node<K, V>>>>) -> nat
        decreases q.len(),
    {
        if q.len() == 0 {
            0
        } else {
            Node::pending_count(q.drop_last()) + Node::keys(*q.last()).len()
        }
    }
    proof fn lemma_pending_push(q: Seq<&Option<Box<Node<K, V>>>>, x: &Option<Box<Node<K, V>>>)
        ensures
            Node::pending(q.push(x)) == Node::pending(q).add(Node::keys(*x).to_multiset()),
            Node::pending_count(q.push(x)) == Node::pending_count(q) + Node::keys(*x).len(),
    {
        assert(q.push(x).drop_last() =~= q);
    }
    /// An absent subtree holds no keys.
    proof fn lemma_no_keys(link: Option<Box<Node<K, V>>>)
        requires
            link is None,
        ensures
            Node::keys(link).to_multiset() == Multiset::<K>::empty(),
            Node::keys(link).len() == 0,
    {
        broadcast use vstd::seq_lib::group_to_multiset_ensures;

        assert(Node::keys(link).to_multiset() =~= Multiset::<K>::empty());
    }
    proof fn lemma_pending_front(q: Seq<&Option<Box<Node<K, V>>>>)
        requires
            q.len() > 0,
        ensures
            Node::pending(q) == Node::keys(*q.first()).to_multiset().add(
                Node::pending(q.drop_first()),
            ),
            Node::pending_count(q) == Node::keys(*q.first()).len() + Node::pending_count(
                q.drop_first(),
            ),
        decreases q.len(),
    {
        if q.len() == 1 {
            assert(q.drop_first() =~= Seq::empty());
            assert(q.drop_last() =~= Seq::empty());
            assert(Node::pending(q) =~= Node::keys(*q.first()).to_multiset().add(
                Node::pending(q.drop_first()),
            ));
        } else {
            Node::lemma_pending_front(q.drop_last());
            assert(q.drop_last().drop_first() =~= q.drop_first().drop_last());
            assert(q.drop_first().last() == q.last());
            assert(q.drop_last().first() == q.first());
            assert(Node::pending(q) =~= Node::keys(*q.first()).to_multiset().add(
                Node::pending(q.drop_first()),
            ));
        }
    }
    /// The keys of a subtree are those of its two subtrees and that of its
    /// root.
    proof fn lemma_keys_multiset(link: Option<Box<Node<K, V>>>)
        requires
            link is Some,
        ensures
            Node::keys(link).to_multiset() == Multiset::<K>::empty().insert(
                link.unwrap().key,
            ).add(Node::keys(link.unwrap().left_child).to_multiset()).add(
                Node::keys(link.unwrap().right_child).to_multiset(),
            ),
            Node::keys(link).len() == 1 + Node::keys(link.unwrap().left_child).len() + Node::keys(
                link.unwrap().right_child,
            ).len(),
    {
        let n = link.unwrap();
        let a = Node::keys(n.left_child);
        let b = Node::keys(n.right_child);
        vstd::seq_lib::lemma_multiset_commutative(a + seq![n.key], b);
        vstd::seq_lib::lemma_multiset_commutative(a, seq![n.key]);
        assert(seq![n.key] =~= Seq::<K>::empty().push(n.key));
        vstd::seq_lib::to_multiset_build(Seq::<K>::empty(), n.key);
        assert(Seq::<K>::empty().to_multiset() =~= Multiset::empty()) by {
            broadcast use vstd::seq_lib::group_to_multiset_ensures;
        }
        assert(Node::keys(link).to_multiset() =~= Multiset::<K>::empty().insert(n.key).add(
            a.to_multiset(),
        ).add(b.to_multiset()));
    }
    fn key(&self) -> (r: &K)
        ensures
            *r == self.key,
    {
        &self.key
    }
    fn value(&self) -> (r: &V)
        ensures
            *r == self.value,
    {
        &self.value
    }
    fn size(link: &Option<Box<Node<K, V>>>) -> (r: usize)
        ensures
            r == Node::size_of(*link),
    {
        match link {
            Some(n) => n.size,
            None => 0,
        }
    }

    /// The keys of the left subtree sort before the node's key, and those
    /// of the right subtree after it.
    spec fn placed(self) -> bool {
        &&& all_before(Node::keys(self.left_child), self.key, key_order::<K>())
        &&& all_after(Node::keys(self.right_child), self.key, key_order::<K>())
    }

    /// What holds of one node, given its subtrees: the search order and the
    /// cached size.
    spec fn local(self) -> bool {
        &&& self.placed()
        &&& self.size == Node::keys(Some(Box::new(self))).len()
    }

    /// `local` holds of every node of the subtree.
    spec fn shaped(link: Option<Box<Node<K, V>>>) -> bool
        decreases link,
    {
        match link {
            None => true,
            Some(n) => Node::shaped(n.left_child) && Node::shaped(n.right_child) && n.local(),
        }
    }

    /// `local` holds of every node below this one, and this one stands in
    /// search order between its subtrees; its cached size may be out of
    /// date.
    spec fn rooted(self) -> bool {
        &&& Node::shaped(self.left_child)
        &&& Node::shaped(self.right_child)
        &&& self.placed()
    }

    /// The number of links on the longest way down from a node; -1 for no
    /// node.
    spec fn depth(link: Option<Box<Node<K, V>>>) -> int
        decreases link,
    {
        match link {
            None => -1,
            Some(n) => 1 + vstd::math::max(Node::depth(n.left_child), Node::depth(n.right_child)),
        }
    }

    /// Whether a node hangs on a red link; no node counts as black.
    spec fn red(link: Option<Box<Node<K, V>>>) -> bool {
        match link {
            None => false,
            Some(n) => n.color == RED,
        }
    }

    /// No node of the subtree has a red link to its right child, and none
    /// but the root of the whole tree has red links both above it and to
    /// its left child.
    spec fn two_three(link: Option<Box<Node<K, V>>>, is_root: bool) -> bool
        decreases link,
    {
        match link {
            None => true,
            Some(n) => !Node::red(n.right_child) && !(!is_root && Node::red(link) && Node::red(
                n.left_child,
            )) && Node::two_three(n.left_child, false) && Node::two_three(n.right_child, false),
        }
    }

    proof fn lemma_shaped(link: Option<Box<Node<K, V>>>)
        requires
            total_order::<K>(),
            Node::shaped(link),
        ensures
            ascending(Node::keys(link), key_order::<K>()),
            link is None <==> Node::keys(link).len() == 0,
            Node::size_of(link) == Node::keys(link).len(),
            Node::values(link).len() == Node::keys(link).len(),
            Node::ordered(link),
            Node::sized(link),
            -1 <= Node::depth(link) < Node::keys(link).len(),
        decreases link,
    {
        lemma_key_order::<K>();
        if let Some(n) = link {
            Node::lemma_shaped(n.left_child);
            Node::lemma_shaped(n.right_child);
            lemma_join_ascending(
                Node::keys(n.left_child),
                n.key,
                Node::keys(n.right_child),
                key_order::<K>(),
            );
        }
    }

    fn init(key: K, value: V, color: bool, size: usize) -> (r: Node<K, V>)
        ensures
            r.key == key,
            r.value == value,
            r.color == color,
            r.size == size,
            r.left_child is None,
            r.right_child is None,
    {
        Node { key, value, color, size, left_child: None, right_child: None }
    }

    /// Whether a node hangs on a red link; no node counts as black.
    fn is_red(node: &Option<Box<Node<K, V>>>) -> (r: bool)
        ensures
            r == Node::red(*node),
            r ==> *node is Some,
    {
        match node {
            None => false,
            Some(n) => n.color == RED,
        }
    }

    /// Whether the left child of the node behind `node` hangs on a red
    /// link; no node counts as black.
    fn is_left_red(node: &Option<Box<Node<K, V>>>) -> (r: bool)
        ensures
            r ==> *node is Some && node.unwrap().left_child is Some,
            r == (*node matches Some(n) && Node::red(n.left_child)),
    {
        match node {
            None => false,
            Some(n) => Node::is_red(&n.left_child),
        }
    }

    fn update_size(&mut self)
        requires
            1 + Node::size_of(old(self).left_child) + Node::size_of(old(self).right_child)
                <= usize::MAX,
        ensures
            *final(self) == (Node { size: final(self).size, ..*old(self) }),
            final(self).size == 1 + Node::size_of(old(self).left_child) + Node::size_of(
                old(self).right_child,
            ),
    {
        self.size = Node::size(&self.left_child) + Node::size(&self.right_child) + 1;
    }
}

/// An ordered map from `K` to `V`.
pub struct RedBlack<K: Ord, V> {
    root: Option<Box<Node<K, V>>>,
}

impl<K: Ord, V> View for RedBlack<K, V> {
    type V = Seq<K>;

    /// The keys of the map in increasing order.
    closed spec fn view(&self) -> Seq<K> {
        Node::keys(self.root)
    }
}

impl<K: Ord, V> RedBlack<K, V> {
    /// The invariant of the tree. At every node: the keys of the left
    /// subtree sort before the node's key and those of the right subtree
    /// after it, and the cached size is the number of keys of the subtree.
    pub closed spec fn well_formed(&self) -> bool {
        Node::shaped(self.root)
    }

    /// The height of the tree: -1 where it is empty, 0 for a single node.
    pub closed spec fn spec_height(&self) -> int {
        Node::depth(self.root)
    }

    /// No node has a red link to its right child, and none has red links
    /// both above it and to its left child.
    pub closed spec fn spec_two_three(&self) -> bool {
        Node::two_three(self.root, true)
    }

    /// What the invariant means: the keys stand in strictly increasing
    /// order with one value each, a `usize` counts them, and the tree is
    /// ordered and consistent in its sizes.
    pub proof fn lemma_well_formed(&self)
        requires
            total_order::<K>(),
            self.well_formed(),
        ensures
            ascending(self@, key_order::<K>()),
            self.values().len() == self@.len(),
            self@.len() <= usize::MAX,
            self.spec_ordered(),
            self.spec_sized(),
            -1 <= self.spec_height() < self@.len(),
    {
        Node::lemma_shaped(self.root);
    }

    /// An empty map.
    pub fn init() -> (r: RedBlack<K, V>)
        ensures
            r.well_formed(),
            r@ == Seq::<K>::empty(),
            r.values() == Seq::<V>::empty(),
    {
        RedBlack { root: None }
    }

    fn _get<'a>(node: &'a Option<Box<Node<K, V>>>, key: &K) -> (r: Option<&'a V>)
        requires
            total_order::<K>(),
            Node::shaped(*node),
        ensures
            r is Some <==> Node::keys(*node).contains(*key),
            r matches Some(v) ==> *v == Node::values(*node)[rank_of(
                Node::keys(*node),
                *key,
                key_order::<K>(),
            ) as int],
    {
        let mut current = node;
        let ghost mut skipped: int = 0;
        proof {
            lemma_rank_bound(Node::keys(*node), *key, key_order::<K>());
            Node::lemma_shaped(*node);
        }
        while !current.is_none()
            invariant
                total_order::<K>(),
                Node::shaped(*current),
                Node::keys(*node).contains(*key) <==> Node::keys(*current).contains(*key),
                rank_of(Node::keys(*node), *key, key_order::<K>()) == skipped + rank_of(
                    Node::keys(*current),
                    *key,
                    key_order::<K>(),
                ),
                0 <= skipped,
                skipped + Node::keys(*current).len() <= Node::keys(*node).len(),
                Node::values(*node).len() == Node::keys(*node).len(),
                forall|i: int|
                    0 <= i < Node::values(*current).len() ==> #[trigger] Node::values(*current)[i]
                        == Node::values(*node)[skipped + i],
            decreases Node::keys(*current).len(),
        {
            let node_ref = current.as_ref().unwrap();
            let ghost a = Node::keys(node_ref.left_child);
            let ghost b = Node::keys(node_ref.right_child);
            let ghost va = Node::values(node_ref.left_child);
            let ghost vb = Node::values(node_ref.right_child);
            let ghost whole = Node::values(*current);
            proof {
                lemma_key_order::<K>();
                Node::lemma_shaped(node_ref.left_child);
                Node::lemma_shaped(node_ref.right_child);
                Node::lemma_shaped(*current);
                lemma_rank_join(a, node_ref.key, b, *key, key_order::<K>());
                lemma_rank_bound(a, *key, key_order::<K>());
                lemma_rank_bound(b, *key, key_order::<K>());
                assert(key_order::<K>()(*key, node_ref.key) || *key == node_ref.key
                    || key_order::<K>()(node_ref.key, *key));
            }
            if is_lt(key, &node_ref.key) {
                proof {
                    assert forall|i: int| 0 <= i < va.len() implies #[trigger] va[i]
                        == Node::values(*node)[skipped + i] by {
                        assert(va[i] == whole[i]);
                    }
                }
                current = &node_ref.left_child;
            } else if is_lt(&node_ref.key, key) {
                proof {
                    assert forall|i: int| 0 <= i < vb.len() implies #[trigger] vb[i]
                        == Node::values(*node)[skipped + a.len() + 1 + i] by {
                        assert(vb[i] == whole[a.len() + 1 + i]);
                    }
                    skipped = skipped + a.len() + 1;
                }
                current = &node_ref.right_child;
            } else {
                proof {
                    assert(whole[a.len() as int] == node_ref.value);
                }
                return Some(&node_ref.value);
            }
        }
        proof {
            assert(Node::keys(*current) =~= Seq::<K>::empty());
        }
        None
    }

    /// Gives `key` the value `value`, in place of the one it had if the map
    /// held `key` already.
    pub fn insert(&mut self, key: K, value: V)
        requires
            total_order::<K>(),
            old(self).well_formed(),
            old(self)@.len() < usize::MAX,
        ensures
            final(self).well_formed(),
            final(self)@ == with_item(old(self)@, key, key_order::<K>()),
            final(self).values() == put_value(old(self)@, old(self).values(), key, value),
    {
        let mut root = RedBlack::_insert(self.root.take(), key, value).unwrap();
        proof {
            assert(Node::shaped(Some(root)));
        }
        let ghost before = root;
        root.color = BLACK;
        proof {
            assert(Node::keys(Some(root)) == Node::keys(Some(before)));
            assert(Node::values(Some(root)) == Node::values(Some(before)));
            assert(root.local());
        }
        self.root = Some(root);
    }

    fn _insert(node: Option<Box<Node<K, V>>>, key: K, value: V) -> (r: Option<Box<Node<K, V>>>)
        requires
            total_order::<K>(),
            Node::shaped(node),
            Node::keys(node).len() < usize::MAX,
        ensures
            r is Some,
            Node::shaped(r),
            Node::keys(r) == with_item(Node::keys(node), key, key_order::<K>()),
            Node::values(r) == put_value(Node::keys(node), Node::values(node), key, value),
        decreases node,
    {
        let ghost less = key_order::<K>();
        match node {
            None => {
                let leaf = Box::new(Node::init(key, value, RED, 1));
                proof {
                    assert(Node::keys(leaf.left_child) =~= Seq::<K>::empty());
                    assert(Node::keys(leaf.right_child) =~= Seq::<K>::empty());
                    assert(Node::values(leaf.left_child) =~= Seq::<V>::empty());
                    assert(Node::values(leaf.right_child) =~= Seq::<V>::empty());
                    assert(Node::keys(Some(leaf)) =~= seq![key]);
                    assert(Node::values(Some(leaf)) =~= seq![value]);
                    assert(Seq::<K>::empty().insert(0, key) =~= seq![key]);
                    assert(Seq::<V>::empty().insert(0, value) =~= seq![value]);
                    assert(!Seq::<K>::empty().contains(key));
                    assert(leaf.local());
                    assert(Node::shaped(Some(leaf)));
                }
                Some(leaf)
            },
            Some(mut node_ref) => {
                let ghost a = Node::keys(node_ref.left_child);
                let ghost b = Node::keys(node_ref.right_child);
                let ghost va = Node::values(node_ref.left_child);
                let ghost vb = Node::values(node_ref.right_child);
                let ghost nk = node_ref.key;
                let ghost nv = node_ref.value;
                proof {
                    lemma_key_order::<K>();
                    Node::lemma_shaped(node_ref.left_child);
                    Node::lemma_shaped(node_ref.right_child);
                }
                if is_lt(&key, &node_ref.key) {
                    let left = RedBlack::_insert(node_ref.left_child.take(), key, value);
                    proof {
                        lemma_with_left(a, nk, b, key, less);
                        lemma_put_left(a, va, nk, nv, b, vb, key, value);
                    }
                    node_ref.left_child = left;
                } else if is_lt(&node_ref.key, &key) {
                    let right = RedBlack::_insert(node_ref.right_child.take(), key, value);
                    proof {
                        lemma_with_right(a, nk, b, key, less);
                        lemma_put_right(a, va, nk, nv, b, vb, key, value);
                    }
                    node_ref.right_child = right;
                } else {
                    node_ref.value = value;
                    proof {
                        assert(less(key, nk) || key == nk || less(nk, key));
                        lemma_put_middle(a, va, nk, nv, b, vb, value);
                    }
                }
                proof {
                    Node::lemma_shaped(node_ref.left_child);
                    Node::lemma_shaped(node_ref.right_child);
                }
                Some(RedBlack::settle(node_ref))
            },
        }
    }

    /// After an insertion below `node`: brings the links at `node` back
    /// into the shape of a left-leaning tree and recomputes the cached
    /// size.
    fn settle(node: Box<Node<K, V>>) -> (r: Box<Node<K, V>>)
        requires
            total_order::<K>(),
            node.rooted(),
            Node::keys(Some(node)).len() <= usize::MAX,
        ensures
            Node::shaped(Some(r)),
            Node::keys(Some(r)) == Node::keys(Some(node)),
            Node::values(Some(r)) == Node::values(Some(node)),
    {
        let mut node_ref = node;
        let ghost before = node_ref;
        if Node::is_red(&node_ref.right_child) && !Node::is_red(&node_ref.left_child) {
            node_ref = RedBlack::rotate_left(node_ref);
        }
        if Node::is_red(&node_ref.left_child) && Node::is_left_red(&node_ref.left_child) {
            node_ref = RedBlack::rotate_right(node_ref);
        }
        if Node::is_red(&node_ref.left_child) && Node::is_red(&node_ref.right_child) {
            RedBlack::flip_colors(&mut node_ref);
            proof {
                assert(Node::keys(Some(node_ref)) =~= Node::keys(Some(before)));
                assert(Node::values(Some(node_ref)) =~= Node::values(Some(before)));
            }
        }
        proof {
            Node::lemma_shaped(node_ref.left_child);
            Node::lemma_shaped(node_ref.right_child);
        }
        node_ref.update_size();
        proof {
            assert(node_ref.local());
        }
        node_ref
    }

    /// Removes the first key and its value, if there is one.
    pub fn delete_min(&mut self)
        requires
            total_order::<K>(),
            old(self).well_formed(),
        ensures
            final(self).well_formed(),
            final(self)@ == if old(self)@.len() > 0 {
                old(self)@.drop_first()
            } else {
                old(self)@
            },
            final(self).values() == if old(self)@.len() > 0 {
                old(self).values().drop_first()
            } else {
                old(self).values()
            },
    {
        if self.root.is_none() {
            return ;
        }
        proof {
            Node::lemma_shaped(self.root);
        }
        let mut root_ref = self.root.take().unwrap();
        if !Node::is_red(&root_ref.left_child) && !Node::is_red(&root_ref.right_child) {
            root_ref = RedBlack::paint(root_ref, RED);
        }
        let (root, _, _) = RedBlack::_delete_min(root_ref);
        self.root = RedBlack::blacken(root);
    }

    /// The node with the colour `color`.
    fn paint(node: Box<Node<K, V>>, color: bool) -> (r: Box<Node<K, V>>)
        ensures
            *r == (Node { color: color, ..*node }),
            Node::shaped(Some(node)) ==> Node::shaped(Some(r)),
            Node::keys(Some(r)) == Node::keys(Some(node)),
            Node::values(Some(r)) == Node::values(Some(node)),
    {
        let mut node = node;
        node.color = color;
        node
    }

    /// The subtree with a black root.
    fn blacken(node: Option<Box<Node<K, V>>>) -> (r: Option<Box<Node<K, V>>>)
        ensures
            Node::shaped(node) ==> Node::shaped(r),
            Node::keys(r) == Node::keys(node),
            Node::values(r) == Node::values(node),
    {
        match node {
            None => None,
            Some(root_ref) => Some(RedBlack::paint(root_ref, BLACK)),
        }
    }

    /// Takes the first key and its value out of a subtree.
    fn _delete_min(node: Box<Node<K, V>>) -> (r: (Option<Box<Node<K, V>>>, K, V))
        requires
            total_order::<K>(),
            Node::shaped(Some(node)),
        ensures
            Node::shaped(r.0),
            Node::keys(r.0) == Node::keys(Some(node)).drop_first(),
            Node::values(r.0) == Node::values(Some(node)).drop_first(),
            r.1 == Node::keys(Some(node))[0],
            r.2 == Node::values(Some(node))[0],
        decreases Node::keys(Some(node)).len(),
    {
        let ghost less = key_order::<K>();
        let ghost keys = Node::keys(Some(node));
        let ghost values = Node::values(Some(node));
        proof {
            lemma_key_order::<K>();
            Node::lemma_shaped(Some(node));
            Node::lemma_shaped(node.left_child);
            Node::lemma_shaped(node.right_child);
        }
        if node.left_child.is_none() {
            proof {
                let b = Node::keys(node.right_child);
                let vb = Node::values(node.right_child);
                assert(keys.drop_first() =~= b);
                assert(values.drop_first() =~= vb);
            }
            let n = *node;
            return (n.right_child, n.key, n.value);
        }
        let mut node_ref = node;
        if !Node::is_red(&node_ref.left_child) && !Node::is_left_red(&node_ref.left_child) {
            node_ref = RedBlack::move_red_left(node_ref);
        }
        let ghost a = Node::keys(node_ref.left_child);
        let ghost b = Node::keys(node_ref.right_child);
        let ghost va = Node::values(node_ref.left_child);
        let ghost vb = Node::values(node_ref.right_child);
        let ghost nk = node_ref.key;
        let ghost nv = node_ref.value;
        proof {
            Node::lemma_shaped(node_ref.left_child);
            Node::lemma_shaped(node_ref.right_child);
            assert(keys =~= a + seq![nk] + b);
            assert(values =~= va + seq![nv] + vb);
        }
        let (rest, key, value) = RedBlack::_delete_min(node_ref.left_child.take().unwrap());
        node_ref.left_child = rest;
        proof {
            assert(keys.drop_first() =~= a.drop_first() + seq![nk] + b);
            assert(values.drop_first() =~= va.drop_first() + seq![nv] + vb);
            assert forall|i: int| 0 <= i < a.drop_first().len() implies less(
                #[trigger] a.drop_first()[i],
                nk,
            ) by {
                assert(a.drop_first()[i] == a[i + 1]);
            }
        }
        (Some(RedBlack::balance(node_ref)), key, value)
    }

    /// Removes the last key and its value, if there is one.
    pub fn delete_max(&mut self)
        requires
            total_order::<K>(),
            old(self).well_formed(),
        ensures
            final(self).well_formed(),
            final(self)@ == if old(self)@.len() > 0 {
                old(self)@.drop_last()
            } else {
                old(self)@
            },
            final(self).values() == if old(self)@.len() > 0 {
                old(self).values().drop_last()
            } else {
                old(self).values()
            },
    {
        if self.root.is_none() {
            return ;
        }
        proof {
            Node::lemma_shaped(self.root);
        }
        let mut root_ref = self.root.take().unwrap();
        if !Node::is_red(&root_ref.left_child) && !Node::is_red(&root_ref.right_child) {
            root_ref = RedBlack::paint(root_ref, RED);
        }
        let root = RedBlack::_delete_max(Some(root_ref));
        self.root = RedBlack::blacken(root);
    }

    fn _delete_max(node: Option<Box<Node<K, V>>>) -> (r: Option<Box<Node<K, V>>>)
        requires
            total_order::<K>(),
            Node::shaped(node),
        ensures
            Node::shaped(r),
            node is Some ==> Node::keys(r) == Node::keys(node).drop_last() && Node::values(r)
                == Node::values(node).drop_last(),
            node is None ==> r is None,
        decreases Node::keys(node).len(),
    {
        let ghost less = key_order::<K>();
        let ghost keys = Node::keys(node);
        let ghost values = Node::values(node);
        if node.is_none() {
            return None;
        }
        proof {
            lemma_key_order::<K>();
            Node::lemma_shaped(node);
        }
        let mut node_ref = node.unwrap();
        if Node::is_red(&node_ref.left_child) {
            node_ref = RedBlack::rotate_right(node_ref);
        }
        if node_ref.right_child.is_none() {
            proof {
                let a = Node::keys(node_ref.left_child);
                let va = Node::values(node_ref.left_child);
                Node::lemma_shaped(node_ref.left_child);
                assert(Node::keys(node_ref.right_child) =~= Seq::<K>::empty());
                assert(Node::values(node_ref.right_child) =~= Seq::<V>::empty());
                assert(keys.drop_last() =~= a);
                assert(values.drop_last() =~= va);
            }
            return node_ref.left_child;
        }
        if !Node::is_red(&node_ref.right_child) && !Node::is_left_red(&node_ref.right_child) {
            node_ref = RedBlack::move_red_right(node_ref);
        }
        let ghost a = Node::keys(node_ref.left_child);
        let ghost b = Node::keys(node_ref.right_child);
        let ghost va = Node::values(node_ref.left_child);
        let ghost vb = Node::values(node_ref.right_child);
        let ghost nk = node_ref.key;
        let ghost nv = node_ref.value;
        proof {
            Node::lemma_shaped(node_ref.left_child);
            Node::lemma_shaped(node_ref.right_child);
            assert(keys =~= a + seq![nk] + b);
            assert(values =~= va + seq![nv] + vb);
        }
        node_ref.right_child = RedBlack::_delete_max(node_ref.right_child.take());
        proof {
            assert(keys.drop_last() =~= a + seq![nk] + b.drop_last());
            assert(values.drop_last() =~= va + seq![nv] + vb.drop_last());
            assert forall|i: int| 0 <= i < b.drop_last().len() implies less(
                nk,
                #[trigger] b.drop_last()[i],
            ) by {
                assert(b.drop_last()[i] == b[i]);
            }
        }
        Some(RedBlack::balance(node_ref))
    }

    /// Removes `key` and its value, if the map holds `key`.
    pub fn delete(&mut self, key: &K)
        requires
            total_order::<K>(),
            old(self).well_formed(),
        ensures
            final(self).well_formed(),
            final(self)@ == without_item(old(self)@, *key, key_order::<K>()),
            final(self).values() == drop_value(old(self)@, old(self).values(), *key),
    {
        if self.root.is_none() || !self.contains(key) {
            return ;
        }
        let mut root_ref = self.root.take().unwrap();
        if !Node::is_red(&root_ref.left_child) && !Node::is_red(&root_ref.right_child) {
            root_ref = RedBlack::paint(root_ref, RED);
        }
        let root = RedBlack::_delete(Some(root_ref), key);
        self.root = RedBlack::blacken(root);
    }

    fn _delete(node: Option<Box<Node<K, V>>>, key: &K) -> (r: Option<Box<Node<K, V>>>)
        requires
            total_order::<K>(),
            Node::shaped(node),
        ensures
            Node::shaped(r),
            Node::keys(r) == without_item(Node::keys(node), *key, key_order::<K>()),
            Node::values(r) == drop_value(Node::keys(node), Node::values(node), *key),
        decreases Node::keys(node).len(), 1nat,
    {
        match node {
            None => None,
            Some(node_ref) => {
                if is_lt(key, &node_ref.key) {
                    RedBlack::delete_on_left(node_ref, key)
                } else {
                    RedBlack::delete_on_right(node_ref, key)
                }
            },
        }
    }

    /// Removes a key that sorts before the key of `node`.
    fn delete_on_left(node: Box<Node<K, V>>, key: &K) -> (r: Option<Box<Node<K, V>>>)
        requires
            total_order::<K>(),
            Node::shaped(Some(node)),
            lt(*key, node.key),
        ensures
            Node::shaped(r),
            Node::keys(r) == without_item(Node::keys(Some(node)), *key, key_order::<K>()),
            Node::values(r) == drop_value(
                Node::keys(Some(node)),
                Node::values(Some(node)),
                *key,
            ),
        decreases Node::keys(Some(node)).len(), 0nat,
    {
        let ghost less = key_order::<K>();
        let ghost keys = Node::keys(Some(node));
        let ghost values = Node::values(Some(node));
        let ghost first_key = node.key;
        proof {
            lemma_key_order::<K>();
            Node::lemma_shaped(Some(node));
        }
        let mut node_ref = node;
        if !Node::is_red(&node_ref.left_child) && Node::is_left_red(&node_ref.left_child) {
            node_ref = RedBlack::move_red_left(node_ref);
        }
        let ghost a = Node::keys(node_ref.left_child);
        let ghost b = Node::keys(node_ref.right_child);
        let ghost va = Node::values(node_ref.left_child);
        let ghost vb = Node::values(node_ref.right_child);
        let ghost nk = node_ref.key;
        let ghost nv = node_ref.value;
        proof {
            Node::lemma_shaped(node_ref.left_child);
            Node::lemma_shaped(node_ref.right_child);
            assert(keys =~= a + seq![nk] + b);
            assert(values =~= va + seq![nv] + vb);
            assert(less(*key, first_key));
            assert(less(*key, nk));
            lemma_without_left(a, nk, b, *key, less);
            lemma_drop_left(a, va, nk, nv, b, vb, *key);
        }
        node_ref.left_child = RedBlack::_delete(node_ref.left_child.take(), key);
        Some(RedBlack::balance(node_ref))
    }

    /// Removes a key that does not sort before the key of `node`.
    fn delete_on_right(node: Box<Node<K, V>>, key: &K) -> (r: Option<Box<Node<K, V>>>)
        requires
            total_order::<K>(),
            Node::shaped(Some(node)),
            !lt(*key, node.key),
        ensures
            Node::shaped(r),
            Node::keys(r) == without_item(Node::keys(Some(node)), *key, key_order::<K>()),
            Node::values(r) == drop_value(
                Node::keys(Some(node)),
                Node::values(Some(node)),
                *key,
            ),
        decreases Node::keys(Some(node)).len(), 0nat,
    {
        let ghost less = key_order::<K>();
        let ghost keys = Node::keys(Some(node));
        let ghost values = Node::values(Some(node));
        let ghost first_key = node.key;
        proof {
            lemma_key_order::<K>();
            Node::lemma_shaped(Some(node));
        }
        let mut node_ref = node;
        if Node::is_red(&node_ref.left_child) {
            node_ref = RedBlack::rotate_right(node_ref);
        }
        let ghost second_key = node_ref.key;
        proof {
            assert(less(*key, first_key) || *key == first_key || less(first_key, *key));
            assert(second_key == first_key || less(second_key, first_key));
            assert(!less(*key, second_key));
        }
        if is_eq(key, &node_ref.key) && node_ref.right_child.is_none() {
            return RedBlack::drop_root(node_ref);
        }
        if !Node::is_red(&node_ref.right_child) && !Node::is_left_red(&node_ref.right_child) {
            node_ref = RedBlack::move_red_right(node_ref);
        }
        let ghost a = Node::keys(node_ref.left_child);
        let ghost b = Node::keys(node_ref.right_child);
        let ghost va = Node::values(node_ref.left_child);
        let ghost vb = Node::values(node_ref.right_child);
        let ghost nk = node_ref.key;
        let ghost nv = node_ref.value;
        proof {
            Node::lemma_shaped(node_ref.left_child);
            Node::lemma_shaped(node_ref.right_child);
            assert(keys =~= a + seq![nk] + b);
            assert(values =~= va + seq![nv] + vb);
            assert(nk == second_key || less(nk, second_key));
            assert(less(*key, nk) || *key == nk || less(nk, *key));
            assert(!less(*key, nk));
        }
        if is_eq(key, &node_ref.key) {
            RedBlack::drop_root(node_ref)
        } else {
            proof {
                lemma_without_right(a, nk, b, *key, less);
                lemma_drop_right(a, va, nk, nv, b, vb, *key);
            }
            node_ref.right_child = RedBlack::_delete(node_ref.right_child.take(), key);
            Some(RedBlack::balance(node_ref))
        }
    }

    /// Takes the key at the root of a subtree out: the first key of the
    /// right subtree takes its place, and where there is no right subtree
    /// the left subtree is what is left.
    fn drop_root(node: Box<Node<K, V>>) -> (r: Option<Box<Node<K, V>>>)
        requires
            total_order::<K>(),
            node.rooted(),
            Node::keys(Some(node)).len() <= usize::MAX,
        ensures
            Node::shaped(r),
            Node::keys(r) == without_item(Node::keys(Some(node)), node.key, key_order::<K>()),
            Node::values(r) == drop_value(
                Node::keys(Some(node)),
                Node::values(Some(node)),
                node.key,
            ),
    {
        let ghost less = key_order::<K>();
        let ghost a = Node::keys(node.left_child);
        let ghost b = Node::keys(node.right_child);
        let ghost va = Node::values(node.left_child);
        let ghost vb = Node::values(node.right_child);
        let ghost nk = node.key;
        let ghost nv = node.value;
        proof {
            lemma_key_order::<K>();
            Node::lemma_shaped(node.left_child);
            Node::lemma_shaped(node.right_child);
            lemma_without_middle(a, nk, b, less);
            lemma_drop_middle(a, va, nk, nv, b, vb);
        }
        let mut node_ref = node;
        match node_ref.right_child.take() {
            None => {
                proof {
                    assert(a + b =~= a);
                    assert(va + vb =~= va);
                }
                node_ref.left_child
            },
            Some(right) => {
                let (rest, next_key, next_value) = RedBlack::_delete_min(right);
                node_ref.key = next_key;
                node_ref.value = next_value;
                node_ref.right_child = rest;
                proof {
                    let m = b[0];
                    assert(less(nk, m));
                    lemma_before_further(a, nk, m, less);
                    assert(a + b =~= a + seq![m] + b.drop_first());
                    assert(va + vb =~= va + seq![vb[0]] + vb.drop_first());
                    assert forall|i: int| 0 <= i < b.drop_first().len() implies less(
                        m,
                        #[trigger] b.drop_first()[i],
                    ) by {
                        assert(b.drop_first()[i] == b[i + 1]);
                    }
                }
                Some(RedBlack::balance(node_ref))
            },
        }
    }

    /// Lifts the right child of `node` into its place; `node` becomes the
    /// left child of the new root and hangs on a red link.
    fn rotate_left(node: Box<Node<K, V>>) -> (y: Box<Node<K, V>>)
        requires
            total_order::<K>(),
            node.rooted(),
            node.right_child is Some,
            Node::keys(Some(node)).len() <= usize::MAX,
        ensures
            y.rooted(),
            Node::keys(Some(y)) == Node::keys(Some(node)),
            Node::values(Some(y)) == Node::values(Some(node)),
            y.size == node.size,
            y.left_child is Some,
            y.key == node.right_child.unwrap().key,
            key_order::<K>()(node.key, y.key),
    {
        let ghost a = Node::keys(node.left_child);
        let ghost b = Node::keys(node.right_child.unwrap().left_child);
        let ghost c = Node::keys(node.right_child.unwrap().right_child);
        let ghost va = Node::values(node.left_child);
        let ghost vb = Node::values(node.right_child.unwrap().left_child);
        let ghost vc = Node::values(node.right_child.unwrap().right_child);
        let ghost xk = node.key;
        let ghost yk = node.right_child.unwrap().key;
        let ghost xv = node.value;
        let ghost yv = node.right_child.unwrap().value;
        let ghost whole = Node::keys(Some(node));
        let ghost whole_values = Node::values(Some(node));
        proof {
            lemma_key_order::<K>();
            assert(Node::shaped(node.right_child));
            Node::lemma_shaped(node.left_child);
            Node::lemma_shaped(node.right_child.unwrap().left_child);
            Node::lemma_shaped(node.right_child.unwrap().right_child);
            Node::lemma_shaped(node.right_child);
            lemma_join_after(b, yk, c, xk, key_order::<K>());
            lemma_before_further(a, xk, yk, key_order::<K>());
            lemma_join_before(a, xk, b, yk, key_order::<K>());
            assert(whole =~= (a + seq![xk] + b) + seq![yk] + c);
            assert(whole_values =~= (va + seq![xv] + vb) + seq![yv] + vc);
        }
        let mut node = node;
        let mut y = node.right_child.take().unwrap();
        node.right_child = y.left_child.take();
        y.color = node.color;
        node.color = RED;
        y.size = node.size;
        node.update_size();
        proof {
            assert(Node::keys(Some(node)) =~= a + seq![xk] + b);
            assert(node.local());
        }
        y.left_child = Some(node);
        proof {
            assert(Node::keys(y.left_child) =~= a + seq![xk] + b);
            assert(Node::values(y.left_child) =~= va + seq![xv] + vb);
            assert(Node::keys(Some(y)) =~= whole);
            assert(Node::values(Some(y)) =~= whole_values);
            assert(Node::shaped(y.left_child));
        }
        y
    }

    /// Lifts the left child of `node` into its place; `node` becomes the
    /// right child of the new root and hangs on a red link.
    fn rotate_right(node: Box<Node<K, V>>) -> (y: Box<Node<K, V>>)
        requires
            total_order::<K>(),
            node.rooted(),
            node.left_child is Some,
            Node::keys(Some(node)).len() <= usize::MAX,
        ensures
            y.rooted(),
            Node::keys(Some(y)) == Node::keys(Some(node)),
            Node::values(Some(y)) == Node::values(Some(node)),
            y.size == node.size,
            y.right_child is Some,
            y.key == node.left_child.unwrap().key,
            key_order::<K>()(y.key, node.key),
    {
        let ghost a = Node::keys(node.left_child.unwrap().left_child);
        let ghost b = Node::keys(node.left_child.unwrap().right_child);
        let ghost c = Node::keys(node.right_child);
        let ghost va = Node::values(node.left_child.unwrap().left_child);
        let ghost vb = Node::values(node.left_child.unwrap().right_child);
        let ghost vc = Node::values(node.right_child);
        let ghost xk = node.key;
        let ghost yk = node.left_child.unwrap().key;
        let ghost xv = node.value;
        let ghost yv = node.left_child.unwrap().value;
        let ghost whole = Node::keys(Some(node));
        let ghost whole_values = Node::values(Some(node));
        proof {
            lemma_key_order::<K>();
            assert(Node::shaped(node.left_child));
            Node::lemma_shaped(node.left_child.unwrap().left_child);
            Node::lemma_shaped(node.left_child.unwrap().right_child);
            Node::lemma_shaped(node.right_child);
            Node::lemma_shaped(node.left_child);
            lemma_join_before(a, yk, b, xk, key_order::<K>());
            lemma_after_further(c, xk, yk, key_order::<K>());
            lemma_join_after(b, xk, c, yk, key_order::<K>());
            assert(whole =~= a + seq![yk] + (b + seq![xk] + c));
            assert(whole_values =~= va + seq![yv] + (vb + seq![xv] + vc));
        }
        let mut node = node;
        let mut y = node.left_child.take().unwrap();
        node.left_child = y.right_child.take();
        y.color = node.color;
        node.color = RED;
        y.size = node.size;
        node.update_size();
        proof {
            assert(Node::keys(Some(node)) =~= b + seq![xk] + c);
            assert(node.local());
        }
        y.right_child = Some(node);
        proof {
            assert(Node::keys(y.right_child) =~= b + seq![xk] + c);
            assert(Node::values(y.right_child) =~= vb + seq![xv] + vc);
            assert(Node::keys(Some(y)) =~= whole);
            assert(Node::values(Some(y)) =~= whole_values);
            assert(Node::shaped(y.right_child));
        }
        y
    }

    /// Turns the colour of `node` and of each of its children.
    fn flip_colors(node: &mut Box<Node<K, V>>)
        ensures
            final(node).key == old(node).key,
            final(node).value == old(node).value,
            final(node).size == old(node).size,
            Node::keys(final(node).left_child) == Node::keys(old(node).left_child),
            Node::keys(final(node).right_child) == Node::keys(old(node).right_child),
            Node::values(final(node).left_child) == Node::values(old(node).left_child),
            Node::values(final(node).right_child) == Node::values(old(node).right_child),
            Node::shaped(final(node).left_child) == Node::shaped(old(node).left_child),
            Node::shaped(final(node).right_child) == Node::shaped(old(node).right_child),
            final(node).left_child is Some <==> old(node).left_child is Some,
            final(node).right_child is Some <==> old(node).right_child is Some,
            Node::size_of(final(node).left_child) == Node::size_of(old(node).left_child),
            Node::size_of(final(node).right_child) == Node::size_of(old(node).right_child),
    {
        node.color = !node.color;
        match node.left_child.take() {
            Some(left_child) => {
                let turned = !left_child.color;
                let painted = RedBlack::paint(left_child, turned);
                proof {
                    assert(Node::shaped(Some(painted)) == Node::shaped(Some(left_child))) by {
                        assert(painted.local() == left_child.local());
                    }
                }
                node.left_child = Some(painted);
            },
            None => {},
        }
        match node.right_child.take() {
            Some(right_child) => {
                let turned = !right_child.color;
                let painted = RedBlack::paint(right_child, turned);
                proof {
                    assert(Node::shaped(Some(painted)) == Node::shaped(Some(right_child))) by {
                        assert(painted.local() == right_child.local());
                    }
                }
                node.right_child = Some(painted);
            },
            None => {},
        }
    }

    /// Makes the left child of `node`, or one of that child's children,
    /// hang on a red link.
    fn move_red_left(node: Box<Node<K, V>>) -> (r: Box<Node<K, V>>)
        requires
            total_order::<K>(),
            node.rooted(),
            Node::keys(Some(node)).len() <= usize::MAX,
        ensures
            r.rooted(),
            Node::keys(Some(r)) == Node::keys(Some(node)),
            Node::values(Some(r)) == Node::values(Some(node)),
            node.left_child is Some ==> r.left_child is Some,
            r.key == node.key || key_order::<K>()(node.key, r.key),
    {
        let mut node = node;
        let ghost before = node;
        RedBlack::flip_colors(&mut node);
        proof {
            assert(Node::keys(Some(node)) =~= Node::keys(Some(before)));
            assert(Node::values(Some(node)) =~= Node::values(Some(before)));
        }
        if Node::is_left_red(&node.right_child) {
            let ghost flipped = node;
            let right_child = node.right_child.take().unwrap();
            proof {
                Node::lemma_shaped(Some(right_child));
                assert(right_child.rooted());
            }
            let right_child = RedBlack::rotate_right(right_child);
            proof {
                lemma_key_order::<K>();
                Node::lemma_shaped(right_child.left_child);
                Node::lemma_shaped(right_child.right_child);
            }
            let mut right_child = right_child;
            right_child.update_size();
            proof {
                assert(Node::keys(Some(right_child)) == Node::keys(flipped.right_child));
                assert(right_child.local());
                assert(Node::shaped(Some(right_child)));
            }
            node.right_child = Some(right_child);
            proof {
                assert(Node::keys(Some(node)) =~= Node::keys(Some(before)));
                assert(Node::values(Some(node)) =~= Node::values(Some(before)));
            }
            node = RedBlack::rotate_left(node);
            RedBlack::flip_colors(&mut node);
            proof {
                assert(Node::keys(Some(node)) =~= Node::keys(Some(before)));
                assert(Node::values(Some(node)) =~= Node::values(Some(before)));
            }
        }
        node
    }

    /// Makes the right child of `node`, or one of that child's children,
    /// hang on a red link.
    fn move_red_right(node: Box<Node<K, V>>) -> (r: Box<Node<K, V>>)
        requires
            total_order::<K>(),
            node.rooted(),
            Node::keys(Some(node)).len() <= usize::MAX,
        ensures
            r.rooted(),
            Node::keys(Some(r)) == Node::keys(Some(node)),
            Node::values(Some(r)) == Node::values(Some(node)),
            node.right_child is Some ==> r.right_child is Some,
            r.key == node.key || key_order::<K>()(r.key, node.key),
    {
        let mut node = node;
        let ghost before = node;
        RedBlack::flip_colors(&mut node);
        proof {
            assert(Node::keys(Some(node)) =~= Node::keys(Some(before)));
            assert(Node::values(Some(node)) =~= Node::values(Some(before)));
        }
        if Node::is_left_red(&node.left_child) {
            node = RedBlack::rotate_right(node);
            RedBlack::flip_colors(&mut node);
            proof {
                assert(Node::keys(Some(node)) =~= Node::keys(Some(before)));
                assert(Node::values(Some(node)) =~= Node::values(Some(before)));
            }
        }
        node
    }

    /// Brings the links at `node` back into the shape of a left-leaning
    /// tree and recomputes the cached size.
    fn balance(node: Box<Node<K, V>>) -> (r: Box<Node<K, V>>)
        requires
            total_order::<K>(),
            node.rooted(),
            Node::keys(Some(node)).len() <= usize::MAX,
        ensures
            Node::shaped(Some(r)),
            Node::keys(Some(r)) == Node::keys(Some(node)),
            Node::values(Some(r)) == Node::values(Some(node)),
    {
        let mut node = node;
        let ghost before = node;
        if Node::is_red(&node.right_child) {
            node = RedBlack::rotate_left(node);
        }
        if Node::is_red(&node.left_child) && Node::is_left_red(&node.left_child) {
            node = RedBlack::rotate_right(node);
        }
        if Node::is_red(&node.left_child) && Node::is_red(&node.right_child) {
            RedBlack::flip_colors(&mut node);
            proof {
                assert(Node::keys(Some(node)) =~= Node::keys(Some(before)));
                assert(Node::values(Some(node)) =~= Node::values(Some(before)));
            }
        }
        proof {
            Node::lemma_shaped(node.left_child);
            Node::lemma_shaped(node.right_child);
        }
        node.update_size();
        proof {
            assert(node.local());
        }
        node
    }

    /// The height of the tree.
    pub fn height(&self) -> (r: i64)
        requires
            total_order::<K>(),
            self.well_formed(),
            self@.len() <= i64::MAX,
        ensures
            r == self.spec_height(),
    {
        RedBlack::_height(&self.root)
    }

    fn _height(node: &Option<Box<Node<K, V>>>) -> (r: i64)
        requires
            total_order::<K>(),
            Node::shaped(*node),
            Node::keys(*node).len() <= i64::MAX,
        ensures
            r == Node::depth(*node),
        decreases *node,
    {
        match node {
            None => -1,
            Some(node_ref) => {
                proof {
                    Node::lemma_shaped(node_ref.left_child);
                    Node::lemma_shaped(node_ref.right_child);
                }
                let left = RedBlack::_height(&node_ref.left_child);
                let right = RedBlack::_height(&node_ref.right_child);
                if left >= right {
                    1 + left
                } else {
                    1 + right
                }
            },
        }
    }

    /// Whether no node has a red link to its right child and none has red
    /// links both above it and to its left child.
    pub fn is_23(&self) -> (r: bool)
        ensures
            r == self.spec_two_three(),
    {
        RedBlack::_is_23(&self.root, true)
    }

    fn _is_23(node: &Option<Box<Node<K, V>>>, is_root: bool) -> (r: bool)
        ensures
            r == Node::two_three(*node, is_root),
        decreases *node,
    {
        match node {
            None => true,
            Some(node_ref) => {
                if Node::is_red(&node_ref.right_child) {
                    return false;
                }
                if !is_root && Node::is_red(node) && Node::is_red(&node_ref.left_child) {
                    return false;
                }
                RedBlack::_is_23(&node_ref.left_child, false) && RedBlack::_is_23(
                    &node_ref.right_child,
                    false,
                )
            },
        }
    }

    /// The values of the map, in the order of their keys.
    pub closed spec fn values(&self) -> Seq<V> {
        Node::values(self.root)
    }
    /// At every node the keys of the left subtree sort before the node's
    /// key and those of the right subtree after it.
    pub closed spec fn spec_ordered(&self) -> bool {
        Node::ordered(self.root)
    }
    /// At every node the cached size is one more than the cached sizes of
    /// the two subtrees.
    pub closed spec fn spec_sized(&self) -> bool {
        Node::sized(self.root)
    }
    /// The rank of the key at position `i` is `i`.
    pub proof fn lemma_rank_of_select(&self, i: int)
        requires
            total_order::<K>(),
            self.well_formed(),
            0 <= i < self@.len(),
        ensures
            rank_of(self@, self@[i], key_order::<K>()) == i,
    {
        self.lemma_well_formed();
        lemma_key_order::<K>();
        lemma_rank_of_index(self@, i, key_order::<K>());
    }
    /// A key of the map stands at the position that is its rank.
    pub proof fn lemma_select_of_rank(&self, key: K)
        requires
            total_order::<K>(),
            self.well_formed(),
            self@.contains(key),
        ensures
            rank_of(self@, key, key_order::<K>()) < self@.len(),
            self@[rank_of(self@, key, key_order::<K>()) as int] == key,
    {
        self.lemma_well_formed();
        lemma_key_order::<K>();
        lemma_index_of_rank(self@, key, key_order::<K>());
    }
    /// Whether the map holds no key.
    pub fn is_empty(&self) -> (r: bool)
        requires
            total_order::<K>(),
            self.well_formed(),
        ensures
            r == (self@.len() == 0),
    {
        proof {
            Node::lemma_shaped(self.root);
        }
        self.root.is_none()
    }
    /// The number of keys in the map.
    pub fn size(&self) -> (r: usize)
        requires
            total_order::<K>(),
            self.well_formed(),
        ensures
            r == self@.len(),
    {
        proof {
            Node::lemma_shaped(self.root);
        }
        Node::size(&self.root)
    }
    /// Whether the map holds `key`.
    pub fn contains(&self, key: &K) -> (r: bool)
        requires
            total_order::<K>(),
            self.well_formed(),
        ensures
            r == self@.contains(*key),
    {
        !self.get(key).is_none()
    }
    /// The value of `key`, if the map holds `key`.
    pub fn get(&self, key: &K) -> (r: Option<&V>)
        requires
            total_order::<K>(),
            self.well_formed(),
        ensures
            r is Some <==> self@.contains(*key),
            r matches Some(v) ==> *v == self.values()[rank_of(self@, *key, key_order::<K>()) as int],
    {
        RedBlack::_get(&self.root, key)
    }
    /// The largest key that does not sort after `key`, if there is one.
    pub fn floor(&self, key: &K) -> (r: Option<&K>)
        requires
            total_order::<K>(),
            self.well_formed(),
        ensures
            r matches Some(f) ==> is_floor(self@, *key, *f),
            r is None ==> all_after(self@, *key, key_order::<K>()),
    {
        RedBlack::_floor(&self.root, key)
    }
    fn _floor<'a>(node: &'a Option<Box<Node<K, V>>>, key: &K) -> (r: Option<&'a K>)
        requires
            total_order::<K>(),
            Node::shaped(*node),
        ensures
            r matches Some(f) ==> is_floor(Node::keys(*node), *key, *f),
            r is None ==> all_after(Node::keys(*node), *key, key_order::<K>()),
        decreases *node,
    {
        let ghost less = key_order::<K>();
        match node {
            None => None,
            Some(node_ref) => {
                let ghost a = Node::keys(node_ref.left_child);
                let ghost b = Node::keys(node_ref.right_child);
                let ghost nk = node_ref.key;
                let ghost s = Node::keys(*node);
                proof {
                    lemma_key_order::<K>();
                    assert(s[a.len() as int] == nk);
                    assert(less(*key, nk) || *key == nk || less(nk, *key));
                }
                if is_eq(key, &node_ref.key) {
                    Some(&node_ref.key)
                } else if is_lt(key, &node_ref.key) {
                    let found = RedBlack::_floor(&node_ref.left_child, key);
                    proof {
                        lemma_after_further(b, nk, *key, less);
                        lemma_join_after(a, nk, b, *key, less);
                        if let Some(f) = found {
                            lemma_join_contains(a, nk, b, *f);
                            assert forall|i: int| 0 <= i < s.len() && le(
                                #[trigger] s[i],
                                *key,
                            ) implies le(s[i], *f) by {
                                if i < a.len() {
                                    assert(s[i] == a[i]);
                                } else if i > a.len() {
                                    assert(s[i] == b[i - a.len() - 1]);
                                    assert(less(*key, s[i]));
                                }
                            }
                        }
                    }
                    found
                } else {
                    let found = RedBlack::_floor(&node_ref.right_child, key);
                    proof {
                        match found {
                            Some(f) => {
                                lemma_join_contains(a, nk, b, *f);
                                let j = choose|j: int| 0 <= j < b.len() && b[j] == *f;
                                assert(less(nk, b[j]));
                                assert forall|i: int| 0 <= i < s.len() && le(
                                    #[trigger] s[i],
                                    *key,
                                ) implies le(s[i], *f) by {
                                    if i < a.len() {
                                        assert(s[i] == a[i]);
                                        assert(less(a[i], nk));
                                    } else if i > a.len() {
                                        assert(s[i] == b[i - a.len() - 1]);
                                    }
                                }
                            },
                            None => {
                                lemma_join_contains(a, nk, b, nk);
                                assert forall|i: int| 0 <= i < s.len() && le(
                                    #[trigger] s[i],
                                    *key,
                                ) implies le(s[i], nk) by {
                                    if i < a.len() {
                                        assert(s[i] == a[i]);
                                        assert(less(a[i], nk));
                                    } else if i > a.len() {
                                        assert(s[i] == b[i - a.len() - 1]);
                                        assert(less(*key, b[i - a.len() - 1]));
                                    }
                                }
                            },
                        }
                    }
                    match found {
                        Some(f) => Some(f),
                        None => Some(&node_ref.key),
                    }
                }
            },
        }
    }
    /// The smallest key that does not sort before `key`, if there is one.
    pub fn ceiling(&self, key: &K) -> (r: Option<&K>)
        requires
            total_order::<K>(),
            self.well_formed(),
        ensures
            r matches Some(c) ==> is_ceiling(self@, *key, *c),
            r is None ==> all_before(self@, *key, key_order::<K>()),
    {
        RedBlack::_ceiling(&self.root, key)
    }
    fn _ceiling<'a>(node: &'a Option<Box<Node<K, V>>>, key: &K) -> (r: Option<&'a K>)
        requires
            total_order::<K>(),
            Node::shaped(*node),
        ensures
            r matches Some(c) ==> is_ceiling(Node::keys(*node), *key, *c),
            r is None ==> all_before(Node::keys(*node), *key, key_order::<K>()),
        decreases *node,
    {
        let ghost less = key_order::<K>();
        match node {
            None => None,
            Some(node_ref) => {
                let ghost a = Node::keys(node_ref.left_child);
                let ghost b = Node::keys(node_ref.right_child);
                let ghost nk = node_ref.key;
                let ghost s = Node::keys(*node);
                proof {
                    lemma_key_order::<K>();
                    assert(s[a.len() as int] == nk);
                    assert(less(*key, nk) || *key == nk || less(nk, *key));
                }
                if is_eq(key, &node_ref.key) {
                    Some(&node_ref.key)
                } else if is_lt(&node_ref.key, key) {
                    let found = RedBlack::_ceiling(&node_ref.right_child, key);
                    proof {
                        lemma_before_further(a, nk, *key, less);
                        lemma_join_before(a, nk, b, *key, less);
                        if let Some(c) = found {
                            lemma_join_contains(a, nk, b, *c);
                            assert forall|i: int| 0 <= i < s.len() && le(
                                *key,
                                #[trigger] s[i],
                            ) implies le(*c, s[i]) by {
                                if i < a.len() {
                                    assert(s[i] == a[i]);
                                    assert(less(s[i], *key));
                                } else if i > a.len() {
                                    assert(s[i] == b[i - a.len() - 1]);
                                }
                            }
                        }
                    }
                    found
                } else {
                    let found = RedBlack::_ceiling(&node_ref.left_child, key);
                    proof {
                        match found {
                            Some(c) => {
                                lemma_join_contains(a, nk, b, *c);
                                let j = choose|j: int| 0 <= j < a.len() && a[j] == *c;
                                assert(less(a[j], nk));
                                assert forall|i: int| 0 <= i < s.len() && le(
                                    *key,
                                    #[trigger] s[i],
                                ) implies le(*c, s[i]) by {
                                    if i < a.len() {
                                        assert(s[i] == a[i]);
                                    } else if i > a.len() {
                                        assert(s[i] == b[i - a.len() - 1]);
                                        assert(less(nk, b[i - a.len() - 1]));
                                    }
                                }
                            },
                            None => {
                                lemma_join_contains(a, nk, b, nk);
                                assert forall|i: int| 0 <= i < s.len() && le(
                                    *key,
                                    #[trigger] s[i],
                                ) implies le(nk, s[i]) by {
                                    if i < a.len() {
                                        assert(s[i] == a[i]);
                                        assert(less(a[i], *key));
                                    } else if i > a.len() {
                                        assert(s[i] == b[i - a.len() - 1]);
                                        assert(less(nk, b[i - a.len() - 1]));
                                    }
                                }
                            },
                        }
                    }
                    match found {
                        Some(c) => Some(c),
                        None => Some(&node_ref.key),
                    }
                }
            },
        }
    }
    /// The key at position `k` of the order, counted from 0, and its value,
    /// if the map holds more than `k` keys.
    pub fn select(&self, k: usize) -> (r: Option<(&K, &V)>)
        requires
            total_order::<K>(),
            self.well_formed(),
        ensures
            r is Some <==> k < self@.len(),
            r matches Some(found) ==> *found.0 == self@[k as int] && *found.1
                == self.values()[k as int],
    {
        RedBlack::_select(&self.root, k)
    }
    fn _select(node: &Option<Box<Node<K, V>>>, k: usize) -> (r: Option<(&K, &V)>)
        requires
            total_order::<K>(),
            Node::shaped(*node),
        ensures
            r is Some <==> k < Node::keys(*node).len(),
            r matches Some(found) ==> *found.0 == Node::keys(*node)[k as int] && *found.1
                == Node::values(*node)[k as int],
        decreases *node,
    {
        match node {
            None => None,
            Some(node_ref) => {
                proof {
                    Node::lemma_shaped(node_ref.left_child);
                    Node::lemma_shaped(node_ref.right_child);
                }
                let t = Node::size(&node_ref.left_child);
                if t > k {
                    RedBlack::_select(&node_ref.left_child, k)
                } else if t < k {
                    RedBlack::_select(&node_ref.right_child, k - t - 1)
                } else {
                    Some((node_ref.key(), node_ref.value()))
                }
            },
        }
    }
    /// The first key and its value, if the map is not empty.
    pub fn min(&self) -> (r: Option<(&K, &V)>)
        requires
            total_order::<K>(),
            self.well_formed(),
        ensures
            r is Some <==> self@.len() > 0,
            r matches Some(found) ==> *found.0 == self@.first() && *found.1
                == self.values().first(),
    {
        self.select(0)
    }
    /// The last key and its value, if the map is not empty.
    pub fn max(&self) -> (r: Option<(&K, &V)>)
        requires
            total_order::<K>(),
            self.well_formed(),
        ensures
            r is Some <==> self@.len() > 0,
            r matches Some(found) ==> *found.0 == self@.last() && *found.1 == self.values().last(),
    {
        proof {
            Node::lemma_values_len(self.root);
        }
        let size = self.size();
        if size == 0 {
            None
        } else {
            self.select(size - 1)
        }
    }
    /// The number of keys that sort before `key`.
    pub fn rank(&self, key: &K) -> (r: usize)
        requires
            total_order::<K>(),
            self.well_formed(),
        ensures
            r == rank_of(self@, *key, key_order::<K>()),
    {
        RedBlack::_rank(&self.root, key)
    }
    fn _rank(node: &Option<Box<Node<K, V>>>, key: &K) -> (r: usize)
        requires
            total_order::<K>(),
            Node::shaped(*node),
        ensures
            r == rank_of(Node::keys(*node), *key, key_order::<K>()),
        decreases *node,
    {
        match node {
            None => 0,
            Some(node_ref) => {
                proof {
                    lemma_key_order::<K>();
                    Node::lemma_shaped(node_ref.left_child);
                    Node::lemma_shaped(node_ref.right_child);
                    assert(key_order::<K>()(*key, node_ref.key) || *key == node_ref.key
                        || key_order::<K>()(node_ref.key, *key));
                    lemma_rank_join(
                        Node::keys(node_ref.left_child),
                        node_ref.key,
                        Node::keys(node_ref.right_child),
                        *key,
                        key_order::<K>(),
                    );
                    lemma_rank_bound(Node::keys(node_ref.right_child), *key, key_order::<K>());
                }
                if is_lt(key, &node_ref.key) {
                    RedBlack::_rank(&node_ref.left_child, key)
                } else if is_lt(&node_ref.key, key) {
                    1 + Node::size(&node_ref.left_child) + RedBlack::_rank(&node_ref.right_child, key)
                } else {
                    Node::size(&node_ref.left_child)
                }
            },
        }
    }
    /// The keys of the map in increasing order.
    pub fn keys(&self) -> (r: Vec<&K>)
        requires
            total_order::<K>(),
            self.well_formed(),
        ensures
            deref_all(r@) == self@,
    {
        let mut keys: Vec<&K> = Vec::new();
        RedBlack::_keys_in_order(&self.root, &mut keys);
        proof {
            assert(deref_all(Seq::<&K>::empty()) + self@ =~= self@);
        }
        keys
    }
    fn _keys_in_order<'a>(node: &'a Option<Box<Node<K, V>>>, keys: &mut Vec<&'a K>)
        ensures
            deref_all(final(keys)@) == deref_all(old(keys)@) + Node::keys(*node),
        decreases *node,
    {
        let ghost before = deref_all(keys@);
        match node {
            None => {
                proof {
                    assert(before + Seq::<K>::empty() =~= before);
                }
            },
            Some(node_ref) => {
                RedBlack::_keys_in_order(&node_ref.left_child, keys);
                keys.push(&node_ref.key);
                proof {
                    assert(deref_all(keys@) =~= before + Node::keys(node_ref.left_child)
                        + seq![node_ref.key]);
                }
                RedBlack::_keys_in_order(&node_ref.right_child, keys);
                proof {
                    assert(deref_all(keys@) =~= before + (Node::keys(node_ref.left_child)
                        + seq![node_ref.key] + Node::keys(node_ref.right_child)));
                }
            },
        }
    }
    /// The keys of the map by level: the key of the root, then those of its
    /// children, and so on, each level from left to right.
    pub fn keys_in_level_order(&self) -> (r: Vec<&K>)
        ensures
            deref_all(r@).to_multiset() == self@.to_multiset(),
    {
        let mut keys: Vec<&K> = Vec::new();
        RedBlack::_keys_in_level_order(&self.root, &mut keys);
        proof {
            broadcast use vstd::seq_lib::group_to_multiset_ensures;

            assert(deref_all(Seq::<&K>::empty()) =~= Seq::<K>::empty());
            assert(Seq::<K>::empty().to_multiset() =~= Multiset::<K>::empty());
            assert(Multiset::<K>::empty().add(self@.to_multiset()) =~= self@.to_multiset());
        }
        keys
    }
    fn _keys_in_level_order<'a>(node: &'a Option<Box<Node<K, V>>>, keys: &mut Vec<&'a K>)
        ensures
            deref_all(final(keys)@).to_multiset() == deref_all(old(keys)@).to_multiset().add(
                Node::keys(*node).to_multiset(),
            ),
    {
        let ghost start = deref_all(keys@).to_multiset();
        let ghost all = Node::keys(*node).to_multiset();
        if node.is_none() {
            proof {
                Node::lemma_no_keys(*node);
                assert(start.add(all) =~= start);
            }
            return ;
        }
        let mut queue = VecDeque::<&Option<Box<Node<K, V>>>>::with_capacity(Node::size(node));
        queue.push_back(node);
        proof {
            let none = Seq::<&Option<Box<Node<K, V>>>>::empty();
            assert(queue@ =~= none.push(node));
            Node::lemma_pending_push(none, node);
            assert(Node::pending(queue@) =~= all);
        }
        while queue.len() > 0
            invariant
                forall|i: int| 0 <= i < queue@.len() ==> (#[trigger] queue@[i]) is Some,
                deref_all(keys@).to_multiset().add(Node::pending(queue@)) == start.add(all),
            decreases Node::pending_count(queue@),
        {
            let ghost q0 = queue@;
            let ghost k0 = deref_all(keys@);
            let current = queue.pop_front().unwrap();
            proof {
                Node::lemma_pending_front(q0);
                assert(queue@ =~= q0.drop_first());
                assert(q0[0] is Some);
            }
            match current {
                None => {},
                Some(current_node) => {
                    keys.push(&current_node.key);
                    proof {
                        assert(deref_all(keys@) =~= k0.push(current_node.key));
                        vstd::seq_lib::to_multiset_build(k0, current_node.key);
                        Node::lemma_keys_multiset(*current);
                    }
                    let ghost q1 = queue@;
                    if !current_node.left_child.is_none() {
                        queue.push_back(&current_node.left_child);
                        proof {
                            Node::lemma_pending_push(q1, &current_node.left_child);
                        }
                    } else {
                        proof {
                            Node::lemma_no_keys(current_node.left_child);
                        }
                    }
                    let ghost q2 = queue@;
                    if !current_node.right_child.is_none() {
                        queue.push_back(&current_node.right_child);
                        proof {
                            Node::lemma_pending_push(q2, &current_node.right_child);
                        }
                    } else {
                        proof {
                            Node::lemma_no_keys(current_node.right_child);
                        }
                    }
                    proof {
                        let l = Node::keys(current_node.left_child).to_multiset();
                        let r = Node::keys(current_node.right_child).to_multiset();
                        assert(Node::pending(q2) =~= Node::pending(q1).add(l));
                        assert(Node::pending(queue@) =~= Node::pending(q2).add(r));
                        assert(deref_all(keys@).to_multiset().add(Node::pending(queue@))
                            =~= k0.to_multiset().add(Node::pending(q0)));
                    }
                },
            }
        }
        proof {
            assert(Node::pending(queue@) =~= Multiset::empty());
            assert(deref_all(keys@).to_multiset().add(Multiset::empty()) =~= deref_all(
                keys@,
            ).to_multiset());
        }
    }
    /// The keys from `low_key` on and before `high_key`, in increasing
    /// order.
    pub fn keys_between(&self, low_key: &K, high_key: &K) -> (r: Vec<&K>)
        requires
            total_order::<K>(),
            self.well_formed(),
        ensures
            deref_all(r@) == between(self@, *low_key, *high_key, key_order::<K>()),
    {
        let mut keys: Vec<&K> = Vec::new();
        RedBlack::_keys_between(&self.root, low_key, high_key, &mut keys);
        proof {
            assert(deref_all(Seq::<&K>::empty()) + between(
                self@,
                *low_key,
                *high_key,
                key_order::<K>(),
            ) =~= between(self@, *low_key, *high_key, key_order::<K>()));
        }
        keys
    }
    fn _keys_between<'a>(
        node: &'a Option<Box<Node<K, V>>>,
        low_key: &K,
        high_key: &K,
        keys: &mut Vec<&'a K>,
    )
        requires
            total_order::<K>(),
            Node::shaped(*node),
        ensures
            deref_all(final(keys)@) == deref_all(old(keys)@) + between(
                Node::keys(*node),
                *low_key,
                *high_key,
                key_order::<K>(),
            ),
        decreases *node,
    {
        let ghost less = key_order::<K>();
        let ghost before = deref_all(keys@);
        match node {
            None => {
                proof {
                    reveal(Seq::filter);
                    assert(before + Seq::<K>::empty() =~= before);
                }
            },
            Some(node_ref) => {
                let ghost a = Node::keys(node_ref.left_child);
                let ghost b = Node::keys(node_ref.right_child);
                let ghost nk = node_ref.key;
                let ghost low = *low_key;
                let ghost high = *high_key;
                let ghost own = if !less(nk, low) && less(nk, high) {
                    seq![nk]
                } else {
                    Seq::<K>::empty()
                };
                proof {
                    lemma_key_order::<K>();
                    lemma_between_join(a, nk, b, low, high, less);
                }
                if is_lt(low_key, &node_ref.key) {
                    RedBlack::_keys_between(&node_ref.left_child, low_key, high_key, keys);
                } else {
                    proof {
                        lemma_between_left_empty(a, nk, low, high, less);
                    }
                }
                proof {
                    assert(deref_all(keys@) =~= before + between(a, low, high, less));
                }
                if !is_lt(&node_ref.key, low_key) && is_lt(&node_ref.key, high_key) {
                    keys.push(&node_ref.key);
                }
                proof {
                    assert(deref_all(keys@) =~= before + between(a, low, high, less) + own);
                }
                if is_lt(&node_ref.key, high_key) {
                    RedBlack::_keys_between(&node_ref.right_child, low_key, high_key, keys);
                } else {
                    proof {
                        lemma_between_right_empty(b, nk, low, high, less);
                    }
                }
                proof {
                    assert(deref_all(keys@) =~= before + (between(a, low, high, less) + own
                        + between(b, low, high, less)));
                }
            },
        }
    }
    /// The number of keys from `low_key` on and before `high_key`.
    pub fn size_between(&self, low_key: &K, high_key: &K) -> (r: usize)
        requires
            total_order::<K>(),
            self.well_formed(),
        ensures
            r == between(self@, *low_key, *high_key, key_order::<K>()).len(),
    {
        proof {
            lemma_key_order::<K>();
            reveal(Seq::filter);
        }
        if self.is_empty() {
            return 0;
        }
        if is_lt(high_key, low_key) {
            proof {
                lemma_between_none(self@, *low_key, *high_key, key_order::<K>());
            }
            return 0;
        }
        proof {
            lemma_between_len(self@, *low_key, *high_key, key_order::<K>());
            lemma_rank_monotone(self@, *low_key, *high_key, key_order::<K>());
        }
        self.rank(high_key) - self.rank(low_key)
    }
    /// Whether the keys stand in search order at every node.
    pub fn is_bst(&self) -> (r: bool)
        requires
            total_order::<K>(),
        ensures
            r == self.spec_ordered(),
    {
        RedBlack::_is_bst(&self.root, None, None)
    }
    fn _is_bst(node: &Option<Box<Node<K, V>>>, min: Option<&K>, max: Option<&K>) -> (r: bool)
        requires
            total_order::<K>(),
        ensures
            r == (Node::ordered(*node) && Node::<K, V>::within(Node::keys(*node), min, max)),
        decreases *node,
    {
        let ghost less = key_order::<K>();
        match node {
            None => true,
            Some(node_ref) => {
                let ghost a = Node::keys(node_ref.left_child);
                let ghost b = Node::keys(node_ref.right_child);
                let ghost nk = node_ref.key;
                proof {
                    lemma_key_order::<K>();
                    if let Some(l) = min {
                        lemma_join_after(a, nk, b, *l, less);
                        assert(less(*l, nk) || *l == nk || less(nk, *l));
                        if less(*l, nk) {
                            if all_after(b, nk, less) {
                                lemma_after_further(b, nk, *l, less);
                            }
                        }
                    }
                    if let Some(h) = max {
                        lemma_join_before(a, nk, b, *h, less);
                        assert(less(*h, nk) || *h == nk || less(nk, *h));
                        if less(nk, *h) {
                            if all_before(a, nk, less) {
                                lemma_before_further(a, nk, *h, less);
                            }
                        }
                    }
                }
                let above = match min {
                    Some(l) => is_lt(l, &node_ref.key),
                    None => true,
                };
                let below = match max {
                    Some(h) => is_lt(&node_ref.key, h),
                    None => true,
                };
                above && below && RedBlack::_is_bst(&node_ref.left_child, min, Some(&node_ref.key))
                    && RedBlack::_is_bst(&node_ref.right_child, Some(&node_ref.key), max)
            },
        }
    }
    /// Whether the cached size of every node is one more than the cached
    /// sizes of its two subtrees.
    pub fn is_size_consistent(&self) -> (r: bool)
        ensures
            r == self.spec_sized(),
    {
        RedBlack::_is_size_consistent(&self.root)
    }
    fn _is_size_consistent(node: &Option<Box<Node<K, V>>>) -> (r: bool)
        ensures
            r == Node::sized(*node),
        decreases *node,
    {
        match node {
            None => true,
            Some(node_ref) => {
                let l = Node::size(&node_ref.left_child);
                let r = Node::size(&node_ref.right_child);
                let fits = l < usize::MAX && r < usize::MAX - l && node_ref.size == l + r + 1;
                fits && RedBlack::_is_size_consistent(&node_ref.left_child)
                    && RedBlack::_is_size_consistent(&node_ref.right_child)
            },
        }
    }
}

} // verus!
