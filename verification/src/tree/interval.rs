//! The interval index: a height-balanced search tree of intervals in which
//! every node caches the furthest upper endpoint found in its subtree.

use crate::tree::balance::lemma_min_size_limit;
use crate::tree::balance::lemma_min_size_monotone;
use crate::tree::balance::min_size;
use crate::util::bound::bound_eq;
use crate::util::bound::ge_as_high;
use crate::util::bound::high_lt;
use crate::util::bound::high_max;
use crate::util::bound::lemma_high_transitive;
use crate::util::bound::lemma_high_trichotomy;
use crate::util::bound::lemma_low_trichotomy;
use crate::util::bound::lemma_reaches_monotone;
use crate::util::bound::max_as_high;
use crate::util::bound::reaches;
use crate::util::bound::Bound;
use crate::util::interval::lemma_span_transitive;
use crate::util::interval::lemma_span_trichotomy;
use crate::util::interval::span_valid;
use crate::util::interval::spans_overlap;
use crate::util::interval::Interval;
use crate::util::interval::Span;
use crate::util::interval::lemma_span_order;
use crate::util::interval::span_order;
use crate::util::order::total_order;
use crate::util::sorted::all_after;
use crate::util::sorted::all_before;
use crate::util::sorted::ascending;
use crate::util::sorted::lemma_after_further;
use crate::util::sorted::lemma_before_further;
use crate::util::sorted::lemma_join_after;
use crate::util::sorted::lemma_join_ascending;
use crate::util::sorted::lemma_join_before;
use crate::util::sorted::between;
use crate::util::sorted::lemma_between_join;
use crate::util::sorted::lemma_between_left_empty;
use crate::util::sorted::lemma_between_len;
use crate::util::sorted::lemma_between_none;
use crate::util::sorted::lemma_between_right_empty;
use crate::util::sorted::lemma_filter_one;
use crate::util::sorted::lemma_index_of_rank;
use crate::util::sorted::lemma_join_contains;
use crate::util::sorted::lemma_rank_of_index;
use crate::util::sorted::lemma_with_without;
use crate::util::sorted::lemma_rank_bound;
use crate::util::sorted::lemma_rank_monotone;
use crate::util::sorted::rank_of;
use crate::util::sorted::lemma_rank_join;
use crate::util::sorted::lemma_with_left;
use crate::util::sorted::lemma_with_right;
use crate::util::sorted::lemma_without_left;
use crate::util::sorted::lemma_without_middle;
use crate::util::sorted::lemma_without_right;
use crate::util::sorted::with_item;
use crate::util::sorted::without_item;
use std::rc::Rc;
use vstd::prelude::*;

verus! {

/// `m` is the furthest upper endpoint among the intervals of `s`: none ends
/// further right, and one of them ends there.
pub open spec fn is_top<T: Ord>(m: Bound<T>, s: Seq<Span<T>>) -> bool {
    &&& forall|i: int| 0 <= i < s.len() ==> !high_lt(m, (#[trigger] s[i]).high)
    &&& exists|i: int| 0 <= i < s.len() && (#[trigger] s[i]).high == m
}

proof fn lemma_high_not_lt_chain<T: Ord>(a: Bound<T>, b: Bound<T>, c: Bound<T>)
    requires
        total_order::<T>(),
        !high_lt(a, b),
        !high_lt(b, c),
    ensures
        !high_lt(a, c),
{
    lemma_high_trichotomy(a, b);
    lemma_high_trichotomy(b, c);
    if high_lt(a, c) {
        if a == b {
        } else if b == c {
        } else {
            lemma_high_transitive(c, b, a);
            lemma_high_trichotomy(a, c);
        }
    }
}

/// A sequence of intervals has one furthest upper endpoint at most.
proof fn lemma_top_unique<T: Ord>(m1: Bound<T>, m2: Bound<T>, s: Seq<Span<T>>)
    requires
        total_order::<T>(),
        is_top(m1, s),
        is_top(m2, s),
    ensures
        m1 == m2,
{
    lemma_high_trichotomy(m1, m2);
}

/// The furthest upper endpoint of `a + [x] + b`, from that of `a` and of `b`
/// where they are not empty.
proof fn lemma_top_join<T: Ord>(
    a: Seq<Span<T>>,
    ma: Bound<T>,
    x: Span<T>,
    b: Seq<Span<T>>,
    mb: Bound<T>,
    m: Bound<T>,
)
    requires
        total_order::<T>(),
        a.len() > 0 ==> is_top(ma, a),
        b.len() > 0 ==> is_top(mb, b),
        m == if a.len() > 0 && b.len() > 0 {
            high_max(x.high, high_max(ma, mb))
        } else if a.len() > 0 {
            high_max(x.high, ma)
        } else if b.len() > 0 {
            high_max(x.high, mb)
        } else {
            x.high
        },
    ensures
        is_top(m, a + seq![x] + b),
{
    let s = a + seq![x] + b;
    lemma_high_trichotomy(x.high, ma);
    lemma_high_trichotomy(x.high, mb);
    lemma_high_trichotomy(ma, mb);
    lemma_high_trichotomy(m, x.high);
    lemma_high_trichotomy(m, ma);
    lemma_high_trichotomy(m, mb);
    if high_lt(ma, mb) && high_lt(mb, x.high) {
        lemma_high_transitive(ma, mb, x.high);
    }
    if high_lt(mb, ma) && high_lt(ma, x.high) {
        lemma_high_transitive(mb, ma, x.high);
    }
    if high_lt(x.high, ma) && high_lt(ma, mb) {
        lemma_high_transitive(x.high, ma, mb);
    }
    if high_lt(x.high, mb) && high_lt(mb, ma) {
        lemma_high_transitive(x.high, mb, ma);
    }
    assert(s[a.len() as int] == x);
    assert forall|i: int| 0 <= i < s.len() implies !high_lt(m, (#[trigger] s[i]).high) by {
        if i < a.len() {
            assert(s[i] == a[i]);
            lemma_high_not_lt_chain(m, ma, a[i].high);
        } else if i > a.len() {
            assert(s[i] == b[i - a.len() - 1]);
            lemma_high_not_lt_chain(m, mb, b[i - a.len() - 1].high);
        }
    }
    if m == x.high {
    } else if a.len() > 0 && m == ma {
        let j = choose|j: int| 0 <= j < a.len() && (#[trigger] a[j]).high == ma;
        assert(s[j] == a[j]);
    } else {
        let j = choose|j: int| 0 <= j < b.len() && (#[trigger] b[j]).high == mb;
        assert(s[a.len() + 1 + j] == b[j]);
    }
}

struct Node<T: Ord> {
    interval: Interval<T>,
    max: Rc<Bound<T>>,
    height: usize,
    size: usize,
    left_child: Option<Box<Node<T>>>,
    right_child: Option<Box<Node<T>>>,
}

impl<T: Ord> Node<T> {
    /// The intervals of a subtree, in order.
    spec fn spans(link: Option<Box<Node<T>>>) -> Seq<Span<T>>
        decreases link,
    {
        match link {
            None => Seq::empty(),
            Some(n) => Node::spans(n.left_child) + seq![n.interval@] + Node::spans(n.right_child),
        }
    }

    /// The cached height of a subtree; an absent one counts -1.
    spec fn height_of(link: Option<Box<Node<T>>>) -> int {
        match link {
            None => -1,
            Some(n) => n.height as int,
        }
    }

    /// The endpoint behind a handle.
    spec fn peak(handle: Rc<Bound<T>>) -> Bound<T> {
        *handle
    }

    /// The cached furthest upper endpoint of a subtree, `otherwise` for an
    /// absent one.
    spec fn top_of(link: Option<Box<Node<T>>>, otherwise: Bound<T>) -> Bound<T> {
        match link {
            None => otherwise,
            Some(n) => *n.max,
        }
    }

    /// Height of the left subtree less height of the right subtree.
    spec fn lean(self) -> int {
        Node::height_of(self.left_child) - Node::height_of(self.right_child)
    }

    /// What holds of one node, given its subtrees: the search order, and the
    /// cached height, size and furthest upper endpoint.
    spec fn local(self) -> bool {
        &&& span_valid(self.interval@)
        &&& all_before(Node::spans(self.left_child), self.interval@, span_order::<T>())
        &&& all_after(Node::spans(self.right_child), self.interval@, span_order::<T>())
        &&& self.height == 1 + vstd::math::max(
            Node::height_of(self.left_child),
            Node::height_of(self.right_child),
        )
        &&& self.size == Node::spans(Some(Box::new(self))).len()
        &&& is_top(*self.max, Node::spans(Some(Box::new(self))))
    }

    /// `local` holds of every node of the subtree.
    spec fn shaped(link: Option<Box<Node<T>>>) -> bool
        decreases link,
    {
        match link {
            None => true,
            Some(n) => Node::shaped(n.left_child) && Node::shaped(n.right_child) && n.local(),
        }
    }

    /// At every node of the subtree the heights of the two subtrees differ by
    /// at most one.
    spec fn balanced(link: Option<Box<Node<T>>>) -> bool
        decreases link,
    {
        match link {
            None => true,
            Some(n) => Node::balanced(n.left_child) && Node::balanced(n.right_child) && -1
                <= n.lean() <= 1,
        }
    }

    spec fn wf(link: Option<Box<Node<T>>>) -> bool {
        Node::shaped(link) && Node::balanced(link)
    }

    proof fn lemma_shaped(link: Option<Box<Node<T>>>)
        requires
            total_order::<T>(),
            Node::shaped(link),
        ensures
            ascending(Node::spans(link), span_order::<T>()),
            -1 <= Node::height_of(link) < Node::spans(link).len(),
            link is None <==> Node::spans(link).len() == 0,
            link matches Some(n) ==> n.size == Node::spans(link).len(),
            forall|i: int|
                0 <= i < Node::spans(link).len() ==> span_valid(#[trigger] Node::spans(link)[i]),
        decreases link,
    {
        lemma_span_order::<T>();
        if let Some(n) = link {
            Node::lemma_shaped(n.left_child);
            Node::lemma_shaped(n.right_child);
            let a = Node::spans(n.left_child);
            let b = Node::spans(n.right_child);
            let s = Node::spans(link);
            lemma_join_ascending(a, n.interval@, b, span_order::<T>());
            assert forall|i: int| 0 <= i < s.len() implies span_valid(#[trigger] s[i]) by {
                if i < a.len() {
                    assert(s[i] == a[i]);
                } else if i > a.len() {
                    assert(s[i] == b[i - a.len() - 1]);
                }
            }
        }
    }

    /// The cached size of a subtree; an absent one counts 0.
    spec fn size_of(link: Option<Box<Node<T>>>) -> int {
        match link {
            None => 0,
            Some(n) => n.size as int,
        }
    }

    /// At every node of the subtree the intervals of the left subtree sort
    /// before the node's interval and those of the right subtree after it.
    spec fn ordered(link: Option<Box<Node<T>>>) -> bool
        decreases link,
    {
        match link {
            None => true,
            Some(n) => Node::ordered(n.left_child) && Node::ordered(n.right_child) && all_before(
                Node::spans(n.left_child),
                n.interval@,
                span_order::<T>(),
            ) && all_after(Node::spans(n.right_child), n.interval@, span_order::<T>()),
        }
    }

    /// At every node of the subtree the cached size is one more than the
    /// cached sizes of its two subtrees.
    spec fn sized(link: Option<Box<Node<T>>>) -> bool
        decreases link,
    {
        match link {
            None => true,
            Some(n) => Node::sized(n.left_child) && Node::sized(n.right_child) && n.size == 1
                + Node::size_of(n.left_child) + Node::size_of(n.right_child),
        }
    }

    /// The larger of the node's own upper endpoint and the cached endpoints
    /// of its subtrees.
    spec fn crest(self) -> Bound<T> {
        match (self.left_child, self.right_child) {
            (Some(l), Some(r)) => high_max(self.interval@.high, high_max(*l.max, *r.max)),
            (Some(l), None) => high_max(self.interval@.high, *l.max),
            (None, Some(r)) => high_max(self.interval@.high, *r.max),
            (None, None) => self.interval@.high,
        }
    }

    /// At every node of the subtree the cached endpoint is the larger of
    /// the node's own upper endpoint and the cached endpoints of its
    /// subtrees.
    spec fn crested(link: Option<Box<Node<T>>>) -> bool
        decreases link,
    {
        match link {
            None => true,
            Some(n) => Node::crested(n.left_child) && Node::crested(n.right_child) && *n.max
                == n.crest(),
        }
    }

    /// Every interval of `s` lies strictly between `low` and `high`, where
    /// they are given.
    spec fn within(s: Seq<Span<T>>, low: Option<Span<T>>, high: Option<Span<T>>) -> bool {
        &&& low matches Some(l) ==> all_after(s, l, span_order::<T>())
        &&& high matches Some(h) ==> all_before(s, h, span_order::<T>())
    }

    proof fn lemma_node_checks(link: Option<Box<Node<T>>>)
        requires
            total_order::<T>(),
            Node::shaped(link),
        ensures
            Node::ordered(link),
            Node::sized(link),
            Node::crested(link),
        decreases link,
    {
        if let Some(n) = link {
            Node::lemma_node_checks(n.left_child);
            Node::lemma_node_checks(n.right_child);
            Node::lemma_shaped(n.left_child);
            Node::lemma_shaped(n.right_child);
            let a = Node::spans(n.left_child);
            let b = Node::spans(n.right_child);
            let m = n.crest();
            let ma = Node::top_of(n.left_child, m);
            let mb = Node::top_of(n.right_child, m);
            assert(Node::shaped(n.right_child));
            if let Some(r) = n.right_child {
                assert(n.right_child == Some(Box::new(*r)));
            }
            lemma_top_join(a, ma, n.interval@, b, mb, m);
            lemma_top_unique(Node::peak(n.max), m, Node::spans(link));
        }
    }

    proof fn lemma_balanced_size(link: Option<Box<Node<T>>>)
        requires
            total_order::<T>(),
            Node::wf(link),
        ensures
            min_size(Node::height_of(link)) <= Node::spans(link).len(),
        decreases link,
    {
        if let Some(n) = link {
            Node::lemma_balanced_size(n.left_child);
            Node::lemma_balanced_size(n.right_child);
            Node::lemma_shaped(n.left_child);
            Node::lemma_shaped(n.right_child);
            let h = n.height as int;
            let hl = Node::height_of(n.left_child);
            let hr = Node::height_of(n.right_child);
            if h >= 1 {
                if hl >= hr {
                    lemma_min_size_monotone(h - 2, hr);
                } else {
                    lemma_min_size_monotone(h - 2, hl);
                }
            }
        }
    }

    /// Where the left subtree reaches as far as the query begins, the left
    /// subtree holds an overlap if the subtree of `self` holds one at all.
    proof fn lemma_left_decides(self, q: Span<T>)
        requires
            total_order::<T>(),
            Node::shaped(Some(Box::new(self))),
            !spans_overlap(self.interval@, q),
            self.left_child matches Some(l) && reaches(*l.max, q.low),
        ensures
            has_overlap(Node::spans(Some(Box::new(self))), q) <==> has_overlap(
                Node::spans(self.left_child),
                q,
            ),
    {
        let a = Node::spans(self.left_child);
        let b = Node::spans(self.right_child);
        let nv = self.interval@;
        let s = Node::spans(Some(Box::new(self)));
        let less = span_order::<T>();
        if has_overlap(a, q) {
            let i = choose|i: int| 0 <= i < a.len() && spans_overlap(#[trigger] a[i], q);
            assert(s[i] == a[i]);
        }
        if has_overlap(s, q) && !has_overlap(a, q) {
            let i = choose|i: int| 0 <= i < s.len() && spans_overlap(#[trigger] s[i], q);
            let l = self.left_child.unwrap();
            assert(Node::shaped(self.left_child));
            let j = choose|j: int| 0 <= j < a.len() && (#[trigger] a[j]).high == *l.max;
            let y = a[j];
            let z = s[i];
            // the interval of the left subtree that ends furthest right begins
            // beyond the end of the query, and so does whatever sorts after it
            assert(!reaches(q.high, y.low));
            if i < a.len() {
                assert(s[i] == a[i]);
            } else {
                if i > a.len() {
                    assert(s[i] == b[i - a.len() - 1]);
                    assert(less(nv, z));
                }
                assert(less(y, nv));
                lemma_span_transitive(y, nv, z);
                lemma_low_trichotomy(y.low, z.low);
                lemma_high_trichotomy(q.high, q.high);
                lemma_reaches_monotone(q.high, z.low, q.high, y.low);
            }
        }
    }

    /// Where the left subtree is absent or ends before the query begins, the
    /// right subtree holds an overlap if the subtree of `self` holds one at
    /// all.
    proof fn lemma_right_decides(self, q: Span<T>)
        requires
            total_order::<T>(),
            Node::shaped(Some(Box::new(self))),
            !spans_overlap(self.interval@, q),
            self.left_child matches Some(l) ==> !reaches(*l.max, q.low),
        ensures
            has_overlap(Node::spans(Some(Box::new(self))), q) <==> has_overlap(
                Node::spans(self.right_child),
                q,
            ),
    {
        let a = Node::spans(self.left_child);
        let b = Node::spans(self.right_child);
        let s = Node::spans(Some(Box::new(self)));
        if has_overlap(b, q) {
            let i = choose|i: int| 0 <= i < b.len() && spans_overlap(#[trigger] b[i], q);
            assert(s[a.len() + 1 + i] == b[i]);
        }
        if has_overlap(s, q) {
            let i = choose|i: int| 0 <= i < s.len() && spans_overlap(#[trigger] s[i], q);
            if i < a.len() {
                assert(s[i] == a[i]);
                Node::lemma_no_overlap_below(self.left_child, q);
            } else if i > a.len() {
                assert(s[i] == b[i - a.len() - 1]);
            }
        }
    }

    /// A subtree that ends before the query begins holds no overlap.
    proof fn lemma_no_overlap_below(link: Option<Box<Node<T>>>, q: Span<T>)
        requires
            total_order::<T>(),
            Node::shaped(link),
            link matches Some(l) ==> !reaches(*l.max, q.low),
        ensures
            !has_overlap(Node::spans(link), q),
    {
        if let Some(l) = link {
            let a = Node::spans(link);
            assert forall|i: int| 0 <= i < a.len() implies !spans_overlap(#[trigger] a[i], q) by {
                lemma_low_trichotomy(q.low, q.low);
                if reaches(a[i].high, q.low) {
                    lemma_reaches_monotone(a[i].high, q.low, *l.max, q.low);
                }
            }
        }
    }

    /// The intervals of a subtree that overlap `q`: that of the root, then
    /// those of the left subtree, then those of the right subtree.
    spec fn hits(link: Option<Box<Node<T>>>, q: Span<T>) -> Seq<Span<T>>
        decreases link,
    {
        match link {
            None => Seq::empty(),
            Some(n) => (if spans_overlap(n.interval@, q) {
                seq![n.interval@]
            } else {
                Seq::empty()
            }) + Node::hits(n.left_child, q) + Node::hits(n.right_child, q),
        }
    }

    /// `hits` holds what `overlapping` holds, in another order.
    proof fn lemma_hits(link: Option<Box<Node<T>>>, q: Span<T>)
        ensures
            Node::hits(link, q).to_multiset() == overlapping(Node::spans(link), q).to_multiset(),
        decreases link,
    {
        let p = |x: Span<T>| spans_overlap(x, q);
        reveal(Seq::filter);
        if let Some(n) = link {
            let a = Node::spans(n.left_child);
            let b = Node::spans(n.right_child);
            let nv = n.interval@;
            let own = if spans_overlap(nv, q) {
                seq![nv]
            } else {
                Seq::<Span<T>>::empty()
            };
            let ha = Node::hits(n.left_child, q);
            let hb = Node::hits(n.right_child, q);
            Node::lemma_hits(n.left_child, q);
            Node::lemma_hits(n.right_child, q);
            Seq::filter_distributes_over_add(a + seq![nv], b, p);
            Seq::filter_distributes_over_add(a, seq![nv], p);
            lemma_filter_one(nv, p);
            vstd::seq_lib::lemma_multiset_commutative(own + ha, hb);
            vstd::seq_lib::lemma_multiset_commutative(own, ha);
            vstd::seq_lib::lemma_multiset_commutative(a.filter(p) + own, b.filter(p));
            vstd::seq_lib::lemma_multiset_commutative(a.filter(p), own);
            assert(Node::hits(link, q).to_multiset() =~= overlapping(
                Node::spans(link),
                q,
            ).to_multiset());
        }
    }

    /// Where nothing overlaps, `hits` is empty.
    proof fn lemma_no_hits(link: Option<Box<Node<T>>>, q: Span<T>)
        requires
            !has_overlap(Node::spans(link), q),
        ensures
            Node::hits(link, q) == Seq::<Span<T>>::empty(),
        decreases link,
    {
        if let Some(n) = link {
            let a = Node::spans(n.left_child);
            let b = Node::spans(n.right_child);
            let s = Node::spans(link);
            assert(s[a.len() as int] == n.interval@);
            assert forall|i: int| 0 <= i < a.len() implies !spans_overlap(#[trigger] a[i], q) by {
                assert(s[i] == a[i]);
            }
            assert forall|i: int| 0 <= i < b.len() implies !spans_overlap(#[trigger] b[i], q) by {
                assert(s[a.len() + 1 + i] == b[i]);
            }
            Node::lemma_no_hits(n.left_child, q);
            Node::lemma_no_hits(n.right_child, q);
        }
    }

    fn init(interval: Interval<T>, max: Rc<Bound<T>>, height: usize, size: usize) -> (r: Node<T>)
        ensures
            r.interval == interval,
            r.max == max,
            r.height == height,
            r.size == size,
            r.left_child is None,
            r.right_child is None,
    {
        Node { interval, max, height, size, left_child: None, right_child: None }
    }

    fn interval(&self) -> (r: &Interval<T>)
        ensures
            *r == self.interval,
    {
        &self.interval
    }

    fn get_max(&self) -> (r: Rc<Bound<T>>)
        ensures
            r == self.max,
    {
        Rc::clone(&self.max)
    }

    fn update_height(&mut self)
        requires
            Node::height_of(old(self).left_child) < usize::MAX - 1,
            Node::height_of(old(self).right_child) < usize::MAX - 1,
        ensures
            *final(self) == (Node { height: final(self).height, ..*old(self) }),
            final(self).height == 1 + vstd::math::max(
                Node::height_of(old(self).left_child),
                Node::height_of(old(self).right_child),
            ),
    {
        self.height = match (&self.left_child, &self.right_child) {
            (Some(l), Some(r)) => if l.height >= r.height {
                l.height + 1
            } else {
                r.height + 1
            },
            (Some(l), None) => l.height + 1,
            (None, Some(r)) => r.height + 1,
            (None, None) => 0,
        };
    }

    fn update_size(&mut self)
        requires
            total_order::<T>(),
            Node::shaped(old(self).left_child),
            Node::shaped(old(self).right_child),
            Node::spans(Some(Box::new(*old(self)))).len() <= usize::MAX,
        ensures
            *final(self) == (Node { size: final(self).size, ..*old(self) }),
            final(self).size == Node::spans(Some(Box::new(*old(self)))).len(),
    {
        proof {
            Node::lemma_shaped(self.left_child);
            Node::lemma_shaped(self.right_child);
        }
        self.size = 1 + Node::size(&self.left_child) + Node::size(&self.right_child);
    }

    fn update_max(&mut self)
        requires
            total_order::<T>(),
            Node::shaped(old(self).left_child),
            Node::shaped(old(self).right_child),
        ensures
            *final(self) == (Node { max: final(self).max, ..*old(self) }),
            is_top(*final(self).max, Node::spans(Some(Box::new(*old(self))))),
    {
        let high = self.interval.get_high();
        let max = match (&self.left_child, &self.right_child) {
            (Some(l), Some(r)) => max_as_high(high, max_as_high(l.get_max(), r.get_max())),
            (Some(l), None) => max_as_high(high, l.get_max()),
            (None, Some(r)) => max_as_high(high, r.get_max()),
            (None, None) => high,
        };
        proof {
            Node::lemma_shaped(self.left_child);
            Node::lemma_shaped(self.right_child);
            let a = Node::spans(self.left_child);
            let b = Node::spans(self.right_child);
            let m = Node::<T>::peak(max);
            let ma = Node::top_of(self.left_child, m);
            let mb = Node::top_of(self.right_child, m);
            lemma_top_join(a, ma, self.interval@, b, mb, m);
        }
        self.max = max;
    }

    fn height(link: &Option<Box<Node<T>>>) -> (r: i64)
        requires
            Node::height_of(*link) <= i64::MAX,
        ensures
            r == Node::height_of(*link),
    {
        match link {
            Some(n) => n.height as i64,
            None => -1,
        }
    }

    fn size(link: &Option<Box<Node<T>>>) -> (r: usize)
        ensures
            r == Node::size_of(*link),
    {
        match link {
            Some(n) => n.size,
            None => 0,
        }
    }

    /// Whether the heights of the two subtrees differ by at most one.
    fn level(&self) -> (r: bool)
        ensures
            r == (-1 <= self.lean() <= 1),
    {
        match (&self.left_child, &self.right_child) {
            (Some(l), Some(r)) => if l.height >= r.height {
                l.height - r.height <= 1
            } else {
                r.height - l.height <= 1
            },
            (Some(l), None) => l.height == 0,
            (None, Some(r)) => r.height == 0,
            (None, None) => true,
        }
    }

    fn balance_factor(node: &Box<Node<T>>) -> (r: i64)
        requires
            -2 <= node.lean() <= 2,
        ensures
            r == node.lean(),
    {
        let l: usize = match &node.left_child {
            Some(c) => c.height,
            None => 0,
        };
        let r: usize = match &node.right_child {
            Some(c) => c.height,
            None => 0,
        };
        let lift_l: i64 = if node.left_child.is_some() {
            0
        } else {
            -1
        };
        let lift_r: i64 = if node.right_child.is_some() {
            0
        } else {
            -1
        };
        if l >= r {
            (l - r) as i64 + lift_l - lift_r
        } else {
            lift_l - lift_r - ((r - l) as i64)
        }
    }
}

/// An index over intervals: a set of intervals in their order, with lookup
/// by overlap, by position and by rank.
pub struct IntervalTree<T: Ord> {
    root: Option<Box<Node<T>>>,
}

/// Some interval of `s` overlaps `q`.
pub open spec fn has_overlap<T: Ord>(s: Seq<Span<T>>, q: Span<T>) -> bool {
    exists|i: int| 0 <= i < s.len() && spans_overlap(#[trigger] s[i], q)
}

/// The intervals of `s` that overlap `q`, in the order of `s`.
pub open spec fn overlapping<T: Ord>(s: Seq<Span<T>>, q: Span<T>) -> Seq<Span<T>> {
    s.filter(|x: Span<T>| spans_overlap(x, q))
}

/// The contents of a sequence of intervals.
pub open spec fn views<T: Ord>(s: Seq<Interval<T>>) -> Seq<Span<T>> {
    s.map_values(|i: Interval<T>| i@)
}

/// The contents of a sequence of borrowed intervals.
pub open spec fn ref_views<T: Ord>(s: Seq<&Interval<T>>) -> Seq<Span<T>> {
    s.map_values(|i: &Interval<T>| i@)
}

impl<T: Ord> View for IntervalTree<T> {
    type V = Seq<Span<T>>;

    /// The stored intervals in increasing order.
    closed spec fn view(&self) -> Seq<Span<T>> {
        Node::spans(self.root)
    }
}

impl<T: Ord> IntervalTree<T> {
    /// The invariant of the tree. At every node: the intervals of the left
    /// subtree sort before the node's interval and those of the right subtree
    /// after it; the heights of the two subtrees differ by at most one; the
    /// cached height is one more than the larger height of the two subtrees,
    /// the cached size is the number of intervals of the subtree, and the
    /// cached endpoint is the furthest upper endpoint among them. Every stored
    /// interval is valid.
    pub closed spec fn well_formed(&self) -> bool {
        Node::wf(self.root)
    }

    /// The height of the tree: -1 where it is empty, 0 for a single node.
    pub closed spec fn spec_height(&self) -> int {
        Node::height_of(self.root)
    }

    /// At every node the heights of the two subtrees differ by at most one.
    pub closed spec fn spec_balanced(&self) -> bool {
        Node::balanced(self.root)
    }

    /// At every node the intervals of the left subtree sort before the
    /// node's interval and those of the right subtree after it.
    pub closed spec fn spec_ordered(&self) -> bool {
        Node::ordered(self.root)
    }

    /// At every node the cached size is one more than the cached sizes of
    /// the two subtrees.
    pub closed spec fn spec_sized(&self) -> bool {
        Node::sized(self.root)
    }

    /// At every node the cached endpoint is the furthest of the node's own
    /// upper endpoint and the cached endpoints of the two subtrees.
    pub closed spec fn spec_crested(&self) -> bool {
        Node::crested(self.root)
    }

    /// What the invariant means: the intervals stand in strictly increasing
    /// order, each is valid, a `usize` counts them, the height is that of a
    /// balanced tree, and at every node the tree is balanced, ordered and
    /// consistent in what it caches.
    pub proof fn lemma_well_formed(&self)
        requires
            total_order::<T>(),
            self.well_formed(),
        ensures
            ascending(self@, span_order::<T>()),
            forall|i: int| 0 <= i < self@.len() ==> span_valid(#[trigger] self@[i]),
            self@.len() <= usize::MAX,
            -1 <= self.spec_height() < self@.len(),
            self.spec_height() < 128,
            min_size(self.spec_height()) <= self@.len(),
            self.spec_balanced(),
            self.spec_ordered(),
            self.spec_sized(),
            self.spec_crested(),
    {
        Node::lemma_shaped(self.root);
        Node::lemma_balanced_size(self.root);
        Node::lemma_node_checks(self.root);
        lemma_min_size_limit(self.spec_height());
    }

    /// The rank of the interval at position `i` is `i`.
    pub proof fn lemma_rank_of_select(&self, i: int)
        requires
            total_order::<T>(),
            self.well_formed(),
            0 <= i < self@.len(),
        ensures
            rank_of(self@, self@[i], span_order::<T>()) == i,
    {
        self.lemma_well_formed();
        lemma_span_order::<T>();
        lemma_rank_of_index(self@, i, span_order::<T>());
    }

    /// A stored interval stands at the position that is its rank.
    pub proof fn lemma_select_of_rank(&self, x: Span<T>)
        requires
            total_order::<T>(),
            self.well_formed(),
            self@.contains(x),
        ensures
            rank_of(self@, x, span_order::<T>()) < self@.len(),
            self@[rank_of(self@, x, span_order::<T>()) as int] == x,
    {
        self.lemma_well_formed();
        lemma_span_order::<T>();
        lemma_index_of_rank(self@, x, span_order::<T>());
    }

    /// Inserting and deleting keep the order of the intervals, and change
    /// which intervals the tree holds by the one interval only.
    pub proof fn lemma_membership(s: Seq<Span<T>>, x: Span<T>, y: Span<T>)
        requires
            total_order::<T>(),
            ascending(s, span_order::<T>()),
        ensures
            with_item(s, x, span_order::<T>()).contains(y) <==> s.contains(y) || y == x,
            without_item(s, x, span_order::<T>()).contains(y) <==> s.contains(y) && y != x,
            ascending(with_item(s, x, span_order::<T>()), span_order::<T>()),
            ascending(without_item(s, x, span_order::<T>()), span_order::<T>()),
    {
        lemma_span_order::<T>();
        lemma_with_without(s, x, y, span_order::<T>());
    }

    /// An empty tree.
    pub fn init() -> (r: IntervalTree<T>)
        ensures
            r.well_formed(),
            r@ == Seq::<Span<T>>::empty(),
    {
        IntervalTree { root: None }
    }

    /// Whether the tree holds no interval.
    pub fn is_empty(&self) -> (r: bool)
        requires
            total_order::<T>(),
            self.well_formed(),
        ensures
            r == (self@.len() == 0),
    {
        proof {
            Node::lemma_shaped(self.root);
        }
        self.root.is_none()
    }

    /// The number of intervals in the tree.
    pub fn size(&self) -> (r: usize)
        requires
            total_order::<T>(),
            self.well_formed(),
        ensures
            r == self@.len(),
    {
        proof {
            Node::lemma_shaped(self.root);
        }
        Node::size(&self.root)
    }

    /// The height of the tree.
    pub fn height(&self) -> (r: i64)
        requires
            total_order::<T>(),
            self.well_formed(),
        ensures
            r == self.spec_height(),
    {
        proof {
            self.lemma_well_formed();
        }
        Node::height(&self.root)
    }

    /// Whether some stored interval overlaps `interval`.
    pub fn overlaps(&self, interval: &Interval<T>) -> (r: bool)
        requires
            total_order::<T>(),
            self.well_formed(),
        ensures
            r == has_overlap(self@, interval@),
    {
        self.find_overlap(interval).is_some()
    }

    /// A stored interval that overlaps `interval`, if there is one.
    pub fn find_overlap(&self, interval: &Interval<T>) -> (r: Option<Interval<T>>)
        requires
            total_order::<T>(),
            self.well_formed(),
        ensures
            r is Some <==> has_overlap(self@, interval@),
            r matches Some(found) ==> self@.contains(found@) && spans_overlap(found@, interval@),
    {
        IntervalTree::_find_overlap(&self.root, interval)
    }

    fn _find_overlap(node: &Option<Box<Node<T>>>, interval: &Interval<T>) -> (r: Option<
        Interval<T>,
    >)
        requires
            total_order::<T>(),
            Node::shaped(*node),
        ensures
            r is Some <==> has_overlap(Node::spans(*node), interval@),
            r matches Some(found) ==> Node::spans(*node).contains(found@) && spans_overlap(
                found@,
                interval@,
            ),
    {
        let mut current = node;
        while current.is_some()
            invariant
                total_order::<T>(),
                Node::shaped(*current),
                has_overlap(Node::spans(*node), interval@) <==> has_overlap(
                    Node::spans(*current),
                    interval@,
                ),
                forall|x: Span<T>|
                    Node::spans(*current).contains(x) ==> Node::spans(*node).contains(x),
            decreases Node::spans(*current).len(),
        {
            let node_ref = current.as_ref().unwrap();
            let ghost a = Node::spans(node_ref.left_child);
            let ghost b = Node::spans(node_ref.right_child);
            let ghost whole = Node::spans(*current);
            proof {
                assert(whole[a.len() as int] == node_ref.interval@);
            }
            if Interval::overlaps(&node_ref.interval, interval) {
                return Some(node_ref.interval().duplicate());
            }
            let go_left = match &node_ref.left_child {
                Some(l) => ge_as_high(&*l.max, interval.low()),
                None => false,
            };
            if go_left {
                proof {
                    Node::lemma_left_decides(**node_ref, interval@);
                    assert forall|x: Span<T>| a.contains(x) implies whole.contains(x) by {
                        lemma_join_contains(a, node_ref.interval@, b, x);
                    }
                }
                current = &node_ref.left_child;
            } else {
                proof {
                    Node::lemma_right_decides(**node_ref, interval@);
                    assert forall|x: Span<T>| b.contains(x) implies whole.contains(x) by {
                        lemma_join_contains(a, node_ref.interval@, b, x);
                    }
                }
                current = &node_ref.right_child;
            }
        }
        proof {
            assert(Node::spans(*current) =~= Seq::<Span<T>>::empty());
        }
        None
    }

    /// The stored intervals that overlap `interval`, each once.
    pub fn find_overlaps(&self, interval: &Interval<T>) -> (r: Vec<Interval<T>>)
        requires
            total_order::<T>(),
            self.well_formed(),
        ensures
            views(r@).to_multiset() == overlapping(self@, interval@).to_multiset(),
    {
        let mut overlaps = Vec::<Interval<T>>::new();
        IntervalTree::_find_overlaps(&self.root, interval, &mut overlaps);
        proof {
            Node::lemma_hits(self.root, interval@);
            assert(views(Seq::<Interval<T>>::empty()) + Node::hits(self.root, interval@)
                =~= Node::hits(self.root, interval@));
        }
        overlaps
    }

    fn _find_overlaps(
        node: &Option<Box<Node<T>>>,
        interval: &Interval<T>,
        overlaps: &mut Vec<Interval<T>>,
    )
        requires
            total_order::<T>(),
            Node::shaped(*node),
        ensures
            views(final(overlaps)@) == views(old(overlaps)@) + Node::hits(*node, interval@),
        decreases *node,
    {
        match node {
            None => {
                proof {
                    assert(views(overlaps@) + Seq::<Span<T>>::empty() =~= views(overlaps@));
                }
            },
            Some(node_ref) => {
                let ghost before = views(overlaps@);
                let ghost own = if spans_overlap(node_ref.interval@, interval@) {
                    seq![node_ref.interval@]
                } else {
                    Seq::<Span<T>>::empty()
                };
                if Interval::overlaps(&node_ref.interval, interval) {
                    overlaps.push(node_ref.interval.duplicate());
                }
                proof {
                    assert(views(overlaps@) =~= before + own);
                }
                let go_left = match &node_ref.left_child {
                    Some(l) => ge_as_high(&*l.max, interval.low()),
                    None => false,
                };
                if go_left {
                    IntervalTree::_find_overlaps(&node_ref.left_child, interval, overlaps);
                } else {
                    proof {
                        Node::lemma_no_overlap_below(node_ref.left_child, interval@);
                        Node::lemma_no_hits(node_ref.left_child, interval@);
                    }
                }
                IntervalTree::_find_overlaps(&node_ref.right_child, interval, overlaps);
                proof {
                    assert(views(overlaps@) =~= before + (own + Node::hits(
                        node_ref.left_child,
                        interval@,
                    ) + Node::hits(node_ref.right_child, interval@)));
                }
            },
        }
    }

    /// The interval at position `k` of the order, counted from 0, if the
    /// tree holds more than `k` intervals.
    pub fn select(&self, k: usize) -> (r: Option<Interval<T>>)
        requires
            total_order::<T>(),
            self.well_formed(),
        ensures
            r is Some <==> k < self@.len(),
            r matches Some(found) ==> found@ == self@[k as int],
    {
        IntervalTree::_select(&self.root, k)
    }

    fn _select(node: &Option<Box<Node<T>>>, k: usize) -> (r: Option<Interval<T>>)
        requires
            total_order::<T>(),
            Node::shaped(*node),
        ensures
            r is Some <==> k < Node::spans(*node).len(),
            r matches Some(found) ==> found@ == Node::spans(*node)[k as int],
        decreases *node,
    {
        match node {
            None => None,
            Some(node_ref) => {
                proof {
                    Node::lemma_shaped(node_ref.left_child);
                    Node::lemma_shaped(node_ref.right_child);
                }
                let t = Node::size(&node_ref.left_child);
                if t > k {
                    IntervalTree::_select(&node_ref.left_child, k)
                } else if t < k {
                    IntervalTree::_select(&node_ref.right_child, k - t - 1)
                } else {
                    Some(node_ref.interval().duplicate())
                }
            },
        }
    }

    /// The first interval of the order, if the tree is not empty.
    pub fn min(&self) -> (r: Option<Interval<T>>)
        requires
            total_order::<T>(),
            self.well_formed(),
        ensures
            r is Some <==> self@.len() > 0,
            r matches Some(found) ==> found@ == self@.first(),
    {
        self.select(0)
    }

    /// The last interval of the order, if the tree is not empty.
    pub fn max(&self) -> (r: Option<Interval<T>>)
        requires
            total_order::<T>(),
            self.well_formed(),
        ensures
            r is Some <==> self@.len() > 0,
            r matches Some(found) ==> found@ == self@.last(),
    {
        let size = self.size();
        if size == 0 {
            None
        } else {
            self.select(size - 1)
        }
    }

    /// The stored intervals from `low_key` on and before `high_key`, in
    /// increasing order.
    pub fn intervals_between<'a>(&'a self, low_key: &Interval<T>, high_key: &Interval<T>) -> (r:
        Vec<&'a Interval<T>>)
        requires
            total_order::<T>(),
            self.well_formed(),
        ensures
            ref_views(r@) == between(self@, low_key@, high_key@, span_order::<T>()),
    {
        let mut keys: Vec<&Interval<T>> = Vec::new();
        IntervalTree::_intervals_between(&self.root, low_key, high_key, &mut keys);
        proof {
            assert(ref_views(Seq::<&Interval<T>>::empty()) + between(
                self@,
                low_key@,
                high_key@,
                span_order::<T>(),
            ) =~= between(self@, low_key@, high_key@, span_order::<T>()));
        }
        keys
    }

    fn _intervals_between<'a>(
        node: &'a Option<Box<Node<T>>>,
        low_key: &Interval<T>,
        high_key: &Interval<T>,
        keys: &mut Vec<&'a Interval<T>>,
    )
        requires
            total_order::<T>(),
            Node::shaped(*node),
        ensures
            ref_views(final(keys)@) == ref_views(old(keys)@) + between(
                Node::spans(*node),
                low_key@,
                high_key@,
                span_order::<T>(),
            ),
        decreases *node,
    {
        let ghost less = span_order::<T>();
        let ghost before = ref_views(keys@);
        match node {
            None => {
                proof {
                    reveal(Seq::filter);
                    assert(before + Seq::<Span<T>>::empty() =~= before);
                }
            },
            Some(node_ref) => {
                let ghost a = Node::spans(node_ref.left_child);
                let ghost b = Node::spans(node_ref.right_child);
                let ghost nv = node_ref.interval@;
                let ghost low = low_key@;
                let ghost high = high_key@;
                let ghost own = if !less(nv, low) && less(nv, high) {
                    seq![nv]
                } else {
                    Seq::<Span<T>>::empty()
                };
                proof {
                    lemma_span_order::<T>();
                    lemma_between_join(a, nv, b, low, high, less);
                }
                if low_key.before(&node_ref.interval) {
                    IntervalTree::_intervals_between(&node_ref.left_child, low_key, high_key, keys);
                } else {
                    proof {
                        lemma_between_left_empty(a, nv, low, high, less);
                    }
                }
                proof {
                    assert(ref_views(keys@) =~= before + between(a, low, high, less));
                }
                if !node_ref.interval.before(low_key) && node_ref.interval.before(high_key) {
                    keys.push(&node_ref.interval);
                }
                proof {
                    assert(ref_views(keys@) =~= before + between(a, low, high, less) + own);
                }
                if node_ref.interval.before(high_key) {
                    IntervalTree::_intervals_between(
                        &node_ref.right_child,
                        low_key,
                        high_key,
                        keys,
                    );
                } else {
                    proof {
                        lemma_between_right_empty(b, nv, low, high, less);
                    }
                }
                proof {
                    assert(ref_views(keys@) =~= before + (between(a, low, high, less) + own
                        + between(b, low, high, less)));
                }
            },
        }
    }

    /// The number of stored intervals that sort before `interval`.
    pub fn rank(&self, interval: &Interval<T>) -> (r: usize)
        requires
            total_order::<T>(),
            self.well_formed(),
        ensures
            r == rank_of(self@, interval@, span_order::<T>()),
    {
        IntervalTree::_rank(&self.root, interval)
    }

    fn _rank(node: &Option<Box<Node<T>>>, interval: &Interval<T>) -> (r: usize)
        requires
            total_order::<T>(),
            Node::shaped(*node),
        ensures
            r == rank_of(Node::spans(*node), interval@, span_order::<T>()),
        decreases *node,
    {
        match node {
            None => 0,
            Some(node_ref) => {
                proof {
                    lemma_span_order::<T>();
                    Node::lemma_shaped(node_ref.left_child);
                    Node::lemma_shaped(node_ref.right_child);
                    lemma_span_trichotomy(interval@, node_ref.interval@);
                    lemma_rank_join(
                        Node::spans(node_ref.left_child),
                        node_ref.interval@,
                        Node::spans(node_ref.right_child),
                        interval@,
                        span_order::<T>(),
                    );
                    lemma_rank_bound(
                        Node::spans(node_ref.right_child),
                        interval@,
                        span_order::<T>(),
                    );
                }
                if interval.before(&node_ref.interval) {
                    IntervalTree::_rank(&node_ref.left_child, interval)
                } else if node_ref.interval.before(interval) {
                    1 + Node::size(&node_ref.left_child) + IntervalTree::_rank(
                        &node_ref.right_child,
                        interval,
                    )
                } else {
                    Node::size(&node_ref.left_child)
                }
            },
        }
    }

    /// The number of stored intervals from `low_key` on and before
    /// `high_key`.
    pub fn size_between(&self, low_key: &Interval<T>, high_key: &Interval<T>) -> (r: usize)
        requires
            total_order::<T>(),
            self.well_formed(),
        ensures
            r == between(self@, low_key@, high_key@, span_order::<T>()).len(),
    {
        proof {
            lemma_span_order::<T>();
            reveal(Seq::filter);
        }
        if self.is_empty() {
            return 0;
        }
        if high_key.before(low_key) {
            proof {
                lemma_between_none(self@, low_key@, high_key@, span_order::<T>());
            }
            return 0;
        }
        proof {
            lemma_between_len(self@, low_key@, high_key@, span_order::<T>());
            lemma_rank_monotone(self@, low_key@, high_key@, span_order::<T>());
        }
        self.rank(high_key) - self.rank(low_key)
    }

    /// Whether the heights of the two subtrees differ by at most one at
    /// every node.
    pub fn is_avl(&self) -> (r: bool)
        ensures
            r == self.spec_balanced(),
    {
        IntervalTree::_is_avl(&self.root)
    }

    fn _is_avl(node: &Option<Box<Node<T>>>) -> (r: bool)
        ensures
            r == Node::balanced(*node),
        decreases *node,
    {
        match node {
            None => true,
            Some(node_ref) => node_ref.level() && IntervalTree::_is_avl(&node_ref.left_child)
                && IntervalTree::_is_avl(&node_ref.right_child),
        }
    }

    /// Whether the intervals stand in search order at every node.
    pub fn is_bst(&self) -> (r: bool)
        requires
            total_order::<T>(),
        ensures
            r == self.spec_ordered(),
    {
        IntervalTree::_is_bst(&self.root, None, None)
    }

    fn _is_bst(node: &Option<Box<Node<T>>>, min: Option<&Interval<T>>, max: Option<
        &Interval<T>,
    >) -> (r: bool)
        requires
            total_order::<T>(),
        ensures
            r == (Node::ordered(*node) && Node::<T>::within(
                Node::spans(*node),
                match min {
                    Some(l) => Some(l@),
                    None => None,
                },
                match max {
                    Some(h) => Some(h@),
                    None => None,
                },
            )),
        decreases *node,
    {
        let ghost less = span_order::<T>();
        match node {
            None => true,
            Some(node_ref) => {
                let ghost a = Node::spans(node_ref.left_child);
                let ghost b = Node::spans(node_ref.right_child);
                let ghost nk = node_ref.interval@;
                proof {
                    lemma_span_order::<T>();
                    if let Some(l) = min {
                        lemma_join_after(a, nk, b, l@, less);
                        assert(less(l@, nk) || l@ == nk || less(nk, l@));
                        if less(l@, nk) {
                            if all_after(b, nk, less) {
                                lemma_after_further(b, nk, l@, less);
                            }
                        }
                    }
                    if let Some(h) = max {
                        lemma_join_before(a, nk, b, h@, less);
                        assert(less(h@, nk) || h@ == nk || less(nk, h@));
                        if less(nk, h@) {
                            if all_before(a, nk, less) {
                                lemma_before_further(a, nk, h@, less);
                            }
                        }
                    }
                }
                let above = match min {
                    Some(l) => l.before(&node_ref.interval),
                    None => true,
                };
                let below = match max {
                    Some(h) => node_ref.interval.before(h),
                    None => true,
                };
                above && below && IntervalTree::_is_bst(
                    &node_ref.left_child,
                    min,
                    Some(&node_ref.interval),
                ) && IntervalTree::_is_bst(&node_ref.right_child, Some(&node_ref.interval), max)
            },
        }
    }

    /// Whether the cached size of every node is one more than the cached
    /// sizes of its two subtrees.
    pub fn is_size_consistent(&self) -> (r: bool)
        ensures
            r == self.spec_sized(),
    {
        IntervalTree::_is_size_consistent(&self.root)
    }

    fn _is_size_consistent(node: &Option<Box<Node<T>>>) -> (r: bool)
        ensures
            r == Node::sized(*node),
        decreases *node,
    {
        match node {
            None => true,
            Some(node_ref) => {
                let l = Node::size(&node_ref.left_child);
                let r = Node::size(&node_ref.right_child);
                let fits = l < usize::MAX && r < usize::MAX - l && node_ref.size == l + r + 1;
                fits && IntervalTree::_is_size_consistent(&node_ref.left_child)
                    && IntervalTree::_is_size_consistent(&node_ref.right_child)
            },
        }
    }

    /// Whether the cached endpoint of every node is the furthest of the
    /// node's own upper endpoint and the cached endpoints of its two
    /// subtrees.
    pub fn is_max_consistent(&self) -> (r: bool)
        requires
            total_order::<T>(),
        ensures
            r == self.spec_crested(),
    {
        IntervalTree::_is_max_consistent(&self.root)
    }

    fn _is_max_consistent(node: &Option<Box<Node<T>>>) -> (r: bool)
        requires
            total_order::<T>(),
        ensures
            r == Node::crested(*node),
        decreases *node,
    {
        match node {
            None => true,
            Some(node_ref) => {
                let high = node_ref.interval.get_high();
                let expected = match (&node_ref.left_child, &node_ref.right_child) {
                    (Some(l), Some(r)) => max_as_high(
                        high,
                        max_as_high(l.get_max(), r.get_max()),
                    ),
                    (Some(l), None) => max_as_high(high, l.get_max()),
                    (None, Some(r)) => max_as_high(high, r.get_max()),
                    (None, None) => high,
                };
                bound_eq(&*node_ref.max, &*expected) && IntervalTree::_is_max_consistent(
                    &node_ref.left_child,
                ) && IntervalTree::_is_max_consistent(&node_ref.right_child)
            },
        }
    }

    /// Adds `interval` to the tree, unless the tree holds it already.
    pub fn insert(&mut self, interval: Interval<T>)
        requires
            total_order::<T>(),
            old(self).well_formed(),
            old(self)@.len() < usize::MAX,
        ensures
            final(self).well_formed(),
            final(self)@ == with_item(old(self)@, interval@, span_order::<T>()),
    {
        let max = interval.get_high();
        self.root = IntervalTree::_insert(self.root.take(), interval, max);
    }

    fn _insert(node: Option<Box<Node<T>>>, interval: Interval<T>, max: Rc<Bound<T>>) -> (r: Option<
        Box<Node<T>>,
    >)
        requires
            total_order::<T>(),
            Node::wf(node),
            Node::spans(node).len() < usize::MAX,
            *max == interval@.high,
        ensures
            r is Some,
            Node::wf(r),
            Node::spans(r) == with_item(Node::spans(node), interval@, span_order::<T>()),
            Node::height_of(node) <= Node::height_of(r) <= Node::height_of(node) + 1,
        decreases node,
    {
        let ghost less = span_order::<T>();
        let ghost x = interval@;
        proof {
            lemma_span_order::<T>();
            use_type_invariant(&interval);
        }
        match node {
            None => {
                let leaf = Box::new(Node::init(interval, max, 0, 1));
                proof {
                    let s = Node::spans(Some(leaf));
                    assert(Node::spans(leaf.left_child) =~= Seq::<Span<T>>::empty());
                    assert(Node::spans(leaf.right_child) =~= Seq::<Span<T>>::empty());
                    assert(s =~= seq![x]);
                    assert(s[0].high == *leaf.max);
                    lemma_high_trichotomy(x.high, x.high);
                    assert(is_top(*leaf.max, s));
                    assert(leaf.local());
                    assert(Node::shaped(Some(leaf)));
                    assert(Node::balanced(Some(leaf)));
                    assert(Seq::<Span<T>>::empty().insert(0, x) =~= seq![x]);
                    assert(!Seq::<Span<T>>::empty().contains(x));
                }
                Some(leaf)
            },
            Some(mut n) => {
                let ghost a = Node::spans(n.left_child);
                let ghost b = Node::spans(n.right_child);
                let ghost nv = n.interval@;
                proof {
                    Node::lemma_shaped(n.left_child);
                    Node::lemma_shaped(n.right_child);
                    lemma_span_trichotomy(x, nv);
                }
                if interval.before(&n.interval) {
                    let left = IntervalTree::_insert(n.left_child.take(), interval, max);
                    proof {
                        lemma_with_left(a, nv, b, x, less);
                    }
                    n.left_child = left;
                    Some(IntervalTree::rebuild(n))
                } else if n.interval.before(&interval) {
                    let right = IntervalTree::_insert(n.right_child.take(), interval, max);
                    proof {
                        lemma_with_right(a, nv, b, x, less);
                    }
                    n.right_child = right;
                    Some(IntervalTree::rebuild(n))
                } else {
                    proof {
                        lemma_rank_join(a, nv, b, x, less);
                    }
                    Some(n)
                }
            },
        }
    }

    /// Recomputes what `node` caches from its subtrees, then restores the
    /// balance at `node`.
    fn rebuild(node: Box<Node<T>>) -> (r: Box<Node<T>>)
        requires
            total_order::<T>(),
            Node::wf(node.left_child),
            Node::wf(node.right_child),
            span_valid(node.interval@),
            all_before(Node::spans(node.left_child), node.interval@, span_order::<T>()),
            all_after(Node::spans(node.right_child), node.interval@, span_order::<T>()),
            -2 <= node.lean() <= 2,
            Node::spans(Some(node)).len() <= usize::MAX,
        ensures
            Node::wf(Some(r)),
            Node::spans(Some(r)) == Node::spans(Some(node)),
            vstd::math::max(Node::height_of(node.left_child), Node::height_of(node.right_child))
                <= r.height <= 1 + vstd::math::max(
                Node::height_of(node.left_child),
                Node::height_of(node.right_child),
            ),
            -1 <= node.lean() <= 1 ==> r.height == 1 + vstd::math::max(
                Node::height_of(node.left_child),
                Node::height_of(node.right_child),
            ),
    {
        proof {
            Node::lemma_shaped(node.left_child);
            Node::lemma_shaped(node.right_child);
        }
        let mut node = node;
        node.update_height();
        node.update_size();
        node.update_max();
        IntervalTree::balance(node)
    }

    /// Removes `interval` from the tree, if the tree holds it.
    pub fn delete(&mut self, interval: &Interval<T>)
        requires
            total_order::<T>(),
            old(self).well_formed(),
        ensures
            final(self).well_formed(),
            final(self)@ == without_item(old(self)@, interval@, span_order::<T>()),
    {
        if !self.is_empty() {
            self.root = IntervalTree::_delete(self.root.take(), interval);
        }
    }

    fn _delete(node: Option<Box<Node<T>>>, interval: &Interval<T>) -> (r: Option<Box<Node<T>>>)
        requires
            total_order::<T>(),
            Node::wf(node),
        ensures
            Node::wf(r),
            Node::spans(r) == without_item(Node::spans(node), interval@, span_order::<T>()),
            Node::height_of(node) - 1 <= Node::height_of(r) <= Node::height_of(node),
        decreases node,
    {
        let ghost less = span_order::<T>();
        let ghost x = interval@;
        proof {
            lemma_span_order::<T>();
        }
        match node {
            None => None,
            Some(mut n) => {
                let ghost a = Node::spans(n.left_child);
                let ghost b = Node::spans(n.right_child);
                let ghost nv = n.interval@;
                proof {
                    Node::lemma_shaped(n.left_child);
                    Node::lemma_shaped(n.right_child);
                    lemma_span_trichotomy(x, nv);
                }
                if interval.before(&n.interval) {
                    let left = IntervalTree::_delete(n.left_child.take(), interval);
                    proof {
                        lemma_without_left(a, nv, b, x, less);
                    }
                    n.left_child = left;
                    Some(IntervalTree::rebuild(n))
                } else if n.interval.before(interval) {
                    let right = IntervalTree::_delete(n.right_child.take(), interval);
                    proof {
                        lemma_without_right(a, nv, b, x, less);
                    }
                    n.right_child = right;
                    Some(IntervalTree::rebuild(n))
                } else {
                    proof {
                        lemma_without_middle(a, nv, b, less);
                    }
                    IntervalTree::remove_root(n)
                }
            },
        }
    }

    /// Takes the root out of a subtree: its place goes to the one child it
    /// has, or to the first interval of its right subtree.
    fn remove_root(node: Box<Node<T>>) -> (r: Option<Box<Node<T>>>)
        requires
            total_order::<T>(),
            Node::wf(Some(node)),
        ensures
            Node::wf(r),
            Node::spans(r) == Node::spans(node.left_child) + Node::spans(node.right_child),
            node.height - 1 <= Node::height_of(r) <= node.height,
    {
        let ghost less = span_order::<T>();
        let ghost a = Node::spans(node.left_child);
        let ghost b = Node::spans(node.right_child);
        let ghost nv = node.interval@;
        proof {
            Node::lemma_shaped(node.left_child);
            Node::lemma_shaped(node.right_child);
        }
        let mut n = node;
        if n.left_child.is_none() {
            proof {
                assert(a + b =~= b);
            }
            n.right_child
        } else if n.right_child.is_none() {
            proof {
                assert(a + b =~= a);
            }
            n.left_child
        } else {
            let right = n.right_child.take().unwrap();
            n.interval = IntervalTree::_min(&right);
            n.right_child = IntervalTree::_delete_min(right);
            proof {
                lemma_span_order::<T>();
                let m = b[0];
                assert(less(nv, m));
                lemma_before_further(a, nv, m, less);
                assert(a + b =~= a + seq![m] + b.drop_first());
                assert forall|i: int| 0 <= i < b.drop_first().len() implies less(
                    m,
                    #[trigger] b.drop_first()[i],
                ) by {
                    assert(b.drop_first()[i] == b[i + 1]);
                }
            }
            Some(IntervalTree::rebuild(n))
        }
    }

    /// The first interval of a subtree.
    fn _min(node: &Box<Node<T>>) -> (r: Interval<T>)
        requires
            total_order::<T>(),
            Node::shaped(Some(*node)),
        ensures
            r@ == Node::spans(Some(*node))[0],
        decreases node,
    {
        proof {
            Node::lemma_shaped(node.left_child);
        }
        match &node.left_child {
            None => node.interval.duplicate(),
            Some(l) => IntervalTree::_min(l),
        }
    }

    /// Removes the first interval, if there is one.
    pub fn delete_min(&mut self)
        requires
            total_order::<T>(),
            old(self).well_formed(),
        ensures
            final(self).well_formed(),
            final(self)@ == if old(self)@.len() > 0 {
                old(self)@.drop_first()
            } else {
                old(self)@
            },
    {
        if !self.is_empty() {
            self.root = IntervalTree::_delete_min(self.root.take().unwrap());
        }
    }

    fn _delete_min(node: Box<Node<T>>) -> (r: Option<Box<Node<T>>>)
        requires
            total_order::<T>(),
            Node::wf(Some(node)),
        ensures
            Node::wf(r),
            Node::spans(r) == Node::spans(Some(node)).drop_first(),
            node.height - 1 <= Node::height_of(r) <= node.height,
        decreases node,
    {
        let ghost less = span_order::<T>();
        let ghost a = Node::spans(node.left_child);
        let ghost b = Node::spans(node.right_child);
        let ghost nv = node.interval@;
        proof {
            lemma_span_order::<T>();
            Node::lemma_shaped(node.left_child);
            Node::lemma_shaped(node.right_child);
        }
        let mut node = node;
        match node.left_child.take() {
            None => {
                proof {
                    assert((a + seq![nv] + b).drop_first() =~= b);
                }
                node.right_child.take()
            },
            Some(l) => {
                node.left_child = IntervalTree::_delete_min(l);
                proof {
                    assert((a + seq![nv] + b).drop_first() =~= a.drop_first() + seq![nv] + b);
                    assert forall|i: int| 0 <= i < a.drop_first().len() implies less(
                        #[trigger] a.drop_first()[i],
                        nv,
                    ) by {
                        assert(a.drop_first()[i] == a[i + 1]);
                    }
                }
                Some(IntervalTree::rebuild(node))
            },
        }
    }

    /// Removes the last interval, if there is one.
    pub fn delete_max(&mut self)
        requires
            total_order::<T>(),
            old(self).well_formed(),
        ensures
            final(self).well_formed(),
            final(self)@ == if old(self)@.len() > 0 {
                old(self)@.drop_last()
            } else {
                old(self)@
            },
    {
        if !self.is_empty() {
            self.root = IntervalTree::_delete_max(self.root.take().unwrap());
        }
    }

    fn _delete_max(node: Box<Node<T>>) -> (r: Option<Box<Node<T>>>)
        requires
            total_order::<T>(),
            Node::wf(Some(node)),
        ensures
            Node::wf(r),
            Node::spans(r) == Node::spans(Some(node)).drop_last(),
            node.height - 1 <= Node::height_of(r) <= node.height,
        decreases node,
    {
        let ghost less = span_order::<T>();
        let ghost a = Node::spans(node.left_child);
        let ghost b = Node::spans(node.right_child);
        let ghost nv = node.interval@;
        proof {
            lemma_span_order::<T>();
            Node::lemma_shaped(node.left_child);
            Node::lemma_shaped(node.right_child);
        }
        let mut node = node;
        match node.right_child.take() {
            None => {
                proof {
                    assert((a + seq![nv] + b).drop_last() =~= a);
                }
                node.left_child.take()
            },
            Some(r) => {
                node.right_child = IntervalTree::_delete_max(r);
                proof {
                    assert((a + seq![nv] + b).drop_last() =~= a + seq![nv] + b.drop_last());
                    assert forall|i: int| 0 <= i < b.drop_last().len() implies less(
                        nv,
                        #[trigger] b.drop_last()[i],
                    ) by {
                        assert(b.drop_last()[i] == b[i]);
                    }
                }
                Some(IntervalTree::rebuild(node))
            },
        }
    }

    /// Lifts the left child of `node` into its place; `node` becomes the
    /// right child of the new root.
    fn rotate_right(node: Box<Node<T>>) -> (y: Box<Node<T>>)
        requires
            total_order::<T>(),
            Node::shaped(Some(node)),
            node.left_child is Some,
        ensures
            Node::shaped(Some(y)),
            Node::spans(Some(y)) == Node::spans(Some(node)),
            y.right_child is Some,
            y.left_child == node.left_child.unwrap().left_child,
            y.right_child.unwrap().left_child == node.left_child.unwrap().right_child,
            y.right_child.unwrap().right_child == node.right_child,
    {
        let ghost a = Node::spans(node.left_child.unwrap().left_child);
        let ghost b = Node::spans(node.left_child.unwrap().right_child);
        let ghost c = Node::spans(node.right_child);
        let ghost xv = node.interval@;
        let ghost yv = node.left_child.unwrap().interval@;
        let ghost whole = Node::spans(Some(node));
        proof {
            lemma_span_order::<T>();
            assert(Node::shaped(node.left_child));
            Node::lemma_shaped(node.left_child.unwrap().left_child);
            Node::lemma_shaped(node.left_child.unwrap().right_child);
            Node::lemma_shaped(node.right_child);
            Node::lemma_shaped(node.left_child);
            lemma_join_before(a, yv, b, xv, span_order::<T>());
            lemma_after_further(c, xv, yv, span_order::<T>());
            lemma_join_after(b, xv, c, yv, span_order::<T>());
            assert(whole =~= a + seq![yv] + (b + seq![xv] + c));
        }
        let mut node = node;
        let mut y = node.left_child.take().unwrap();
        node.left_child = y.right_child.take();
        y.size = node.size;
        node.update_height();
        node.update_size();
        node.update_max();
        proof {
            assert(Node::spans(Some(node)) =~= b + seq![xv] + c);
            assert(node.local());
        }
        y.right_child = Some(node);
        y.update_height();
        y.update_max();
        proof {
            assert(Node::spans(y.right_child) =~= b + seq![xv] + c);
            assert(Node::spans(Some(y)) =~= whole);
            assert(Node::shaped(y.right_child));
            assert(y.local());
        }
        y
    }

    /// Lifts the right child of `node` into its place; `node` becomes the
    /// left child of the new root.
    fn rotate_left(node: Box<Node<T>>) -> (y: Box<Node<T>>)
        requires
            total_order::<T>(),
            Node::shaped(Some(node)),
            node.right_child is Some,
        ensures
            Node::shaped(Some(y)),
            Node::spans(Some(y)) == Node::spans(Some(node)),
            y.left_child is Some,
            y.left_child.unwrap().left_child == node.left_child,
            y.left_child.unwrap().right_child == node.right_child.unwrap().left_child,
            y.right_child == node.right_child.unwrap().right_child,
    {
        let ghost a = Node::spans(node.left_child);
        let ghost b = Node::spans(node.right_child.unwrap().left_child);
        let ghost c = Node::spans(node.right_child.unwrap().right_child);
        let ghost xv = node.interval@;
        let ghost yv = node.right_child.unwrap().interval@;
        let ghost whole = Node::spans(Some(node));
        proof {
            lemma_span_order::<T>();
            assert(Node::shaped(node.right_child));
            Node::lemma_shaped(node.left_child);
            Node::lemma_shaped(node.right_child.unwrap().left_child);
            Node::lemma_shaped(node.right_child.unwrap().right_child);
            Node::lemma_shaped(node.right_child);
            lemma_join_after(b, yv, c, xv, span_order::<T>());
            lemma_before_further(a, xv, yv, span_order::<T>());
            lemma_join_before(a, xv, b, yv, span_order::<T>());
            assert(whole =~= (a + seq![xv] + b) + seq![yv] + c);
        }
        let mut node = node;
        let mut y = node.right_child.take().unwrap();
        node.right_child = y.left_child.take();
        y.size = node.size;
        node.update_height();
        node.update_size();
        node.update_max();
        proof {
            assert(Node::spans(Some(node)) =~= a + seq![xv] + b);
            assert(node.local());
        }
        y.left_child = Some(node);
        y.update_height();
        y.update_max();
        proof {
            assert(Node::spans(y.left_child) =~= a + seq![xv] + b);
            assert(Node::spans(Some(y)) =~= whole);
            assert(Node::shaped(y.left_child));
            assert(y.local());
        }
        y
    }

    /// Restores the balance at `node` after one of its subtrees grew or
    /// shrank by one level.
    fn balance(node: Box<Node<T>>) -> (r: Box<Node<T>>)
        requires
            total_order::<T>(),
            Node::shaped(Some(node)),
            Node::balanced(node.left_child),
            Node::balanced(node.right_child),
            -2 <= node.lean() <= 2,
        ensures
            Node::wf(Some(r)),
            Node::spans(Some(r)) == Node::spans(Some(node)),
            node.height - 1 <= r.height <= node.height,
            -1 <= node.lean() <= 1 ==> r.height == node.height,
    {
        let mut node = node;
        let lean = Node::balance_factor(&node);
        if lean < -1 {
            let right = node.right_child.take().unwrap();
            proof {
                assert(Node::shaped(Some(right)));
                assert(Node::balanced(Some(right)));
                assert(Node::shaped(right.left_child));
                assert(Node::balanced(right.left_child));
            }
            let right = if Node::balance_factor(&right) > 0 {
                IntervalTree::rotate_right(right)
            } else {
                right
            };
            proof {
                assert(Node::shaped(right.right_child));
                assert(Node::balanced(right.right_child));
            }
            node.right_child = Some(right);
            proof {
                assert(node.local());
            }
            node = IntervalTree::rotate_left(node);
            proof {
                assert(Node::shaped(node.left_child));
                assert(Node::balanced(node.left_child));
                assert(Node::balanced(node.right_child));
            }
        } else if lean > 1 {
            let left = node.left_child.take().unwrap();
            proof {
                assert(Node::shaped(Some(left)));
                assert(Node::balanced(Some(left)));
                assert(Node::shaped(left.right_child));
                assert(Node::balanced(left.right_child));
            }
            let left = if Node::balance_factor(&left) < 0 {
                IntervalTree::rotate_left(left)
            } else {
                left
            };
            proof {
                assert(Node::shaped(left.left_child));
                assert(Node::balanced(left.left_child));
            }
            node.left_child = Some(left);
            proof {
                assert(node.local());
            }
            node = IntervalTree::rotate_right(node);
            proof {
                assert(Node::shaped(node.right_child));
                assert(Node::balanced(node.right_child));
                assert(Node::balanced(node.left_child));
            }
        }
        node
    }
}

} // verus!
