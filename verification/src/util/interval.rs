//! Intervals over an ordered type: open, closed or unbounded on either side.

use super::bound::bound_eq;
use super::bound::ge_as_high;
use super::bound::high_lt;
use super::bound::high_min;
use super::bound::lemma_high_transitive;
use super::bound::lemma_high_trichotomy;
use super::bound::lemma_low_transitive;
use super::bound::lemma_low_trichotomy;
use super::bound::lemma_reaches_monotone;
use super::bound::low_lt;
use super::bound::low_max;
use super::bound::lt_as_high;
use super::bound::lt_as_low;
use super::bound::reaches;
use super::bound::Bound;
use super::order::total_order;
use super::sorted::strict_order;
use std::cmp::Ordering;
use std::rc::Rc;
use vstd::prelude::*;
use vstd::string::StringExecFns;
use vstd::std_specs::cmp::PartialEqSpecImpl;
use vstd::std_specs::cmp::PartialOrdSpecImpl;

verus! {

/// The mathematical content of an interval: its two endpoints.
pub struct Span<T> {
    pub low: Bound<T>,
    pub high: Bound<T>,
}

/// The lower endpoint does not lie beyond the upper one, and where both sit
/// at one value, both include it.
pub open spec fn span_valid<T: Ord>(s: Span<T>) -> bool {
    reaches(s.high, s.low)
}

/// The order of intervals: by lower endpoint, then by upper endpoint.
pub open spec fn span_lt<T: Ord>(a: Span<T>, b: Span<T>) -> bool {
    low_lt(a.low, b.low) || (a.low == b.low && high_lt(a.high, b.high))
}

/// Each of the two ranges extends to where the other begins.
pub open spec fn spans_overlap<T: Ord>(a: Span<T>, b: Span<T>) -> bool {
    reaches(a.high, b.low) && reaches(b.high, a.low)
}

/// From the later of the two starts to the earlier of the two ends.
pub open spec fn span_intersection<T: Ord>(a: Span<T>, b: Span<T>) -> Span<T> {
    Span { low: low_max(a.low, b.low), high: high_min(a.high, b.high) }
}

/// `b` overlaps `a` and the part they share is all of `b`.
pub open spec fn span_contains<T: Ord>(a: Span<T>, b: Span<T>) -> bool {
    spans_overlap(a, b) && span_intersection(a, b) == b
}

/// Of two intervals exactly one holds: the first sorts first, they are the
/// same interval, or the second sorts first.
pub proof fn lemma_span_trichotomy<T: Ord>(a: Span<T>, b: Span<T>)
    requires
        total_order::<T>(),
    ensures
        span_lt(a, b) || a == b || span_lt(b, a),
        !(span_lt(a, b) && span_lt(b, a)),
        !(span_lt(a, b) && a == b),
{
    lemma_low_trichotomy(a.low, b.low);
    lemma_high_trichotomy(a.high, b.high);
}

/// The order of intervals is transitive.
pub proof fn lemma_span_transitive<T: Ord>(a: Span<T>, b: Span<T>, c: Span<T>)
    requires
        total_order::<T>(),
        span_lt(a, b),
        span_lt(b, c),
    ensures
        span_lt(a, c),
{
    if low_lt(a.low, b.low) && low_lt(b.low, c.low) {
        lemma_low_transitive(a.low, b.low, c.low);
    }
    if high_lt(a.high, b.high) && high_lt(b.high, c.high) {
        lemma_high_transitive(a.high, b.high, c.high);
    }
}

/// Whether two intervals overlap does not depend on which is named first.
pub proof fn lemma_overlap_symmetric<T: Ord>(a: Span<T>, b: Span<T>)
    ensures
        spans_overlap(a, b) == spans_overlap(b, a),
{
}

/// An interval overlaps every interval that it contains.
pub proof fn lemma_contains_overlaps<T: Ord>(a: Span<T>, b: Span<T>)
    requires
        span_contains(a, b),
    ensures
        spans_overlap(a, b),
{
}

/// The part that two overlapping intervals share is a valid interval, and
/// each of the two contains it.
pub proof fn lemma_intersection_contained<T: Ord>(a: Span<T>, b: Span<T>)
    requires
        total_order::<T>(),
        span_valid(a),
        span_valid(b),
        spans_overlap(a, b),
    ensures
        span_valid(span_intersection(a, b)),
        span_contains(a, span_intersection(a, b)),
        span_contains(b, span_intersection(a, b)),
{
    let c = span_intersection(a, b);
    lemma_low_trichotomy(a.low, b.low);
    lemma_high_trichotomy(a.high, b.high);
    lemma_low_trichotomy(a.low, c.low);
    lemma_low_trichotomy(b.low, c.low);
    lemma_high_trichotomy(a.high, c.high);
    lemma_high_trichotomy(b.high, c.high);
    lemma_low_trichotomy(c.low, c.low);
    lemma_high_trichotomy(c.high, c.high);
    // the shared part reaches back to both starts
    lemma_reaches_monotone(c.high, c.low, c.high, a.low);
    lemma_reaches_monotone(c.high, c.low, c.high, b.low);
    // and both ends reach the start of the shared part
    lemma_reaches_monotone(c.high, c.low, a.high, c.low);
    lemma_reaches_monotone(c.high, c.low, b.high, c.low);
}

/// Containment is what the endpoints say: `b` lies within `a` exactly if it
/// starts no earlier and ends no later than `a`.
pub proof fn lemma_contains_by_endpoints<T: Ord>(a: Span<T>, b: Span<T>)
    requires
        total_order::<T>(),
        span_valid(a),
        span_valid(b),
    ensures
        span_contains(a, b) <==> !low_lt(b.low, a.low) && !high_lt(a.high, b.high),
{
    lemma_low_trichotomy(a.low, b.low);
    lemma_high_trichotomy(a.high, b.high);
    lemma_low_trichotomy(b.low, b.low);
    lemma_high_trichotomy(b.high, b.high);
    if !low_lt(b.low, a.low) && !high_lt(a.high, b.high) {
        lemma_reaches_monotone(b.high, b.low, a.high, b.low);
        lemma_reaches_monotone(b.high, b.low, b.high, a.low);
    }
}

/// The order of intervals as a relation.
pub open spec fn span_order<T: Ord>() -> spec_fn(Span<T>, Span<T>) -> bool {
    |a: Span<T>, b: Span<T>| span_lt(a, b)
}

/// The order of intervals is a strict total order.
pub proof fn lemma_span_order<T: Ord>()
    requires
        total_order::<T>(),
    ensures
        strict_order(span_order::<T>()),
{
    let less = span_order::<T>();
    assert forall|a: Span<T>, b: Span<T>| #[trigger] less(a, b) implies !less(b, a) by {
        lemma_span_trichotomy(a, b);
    }
    assert forall|a: Span<T>, b: Span<T>| #[trigger] less(a, b) || a == b || less(b, a) by {
        lemma_span_trichotomy(a, b);
    }
    assert forall|a: Span<T>, b: Span<T>, c: Span<T>| #[trigger]
        less(a, b) && #[trigger] less(b, c) implies less(a, c) by {
        lemma_span_transitive(a, b, c);
    }
}

/// The error of [`Interval::new`]: the lower endpoint lies beyond the upper
/// one, or both sit at one value that one of them excludes.
#[derive(Debug)]
pub struct InvalidInterval;

/// An interval: a lower and an upper endpoint, each included, excluded or
/// unbounded. Every value of this type is valid in the sense of
/// [`span_valid`].
#[derive(Debug)]
pub struct Interval<T: Ord> {
    low: Rc<Bound<T>>,
    high: Rc<Bound<T>>,
}

impl<T: Ord> View for Interval<T> {
    type V = Span<T>;

    closed spec fn view(&self) -> Span<T> {
        Span { low: *self.low, high: *self.high }
    }
}

impl<T: Ord> Interval<T> {
    /// The invariant of the type.
    #[verifier::type_invariant]
    pub open spec fn well_formed(self) -> bool {
        span_valid(self@)
    }

    /// The interval from `low` to `high`, where the two make a valid interval.
    pub fn new(low: Bound<T>, high: Bound<T>) -> (r: Result<Interval<T>, InvalidInterval>)
        requires
            total_order::<T>(),
        ensures
            r is Ok <==> span_valid(Span { low, high }),
            r matches Ok(i) ==> i@ == (Span { low, high }),
    {
        if ge_as_high(&high, &low) {
            Ok(Interval { low: Rc::new(low), high: Rc::new(high) })
        } else {
            Err(InvalidInterval)
        }
    }

    /// The interval that holds `value` and nothing else.
    pub fn point(value: T) -> (r: Interval<T>)
        ensures
            r@ == (Span { low: Bound::Included(value), high: Bound::Included(value) }),
    {
        let low = Rc::new(Bound::Included(value));
        let high = Rc::clone(&low);
        Interval { low, high }
    }

    /// A second handle on the same interval.
    pub fn duplicate(&self) -> (r: Interval<T>)
        ensures
            r@ == self@,
    {
        proof {
            use_type_invariant(self);
        }
        Interval { low: self.get_low(), high: self.get_high() }
    }

    /// Whether the endpoints of `interval` make a valid interval.
    pub fn valid(interval: &Interval<T>) -> (r: bool)
        requires
            total_order::<T>(),
        ensures
            r == span_valid(interval@),
            r,
    {
        proof {
            use_type_invariant(interval);
        }
        ge_as_high(interval.high(), interval.low())
    }

    /// The lower endpoint.
    pub fn low(&self) -> (r: &Bound<T>)
        ensures
            *r == self@.low,
    {
        &*self.low
    }

    /// A handle on the lower endpoint.
    pub fn get_low(&self) -> (r: Rc<Bound<T>>)
        ensures
            *r == self@.low,
    {
        Rc::clone(&self.low)
    }

    /// The upper endpoint.
    pub fn high(&self) -> (r: &Bound<T>)
        ensures
            *r == self@.high,
    {
        &*self.high
    }

    /// A handle on the upper endpoint.
    pub fn get_high(&self) -> (r: Rc<Bound<T>>)
        ensures
            *r == self@.high,
    {
        Rc::clone(&self.high)
    }

    /// Whether `self` and `other` are the same interval.
    pub fn same(&self, other: &Interval<T>) -> (r: bool)
        ensures
            total_order::<T>() ==> r == (self@ == other@),
    {
        bound_eq(self.low(), other.low()) && bound_eq(self.high(), other.high())
    }

    /// Whether `self` sorts strictly before `other`.
    pub fn before(&self, other: &Interval<T>) -> (r: bool)
        ensures
            total_order::<T>() ==> r == span_lt(self@, other@),
    {
        if lt_as_low(self.low(), other.low()) {
            true
        } else if bound_eq(self.low(), other.low()) {
            lt_as_high(self.high(), other.high())
        } else {
            false
        }
    }

    /// Whether `first` and `second` overlap.
    pub fn overlaps(first: &Interval<T>, second: &Interval<T>) -> (r: bool)
        requires
            total_order::<T>(),
        ensures
            r == spans_overlap(first@, second@),
    {
        proof {
            use_type_invariant(first);
            use_type_invariant(second);
            lemma_span_trichotomy(first@, second@);
            lemma_low_trichotomy(first@.low, second@.low);
        }
        if first.same(second) {
            true
        } else if first.before(second) {
            proof {
                // the earlier start is reached by whatever reaches the later one
                lemma_high_trichotomy(second@.high, second@.high);
                lemma_reaches_monotone(second@.high, second@.low, second@.high, first@.low);
            }
            ge_as_high(first.high(), second.low())
        } else {
            proof {
                lemma_high_trichotomy(first@.high, first@.high);
                lemma_reaches_monotone(first@.high, first@.low, first@.high, second@.low);
            }
            ge_as_high(second.high(), first.low())
        }
    }

    /// Whether `second` lies within `first`.
    pub fn contains(first: &Interval<T>, second: &Interval<T>) -> (r: bool)
        requires
            total_order::<T>(),
        ensures
            r == span_contains(first@, second@),
    {
        match Interval::get_overlap(first, second) {
            Some(overlap) => overlap.same(second),
            None => false,
        }
    }

    /// The part that `first` and `second` share, if they overlap.
    pub fn get_overlap(first: &Interval<T>, second: &Interval<T>) -> (r: Option<Interval<T>>)
        requires
            total_order::<T>(),
        ensures
            r is Some <==> spans_overlap(first@, second@),
            r matches Some(c) ==> c@ == span_intersection(first@, second@) && span_contains(
                first@,
                c@,
            ) && span_contains(second@, c@),
    {
        if !Interval::overlaps(first, second) {
            return None;
        }
        let low = if lt_as_low(first.low(), second.low()) {
            second.get_low()
        } else {
            first.get_low()
        };
        let high = if lt_as_high(second.high(), first.high()) {
            second.get_high()
        } else {
            first.get_high()
        };
        proof {
            use_type_invariant(first);
            use_type_invariant(second);
            lemma_intersection_contained(first@, second@);
        }
        Some(Interval { low, high })
    }
}

/// The text of an interval whose endpoint values read `low_text` and
/// `high_text`: a square bracket beside an included value, a round one beside
/// an excluded value, a round bracket and an underscore for no bound, and a
/// comma between the two halves.
pub open spec fn span_text<T>(s: Span<T>, low_text: Seq<char>, high_text: Seq<char>) -> Seq<char> {
    (match s.low {
        Bound::Included(_) => seq!['['] + low_text,
        Bound::Excluded(_) => seq!['('] + low_text,
        Bound::Unbounded => seq!['(', '_'],
    }) + seq![','] + (match s.high {
        Bound::Included(_) => high_text + seq![']'],
        Bound::Excluded(_) => high_text + seq![')'],
        Bound::Unbounded => seq!['_', ')'],
    })
}

/// `text` is how the value of the endpoint `b` prints, if it has one.
pub open spec fn shows<T: std::fmt::Display>(b: Bound<T>, text: String) -> bool {
    match b {
        Bound::Included(v) => vstd::string::to_string_from_display_ensures::<T>(&v, text),
        Bound::Excluded(v) => vstd::string::to_string_from_display_ensures::<T>(&v, text),
        Bound::Unbounded => true,
    }
}

/// How the value of an endpoint prints; nothing for an endpoint without one.
fn value_text<T: std::fmt::Display>(b: &Bound<T>) -> (r: String)
    ensures
        shows(*b, r),
{
    match b {
        Bound::Included(v) => v.to_string(),
        Bound::Excluded(v) => v.to_string(),
        Bound::Unbounded => String::new(),
    }
}

impl<T: Ord + std::fmt::Display> Interval<T> {
    /// The interval as text, such as `[1,2)` or `(_,5]`.
    pub fn to_string(&self) -> (r: String)
        ensures
            exists|low: String, high: String|
                shows(self@.low, low) && shows(self@.high, high) && r@ == #[trigger] span_text(
                    self@,
                    low@,
                    high@,
                ),
    {
        let low = value_text(self.low());
        let high = value_text(self.high());
        self.write_text(low.as_str(), high.as_str())
    }
}

impl<T: Ord> Interval<T> {
    /// The interval as text, given the text of its two endpoint values.
    pub fn write_text(&self, low_text: &str, high_text: &str) -> (r: String)
        ensures
            r@ == span_text(self@, low_text@, high_text@),
    {
        proof {
            reveal_strlit("[");
            reveal_strlit("(");
            reveal_strlit("(_");
            reveal_strlit(",");
            reveal_strlit("]");
            reveal_strlit(")");
            reveal_strlit("_)");
        }
        let mut text = String::new();
        match self.low() {
            Bound::Included(_) => {
                text.append("[");
                text.append(low_text);
            },
            Bound::Excluded(_) => {
                text.append("(");
                text.append(low_text);
            },
            Bound::Unbounded => {
                text.append("(_");
            },
        }
        text.append(",");
        match self.high() {
            Bound::Included(_) => {
                text.append(high_text);
                text.append("]");
            },
            Bound::Excluded(_) => {
                text.append(high_text);
                text.append(")");
            },
            Bound::Unbounded => {
                text.append("_)");
            },
        }
        proof {
            assert(text@ =~= span_text(self@, low_text@, high_text@));
        }
        text
    }
}

impl<T: Ord> PartialEq for Interval<T> {
    fn eq(&self, other: &Self) -> (r: bool) {
        self.same(other)
    }
}

impl<T: Ord> PartialEqSpecImpl for Interval<T> {
    open spec fn obeys_eq_spec() -> bool {
        total_order::<T>()
    }

    open spec fn eq_spec(&self, other: &Self) -> bool {
        self@ == other@
    }
}

impl<T: Ord> PartialOrd for Interval<T> {
    fn partial_cmp(&self, other: &Self) -> (r: Option<Ordering>) {
        if self.before(other) {
            Some(Ordering::Less)
        } else if other.before(self) {
            Some(Ordering::Greater)
        } else {
            Some(Ordering::Equal)
        }
    }
}

impl<T: Ord> PartialOrdSpecImpl for Interval<T> {
    open spec fn obeys_partial_cmp_spec() -> bool {
        total_order::<T>()
    }

    open spec fn partial_cmp_spec(&self, other: &Self) -> Option<Ordering> {
        if span_lt(self@, other@) {
            Some(Ordering::Less)
        } else if span_lt(other@, self@) {
            Some(Ordering::Greater)
        } else {
            Some(Ordering::Equal)
        }
    }
}

} // verus!
