//! A queue of bounded length on a ring of slots: once it is full, each new
//! element pushes the oldest one out.

use std::ops::Index;
use vstd::prelude::*;

verus! {

/// A bounded first-in, first-out queue. A queue made for `n` elements keeps
/// the `n` that were enqueued last.
#[derive(Debug)]
pub struct Circular<T> {
    front_index: usize,
    rear_index: usize,
    size: usize,
    internal_vec: Vec<T>,
    capacity: usize,
    push_enabled: bool,
}

/// The slot that follows slot `i` on a ring of `capacity` slots.
pub open spec fn ring_next(i: int, capacity: int) -> int {
    if i + 1 >= capacity {
        0
    } else {
        i + 1
    }
}

/// The slot `steps` places after slot `start` on a ring of `capacity` slots.
pub open spec fn ring_at(start: int, steps: int, capacity: int) -> int {
    if start + steps >= capacity {
        start + steps - capacity
    } else {
        start + steps
    }
}

impl<T> View for Circular<T> {
    type V = Seq<T>;

    /// The elements of the queue, the oldest first.
    closed spec fn view(&self) -> Seq<T> {
        Seq::new(
            self.size as nat,
            |i: int| self.internal_vec@[ring_at(self.front_index as int, i, self.capacity as int)],
        )
    }
}

impl<T> Circular<T> {
    /// The invariant of the queue: both indices lie on the ring, the length
    /// is the distance from the front index to the rear index, and the slots
    /// in between are filled.
    pub closed spec fn well_formed(&self) -> bool {
        &&& self.capacity >= 1
        &&& self.front_index < self.capacity
        &&& self.rear_index < self.capacity
        &&& self.push_enabled ==> self.internal_vec@.len() == self.rear_index && self.front_index
            <= self.rear_index
        &&& !self.push_enabled ==> self.internal_vec@.len() == self.capacity
        &&& self.size == if self.rear_index >= self.front_index {
            self.rear_index - self.front_index
        } else {
            self.rear_index + self.capacity - self.front_index
        }
    }

    /// The number of elements that the queue can hold.
    pub closed spec fn room(&self) -> int {
        self.capacity - 1
    }

    /// The slot of the oldest element.
    pub closed spec fn spec_front(&self) -> int {
        self.front_index as int
    }

    /// The slot that the next element goes to.
    pub closed spec fn spec_rear(&self) -> int {
        self.rear_index as int
    }

    /// The queue never holds more than it has room for.
    pub proof fn lemma_well_formed(&self)
        requires
            self.well_formed(),
        ensures
            self@.len() <= self.room(),
            self.spec_front() <= self.room(),
            self.spec_rear() <= self.room(),
            self@.len() == if self.spec_rear() >= self.spec_front() {
                self.spec_rear() - self.spec_front()
            } else {
                self.spec_rear() + self.room() + 1 - self.spec_front()
            },
    {
    }

    /// An empty queue with room for `capacity` elements.
    pub fn new(capacity: usize) -> (r: Circular<T>)
        requires
            capacity < usize::MAX,
        ensures
            r.well_formed(),
            r@ == Seq::<T>::empty(),
            r.room() == capacity,
            r.spec_front() == 0,
            r.spec_rear() == 0,
    {
        let r = Circular {
            front_index: 0,
            rear_index: 0,
            internal_vec: Vec::with_capacity(capacity + 1),
            size: 0,
            push_enabled: true,
            capacity: capacity + 1,
        };
        proof {
            assert(r@ =~= Seq::<T>::empty());
        }
        r
    }

    /// The number of elements in the queue.
    pub fn size(&self) -> (r: usize)
        ensures
            r == self@.len(),
    {
        self.size
    }

    /// Whether the queue holds no element.
    pub fn empty(&self) -> (r: bool)
        ensures
            r == (self@.len() == 0),
    {
        self.size == 0
    }

    /// Whether the queue holds as many elements as it has room for.
    pub fn full(&self) -> (r: bool)
        requires
            self.well_formed(),
        ensures
            r == (self@.len() == self.room()),
    {
        Circular::<T>::next_index(self.rear_index, self.capacity) == self.front_index
    }

    /// The slot after slot `i`.
    fn next_index(i: usize, capacity: usize) -> (r: usize)
        requires
            i < capacity,
        ensures
            r == ring_next(i as int, capacity as int),
            r < capacity,
    {
        if i + 1 >= capacity {
            0
        } else {
            i + 1
        }
    }

    /// The slot of the oldest element.
    pub fn front_index(&self) -> (r: usize)
        ensures
            r == self.spec_front(),
    {
        self.front_index
    }

    /// The slot that the next element goes to.
    pub fn rear_index(&self) -> (r: usize)
        ensures
            r == self.spec_rear(),
    {
        self.rear_index
    }

    /// The number of slots of the ring: one more than the queue has room
    /// for.
    pub fn capacity(&self) -> (r: usize)
        requires
            self.well_formed(),
        ensures
            r == self.room() + 1,
    {
        self.capacity
    }

    /// Whether the ring has not been gone round yet, so that a new element
    /// takes a fresh slot.
    pub fn push_enabled(&self) -> (r: bool)
        ensures
            r == self.spec_push_enabled(),
    {
        self.push_enabled
    }

    /// Whether the ring has not been gone round since the queue was made or
    /// last cleared.
    pub closed spec fn spec_push_enabled(&self) -> bool {
        self.push_enabled
    }

    /// Adds `element` at the rear; where the queue is full, the oldest
    /// element leaves. A queue without room stays empty.
    pub fn enqueue(&mut self, element: T)
        requires
            old(self).well_formed(),
        ensures
            final(self).well_formed(),
            final(self).room() == old(self).room(),
            final(self)@ == if old(self).room() == 0 {
                old(self)@
            } else if old(self)@.len() == old(self).room() {
                old(self)@.drop_first().push(element)
            } else {
                old(self)@.push(element)
            },
            old(self).room() > 0 ==> final(self).spec_rear() == ring_next(
                old(self).spec_rear(),
                old(self).room() + 1,
            ),
            old(self).room() > 0 ==> final(self).spec_front() == if old(self)@.len() == old(self).room() {
                ring_next(old(self).spec_front(), old(self).room() + 1)
            } else {
                old(self).spec_front()
            },
            old(self).room() > 0 ==> final(self).spec_push_enabled() == (old(self).spec_push_enabled() && old(self).spec_rear() != old(self).room()),
            old(self).room() == 0 ==> final(self).spec_rear() == old(self).spec_rear()
                && final(self).spec_front() == old(self).spec_front() && final(self).spec_push_enabled() == old(self).spec_push_enabled(),
    {
        if self.capacity <= 1 {
            return ;
        }
        let ghost before = self@;
        let ghost was_full = self@.len() == self.room();
        if self.full() {
            self.front_index = Circular::<T>::next_index(self.front_index, self.capacity);
            self.size -= 1;
        }
        proof {
            assert(self@ =~= if was_full {
                before.drop_first()
            } else {
                before
            });
        }
        let ghost kept = self@;
        if self.push_enabled {
            self.internal_vec.push(element);
        } else {
            self.internal_vec.set(self.rear_index, element);
        }
        self.push_enabled = !(self.rear_index + 1 == self.capacity) && self.push_enabled;
        self.rear_index = Circular::<T>::next_index(self.rear_index, self.capacity);
        self.size += 1;
        proof {
            assert(self@ =~= kept.push(element));
        }
    }

    /// Takes the oldest element off the queue and hands out a reference to
    /// it; `None` where the queue is empty.
    pub fn dequeue(&mut self) -> (r: Option<&T>)
        requires
            old(self).well_formed(),
        ensures
            final(self).well_formed(),
            final(self).room() == old(self).room(),
            final(self).spec_rear() == old(self).spec_rear(),
            final(self).spec_push_enabled() == old(self).spec_push_enabled(),
            old(self)@.len() == 0 ==> r is None && final(self)@ == old(self)@ && final(self).spec_front() == old(self).spec_front(),
            old(self)@.len() > 0 ==> r == Some(&old(self)@[0]) && final(self)@ == old(self)@.drop_first() && final(self).spec_front() == ring_next(
                old(self).spec_front(),
                old(self).room() + 1,
            ),
    {
        if self.empty() {
            return None;
        }
        let ghost before = self@;
        let at = self.front_index;
        self.front_index = Circular::<T>::next_index(self.front_index, self.capacity);
        self.size -= 1;
        proof {
            assert(self@ =~= before.drop_first());
        }
        Some(&self.internal_vec[at])
    }

    /// The element at position `index`, counted from the oldest.
    pub fn get(&self, index: usize) -> (r: &T)
        requires
            self.well_formed(),
            index < self@.len(),
        ensures
            *r == self@[index as int],
    {
        let at = self.slot(index);
        &self.internal_vec[at]
    }

    /// The element at position `index`, counted from the oldest, to change
    /// it.
    pub fn get_mut(&mut self, index: usize) -> (r: &mut T)
        requires
            old(self).well_formed(),
            index < old(self)@.len(),
        ensures
            *r == old(self)@[index as int],
            final(self).well_formed(),
            final(self)@ == old(self)@.update(index as int, *final(r)),
            final(self).room() == old(self).room(),
            final(self).spec_front() == old(self).spec_front(),
            final(self).spec_rear() == old(self).spec_rear(),
            final(self).spec_push_enabled() == old(self).spec_push_enabled(),
    {
        let at = self.slot(index);
        &mut self.internal_vec[at]
    }

    /// Puts `element` at position `index`, counted from the oldest.
    pub fn set(&mut self, index: usize, element: T)
        requires
            old(self).well_formed(),
            index < old(self)@.len(),
        ensures
            final(self).well_formed(),
            final(self)@ == old(self)@.update(index as int, element),
            final(self).room() == old(self).room(),
            final(self).spec_front() == old(self).spec_front(),
            final(self).spec_rear() == old(self).spec_rear(),
            final(self).spec_push_enabled() == old(self).spec_push_enabled(),
    {
        let at = self.slot(index);
        let ghost before = self@;
        self.internal_vec.set(at, element);
        proof {
            assert(self@ =~= before.update(index as int, element));
        }
    }

    /// The slot of the element at position `index`.
    fn slot(&self, index: usize) -> (r: usize)
        requires
            self.well_formed(),
            index < self.size,
        ensures
            r == ring_at(self.front_index as int, index as int, self.capacity as int),
            r < self.internal_vec@.len(),
    {
        if index >= self.capacity - self.front_index {
            index - (self.capacity - self.front_index)
        } else {
            self.front_index + index
        }
    }

    /// Replaces every element by what `transform` makes of it.
    pub fn map<F: Fn(&T) -> T>(&mut self, transform: F)
        requires
            old(self).well_formed(),
            forall|i: int| 0 <= i < old(self)@.len() ==> call_requires(transform, (&old(self)@[i],)),
        ensures
            final(self).well_formed(),
            final(self)@.len() == old(self)@.len(),
            forall|i: int|
                0 <= i < old(self)@.len() ==> call_ensures(
                    transform,
                    (&old(self)@[i],),
                    #[trigger] final(self)@[i],
                ),
            final(self).room() == old(self).room(),
    {
        self.map_closure(transform)
    }

    /// Replaces every element by what `transform` makes of it.
    pub fn map_closure<F: Fn(&T) -> T>(&mut self, transform: F)
        requires
            old(self).well_formed(),
            forall|i: int| 0 <= i < old(self)@.len() ==> call_requires(transform, (&old(self)@[i],)),
        ensures
            final(self).well_formed(),
            final(self)@.len() == old(self)@.len(),
            forall|i: int|
                0 <= i < old(self)@.len() ==> call_ensures(
                    transform,
                    (&old(self)@[i],),
                    #[trigger] final(self)@[i],
                ),
            final(self).room() == old(self).room(),
    {
        let n = self.size();
        let mut i: usize = 0;
        while i < n
            invariant
                self.well_formed(),
                self@.len() == n,
                n == old(self)@.len(),
                self.room() == old(self).room(),
                0 <= i <= n,
                forall|j: int| i <= j < n ==> self@[j] == old(self)@[j],
                forall|j: int|
                    0 <= j < i ==> call_ensures(transform, (&old(self)@[j],), #[trigger] self@[j]),
                forall|j: int| 0 <= j < n ==> call_requires(transform, (&old(self)@[j],)),
            decreases n - i,
        {
            let changed = transform(self.get(i));
            self.set(i, changed);
            i += 1;
        }
    }

    /// Empties the queue.
    pub fn clear(&mut self)
        requires
            old(self).well_formed(),
        ensures
            final(self).well_formed(),
            final(self)@ == Seq::<T>::empty(),
            final(self).room() == old(self).room(),
            final(self).spec_front() == 0,
            final(self).spec_rear() == 0,
            final(self).spec_push_enabled(),
    {
        self.internal_vec.clear();
        self.rear_index = 0;
        self.front_index = 0;
        self.size = 0;
        self.push_enabled = true;
        proof {
            assert(self@ =~= Seq::<T>::empty());
        }
    }

    /// The elements of the queue, the oldest first.
    pub fn iter(&self) -> (r: CircularIterator<'_, T>)
        requires
            self.well_formed(),
        ensures
            r.well_formed(),
            r@ == self@,
    {
        let r = CircularIterator { vec_circular: self, index: 0 };
        proof {
            assert(r@ =~= self@);
        }
        r
    }
}

impl<T> Index<usize> for Circular<T> {
    type Output = T;

    fn index(&self, index: usize) -> (r: &T) {
        self.get(index)
    }
}

impl<T> vstd::std_specs::core::IndexSpecImpl<usize> for Circular<T> {
    open spec fn index_req(&self, index: &usize) -> bool {
        self.well_formed() && *index < self@.len()
    }
}

/// A walk over the elements of a queue, from the oldest on.
pub struct CircularIterator<'a, T> {
    vec_circular: &'a Circular<T>,
    index: usize,
}

impl<'a, T> View for CircularIterator<'a, T> {
    type V = Seq<T>;

    /// The elements still to come.
    closed spec fn view(&self) -> Seq<T> {
        self.vec_circular@.skip(self.index as int)
    }
}

impl<'a, T> CircularIterator<'a, T> {
    /// The invariant of the walk: it is over a well-formed queue and has not
    /// gone past its end.
    pub closed spec fn well_formed(&self) -> bool {
        self.vec_circular.well_formed() && self.index <= self.vec_circular@.len()
    }

    /// The next element of the queue, if any is left.
    pub fn next(&mut self) -> (r: Option<&'a T>)
        requires
            old(self).well_formed(),
        ensures
            final(self).well_formed(),
            old(self)@.len() == 0 ==> r is None && final(self)@ == old(self)@,
            old(self)@.len() > 0 ==> r == Some(&old(self)@[0]) && final(self)@ == old(self)@.drop_first(),
    {
        if self.index >= self.vec_circular.size() {
            None
        } else {
            let item = self.vec_circular.get(self.index);
            proof {
                assert(self.vec_circular@.skip(self.index as int).drop_first()
                    =~= self.vec_circular@.skip(self.index as int + 1));
            }
            self.index += 1;
            Some(item)
        }
    }
}

} // verus!
