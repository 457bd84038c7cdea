//! Fixed-capacity double-ended queue on a ring buffer: inserting into a full
//! queue drops the element at the opposite end.
use vstd::prelude::*;
use crate::collection::{Collection, Disposable};
use crate::error::QueueError;
use crate::ring::{Ring, keep_last, keep_first, filter_kept, predicate_answers};
use crate::circular_stack::index_in;

verus! {

/// Queue of at most `capacity` elements; the view lists them from the front
/// (next to leave) to the back (last to arrive).
pub struct CircularQueue<T> {
    ring: Ring<T>,
    disposed: bool,
}

impl<T> View for CircularQueue<T> {
    type V = Seq<T>;

    closed spec fn view(&self) -> Seq<T> {
        self.ring@
    }
}

impl<T> CircularQueue<T> {
    /// The queue's internal buffer is consistent.
    pub closed spec fn wf(&self) -> bool {
        self.ring.wf()
    }

    /// Maximum number of elements.
    pub closed spec fn spec_capacity(&self) -> nat {
        self.ring.cap()
    }

    pub closed spec fn spec_disposed(&self) -> bool {
        self.disposed
    }

    /// The first element sits at the buffer's first slot.
    pub closed spec fn spec_compact(&self) -> bool {
        self.ring.is_compact()
    }

    /// Creates an empty queue; a zero capacity is refused.
    pub fn new(capacity: usize) -> (r: Result<Self, QueueError>)
        ensures
            capacity == 0 <==> r == Err::<Self, QueueError>(QueueError::InvalidCapacity { capacity }),
            r is Ok <==> capacity > 0,
            r matches Ok(q) ==> q.wf() && q@ == Seq::<T>::empty() && q.spec_capacity() == capacity
                && !q.spec_disposed(),
    {
        if capacity == 0 {
            return Err(QueueError::InvalidCapacity { capacity });
        }
        Ok(CircularQueue { ring: Ring::new(capacity), disposed: false })
    }

    /// The number of elements never exceeds the capacity, which is positive.
    pub proof fn lemma_bounds(&self)
        requires
            self.wf(),
        ensures
            self@.len() <= self.spec_capacity(),
            self.spec_capacity() > 0,
    {
        self.ring.lemma_wf();
    }

    /// The front element.
    pub fn front(&self) -> (r: Option<&T>)
        requires
            self.wf(),
        ensures
            self@.len() == 0 ==> r is None,
            self@.len() > 0 ==> r == Some(&self@[0]),
    {
        if self.ring.len() == 0 {
            return None;
        }
        Some(self.ring.get(0))
    }

    /// The back element.
    pub fn back(&self) -> (r: Option<&T>)
        requires
            self.wf(),
        ensures
            self@.len() == 0 ==> r is None,
            self@.len() > 0 ==> r == Some(&self@.last()),
    {
        let size = self.ring.len();
        if size == 0 {
            return None;
        }
        Some(self.ring.get(size - 1))
    }

    /// Appends at the back; a full queue drops its front element.
    pub fn enqueue(&mut self, element: T)
        requires
            old(self).wf(),
        ensures
            final(self).wf(),
            final(self)@ == keep_last(old(self)@.push(element), old(self).spec_capacity()),
            final(self).spec_capacity() == old(self).spec_capacity(),
            final(self).spec_disposed() == old(self).spec_disposed(),
    {
        self.ring.push_back(element);
    }

    /// Removes and returns the front element.
    pub fn dequeue(&mut self) -> (r: Option<T>)
        requires
            old(self).wf(),
        ensures
            final(self).wf(),
            old(self)@.len() == 0 ==> r is None && final(self)@ == old(self)@,
            old(self)@.len() > 0 ==> r == Some(old(self)@[0]) && final(self)@ == old(
                self,
            )@.drop_first(),
            final(self).spec_capacity() == old(self).spec_capacity(),
            final(self).spec_disposed() == old(self).spec_disposed(),
    {
        self.ring.pop_front()
    }

    /// Appends every element of `elements` in order at the back.
    pub fn enqueues(&mut self, elements: Vec<T>)
        requires
            old(self).wf(),
        ensures
            final(self).wf(),
            final(self)@ == keep_last(old(self)@ + elements@, old(self).spec_capacity()),
            final(self).spec_capacity() == old(self).spec_capacity(),
            final(self).spec_disposed() == old(self).spec_disposed(),
    {
        self.ring.extend_back(elements);
    }

    /// Removes the front element and appends `new_back`; on an empty queue
    /// `new_back` is enqueued and `None` returned.
    pub fn replace_front(&mut self, new_back: T) -> (r: Option<T>)
        requires
            old(self).wf(),
        ensures
            final(self).wf(),
            old(self)@.len() == 0 ==> r is None && final(self)@ == seq![new_back],
            old(self)@.len() > 0 ==> r == Some(old(self)@[0]) && final(self)@ == old(
                self,
            )@.drop_first().push(new_back),
            final(self).spec_capacity() == old(self).spec_capacity(),
            final(self).spec_disposed() == old(self).spec_disposed(),
    {
        self.ring.rotate_out_front(new_back)
    }

    /// Inserts at the front; a full queue drops its back element.
    pub fn enqueue_front(&mut self, element: T)
        requires
            old(self).wf(),
        ensures
            final(self).wf(),
            final(self)@ == keep_first(seq![element] + old(self)@, old(self).spec_capacity()),
            final(self).spec_capacity() == old(self).spec_capacity(),
            final(self).spec_disposed() == old(self).spec_disposed(),
    {
        self.ring.push_front(element);
    }

    /// Removes and returns the back element.
    pub fn dequeue_back(&mut self) -> (r: Option<T>)
        requires
            old(self).wf(),
        ensures
            final(self).wf(),
            old(self)@.len() == 0 ==> r is None && final(self)@ == old(self)@,
            old(self)@.len() > 0 ==> r == Some(old(self)@.last()) && final(self)@ == old(
                self,
            )@.drop_last(),
            final(self).spec_capacity() == old(self).spec_capacity(),
            final(self).spec_disposed() == old(self).spec_disposed(),
    {
        self.ring.pop_back()
    }

    /// Inserts every element of `elements` in turn at the front.
    pub fn enqueues_front(&mut self, elements: Vec<T>)
        requires
            old(self).wf(),
        ensures
            final(self).wf(),
            final(self)@ == keep_first(elements@.reverse() + old(self)@, old(self).spec_capacity()),
            final(self).spec_capacity() == old(self).spec_capacity(),
            final(self).spec_disposed() == old(self).spec_disposed(),
    {
        self.ring.extend_front(elements);
    }

    /// Removes the back element and inserts `new_front`; on an empty queue
    /// `new_front` is enqueued and `None` returned.
    pub fn replace_back(&mut self, new_front: T) -> (r: Option<T>)
        requires
            old(self).wf(),
        ensures
            final(self).wf(),
            old(self)@.len() == 0 ==> r is None && final(self)@ == seq![new_front],
            old(self)@.len() > 0 ==> r == Some(old(self)@.last()) && final(self)@ == seq![new_front]
                + old(self)@.drop_last(),
            final(self).spec_capacity() == old(self).spec_capacity(),
            final(self).spec_disposed() == old(self).spec_disposed(),
    {
        self.ring.rotate_out_back(new_front)
    }

    pub fn capacity(&self) -> (n: usize)
        requires
            self.wf(),
        ensures
            n == self.spec_capacity(),
    {
        self.ring.capacity()
    }

    /// The element at `index`, counted from the front.
    pub fn at(&self, index: isize) -> (r: Option<&T>)
        requires
            self.wf(),
        ensures
            !index_in(index, self@.len()) ==> r is None,
            index_in(index, self@.len()) ==> r == Some(&self@[index as int]),
    {
        if index < 0 || index as usize >= self.ring.len() {
            return None;
        }
        Some(self.ring.get(index as usize))
    }

    /// Changes the capacity to one that still holds every element.
    pub fn resize(&mut self, new_capacity: usize) -> (r: Result<(), QueueError>)
        requires
            old(self).wf(),
        ensures
            final(self).wf(),
            new_capacity == 0 ==> r == Err::<(), QueueError>(
                QueueError::InvalidCapacity { capacity: new_capacity },
            ),
            new_capacity > 0 && old(self)@.len() > new_capacity ==> r == Err::<(), QueueError>(
                QueueError::InsufficientCapacity {
                    current_size: old(self)@.len() as usize,
                    requested_capacity: new_capacity,
                },
            ),
            r is Ok <==> new_capacity > 0 && old(self)@.len() <= new_capacity,
            r is Ok ==> final(self).spec_capacity() == new_capacity,
            r is Err ==> final(self).spec_capacity() == old(self).spec_capacity(),
            final(self)@ == old(self)@,
            final(self).spec_disposed() == old(self).spec_disposed(),
    {
        if new_capacity == 0 {
            return Err(QueueError::InvalidCapacity { capacity: new_capacity });
        }
        let size = self.ring.len();
        if size > new_capacity {
            return Err(
                QueueError::InsufficientCapacity {
                    current_size: size,
                    requested_capacity: new_capacity,
                },
            );
        }
        self.ring.resize_exact(new_capacity);
        Ok(())
    }

    /// Lays the elements out from the buffer's first slot; the content is unchanged.
    pub fn rearrange(&mut self)
        requires
            old(self).wf(),
        ensures
            final(self).wf(),
            final(self)@ == old(self)@,
            final(self).spec_capacity() == old(self).spec_capacity(),
            final(self).spec_disposed() == old(self).spec_disposed(),
            final(self).spec_compact(),
    {
        self.ring.rearrange();
    }

    pub fn size(&self) -> (n: usize)
        requires
            self.wf(),
        ensures
            n == self@.len(),
    {
        self.ring.len()
    }

    pub fn is_empty(&self) -> (b: bool)
        requires
            self.wf(),
        ensures
            b == (self@.len() == 0),
    {
        self.size() == 0
    }

    /// Removes every element.
    pub fn clear(&mut self)
        requires
            old(self).wf(),
        ensures
            final(self).wf(),
            final(self)@ == Seq::<T>::empty(),
            final(self).spec_capacity() == old(self).spec_capacity(),
            final(self).spec_disposed() == old(self).spec_disposed(),
    {
        self.ring.clear();
    }

    /// Keeps the elements on which `f` answers `true`, in order; returns how
    /// many were removed.
    pub fn retain<F: Fn(&T) -> bool>(&mut self, f: F) -> (removed: usize)
        requires
            old(self).wf(),
            forall|x: &T| #[trigger] f.requires((x,)),
        ensures
            final(self).wf(),
            exists|keep: Seq<bool>|
                predicate_answers(f, old(self)@, keep) && final(self)@ == filter_kept(old(self)@, keep),
            removed == old(self)@.len() - final(self)@.len(),
            final(self).spec_capacity() == old(self).spec_capacity(),
            final(self).spec_disposed() == old(self).spec_disposed(),
    {
        let removed = self.ring.retain(f);
        proof {
            let keep = choose|keep: Seq<bool>|
                predicate_answers(f, old(self).ring@, keep) && self.ring@ == filter_kept(old(self).ring@, keep);
            assert(predicate_answers(f, old(self)@, keep) && final(self)@ == filter_kept(old(self)@, keep));
        }
        removed
    }

    /// Number of elements on which `filter` answers `true`.
    pub fn count<F: Fn(&T) -> bool>(&self, filter: F) -> (n: usize)
        requires
            self.wf(),
            forall|x: &T| #[trigger] filter.requires((x,)),
        ensures
            exists|keep: Seq<bool>| predicate_answers(filter, self@, keep) && n == filter_kept(self@, keep).len(),
    {
        let n = self.ring.count(filter);
        proof {
            let keep = choose|keep: Seq<bool>|
                predicate_answers(filter, self.ring@, keep) && n == filter_kept(self.ring@, keep).len();
            assert(predicate_answers(filter, self@, keep) && n == filter_kept(self@, keep).len());
        }
        n
    }

    /// References to the elements from front to back (iteration order).
    pub fn iter(&self) -> (r: Vec<&T>)
        requires
            self.wf(),
        ensures
            r@.len() == self@.len(),
            forall|i: int| 0 <= i < r@.len() ==> *r@[i] == self@[i],
    {
        self.ring.refs_front()
    }

    /// Clones of the elements from front to back (iteration order).
    pub fn collect(&self) -> (r: Vec<T>) where T: Clone
        requires
            self.wf(),
        ensures
            r@.len() == self@.len(),
            forall|i: int| 0 <= i < r@.len() ==> cloned::<T>(self@[i], #[trigger] r@[i]),
    {
        self.ring.to_vec_front()
    }

    /// Marks the queue disposed and removes every element.
    pub fn dispose(&mut self)
        requires
            old(self).wf(),
        ensures
            final(self).wf(),
            final(self)@ == Seq::<T>::empty(),
            final(self).spec_disposed(),
            final(self).spec_capacity() == old(self).spec_capacity(),
    {
        self.disposed = true;
        self.ring.clear();
    }

    pub fn is_disposed(&self) -> (b: bool)
        ensures
            b == self.spec_disposed(),
    {
        self.disposed
    }
}

impl<T> Disposable for CircularQueue<T> {
    open spec fn well_formed(&self) -> bool {
        self.wf()
    }

    fn dispose(&mut self)
        ensures
            final(self).wf(),
            final(self)@ == Seq::<T>::empty(),
            final(self).spec_disposed(),
            final(self).spec_capacity() == old(self).spec_capacity(),
    {
        CircularQueue::dispose(self)
    }

    fn is_disposed(&self) -> (b: bool)
        ensures
            b == self.spec_disposed(),
    {
        CircularQueue::is_disposed(self)
    }
}

impl<T> Collection for CircularQueue<T> {
    type Item = T;

    open spec fn spec_size(&self) -> nat {
        self@.len()
    }

    fn size(&self) -> (n: usize)
        ensures
            n == self@.len(),
    {
        CircularQueue::size(self)
    }

    fn clear(&mut self)
        ensures
            final(self).wf(),
            final(self)@ == Seq::<T>::empty(),
            final(self).spec_capacity() == old(self).spec_capacity(),
            final(self).spec_disposed() == old(self).spec_disposed(),
    {
        CircularQueue::clear(self)
    }

    fn collect(&self) -> (r: Vec<T>) where T: Clone
        ensures
            r@.len() == self@.len(),
            forall|i: int| 0 <= i < r@.len() ==> cloned::<T>(self@[i], #[trigger] r@[i]),
    {
        CircularQueue::collect(self)
    }
}

} // verus!
