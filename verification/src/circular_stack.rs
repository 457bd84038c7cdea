//! Fixed-capacity stack on a ring buffer: pushing onto a full stack drops
//! its oldest (bottom) element.
use vstd::prelude::*;
use crate::collection::{Collection, Disposable};
use crate::error::StackError;
use crate::ring::{Ring, keep_last, filter_kept, predicate_answers};

verus! {

/// Stack of at most `capacity` elements; the view lists them from the bottom
/// (oldest) to the top (newest).
pub struct CircularStack<T> {
    ring: Ring<T>,
    disposed: bool,
}

impl<T> View for CircularStack<T> {
    type V = Seq<T>;

    closed spec fn view(&self) -> Seq<T> {
        self.ring@
    }
}

/// `index` names an element of a sequence of length `len`.
pub open spec fn index_in(index: isize, len: nat) -> bool {
    0 <= index < len
}

impl<T> CircularStack<T> {
    /// The stack's internal buffer is consistent.
    pub closed spec fn wf(&self) -> bool {
        self.ring.wf()
    }

    /// Maximum number of elements.
    pub closed spec fn spec_capacity(&self) -> nat {
        self.ring.cap()
    }

    pub closed spec fn spec_disposed(&self) -> bool {
        self.disposed
    }

    /// The first element sits at the buffer's first slot.
    pub closed spec fn spec_compact(&self) -> bool {
        self.ring.is_compact()
    }

    /// Creates an empty stack; a zero capacity is refused.
    pub fn new(capacity: usize) -> (r: Result<Self, StackError>)
        ensures
            capacity == 0 <==> r == Err::<Self, StackError>(StackError::InvalidCapacity { capacity }),
            r is Ok <==> capacity > 0,
            r matches Ok(s) ==> s.wf() && s@ == Seq::<T>::empty() && s.spec_capacity() == capacity
                && !s.spec_disposed(),
    {
        if capacity == 0 {
            return Err(StackError::InvalidCapacity { capacity });
        }
        Ok(CircularStack { ring: Ring::new(capacity), disposed: false })
    }

    /// The number of elements never exceeds the capacity, which is positive.
    pub proof fn lemma_bounds(&self)
        requires
            self.wf(),
        ensures
            self@.len() <= self.spec_capacity(),
            self.spec_capacity() > 0,
    {
        self.ring.lemma_wf();
    }

    /// An independent copy: same capacity and disposed flag, each element cloned.
    pub fn fork(&self) -> (r: Self) where T: Clone
        requires
            self.wf(),
        ensures
            r.wf(),
            r@.len() == self@.len(),
            forall|i: int| 0 <= i < r@.len() ==> cloned::<T>(self@[i], #[trigger] r@[i]),
            r.spec_capacity() == self.spec_capacity(),
            r.spec_disposed() == self.spec_disposed(),
    {
        CircularStack { ring: self.ring.snapshot(), disposed: self.disposed }
    }

    /// The top (newest) element.
    pub fn top(&self) -> (r: Option<&T>)
        requires
            self.wf(),
        ensures
            self@.len() == 0 ==> r is None,
            self@.len() > 0 ==> r == Some(&self@.last()),
    {
        let size = self.ring.len();
        if size == 0 {
            return None;
        }
        Some(self.ring.get(size - 1))
    }

    /// Pushes onto the top; a full stack drops its bottom element.
    pub fn push(&mut self, element: T)
        requires
            old(self).wf(),
        ensures
            final(self).wf(),
            final(self)@ == keep_last(old(self)@.push(element), old(self).spec_capacity()),
            final(self).spec_capacity() == old(self).spec_capacity(),
            final(self).spec_disposed() == old(self).spec_disposed(),
    {
        self.ring.push_back(element);
    }

    /// Removes and returns the top element.
    pub fn pop(&mut self) -> (r: Option<T>)
        requires
            old(self).wf(),
        ensures
            final(self).wf(),
            old(self)@.len() == 0 ==> r is None && final(self)@ == old(self)@,
            old(self)@.len() > 0 ==> r == Some(old(self)@.last()) && final(self)@ == old(
                self,
            )@.drop_last(),
            final(self).spec_capacity() == old(self).spec_capacity(),
            final(self).spec_disposed() == old(self).spec_disposed(),
    {
        self.ring.pop_back()
    }

    /// Pushes every element of `elements` in order.
    pub fn pushes(&mut self, elements: Vec<T>)
        requires
            old(self).wf(),
        ensures
            final(self).wf(),
            final(self)@ == keep_last(old(self)@ + elements@, old(self).spec_capacity()),
            final(self).spec_capacity() == old(self).spec_capacity(),
            final(self).spec_disposed() == old(self).spec_disposed(),
    {
        self.ring.extend_back(elements);
    }

    /// Replaces the top element and returns the old one; on an empty stack
    /// `new_top` is pushed and `None` returned.
    pub fn replace_top(&mut self, new_top: T) -> (r: Option<T>)
        requires
            old(self).wf(),
        ensures
            final(self).wf(),
            old(self)@.len() == 0 ==> r is None && final(self)@ == seq![new_top],
            old(self)@.len() > 0 ==> r == Some(old(self)@.last()) && final(self)@ == old(
                self,
            )@.update(old(self)@.len() - 1, new_top),
            final(self).spec_capacity() == old(self).spec_capacity(),
            final(self).spec_disposed() == old(self).spec_disposed(),
    {
        self.ring.replace_back(new_top)
    }

    pub fn capacity(&self) -> (n: usize)
        requires
            self.wf(),
        ensures
            n == self.spec_capacity(),
    {
        self.ring.capacity()
    }

    /// The element at `index`, counted from the bottom.
    pub fn at(&self, index: isize) -> (r: Option<&T>)
        requires
            self.wf(),
        ensures
            !index_in(index, self@.len()) ==> r is None,
            index_in(index, self@.len()) ==> r == Some(&self@[index as int]),
    {
        if index < 0 || index as usize >= self.ring.len() {
            return None;
        }
        Some(self.ring.get(index as usize))
    }

    /// Replaces the element at `index` (counted from the bottom); `false`
    /// when there is none.
    pub fn update(&mut self, index: isize, element: T) -> (r: bool)
        requires
            old(self).wf(),
        ensures
            final(self).wf(),
            r == index_in(index, old(self)@.len()),
            r ==> final(self)@ == old(self)@.update(index as int, element),
            !r ==> final(self)@ == old(self)@,
            final(self).spec_capacity() == old(self).spec_capacity(),
            final(self).spec_disposed() == old(self).spec_disposed(),
    {
        if index < 0 || index as usize >= self.ring.len() {
            return false;
        }
        self.ring.set(index as usize, element);
        true
    }

    /// Changes the capacity, keeping the newest elements when it shrinks.
    pub fn resize(&mut self, new_capacity: usize) -> (r: Result<(), StackError>)
        requires
            old(self).wf(),
        ensures
            final(self).wf(),
            new_capacity == 0 <==> r == Err::<(), StackError>(
                StackError::InvalidCapacity { capacity: new_capacity },
            ),
            new_capacity == 0 ==> final(self)@ == old(self)@ && final(self).spec_capacity()
                == old(self).spec_capacity(),
            r is Ok <==> new_capacity > 0,
            new_capacity > 0 ==> final(self)@ == keep_last(old(self)@, new_capacity as nat)
                && final(self).spec_capacity() == new_capacity,
            final(self).spec_disposed() == old(self).spec_disposed(),
    {
        if new_capacity == 0 {
            return Err(StackError::InvalidCapacity { capacity: new_capacity });
        }
        self.ring.resize_keep_latest(new_capacity);
        Ok(())
    }

    /// Lays the elements out from the buffer's first slot; the content is unchanged.
    pub fn rearrange(&mut self)
        requires
            old(self).wf(),
        ensures
            final(self).wf(),
            final(self)@ == old(self)@,
            final(self).spec_capacity() == old(self).spec_capacity(),
            final(self).spec_disposed() == old(self).spec_disposed(),
            final(self).spec_compact(),
    {
        self.ring.rearrange();
    }

    pub fn size(&self) -> (n: usize)
        requires
            self.wf(),
        ensures
            n == self@.len(),
    {
        self.ring.len()
    }

    pub fn is_empty(&self) -> (b: bool)
        requires
            self.wf(),
        ensures
            b == (self@.len() == 0),
    {
        self.size() == 0
    }

    /// Removes every element.
    pub fn clear(&mut self)
        requires
            old(self).wf(),
        ensures
            final(self).wf(),
            final(self)@ == Seq::<T>::empty(),
            final(self).spec_capacity() == old(self).spec_capacity(),
            final(self).spec_disposed() == old(self).spec_disposed(),
    {
        self.ring.clear();
    }

    /// Keeps the elements on which `f` answers `true`, bottom to top order
    /// preserved; returns how many were removed.
    pub fn retain<F: Fn(&T) -> bool>(&mut self, f: F) -> (removed: usize)
        requires
            old(self).wf(),
            forall|x: &T| #[trigger] f.requires((x,)),
        ensures
            final(self).wf(),
            exists|keep: Seq<bool>|
                predicate_answers(f, old(self)@, keep) && final(self)@ == filter_kept(old(self)@, keep),
            removed == old(self)@.len() - final(self)@.len(),
            final(self).spec_capacity() == old(self).spec_capacity(),
            final(self).spec_disposed() == old(self).spec_disposed(),
    {
        let removed = self.ring.retain(f);
        proof {
            let keep = choose|keep: Seq<bool>|
                predicate_answers(f, old(self).ring@, keep) && self.ring@ == filter_kept(old(self).ring@, keep);
            assert(predicate_answers(f, old(self)@, keep) && final(self)@ == filter_kept(old(self)@, keep));
        }
        removed
    }

    /// Number of elements on which `filter` answers `true`.
    pub fn count<F: Fn(&T) -> bool>(&self, filter: F) -> (n: usize)
        requires
            self.wf(),
            forall|x: &T| #[trigger] filter.requires((x,)),
        ensures
            exists|keep: Seq<bool>| predicate_answers(filter, self@, keep) && n == filter_kept(self@, keep).len(),
    {
        let n = self.ring.count(filter);
        proof {
            let keep = choose|keep: Seq<bool>|
                predicate_answers(filter, self.ring@, keep) && n == filter_kept(self.ring@, keep).len();
            assert(predicate_answers(filter, self@, keep) && n == filter_kept(self@, keep).len());
        }
        n
    }

    /// References to the elements from the top down (iteration order).
    pub fn iter(&self) -> (r: Vec<&T>)
        requires
            self.wf(),
        ensures
            r@.len() == self@.len(),
            forall|i: int| 0 <= i < r@.len() ==> *r@[i] == self@[self@.len() - 1 - i],
    {
        self.ring.refs_back()
    }

    /// Clones of the elements from the top down (iteration order).
    pub fn collect(&self) -> (r: Vec<T>) where T: Clone
        requires
            self.wf(),
        ensures
            r@.len() == self@.len(),
            forall|i: int| 0 <= i < r@.len() ==> cloned::<T>(self@[self@.len() - 1 - i], #[trigger] r@[i]),
    {
        self.ring.to_vec_back()
    }

    /// Marks the stack disposed and removes every element.
    pub fn dispose(&mut self)
        requires
            old(self).wf(),
        ensures
            final(self).wf(),
            final(self)@ == Seq::<T>::empty(),
            final(self).spec_disposed(),
            final(self).spec_capacity() == old(self).spec_capacity(),
    {
        self.disposed = true;
        self.ring.clear();
    }

    pub fn is_disposed(&self) -> (b: bool)
        ensures
            b == self.spec_disposed(),
    {
        self.disposed
    }
}

impl<T> Disposable for CircularStack<T> {
    open spec fn well_formed(&self) -> bool {
        self.wf()
    }

    fn dispose(&mut self)
        ensures
            final(self).wf(),
            final(self)@ == Seq::<T>::empty(),
            final(self).spec_disposed(),
            final(self).spec_capacity() == old(self).spec_capacity(),
    {
        CircularStack::dispose(self)
    }

    fn is_disposed(&self) -> (b: bool)
        ensures
            b == self.spec_disposed(),
    {
        CircularStack::is_disposed(self)
    }
}

impl<T> Collection for CircularStack<T> {
    type Item = T;

    open spec fn spec_size(&self) -> nat {
        self@.len()
    }

    fn size(&self) -> (n: usize)
        ensures
            n == self@.len(),
    {
        CircularStack::size(self)
    }

    fn clear(&mut self)
        ensures
            final(self).wf(),
            final(self)@ == Seq::<T>::empty(),
            final(self).spec_capacity() == old(self).spec_capacity(),
            final(self).spec_disposed() == old(self).spec_disposed(),
    {
        CircularStack::clear(self)
    }

    fn collect(&self) -> (r: Vec<T>) where T: Clone
        ensures
            r@.len() == self@.len(),
            forall|i: int| 0 <= i < r@.len() ==> cloned::<T>(self@[self@.len() - 1 - i], #[trigger] r@[i]),
    {
        CircularStack::collect(self)
    }
}

} // verus!
