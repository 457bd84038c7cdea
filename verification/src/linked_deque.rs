//! Unbounded double-ended queue.
use vstd::prelude::*;
use std::collections::VecDeque;
use crate::collection::{Collection, Disposable};
use crate::ring::{reversed, filter_kept, predicate_answers, lemma_filter_kept_push};

verus! {

/// Unbounded deque; the view lists the elements from front to back.
pub struct LinkedDeque<T> {
    elements: VecDeque<T>,
    disposed: bool,
}

impl<T> View for LinkedDeque<T> {
    type V = Seq<T>;

    closed spec fn view(&self) -> Seq<T> {
        self.elements@
    }
}

impl<T> LinkedDeque<T> {
    pub closed spec fn spec_disposed(&self) -> bool {
        self.disposed
    }

    pub fn new() -> (r: Self)
        ensures
            r@ == Seq::<T>::empty(),
            !r.spec_disposed(),
    {
        LinkedDeque { elements: VecDeque::new(), disposed: false }
    }

    pub fn front(&self) -> (r: Option<&T>)
        ensures
            self@.len() == 0 ==> r is None,
            self@.len() > 0 ==> r == Some(&self@[0]),
    {
        if self.elements.len() == 0 {
            return None;
        }
        Some(&self.elements[0])
    }

    pub fn back(&self) -> (r: Option<&T>)
        ensures
            self@.len() == 0 ==> r is None,
            self@.len() > 0 ==> r == Some(&self@.last()),
    {
        let n = self.elements.len();
        if n == 0 {
            return None;
        }
        Some(&self.elements[n - 1])
    }

    /// Appends at the back.
    pub fn enqueue(&mut self, element: T)
        ensures
            final(self)@ == old(self)@.push(element),
            final(self).spec_disposed() == old(self).spec_disposed(),
    {
        self.elements.push_back(element);
    }

    /// Removes and returns the front element.
    pub fn dequeue(&mut self) -> (r: Option<T>)
        ensures
            old(self)@.len() == 0 ==> r is None && final(self)@ == old(self)@,
            old(self)@.len() > 0 ==> r == Some(old(self)@[0]) && final(self)@ == old(self)@.drop_first(),
            final(self).spec_disposed() == old(self).spec_disposed(),
    {
        self.elements.pop_front()
    }

    /// Removes the front element and appends `new_back`.
    pub fn replace_front(&mut self, new_back: T) -> (r: Option<T>)
        ensures
            old(self)@.len() == 0 ==> r is None && final(self)@ == seq![new_back],
            old(self)@.len() > 0 ==> r == Some(old(self)@[0]) && final(self)@ == old(
                self,
            )@.drop_first().push(new_back),
            final(self).spec_disposed() == old(self).spec_disposed(),
    {
        let removed = self.elements.pop_front();
        self.elements.push_back(new_back);
        proof {
            assert(old(self)@.len() == 0 ==> self@ =~= seq![new_back]);
        }
        removed
    }

    /// Inserts at the front.
    pub fn enqueue_front(&mut self, element: T)
        ensures
            final(self)@ == seq![element] + old(self)@,
            final(self).spec_disposed() == old(self).spec_disposed(),
    {
        self.elements.push_front(element);
    }

    /// Removes and returns the back element.
    pub fn dequeue_back(&mut self) -> (r: Option<T>)
        ensures
            old(self)@.len() == 0 ==> r is None && final(self)@ == old(self)@,
            old(self)@.len() > 0 ==> r == Some(old(self)@.last()) && final(self)@ == old(self)@.drop_last(),
            final(self).spec_disposed() == old(self).spec_disposed(),
    {
        self.elements.pop_back()
    }

    /// Removes the back element and inserts `new_front`.
    pub fn replace_back(&mut self, new_front: T) -> (r: Option<T>)
        ensures
            old(self)@.len() == 0 ==> r is None && final(self)@ == seq![new_front],
            old(self)@.len() > 0 ==> r == Some(old(self)@.last()) && final(self)@ == seq![new_front]
                + old(self)@.drop_last(),
            final(self).spec_disposed() == old(self).spec_disposed(),
    {
        let removed = self.elements.pop_back();
        self.elements.push_front(new_front);
        proof {
            assert(old(self)@.len() == 0 ==> self@ =~= seq![new_front]);
        }
        removed
    }

    /// Appends every element of `elements` in order.
    pub fn enqueues(&mut self, elements: Vec<T>)
        ensures
            final(self)@ == old(self)@ + elements@,
            final(self).spec_disposed() == old(self).spec_disposed(),
    {
        let ghost all = elements@;
        let mut rev = reversed(elements);
        let ghost n = all.len();
        proof {
            assert(old(self)@ + all.subrange(0, 0) =~= old(self)@);
        }
        while rev.len() > 0
            invariant
                rev@.len() <= n,
                n == all.len(),
                forall|j: int| 0 <= j < rev@.len() ==> #[trigger] rev@[j] == all[n - 1 - j],
                self@ == old(self)@ + all.subrange(0, n - rev@.len()),
                self.disposed == old(self).disposed,
            decreases rev@.len(),
        {
            let ghost k: int = n - rev@.len();
            match rev.pop() {
                Some(e) => {
                    self.elements.push_back(e);
                    proof {
                        assert(self@ =~= old(self)@ + all.subrange(0, k + 1));
                    }
                },
                None => {},
            }
        }
        proof {
            assert(all.subrange(0, n as int) =~= all);
        }
    }

    /// Inserts every element of `elements` in turn at the front.
    pub fn enqueues_front(&mut self, elements: Vec<T>)
        ensures
            final(self)@ == elements@.reverse() + old(self)@,
            final(self).spec_disposed() == old(self).spec_disposed(),
    {
        let ghost all = elements@;
        let mut rev = reversed(elements);
        let ghost n = all.len();
        proof {
            assert(all.subrange(0, 0).reverse() + old(self)@ =~= old(self)@);
        }
        while rev.len() > 0
            invariant
                rev@.len() <= n,
                n == all.len(),
                forall|j: int| 0 <= j < rev@.len() ==> #[trigger] rev@[j] == all[n - 1 - j],
                self@ == all.subrange(0, n - rev@.len()).reverse() + old(self)@,
                self.disposed == old(self).disposed,
            decreases rev@.len(),
        {
            let ghost k: int = n - rev@.len();
            match rev.pop() {
                Some(e) => {
                    self.elements.push_front(e);
                    proof {
                        assert(self@ =~= all.subrange(0, k + 1).reverse() + old(self)@);
                    }
                },
                None => {},
            }
        }
        proof {
            assert(all.subrange(0, n as int) =~= all);
        }
    }

    pub fn size(&self) -> (n: usize)
        ensures
            n == self@.len(),
    {
        self.elements.len()
    }

    pub fn is_empty(&self) -> (b: bool)
        ensures
            b == (self@.len() == 0),
    {
        self.elements.len() == 0
    }

    /// Removes every element.
    pub fn clear(&mut self)
        ensures
            final(self)@ == Seq::<T>::empty(),
            final(self).spec_disposed() == old(self).spec_disposed(),
    {
        self.elements.clear();
    }

    /// Keeps the elements on which `f` answers `true`, in order; returns how
    /// many were removed.
    pub fn retain<F: Fn(&T) -> bool>(&mut self, f: F) -> (removed: usize)
        requires
            forall|x: &T| #[trigger] f.requires((x,)),
        ensures
            exists|keep: Seq<bool>|
                predicate_answers(f, old(self)@, keep) && final(self)@ == filter_kept(old(self)@, keep),
            removed == old(self)@.len() - final(self)@.len(),
            final(self).spec_disposed() == old(self).spec_disposed(),
    {
        let before = self.elements.len();
        let ghost s = self.elements@;
        let mut kept: VecDeque<T> = VecDeque::new();
        let ghost mut keep: Seq<bool> = Seq::empty();
        proof {
            assert(s.subrange(0, 0) =~= Seq::<T>::empty());
        }
        while self.elements.len() > 0
            invariant
                self.elements@.len() <= s.len(),
                self.elements@ == s.subrange(s.len() - self.elements@.len(), s.len() as int),
                keep.len() == s.len() - self.elements@.len(),
                predicate_answers(f, s.subrange(0, s.len() - self.elements@.len()), keep),
                kept@ == filter_kept(s.subrange(0, s.len() - self.elements@.len()), keep),
                forall|x: &T| #[trigger] f.requires((x,)),
                self.disposed == old(self).disposed,
            decreases self.elements@.len(),
        {
            let ghost k: int = s.len() - self.elements@.len();
            let item = match self.elements.pop_front() {
                Some(item) => item,
                None => unreached(),
            };
            let keep_it = f(&item);
            proof {
                assert(item == s[k]);
                let prefix = s.subrange(0, k);
                assert(s.subrange(0, k + 1) =~= prefix.push(s[k]));
                lemma_filter_kept_push(prefix, keep, s[k], keep_it);
                keep = keep.push(keep_it);
                assert forall|i: int| 0 <= i < k + 1 implies call_ensures(
                    f,
                    (&s.subrange(0, k + 1)[i],),
                    #[trigger] keep[i],
                ) by {
                    if i < k {
                        assert(s.subrange(0, k + 1)[i] == prefix[i]);
                    }
                }
                assert(self.elements@ =~= s.subrange(k + 1, s.len() as int));
            }
            if keep_it {
                kept.push_back(item);
            }
        }
        proof {
            assert(s.subrange(0, s.len() as int) =~= s);
            crate::ring::lemma_filter_kept_len(s, keep);
        }
        self.elements = kept;
        proof {
            assert(predicate_answers(f, old(self)@, keep));
        }
        before - self.elements.len()
    }

    /// Number of elements on which `filter` answers `true`.
    pub fn count<F: Fn(&T) -> bool>(&self, filter: F) -> (n: usize)
        requires
            forall|x: &T| #[trigger] filter.requires((x,)),
        ensures
            exists|keep: Seq<bool>| predicate_answers(filter, self@, keep) && n == filter_kept(self@, keep).len(),
    {
        let mut n: usize = 0;
        let mut i: usize = 0;
        let ghost s = self.elements@;
        let ghost mut keep: Seq<bool> = Seq::empty();
        while i < self.elements.len()
            invariant
                s == self.elements@,
                forall|x: &T| #[trigger] filter.requires((x,)),
                i <= s.len(),
                keep.len() == i,
                predicate_answers(filter, s.subrange(0, i as int), keep),
                n == filter_kept(s.subrange(0, i as int), keep).len(),
                n <= i,
            decreases s.len() - i,
        {
            let b = filter(&self.elements[i]);
            proof {
                let prefix = s.subrange(0, i as int);
                assert(s.subrange(0, i + 1) =~= prefix.push(s[i as int]));
                lemma_filter_kept_push(prefix, keep, s[i as int], b);
                keep = keep.push(b);
                assert forall|k: int| 0 <= k < i + 1 implies call_ensures(
                    filter,
                    (&s.subrange(0, i + 1)[k],),
                    #[trigger] keep[k],
                ) by {
                    if k < i {
                        assert(s.subrange(0, i + 1)[k] == prefix[k]);
                    }
                }
            }
            if b {
                n = n + 1;
            }
            i = i + 1;
        }
        proof {
            assert(s.subrange(0, s.len() as int) =~= s);
            assert(predicate_answers(filter, self@, keep));
        }
        n
    }

    /// References to the elements from front to back.
    pub fn iter(&self) -> (r: Vec<&T>)
        ensures
            r@.len() == self@.len(),
            forall|i: int| 0 <= i < r@.len() ==> *r@[i] == self@[i],
    {
        let mut r: Vec<&T> = Vec::new();
        let mut i: usize = 0;
        while i < self.elements.len()
            invariant
                i <= self@.len(),
                r@.len() == i,
                forall|j: int| 0 <= j < i ==> *r@[j] == self@[j],
            decreases self@.len() - i,
        {
            r.push(&self.elements[i]);
            i = i + 1;
        }
        r
    }

    /// Clones of the elements from front to back.
    pub fn collect(&self) -> (r: Vec<T>) where T: Clone
        ensures
            r@.len() == self@.len(),
            forall|i: int| 0 <= i < r@.len() ==> cloned::<T>(self@[i], #[trigger] r@[i]),
    {
        let mut r: Vec<T> = Vec::new();
        let mut i: usize = 0;
        while i < self.elements.len()
            invariant
                i <= self@.len(),
                r@.len() == i,
                forall|j: int| 0 <= j < i ==> cloned::<T>(self@[j], #[trigger] r@[j]),
            decreases self@.len() - i,
        {
            r.push(self.elements[i].clone());
            i = i + 1;
        }
        r
    }

    /// Marks the deque disposed and removes every element.
    pub fn dispose(&mut self)
        ensures
            final(self)@ == Seq::<T>::empty(),
            final(self).spec_disposed(),
    {
        self.disposed = true;
        self.elements.clear();
    }

    pub fn is_disposed(&self) -> (b: bool)
        ensures
            b == self.spec_disposed(),
    {
        self.disposed
    }
}

impl<T> Disposable for LinkedDeque<T> {
    open spec fn well_formed(&self) -> bool {
        true
    }

    fn dispose(&mut self)
        ensures
            final(self)@ == Seq::<T>::empty(),
            final(self).spec_disposed(),
    {
        LinkedDeque::dispose(self)
    }

    fn is_disposed(&self) -> (b: bool)
        ensures
            b == self.spec_disposed(),
    {
        LinkedDeque::is_disposed(self)
    }
}

impl<T> Collection for LinkedDeque<T> {
    type Item = T;

    open spec fn spec_size(&self) -> nat {
        self@.len()
    }

    fn size(&self) -> (n: usize)
        ensures
            n == self@.len(),
    {
        LinkedDeque::size(self)
    }

    fn clear(&mut self)
        ensures
            final(self)@ == Seq::<T>::empty(),
            final(self).spec_disposed() == old(self).spec_disposed(),
    {
        LinkedDeque::clear(self)
    }

    fn collect(&self) -> (r: Vec<T>) where T: Clone
        ensures
            r@.len() == self@.len(),
            forall|i: int| 0 <= i < r@.len() ==> cloned::<T>(self@[i], #[trigger] r@[i]),
    {
        LinkedDeque::collect(self)
    }
}

} // verus!
