//! A fixed-capacity ring buffer of optional slots: the storage shared by the
//! circular stack and the circular queue.
use vstd::prelude::*;

verus! {

/// Physical slot of the element at logical `offset`, for a ring whose first
/// element sits at `start` in a buffer of `cap` slots (with `start < cap` and
/// `offset < cap`).
pub open spec fn ring_pos(start: int, offset: int, cap: int) -> int {
    if start + offset < cap {
        start + offset
    } else {
        start + offset - cap
    }
}

/// The last `n` elements of `s` (all of `s` when it is not longer than `n`).
pub open spec fn keep_last<T>(s: Seq<T>, n: nat) -> Seq<T> {
    if s.len() <= n {
        s
    } else {
        s.subrange(s.len() - n, s.len() as int)
    }
}

/// The first `n` elements of `s` (all of `s` when it is not longer than `n`).
pub open spec fn keep_first<T>(s: Seq<T>, n: nat) -> Seq<T> {
    if s.len() <= n {
        s
    } else {
        s.subrange(0, n as int)
    }
}

/// The elements of `s` whose flag in `keep` is set, in their original order.
pub open spec fn filter_kept<T>(s: Seq<T>, keep: Seq<bool>) -> Seq<T>
    decreases s.len(),
{
    if s.len() == 0 {
        Seq::empty()
    } else {
        let rest = filter_kept(s.drop_last(), keep.drop_last());
        if keep.last() {
            rest.push(s.last())
        } else {
            rest
        }
    }
}

/// `keep[i]` is a possible answer of the predicate `f` on `s[i]`, for every `i`.
pub open spec fn predicate_answers<T, F: Fn(&T) -> bool>(f: F, s: Seq<T>, keep: Seq<bool>) -> bool {
    &&& keep.len() == s.len()
    &&& forall|i: int| 0 <= i < s.len() ==> call_ensures(f, (&s[i],), #[trigger] keep[i])
}

pub proof fn lemma_filter_kept_len<T>(s: Seq<T>, keep: Seq<bool>)
    requires
        keep.len() == s.len(),
    ensures
        filter_kept(s, keep).len() <= s.len(),
    decreases s.len(),
{
    if s.len() > 0 {
        lemma_filter_kept_len(s.drop_last(), keep.drop_last());
    }
}

pub proof fn lemma_filter_kept_push<T>(s: Seq<T>, keep: Seq<bool>, x: T, b: bool)
    requires
        keep.len() == s.len(),
    ensures
        filter_kept(s.push(x), keep.push(b)) == (if b {
            filter_kept(s, keep).push(x)
        } else {
            filter_kept(s, keep)
        }),
{
    assert(s.push(x).drop_last() =~= s);
    assert(keep.push(b).drop_last() =~= keep);
}

pub proof fn lemma_filter_kept_all<T>(s: Seq<T>, keep: Seq<bool>)
    requires
        keep.len() == s.len(),
        forall|i: int| 0 <= i < keep.len() ==> keep[i],
    ensures
        filter_kept(s, keep) == s,
    decreases s.len(),
{
    if s.len() > 0 {
        lemma_filter_kept_all(s.drop_last(), keep.drop_last());
        assert(s.drop_last().push(s.last()) =~= s);
    }
}

/// Keeping as many elements as there are keeps all of them.
pub proof fn lemma_filter_kept_all_when_same_len<T>(s: Seq<T>, keep: Seq<bool>)
    requires
        keep.len() == s.len(),
        filter_kept(s, keep).len() == s.len(),
    ensures
        filter_kept(s, keep) == s,
    decreases s.len(),
{
    if s.len() > 0 {
        lemma_filter_kept_len(s.drop_last(), keep.drop_last());
        if !keep.last() {
            assert(false);
        }
        lemma_filter_kept_all_when_same_len(s.drop_last(), keep.drop_last());
        assert(s.drop_last().push(s.last()) =~= s);
    }
}

pub proof fn lemma_filter_kept_none<T>(s: Seq<T>, keep: Seq<bool>)
    requires
        keep.len() == s.len(),
        forall|i: int| 0 <= i < keep.len() ==> !keep[i],
    ensures
        filter_kept(s, keep) == Seq::<T>::empty(),
    decreases s.len(),
{
    if s.len() > 0 {
        lemma_filter_kept_none(s.drop_last(), keep.drop_last());
    }
}

pub proof fn lemma_keep_last_push<T>(s: Seq<T>, x: T, n: nat)
    requires
        n > 0,
    ensures
        keep_last(keep_last(s, n).push(x), n) == keep_last(s.push(x), n),
{
    if s.len() > n {
        assert(keep_last(s, n).push(x).subrange(1, n + 1 as int) =~= s.push(x).subrange(
            s.len() + 1 - n,
            s.len() + 1 as int,
        ));
    }
}

pub proof fn lemma_keep_first_prepend<T>(s: Seq<T>, x: T, n: nat)
    requires
        n > 0,
    ensures
        keep_first(seq![x] + keep_first(s, n), n) == keep_first(seq![x] + s, n),
{
    if s.len() > n {
        assert((seq![x] + keep_first(s, n)).subrange(0, n as int) =~= (seq![x] + s).subrange(
            0,
            n as int,
        ));
    } else if s.len() == n {
        assert((seq![x] + keep_first(s, n)) =~= seq![x] + s);
    }
}

/// The elements of `v` in reverse order.
pub fn reversed<T>(v: Vec<T>) -> (r: Vec<T>)
    ensures
        r@.len() == v@.len(),
        forall|j: int| 0 <= j < v@.len() ==> #[trigger] r@[j] == v@[v@.len() - 1 - j],
{
    let mut v = v;
    let ghost all = v@;
    let mut r: Vec<T> = Vec::new();
    while v.len() > 0
        invariant
            r@.len() + v@.len() == all.len(),
            v@ == all.subrange(0, v@.len() as int),
            forall|j: int| 0 <= j < r@.len() ==> #[trigger] r@[j] == all[all.len() - 1 - j],
        decreases v@.len(),
    {
        let e = v.pop();
        match e {
            Some(e) => r.push(e),
            None => {},
        }
    }
    r
}

/// Rotates `v` left by `k` slots: slice `rotate_left` of std.
#[verifier::external_body]
fn rotate_slots_left<T>(v: &mut Vec<Option<T>>, k: usize)
    requires
        k <= old(v)@.len(),
    ensures
        final(v)@ == old(v)@.subrange(k as int, old(v)@.len() as int) + old(v)@.subrange(0, k as int),
{
    v.rotate_left(k);
}

/// A buffer of `capacity` optional slots holding `size` elements, the first at
/// slot `start` and the last at slot `end`, wrapping around the buffer's end.
pub struct Ring<T> {
    elements: Vec<Option<T>>,
    capacity: usize,
    size: usize,
    start: usize,
    end: usize,
}

impl<T> View for Ring<T> {
    type V = Seq<T>;

    closed spec fn view(&self) -> Seq<T> {
        Seq::new(
            self.size as nat,
            |i: int| self.elements@[ring_pos(self.start as int, i, self.capacity as int)]->0,
        )
    }
}

impl<T> Ring<T> {
    /// The buffer is consistent: every logical element sits in a filled slot.
    pub closed spec fn wf(&self) -> bool {
        &&& self.capacity > 0
        &&& self.elements@.len() == self.capacity
        &&& self.size <= self.capacity
        &&& self.start < self.capacity
        &&& self.end < self.capacity
        &&& self.size == 0 ==> self.start == 0 && self.end == 0
        &&& self.size > 0 ==> self.end == ring_pos(
            self.start as int,
            self.size - 1,
            self.capacity as int,
        )
        &&& forall|i: int|
            0 <= i < self.size ==> (#[trigger] self.elements@[ring_pos(
                self.start as int,
                i,
                self.capacity as int,
            )]) is Some
    }

    pub closed spec fn cap(&self) -> nat {
        self.capacity as nat
    }

    /// The first element sits at the buffer's first slot.
    pub closed spec fn is_compact(&self) -> bool {
        self.start == 0
    }

    fn empty_slots(capacity: usize) -> (v: Vec<Option<T>>)
        ensures
            v@.len() == capacity,
            forall|i: int| 0 <= i < capacity ==> v@[i] is None,
    {
        let mut v: Vec<Option<T>> = Vec::new();
        let mut i: usize = 0;
        while i < capacity
            invariant
                i <= capacity,
                v@.len() == i,
                forall|j: int| 0 <= j < i ==> v@[j] is None,
            decreases capacity - i,
        {
            v.push(None);
            i = i + 1;
        }
        v
    }

    pub fn new(capacity: usize) -> (r: Self)
        requires
            capacity > 0,
        ensures
            r.wf(),
            r@ == Seq::<T>::empty(),
            r.cap() == capacity,
            r.is_compact(),
    {
        let r = Ring { elements: Self::empty_slots(capacity), capacity, size: 0, start: 0, end: 0 };
        assert(r@ =~= Seq::<T>::empty());
        r
    }

    pub fn len(&self) -> (n: usize)
        requires
            self.wf(),
        ensures
            n == self@.len(),
    {
        self.size
    }

    pub fn capacity(&self) -> (n: usize)
        requires
            self.wf(),
        ensures
            n == self.cap(),
    {
        self.capacity
    }

    pub proof fn lemma_wf(&self)
        requires
            self.wf(),
        ensures
            self@.len() <= self.cap(),
            self.cap() > 0,
    {
    }

    fn next_index(&self, index: usize) -> (r: usize)
        requires
            self.capacity > 0,
            index < self.capacity,
        ensures
            r == ring_pos(index as int, 1, self.capacity as int),
    {
        let next = index + 1;
        if next == self.capacity {
            0
        } else {
            next
        }
    }

    fn prev_index(&self, index: usize) -> (r: usize)
        requires
            self.capacity > 0,
            index < self.capacity,
        ensures
            r < self.capacity,
            ring_pos(r as int, 1, self.capacity as int) == index,
    {
        if index == 0 {
            self.capacity - 1
        } else {
            index - 1
        }
    }

    fn physical_index(&self, offset: usize) -> (r: usize)
        requires
            self.wf(),
            offset < self.capacity,
        ensures
            r == ring_pos(self.start as int, offset as int, self.capacity as int),
            r < self.capacity,
    {
        if offset < self.capacity - self.start {
            self.start + offset
        } else {
            offset - (self.capacity - self.start)
        }
    }

    /// The element at logical `offset`, counted from the first element.
    pub fn get(&self, offset: usize) -> (r: &T)
        requires
            self.wf(),
            offset < self@.len(),
        ensures
            *r == self@[offset as int],
    {
        let idx = self.physical_index(offset);
        match &self.elements[idx] {
            Some(v) => v,
            None => {
                proof {
                    assert(self.elements@[ring_pos(self.start as int, offset as int, self.capacity as int)] is Some);
                }
                unreached()
            },
        }
    }

    /// Replaces the element at logical `offset`.
    pub fn set(&mut self, offset: usize, element: T)
        requires
            old(self).wf(),
            offset < old(self)@.len(),
        ensures
            final(self).wf(),
            final(self)@ == old(self)@.update(offset as int, element),
            final(self).cap() == old(self).cap(),
    {
        let idx = self.physical_index(offset);
        self.elements[idx] = Some(element);
        proof {
            assert forall|i: int| 0 <= i < self.size implies (#[trigger] self.elements@[ring_pos(
                self.start as int,
                i,
                self.capacity as int,
            )]) is Some by {
                assert(old(self).elements@[ring_pos(self.start as int, i, self.capacity as int)] is Some);
            }
            assert(self@ =~= old(self)@.update(offset as int, element));
        }
    }

    /// Appends `element` after the last one; a full ring drops its first element.
    pub fn push_back(&mut self, element: T)
        requires
            old(self).wf(),
        ensures
            final(self).wf(),
            final(self)@ == keep_last(old(self)@.push(element), old(self).cap()),
            final(self).cap() == old(self).cap(),
    {
        if self.size == 0 {
            self.elements[0] = Some(element);
            self.size = 1;
            self.start = 0;
            self.end = 0;
            proof {
                assert(self@ =~= old(self)@.push(element));
            }
            return;
        }
        self.end = self.next_index(self.end);
        self.elements[self.end] = Some(element);
        if self.size < self.capacity {
            self.size = self.size + 1;
            proof {
                assert forall|i: int| 0 <= i < self.size implies (#[trigger] self.elements@[ring_pos(
                    self.start as int,
                    i,
                    self.capacity as int,
                )]) is Some by {
                    if i < self.size - 1 {
                        assert(old(self).elements@[ring_pos(self.start as int, i, self.capacity as int)] is Some);
                    }
                }
                assert(self@ =~= old(self)@.push(element));
            }
        } else {
            self.start = self.next_index(self.start);
            proof {
                let c = self.capacity as int;
                let os = old(self).start as int;
                assert forall|i: int| 0 <= i < self.size implies (#[trigger] self.elements@[ring_pos(
                    self.start as int,
                    i,
                    c,
                )]) is Some by {
                    if i < self.size - 1 {
                        assert(ring_pos(self.start as int, i, c) == ring_pos(os, i + 1, c));
                        assert(old(self).elements@[ring_pos(os, i + 1, c)] is Some);
                    }
                }
                let s = old(self)@.push(element);
                assert forall|i: int| 0 <= i < self.size implies #[trigger] self@[i] == s.subrange(
                    s.len() - c,
                    s.len() as int,
                )[i] by {
                    if i < self.size - 1 {
                        assert(ring_pos(self.start as int, i, c) == ring_pos(os, i + 1, c));
                    }
                }
                assert(self@ =~= keep_last(s, old(self).cap()));
            }
        }
    }

    /// Removes and returns the last element.
    pub fn pop_back(&mut self) -> (r: Option<T>)
        requires
            old(self).wf(),
        ensures
            final(self).wf(),
            final(self).cap() == old(self).cap(),
            old(self)@.len() == 0 ==> r is None && final(self)@ == old(self)@,
            old(self)@.len() > 0 ==> r == Some(old(self)@.last()) && final(self)@ == old(
                self,
            )@.drop_last(),
    {
        if self.size == 0 {
            return None;
        }
        let removed = self.elements[self.end].take();
        if self.size == 1 {
            self.size = 0;
            self.start = 0;
            self.end = 0;
            proof {
                assert(self@ =~= old(self)@.drop_last());
            }
            return removed;
        }
        self.size = self.size - 1;
        self.end = self.prev_index(self.end);
        proof {
            let c = self.capacity as int;
            assert forall|i: int| 0 <= i < self.size implies (#[trigger] self.elements@[ring_pos(
                self.start as int,
                i,
                c,
            )]) is Some by {
                assert(old(self).elements@[ring_pos(self.start as int, i, c)] is Some);
            }
            assert(self@ =~= old(self)@.drop_last());
        }
        removed
    }

    /// Removes and returns the first element.
    pub fn pop_front(&mut self) -> (r: Option<T>)
        requires
            old(self).wf(),
        ensures
            final(self).wf(),
            final(self).cap() == old(self).cap(),
            old(self)@.len() == 0 ==> r is None && final(self)@ == old(self)@,
            old(self)@.len() > 0 ==> r == Some(old(self)@[0]) && final(self)@ == old(
                self,
            )@.drop_first(),
    {
        if self.size == 0 {
            return None;
        }
        let removed = self.elements[self.start].take();
        proof {
            assert(ring_pos(self.start as int, 0, self.capacity as int) == self.start);
        }
        if self.size == 1 {
            self.size = 0;
            self.start = 0;
            self.end = 0;
            proof {
                assert(self@ =~= old(self)@.drop_first());
            }
            return removed;
        }
        self.size = self.size - 1;
        self.start = self.next_index(self.start);
        proof {
            let c = self.capacity as int;
            let os = old(self).start as int;
            assert forall|i: int| 0 <= i < self.size implies (#[trigger] self.elements@[ring_pos(
                self.start as int,
                i,
                c,
            )]) is Some by {
                assert(ring_pos(self.start as int, i, c) == ring_pos(os, i + 1, c));
                assert(old(self).elements@[ring_pos(os, i + 1, c)] is Some);
            }
            assert forall|i: int| 0 <= i < self.size implies #[trigger] self@[i] == old(self)@.drop_first()[i] by {
                assert(ring_pos(self.start as int, i, c) == ring_pos(os, i + 1, c));
            }
            assert(self@ =~= old(self)@.drop_first());
        }
        removed
    }

    /// Inserts `element` before the first one; a full ring drops its last element.
    pub fn push_front(&mut self, element: T)
        requires
            old(self).wf(),
        ensures
            final(self).wf(),
            final(self)@ == keep_first(seq![element] + old(self)@, old(self).cap()),
            final(self).cap() == old(self).cap(),
    {
        if self.size == 0 {
            self.elements[0] = Some(element);
            self.size = 1;
            self.start = 0;
            self.end = 0;
            proof {
                assert(self@ =~= seq![element] + old(self)@);
            }
            return;
        }
        self.start = self.prev_index(self.start);
        self.elements[self.start] = Some(element);
        let ghost c = self.capacity as int;
        let ghost os = old(self).start as int;
        proof {
            assert(ring_pos(self.start as int, 0, c) == self.start);
            assert forall|i: int| 1 <= i <= old(self).size implies ring_pos(self.start as int, i, c)
                == ring_pos(os, i - 1, c) by {}
        }
        if self.size < self.capacity {
            self.size = self.size + 1;
            proof {
                assert(self.end == ring_pos(self.start as int, self.size - 1, c));
                assert forall|i: int| 0 <= i < self.size implies (#[trigger] self.elements@[ring_pos(
                    self.start as int,
                    i,
                    c,
                )]) is Some by {
                    if i > 0 {
                        assert(old(self).elements@[ring_pos(os, i - 1, c)] is Some);
                    }
                }
                let s = seq![element] + old(self)@;
                assert forall|i: int| 0 <= i < self.size implies #[trigger] self@[i] == s[i] by {
                    if i > 0 {
                        assert(ring_pos(self.start as int, i, c) == ring_pos(os, i - 1, c));
                    }
                }
                assert(self@ =~= s);
            }
        } else {
            self.end = self.prev_index(self.end);
            proof {
                assert forall|i: int| 0 <= i < self.size implies (#[trigger] self.elements@[ring_pos(
                    self.start as int,
                    i,
                    c,
                )]) is Some by {
                    if i > 0 {
                        assert(old(self).elements@[ring_pos(os, i - 1, c)] is Some);
                    }
                }
                let s = seq![element] + old(self)@;
                assert forall|i: int| 0 <= i < self.size implies #[trigger] self@[i] == s.subrange(0, c)[i] by {
                    if i > 0 {
                        assert(ring_pos(self.start as int, i, c) == ring_pos(os, i - 1, c));
                    }
                }
                assert(self@ =~= keep_first(s, old(self).cap()));
            }
        }
    }

    /// Empties the ring.
    pub fn clear(&mut self)
        requires
            old(self).wf(),
        ensures
            final(self).wf(),
            final(self)@ == Seq::<T>::empty(),
            final(self).cap() == old(self).cap(),
            final(self).is_compact(),
    {
        let mut offset: usize = 0;
        while offset < self.size
            invariant
                old(self).wf(),
                self.capacity == old(self).capacity,
                self.size == old(self).size,
                self.start == old(self).start,
                self.elements@.len() == self.capacity,
                offset <= self.size,
            decreases self.size - offset,
        {
            let idx = if offset < self.capacity - self.start {
                self.start + offset
            } else {
                offset - (self.capacity - self.start)
            };
            let _ = self.elements[idx].take();
            offset = offset + 1;
        }
        self.size = 0;
        self.start = 0;
        self.end = 0;
        proof {
            assert(self@ =~= Seq::<T>::empty());
        }
    }


    /// Replaces the last element, or stores `element` alone in an empty ring.
    pub fn replace_back(&mut self, element: T) -> (r: Option<T>)
        requires
            old(self).wf(),
        ensures
            final(self).wf(),
            final(self).cap() == old(self).cap(),
            old(self)@.len() == 0 ==> r is None && final(self)@ == seq![element],
            old(self)@.len() > 0 ==> r == Some(old(self)@.last()) && final(self)@ == old(
                self,
            )@.update(old(self)@.len() - 1, element),
    {
        if self.size == 0 {
            self.elements[0] = Some(element);
            self.size = 1;
            self.start = 0;
            self.end = 0;
            proof {
                assert(self@ =~= seq![element]);
            }
            return None;
        }
        let removed = self.elements[self.end].take();
        self.elements[self.end] = Some(element);
        proof {
            let c = self.capacity as int;
            assert forall|i: int| 0 <= i < self.size implies (#[trigger] self.elements@[ring_pos(
                self.start as int,
                i,
                c,
            )]) is Some by {
                assert(old(self).elements@[ring_pos(self.start as int, i, c)] is Some);
            }
            assert(self@ =~= old(self)@.update(old(self)@.len() - 1, element));
        }
        removed
    }

    /// Drops the first element and appends `element` (an empty ring just takes it).
    pub fn rotate_out_front(&mut self, element: T) -> (r: Option<T>)
        requires
            old(self).wf(),
        ensures
            final(self).wf(),
            final(self).cap() == old(self).cap(),
            old(self)@.len() == 0 ==> r is None && final(self)@ == seq![element],
            old(self)@.len() > 0 ==> r == Some(old(self)@[0]) && final(self)@ == old(
                self,
            )@.drop_first().push(element),
    {
        if self.size == 0 {
            self.elements[0] = Some(element);
            self.size = 1;
            self.start = 0;
            self.end = 0;
            proof {
                assert(self@ =~= seq![element]);
            }
            return None;
        }
        let removed = self.elements[self.start].take();
        proof {
            assert(ring_pos(self.start as int, 0, self.capacity as int) == self.start);
        }
        if self.size == 1 {
            self.elements[0] = Some(element);
            self.start = 0;
            self.end = 0;
            proof {
                assert(self@ =~= old(self)@.drop_first().push(element));
            }
            return removed;
        }
        self.start = self.next_index(self.start);
        self.end = self.next_index(self.end);
        self.elements[self.end] = Some(element);
        proof {
            let c = self.capacity as int;
            let os = old(self).start as int;
            assert forall|i: int| 0 <= i < self.size - 1 implies ring_pos(self.start as int, i, c)
                == ring_pos(os, i + 1, c) by {}
            assert(self.end == ring_pos(self.start as int, self.size - 1, c));
            assert forall|i: int| 0 <= i < self.size implies (#[trigger] self.elements@[ring_pos(
                self.start as int,
                i,
                c,
            )]) is Some by {
                if i < self.size - 1 {
                    assert(old(self).elements@[ring_pos(os, i + 1, c)] is Some);
                }
            }
            let s = old(self)@.drop_first().push(element);
            assert forall|i: int| 0 <= i < self.size implies #[trigger] self@[i] == s[i] by {}
            assert(self@ =~= s);
        }
        removed
    }

    /// Drops the last element and inserts `element` first (an empty ring just takes it).
    pub fn rotate_out_back(&mut self, element: T) -> (r: Option<T>)
        requires
            old(self).wf(),
        ensures
            final(self).wf(),
            final(self).cap() == old(self).cap(),
            old(self)@.len() == 0 ==> r is None && final(self)@ == seq![element],
            old(self)@.len() > 0 ==> r == Some(old(self)@.last()) && final(self)@ == seq![element]
                + old(self)@.drop_last(),
    {
        if self.size == 0 {
            self.elements[0] = Some(element);
            self.size = 1;
            self.start = 0;
            self.end = 0;
            proof {
                assert(self@ =~= seq![element]);
            }
            return None;
        }
        let removed = self.elements[self.end].take();
        if self.size == 1 {
            self.elements[0] = Some(element);
            self.start = 0;
            self.end = 0;
            proof {
                assert(self@ =~= seq![element] + old(self)@.drop_last());
            }
            return removed;
        }
        self.end = self.prev_index(self.end);
        self.start = self.prev_index(self.start);
        self.elements[self.start] = Some(element);
        proof {
            let c = self.capacity as int;
            let os = old(self).start as int;
            assert(ring_pos(self.start as int, 0, c) == self.start);
            assert forall|i: int| 1 <= i < self.size implies ring_pos(self.start as int, i, c)
                == ring_pos(os, i - 1, c) by {}
            assert forall|i: int| 0 <= i < self.size implies (#[trigger] self.elements@[ring_pos(
                self.start as int,
                i,
                c,
            )]) is Some by {
                if i > 0 {
                    assert(old(self).elements@[ring_pos(os, i - 1, c)] is Some);
                }
            }
            let s = seq![element] + old(self)@.drop_last();
            assert forall|i: int| 0 <= i < self.size implies #[trigger] self@[i] == s[i] by {}
            assert(self@ =~= s);
        }
        removed
    }


    /// Moves the elements so that the first one sits at the buffer's first
    /// slot; the logical content is unchanged.
    pub fn rearrange(&mut self)
        requires
            old(self).wf(),
        ensures
            final(self).wf(),
            final(self)@ == old(self)@,
            final(self).cap() == old(self).cap(),
            final(self).is_compact(),
    {
        if self.size == 0 {
            self.start = 0;
            self.end = 0;
            proof {
                assert(self@ =~= old(self)@);
            }
            return;
        }
        if self.start == 0 {
            return;
        }
        let capacity = self.capacity;
        let size = self.size;
        let start = self.start;
        let end = self.end;
        let ghost old_el = old(self).elements@;
        let ghost c = capacity as int;

        // Dense ring: rotate the whole buffer; sparse ring: move only live slots.
        let is_dense = (size as u128) * 4 >= (capacity as u128) * 3;
        if is_dense {
            rotate_slots_left(&mut self.elements, start);
            self.start = 0;
            self.end = size - 1;
            proof {
                assert forall|i: int| 0 <= i < size implies #[trigger] self.elements@[i] == old_el[ring_pos(
                    start as int,
                    i,
                    c,
                )] by {}
                self.lemma_compact_view(old(self), old_el);
            }
            return;
        }
        if start <= end {
            let mut i: usize = 0;
            while i < size
                invariant
                    0 < start <= end < capacity,
                    end == start + size - 1,
                    i <= size,
                    self.elements@.len() == capacity,
                    self.size == size,
                    self.capacity == capacity,
                    self.start == start,
                    old_el == old(self).elements@,
                    forall|j: int| 0 <= j < i ==> #[trigger] self.elements@[j] == old_el[start + j],
                    forall|k: int| start + i <= k < capacity ==> #[trigger] self.elements@[k] == old_el[k],
                decreases size - i,
            {
                let src = start + i;
                let value = self.elements[src].take();
                self.elements[i] = value;
                i = i + 1;
            }
            proof {
                assert forall|j: int| 0 <= j < size implies #[trigger] self.elements@[j] == old_el[ring_pos(
                    start as int,
                    j,
                    c,
                )] by {}
            }
        } else {
            let first_len = capacity - start;
            let mut tail: Vec<Option<T>> = Vec::new();
            let mut i: usize = 0;
            while i <= end
                invariant
                    end < start < capacity,
                    i <= end + 1,
                    self.elements@.len() == capacity,
                    self.size == size,
                    self.capacity == capacity,
                    self.start == start,
                    old_el == old(self).elements@,
                    tail@.len() == i,
                    forall|j: int| 0 <= j < i ==> #[trigger] tail@[j] == old_el[j],
                    forall|k: int| i <= k < capacity ==> #[trigger] self.elements@[k] == old_el[k],
                decreases end + 1 - i,
            {
                let value = self.elements[i].take();
                tail.push(value);
                i = i + 1;
            }
            let mut i: usize = 0;
            while i < first_len
                invariant
                    end < start < capacity,
                    first_len == capacity - start,
                    i <= first_len,
                    self.elements@.len() == capacity,
                    self.size == size,
                    self.capacity == capacity,
                    self.start == start,
                    old_el == old(self).elements@,
                    tail@.len() == end + 1,
                    forall|j: int| 0 <= j < i ==> #[trigger] self.elements@[j] == old_el[start + j],
                    forall|k: int| start + i <= k < capacity ==> #[trigger] self.elements@[k] == old_el[k],
                decreases first_len - i,
            {
                let src = start + i;
                let value = self.elements[src].take();
                self.elements[i] = value;
                i = i + 1;
            }
            let mut i: usize = 0;
            while i <= end
                invariant
                    end < start < capacity,
                    first_len == capacity - start,
                    size == first_len + end + 1,
                    i <= end + 1,
                    self.elements@.len() == capacity,
                    self.size == size,
                    self.capacity == capacity,
                    self.start == start,
                    old_el == old(self).elements@,
                    tail@.len() == end + 1,
                    forall|j: int| i <= j < end + 1 ==> #[trigger] tail@[j] == old_el[j],
                    forall|j: int| 0 <= j < first_len ==> #[trigger] self.elements@[j] == old_el[start + j],
                    forall|j: int| 0 <= j < i ==> #[trigger] self.elements@[first_len + j] == old_el[j],
                decreases end + 1 - i,
            {
                let value = tail[i].take();
                self.elements[first_len + i] = value;
                proof {
                    assert(value == old_el[i as int]);
                }
                i = i + 1;
            }
            proof {
                assert forall|j: int| 0 <= j < size implies #[trigger] self.elements@[j] == old_el[ring_pos(
                    start as int,
                    j,
                    c,
                )] by {
                    if j >= first_len {
                        assert(self.elements@[first_len + (j - first_len)] == old_el[j - first_len]);
                    }
                }
            }
        }
        self.start = 0;
        self.end = size - 1;
        proof {
            self.lemma_compact_view(old(self), old_el);
        }
    }

    proof fn lemma_compact_view(&self, before: &Self, old_el: Seq<Option<T>>)
        requires
            before.wf(),
            old_el == before.elements@,
            self.start == 0,
            self.size == before.size,
            self.capacity == before.capacity,
            self.elements@.len() == self.capacity,
            self.size > 0,
            self.end == self.size - 1,
            forall|i: int| 0 <= i < self.size ==> #[trigger] self.elements@[i] == old_el[ring_pos(
                before.start as int,
                i,
                before.capacity as int,
            )],
        ensures
            self.wf(),
            self@ == before@,
    {
        let c = self.capacity as int;
        assert forall|i: int| 0 <= i < self.size implies (#[trigger] self.elements@[ring_pos(
            0,
            i,
            c,
        )]) is Some by {
            assert(self.elements@[i] == old_el[ring_pos(before.start as int, i, c)]);
        }
        assert forall|i: int| 0 <= i < self.size implies #[trigger] self@[i] == before@[i] by {
            assert(self.elements@[i] == old_el[ring_pos(before.start as int, i, c)]);
        }
        assert(self@ =~= before@);
    }


    /// Adds empty slots until the buffer holds `new_capacity` of them.
    fn grow_slots(&mut self, new_capacity: usize)
        requires
            old(self).elements@.len() <= new_capacity,
        ensures
            final(self).elements@.len() == new_capacity,
            forall|i: int| 0 <= i < old(self).elements@.len() ==> final(self).elements@[i] == old(
                self,
            ).elements@[i],
            final(self).capacity == old(self).capacity,
            final(self).size == old(self).size,
            final(self).start == old(self).start,
            final(self).end == old(self).end,
    {
        while self.elements.len() < new_capacity
            invariant
                old(self).elements@.len() <= self.elements@.len() <= new_capacity,
                forall|i: int| 0 <= i < old(self).elements@.len() ==> self.elements@[i] == old(
                    self,
                ).elements@[i],
                self.capacity == old(self).capacity,
                self.size == old(self).size,
                self.start == old(self).start,
                self.end == old(self).end,
            decreases new_capacity - self.elements@.len(),
        {
            self.elements.push(None);
        }
    }

    /// Moves the last `new_capacity` elements of a compact ring to the front
    /// slots and shortens it to them.
    fn shrink_keep_latest(&mut self, new_capacity: usize)
        requires
            old(self).wf(),
            old(self).is_compact(),
            0 < new_capacity < old(self).capacity,
        ensures
            final(self).elements@.len() == old(self).elements@.len(),
            final(self).capacity == old(self).capacity,
            final(self).start == 0,
            final(self).size == if old(self).size <= new_capacity {
                old(self).size
            } else {
                new_capacity
            },
            forall|i: int| 0 <= i < final(self).size ==> (#[trigger] final(self).elements@[i]) is Some
                && final(self).elements@[i]->0 == keep_last(old(self)@, new_capacity as nat)[i],
    {
        let ghost c = self.capacity as int;
        if self.size <= new_capacity {
            proof {
                assert forall|i: int| 0 <= i < self.size implies (#[trigger] self.elements@[i]) is Some
                    && self.elements@[i]->0 == keep_last(old(self)@, new_capacity as nat)[i] by {
                    assert(ring_pos(0, i, c) == i);
                    assert(self.elements@[ring_pos(0, i, c)] is Some);
                }
            }
            return;
        }
        let previous_size = self.size;
        let drop_count = previous_size - new_capacity;
        let ghost old_el = self.elements@;
        let mut i: usize = 0;
        while i < new_capacity
            invariant
                old(self).wf(),
                old_el == old(self).elements@,
                old(self).start == 0,
                drop_count + new_capacity == previous_size,
                previous_size == old(self).size,
                previous_size <= old(self).capacity,
                i <= new_capacity,
                self.elements@.len() == old_el.len(),
                self.capacity == old(self).capacity,
                self.size == previous_size,
                self.start == 0,
                forall|j: int| 0 <= j < i ==> #[trigger] self.elements@[j] == old_el[drop_count + j],
                forall|k: int| drop_count + i <= k < old_el.len() ==> #[trigger] self.elements@[k]
                    == old_el[k],
            decreases new_capacity - i,
        {
            let value = self.elements[drop_count + i].take();
            self.elements[i] = value;
            i = i + 1;
        }
        let mut i: usize = new_capacity;
        while i < previous_size
            invariant
                new_capacity <= i <= previous_size,
                previous_size <= old_el.len(),
                self.elements@.len() == old_el.len(),
                self.capacity == old(self).capacity,
                self.size == previous_size,
                self.start == 0,
                forall|j: int| 0 <= j < new_capacity ==> #[trigger] self.elements@[j] == old_el[drop_count
                    + j],
            decreases previous_size - i,
        {
            self.elements[i] = None;
            i = i + 1;
        }
        self.size = new_capacity;
        proof {
            assert forall|j: int| 0 <= j < new_capacity implies (#[trigger] self.elements@[j]) is Some
                && self.elements@[j]->0 == keep_last(old(self)@, new_capacity as nat)[j] by {
                assert(ring_pos(0, drop_count + j, c) == drop_count + j);
                assert(old_el[ring_pos(0, drop_count + j, c)] is Some);
            }
        }
    }

    /// Changes the capacity; when it shrinks below the length, only the last
    /// elements are kept.
    pub fn resize_keep_latest(&mut self, new_capacity: usize)
        requires
            old(self).wf(),
            new_capacity > 0,
        ensures
            final(self).wf(),
            final(self).cap() == new_capacity,
            final(self)@ == keep_last(old(self)@, new_capacity as nat),
    {
        if new_capacity == self.capacity {
            return;
        }
        if new_capacity > self.capacity {
            let is_wrapped = self.size > 0 && self.start > self.end;
            if is_wrapped {
                self.rearrange();
                self.start = 0;
                self.end = if self.size == 0 {
                    0
                } else {
                    self.size - 1
                };
            }
            let ghost mid = *self;
            self.grow_slots(new_capacity);
            self.capacity = new_capacity;
            proof {
                let c = mid.capacity as int;
                assert(mid.start + mid.size <= c) by {
                    if mid.size > 0 && mid.start + mid.size > c {
                        assert(mid.end == ring_pos(mid.start as int, mid.size - 1, c));
                    }
                }
                assert forall|i: int| 0 <= i < self.size implies ring_pos(
                    self.start as int,
                    i,
                    new_capacity as int,
                ) == ring_pos(self.start as int, i, c) by {}
                assert forall|i: int| 0 <= i < self.size implies (#[trigger] self.elements@[ring_pos(
                    self.start as int,
                    i,
                    new_capacity as int,
                )]) is Some by {
                    assert(mid.elements@[ring_pos(self.start as int, i, c)] is Some);
                }
                assert(self@ =~= mid@);
            }
            return;
        }
        if self.start != 0 {
            self.rearrange();
        }
        let ghost mid = *self;
        self.shrink_keep_latest(new_capacity);
        self.elements.truncate(new_capacity);
        self.capacity = new_capacity;
        self.start = 0;
        self.end = if self.size == 0 {
            0
        } else {
            self.size - 1
        };
        proof {
            let c = new_capacity as int;
            assert forall|i: int| 0 <= i < self.size implies (#[trigger] self.elements@[ring_pos(
                0,
                i,
                c,
            )]) is Some by {
                assert(ring_pos(0, i, c) == i);
            }
            assert forall|i: int| 0 <= i < self.size implies #[trigger] self@[i] == keep_last(
                old(self)@,
                new_capacity as nat,
            )[i] by {
                assert(ring_pos(0, i, c) == i);
            }
            assert(self@ =~= keep_last(old(self)@, new_capacity as nat));
        }
    }

    /// Changes the capacity to one that still holds every element.
    pub fn resize_exact(&mut self, new_capacity: usize)
        requires
            old(self).wf(),
            new_capacity > 0,
            old(self)@.len() <= new_capacity,
        ensures
            final(self).wf(),
            final(self).cap() == new_capacity,
            final(self)@ == old(self)@,
            final(self).is_compact(),
    {
        self.rearrange();
        let ghost mid = *self;
        if new_capacity > self.capacity {
            self.grow_slots(new_capacity);
        } else {
            self.elements.truncate(new_capacity);
        }
        self.capacity = new_capacity;
        self.start = 0;
        self.end = if self.size == 0 {
            0
        } else {
            self.size - 1
        };
        proof {
            let c = new_capacity as int;
            let mc = mid.capacity as int;
            assert forall|i: int| 0 <= i < self.size implies (#[trigger] self.elements@[ring_pos(
                0,
                i,
                c,
            )]) is Some by {
                assert(ring_pos(0, i, c) == i);
                assert(ring_pos(0, i, mc) == i);
                assert(mid.elements@[ring_pos(0, i, mc)] is Some);
            }
            assert forall|i: int| 0 <= i < self.size implies #[trigger] self@[i] == mid@[i] by {
                assert(ring_pos(0, i, c) == i);
                assert(ring_pos(0, i, mc) == i);
            }
            assert(self@ =~= mid@);
        }
    }


    /// Keeps exactly the elements on which `f` answers `true`, in order, and
    /// returns how many were removed.
    pub fn retain<F: Fn(&T) -> bool>(&mut self, f: F) -> (removed: usize)
        requires
            old(self).wf(),
            forall|x: &T| #[trigger] f.requires((x,)),
        ensures
            final(self).wf(),
            final(self).cap() == old(self).cap(),
            exists|keep: Seq<bool>|
                predicate_answers(f, old(self)@, keep) && final(self)@ == filter_kept(old(self)@, keep),
            removed == old(self)@.len() - final(self)@.len(),
    {
        let original_size = self.size;
        if original_size == 0 {
            proof {
                let keep = Seq::<bool>::empty();
                assert(predicate_answers(f, old(self)@, keep));
                assert(self@ =~= filter_kept(old(self)@, keep));
            }
            return 0;
        }
        self.rearrange();
        let ghost s = self@;
        let ghost c = self.capacity as int;
        proof {
            assert(self@.len() == self.size);
            assert(old(self)@.len() == original_size);
            assert(self.size == original_size);
            assert forall|j: int| 0 <= j < original_size implies (#[trigger] self.elements@[j]) is Some
                && self.elements@[j]->0 == s[j] by {
                assert(ring_pos(0, j, c) == j);
                assert(self.elements@[ring_pos(self.start as int, j, c)] is Some);
            }
        }
        let mut kept: usize = 0;
        let mut read_idx: usize = 0;
        let ghost mut keep: Seq<bool> = Seq::empty();
        while read_idx < original_size
            invariant
                s == old(self)@,
                s.len() == original_size,
                original_size <= self.capacity,
                self.capacity == old(self).capacity,
                self.elements@.len() == self.capacity,
                self.capacity > 0,
                forall|x: &T| #[trigger] f.requires((x,)),
                kept <= read_idx <= original_size,
                keep.len() == read_idx,
                predicate_answers(f, s.subrange(0, read_idx as int), keep),
                filter_kept(s.subrange(0, read_idx as int), keep).len() == kept,
                forall|j: int| 0 <= j < kept ==> (#[trigger] self.elements@[j]) is Some
                    && self.elements@[j]->0 == filter_kept(s.subrange(0, read_idx as int), keep)[j],
                forall|j: int| read_idx <= j < original_size ==> (#[trigger] self.elements@[j]) is Some
                    && self.elements@[j]->0 == s[j],
            decreases original_size - read_idx,
        {
            let taken = self.elements[read_idx].take();
            let item = match taken {
                Some(item) => item,
                None => {
                    proof {
                        assert(self.elements@[read_idx as int] is Some);
                    }
                    unreached()
                },
            };
            let keep_it = f(&item);
            proof {
                let prefix = s.subrange(0, read_idx as int);
                assert(s.subrange(0, read_idx + 1) =~= prefix.push(s[read_idx as int]));
                lemma_filter_kept_push(prefix, keep, s[read_idx as int], keep_it);
                keep = keep.push(keep_it);
                assert forall|i: int| 0 <= i < read_idx + 1 implies call_ensures(
                    f,
                    (&s.subrange(0, read_idx + 1)[i],),
                    #[trigger] keep[i],
                ) by {
                    if i < read_idx {
                        assert(s.subrange(0, read_idx + 1)[i] == prefix[i]);
                    }
                }
            }
            if keep_it {
                self.elements[kept] = Some(item);
                kept = kept + 1;
            }
            read_idx = read_idx + 1;
        }
        self.size = kept;
        self.start = 0;
        self.end = if kept == 0 {
            0
        } else {
            kept - 1
        };
        proof {
            assert(s.subrange(0, original_size as int) =~= s);
            assert forall|i: int| 0 <= i < self.size implies (#[trigger] self.elements@[ring_pos(
                0,
                i,
                c,
            )]) is Some by {
                assert(ring_pos(0, i, c) == i);
            }
            assert forall|i: int| 0 <= i < self.size implies #[trigger] self@[i] == filter_kept(s, keep)[i] by {
                assert(ring_pos(0, i, c) == i);
            }
            assert(self@ =~= filter_kept(s, keep));
            lemma_filter_kept_len(s, keep);
        }
        original_size - kept
    }

    /// Appends every element of `elements` in order, keeping the last `cap`.
    pub fn extend_back(&mut self, elements: Vec<T>)
        requires
            old(self).wf(),
        ensures
            final(self).wf(),
            final(self).cap() == old(self).cap(),
            final(self)@ == keep_last(old(self)@ + elements@, old(self).cap()),
    {
        let ghost all = elements@;
        let mut rev = reversed(elements);
        let ghost n = all.len();
        let ghost c = self.cap();
        proof {
            assert(old(self)@ + all.subrange(0, 0) =~= old(self)@);
            assert(keep_last(old(self)@, c) == old(self)@);
        }
        while rev.len() > 0
            invariant
                self.wf(),
                self.cap() == c,
                rev@.len() <= n,
                n == all.len(),
                forall|j: int| 0 <= j < rev@.len() ==> #[trigger] rev@[j] == all[n - 1 - j],
                self@ == keep_last(old(self)@ + all.subrange(0, n - rev@.len()), c),
            decreases rev@.len(),
        {
            let ghost k: int = n - rev@.len();
            let e = rev.pop();
            match e {
                Some(e) => {
                    proof {
                        lemma_keep_last_push(old(self)@ + all.subrange(0, k), e, c);
                        assert((old(self)@ + all.subrange(0, k)).push(e) =~= old(self)@ + all.subrange(
                            0,
                            k + 1,
                        ));
                    }
                    self.push_back(e);
                },
                None => {},
            }
        }
        proof {
            assert(all.subrange(0, n as int) =~= all);
        }
    }

    /// Inserts every element of `elements` in turn before the first one,
    /// keeping the first `cap`.
    pub fn extend_front(&mut self, elements: Vec<T>)
        requires
            old(self).wf(),
        ensures
            final(self).wf(),
            final(self).cap() == old(self).cap(),
            final(self)@ == keep_first(elements@.reverse() + old(self)@, old(self).cap()),
    {
        let ghost all = elements@;
        let mut rev = reversed(elements);
        let ghost n = all.len();
        let ghost c = self.cap();
        proof {
            assert(all.subrange(0, 0).reverse() + old(self)@ =~= old(self)@);
        }
        while rev.len() > 0
            invariant
                self.wf(),
                self.cap() == c,
                rev@.len() <= n,
                n == all.len(),
                forall|j: int| 0 <= j < rev@.len() ==> #[trigger] rev@[j] == all[n - 1 - j],
                self@ == keep_first(all.subrange(0, n - rev@.len()).reverse() + old(self)@, c),
            decreases rev@.len(),
        {
            let ghost k: int = n - rev@.len();
            let e = rev.pop();
            match e {
                Some(e) => {
                    proof {
                        lemma_keep_first_prepend(all.subrange(0, k).reverse() + old(self)@, e, c);
                        assert(seq![e] + (all.subrange(0, k).reverse() + old(self)@) =~= all.subrange(
                            0,
                            k + 1,
                        ).reverse() + old(self)@);
                    }
                    self.push_front(e);
                },
                None => {},
            }
        }
        proof {
            assert(all.subrange(0, n as int) =~= all);
        }
    }


    /// A copy of the ring, each element cloned, laid out from the first slot.
    pub fn snapshot(&self) -> (r: Self) where T: Clone
        requires
            self.wf(),
        ensures
            r.wf(),
            r.cap() == self.cap(),
            r@.len() == self@.len(),
            forall|i: int| 0 <= i < r@.len() ==> cloned::<T>(self@[i], #[trigger] r@[i]),
    {
        let mut elements = Self::empty_slots(self.capacity);
        let mut offset: usize = 0;
        while offset < self.size
            invariant
                self.wf(),
                offset <= self.size,
                elements@.len() == self.capacity,
                forall|j: int| 0 <= j < offset ==> (#[trigger] elements@[j]) is Some && cloned::<T>(
                    self@[j],
                    elements@[j]->0,
                ),
            decreases self.size - offset,
        {
            let item = self.get(offset).clone();
            elements[offset] = Some(item);
            offset = offset + 1;
        }
        let r = Ring {
            elements,
            capacity: self.capacity,
            size: self.size,
            start: 0,
            end: if self.size == 0 {
                0
            } else {
                self.size - 1
            },
        };
        proof {
            let c = self.capacity as int;
            assert forall|i: int| 0 <= i < r.size implies (#[trigger] r.elements@[ring_pos(0, i, c)]) is Some by {
                assert(ring_pos(0, i, c) == i);
            }
            assert forall|i: int| 0 <= i < r@.len() implies cloned::<T>(self@[i], #[trigger] r@[i]) by {
                assert(ring_pos(0, i, c) == i);
            }
        }
        r
    }


    /// Number of elements on which `f` answers `true`.
    pub fn count<F: Fn(&T) -> bool>(&self, f: F) -> (n: usize)
        requires
            self.wf(),
            forall|x: &T| #[trigger] f.requires((x,)),
        ensures
            exists|keep: Seq<bool>|
                predicate_answers(f, self@, keep) && n == filter_kept(self@, keep).len(),
    {
        let mut n: usize = 0;
        let mut i: usize = 0;
        let ghost mut keep: Seq<bool> = Seq::empty();
        while i < self.size
            invariant
                self.wf(),
                forall|x: &T| #[trigger] f.requires((x,)),
                i <= self.size,
                keep.len() == i,
                predicate_answers(f, self@.subrange(0, i as int), keep),
                n == filter_kept(self@.subrange(0, i as int), keep).len(),
                n <= i,
            decreases self.size - i,
        {
            let item = self.get(i);
            let b = f(item);
            proof {
                let prefix = self@.subrange(0, i as int);
                assert(self@.subrange(0, i + 1) =~= prefix.push(self@[i as int]));
                lemma_filter_kept_push(prefix, keep, self@[i as int], b);
                keep = keep.push(b);
                assert forall|k: int| 0 <= k < i + 1 implies call_ensures(
                    f,
                    (&self@.subrange(0, i + 1)[k],),
                    #[trigger] keep[k],
                ) by {
                    if k < i {
                        assert(self@.subrange(0, i + 1)[k] == prefix[k]);
                    }
                }
            }
            if b {
                n = n + 1;
            }
            i = i + 1;
        }
        proof {
            assert(self@.subrange(0, self.size as int) =~= self@);
        }
        n
    }

    /// Clones of the elements from the first to the last.
    pub fn to_vec_front(&self) -> (r: Vec<T>) where T: Clone
        requires
            self.wf(),
        ensures
            r@.len() == self@.len(),
            forall|i: int| 0 <= i < r@.len() ==> cloned::<T>(self@[i], #[trigger] r@[i]),
    {
        let mut r: Vec<T> = Vec::new();
        let mut i: usize = 0;
        while i < self.size
            invariant
                self.wf(),
                i <= self.size,
                r@.len() == i,
                forall|j: int| 0 <= j < i ==> cloned::<T>(self@[j], #[trigger] r@[j]),
            decreases self.size - i,
        {
            r.push(self.get(i).clone());
            i = i + 1;
        }
        r
    }

    /// Clones of the elements from the last to the first.
    pub fn to_vec_back(&self) -> (r: Vec<T>) where T: Clone
        requires
            self.wf(),
        ensures
            r@.len() == self@.len(),
            forall|i: int| 0 <= i < r@.len() ==> cloned::<T>(self@[self@.len() - 1 - i], #[trigger] r@[i]),
    {
        let mut r: Vec<T> = Vec::new();
        let mut i: usize = 0;
        while i < self.size
            invariant
                self.wf(),
                i <= self.size,
                r@.len() == i,
                forall|j: int| 0 <= j < i ==> cloned::<T>(self@[self@.len() - 1 - j], #[trigger] r@[j]),
            decreases self.size - i,
        {
            r.push(self.get(self.size - 1 - i).clone());
            i = i + 1;
        }
        r
    }


    /// References to the elements from the first to the last.
    pub fn refs_front(&self) -> (r: Vec<&T>)
        requires
            self.wf(),
        ensures
            r@.len() == self@.len(),
            forall|i: int| 0 <= i < r@.len() ==> *r@[i] == self@[i],
    {
        let mut r: Vec<&T> = Vec::new();
        let mut i: usize = 0;
        while i < self.size
            invariant
                self.wf(),
                i <= self.size,
                r@.len() == i,
                forall|j: int| 0 <= j < i ==> *r@[j] == self@[j],
            decreases self.size - i,
        {
            r.push(self.get(i));
            i = i + 1;
        }
        r
    }

    /// References to the elements from the last to the first.
    pub fn refs_back(&self) -> (r: Vec<&T>)
        requires
            self.wf(),
        ensures
            r@.len() == self@.len(),
            forall|i: int| 0 <= i < r@.len() ==> *r@[i] == self@[self@.len() - 1 - i],
    {
        let mut r: Vec<&T> = Vec::new();
        let mut i: usize = 0;
        while i < self.size
            invariant
                self.wf(),
                i <= self.size,
                r@.len() == i,
                forall|j: int| 0 <= j < i ==> *r@[j] == self@[self@.len() - 1 - j],
            decreases self.size - i,
        {
            r.push(self.get(self.size - 1 - i));
            i = i + 1;
        }
        r
    }

}

} // verus!
