//! Binary min-heap priority queue ordered by the items' own `Ord`.
use vstd::prelude::*;
use vstd::arithmetic::power2::pow2;
use crate::order::{le, lt, total_order, lemma_le_reflexive, comparisons_specified};
use vstd::multiset::Multiset;
use crate::collection::{Collection, Disposable};
use crate::ring::{reversed, filter_kept, predicate_answers, lemma_filter_kept_push, lemma_filter_kept_len, lemma_filter_kept_all_when_same_len};

verus! {

broadcast use vstd::seq_lib::group_to_multiset_ensures;

/// Index of the parent of heap slot `i`.
pub open spec fn parent(i: int) -> int {
    (i - 1) / 2
}

/// Every slot of `s` below `n` is ordered after its parent.
pub open spec fn is_heap<T: PartialOrd>(s: Seq<T>, n: int) -> bool {
    forall|i: int| #![trigger s[i]] 0 < i < n ==> le(s[parent(i)], s[i])
}

/// Sift-up state: the heap order holds below `n` except into slot `h`, and
/// `h`'s parent is ordered before `h`'s children.
pub open spec fn up_inv<T: PartialOrd>(s: Seq<T>, n: int, h: int) -> bool {
    &&& forall|i: int| #![trigger s[i]] 0 < i < n && i != h ==> le(s[parent(i)], s[i])
    &&& h > 0 ==> forall|c: int| #![trigger s[c]] 0 < c < n && parent(c) == h ==> le(s[parent(h)], s[c])
}

/// Sift-down state for the subtree rooted at `lo`: every order edge out of a
/// slot at or after `lo` holds except those out of slot `h`, and (below `lo`)
/// `h`'s parent is ordered before `h`'s children.
pub open spec fn down_inv<T: PartialOrd>(s: Seq<T>, n: int, lo: int, h: int) -> bool {
    &&& forall|i: int| #![trigger s[i]] 0 < i < n && lo <= parent(i) && parent(i) != h ==> le(s[parent(i)], s[i])
    &&& h == lo || lo <= parent(h)
    &&& h != lo ==> forall|c: int| #![trigger s[c]] 0 < c < n && parent(c) == h ==> le(s[parent(h)], s[c])
}

/// Every order edge out of a slot at or after `lo` holds.
pub open spec fn heap_from<T: PartialOrd>(s: Seq<T>, n: int, lo: int) -> bool {
    forall|i: int| #![trigger s[i]] 0 < i < n && lo <= parent(i) ==> le(s[parent(i)], s[i])
}

pub proof fn lemma_swap_multiset<T>(s: Seq<T>, i: int, j: int)
    requires
        0 <= i < s.len(),
        0 <= j < s.len(),
    ensures
        s.update(i, s[j]).update(j, s[i]).to_multiset() == s.to_multiset(),
{
    let t = s.update(i, s[j]);
    assert(t.to_multiset() =~= s.to_multiset().remove(s[i]).insert(s[j]));
    assert(t[j] == (if i == j { s[j] } else { s[j] }));
    assert(t.update(j, s[i]).to_multiset() =~= t.to_multiset().remove(t[j]).insert(s[i]));
    assert(s.to_multiset().count(s[i]) > 0);
    assert(s.update(i, s[j]).update(j, s[i]).to_multiset() =~= s.to_multiset());
}

/// The root of a heap is ordered before every element.
pub proof fn lemma_heap_root_min<T: PartialOrd>(s: Seq<T>, i: int)
    requires
        total_order::<T>(),
        is_heap(s, s.len() as int),
        0 <= i < s.len(),
    ensures
        le(s[0], s[i]),
    decreases i,
{
    if i == 0 {
        lemma_le_reflexive(s[0]);
    } else {
        lemma_heap_root_min(s, parent(i));
        assert(le(s[parent(i)], s[i]));
    }
}

/// Number of halvings that bring `n` down to at most one (the floor of its
/// base-two logarithm for positive `n`).
spec fn halvings(n: nat) -> nat
    decreases n,
{
    if n <= 1 {
        0
    } else {
        1 + halvings(n / 2)
    }
}

proof fn lemma_halvings_bound(n: nat, b: nat)
    requires
        n < pow2(b + 1),
    ensures
        halvings(n) <= b,
    decreases b,
{
    vstd::arithmetic::power2::lemma_pow2_unfold(b + 1);
    if n > 1 {
        if b == 0 {
            vstd::arithmetic::power2::lemma2_to64();
        } else {
            lemma_halvings_bound(n / 2, (b - 1) as nat);
        }
    }
}

/// The floor of the base-two logarithm of `n` (0 for `n <= 1`).
fn log2_floor(n: usize) -> (k: usize)
    ensures
        k == halvings(n as nat),
        k < 64,
{
    proof {
        vstd::arithmetic::power2::lemma2_to64();
        lemma_halvings_bound(n as nat, 63);
    }
    let mut m = n;
    let mut k: usize = 0;
    while m > 1 && k < 63
        invariant
            k < 64,
            k + halvings(m as nat) == halvings(n as nat),
            halvings(n as nat) <= 63,
        decreases m,
    {
        m = m / 2;
        k = k + 1;
    }
    k
}

/// `s` after the item at `q` rises past every parent it comes before:
/// while its parent is not at most it, the two swap.
pub open spec fn sift_up<T: PartialOrd>(s: Seq<T>, q: int) -> Seq<T>
    decreases q,
{
    if q <= 0 {
        s
    } else {
        let p = (q - 1) / 2;
        if le(s[p], s[q]) {
            s
        } else {
            sift_up(s.update(p, s[q]).update(q, s[p]), p)
        }
    }
}

/// `s` (its first `n` items a heap but for the item at `p`) after that item
/// sinks: while it is not at most its lesser child (the right one only when
/// strictly less than the left), the two swap.
pub open spec fn sift_down<T: PartialOrd>(s: Seq<T>, n: int, p: int) -> Seq<T>
    decreases n - p,
{
    if p < 0 || p >= n / 2 {
        s
    } else {
        let l = 2 * p + 1;
        let r = l + 1;
        let q = if r < n && lt(s[r], s[l]) { r } else { l };
        if le(s[p], s[q]) {
            s
        } else {
            sift_down(s.update(p, s[q]).update(q, s[p]), n, q)
        }
    }
}

/// Swaps items `i` and `j` of `s` (std's `slice::swap`).
#[verifier::external_body]
pub(crate) fn swap_items<T>(s: &mut [T], i: usize, j: usize)
    requires
        i < old(s)@.len(),
        j < old(s)@.len(),
    ensures
        final(s)@ == old(s)@.update(i as int, old(s)@[j as int]).update(j as int, old(s)@[i as int]),
{
    s.swap(i, j);
}

/// Min-heap of items; the view is the multiset of queued items.
#[derive(Clone)]
pub struct PriorityQueue<T: Ord> {
    disposed: bool,
    elements: Vec<T>,
}

impl<T: Ord> View for PriorityQueue<T> {
    type V = Multiset<T>;

    closed spec fn view(&self) -> Multiset<T> {
        self.elements@.to_multiset()
    }
}

impl<T: Ord> PriorityQueue<T> {
    /// The items are heap-ordered whenever their comparison is a total order.
    pub closed spec fn wf(&self) -> bool {
        total_order::<T>() ==> is_heap(self.elements@, self.elements@.len() as int)
    }

    /// The items in storage (iteration) order.
    pub closed spec fn spec_items(&self) -> Seq<T> {
        self.elements@
    }

    pub closed spec fn spec_disposed(&self) -> bool {
        self.disposed
    }

    /// The view is the multiset of the stored items.
    pub proof fn lemma_view(&self)
        ensures
            self@ == self.spec_items().to_multiset(),
            self@.len() == self.spec_items().len(),
    {
        self.elements@.to_multiset_ensures();
    }

    pub fn new() -> (r: Self)
        ensures
            r.wf(),
            r.spec_items() == Seq::<T>::empty(),
            r@ == Multiset::<T>::empty(),
            !r.spec_disposed(),
    {
        let r = PriorityQueue { disposed: false, elements: Vec::new() };
        proof {
            assert(r.elements@.to_multiset() =~= Multiset::<T>::empty());
        }
        r
    }

    fn up_swap(&mut self, index: usize, n: usize)
        requires
            index < n <= old(self).elements@.len(),
            total_order::<T>() ==> up_inv(old(self).elements@, n as int, index as int),
        ensures
            final(self).elements@.len() == old(self).elements@.len(),
            final(self).elements@.to_multiset() == old(self).elements@.to_multiset(),
            total_order::<T>() ==> is_heap(final(self).elements@, n as int),
            forall|k: int| n <= k < old(self).elements@.len() ==> final(self).elements@[k] == old(
                self,
            ).elements@[k],
            final(self).disposed == old(self).disposed,
            comparisons_specified::<T>() ==> final(self).elements@ == sift_up(old(self).elements@, index as int),
    {
        let mut q = index;
        while q > 0
            invariant
                q < n <= self.elements@.len(),
                self.elements@.len() == old(self).elements@.len(),
                self.elements@.to_multiset() == old(self).elements@.to_multiset(),
                total_order::<T>() ==> up_inv(self.elements@, n as int, q as int),
                forall|k: int| n <= k < old(self).elements@.len() ==> self.elements@[k] == old(
                    self,
                ).elements@[k],
                self.disposed == old(self).disposed,
                comparisons_specified::<T>() ==> sift_up(self.elements@, q as int) == sift_up(old(self).elements@, index as int),
            decreases q,
        {
            let p = (q - 1) / 2;
            if self.elements[p] <= self.elements[q] {
                proof {
                    if total_order::<T>() {
                        let s = self.elements@;
                        assert forall|i: int| #![trigger s[i]] 0 < i < n implies le(s[parent(i)], s[i]) by {
                            if i == q {
                                assert(le(s[p as int], s[q as int]));
                            }
                        }
                    }
                }
                return;
            }
            let ghost s = self.elements@;
            proof {
                lemma_swap_multiset(s, p as int, q as int);
            }
            swap_items(self.elements.as_mut_slice(), p, q);
            proof {
                if total_order::<T>() {
                    let t = self.elements@;
                    assert(lt(s[q as int], s[p as int]));
                    assert(le(s[q as int], s[p as int]));
                    assert forall|i: int| #![trigger t[i]] 0 < i < n && i != p implies le(t[parent(i)], t[i]) by {
                        if i == q {
                        } else if parent(i) == q {
                            assert(le(s[parent(q as int)], s[i]));
                        } else if parent(i) == p {
                            assert(le(s[p as int], s[i]));
                            assert(le(s[q as int], s[i]));
                        } else {
                            assert(s[i] == t[i]);
                        }
                    }
                    if p > 0 {
                        assert forall|c: int| #![trigger t[c]] 0 < c < n && parent(c) == p implies le(
                            t[parent(p as int)],
                            t[c],
                        ) by {
                            assert(le(s[parent(p as int)], s[p as int]));
                            if c == q {
                            } else {
                                assert(le(s[p as int], s[c]));
                            }
                        }
                    }
                }
            }
            q = p;
        }
        proof {
            if total_order::<T>() {
                let s = self.elements@;
                assert forall|i: int| #![trigger s[i]] 0 < i < n implies le(s[parent(i)], s[i]) by {}
            }
        }
    }

    fn down_swap(&mut self, index: usize, n: usize)
        requires
            index < n <= old(self).elements@.len(),
            total_order::<T>() ==> down_inv(old(self).elements@, n as int, index as int, index as int),
        ensures
            final(self).elements@.len() == old(self).elements@.len(),
            final(self).elements@.to_multiset() == old(self).elements@.to_multiset(),
            total_order::<T>() ==> heap_from(final(self).elements@, n as int, index as int),
            forall|k: int| 0 <= k < index ==> final(self).elements@[k] == old(self).elements@[k],
            forall|k: int| n <= k < old(self).elements@.len() ==> final(self).elements@[k] == old(
                self,
            ).elements@[k],
            final(self).disposed == old(self).disposed,
            comparisons_specified::<T>() ==> final(self).elements@ == sift_down(old(self).elements@, n as int, index as int),
    {
        let mut p = index;
        while p < n
            invariant
                index <= p < n <= self.elements@.len(),
                self.elements@.len() == old(self).elements@.len(),
                self.elements@.to_multiset() == old(self).elements@.to_multiset(),
                total_order::<T>() ==> down_inv(self.elements@, n as int, index as int, p as int),
                forall|k: int| 0 <= k < index ==> self.elements@[k] == old(self).elements@[k],
                forall|k: int| n <= k < old(self).elements@.len() ==> self.elements@[k] == old(
                    self,
                ).elements@[k],
                self.disposed == old(self).disposed,
                comparisons_specified::<T>() ==> sift_down(self.elements@, n as int, p as int) == sift_down(
                    old(self).elements@, n as int, index as int),
            decreases n - p,
        {
            if p >= n / 2 {
                proof {
                    if total_order::<T>() {
                        let s = self.elements@;
                        assert forall|i: int| #![trigger s[i]] 0 < i < n && index <= parent(i) implies le(
                            s[parent(i)],
                            s[i],
                        ) by {}
                    }
                }
                return;
            }
            let left = 2 * p + 1;
            let right = left + 1;
            let mut q = left;
            if right < n && self.elements[right] < self.elements[left] {
                q = right;
            }
            let ghost s = self.elements@;
            proof {
                if total_order::<T>() {
                    lemma_le_reflexive(s[q as int]);
                    if right < n {
                        assert(lt(s[right as int], s[left as int]) <==> !le(s[left as int], s[right as int]));
                    }
                    assert(le(s[q as int], s[left as int]));
                    if right < n {
                        assert(le(s[q as int], s[right as int]));
                    }
                }
            }
            if self.elements[p] <= self.elements[q] {
                proof {
                    if total_order::<T>() {
                        assert forall|i: int| #![trigger s[i]] 0 < i < n && index <= parent(i) implies le(
                            s[parent(i)],
                            s[i],
                        ) by {
                            if parent(i) == p {
                                assert(i == left || i == right);
                                assert(le(s[p as int], s[q as int]));
                                assert(le(s[q as int], s[i]));
                            }
                        }
                    }
                }
                return;
            }
            proof {
                lemma_swap_multiset(s, p as int, q as int);
            }
            swap_items(self.elements.as_mut_slice(), p, q);
            proof {
                if total_order::<T>() {
                    let t = self.elements@;
                    assert(lt(s[q as int], s[p as int]));
                    assert(le(s[q as int], s[p as int]));
                    assert forall|i: int| #![trigger t[i]] 0 < i < n && index <= parent(i) && parent(i) != q
                        implies le(t[parent(i)], t[i]) by {
                        if i == q {
                        } else if parent(i) == p {
                            assert(i == left || i == right);
                        } else if i == p {
                            assert(le(s[parent(p as int)], s[q as int]));
                        } else {
                            assert(s[i] == t[i]);
                            assert(s[parent(i)] == t[parent(i)]);
                        }
                    }
                    assert forall|c: int| #![trigger t[c]] 0 < c < n && parent(c) == q implies le(
                        t[parent(q as int)],
                        t[c],
                    ) by {
                        assert(le(s[q as int], s[c]));
                    }
                }
            }
            p = q;
        }
    }
    fn up(&mut self, index: usize, n: usize)
        requires
            n <= old(self).elements@.len(),
            index < n ==> (total_order::<T>() ==> up_inv(old(self).elements@, n as int, index as int)),
            index >= n ==> (total_order::<T>() ==> is_heap(old(self).elements@, n as int)),
        ensures
            final(self).elements@.len() == old(self).elements@.len(),
            final(self).elements@.to_multiset() == old(self).elements@.to_multiset(),
            total_order::<T>() ==> is_heap(final(self).elements@, n as int),
            forall|k: int| n <= k < old(self).elements@.len() ==> final(self).elements@[k] == old(
                self,
            ).elements@[k],
            final(self).disposed == old(self).disposed,
            comparisons_specified::<T>() && index < n ==> final(self).elements@ == sift_up(old(self).elements@, index as int),
    {
        if index == 0 || index >= n {
            proof {
                if total_order::<T>() && index == 0 && index < n {
                    let s = self.elements@;
                    assert forall|i: int| #![trigger s[i]] 0 < i < n implies le(s[parent(i)], s[i]) by {}
                }
            }
            return;
        }
        self.up_swap(index, n);
    }

    fn down(&mut self, index: usize)
        requires
            index < old(self).elements@.len() ==> (total_order::<T>() ==> down_inv(
                old(self).elements@,
                old(self).elements@.len() as int,
                index as int,
                index as int,
            )),
        ensures
            final(self).elements@.len() == old(self).elements@.len(),
            final(self).elements@.to_multiset() == old(self).elements@.to_multiset(),
            index < old(self).elements@.len() ==> (total_order::<T>() ==> heap_from(
                final(self).elements@,
                final(self).elements@.len() as int,
                index as int,
            )),
            index >= old(self).elements@.len() ==> final(self).elements@ == old(self).elements@,
            forall|k: int| 0 <= k < index && k < old(self).elements@.len() ==> final(self).elements@[k]
                == old(self).elements@[k],
            final(self).disposed == old(self).disposed,
            comparisons_specified::<T>() ==> final(self).elements@ == sift_down(old(self).elements@,
                old(self).elements@.len() as int, index as int),
    {
        let n = self.elements.len();
        if index >= n {
            return;
        }
        self.down_swap(index, n);
    }

    /// Rebuilds the heap order bottom-up.
    fn fast_build(&mut self)
        ensures
            final(self).elements@.len() == old(self).elements@.len(),
            final(self).elements@.to_multiset() == old(self).elements@.to_multiset(),
            total_order::<T>() ==> is_heap(final(self).elements@, final(self).elements@.len() as int),
            final(self).disposed == old(self).disposed,
    {
        let n = self.elements.len();
        if n <= 1 {
            proof {
                let s = self.elements@;
                assert forall|i: int| #![trigger s[i]] 0 < i < n implies le(s[parent(i)], s[i]) by {}
            }
            return;
        }
        let last_parent = n / 2 - 1;
        let mut p = last_parent + 1;
        proof {
            let s = self.elements@;
            assert forall|i: int| #![trigger s[i]] 0 < i < n && p <= parent(i) implies le(s[parent(i)], s[i]) by {}
        }
        while p > 0
            invariant
                p <= last_parent + 1,
                last_parent == n / 2 - 1,
                n == self.elements@.len(),
                self.elements@.len() == old(self).elements@.len(),
                self.elements@.to_multiset() == old(self).elements@.to_multiset(),
                total_order::<T>() ==> heap_from(self.elements@, n as int, p as int),
                self.disposed == old(self).disposed,
            decreases p,
        {
            p = p - 1;
            proof {
                if total_order::<T>() {
                    let s = self.elements@;
                    assert forall|i: int| #![trigger s[i]] 0 < i < n && p <= parent(i) && parent(i) != p implies le(
                        s[parent(i)],
                        s[i],
                    ) by {}
                }
            }
            self.down(p);
        }
        proof {
            if total_order::<T>() {
                let s = self.elements@;
                assert forall|i: int| #![trigger s[i]] 0 < i < n implies le(s[parent(i)], s[i]) by {}
            }
        }
    }

    /// The first item: a least one whenever the order is total.
    pub fn front(&self) -> (r: Option<&T>)
        requires
            self.wf(),
        ensures
            self@.len() == 0 <==> r is None,
            r matches Some(x) ==> self@.contains(*x) && *x == self.spec_items()[0],
            r matches Some(x) ==> (total_order::<T>() ==> forall|y: T| self@.contains(y) ==> le(*x, y)),
    {
        proof {
            self.lemma_view();
        }
        if self.elements.len() == 0 {
            return None;
        }
        proof {
            self.lemma_least_first();
        }
        Some(&self.elements[0])
    }

    proof fn lemma_least_first(&self)
        requires
            self.wf(),
            self.elements@.len() > 0,
        ensures
            self@.contains(self.elements@[0]),
            total_order::<T>() ==> forall|y: T| self@.contains(y) ==> le(self.elements@[0], y),
    {
        let s = self.elements@;
        assert(s.contains(s[0]));
        if total_order::<T>() {
            assert forall|y: T| self@.contains(y) implies le(s[0], y) by {
                assert(s.contains(y));
                let i = choose|i: int| 0 <= i < s.len() && s[i] == y;
                lemma_heap_root_min(s, i);
            }
        }
    }

    /// Adds an item.
    pub fn enqueue(&mut self, element: T)
        requires
            old(self).wf(),
        ensures
            final(self).wf(),
            final(self)@ == old(self)@.insert(element),
            final(self).spec_disposed() == old(self).spec_disposed(),
            comparisons_specified::<T>() ==> final(self).spec_items() == sift_up(old(self).spec_items().push(element),
                old(self).spec_items().len() as int),
    {
        self.elements.push(element);
        let n = self.elements.len();
        let index = n - 1;
        proof {
            if total_order::<T>() {
                let s = self.elements@;
                assert forall|i: int| #![trigger s[i]] 0 < i < n && i != index implies le(s[parent(i)], s[i]) by {
                    assert(s[i] == old(self).elements@[i]);
                }
            }
        }
        self.up(index, n);
    }

    /// Removes and returns the first item (a least one whenever the order is total).
    pub fn dequeue(&mut self) -> (r: Option<T>)
        requires
            old(self).wf(),
        ensures
            final(self).wf(),
            old(self)@.len() == 0 <==> r is None,
            old(self)@.len() == 0 ==> final(self)@ == old(self)@,
            r matches Some(x) ==> old(self)@.contains(x) && final(self)@ == old(self)@.remove(x),
            r matches Some(x) ==> (total_order::<T>() ==> forall|y: T| old(self)@.contains(y) ==> le(x, y)),
            final(self).spec_disposed() == old(self).spec_disposed(),
            r matches Some(x) ==> x == old(self).spec_items()[0],
            comparisons_specified::<T>() && old(self)@.len() > 0 ==> ({
                let s = old(self).spec_items();
                let t = s.update(0, s.last()).drop_last();
                final(self).spec_items() == sift_down(t, t.len() as int, 0)
            }),
    {
        proof {
            self.lemma_view();
        }
        let n = self.elements.len();
        if n == 0 {
            return None;
        }
        proof {
            self.lemma_least_first();
        }
        if n == 1 {
            let r = self.elements.pop();
            proof {
                assert(self.elements@.to_multiset() =~= old(self).elements@.to_multiset().remove(
                    old(self).elements@[0],
                ));
            }
            return r;
        }
        let ghost s = self.elements@;
        let removed = self.elements.swap_remove(0);
        proof {
            let t = self.elements@;
            assert(t =~= s.update(0, s.last()).drop_last());
            assert(s.update(0, s.last()).to_multiset() =~= s.to_multiset().remove(s[0]).insert(s.last()));
            assert(s.update(0, s.last()) =~= t.push(s.last()));
            assert(t.push(s.last()).to_multiset() =~= t.to_multiset().insert(s.last()));
            assert forall|x: T| #[trigger] t.to_multiset().count(x) == s.to_multiset().remove(s[0]).count(x) by {
                assert(t.push(s.last()).to_multiset().count(x) == s.update(0, s.last()).to_multiset().count(x));
            }
            assert(t.to_multiset() =~= s.to_multiset().remove(s[0]));
            if total_order::<T>() {
                assert forall|i: int| #![trigger t[i]] 0 < i < n - 1 && 0 <= parent(i) && parent(i) != 0 implies le(
                    t[parent(i)],
                    t[i],
                ) by {
                    assert(t[i] == s[i]);
                    assert(t[parent(i)] == s[parent(i)]);
                }
            }
        }
        self.down(0);
        Some(removed)
    }

    /// Replaces the first item with `new_back` and returns it; on an empty
    /// queue `new_back` is added and `None` returned.
    pub fn replace_front(&mut self, new_back: T) -> (r: Option<T>)
        requires
            old(self).wf(),
        ensures
            final(self).wf(),
            old(self)@.len() == 0 <==> r is None,
            old(self)@.len() == 0 ==> final(self)@ == old(self)@.insert(new_back),
            r matches Some(x) ==> old(self)@.contains(x) && final(self)@ == old(self)@.remove(x).insert(
                new_back,
            ),
            r matches Some(x) ==> (total_order::<T>() ==> forall|y: T| old(self)@.contains(y) ==> le(x, y)),
            final(self).spec_disposed() == old(self).spec_disposed(),
            r matches Some(x) ==> x == old(self).spec_items()[0],
            old(self)@.len() == 0 ==> final(self).spec_items() == seq![new_back],
            comparisons_specified::<T>() && old(self)@.len() > 0 ==> final(self).spec_items() == sift_down(
                old(self).spec_items().update(0, new_back), old(self).spec_items().len() as int, 0),
    {
        proof {
            self.lemma_view();
        }
        if self.elements.len() == 0 {
            self.elements.push(new_back);
            proof {
                assert(self.elements@ =~= old(self).elements@.push(new_back));
            }
            return None;
        }
        proof {
            self.lemma_least_first();
        }
        let ghost s = self.elements@;
        let mut removed = new_back;
        std::mem::swap(&mut self.elements[0], &mut removed);
        proof {
            let t = self.elements@;
            assert(t =~= s.update(0, new_back));
            if total_order::<T>() {
                assert forall|i: int| #![trigger t[i]] 0 < i < t.len() && 0 <= parent(i) && parent(i) != 0 implies le(
                    t[parent(i)],
                    t[i],
                ) by {
                    assert(t[i] == s[i]);
                    assert(t[parent(i)] == s[parent(i)]);
                }
            }
        }
        self.down(0);
        Some(removed)
    }

    /// Adds every item of `elements`; a large batch is heapified in one pass.
    pub fn enqueues(&mut self, elements: Vec<T>)
        requires
            old(self).wf(),
        ensures
            final(self).wf(),
            final(self)@ == old(self)@.add(elements@.to_multiset()),
            final(self).spec_disposed() == old(self).spec_disposed(),
    {
        let size = self.elements.len();
        let mut elements = elements;
        let ghost added = elements@;
        self.elements.append(&mut elements);
        proof {
            vstd::seq_lib::lemma_multiset_commutative(old(self).elements@, added);
            assert(self.elements@ =~= old(self).elements@ + added);
        }
        let next_size = self.elements.len();
        if next_size == size {
            proof {
                assert(added.len() == 0);
                assert(added.to_multiset() =~= Multiset::<T>::empty());
                assert(self.elements@ =~= old(self).elements@);
            }
            return;
        }
        let new_added = next_size - size;
        let depth = log2_floor(next_size);
        let weight = new_added as u128;
        proof {
            assert(weight * (depth as u128) <= 0xffff_ffff_ffff_ffffu128 * 64) by (nonlinear_arith)
                requires
                    weight <= 0xffff_ffff_ffff_ffffu128,
                    depth < 64,
            ;
        }
        if weight * (depth as u128) > next_size as u128 {
            self.fast_build();
        } else {
            let mut i = size;
            proof {
                if total_order::<T>() {
                    let s = self.elements@;
                    assert forall|k: int| #![trigger s[k]] 0 < k < size implies le(s[parent(k)], s[k]) by {
                        assert(s[k] == old(self).elements@[k]);
                        assert(s[parent(k)] == old(self).elements@[parent(k)]);
                    }
                }
            }
            while i < next_size
                invariant
                    size <= i <= next_size,
                    next_size == self.elements@.len(),
                    self.elements@.to_multiset() == (old(self).elements@ + added).to_multiset(),
                    total_order::<T>() ==> is_heap(self.elements@, i as int),
                    self.disposed == old(self).disposed,
                decreases next_size - i,
            {
                proof {
                    if total_order::<T>() {
                        let s = self.elements@;
                        assert forall|k: int| #![trigger s[k]] 0 < k < i + 1 && k != i implies le(s[parent(k)], s[k]) by {}
                    }
                }
                self.up(i, i + 1);
                i = i + 1;
            }
        }
    }
    /// Keeps the items on which `f` answers `true`; returns how many were removed.
    pub fn retain<F: Fn(&T) -> bool>(&mut self, f: F) -> (removed: usize)
        requires
            old(self).wf(),
            forall|x: &T| #[trigger] f.requires((x,)),
        ensures
            final(self).wf(),
            exists|keep: Seq<bool>|
                predicate_answers(f, old(self).spec_items(), keep) && final(self)@ == filter_kept(
                    old(self).spec_items(),
                    keep,
                ).to_multiset(),
            removed == old(self)@.len() - final(self)@.len(),
            final(self).spec_disposed() == old(self).spec_disposed(),
    {
        proof {
            self.lemma_view();
        }
        let before = self.elements.len();
        if before == 0 {
            proof {
                let keep = Seq::<bool>::empty();
                assert(predicate_answers(f, old(self).spec_items(), keep));
                assert(filter_kept(old(self).spec_items(), keep) =~= old(self).spec_items());
            }
            return 0;
        }
        let ghost s = self.elements@;
        let mut taken: Vec<T> = Vec::new();
        std::mem::swap(&mut taken, &mut self.elements);
        let mut rev = reversed(taken);
        let mut kept: Vec<T> = Vec::new();
        let ghost mut keep: Seq<bool> = Seq::empty();
        while rev.len() > 0
            invariant
                rev@.len() <= s.len(),
                forall|j: int| 0 <= j < rev@.len() ==> #[trigger] rev@[j] == s[s.len() - 1 - j],
                keep.len() == s.len() - rev@.len(),
                predicate_answers(f, s.subrange(0, s.len() - rev@.len()), keep),
                kept@ == filter_kept(s.subrange(0, s.len() - rev@.len()), keep),
                forall|x: &T| #[trigger] f.requires((x,)),
            decreases rev@.len(),
        {
            let ghost k: int = s.len() - rev@.len();
            let item = match rev.pop() {
                Some(item) => item,
                None => unreached(),
            };
            let keep_it = f(&item);
            proof {
                let prefix = s.subrange(0, k);
                assert(s.subrange(0, k + 1) =~= prefix.push(s[k]));
                lemma_filter_kept_push(prefix, keep, s[k], keep_it);
                keep = keep.push(keep_it);
                assert forall|i: int| 0 <= i < k + 1 implies call_ensures(
                    f,
                    (&s.subrange(0, k + 1)[i],),
                    #[trigger] keep[i],
                ) by {
                    if i < k {
                        assert(s.subrange(0, k + 1)[i] == prefix[i]);
                    }
                }
            }
            if keep_it {
                kept.push(item);
            }
        }
        proof {
            assert(s.subrange(0, s.len() as int) =~= s);
            lemma_filter_kept_len(s, keep);
        }
        self.elements = kept;
        let removed = before - self.elements.len();
        if removed > 0 {
            self.fast_build();
        } else {
            proof {
                if total_order::<T>() {
                    lemma_filter_kept_all_when_same_len(s, keep);
                }
            }
        }
        proof {
            self.lemma_view();
        }
        removed
    }

    /// Removes every item.
    pub fn clear(&mut self)
        ensures
            final(self).wf(),
            final(self)@ == Multiset::<T>::empty(),
            final(self).spec_items() == Seq::<T>::empty(),
            final(self).spec_disposed() == old(self).spec_disposed(),
    {
        self.elements.clear();
        proof {
            assert(self.elements@.to_multiset() =~= Multiset::<T>::empty());
        }
    }

    pub fn size(&self) -> (n: usize)
        ensures
            n == self@.len(),
    {
        proof {
            self.lemma_view();
        }
        self.elements.len()
    }

    pub fn is_empty(&self) -> (b: bool)
        ensures
            b == (self@.len() == 0),
    {
        self.size() == 0
    }

    /// Number of items on which `filter` answers `true`.
    pub fn count<F: Fn(&T) -> bool>(&self, filter: F) -> (n: usize)
        requires
            forall|x: &T| #[trigger] filter.requires((x,)),
        ensures
            exists|keep: Seq<bool>|
                predicate_answers(filter, self.spec_items(), keep) && n == filter_kept(self.spec_items(), keep).len(),
    {
        let mut n: usize = 0;
        let mut i: usize = 0;
        let ghost s = self.elements@;
        let ghost mut keep: Seq<bool> = Seq::empty();
        while i < self.elements.len()
            invariant
                s == self.elements@,
                forall|x: &T| #[trigger] filter.requires((x,)),
                i <= s.len(),
                keep.len() == i,
                predicate_answers(filter, s.subrange(0, i as int), keep),
                n == filter_kept(s.subrange(0, i as int), keep).len(),
                n <= i,
            decreases s.len() - i,
        {
            let b = filter(&self.elements[i]);
            proof {
                let prefix = s.subrange(0, i as int);
                assert(s.subrange(0, i + 1) =~= prefix.push(s[i as int]));
                lemma_filter_kept_push(prefix, keep, s[i as int], b);
                keep = keep.push(b);
                assert forall|k: int| 0 <= k < i + 1 implies call_ensures(
                    filter,
                    (&s.subrange(0, i + 1)[k],),
                    #[trigger] keep[k],
                ) by {
                    if k < i {
                        assert(s.subrange(0, i + 1)[k] == prefix[k]);
                    }
                }
            }
            if b {
                n = n + 1;
            }
            i = i + 1;
        }
        proof {
            assert(s.subrange(0, s.len() as int) =~= s);
            assert(predicate_answers(filter, self.spec_items(), keep));
        }
        n
    }

    /// References to the items in storage order (not sorted).
    pub fn iter(&self) -> (r: Vec<&T>)
        ensures
            r@.len() == self.spec_items().len(),
            forall|i: int| 0 <= i < r@.len() ==> *r@[i] == self.spec_items()[i],
    {
        let mut r: Vec<&T> = Vec::new();
        let mut i: usize = 0;
        while i < self.elements.len()
            invariant
                i <= self.elements@.len(),
                r@.len() == i,
                forall|j: int| 0 <= j < i ==> *r@[j] == self.elements@[j],
            decreases self.elements@.len() - i,
        {
            r.push(&self.elements[i]);
            i = i + 1;
        }
        r
    }

    /// Clones of the items in storage order (not sorted).
    pub fn collect(&self) -> (r: Vec<T>) where T: Clone
        ensures
            r@.len() == self.spec_items().len(),
            forall|i: int| 0 <= i < r@.len() ==> cloned::<T>(self.spec_items()[i], #[trigger] r@[i]),
    {
        let mut r: Vec<T> = Vec::new();
        let mut i: usize = 0;
        while i < self.elements.len()
            invariant
                i <= self.elements@.len(),
                r@.len() == i,
                forall|j: int| 0 <= j < i ==> cloned::<T>(self.elements@[j], #[trigger] r@[j]),
            decreases self.elements@.len() - i,
        {
            r.push(self.elements[i].clone());
            i = i + 1;
        }
        r
    }

    /// Marks the queue disposed and removes every item.
    pub fn dispose(&mut self)
        ensures
            final(self).wf(),
            final(self)@ == Multiset::<T>::empty(),
            final(self).spec_disposed(),
    {
        self.disposed = true;
        self.clear();
    }

    pub fn is_disposed(&self) -> (b: bool)
        ensures
            b == self.spec_disposed(),
    {
        self.disposed
    }
}

impl<T: Ord> Disposable for PriorityQueue<T> {
    open spec fn well_formed(&self) -> bool {
        self.wf()
    }

    fn dispose(&mut self)
        ensures
            final(self).wf(),
            final(self)@ == Multiset::<T>::empty(),
            final(self).spec_disposed(),
    {
        PriorityQueue::dispose(self)
    }

    fn is_disposed(&self) -> (b: bool)
        ensures
            b == self.spec_disposed(),
    {
        PriorityQueue::is_disposed(self)
    }
}

impl<T: Ord> Collection for PriorityQueue<T> {
    type Item = T;

    open spec fn spec_size(&self) -> nat {
        self@.len()
    }

    fn size(&self) -> (n: usize)
        ensures
            n == self@.len(),
    {
        PriorityQueue::size(self)
    }

    fn clear(&mut self)
        ensures
            final(self).wf(),
            final(self)@ == Multiset::<T>::empty(),
            final(self).spec_items() == Seq::<T>::empty(),
            final(self).spec_disposed() == old(self).spec_disposed(),
    {
        PriorityQueue::clear(self)
    }

    fn collect(&self) -> (r: Vec<T>) where T: Clone
        ensures
            r@.len() == self.spec_items().len(),
            forall|i: int| 0 <= i < r@.len() ==> cloned::<T>(self.spec_items()[i], #[trigger] r@[i]),
    {
        PriorityQueue::collect(self)
    }
}

} // verus!
