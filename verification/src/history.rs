//! Bounded undo/redo history on a circular stack: a cursor (`present`) walks
//! the recorded states; recording a new state drops the states after it.
use vstd::prelude::*;
use crate::circular_stack::CircularStack;
use crate::error::HistoryError;
use crate::ring::{keep_last, filter_kept, lemma_filter_kept_push, lemma_filter_kept_len};
use vstd::std_specs::cmp::PartialEqSpec;

verus! {

/// How a history decides that two states are the same.
pub trait Equivalence<T>: Sized {
    /// `equals` may be called.
    spec fn ready(&self) -> bool;

    /// `r` is a possible answer of `equals` on `a` and `b`.
    spec fn answers(&self, a: T, b: T, r: bool) -> bool;

    fn equals(&self, a: &T, b: &T) -> (r: bool)
        requires
            self.ready(),
        ensures
            self.answers(*a, *b, r),
    ;

    /// A copy that decides in the same way.
    fn duplicate(&self) -> (r: Self)
        requires
            self.ready(),
        ensures
            r.ready(),
            forall|a: T, b: T, x: bool| r.answers(a, b, x) == self.answers(a, b, x),
    ;
}

/// Equality by the states' own `==`.
#[derive(Clone, Copy)]
pub struct DefaultEquals;

impl<T: PartialEq> Equivalence<T> for DefaultEquals {
    open spec fn ready(&self) -> bool {
        true
    }

    open spec fn answers(&self, a: T, b: T, r: bool) -> bool {
        T::obeys_eq_spec() ==> r == a.eq_spec(&b)
    }

    fn equals(&self, a: &T, b: &T) -> (r: bool) {
        *a == *b
    }

    fn duplicate(&self) -> (r: Self) {
        DefaultEquals
    }
}

/// Equality by a caller-supplied predicate.
#[derive(Clone, Copy)]
pub struct FnEquals<F> {
    f: F,
}

impl<T, F: Fn(&T, &T) -> bool + Copy> Equivalence<T> for FnEquals<F> {
    closed spec fn ready(&self) -> bool {
        forall|a: &T, b: &T| #[trigger] self.f.requires((a, b))
    }

    closed spec fn answers(&self, a: T, b: T, r: bool) -> bool {
        call_ensures(self.f, (&a, &b), r)
    }

    fn equals(&self, a: &T, b: &T) -> (r: bool) {
        (self.f)(a, b)
    }

    fn duplicate(&self) -> (r: Self) {
        FnEquals { f: self.f }
    }
}

/// `value` clamped to `[low, high]` (for `low <= high`).
pub open spec fn clamp_int(value: int, low: int, high: int) -> int {
    if value < low {
        low
    } else if value > high {
        high
    } else {
        value
    }
}

/// States and cursor after recording `element`: an equal current state is
/// kept; an equal next state becomes current; otherwise the states after the
/// cursor are dropped and `element` is recorded on top (the oldest state
/// leaves a full history).
pub open spec fn push_outcome<T>(
    states: Seq<T>,
    present: int,
    element: T,
    eq_cur: bool,
    eq_next: bool,
    cap: nat,
) -> (Seq<T>, int) {
    if 0 <= present < states.len() && eq_cur {
        (states, present)
    } else if present + 1 < states.len() && eq_next {
        (states, present + 1)
    } else {
        let kept = keep_last(states.subrange(0, present + 1).push(element), cap);
        (kept, kept.len() - 1)
    }
}

/// `eq_cur` and `eq_next` are possible answers of `equals` on `element` and,
/// respectively, the current state and (when it is consulted) the next one.
pub open spec fn push_answered<T, E: Equivalence<T>>(
    equals: E,
    states: Seq<T>,
    present: int,
    element: T,
    eq_cur: bool,
    eq_next: bool,
) -> bool {
    &&& 0 <= present < states.len() ==> equals.answers(element, states[present], eq_cur)
    &&& present + 1 < states.len() && !(0 <= present && eq_cur) ==> equals.answers(
        element,
        states[present + 1],
        eq_next,
    )
}

/// Cursor after filtering with flags `keep`: the last kept state at or below
/// the old cursor, else the first state; `-1` when nothing is kept.
pub open spec fn rearranged_present<T>(states: Seq<T>, keep: Seq<bool>, present: int) -> int {
    let kept = filter_kept(states, keep);
    if kept.len() == 0 {
        -1
    } else {
        let below = filter_kept(states.subrange(0, present + 1), keep.subrange(0, present + 1)).len();
        if below > 0 {
            below - 1
        } else {
            0
        }
    }
}

/// Index of the last kept state among the first `upto` states, when one is kept.
pub open spec fn below_present<T>(states: Seq<T>, keep: Seq<bool>, upto: int) -> Option<usize> {
    let below = filter_kept(states.subrange(0, upto), keep.subrange(0, upto)).len();
    if below > 0 {
        Some((below - 1) as usize)
    } else {
        None
    }
}

proof fn lemma_filter_kept_prefix<T>(s: Seq<T>, keep: Seq<bool>, m: int)
    requires
        keep.len() == s.len(),
        0 <= m <= s.len(),
    ensures
        filter_kept(s.subrange(0, m), keep.subrange(0, m)).len() <= filter_kept(s, keep).len(),
        filter_kept(s.subrange(0, m), keep.subrange(0, m)) == filter_kept(s, keep).subrange(
            0,
            filter_kept(s.subrange(0, m), keep.subrange(0, m)).len() as int,
        ),
    decreases s.len(),
{
    if m == s.len() {
        assert(s.subrange(0, m) =~= s);
        assert(keep.subrange(0, m) =~= keep);
        assert(filter_kept(s, keep).subrange(0, filter_kept(s, keep).len() as int) =~= filter_kept(s, keep));
    } else {
        lemma_filter_kept_prefix(s.drop_last(), keep.drop_last(), m);
        assert(s.drop_last().subrange(0, m) =~= s.subrange(0, m));
        assert(keep.drop_last().subrange(0, m) =~= keep.subrange(0, m));
        let f = filter_kept(s.drop_last(), keep.drop_last());
        let l = filter_kept(s.subrange(0, m), keep.subrange(0, m)).len() as int;
        if keep.last() {
            assert(f.push(s.last()).subrange(0, l) =~= f.subrange(0, l));
        }
    }
}

proof fn lemma_filter_kept_skip<T>(s: Seq<T>, keep: Seq<bool>, a: int, m: int)
    requires
        keep.len() == s.len(),
        0 <= a <= m <= s.len(),
        forall|j: int| a <= j < m ==> !keep[j],
    ensures
        filter_kept(s.subrange(0, m), keep.subrange(0, m)) == filter_kept(s.subrange(0, a), keep.subrange(0, a)),
    decreases m - a,
{
    if m > a {
        lemma_filter_kept_skip(s, keep, a, m - 1);
        assert(s.subrange(0, m).drop_last() =~= s.subrange(0, m - 1));
        assert(keep.subrange(0, m).drop_last() =~= keep.subrange(0, m - 1));
    }
}

proof fn lemma_filter_kept_through<T>(s: Seq<T>, keep: Seq<bool>, i: int)
    requires
        keep.len() == s.len(),
        0 <= i < s.len(),
        keep[i],
    ensures
        filter_kept(s.subrange(0, i + 1), keep.subrange(0, i + 1)) == filter_kept(
            s.subrange(0, i),
            keep.subrange(0, i),
        ).push(s[i]),
{
    assert(s.subrange(0, i + 1).drop_last() =~= s.subrange(0, i));
    assert(keep.subrange(0, i + 1).drop_last() =~= keep.subrange(0, i));
}

/// Rearranging puts the cursor on the last kept state at or below it: with
/// `i` that state, the new cursor holds `states[i]`, and the states up to the
/// new cursor are exactly those kept among `states[0..=i]`.
pub proof fn lemma_rearrange_cursor_on_last_kept<T>(states: Seq<T>, keep: Seq<bool>, present: int, i: int)
    requires
        keep.len() == states.len(),
        0 <= i <= present < states.len(),
        keep[i],
        forall|j: int| i < j <= present ==> !keep[j],
    ensures
        ({
            let kept = filter_kept(states, keep);
            let p = rearranged_present(states, keep, present);
            &&& 0 <= p < kept.len()
            &&& kept[p] == states[i]
            &&& kept.subrange(0, p + 1) == filter_kept(states.subrange(0, i + 1), keep.subrange(0, i + 1))
        }),
{
    lemma_filter_kept_skip(states, keep, i + 1, present + 1);
    lemma_filter_kept_through(states, keep, i);
    lemma_filter_kept_prefix(states, keep, i + 1);
    let f = filter_kept(states.subrange(0, i + 1), keep.subrange(0, i + 1));
    let kept = filter_kept(states, keep);
    assert(f[f.len() - 1] == states[i]);
    assert(kept.subrange(0, f.len() as int)[f.len() - 1] == kept[f.len() - 1]);
}

/// When no state at or below the cursor is kept, the cursor goes to the
/// oldest kept state, index 0: with `i` the first kept state, the new cursor
/// holds `states[i]`.
pub proof fn lemma_rearrange_cursor_on_first_kept<T>(states: Seq<T>, keep: Seq<bool>, present: int, i: int)
    requires
        keep.len() == states.len(),
        -1 <= present < i < states.len(),
        keep[i],
        forall|j: int| 0 <= j < i ==> !keep[j],
    ensures
        filter_kept(states, keep).len() > 0,
        rearranged_present(states, keep, present) == 0,
        filter_kept(states, keep)[0] == states[i],
{
    lemma_filter_kept_skip(states, keep, 0, present + 1);
    lemma_filter_kept_skip(states, keep, 0, i);
    assert(states.subrange(0, 0) =~= Seq::<T>::empty());
    assert(filter_kept(states.subrange(0, 0), keep.subrange(0, 0)) == Seq::<T>::empty());
    lemma_filter_kept_through(states, keep, i);
    lemma_filter_kept_prefix(states, keep, i + 1);
    let kept = filter_kept(states, keep);
    assert(kept.subrange(0, 1)[0] == kept[0]);
}

/// When no state is kept, the history is left empty with the cursor at `-1`.
pub proof fn lemma_rearrange_nothing_kept<T>(states: Seq<T>, keep: Seq<bool>, present: int)
    requires
        keep.len() == states.len(),
        forall|j: int| 0 <= j < keep.len() ==> !keep[j],
    ensures
        filter_kept(states, keep).len() == 0,
        rearranged_present(states, keep, present) == -1,
{
    crate::ring::lemma_filter_kept_none(states, keep);
}

/// `keep[i]` is a possible answer of `filter` on the `i`-th state and index `i`.
pub open spec fn indexed_answers<T, F: Fn(&T, usize) -> bool>(filter: F, s: Seq<T>, keep: Seq<bool>) -> bool {
    &&& keep.len() == s.len()
    &&& forall|i: int| 0 <= i < s.len() ==> call_ensures(filter, (&s[i], i as usize), #[trigger] keep[i])
}

/// `value` clamped to `[low, high]`.
fn clamp_i128(value: i128, low: i128, high: i128) -> (r: i128)
    requires
        low <= high,
    ensures
        r == clamp_int(value as int, low as int, high as int),
{
    if value < low {
        low
    } else if value > high {
        high
    } else {
        value
    }
}

/// A bounded history of states with a cursor on the current one.
pub struct History<T, E = DefaultEquals> {
    name: String,
    equals: E,
    stack: CircularStack<T>,
    present: isize,
}

impl<T, E: Equivalence<T>> History<T, E> {
    /// The history is consistent: the cursor names a state, or is `-1` when
    /// there is none.
    pub closed spec fn wf(&self) -> bool {
        &&& self.stack.wf()
        &&& self.equals.ready()
        &&& self.stack.spec_capacity() <= isize::MAX
        &&& self.stack@.len() == 0 ==> self.present == -1
        &&& self.stack@.len() > 0 ==> 0 <= self.present < self.stack@.len()
    }

    /// The recorded states from the oldest to the newest.
    pub closed spec fn spec_states(&self) -> Seq<T> {
        self.stack@
    }

    /// Index of the current state from the oldest, `-1` when empty.
    pub closed spec fn spec_present(&self) -> int {
        self.present as int
    }

    pub closed spec fn spec_capacity(&self) -> nat {
        self.stack.spec_capacity()
    }

    pub closed spec fn spec_name(&self) -> Seq<char> {
        self.name@
    }

    pub closed spec fn spec_equals(&self) -> E {
        self.equals
    }

    /// The cursor names a state exactly when there is one, and the states fit
    /// the capacity.
    pub proof fn lemma_cursor(&self)
        requires
            self.wf(),
        ensures
            self.spec_states().len() <= self.spec_capacity(),
            self.spec_states().len() == 0 <==> self.spec_present() == -1,
            self.spec_states().len() > 0 ==> 0 <= self.spec_present() < self.spec_states().len(),
    {
        self.stack.lemma_bounds();
    }

    pub fn name(&self) -> (r: &str)
        ensures
            r@ == self.spec_name(),
    {
        self.name.as_str()
    }

    pub fn capacity(&self) -> (n: usize)
        requires
            self.wf(),
        ensures
            n == self.spec_capacity(),
    {
        self.stack.capacity()
    }

    pub fn size(&self) -> (n: usize)
        requires
            self.wf(),
        ensures
            n == self.spec_states().len(),
    {
        self.stack.size()
    }

    /// Whether the history's equivalence considers `a` and `b` the same.
    pub fn equals(&self, a: &T, b: &T) -> (r: bool)
        requires
            self.wf(),
        ensures
            self.spec_equals().answers(*a, *b, r),
    {
        self.equals.equals(a, b)
    }

    /// The newest state.
    pub fn top(&self) -> (r: Option<&T>)
        requires
            self.wf(),
        ensures
            self.spec_states().len() == 0 ==> r is None,
            self.spec_states().len() > 0 ==> r == Some(&self.spec_states().last()),
    {
        self.stack.top()
    }

    /// Number of states on which `filter` answers `true`.
    pub fn count<F: Fn(&T) -> bool>(&self, filter: F) -> (n: usize)
        requires
            self.wf(),
            forall|x: &T| #[trigger] filter.requires((x,)),
        ensures
            exists|keep: Seq<bool>|
                crate::ring::predicate_answers(filter, self.spec_states(), keep) && n == filter_kept(
                    self.spec_states(),
                    keep,
                ).len(),
    {
        let n = self.stack.count(filter);
        proof {
            let keep = choose|keep: Seq<bool>|
                crate::ring::predicate_answers(filter, self.stack@, keep) && n == filter_kept(self.stack@, keep).len();
            assert(crate::ring::predicate_answers(filter, self.spec_states(), keep));
        }
        n
    }

    /// The cursor is on the oldest state (or there is none).
    pub fn is_bot(&self) -> (b: bool)
        requires
            self.wf(),
        ensures
            b == (self.spec_states().len() == 0 || self.spec_present() == 0),
    {
        self.stack.is_empty() || self.present == 0
    }

    /// The cursor is on the newest state (or there is none).
    pub fn is_top(&self) -> (b: bool)
        requires
            self.wf(),
        ensures
            b == (self.spec_states().len() == 0 || self.spec_present() + 1 == self.spec_states().len()),
    {
        proof {
            self.stack.lemma_bounds();
        }
        let size = self.stack.size();
        size == 0 || self.present + 1 == size as isize
    }

    /// The current state and its index (`(None, -1)` when empty).
    pub fn present(&self) -> (r: (Option<&T>, isize))
        requires
            self.wf(),
        ensures
            r.1 == self.spec_present(),
            self.spec_states().len() == 0 ==> r.0 is None,
            self.spec_states().len() > 0 ==> r.0 == Some(&self.spec_states()[self.spec_present()]),
    {
        if self.stack.is_empty() {
            return (None, -1);
        }
        (self.stack.at(self.present), self.present)
    }
    /// Moves the cursor `step` states towards the oldest (clamped); returns the
    /// new current state and whether the cursor is on the oldest state.
    pub fn backward_by(&mut self, step: isize) -> (r: (Option<&T>, bool))
        requires
            old(self).wf(),
        ensures
            final(self).wf(),
            final(self).spec_states() == old(self).spec_states(),
            final(self).spec_capacity() == old(self).spec_capacity(),
            final(self).spec_name() == old(self).spec_name(),
            final(self).spec_equals() == old(self).spec_equals(),
            old(self).spec_states().len() == 0 ==> r == (None::<&T>, true) && final(self).spec_present()
                == old(self).spec_present(),
            old(self).spec_states().len() > 0 ==> {
                &&& final(self).spec_present() == clamp_int(
                    old(self).spec_present() - step,
                    0,
                    old(self).spec_states().len() - 1,
                )
                &&& r.0 == Some(&final(self).spec_states()[final(self).spec_present()])
                &&& r.1 == (final(self).spec_present() < 1)
            },
    {
        proof {
            self.stack.lemma_bounds();
        }
        let size = self.stack.size();
        if size == 0 {
            return (None, true);
        }
        let high = (size - 1) as isize;
        let next = clamp_i128(self.present as i128 - step as i128, 0, high as i128);
        self.present = next as isize;
        (self.stack.at(self.present), self.present < 1)
    }

    /// Moves the cursor one state towards the oldest.
    pub fn backward(&mut self) -> (r: (Option<&T>, bool))
        requires
            old(self).wf(),
        ensures
            final(self).wf(),
            final(self).spec_states() == old(self).spec_states(),
            final(self).spec_capacity() == old(self).spec_capacity(),
            final(self).spec_name() == old(self).spec_name(),
            final(self).spec_equals() == old(self).spec_equals(),
            old(self).spec_states().len() == 0 ==> r == (None::<&T>, true) && final(self).spec_present()
                == old(self).spec_present(),
            old(self).spec_states().len() > 0 ==> {
                &&& final(self).spec_present() == clamp_int(
                    old(self).spec_present() - 1,
                    0,
                    old(self).spec_states().len() - 1,
                )
                &&& r.0 == Some(&final(self).spec_states()[final(self).spec_present()])
                &&& r.1 == (final(self).spec_present() < 1)
            },
    {
        self.backward_by(1)
    }

    /// Moves the cursor `step` states towards the newest (clamped); returns the
    /// new current state and whether the cursor is on the newest state.
    pub fn forward_by(&mut self, step: isize) -> (r: (Option<&T>, bool))
        requires
            old(self).wf(),
        ensures
            final(self).wf(),
            final(self).spec_states() == old(self).spec_states(),
            final(self).spec_capacity() == old(self).spec_capacity(),
            final(self).spec_name() == old(self).spec_name(),
            final(self).spec_equals() == old(self).spec_equals(),
            old(self).spec_states().len() == 0 ==> r == (None::<&T>, true) && final(self).spec_present()
                == old(self).spec_present(),
            old(self).spec_states().len() > 0 ==> {
                &&& final(self).spec_present() == clamp_int(
                    old(self).spec_present() + step,
                    0,
                    old(self).spec_states().len() - 1,
                )
                &&& r.0 == Some(&final(self).spec_states()[final(self).spec_present()])
                &&& r.1 == (final(self).spec_present() + 1 == final(self).spec_states().len())
            },
    {
        proof {
            self.stack.lemma_bounds();
        }
        let size = self.stack.size();
        if size == 0 {
            return (None, true);
        }
        let high = (size - 1) as isize;
        let next = clamp_i128(self.present as i128 + step as i128, 0, high as i128);
        self.present = next as isize;
        (self.stack.at(self.present), self.present + 1 == self.stack.size() as isize)
    }

    /// Moves the cursor one state towards the newest.
    pub fn forward(&mut self) -> (r: (Option<&T>, bool))
        requires
            old(self).wf(),
        ensures
            final(self).wf(),
            final(self).spec_states() == old(self).spec_states(),
            final(self).spec_capacity() == old(self).spec_capacity(),
            final(self).spec_name() == old(self).spec_name(),
            final(self).spec_equals() == old(self).spec_equals(),
            old(self).spec_states().len() == 0 ==> r == (None::<&T>, true) && final(self).spec_present()
                == old(self).spec_present(),
            old(self).spec_states().len() > 0 ==> {
                &&& final(self).spec_present() == clamp_int(
                    old(self).spec_present() + 1,
                    0,
                    old(self).spec_states().len() - 1,
                )
                &&& r.0 == Some(&final(self).spec_states()[final(self).spec_present()])
                &&& r.1 == (final(self).spec_present() + 1 == final(self).spec_states().len())
            },
    {
        self.forward_by(1)
    }

    /// Moves the cursor to `index` (clamped) and returns the current state.
    pub fn go(&mut self, index: isize) -> (r: Option<&T>)
        requires
            old(self).wf(),
        ensures
            final(self).wf(),
            final(self).spec_states() == old(self).spec_states(),
            final(self).spec_capacity() == old(self).spec_capacity(),
            final(self).spec_name() == old(self).spec_name(),
            final(self).spec_equals() == old(self).spec_equals(),
            old(self).spec_states().len() == 0 ==> r is None && final(self).spec_present() == old(
                self,
            ).spec_present(),
            old(self).spec_states().len() > 0 ==> final(self).spec_present() == clamp_int(
                index as int,
                0,
                old(self).spec_states().len() - 1,
            ) && r == Some(&final(self).spec_states()[final(self).spec_present()]),
    {
        proof {
            self.stack.lemma_bounds();
        }
        let size = self.stack.size();
        if size == 0 {
            return None;
        }
        self.present = clamp_i128(index as i128, 0, (size - 1) as i128) as isize;
        self.stack.at(self.present)
    }
    /// Records `element` as the current state (see `push_outcome`); `eq_cur`
    /// and `eq_next` are the equivalence's answers on the current and the
    /// next state, where asked.
    pub fn push(&mut self, element: T) -> (r: &mut Self)
        requires
            old(self).wf(),
        ensures
            r.wf(),
            *final(self) == *final(r),
            r.spec_capacity() == old(self).spec_capacity(),
            r.spec_name() == old(self).spec_name(),
            r.spec_equals() == old(self).spec_equals(),
            exists|eq_cur: bool, eq_next: bool|
                push_answered(
                    old(self).spec_equals(),
                    old(self).spec_states(),
                    old(self).spec_present(),
                    element,
                    eq_cur,
                    eq_next,
                ) && push_outcome(
                    old(self).spec_states(),
                    old(self).spec_present(),
                    element,
                    eq_cur,
                    eq_next,
                    old(self).spec_capacity(),
                ) == (r.spec_states(), r.spec_present()),
    {
        proof {
            self.stack.lemma_bounds();
        }
        let present = self.present;
        let ghost states = self.stack@;
        let ghost mut eq_cur = false;
        let ghost mut eq_next = false;
        let size = self.stack.size();
        if let Some(current) = self.stack.at(present) {
            let same = self.equals.equals(&element, current);
            proof {
                eq_cur = same;
            }
            if same {
                proof {
                    assert(push_answered(old(self).spec_equals(), old(self).spec_states(), old(self).spec_present(), element, eq_cur, eq_next));
                    assert(push_outcome(old(self).spec_states(), old(self).spec_present(), element, eq_cur, eq_next, old(self).spec_capacity())
                        == (self.spec_states(), self.spec_present()));
                }
                return self;
            }
        }
        if present + 1 < size as isize {
            if let Some(next) = self.stack.at(present + 1) {
                let same = self.equals.equals(&element, next);
                proof {
                    eq_next = same;
                }
                if same {
                    self.present = self.present + 1;
                    proof {
                        assert(push_answered(old(self).spec_equals(), old(self).spec_states(), old(self).spec_present(), element, eq_cur, eq_next));
                        assert(push_outcome(old(self).spec_states(), old(self).spec_present(), element, eq_cur, eq_next, old(self).spec_capacity())
                            == (self.spec_states(), self.spec_present()));
                    }
                    return self;
                }
            }
        }
        while present + 1 < self.stack.size() as isize
            invariant
                self.stack.wf(),
                self.equals == old(self).equals,
                self.name == old(self).name,
                self.stack.spec_capacity() == old(self).stack.spec_capacity(),
                self.stack.spec_capacity() <= isize::MAX,
                states.len() <= isize::MAX,
                -1 <= present < isize::MAX,
                present + 1 <= self.stack@.len() <= states.len(),
                self.stack@ == states.subrange(0, self.stack@.len() as int),
            decreases self.stack@.len(),
        {
            proof {
                self.stack.lemma_bounds();
            }
            self.stack.pop();
        }
        proof {
            self.stack.lemma_bounds();
            assert(self.stack@ == states.subrange(0, present + 1));
        }
        self.stack.push(element);
        proof {
            self.stack.lemma_bounds();
        }
        self.present = self.stack.size() as isize - 1;
        proof {
            assert(push_answered(old(self).spec_equals(), old(self).spec_states(), old(self).spec_present(), element, eq_cur, eq_next));
            assert(push_outcome(old(self).spec_states(), old(self).spec_present(), element, eq_cur, eq_next, old(self).spec_capacity())
                == (self.spec_states(), self.spec_present()));
        }
        self
    }

    /// Keeps only the newest state, which becomes current.
    pub fn clear(&mut self)
        requires
            old(self).wf(),
        ensures
            final(self).wf(),
            final(self).spec_capacity() == old(self).spec_capacity(),
            final(self).spec_name() == old(self).spec_name(),
            final(self).spec_equals() == old(self).spec_equals(),
            old(self).spec_states().len() == 0 ==> final(self).spec_states() == Seq::<T>::empty()
                && final(self).spec_present() == -1,
            old(self).spec_states().len() > 0 ==> final(self).spec_states() == seq![
                old(self).spec_states().last(),
            ] && final(self).spec_present() == 0,
    {
        let top = self.stack.pop();
        self.stack.clear();
        match top {
            Some(element) => {
                proof {
                    self.stack.lemma_bounds();
                }
                self.stack.push(element);
                self.present = 0;
                proof {
                    assert(self.stack@ =~= seq![old(self).stack@.last()]);
                }
            },
            None => {
                self.present = -1;
            },
        }
    }

    /// Replaces the newest state (nothing happens when there is none).
    pub fn update_top(&mut self, element: T)
        requires
            old(self).wf(),
        ensures
            final(self).wf(),
            final(self).spec_capacity() == old(self).spec_capacity(),
            final(self).spec_name() == old(self).spec_name(),
            final(self).spec_equals() == old(self).spec_equals(),
            final(self).spec_present() == old(self).spec_present(),
            old(self).spec_states().len() == 0 ==> final(self).spec_states() == old(self).spec_states(),
            old(self).spec_states().len() > 0 ==> final(self).spec_states() == old(
                self,
            ).spec_states().update(old(self).spec_states().len() - 1, element),
    {
        proof {
            self.stack.lemma_bounds();
        }
        let size = self.stack.size();
        if size == 0 {
            return;
        }
        let _ = self.stack.update((size - 1) as isize, element);
    }

    /// References to the states from the newest to the oldest (iteration order).
    pub fn iter(&self) -> (r: Vec<&T>)
        requires
            self.wf(),
        ensures
            r@.len() == self.spec_states().len(),
            forall|i: int| 0 <= i < r@.len() ==> *r@[i] == self.spec_states()[self.spec_states().len() - 1 - i],
    {
        self.stack.iter()
    }

    /// Clones of the states from the newest to the oldest (iteration order).
    pub fn collect(&self) -> (r: Vec<T>) where T: Clone
        requires
            self.wf(),
        ensures
            r@.len() == self.spec_states().len(),
            forall|i: int|
                0 <= i < r@.len() ==> cloned::<T>(
                    self.spec_states()[self.spec_states().len() - 1 - i],
                    #[trigger] r@[i],
                ),
    {
        self.stack.collect()
    }

    /// An independent copy under another name: same states, cursor and
    /// equivalence, each state cloned.
    pub fn fork(&self, name: &str) -> (r: Self) where T: Clone
        requires
            self.wf(),
        ensures
            r.wf(),
            r.spec_name() == name@,
            r.spec_present() == self.spec_present(),
            r.spec_capacity() == self.spec_capacity(),
            r.spec_states().len() == self.spec_states().len(),
            forall|i: int|
                0 <= i < r.spec_states().len() ==> cloned::<T>(self.spec_states()[i], #[trigger] r.spec_states()[i]),
            forall|a: T, b: T, x: bool| r.spec_equals().answers(a, b, x) == self.spec_equals().answers(a, b, x),
    {
        History {
            name: name.to_owned(),
            equals: self.equals.duplicate(),
            stack: self.stack.fork(),
            present: self.present,
        }
    }

    /// Keeps the states on which `filter` (given the state and its index from
    /// the oldest) answers `true`; the cursor stays on the last kept state at
    /// or below it.
    pub fn rearrange<F: Fn(&T, usize) -> bool>(&mut self, filter: F) -> (r: &mut Self)
        requires
            old(self).wf(),
            forall|x: &T, i: usize| #[trigger] filter.requires((x, i)),
        ensures
            r.wf(),
            *final(self) == *final(r),
            r.spec_capacity() == old(self).spec_capacity(),
            r.spec_name() == old(self).spec_name(),
            r.spec_equals() == old(self).spec_equals(),
            exists|keep: Seq<bool>|
                {
                    &&& indexed_answers(filter, old(self).spec_states(), keep)
                    &&& r.spec_states() == filter_kept(old(self).spec_states(), keep)
                    &&& r.spec_present() == rearranged_present(
                        old(self).spec_states(),
                        keep,
                        old(self).spec_present(),
                    )
                },
    {
        proof {
            self.stack.lemma_bounds();
        }
        let ghost states = self.stack@;
        let original_present = self.present;
        // Ask the filter about every state before changing anything.
        let total = self.stack.size();
        let mut flags: Vec<bool> = Vec::new();
        let mut i: usize = 0;
        while i < total
            invariant
                self.stack.wf(),
                self.stack@ == states,
                total == states.len(),
                i <= total,
                total <= isize::MAX,
                forall|x: &T, j: usize| #[trigger] filter.requires((x, j)),
                indexed_answers(filter, states.subrange(0, i as int), flags@),
            decreases total - i,
        {
            let x = match self.stack.at(i as isize) {
                Some(x) => x,
                None => unreached(),
            };
            let answer = filter(x, i);
            proof {
                let prefix = states.subrange(0, i as int);
                assert forall|j: int| 0 <= j < i + 1 implies call_ensures(
                    filter,
                    (&states.subrange(0, i + 1)[j], j as usize),
                    #[trigger] flags@.push(answer)[j],
                ) by {
                    if j < i {
                        assert(states.subrange(0, i + 1)[j] == prefix[j]);
                    }
                }
            }
            flags.push(answer);
            i = i + 1;
        }
        proof {
            assert(states.subrange(0, total as int) =~= states);
        }
        let mut from_top: Vec<Option<T>> = Vec::new();
        while self.stack.size() > 0
            invariant
                self.stack.wf(),
                self.equals == old(self).equals,
                self.name == old(self).name,
                self.stack.spec_capacity() == old(self).stack.spec_capacity(),
                self.stack@.len() + from_top@.len() == states.len(),
                self.stack@ == states.subrange(0, self.stack@.len() as int),
                forall|k: int| 0 <= k < from_top@.len() ==> #[trigger] from_top@[k] == Some(
                    states[states.len() - 1 - k],
                ),
            decreases self.stack@.len(),
        {
            let e = self.stack.pop();
            from_top.push(e);
        }
        let len = from_top.len();
        let mut next_present: Option<usize> = None;
        let mut kept_count: usize = 0;
        let mut old_idx: usize = 0;
        let ghost mut keep: Seq<bool> = Seq::empty();
        proof {
            assert(self.stack@ =~= filter_kept(states.subrange(0, 0), keep));
        }
        while old_idx < len
            invariant
                self.equals == old(self).equals,
                self.name == old(self).name,
                len == states.len(),
                len <= self.stack.spec_capacity(),
                self.stack.wf(),
                self.stack.spec_capacity() == old(self).stack.spec_capacity(),
                from_top@.len() == len,
                indexed_answers(filter, states, flags@),
                old_idx <= len,
                keep.len() == old_idx,
                indexed_answers(filter, states.subrange(0, old_idx as int), keep),
                self.stack@ == filter_kept(states.subrange(0, old_idx as int), keep),
                kept_count == self.stack@.len(),
                kept_count <= old_idx,
                next_present matches Some(np) ==> np < kept_count,
                forall|k: int| 0 <= k < len - old_idx ==> #[trigger] from_top@[k] == Some(
                    states[len - 1 - k],
                ),
                original_present == old(self).present,
                -1 <= original_present < len,
                next_present == below_present(
                    states,
                    keep,
                    if original_present + 1 < old_idx {
                        original_present + 1
                    } else {
                        old_idx as int
                    },
                ),
            decreases len - old_idx,
        {
            let ghost p_before: int = if original_present + 1 < old_idx {
                original_present + 1
            } else {
                old_idx as int
            };
            let idx_from_top = len - 1 - old_idx;
            let taken = from_top[idx_from_top].take();
            let element = match taken {
                Some(element) => element,
                None => {
                    proof {
                        assert(from_top@[idx_from_top as int] == Some(states[len - 1 - idx_from_top]));
                    }
                    unreached()
                },
            };
            proof {
                assert(from_top@[idx_from_top as int] == Some(states[len - 1 - idx_from_top]) || true);
            }
            let keep_it = flags[old_idx];
            let ghost old_keep = keep;
            proof {
                let prefix = states.subrange(0, old_idx as int);
                assert(states.subrange(0, old_idx + 1) =~= prefix.push(states[old_idx as int]));
                lemma_filter_kept_push(prefix, keep, states[old_idx as int], keep_it);
                keep = keep.push(keep_it);
                assert forall|i: int| 0 <= i < old_idx + 1 implies call_ensures(
                    filter,
                    (&states.subrange(0, old_idx + 1)[i], i as usize),
                    #[trigger] keep[i],
                ) by {
                    if i < old_idx {
                        assert(states.subrange(0, old_idx + 1)[i] == prefix[i]);
                    } else {
                        assert(keep[i] == flags@[old_idx as int]);
                    }
                }
                assert(keep.subrange(0, p_before) =~= old_keep.subrange(0, p_before));
                if old_idx <= original_present {
                    assert(states.subrange(0, old_idx + 1) =~= states.subrange(0, old_idx as int).push(
                        states[old_idx as int],
                    ));
                    assert(keep.subrange(0, old_idx + 1) =~= old_keep.push(keep_it));
                    assert(old_keep.subrange(0, old_idx as int) =~= old_keep);
                }
            }
            proof {
                lemma_filter_kept_len(states.subrange(0, old_idx as int), old_keep);
            }
            if keep_it {
                if original_present >= 0 && old_idx <= original_present as usize {
                    next_present = Some(kept_count);
                }
                kept_count = kept_count + 1;
                self.stack.push(element);
            }
            old_idx = old_idx + 1;
        }
        proof {
            assert(states.subrange(0, len as int) =~= states);
            self.stack.lemma_bounds();
        }
        if self.stack.is_empty() {
            self.present = -1;
        } else {
            self.present = match next_present {
                Some(np) => {
                    proof {
                        assert(np < kept_count);
                        assert(kept_count <= len);
                        assert(len <= old(self).stack.spec_capacity());
                        assert(np <= isize::MAX);
                    }
                    np as isize
                },
                None => 0,
            };
        }
        proof {
            assert(indexed_answers(filter, old(self).spec_states(), keep));
            assert(self.spec_states() == filter_kept(old(self).spec_states(), keep));
            assert(original_present + 1 <= len);
            assert(next_present == below_present(states, keep, original_present + 1));
            let below = filter_kept(states.subrange(0, original_present + 1), keep.subrange(0, original_present + 1)).len();
            lemma_filter_kept_len(states.subrange(0, original_present + 1), keep.subrange(0, original_present + 1));
            if self.stack@.len() > 0 {
                if below > 0 {
                    assert(next_present == Some((below - 1) as usize));
                    assert(self.present == below - 1);
                } else {
                    assert(next_present is None);
                    assert(self.present == 0);
                }
            }
            assert(self.spec_present() == rearranged_present(old(self).spec_states(), keep, old(self).spec_present()));
        }
        self
    }
}

impl<T: PartialEq> History<T, DefaultEquals> {
    /// Creates an empty history whose states are compared with `==`; a zero
    /// capacity is refused.
    pub fn new(name: &str, capacity: usize) -> (r: Result<Self, HistoryError>)
        requires
            capacity <= isize::MAX,
        ensures
            capacity == 0 <==> r == Err::<Self, HistoryError>(HistoryError::InvalidCapacity { capacity }),
            r is Ok <==> capacity > 0,
            r matches Ok(h) ==> {
                &&& h.wf()
                &&& h.spec_states() == Seq::<T>::empty()
                &&& h.spec_present() == -1
                &&& h.spec_capacity() == capacity
                &&& h.spec_name() == name@
            },
    {
        if capacity == 0 {
            return Err(HistoryError::InvalidCapacity { capacity });
        }
        let stack = match CircularStack::new(capacity) {
            Ok(stack) => stack,
            Err(_) => {
                return Err(HistoryError::InvalidCapacity { capacity });
            },
        };
        Ok(History { name: name.to_owned(), equals: DefaultEquals, stack, present: -1 })
    }
}

impl<T, F: Fn(&T, &T) -> bool + Copy> History<T, FnEquals<F>> {
    /// Creates an empty history whose states are compared with `equals`; a
    /// zero capacity is refused.
    pub fn with_equals(name: &str, capacity: usize, equals: F) -> (r: Result<Self, HistoryError>)
        requires
            capacity <= isize::MAX,
            forall|a: &T, b: &T| #[trigger] equals.requires((a, b)),
        ensures
            capacity == 0 <==> r == Err::<Self, HistoryError>(HistoryError::InvalidCapacity { capacity }),
            r is Ok <==> capacity > 0,
            r matches Ok(h) ==> {
                &&& h.wf()
                &&& h.spec_states() == Seq::<T>::empty()
                &&& h.spec_present() == -1
                &&& h.spec_capacity() == capacity
                &&& h.spec_name() == name@
                &&& forall|a: T, b: T, x: bool| h.spec_equals().answers(a, b, x) == call_ensures(equals, (&a, &b), x)
            },
    {
        if capacity == 0 {
            return Err(HistoryError::InvalidCapacity { capacity });
        }
        let stack = match CircularStack::new(capacity) {
            Ok(stack) => stack,
            Err(_) => {
                return Err(HistoryError::InvalidCapacity { capacity });
            },
        };
        Ok(History { name: name.to_owned(), equals: FnEquals { f: equals }, stack, present: -1 })
    }
}

} // verus!
