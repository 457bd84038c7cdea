//! Knuth (Fisher-Yates) shuffling of a slice or of a sub-range, with a
//! caller's random source or the default one.
use vstd::prelude::*;
use crate::priority_queue::{lemma_swap_multiset, swap_items};

verus! {

/// `x` clamped to `len`.
pub open spec fn clamp_to(x: usize, len: int) -> int {
    if x < len { x as int } else { len }
}

/// The arrangement after `k` Fisher-Yates steps over `[start, end)`: step
/// `k` swaps position `end - k` with position `start + offs[k - 1]`.
pub open spec fn fisher_yates<T>(s: Seq<T>, start: int, end: int, offs: Seq<usize>, k: int) -> Seq<T>
    decreases k,
{
    if k <= 0 {
        s
    } else {
        let prev = fisher_yates(s, start, end, offs, k - 1);
        let i = start + offs[k - 1];
        let j = end - k;
        prev.update(i, prev[j]).update(j, prev[i])
    }
}

/// The bound handed to the random source at step `k + 1` over `[start, end)`.
pub open spec fn span_of(start: int, end: int, k: int) -> int {
    end - start - k
}

/// `offs[k]` is a possible answer of `f` asked for the bound of step `k + 1`.
pub open spec fn rng_answers<F: FnMut(usize) -> usize>(f: F, start: int, end: int, offs: Seq<usize>) -> bool {
    &&& offs.len() == end - start - 1
    &&& forall|k: int| 0 <= k < offs.len() ==> call_ensures(f, (span_of(start, end, k) as usize,), #[trigger] offs[k])
}

/// Each offset lies below the bound of its step.
pub open spec fn offsets_in_range(start: int, end: int, offs: Seq<usize>) -> bool {
    &&& offs.len() == end - start - 1
    &&& forall|k: int| 0 <= k < offs.len() ==> #[trigger] offs[k] < span_of(start, end, k)
}

/// Two random sources that give the same answer to every bound make the
/// same offsets, and so the same shuffle.
pub proof fn lemma_same_answers_same_shuffle<T, F: FnMut(usize) -> usize, G: FnMut(usize) -> usize>(
    s: Seq<T>, start: int, end: int, f: F, g: G, offs_f: Seq<usize>, offs_g: Seq<usize>,
)
    requires
        rng_answers(f, start, end, offs_f),
        rng_answers(g, start, end, offs_g),
        forall|n: usize, a: usize, b: usize| #[trigger] call_ensures(f, (n,), a) && #[trigger] call_ensures(g, (n,), b)
            ==> a == b,
    ensures
        offs_f == offs_g,
        fisher_yates(s, start, end, offs_f, end - start - 1) == fisher_yates(s, start, end, offs_g, end - start - 1),
{
    assert forall|k: int| 0 <= k < offs_f.len() implies offs_f[k] == offs_g[k] by {
        assert(call_ensures(f, (span_of(start, end, k) as usize,), offs_f[k]));
        assert(call_ensures(g, (span_of(start, end, k) as usize,), offs_g[k]));
    }
    assert(offs_f =~= offs_g);
}

/// `f` accepts every bound `n` in `[2, max]` and answers it with a value
/// below `n`: the bounds a shuffle of `max` elements asks for.
pub open spec fn rng_in_range<F: FnMut(usize) -> usize>(f: F, max: int) -> bool {
    &&& forall|n: usize| 2 <= n <= max ==> #[trigger] call_requires(f, (n,))
    &&& forall|n: usize, r: usize| 2 <= n <= max && #[trigger] call_ensures(f, (n,), r) ==> r < n
}

proof fn lemma_fisher_yates_prefix<T>(s: Seq<T>, start: int, end: int, offs: Seq<usize>, x: usize, k: int)
    requires
        0 <= k <= offs.len(),
    ensures
        fisher_yates(s, start, end, offs.push(x), k) == fisher_yates(s, start, end, offs, k),
    decreases k,
{
    if k > 0 {
        lemma_fisher_yates_prefix(s, start, end, offs, x, k - 1);
        assert(offs.push(x)[k - 1] == offs[k - 1]);
    }
}

/// Fisher-Yates steps with offsets in range move items only inside `[start, end)`.
pub proof fn lemma_fisher_yates_outside<T>(s: Seq<T>, start: int, end: int, offs: Seq<usize>, k: int, x: int)
    requires
        0 <= start < end <= s.len(),
        0 <= k <= offs.len(),
        k <= end - start - 1,
        forall|i: int| 0 <= i < offs.len() ==> #[trigger] offs[i] < span_of(start, end, i),
        0 <= x < s.len(),
        !(start <= x < end),
    ensures
        fisher_yates(s, start, end, offs, k).len() == s.len(),
        fisher_yates(s, start, end, offs, k)[x] == s[x],
    decreases k,
{
    if k > 0 {
        lemma_fisher_yates_outside(s, start, end, offs, k - 1, x);
        assert(offs[k - 1] < span_of(start, end, k - 1));
    }
}


proof fn lemma_last_place_steps<T>(s: Seq<T>, start: int, end: int, offs: Seq<usize>, k: int)
    requires
        1 <= k <= offs.len(),
    ensures
        fisher_yates(s, start, end, offs, k) == fisher_yates(
            s.update(start + offs[0], s[end - 1]).update(end - 1, s[start + offs[0]]),
            start,
            end - 1,
            offs.drop_first(),
            k - 1,
        ),
    decreases k,
{
    let moved = s.update(start + offs[0], s[end - 1]).update(end - 1, s[start + offs[0]]);
    if k > 1 {
        lemma_last_place_steps(s, start, end, offs, k - 1);
        assert(offs.drop_first()[k - 2] == offs[k - 1]);
    } else {
        assert(fisher_yates(s, start, end, offs, 0) == s);
        assert(fisher_yates(moved, start, end - 1, offs.drop_first(), 0) == moved);
    }
}

/// The shuffle fills `[start, end)` from the back: its first answer picks the
/// item that ends in the last place, `s[start + offs[0]]`, and the rest is a
/// shuffle of `[start, end - 1)`, after that item has been swapped into the
/// last place, with the remaining answers.
pub proof fn lemma_shuffle_last_place_first<T>(s: Seq<T>, start: int, end: int, offs: Seq<usize>)
    requires
        0 <= start,
        end <= s.len(),
        offsets_in_range(start, end, offs),
        end - start >= 2,
    ensures
        ({
            let moved = s.update(start + offs[0], s[end - 1]).update(end - 1, s[start + offs[0]]);
            &&& fisher_yates(s, start, end, offs, end - start - 1) == fisher_yates(
                moved,
                start,
                end - 1,
                offs.drop_first(),
                end - start - 2,
            )
            &&& offsets_in_range(start, end - 1, offs.drop_first())
            &&& fisher_yates(s, start, end, offs, end - start - 1)[end - 1] == s[start + offs[0]]
        }),
{
    let moved = s.update(start + offs[0], s[end - 1]).update(end - 1, s[start + offs[0]]);
    let rest = offs.drop_first();
    lemma_last_place_steps(s, start, end, offs, end - start - 1);
    assert forall|k: int| 0 <= k < rest.len() implies #[trigger] rest[k] < span_of(start, end - 1, k) by {
        assert(rest[k] == offs[k + 1]);
        assert(offs[k + 1] < span_of(start, end, k + 1));
    }
    assert(offs[0] < span_of(start, end, 0));
    lemma_fisher_yates_outside(moved, start, end - 1, rest, end - start - 2, end - 1);
}

/// Different in-range answers give different shuffles of distinct items:
/// the shuffle's result determines every answer the random source gave.
pub proof fn lemma_shuffle_injective<T>(s: Seq<T>, start: int, end: int, a: Seq<usize>, b: Seq<usize>)
    requires
        0 <= start < end <= s.len(),
        forall|i: int, j: int| start <= i < end && start <= j < end && i != j ==> s[i] != s[j],
        offsets_in_range(start, end, a),
        offsets_in_range(start, end, b),
        fisher_yates(s, start, end, a, end - start - 1) == fisher_yates(s, start, end, b, end - start - 1),
    ensures
        a == b,
    decreases end - start,
{
    if end - start == 1 {
        assert(a =~= b);
    } else {
        lemma_shuffle_last_place_first(s, start, end, a);
        lemma_shuffle_last_place_first(s, start, end, b);
        let ia = start + a[0];
        let ib = start + b[0];
        assert(a[0] < span_of(start, end, 0));
        assert(b[0] < span_of(start, end, 0));
        assert(s[ia] == s[ib]);
        assert(ia == ib);
        let moved = s.update(ia, s[end - 1]).update(end - 1, s[ia]);
        assert forall|i: int, j: int| start <= i < end - 1 && start <= j < end - 1 && i != j implies moved[i] != moved[j] by {
            let si = if i == ia { end - 1 } else { i };
            let sj = if j == ia { end - 1 } else { j };
            assert(moved[i] == s[si]);
            assert(moved[j] == s[sj]);
        }
        lemma_shuffle_injective(moved, start, end - 1, a.drop_first(), b.drop_first());
        assert forall|k: int| 0 <= k < a.len() implies a[k] == b[k] by {
            if k > 0 {
                assert(a.drop_first()[k - 1] == b.drop_first()[k - 1]);
            }
        }
        assert(a =~= b);
    }
}

/// Every arrangement of the items in `[start, end)` that leaves the rest in
/// place is the result of some in-range answers of the random source.
pub proof fn lemma_shuffle_reaches_all<T>(s: Seq<T>, start: int, end: int, u: Seq<T>)
    requires
        0 <= start < end <= s.len(),
        s.len() <= usize::MAX,
        u.len() == s.len(),
        forall|x: int| 0 <= x < s.len() && !(start <= x < end) ==> u[x] == s[x],
        u.subrange(start, end).to_multiset() == s.subrange(start, end).to_multiset(),
    ensures
        exists|offs: Seq<usize>| offsets_in_range(start, end, offs)
            && #[trigger] fisher_yates(s, start, end, offs, end - start - 1) == u,
    decreases end - start,
{
    broadcast use vstd::seq_lib::group_to_multiset_ensures;
    let ss = s.subrange(start, end);
    let us = u.subrange(start, end);
    let len = end - start;
    let x = u[end - 1];
    assert(us[len - 1] == x);
    assert(us.contains(x));
    assert(us.to_multiset().count(x) > 0);
    assert(ss.to_multiset().count(x) > 0);
    assert(ss.contains(x));
    let q = choose|q: int| 0 <= q < len && ss[q] == x;
    if len == 1 {
        let offs = Seq::<usize>::empty();
        assert(u =~= s) by {
            assert(s[start] == ss[0]);
        }
        assert(offsets_in_range(start, end, offs));
        assert(fisher_yates(s, start, end, offs, 0) == u);
    } else {
        let i = start + q;
        let moved = s.update(i, s[end - 1]).update(end - 1, s[i]);
        let ms = moved.subrange(start, end);
        assert(ms =~= ss.update(q, ss[len - 1]).update(len - 1, ss[q]));
        crate::priority_queue::lemma_swap_multiset(ss, q, len - 1);
        assert(ms =~= moved.subrange(start, end - 1).push(x));
        assert(us =~= u.subrange(start, end - 1).push(x));
        let m1 = moved.subrange(start, end - 1).to_multiset();
        let m2 = u.subrange(start, end - 1).to_multiset();
        assert(m1.insert(x) == m2.insert(x));
        assert forall|y: T| m1.count(y) == m2.count(y) by {
            assert(m1.insert(x).count(y) == m2.insert(x).count(y));
        }
        assert(m1 =~= m2);
        assert forall|y: int| 0 <= y < moved.len() && !(start <= y < end - 1) implies u[y] == moved[y] by {
            if y != end - 1 {
                assert(moved[y] == s[y]);
            }
        }
        lemma_shuffle_reaches_all(moved, start, end - 1, u);
        let rest = choose|rest: Seq<usize>| offsets_in_range(start, end - 1, rest)
            && #[trigger] fisher_yates(moved, start, end - 1, rest, end - start - 2) == u;
        let offs = seq![q as usize] + rest;
        assert(offs.drop_first() =~= rest);
        assert forall|k: int| 0 <= k < offs.len() implies #[trigger] offs[k] < span_of(start, end, k) by {
            if k > 0 {
                assert(offs[k] == rest[k - 1]);
                assert(rest[k - 1] < span_of(start, end - 1, k - 1));
            }
        }
        assert(offsets_in_range(start, end, offs));
        lemma_shuffle_last_place_first(s, start, end, offs);
        assert(q <= usize::MAX);
        assert(offs[0] == q as usize);
        assert(start + offs[0] == i);
        assert(fisher_yates(s, start, end, offs, end - start - 1) == u);
    }
}

/// Shuffles `elements[start..end]` (both bounds clamped to the length) with
/// `random_int_fn`, which is asked for a bound `n` and answers a value in
/// `[0, n)`; a range of fewer than 2 items is left as it is.
pub fn knuth_shuffle_range_with<T, F: FnMut(usize) -> usize>(elements: &mut [T], start: usize, end: usize, mut random_int_fn: F)
    requires
        rng_in_range(random_int_fn, clamp_to(end, old(elements)@.len() as int) - clamp_to(start, old(elements)@.len() as int)),
    ensures
        final(elements)@.len() == old(elements)@.len(),
        final(elements)@.to_multiset() == old(elements)@.to_multiset(),
        ({
            let len = old(elements)@.len() as int;
            let s = clamp_to(start, len);
            let e = clamp_to(end, len);
            &&& e - s < 2 ==> final(elements)@ == old(elements)@
            &&& e - s >= 2 ==> exists|offs: Seq<usize>|
                rng_answers(random_int_fn, s, e, offs) && offsets_in_range(s, e, offs)
                && final(elements)@ == fisher_yates(old(elements)@, s, e, offs, e - s - 1)
            &&& forall|x: int| 0 <= x < len && !(s <= x < e) ==> #[trigger] final(elements)@[x] == old(elements)@[x]
        }),
{
    let len = elements.len();
    let lo = if start < len { start } else { len };
    let hi = if end < len { end } else { len };
    if hi < lo || hi - lo < 2 {
        return;
    }
    let ghost s0 = elements@;
    let ghost f0 = random_int_fn;
    let ghost mut offs: Seq<usize> = Seq::empty();
    let mut j = hi - 1;
    while j > lo
        invariant
            lo < hi <= len == s0.len(),
            lo == clamp_to(start, len as int),
            s0 == old(elements)@,
            f0 == random_int_fn,
            hi == clamp_to(end, len as int),
            lo <= j < hi,
            rng_in_range(random_int_fn, hi - lo),
            elements@.len() == len,
            elements@.to_multiset() == s0.to_multiset(),
            offs.len() == hi - 1 - j,
            forall|k: int| 0 <= k < offs.len() ==> call_ensures(random_int_fn, (span_of(lo as int, hi as int, k) as usize,), #[trigger] offs[k]),
            forall|k: int| 0 <= k < offs.len() ==> #[trigger] offs[k] < span_of(lo as int, hi as int, k),
            elements@ == fisher_yates(s0, lo as int, hi as int, offs, offs.len() as int),
        decreases j,
    {
        let span = j - lo + 1;
        let offset = random_int_fn(span);
        let i = lo + offset;
        proof {
            lemma_swap_multiset(elements@, i as int, j as int);
            lemma_fisher_yates_prefix(s0, lo as int, hi as int, offs, offset, offs.len() as int);
            offs = offs.push(offset);
        }
        swap_items(elements, i, j);
        j -= 1;
    }
    proof {
        assert(rng_answers(random_int_fn, lo as int, hi as int, offs));
        assert(offsets_in_range(lo as int, hi as int, offs));
        assert(elements@ == fisher_yates(old(elements)@, lo as int, hi as int, offs, hi - lo - 1));
        assert forall|x: int| 0 <= x < len && !(lo <= x < hi) implies #[trigger] elements@[x] == old(elements)@[x] by {
            lemma_fisher_yates_outside(old(elements)@, lo as int, hi as int, offs, hi - lo - 1, x);
        }
    }
}

/// Shuffles all of `elements` with `random_int_fn` (see `knuth_shuffle_range_with`).
pub fn knuth_shuffle_with<T, F: FnMut(usize) -> usize>(elements: &mut [T], random_int_fn: F)
    requires
        rng_in_range(random_int_fn, old(elements)@.len() as int),
    ensures
        final(elements)@.len() == old(elements)@.len(),
        final(elements)@.to_multiset() == old(elements)@.to_multiset(),
        ({
            let n = old(elements)@.len() as int;
            &&& n < 2 ==> final(elements)@ == old(elements)@
            &&& n >= 2 ==> exists|offs: Seq<usize>|
                rng_answers(random_int_fn, 0, n, offs) && offsets_in_range(0, n, offs)
                && final(elements)@ == fisher_yates(old(elements)@, 0, n, offs, n - 1)
        }),
{
    let n = elements.len();
    knuth_shuffle_range_with(elements, 0, n, random_int_fn)
}

/// A new randomly keyed hasher builder (std's `RandomState::new`); its keys
/// differ from call to call. Nothing is promised of them.
#[verifier::external_body]
fn new_random_state() -> std::collections::hash_map::RandomState {
    std::collections::hash_map::RandomState::new()
}

/// The hash of `x` under the hasher builder `state` (std's
/// `BuildHasher::hash_one`). Nothing is promised of the value: it depends on
/// the builder's random keys.
#[verifier::external_body]
fn hash_one_u64(state: &std::collections::hash_map::RandomState, x: u64) -> u64 {
    std::hash::BuildHasher::hash_one(state, x)
}

/// The state that stands in for a zero state of the generator.
pub const NONZERO_STATE: u64 = 0xA076_1D64_78BD_642Fu64;

/// A fresh, nonzero state for the default generator.
fn fresh_seed() -> (x: u64)
    ensures
        x != 0,
{
    let state = new_random_state();
    let h = hash_one_u64(&state, 0x9E37_79B9_7F4A_7C15u64);
    if h == 0 { NONZERO_STATE } else { h }
}

/// One xorshift step of the generator's state (`x ^= x << 13; x ^= x >> 7;
/// x ^= x << 17`), a zero result replaced by `NONZERO_STATE`.
pub open spec fn xorshift(x: u64) -> u64 {
    let a = x ^ (x << 13u64);
    let b = a ^ (a >> 7u64);
    let c = b ^ (b << 17u64);
    if c == 0 { NONZERO_STATE } else { c }
}

/// Advances the generator's `state` by one step and returns the new state.
pub fn next_state(state: &mut u64) -> (r: u64)
    ensures
        *final(state) == xorshift(*old(state)),
        r == *final(state),
{
    let mut x = *state;
    x = x ^ (x << 13u64);
    x = x ^ (x >> 7u64);
    x = x ^ (x << 17u64);
    if x == 0 {
        x = NONZERO_STATE;
    }
    *state = x;
    x
}

/// A pseudo-random integer in `[0, n)` drawn from the generator's `state`:
/// `0` with the state unchanged when `n == 0`; otherwise the state advances
/// one step and the result is the new state modulo `n`.
pub fn random_int_from(state: &mut u64, n: usize) -> (r: usize)
    ensures
        n == 0 ==> r == 0 && *final(state) == *old(state),
        n > 0 ==> *final(state) == xorshift(*old(state)) && r == (*final(state) as usize) % n,
        n > 0 ==> r < n,
{
    if n == 0 {
        return 0;
    }
    let x = next_state(state);
    (x as usize) % n
}

/// A pseudo-random integer in `[0, n)` from the default generator, seeded
/// afresh for the call (`0` when `n == 0`); not for cryptographic use.
pub fn random_int(n: usize) -> (r: usize)
    ensures
        n == 0 ==> r == 0,
        n > 0 ==> r < n,
        n > 0 ==> exists|seed: u64| seed != 0 && r == (xorshift(seed) as usize) % n,
{
    let mut state = fresh_seed();
    random_int_from(&mut state, n)
}

/// Shuffles `elements[start..end]` (bounds clamped) with the default source.
pub fn knuth_shuffle_range<T>(elements: &mut [T], start: usize, end: usize)
    ensures
        final(elements)@.len() == old(elements)@.len(),
        final(elements)@.to_multiset() == old(elements)@.to_multiset(),
        ({
            let len = old(elements)@.len() as int;
            let s = clamp_to(start, len);
            let e = clamp_to(end, len);
            &&& e - s < 2 ==> final(elements)@ == old(elements)@
            &&& e - s >= 2 ==> exists|offs: Seq<usize>|
                offsets_in_range(s, e, offs) && final(elements)@ == fisher_yates(old(elements)@, s, e, offs, e - s - 1)
            &&& forall|x: int| 0 <= x < len && !(s <= x < e) ==> #[trigger] final(elements)@[x] == old(elements)@[x]
        }),
{
    knuth_shuffle_range_with(elements, start, end, random_int)
}

/// Shuffles all of `elements` with the default source.
pub fn knuth_shuffle<T>(elements: &mut [T])
    ensures
        final(elements)@.len() == old(elements)@.len(),
        final(elements)@.to_multiset() == old(elements)@.to_multiset(),
        ({
            let n = old(elements)@.len() as int;
            &&& n < 2 ==> final(elements)@ == old(elements)@
            &&& n >= 2 ==> exists|offs: Seq<usize>|
                offsets_in_range(0, n, offs) && final(elements)@ == fisher_yates(old(elements)@, 0, n, offs, n - 1)
        }),
{
    let n = elements.len();
    knuth_shuffle_range(elements, 0, n)
}

} // verus!
