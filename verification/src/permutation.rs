//! Lexicographic permutation steps: next and previous permutation in place,
//! a reusable cursor over the permutations of an index range, and a
//! traversal of all permutations.
use vstd::prelude::*;
use crate::order::{lt, le, total_order, comparisons_specified, ord_agrees};
use crate::priority_queue::{lemma_swap_multiset, swap_items};
use vstd::arithmetic::power::pow;
use vstd::set_lib::lemma_len_subset;

verus! {

/// `a` comes before `b`: by `<` ascending, or by `>` when `desc`.
pub open spec fn precedes<T: PartialOrd>(a: T, b: T, desc: bool) -> bool {
    if desc { lt(b, a) } else { lt(a, b) }
}

/// Item `i - 1` precedes item `i`.
pub open spec fn rise_at<T: PartialOrd>(s: Seq<T>, i: int, desc: bool) -> bool {
    precedes(s[i - 1], s[i], desc)
}

/// The largest `i` in `[1, k)` with `rise_at(s, i)`, or 0 if none.
pub open spec fn last_rise<T: PartialOrd>(s: Seq<T>, k: int, desc: bool) -> int
    decreases k,
{
    if k < 2 {
        0
    } else if rise_at(s, k - 1, desc) {
        k - 1
    } else {
        last_rise(s, k - 1, desc)
    }
}

/// The largest `j` in `(p, k)` with `precedes(s[p], s[j])`, or `p` if none.
pub open spec fn last_above<T: PartialOrd>(s: Seq<T>, p: int, k: int, desc: bool) -> int
    decreases k - p,
{
    if k <= p + 1 {
        p
    } else if precedes(s[p], s[k - 1], desc) {
        k - 1
    } else {
        last_above(s, p, k - 1, desc)
    }
}

/// One lexicographic step (ascending, or descending when `desc`): the
/// following arrangement of `s` and `true`, or, from the last arrangement,
/// `s` reversed and `false`.
pub open spec fn perm_step<T: PartialOrd>(s: Seq<T>, desc: bool) -> (Seq<T>, bool) {
    let n = s.len() as int;
    if last_rise(s, n, desc) == 0 {
        (s.reverse(), false)
    } else {
        let p = last_rise(s, n, desc) - 1;
        let q = last_above(s, p, n, desc);
        let t = s.update(p, s[q]).update(q, s[p]);
        (t.subrange(0, p + 1) + t.subrange(p + 1, n).reverse(), true)
    }
}

/// The next permutation in ascending lexicographic order.
pub open spec fn next_perm<T: PartialOrd>(s: Seq<T>) -> (Seq<T>, bool) {
    perm_step(s, false)
}

/// The previous permutation in ascending lexicographic order.
pub open spec fn prev_perm<T: PartialOrd>(s: Seq<T>) -> (Seq<T>, bool) {
    perm_step(s, true)
}

/// `a` comes lexicographically before `b`: they agree before some position
/// where `a` has the smaller item.
pub open spec fn lex_less<T: PartialOrd>(a: Seq<T>, b: Seq<T>) -> bool {
    exists|i: int| 0 <= i < a.len() && i < b.len() && a.subrange(0, i) == b.subrange(0, i) && #[trigger] lt(a[i], b[i])
}

/// The order facts a lawful comparison gives `precedes`, read either way.
proof fn lemma_precedes_facts<T: PartialOrd>(d: bool)
    requires
        total_order::<T>(),
    ensures
        forall|a: T, b: T| #[trigger] precedes(a, b, d) ==> !precedes(b, a, d),
        forall|a: T, b: T, c: T| !#[trigger] precedes(b, a, d) && !#[trigger] precedes(c, b, d) ==> !precedes(c, a, d),
        forall|a: T, b: T, c: T| !#[trigger] precedes(b, a, d) && #[trigger] precedes(b, c, d) ==> precedes(a, c, d),
        forall|a: T, b: T, c: T| #[trigger] precedes(a, b, d) && !#[trigger] precedes(c, b, d) ==> precedes(a, c, d),
{
    assert forall|a: T, b: T| #[trigger] precedes(a, b, d) implies !precedes(b, a, d) by {
        assert(lt(a, b) <==> !le(b, a));
        assert(lt(b, a) <==> !le(a, b));
    }
    assert forall|a: T, b: T, c: T| !#[trigger] precedes(b, a, d) && !#[trigger] precedes(c, b, d) implies !precedes(c, a, d) by {
        assert(lt(a, b) <==> !le(b, a));
        assert(lt(b, a) <==> !le(a, b));
        assert(lt(b, c) <==> !le(c, b));
        assert(lt(c, b) <==> !le(b, c));
        assert(lt(a, c) <==> !le(c, a));
        assert(lt(c, a) <==> !le(a, c));
        if d {
            assert(le(c, b) && le(b, a) ==> le(c, a));
        } else {
            assert(le(a, b) && le(b, c) ==> le(a, c));
        }
    }
    assert forall|a: T, b: T, c: T| !#[trigger] precedes(b, a, d) && #[trigger] precedes(b, c, d) implies precedes(a, c, d) by {
        assert(lt(a, b) <==> !le(b, a));
        assert(lt(b, a) <==> !le(a, b));
        assert(lt(b, c) <==> !le(c, b));
        assert(lt(c, b) <==> !le(b, c));
        assert(lt(a, c) <==> !le(c, a));
        assert(lt(c, a) <==> !le(a, c));
        if d {
            assert(le(b, a) && le(a, c) ==> le(b, c));
        } else {
            assert(le(c, a) && le(a, b) ==> le(c, b));
        }
    }
    assert forall|a: T, b: T, c: T| #[trigger] precedes(a, b, d) && !#[trigger] precedes(c, b, d) implies precedes(a, c, d) by {
        assert(lt(a, b) <==> !le(b, a));
        assert(lt(b, a) <==> !le(a, b));
        assert(lt(b, c) <==> !le(c, b));
        assert(lt(c, b) <==> !le(b, c));
        assert(lt(a, c) <==> !le(c, a));
        assert(lt(c, a) <==> !le(a, c));
        if d {
            assert(le(a, c) && le(c, b) ==> le(a, b));
        } else {
            assert(le(b, c) && le(c, a) ==> le(b, a));
        }
    }
}

proof fn lemma_last_rise<T: PartialOrd>(s: Seq<T>, k: int, d: bool)
    requires
        k <= s.len(),
    ensures
        last_rise(s, k, d) >= 0,
        last_rise(s, k, d) == 0 ==> forall|i: int| 1 <= i < k ==> !#[trigger] rise_at(s, i, d),
        last_rise(s, k, d) > 0 ==> 1 <= last_rise(s, k, d) < k
            && rise_at(s, last_rise(s, k, d), d)
            && forall|i: int| last_rise(s, k, d) < i < k ==> !#[trigger] rise_at(s, i, d),
    decreases k,
{
    if k >= 2 {
        lemma_last_rise(s, k - 1, d);
    }
}

proof fn lemma_last_rise_is<T: PartialOrd>(s: Seq<T>, k: int, d: bool, m: int)
    requires
        1 <= m < k <= s.len(),
        rise_at(s, m, d),
        forall|i: int| m < i < k ==> !#[trigger] rise_at(s, i, d),
    ensures
        last_rise(s, k, d) == m,
    decreases k,
{
    if k - 1 > m {
        assert(!rise_at(s, k - 1, d));
        lemma_last_rise_is(s, k - 1, d, m);
    }
}

proof fn lemma_last_above<T: PartialOrd>(s: Seq<T>, p: int, k: int, d: bool)
    requires
        0 <= p,
        k <= s.len(),
    ensures
        last_above(s, p, k, d) >= p,
        last_above(s, p, k, d) == p ==> forall|j: int| p < j < k ==> !#[trigger] precedes(s[p], s[j], d),
        last_above(s, p, k, d) != p ==> p < last_above(s, p, k, d) < k
            && precedes(s[p], s[last_above(s, p, k, d)], d)
            && forall|j: int| last_above(s, p, k, d) < j < k ==> !#[trigger] precedes(s[p], s[j], d),
    decreases k - p,
{
    if k > p + 1 {
        lemma_last_above(s, p, k - 1, d);
    }
}

proof fn lemma_last_above_is<T: PartialOrd>(s: Seq<T>, p: int, k: int, d: bool, m: int)
    requires
        0 <= p < m < k <= s.len(),
        precedes(s[p], s[m], d),
        forall|j: int| m < j < k ==> !#[trigger] precedes(s[p], s[j], d),
    ensures
        last_above(s, p, k, d) == m,
    decreases k - p,
{
    if k - 1 > m {
        assert(!precedes(s[p], s[k - 1], d));
        lemma_last_above_is(s, p, k - 1, d, m);
    }
}

/// A run without rises is ordered from its start: each later item is at most
/// as far along as each earlier one.
proof fn lemma_no_rise_chain<T: PartialOrd>(s: Seq<T>, lo: int, hi: int, d: bool)
    requires
        total_order::<T>(),
        0 <= lo < hi <= s.len(),
        forall|i: int| lo < i < hi ==> !#[trigger] rise_at(s, i, d),
    ensures
        forall|a: int, b: int| lo <= a <= b < hi ==> !#[trigger] precedes(s[a], s[b], d),
    decreases hi - lo,
{
    lemma_precedes_facts::<T>(d);
    if hi - lo > 1 {
        lemma_no_rise_chain(s, lo, hi - 1, d);
        assert forall|a: int, b: int| lo <= a <= b < hi implies !#[trigger] precedes(s[a], s[b], d) by {
            if b == hi - 1 && a < b {
                assert(!rise_at(s, b, d));
                assert(!precedes(s[a], s[b - 1], d));
            }
            if a == b {
                assert(precedes(s[a], s[a], d) ==> !precedes(s[a], s[a], d));
            }
        }
    } else {
        assert forall|a: int, b: int| lo <= a <= b < hi implies !#[trigger] precedes(s[a], s[b], d) by {
            assert(precedes(s[a], s[a], d) ==> !precedes(s[a], s[a], d));
        }
    }
}

/// A step followed by the step in the other direction gives back the start.
proof fn lemma_step_back<T: PartialOrd>(s: Seq<T>, d: bool)
    requires
        total_order::<T>(),
        perm_step(s, d).1,
    ensures
        perm_step(perm_step(s, d).0, !d) == (s, true),
{
    lemma_precedes_facts::<T>(d);
    let n = s.len() as int;
    lemma_last_rise(s, n, d);
    let p = last_rise(s, n, d) - 1;
    lemma_last_above(s, p, n, d);
    let q = last_above(s, p, n, d);
    assert(rise_at(s, p + 1, d));
    assert(q != p);
    let t = s.update(p, s[q]).update(q, s[p]);
    let r = t.subrange(0, p + 1) + t.subrange(p + 1, n).reverse();
    assert(perm_step(s, d).0 == r);
    assert(r.len() == n);
    assert forall|x: int| 0 <= x <= p implies #[trigger] r[x] == t[x] by {}
    assert forall|x: int| p < x < n implies #[trigger] r[x] == t[n + p - x] by {}
    // the part of s after p has no rises, so it is ordered
    lemma_no_rise_chain(s, p + 1, n, d);
    // the part of t after p has no rises
    assert forall|y: int| p + 1 <= y < n - 1 implies !#[trigger] precedes(t[y], t[y + 1], d) by {
        if y + 1 == q {
            assert(!precedes(s[y], s[q], d));
            assert(precedes(s[p], s[y], d));
        } else if y == q {
            assert(!precedes(s[p], s[q + 1], d));
        } else {
            assert(!rise_at(s, y + 1, d));
        }
    }
    // the step back finds its rise at p + 1
    let nd = !d;
    assert(rise_at(r, p + 1, nd)) by {
        assert(r[p] == s[q]);
        assert(r[p + 1] == t[n - 1]);
        if q != n - 1 {
            assert(!precedes(s[p], s[n - 1], d));
        }
    }
    assert forall|i: int| p + 1 < i < n implies !#[trigger] rise_at(r, i, nd) by {
        let y = n + p - i;
        assert(r[i] == t[y]);
        assert(r[i - 1] == t[y + 1]);
        assert(!precedes(t[y], t[y + 1], d));
    }
    lemma_last_rise_is(r, n, nd, p + 1);
    // and its partner at the place where s[p] went
    let q2 = n + p - q;
    assert(r[q2] == s[p]);
    assert(precedes(r[p], r[q2], !d));
    assert forall|j: int| q2 < j < n implies !#[trigger] precedes(r[p], r[j], nd) by {
        let y = n + p - j;
        assert(r[j] == t[y]);
        assert(p < y < q);
        assert(t[y] == s[y]);
        assert(!precedes(s[y], s[q], d));
    }
    lemma_last_above_is(r, p, n, nd, q2);
    let u = r.update(p, r[q2]).update(q2, r[p]);
    let back = u.subrange(0, p + 1) + u.subrange(p + 1, n).reverse();
    assert(perm_step(r, !d) == (back, true));
    assert forall|x: int| 0 <= x < n implies #[trigger] back[x] == s[x] by {
        if x > p {
            assert(back[x] == u[n + p - x]);
            if x != q {
                assert(u[n + p - x] == r[n + p - x]);
                assert(r[n + p - x] == t[x]);
            }
        }
    }
    assert(back =~= s);
}

/// `a` comes before `b` in the lexicographic order that `precedes` gives.
spec fn lex_prec<T: PartialOrd>(a: Seq<T>, b: Seq<T>, d: bool) -> bool {
    exists|i: int| 0 <= i < a.len() && i < b.len() && a.subrange(0, i) == b.subrange(0, i) && #[trigger] precedes(a[i], b[i], d)
}

proof fn lemma_lex_asym<T: PartialOrd>(a: Seq<T>, b: Seq<T>, d: bool)
    requires
        total_order::<T>(),
    ensures
        !(lex_prec(a, b, d) && lex_prec(b, a, d)),
{
    lemma_precedes_facts::<T>(d);
    if lex_prec(a, b, d) && lex_prec(b, a, d) {
        let i = choose|i: int| 0 <= i < a.len() && i < b.len() && a.subrange(0, i) == b.subrange(0, i) && #[trigger] precedes(a[i], b[i], d);
        let j = choose|j: int| 0 <= j < b.len() && j < a.len() && b.subrange(0, j) == a.subrange(0, j) && #[trigger] precedes(b[j], a[j], d);
        if i < j {
            assert(b.subrange(0, j)[i] == a.subrange(0, j)[i]);
            assert(precedes(a[i], a[i], d));
        } else if j < i {
            assert(a.subrange(0, i)[j] == b.subrange(0, i)[j]);
            assert(precedes(b[j], b[j], d));
        }
    }
}

/// Items in the same multiset that agree on the first `k` places agree on the rest as a multiset.
proof fn lemma_suffix_multiset<T>(a: Seq<T>, b: Seq<T>, k: int)
    requires
        a.to_multiset() == b.to_multiset(),
        a.len() == b.len(),
        0 <= k <= a.len(),
        a.subrange(0, k) == b.subrange(0, k),
    ensures
        a.subrange(k, a.len() as int).to_multiset() == b.subrange(k, b.len() as int).to_multiset(),
{
    let n = a.len() as int;
    assert(a =~= a.subrange(0, k) + a.subrange(k, n));
    assert(b =~= b.subrange(0, k) + b.subrange(k, n));
    vstd::seq_lib::lemma_multiset_commutative(a.subrange(0, k), a.subrange(k, n));
    vstd::seq_lib::lemma_multiset_commutative(b.subrange(0, k), b.subrange(k, n));
    let pre = a.subrange(0, k).to_multiset();
    assert forall|x: T| #[trigger] a.subrange(k, n).to_multiset().count(x) == b.subrange(k, n).to_multiset().count(x) by {
        assert(a.to_multiset().count(x) == pre.count(x) + a.subrange(k, n).to_multiset().count(x));
        assert(b.to_multiset().count(x) == pre.count(x) + b.subrange(k, n).to_multiset().count(x));
    }
    assert(a.subrange(k, n).to_multiset() =~= b.subrange(k, n).to_multiset());
}

/// An arrangement ordered from its start comes after no other arrangement of its items.
proof fn lemma_max_arrangement<T: PartialOrd>(w: Seq<T>, v: Seq<T>, d: bool)
    requires
        total_order::<T>(),
        forall|a: int, b: int| 0 <= a <= b < w.len() ==> !#[trigger] precedes(w[a], w[b], d),
        v.to_multiset() == w.to_multiset(),
    ensures
        !lex_prec(w, v, d),
    decreases w.len(),
{
    vstd::seq_lib::to_multiset_len(w);
    vstd::seq_lib::to_multiset_len(v);
    if lex_prec(w, v, d) {
        let i = choose|i: int| 0 <= i < w.len() && i < v.len() && w.subrange(0, i) == v.subrange(0, i) && #[trigger] precedes(w[i], v[i], d);
        if i == 0 {
            vstd::seq_lib::to_multiset_contains(v, v[0]);
            vstd::seq_lib::to_multiset_contains(w, v[0]);
            assert(v.contains(v[0])) by {
                assert(v[0] == v[0]);
            }
            let k = w.lemma_contains_to_index(v[0]);
            assert(!precedes(w[0], w[k], d));
        } else {
            assert(w.subrange(0, i)[0] == v.subrange(0, i)[0]);
            assert(w.subrange(0, 1) =~= v.subrange(0, 1));
            lemma_suffix_multiset(w, v, 1);
            let w1 = w.subrange(1, w.len() as int);
            let v1 = v.subrange(1, v.len() as int);
            assert forall|a: int, b: int| 0 <= a <= b < w1.len() implies !#[trigger] precedes(w1[a], w1[b], d) by {
                assert(!precedes(w[a + 1], w[b + 1], d));
            }
            assert(w1.subrange(0, i - 1) =~= w.subrange(0, i).subrange(1, i));
            assert(v1.subrange(0, i - 1) =~= v.subrange(0, i).subrange(1, i));
            assert(precedes(w1[i - 1], v1[i - 1], d));
            lemma_max_arrangement(w1, v1, d);
        }
    }
}

/// An arrangement ordered toward its end comes before no other arrangement of its items.
proof fn lemma_min_arrangement<T: PartialOrd>(w: Seq<T>, v: Seq<T>, d: bool)
    requires
        total_order::<T>(),
        forall|a: int, b: int| 0 <= a <= b < w.len() ==> !#[trigger] precedes(w[b], w[a], d),
        v.to_multiset() == w.to_multiset(),
    ensures
        !lex_prec(v, w, d),
{
    let nd = !d;
    assert forall|x: T, y: T| #[trigger] precedes(x, y, nd) == precedes(y, x, d) by {}
    assert forall|a: int, b: int| 0 <= a <= b < w.len() implies !#[trigger] precedes(w[a], w[b], nd) by {
        assert(!precedes(w[b], w[a], d));
    }
    lemma_max_arrangement(w, v, nd);
    if lex_prec(v, w, d) {
        let i = choose|i: int| 0 <= i < v.len() && i < w.len() && v.subrange(0, i) == w.subrange(0, i) && #[trigger] precedes(v[i], w[i], d);
        assert(precedes(w[i], v[i], nd));
    }
}

/// No arrangement of the same items lies strictly between a step's start and its result.
/// A step rearranges the items it is given.
proof fn lemma_step_multiset<T: PartialOrd>(s: Seq<T>, d: bool)
    ensures
        perm_step(s, d).0.to_multiset() == s.to_multiset(),
{
    let n = s.len() as int;
    lemma_last_rise(s, n, d);
    if last_rise(s, n, d) == 0 {
        s.lemma_reverse_to_multiset();
    } else {
        let p = last_rise(s, n, d) - 1;
        lemma_last_above(s, p, n, d);
        let q = last_above(s, p, n, d);
        let t = s.update(p, s[q]).update(q, s[p]);
        lemma_swap_multiset(s, p, q);
        assert(t =~= t.subrange(0, p + 1) + t.subrange(p + 1, n));
        vstd::seq_lib::lemma_multiset_commutative(t.subrange(0, p + 1), t.subrange(p + 1, n));
        vstd::seq_lib::lemma_multiset_commutative(t.subrange(0, p + 1), t.subrange(p + 1, n).reverse());
        t.subrange(p + 1, n).lemma_reverse_to_multiset();
    }
}

#[verifier::rlimit(40)]
proof fn lemma_step_least<T: PartialOrd>(s: Seq<T>, u: Seq<T>, d: bool)
    requires
        total_order::<T>(),
        perm_step(s, d).1,
        u.to_multiset() == s.to_multiset(),
        lex_prec(s, u, d),
    ensures
        !lex_prec(u, perm_step(s, d).0, d),
{
    lemma_precedes_facts::<T>(d);
    vstd::seq_lib::to_multiset_len(s);
    vstd::seq_lib::to_multiset_len(u);
    let n = s.len() as int;
    lemma_last_rise(s, n, d);
    let p = last_rise(s, n, d) - 1;
    lemma_last_above(s, p, n, d);
    let q = last_above(s, p, n, d);
    assert(rise_at(s, p + 1, d));
    assert(q != p);
    let t = s.update(p, s[q]).update(q, s[p]);
    let r = t.subrange(0, p + 1) + t.subrange(p + 1, n).reverse();
    assert(perm_step(s, d).0 == r);
    assert forall|x: int| 0 <= x <= p implies #[trigger] r[x] == t[x] by {}
    assert forall|x: int| p < x < n implies #[trigger] r[x] == t[n + p - x] by {}
    // the items are the same
    lemma_swap_multiset(s, p, q);
    assert(t =~= t.subrange(0, p + 1) + t.subrange(p + 1, n));
    vstd::seq_lib::lemma_multiset_commutative(t.subrange(0, p + 1), t.subrange(p + 1, n));
    vstd::seq_lib::lemma_multiset_commutative(t.subrange(0, p + 1), t.subrange(p + 1, n).reverse());
    t.subrange(p + 1, n).lemma_reverse_to_multiset();
    assert(r.to_multiset() == s.to_multiset());
    // the part of s after p is ordered from its start
    lemma_no_rise_chain(s, p + 1, n, d);
    // the part of r after p is ordered toward its end
    assert forall|y: int| p + 1 < y < n implies !#[trigger] rise_at(t, y, d) by {
        if y == q {
            assert(!precedes(s[y - 1], s[q], d));
            assert(precedes(s[p], s[y - 1], d));
        } else if y - 1 == q {
            assert(!precedes(s[p], s[q + 1], d));
        } else {
            assert(!rise_at(s, y, d));
        }
    }
    lemma_no_rise_chain(t, p + 1, n, d);
    let i = choose|i: int| 0 <= i < s.len() && i < u.len() && s.subrange(0, i) == u.subrange(0, i) && #[trigger] precedes(s[i], u[i], d);
    if i > p {
        assert(s.subrange(0, p + 1) =~= u.subrange(0, p + 1)) by {
            assert forall|x: int| 0 <= x < p + 1 implies s[x] == u[x] by {
                assert(s.subrange(0, i)[x] == u.subrange(0, i)[x]);
            }
        }
        lemma_suffix_multiset(s, u, p + 1);
        let s1 = s.subrange(p + 1, n);
        let u1 = u.subrange(p + 1, n);
        assert forall|a: int, b: int| 0 <= a <= b < s1.len() implies !#[trigger] precedes(s1[a], s1[b], d) by {
            assert(!precedes(s[a + p + 1], s[b + p + 1], d));
        }
        lemma_max_arrangement(s1, u1, d);
        assert(s1.subrange(0, i - p - 1) =~= u1.subrange(0, i - p - 1)) by {
            assert forall|x: int| 0 <= x < i - p - 1 implies s1[x] == u1[x] by {
                assert(s.subrange(0, i)[x + p + 1] == u.subrange(0, i)[x + p + 1]);
            }
        }
        assert(precedes(s1[i - p - 1], u1[i - p - 1], d));
        assert(false);
    }
    if lex_prec(u, r, d) {
        let j = choose|j: int| 0 <= j < u.len() && j < r.len() && u.subrange(0, j) == r.subrange(0, j) && #[trigger] precedes(u[j], r[j], d);
        if i < p {
            assert(r.subrange(0, i) =~= u.subrange(0, i)) by {
                assert forall|x: int| 0 <= x < i implies r[x] == u[x] by {
                    assert(s.subrange(0, i)[x] == u.subrange(0, i)[x]);
                }
            }
            assert(r[i] == s[i]);
            assert(precedes(r[i], u[i], d));
            lemma_lex_asym(u, r, d);
        } else {
            assert(i == p);
            assert forall|x: int| 0 <= x < p implies #[trigger] u[x] == r[x] by {
                assert(s.subrange(0, i)[x] == u.subrange(0, i)[x]);
            }
            if j < p {
                assert(u[j] == r[j]);
            } else {
                // the item u puts at p is one that s holds at or after p
                lemma_suffix_multiset(s, u, p);
                let sp = s.subrange(p, n);
                let up = u.subrange(p, n);
                vstd::seq_lib::to_multiset_contains(up, u[p]);
                vstd::seq_lib::to_multiset_contains(sp, u[p]);
                assert(up[0] == u[p]);
                assert(up.contains(u[p]));
                let k0 = sp.lemma_contains_to_index(u[p]);
                let k = k0 + p;
                assert(s[k] == u[p]);
                assert(k != p);
                assert(k <= q);
                if j == p {
                    assert(r[p] == s[q]);
                    assert(!precedes(s[k], s[q], d));
                } else {
                    assert(u.subrange(0, j)[p] == r.subrange(0, j)[p]);
                    assert(u.subrange(0, p + 1) =~= r.subrange(0, p + 1));
                    lemma_suffix_multiset(u, r, p + 1);
                    let u1 = u.subrange(p + 1, n);
                    let r1 = r.subrange(p + 1, n);
                    assert forall|a: int, b: int| 0 <= a <= b < r1.len() implies !#[trigger] precedes(r1[b], r1[a], d) by {
                        assert(r1[b] == t[n - 1 - b]);
                        assert(r1[a] == t[n - 1 - a]);
                        assert(!precedes(t[n - 1 - b], t[n - 1 - a], d));
                    }
                    lemma_min_arrangement(r1, u1, d);
                    assert(u1.subrange(0, j - p - 1) =~= r1.subrange(0, j - p - 1)) by {
                        assert forall|x: int| 0 <= x < j - p - 1 implies u1[x] == r1[x] by {
                            assert(u.subrange(0, j)[x + p + 1] == r.subrange(0, j)[x + p + 1]);
                        }
                    }
                    assert(precedes(u1[j - p - 1], r1[j - p - 1], d));
                }
            }
        }
    }
}

/// Stepping forward then back gives the start again.
pub proof fn lemma_next_prev_roundtrip<T: PartialOrd>(s: Seq<T>)
    requires
        total_order::<T>(),
        next_perm(s).1,
    ensures
        prev_perm(next_perm(s).0) == (s, true),
{
    lemma_step_back(s, false);
}

/// Stepping back then forward gives the start again.
pub proof fn lemma_prev_next_roundtrip<T: PartialOrd>(s: Seq<T>)
    requires
        total_order::<T>(),
        prev_perm(s).1,
    ensures
        next_perm(prev_perm(s).0) == (s, true),
{
    lemma_step_back(s, true);
}

/// A step forward goes to a lexicographically greater arrangement.
pub proof fn lemma_next_is_greater<T: PartialOrd>(s: Seq<T>)
    requires
        next_perm(s).1,
    ensures
        lex_less(s, next_perm(s).0),
{
    let n = s.len() as int;
    lemma_last_rise(s, n, false);
    let p = last_rise(s, n, false) - 1;
    lemma_last_above(s, p, n, false);
    let q = last_above(s, p, n, false);
    let r = next_perm(s).0;
    assert(r[p] == s[q]);
    assert(s.subrange(0, p) =~= r.subrange(0, p));
    assert(lt(s[p], r[p]));
}

/// A step back goes to a lexicographically smaller arrangement.
pub proof fn lemma_prev_is_smaller<T: PartialOrd>(s: Seq<T>)
    requires
        prev_perm(s).1,
    ensures
        lex_less(prev_perm(s).0, s),
{
    let n = s.len() as int;
    lemma_last_rise(s, n, true);
    let p = last_rise(s, n, true) - 1;
    lemma_last_above(s, p, n, true);
    let q = last_above(s, p, n, true);
    let r = prev_perm(s).0;
    assert(r[p] == s[q]);
    assert(s.subrange(0, p) =~= r.subrange(0, p));
    assert(lt(r[p], s[p]));
}

/// The step forward goes to the least greater arrangement: no arrangement of
/// the same items comes after the start and before the result.
pub proof fn lemma_next_is_least_greater<T: PartialOrd>(s: Seq<T>, u: Seq<T>)
    requires
        total_order::<T>(),
        next_perm(s).1,
        u.to_multiset() == s.to_multiset(),
        lex_less(s, u),
    ensures
        !lex_less(u, next_perm(s).0),
{
    let i = choose|i: int| 0 <= i < s.len() && i < u.len() && s.subrange(0, i) == u.subrange(0, i) && #[trigger] lt(s[i], u[i]);
    assert(precedes(s[i], u[i], false));
    lemma_step_least(s, u, false);
    let r = next_perm(s).0;
    if lex_less(u, r) {
        let j = choose|j: int| 0 <= j < u.len() && j < r.len() && u.subrange(0, j) == r.subrange(0, j) && #[trigger] lt(u[j], r[j]);
        assert(precedes(u[j], r[j], false));
    }
}

/// The step back goes to the greatest smaller arrangement: no arrangement of
/// the same items comes after the result and before the start.
pub proof fn lemma_prev_is_greatest_smaller<T: PartialOrd>(s: Seq<T>, u: Seq<T>)
    requires
        total_order::<T>(),
        prev_perm(s).1,
        u.to_multiset() == s.to_multiset(),
        lex_less(u, s),
    ensures
        !lex_less(prev_perm(s).0, u),
{
    let i = choose|i: int| 0 <= i < u.len() && i < s.len() && u.subrange(0, i) == s.subrange(0, i) && #[trigger] lt(u[i], s[i]);
    assert(precedes(s[i], u[i], true));
    assert(s.subrange(0, i) == u.subrange(0, i));
    lemma_step_least(s, u, true);
    let r = prev_perm(s).0;
    if lex_less(r, u) {
        let j = choose|j: int| 0 <= j < r.len() && j < u.len() && r.subrange(0, j) == u.subrange(0, j) && #[trigger] lt(r[j], u[j]);
        assert(precedes(u[j], r[j], true));
        assert(u.subrange(0, j) == r.subrange(0, j));
    }
}

/// When there is no next arrangement, no arrangement of the same items is
/// greater; when there is no previous one, none is smaller.
pub proof fn lemma_no_step_is_extreme<T: PartialOrd>(s: Seq<T>, u: Seq<T>)
    requires
        total_order::<T>(),
        u.to_multiset() == s.to_multiset(),
    ensures
        !next_perm(s).1 ==> !lex_less(s, u),
        !prev_perm(s).1 ==> !lex_less(u, s),
{
    let n = s.len() as int;
    if n > 0 {
        lemma_last_rise(s, n, false);
        lemma_last_rise(s, n, true);
        if !next_perm(s).1 {
            lemma_no_rise_chain(s, 0, n, false);
            lemma_max_arrangement(s, u, false);
            if lex_less(s, u) {
                let i = choose|i: int| 0 <= i < s.len() && i < u.len() && s.subrange(0, i) == u.subrange(0, i) && #[trigger] lt(s[i], u[i]);
                assert(precedes(s[i], u[i], false));
            }
        }
        if !prev_perm(s).1 {
            lemma_no_rise_chain(s, 0, n, true);
            lemma_max_arrangement(s, u, true);
            if lex_less(u, s) {
                let i = choose|i: int| 0 <= i < u.len() && i < s.len() && u.subrange(0, i) == s.subrange(0, i) && #[trigger] lt(u[i], s[i]);
                assert(precedes(s[i], u[i], true));
                assert(s.subrange(0, i) == u.subrange(0, i));
            }
        }
    }
}

/// `s` after `k` steps forward.
pub open spec fn next_walk<T: PartialOrd>(s: Seq<T>, k: nat) -> Seq<T>
    decreases k,
{
    if k == 0 {
        s
    } else {
        next_walk(next_perm(s).0, (k - 1) as nat)
    }
}

/// Each of the first `k` steps forward from `s` finds a next arrangement.
pub open spec fn walk_found<T: PartialOrd>(s: Seq<T>, k: nat) -> bool {
    forall|j: nat| j < k ==> #[trigger] next_perm(next_walk(s, j)).1
}

proof fn lemma_walk_shift<T: PartialOrd>(s: Seq<T>, k: nat)
    requires
        next_perm(s).1,
        walk_found(next_perm(s).0, k),
    ensures
        walk_found(s, k + 1),
        next_walk(s, k + 1) == next_walk(next_perm(s).0, k),
{
    assert forall|j: nat| j < k + 1 implies #[trigger] next_perm(next_walk(s, j)).1 by {
        if j > 0 {
            assert(next_walk(s, j) == next_walk(next_perm(s).0, (j - 1) as nat));
            assert(next_perm(next_walk(next_perm(s).0, (j - 1) as nat)).1);
        }
    }
}

proof fn lemma_usize_order()
    ensures
        total_order::<usize>(),
        forall|a: usize, b: usize| #[trigger] lt(a, b) <==> a < b,
{
}

/// Stepping forward from any arrangement of indices reaches every
/// arrangement of the same indices that does not come before it, each step
/// finding a next arrangement on the way.
pub proof fn lemma_next_reaches(s: Seq<usize>, u: Seq<usize>)
    requires
        u.to_multiset() == s.to_multiset(),
        !lex_less(u, s),
    ensures
        exists|k: nat| walk_found(s, k) && #[trigger] next_walk(s, k) == u,
    decreases code(s.to_set(), u) - code(s.to_set(), s),
{
    lemma_usize_order();
    broadcast use vstd::seq_lib::group_to_multiset_ensures;
    broadcast use vstd::seq_lib::seq_to_set_is_finite;
    let d = s.to_set();
    vstd::seq_lib::to_multiset_len(s);
    vstd::seq_lib::to_multiset_len(u);
    assert forall|k: int| 0 <= k < u.len() implies d.contains(#[trigger] u[k]) by {
        assert(u.to_multiset().count(u[k]) > 0);
        assert(s.contains(u[k]));
    }
    if s == u {
        assert(walk_found(s, 0));
        assert(next_walk(s, 0) == u);
    } else {
        // the first place where they differ decides the order
        let i = choose|i: int| 0 <= i < s.len() && s[i] != u[i];
        assert(exists|i: int| 0 <= i < s.len() && s[i] != u[i]) by {
            if forall|i: int| 0 <= i < s.len() ==> s[i] == u[i] {
                assert(s =~= u);
            }
        }
        let f = choose|f: int| 0 <= f < s.len() && s[f] != u[f] && forall|x: int| 0 <= x < f ==> s[x] == u[x];
        assert(exists|f: int| 0 <= f < s.len() && s[f] != u[f] && forall|x: int| 0 <= x < f ==> s[x] == u[x]) by {
            lemma_first_difference(s, u, i);
        }
        assert(s.subrange(0, f) =~= u.subrange(0, f));
        if u[f] < s[f] {
            assert(lt(u[f], s[f]));
            assert(lex_less(u, s));
        }
        assert(lt(s[f], u[f]));
        assert(lex_less(s, u));
        lemma_no_step_is_extreme(s, u);
        assert(next_perm(s).1);
        let t = next_perm(s).0;
        lemma_step_multiset(s, false);
        lemma_next_is_greater(s);
        lemma_next_is_least_greater(s, u);
        vstd::seq_lib::to_multiset_len(t);
        assert forall|k: int| 0 <= k < t.len() implies d.contains(#[trigger] t[k]) by {
            assert(t.to_multiset().count(t[k]) > 0);
            assert(s.contains(t[k]));
        }
        assert forall|k: int| 0 <= k < s.len() implies d.contains(#[trigger] s[k]) by {
            assert(s.contains(s[k]));
        }
        let g = choose|g: int| 0 <= g < s.len() && g < t.len() && s.subrange(0, g) == t.subrange(0, g) && #[trigger] lt(s[g], t[g]);
        lemma_code_less(d, s, t, g);
        assert(t.to_set() == d) by {
            assert forall|x: usize| #[trigger] t.to_set().contains(x) == d.contains(x) by {
                assert(t.to_multiset().count(x) == s.to_multiset().count(x));
            }
            assert(t.to_set() =~= d);
        }
        if t != u {
            // u comes after t
            let h = choose|h: int| 0 <= h < t.len() && t[h] != u[h] && forall|x: int| 0 <= x < h ==> t[x] == u[x];
            assert(exists|h: int| 0 <= h < t.len() && t[h] != u[h] && forall|x: int| 0 <= x < h ==> t[x] == u[x]) by {
                let i2 = choose|i2: int| 0 <= i2 < t.len() && t[i2] != u[i2];
                assert(exists|i2: int| 0 <= i2 < t.len() && t[i2] != u[i2]) by {
                    if forall|i2: int| 0 <= i2 < t.len() ==> t[i2] == u[i2] {
                        assert(t =~= u);
                    }
                }
                lemma_first_difference(t, u, i2);
            }
            assert(t.subrange(0, h) =~= u.subrange(0, h));
            if u[h] < t[h] {
                assert(lt(u[h], t[h]));
                assert(lex_less(u, t));
            }
            assert(lt(t[h], u[h]));
            lemma_code_less(d, t, u, h);
        }
        lemma_next_reaches(t, u);
        let k = choose|k: nat| walk_found(t, k) && #[trigger] next_walk(t, k) == u;
        lemma_walk_shift(s, k);
        assert(next_walk(s, k + 1) == u);
    }
}

proof fn lemma_first_difference<T>(a: Seq<T>, b: Seq<T>, i: int)
    requires
        0 <= i < a.len(),
        i < b.len(),
        a[i] != b[i],
    ensures
        exists|f: int| 0 <= f < a.len() && a[f] != b[f] && forall|x: int| 0 <= x < f ==> a[x] == b[x],
    decreases i,
{
    if exists|x: int| 0 <= x < i && a[x] != b[x] {
        let x = choose|x: int| 0 <= x < i && a[x] != b[x];
        lemma_first_difference(a, b, x);
    } else {
        assert(forall|x: int| 0 <= x < i ==> a[x] == b[x]);
    }
}

/// The cursor over `[start, start + n)` starts at the least arrangement, so
/// stepping forward from it reaches every arrangement of those indices.
pub proof fn lemma_indices_reach_all(n: nat, start: int, u: Seq<usize>)
    requires
        u.to_multiset() == index_range(n, start).to_multiset(),
        0 <= start,
        start + n <= usize::MAX,
    ensures
        exists|k: nat| walk_found(index_range(n, start), k) && #[trigger] next_walk(index_range(n, start), k) == u,
{
    lemma_usize_order();
    let w = index_range(n, start);
    assert forall|a: int, b: int| 0 <= a <= b < w.len() implies !#[trigger] precedes(w[b], w[a], false) by {}
    lemma_min_arrangement(w, u, false);
    if lex_less(u, w) {
        let i = choose|i: int| 0 <= i < u.len() && i < w.len() && u.subrange(0, i) == w.subrange(0, i) && #[trigger] lt(u[i], w[i]);
        assert(precedes(u[i], w[i], false));
    }
    lemma_next_reaches(w, u);
}

/// `n!`.
pub open spec fn factorial(n: nat) -> nat
    decreases n,
{
    if n == 0 {
        1
    } else {
        n * factorial((n - 1) as nat)
    }
}

/// The arrangements of the items of `s`.
pub open spec fn arrangements(s: Seq<usize>) -> Set<Seq<usize>> {
    Set::new(|u: Seq<usize>| u.to_multiset() == s.to_multiset())
}

/// The arrangements of `s` that start with one of its first `k` items.
spec fn first_among(s: Seq<usize>, k: int) -> Set<Seq<usize>>
    decreases k,
{
    if k <= 0 {
        Set::empty()
    } else {
        first_among(s, k - 1) + arrangements(s.remove(k - 1)).map(|v: Seq<usize>| seq![s[k - 1]] + v)
    }
}

proof fn lemma_remove_distinct(s: Seq<usize>, i: int)
    requires
        s.no_duplicates(),
        0 <= i < s.len(),
    ensures
        s.remove(i).no_duplicates(),
        s.remove(i).len() == s.len() - 1,
        forall|j: int| 0 <= j < s.remove(i).len() ==> #[trigger] s.remove(i)[j] != s[i],
{
    let r = s.remove(i);
    assert forall|a: int, b: int| 0 <= a < r.len() && 0 <= b < r.len() && a != b implies r[a] != r[b] by {
        let a2 = if a < i { a } else { a + 1 };
        let b2 = if b < i { b } else { b + 1 };
        assert(r[a] == s[a2]);
        assert(r[b] == s[b2]);
    }
    assert forall|j: int| 0 <= j < r.len() implies #[trigger] r[j] != s[i] by {
        let j2 = if j < i { j } else { j + 1 };
        assert(r[j] == s[j2]);
    }
}

/// The arrangements of `k` leading choices number `k` times `(n - 1)!`, and
/// are those that start with one of the first `k` items.
proof fn lemma_first_among(s: Seq<usize>, k: int)
    requires
        s.no_duplicates(),
        1 <= s.len(),
        0 <= k <= s.len(),
    ensures
        first_among(s, k).finite(),
        first_among(s, k).len() == k * factorial((s.len() - 1) as nat),
        forall|w: Seq<usize>| #[trigger] first_among(s, k).contains(w) <==> (w.len() > 0 && exists|i: int| 0 <= i < k
            && w[0] == s[i] && arrangements(s.remove(i)).contains(w.drop_first())),
    decreases s.len(), k,
{
    broadcast use vstd::set::group_set_axioms;
    if k == 0 {
        assert(first_among(s, k) =~= Set::<Seq<usize>>::empty());
    } else {
        lemma_first_among(s, k - 1);
        let x = s[k - 1];
        let r = s.remove(k - 1);
        lemma_remove_distinct(s, k - 1);
        lemma_arrangements_count(r);
        let f = |v: Seq<usize>| seq![x] + v;
        let a = arrangements(r);
        let b = a.map(f);
        assert forall|v1: Seq<usize>, v2: Seq<usize>| a.contains(v1) && a.contains(v2) && #[trigger] f(v1) == #[trigger] f(v2)
            implies v1 == v2 by {
            assert(f(v1).drop_first() =~= v1);
            assert(f(v2).drop_first() =~= v2);
        }
        assert(vstd::relations::injective_on(f, a));
        vstd::set_lib::lemma_map_size(a, b, f);
        let prev = first_among(s, k - 1);
        assert forall|w: Seq<usize>| #[trigger] b.contains(w) <==> (w.len() > 0 && w[0] == x && a.contains(w.drop_first())) by {
            if b.contains(w) {
                let v = choose|v: Seq<usize>| a.contains(v) && f(v) == w;
                assert(w.drop_first() =~= v);
            }
            if w.len() > 0 && w[0] == x && a.contains(w.drop_first()) {
                assert(f(w.drop_first()) =~= w);
                assert(a.contains(w.drop_first()) && f(w.drop_first()) == w);
            }
        }
        assert(prev.disjoint(b)) by {
            assert forall|w: Seq<usize>| prev.contains(w) implies !b.contains(w) by {
                let i = choose|i: int| 0 <= i < k - 1 && w[0] == s[i] && arrangements(s.remove(i)).contains(w.drop_first());
                assert(s[i] != s[k - 1]);
            }
        }
        vstd::set_lib::lemma_set_disjoint_lens(prev, b);
        assert(first_among(s, k) == prev + b);
        assert((k - 1) * factorial((s.len() - 1) as nat) + factorial((s.len() - 1) as nat)
            == k * factorial((s.len() - 1) as nat)) by (nonlinear_arith);
        assert forall|w: Seq<usize>| #[trigger] first_among(s, k).contains(w) <==> (w.len() > 0 && exists|i: int| 0 <= i < k
            && w[0] == s[i] && arrangements(s.remove(i)).contains(w.drop_first())) by {
            if w.len() > 0 && exists|i: int| 0 <= i < k && w[0] == s[i] && arrangements(s.remove(i)).contains(w.drop_first()) {
                let i = choose|i: int| 0 <= i < k && w[0] == s[i] && arrangements(s.remove(i)).contains(w.drop_first());
                if i < k - 1 {
                    assert(prev.contains(w));
                } else {
                    assert(b.contains(w));
                }
            }
            if b.contains(w) {
                assert(w[0] == s[k - 1] && arrangements(s.remove(k - 1)).contains(w.drop_first()));
            }
        }
    }
}

/// `n` distinct items have `n!` arrangements.
pub proof fn lemma_arrangements_count(s: Seq<usize>)
    requires
        s.no_duplicates(),
    ensures
        arrangements(s).finite(),
        arrangements(s).len() == factorial(s.len()),
    decreases s.len(), s.len() + 1,
{
    broadcast use vstd::set::group_set_axioms;
    broadcast use vstd::seq_lib::group_to_multiset_ensures;
    broadcast use vstd::multiset::group_multiset_axioms;
    if s.len() == 0 {
        assert forall|u: Seq<usize>| #[trigger] arrangements(s).contains(u) <==> u == Seq::<usize>::empty() by {
            if arrangements(s).contains(u) {
                vstd::seq_lib::to_multiset_len(u);
                vstd::seq_lib::to_multiset_len(s);
                assert(u =~= Seq::<usize>::empty());
            }
            if u == Seq::<usize>::empty() {
                assert(s =~= Seq::<usize>::empty());
            }
        }
        assert(arrangements(s) =~= set![Seq::<usize>::empty()]);
    } else {
        let n = s.len() as int;
        lemma_first_among(s, n);
        assert forall|u: Seq<usize>| #[trigger] arrangements(s).contains(u) <==> first_among(s, n).contains(u) by {
            if arrangements(s).contains(u) {
                vstd::seq_lib::to_multiset_len(u);
                vstd::seq_lib::to_multiset_len(s);
                assert(u.len() == n);
                assert(u.to_multiset().count(u[0]) > 0);
                assert(s.contains(u[0]));
                let i = choose|i: int| 0 <= i < n && s[i] == u[0];
                vstd::seq_lib::to_multiset_remove(u, 0);
                vstd::seq_lib::to_multiset_remove(s, i);
                assert(u.remove(0) =~= u.drop_first());
                assert(arrangements(s.remove(i)).contains(u.drop_first()));
            }
            if first_among(s, n).contains(u) {
                let i = choose|i: int| 0 <= i < n && u[0] == s[i] && arrangements(s.remove(i)).contains(u.drop_first());
                let v = u.drop_first();
                vstd::seq_lib::to_multiset_insert(v, 0, s[i]);
                assert(v.insert(0, s[i]) =~= u);
                vstd::seq_lib::to_multiset_remove(s, i);
                assert(s.to_multiset().count(s[i]) > 0);
                assert(s.to_multiset().remove(s[i]).insert(s[i]) =~= s.to_multiset());
            }
        }
        assert(arrangements(s) =~= first_among(s, n));
        assert(factorial(s.len()) == n * factorial((n - 1) as nat));
    }
}

/// One step forward from an arrangement of `s0`'s items gives another one,
/// with a greater code.
proof fn lemma_step_code(s0: Seq<usize>, u: Seq<usize>)
    requires
        u.to_multiset() == s0.to_multiset(),
        next_perm(u).1,
    ensures
        next_perm(u).0.to_multiset() == s0.to_multiset(),
        code(s0.to_set(), u) < code(s0.to_set(), next_perm(u).0),
{
    lemma_usize_order();
    broadcast use vstd::seq_lib::group_to_multiset_ensures;
    broadcast use vstd::seq_lib::seq_to_set_is_finite;
    let d = s0.to_set();
    let t = next_perm(u).0;
    lemma_step_multiset(u, false);
    lemma_next_is_greater(u);
    vstd::seq_lib::to_multiset_len(u);
    vstd::seq_lib::to_multiset_len(t);
    assert forall|k: int| 0 <= k < u.len() implies d.contains(#[trigger] u[k]) by {
        assert(u.to_multiset().count(u[k]) > 0);
        assert(s0.contains(u[k]));
    }
    assert forall|k: int| 0 <= k < t.len() implies d.contains(#[trigger] t[k]) by {
        assert(t.to_multiset().count(t[k]) > 0);
        assert(s0.contains(t[k]));
    }
    let g = choose|g: int| 0 <= g < u.len() && g < t.len() && u.subrange(0, g) == t.subrange(0, g) && #[trigger] lt(u[g], t[g]);
    lemma_code_less(d, u, t, g);
}

/// Along a walk whose steps all find a next arrangement, every arrangement
/// reached has the start's items, and later ones have greater codes.
proof fn lemma_walk_codes(s: Seq<usize>, k: nat)
    requires
        walk_found(s, k),
    ensures
        forall|j: nat| j <= k ==> (#[trigger] next_walk(s, j)).to_multiset() == s.to_multiset(),
        forall|i: nat, j: nat| i < j <= k ==> code(s.to_set(), #[trigger] next_walk(s, i))
            < code(s.to_set(), #[trigger] next_walk(s, j)),
    decreases k,
{
    if k > 0 {
        let k1 = (k - 1) as nat;
        assert(walk_found(s, k1)) by {
            assert forall|j: nat| j < k1 implies #[trigger] next_perm(next_walk(s, j)).1 by {
                assert(next_perm(next_walk(s, j)).1);
            }
        }
        lemma_walk_codes(s, k1);
        lemma_walk_step(s, k1);
        assert(next_perm(next_walk(s, k1)).1);
        lemma_step_code(s, next_walk(s, k1));
        assert forall|i: nat, j: nat| i < j <= k implies code(s.to_set(), #[trigger] next_walk(s, i))
            < code(s.to_set(), #[trigger] next_walk(s, j)) by {
            if j == k && i < k1 {
                assert(code(s.to_set(), next_walk(s, i)) < code(s.to_set(), next_walk(s, k1)));
            }
        }
    }
}

/// A step that finds no next arrangement has a first such step.
proof fn lemma_first_stop<T: PartialOrd>(s: Seq<T>, j: nat)
    requires
        !next_perm(next_walk(s, j)).1,
    ensures
        exists|m: nat| m <= j && walk_found(s, m) && !next_perm(#[trigger] next_walk(s, m)).1,
    decreases j,
{
    if walk_found(s, j) {
        assert(walk_found(s, j) && !next_perm(next_walk(s, j)).1);
    } else {
        let i = choose|i: nat| i < j && !#[trigger] next_perm(next_walk(s, i)).1;
        lemma_first_stop(s, i);
        let m = choose|m: nat| m <= i && walk_found(s, m) && !next_perm(#[trigger] next_walk(s, m)).1;
        assert(m <= j && walk_found(s, m) && !next_perm(next_walk(s, m)).1);
    }
}

/// The arrangements reached by the first `k + 1` places of a walk whose
/// steps all find a next arrangement.
spec fn walk_image(s: Seq<usize>, k: nat) -> Set<Seq<usize>> {
    vstd::set_lib::set_int_range(0, k + 1 as int).map(|j: int| next_walk(s, j as nat))
}

proof fn lemma_walk_image(s: Seq<usize>, k: nat)
    requires
        walk_found(s, k),
    ensures
        walk_image(s, k).finite(),
        walk_image(s, k).len() == k + 1,
        walk_image(s, k).subset_of(arrangements(s)),
        forall|u: Seq<usize>| #[trigger] walk_image(s, k).contains(u) <==> exists|j: nat| j <= k && next_walk(s, j) == u,
{
    let r = vstd::set_lib::set_int_range(0, k + 1 as int);
    let f = |j: int| next_walk(s, j as nat);
    vstd::set_lib::lemma_int_range(0, k + 1 as int);
    lemma_walk_codes(s, k);
    assert forall|a: int, b: int| r.contains(a) && r.contains(b) && #[trigger] f(a) == #[trigger] f(b) implies a == b by {
        if a < b {
            assert(code(s.to_set(), next_walk(s, a as nat)) < code(s.to_set(), next_walk(s, b as nat)));
        } else if b < a {
            assert(code(s.to_set(), next_walk(s, b as nat)) < code(s.to_set(), next_walk(s, a as nat)));
        }
    }
    assert(vstd::relations::injective_on(f, r));
    vstd::set_lib::lemma_map_size(r, r.map(f), f);
    assert forall|u: Seq<usize>| #[trigger] walk_image(s, k).contains(u) <==> exists|j: nat| j <= k && next_walk(s, j) == u by {
        if walk_image(s, k).contains(u) {
            let j = choose|j: int| r.contains(j) && f(j) == u;
            assert(next_walk(s, j as nat) == u);
        }
        if exists|j: nat| j <= k && next_walk(s, j) == u {
            let j = choose|j: nat| j <= k && next_walk(s, j) == u;
            assert(r.contains(j as int) && f(j as int) == u);
        }
    }
    assert forall|u: Seq<usize>| #[trigger] walk_image(s, k).contains(u) implies arrangements(s).contains(u) by {
        let j = choose|j: nat| j <= k && next_walk(s, j) == u;
        assert(next_walk(s, j).to_multiset() == s.to_multiset());
    }
}

/// The cursor over `[start, start + n)` (with `n >= 1`) goes through exactly
/// `n!` arrangements: from the first, each of `n! - 1` steps forward finds a
/// next arrangement, and the step after them finds none.
pub proof fn lemma_indices_count(n: nat, start: int)
    requires
        1 <= n,
        0 <= start,
        start + n <= usize::MAX,
    ensures
        walk_found(index_range(n, start), (factorial(n) - 1) as nat),
        !next_perm(next_walk(index_range(n, start), (factorial(n) - 1) as nat)).1,
{
    let w = index_range(n, start);
    let a = arrangements(w);
    assert(w.no_duplicates());
    lemma_arrangements_count(w);
    let total = factorial(n);
    assert(total >= 1) by {
        lemma_factorial_positive(n);
    }
    // the walk cannot find a next arrangement n! times in a row
    if walk_found(w, total) {
        lemma_walk_image(w, total);
        vstd::set_lib::lemma_len_subset(walk_image(w, total), a);
        assert(false);
    }
    let j = choose|j: nat| j < total && !#[trigger] next_perm(next_walk(w, j)).1;
    lemma_first_stop(w, j);
    let m = choose|m: nat| m <= j && walk_found(w, m) && !next_perm(#[trigger] next_walk(w, m)).1;
    lemma_walk_image(w, m);
    // every arrangement is reached within the first m steps
    assert forall|u: Seq<usize>| #[trigger] a.contains(u) implies walk_image(w, m).contains(u) by {
        lemma_indices_reach_all(n, start, u);
        let k = choose|k: nat| walk_found(w, k) && #[trigger] next_walk(w, k) == u;
        if k > m {
            assert(next_perm(next_walk(w, m)).1);
        }
        assert(k <= m && next_walk(w, k) == u);
    }
    assert(walk_image(w, m) =~= a);
    assert(m == total - 1);
}

proof fn lemma_factorial_positive(n: nat)
    ensures
        factorial(n) >= 1,
    decreases n,
{
    if n > 0 {
        lemma_factorial_positive((n - 1) as nat);
        assert(n * factorial((n - 1) as nat) >= 1) by (nonlinear_arith)
            requires
                n >= 1,
                factorial((n - 1) as nat) >= 1,
        ;
    }
}

/// With no next arrangement, the step leaves the items in ascending order;
/// with no previous one, in descending order.
pub proof fn lemma_wrap_around<T: PartialOrd>(s: Seq<T>)
    requires
        total_order::<T>(),
    ensures
        !next_perm(s).1 ==> forall|i: int| 1 <= i < s.len() ==> #[trigger] le(next_perm(s).0[i - 1], next_perm(s).0[i]),
        !prev_perm(s).1 ==> forall|i: int| 1 <= i < s.len() ==> #[trigger] le(prev_perm(s).0[i], prev_perm(s).0[i - 1]),
{
    let n = s.len() as int;
    lemma_last_rise(s, n, false);
    lemma_last_rise(s, n, true);
    if !next_perm(s).1 {
        let r = next_perm(s).0;
        assert forall|i: int| 1 <= i < n implies #[trigger] le(r[i - 1], r[i]) by {
            let j = n - i;
            assert(r[i - 1] == s[j]);
            assert(r[i] == s[j - 1]);
            assert(!rise_at(s, j, false));
            assert(lt(s[j - 1], s[j]) <==> !le(s[j], s[j - 1]));
        }
    }
    if !prev_perm(s).1 {
        let r = prev_perm(s).0;
        assert forall|i: int| 1 <= i < n implies #[trigger] le(r[i], r[i - 1]) by {
            let j = n - i;
            assert(r[i - 1] == s[j]);
            assert(r[i] == s[j - 1]);
            assert(!rise_at(s, j, true));
            assert(lt(s[j], s[j - 1]) <==> !le(s[j - 1], s[j]));
        }
    }
}


/// Reverses `s[lo..hi]` in place.
fn reverse_range<T>(s: &mut [T], lo: usize, hi: usize)
    requires
        lo <= hi <= old(s)@.len(),
    ensures
        final(s)@ == old(s)@.subrange(0, lo as int) + old(s)@.subrange(lo as int, hi as int).reverse()
            + old(s)@.subrange(hi as int, old(s)@.len() as int),
        final(s)@.to_multiset() == old(s)@.to_multiset(),
{
    let ghost s0 = s@;
    let mut i = lo;
    let mut j = hi;
    while j - i > 1
        invariant
            lo <= i <= j <= hi,
            hi <= s0.len(),
            i - lo == hi - j,
            s@.len() == s0.len(),
            s@.to_multiset() == s0.to_multiset(),
            forall|x: int| 0 <= x < lo ==> #[trigger] s@[x] == s0[x],
            forall|x: int| hi <= x < s0.len() ==> #[trigger] s@[x] == s0[x],
            forall|x: int| i <= x < j ==> #[trigger] s@[x] == s0[x],
            forall|x: int| lo <= x < i ==> #[trigger] s@[x] == s0[lo + hi - 1 - x],
            forall|x: int| j <= x < hi ==> #[trigger] s@[x] == s0[lo + hi - 1 - x],
        decreases j - i,
    {
        proof {
            lemma_swap_multiset(s@, i as int, (j - 1) as int);
        }
        swap_items(s, i, j - 1);
        i += 1;
        j -= 1;
    }
    proof {
        let r = s0.subrange(0, lo as int) + s0.subrange(lo as int, hi as int).reverse() + s0.subrange(hi as int, s0.len() as int);
        assert forall|x: int| 0 <= x < s0.len() implies #[trigger] s@[x] == r[x] by {
            if lo <= x < hi {
                if i <= x < j {
                    assert(x == lo + hi - 1 - x || j - i <= 1);
                }
            }
        }
        assert(s@ =~= r);
    }
}

/// One lexicographic step in place; see `perm_step`.
fn step<T: Ord>(elements: &mut [T], desc: bool) -> (r: bool)
    ensures
        final(elements)@.len() == old(elements)@.len(),
        final(elements)@.to_multiset() == old(elements)@.to_multiset(),
        comparisons_specified::<T>() ==> (final(elements)@, r) == perm_step(old(elements)@, desc),
{
    let ghost s = elements@;
    let n = elements.len();
    if n < 2 {
        proof {
            assert(s.reverse() =~= s);
        }
        return false;
    }
    let mut k = n;
    while k >= 2
        invariant
            2 <= n == s.len(),
            elements@ == s,
            1 <= k <= n,
            comparisons_specified::<T>() ==> last_rise(s, n as int, desc) == last_rise(s, k as int, desc),
        ensures
            k >= 2 ==> (comparisons_specified::<T>() ==> precedes(s[k - 2], s[k - 1], desc)),
        decreases k,
    {
        let rise = if desc { elements[k - 1] < elements[k - 2] } else { elements[k - 2] < elements[k - 1] };
        if rise {
            break;
        }
        k -= 1;
    }
    if k < 2 {
        reverse_range(elements, 0, n);
        proof {
            assert(elements@ =~= s.reverse());
        }
        return false;
    }
    let p = k - 2;
    let mut m = n;
    while m > p + 1
        invariant
            2 <= n == s.len(),
            elements@ == s,
            p + 2 <= n,
            p + 1 <= m <= n,
            comparisons_specified::<T>() ==> last_above(s, p as int, n as int, desc) == last_above(s, p as int, m as int, desc),
        ensures
            m > p + 1 ==> (comparisons_specified::<T>() ==> precedes(s[p as int], s[m - 1], desc)),
        decreases m,
    {
        let above = if desc { elements[m - 1] < elements[p] } else { elements[p] < elements[m - 1] };
        if above {
            break;
        }
        m -= 1;
    }
    let q = if m > p + 1 { m - 1 } else { p };
    proof {
        lemma_swap_multiset(s, p as int, q as int);
    }
    swap_items(elements, p, q);
    let ghost t = elements@;
    reverse_range(elements, p + 1, n);
    proof {
        if comparisons_specified::<T>() {
            assert(last_rise(s, n as int, desc) == k - 1);
            assert(t.subrange(0, p + 1) == t.subrange(0, p + 1) + Seq::<T>::empty());
            assert(elements@ =~= t.subrange(0, p + 1) + t.subrange(p + 1, n as int).reverse());
        }
    }
    true
}

/// Rearranges `elements` into the next permutation in ascending lexicographic
/// order and answers `true`; from the last one (descending order) it reverses
/// `elements` into ascending order and answers `false`.
pub fn next_permutation<T: Ord>(elements: &mut [T]) -> (r: bool)
    ensures
        final(elements)@.len() == old(elements)@.len(),
        final(elements)@.to_multiset() == old(elements)@.to_multiset(),
        comparisons_specified::<T>() ==> (final(elements)@, r) == next_perm(old(elements)@),
{
    step(elements, false)
}

/// Rearranges `elements` into the previous permutation in ascending
/// lexicographic order and answers `true`; from the first one (ascending
/// order) it reverses `elements` into descending order and answers `false`.
pub fn prev_permutation<T: Ord>(elements: &mut [T]) -> (r: bool)
    ensures
        final(elements)@.len() == old(elements)@.len(),
        final(elements)@.to_multiset() == old(elements)@.to_multiset(),
        comparisons_specified::<T>() ==> (final(elements)@, r) == prev_perm(old(elements)@),
{
    step(elements, true)
}

/// The integers `start, start + 1, ..., start + n - 1`.
pub open spec fn index_range(n: nat, start: int) -> Seq<usize> {
    Seq::new(n, |i: int| (start + i) as usize)
}

/// A reusable cursor over the permutations of `[start, start + n)` in
/// ascending lexicographic order.
pub struct PermutationIndices {
    current: Vec<usize>,
    started: bool,
    exhausted: bool,
}

impl PermutationIndices {
    /// The arrangement the cursor holds.
    pub closed spec fn spec_current(&self) -> Seq<usize> {
        self.current@
    }

    /// `advance` has answered `true` at least once.
    pub closed spec fn spec_started(&self) -> bool {
        self.started
    }

    /// The cursor has run past the last permutation (or had none).
    pub closed spec fn spec_exhausted(&self) -> bool {
        self.exhausted
    }

    /// A cursor over the permutations of `[start, start + n)`; exhausted at
    /// once when `n == 0` or `start + n` overflows.
    pub fn new(n: usize, start: usize) -> (r: Self)
        ensures
            !r.spec_started(),
            r.spec_exhausted() <==> (n == 0 || start + n > usize::MAX),
            !r.spec_exhausted() ==> r.spec_current() == index_range(n as nat, start as int),
    {
        if n == 0 {
            return PermutationIndices { current: Vec::new(), started: false, exhausted: true };
        }
        let end = match start.checked_add(n) {
            Some(e) => e,
            None => return PermutationIndices { current: Vec::new(), started: false, exhausted: true },
        };
        let mut current: Vec<usize> = Vec::new();
        let mut v = start;
        while v < end
            invariant
                start <= v <= end,
                end == start + n,
                current@ == index_range((v - start) as nat, start as int),
            decreases end - v,
        {
            current.push(v);
            v += 1;
            proof {
                assert(current@ =~= index_range((v - start) as nat, start as int));
            }
        }
        PermutationIndices { current, started: false, exhausted: false }
    }

    /// Moves to the next permutation; answers whether one is available. The
    /// first call makes the initial (ascending) arrangement current.
    pub fn advance(&mut self) -> (r: bool)
        ensures
            old(self).spec_exhausted() ==> !r && *final(self) == *old(self),
            !old(self).spec_exhausted() && !old(self).spec_started() ==> r && final(self).spec_started()
                && !final(self).spec_exhausted() && final(self).spec_current() == old(self).spec_current(),
            !old(self).spec_exhausted() && old(self).spec_started() ==> final(self).spec_started()
                && (final(self).spec_current(), r) == next_perm(old(self).spec_current())
                && final(self).spec_exhausted() == !r,
    {
        if self.exhausted {
            return false;
        }
        if !self.started {
            self.started = true;
            return true;
        }
        if next_permutation(self.current.as_mut_slice()) {
            true
        } else {
            self.exhausted = true;
            false
        }
    }

    /// The current permutation, or `None` before the first successful
    /// `advance` and after the cursor is exhausted.
    pub fn current(&self) -> (r: Option<&[usize]>)
        ensures
            !self.spec_started() || self.spec_exhausted() ==> r is None,
            self.spec_started() && !self.spec_exhausted() ==> (r matches Some(c) && c@ == self.spec_current()),
    {
        if !self.started || self.exhausted {
            None
        } else {
            Some(self.current.as_slice())
        }
    }
}

/// A cursor over the permutations of `[start, start + n)`; the same as
/// `PermutationIndices::new(n, start)`.
pub fn permutation_indices(n: usize, start: usize) -> (r: PermutationIndices)
    ensures
        !r.spec_started(),
        r.spec_exhausted() <==> (n == 0 || start + n > usize::MAX),
        !r.spec_exhausted() ==> r.spec_current() == index_range(n as nat, start as int),
{
    PermutationIndices::new(n, start)
}

/// Items of `d` that come strictly before `x`.
pub open spec fn rank<T: PartialOrd>(d: Set<T>, x: T) -> nat {
    d.filter(|y: T| lt(y, x)).len()
}

/// `s` read as a number in base `d.len()` with digits `rank(d, _)`, its
/// first item the most significant digit.
pub open spec fn code<T: PartialOrd>(d: Set<T>, s: Seq<T>) -> int
    decreases s.len(),
{
    if s.len() == 0 {
        0
    } else {
        rank(d, s[0]) * pow(d.len() as int, (s.len() - 1) as nat) + code(d, s.subrange(1, s.len() as int))
    }
}

proof fn lemma_rank_bound<T: PartialOrd>(d: Set<T>, x: T)
    requires
        total_order::<T>(),
        d.finite(),
        d.contains(x),
    ensures
        rank(d, x) < d.len(),
{
    let f = d.filter(|y: T| lt(y, x));
    crate::order::lemma_le_reflexive(x);
    assert(lt(x, x) <==> !le(x, x));
    assert(f.subset_of(d.remove(x)));
    lemma_len_subset(f, d.remove(x));
}

proof fn lemma_rank_less<T: PartialOrd>(d: Set<T>, x: T, y: T)
    requires
        total_order::<T>(),
        d.finite(),
        d.contains(x),
        d.contains(y),
        lt(x, y),
    ensures
        rank(d, x) < rank(d, y),
{
    let fx = d.filter(|z: T| lt(z, x));
    let fy = d.filter(|z: T| lt(z, y));
    crate::order::lemma_le_reflexive(x);
    assert(lt(x, x) <==> !le(x, x));
    assert forall|z: T| #[trigger] fx.contains(z) implies fy.remove(x).contains(z) by {
        assert(lt(z, x) ==> le(z, x));
        assert(lt(z, y) <==> !le(y, z));
        assert(lt(x, y) <==> !le(y, x));
        assert(le(y, z) && le(z, x) ==> le(y, x));
    }
    lemma_len_subset(fy, d);
    lemma_len_subset(fx, fy.remove(x));
}

proof fn lemma_code_bound<T: PartialOrd>(d: Set<T>, s: Seq<T>)
    requires
        total_order::<T>(),
        d.finite(),
        forall|i: int| 0 <= i < s.len() ==> d.contains(#[trigger] s[i]),
    ensures
        0 <= code(d, s),
        s.len() > 0 ==> code(d, s) < pow(d.len() as int, s.len() as nat),
    decreases s.len(),
{
    if s.len() > 0 {
        let n = s.len() as int;
        let rest = s.subrange(1, n);
        lemma_code_bound(d, rest);
        lemma_rank_bound(d, s[0]);
        let b = d.len() as int;
        let pw = pow(b, (n - 1) as nat);
        vstd::arithmetic::power::lemma_pow_positive(b, (n - 1) as nat);
        assert(pow(b, n as nat) == b * pw) by {
            reveal(pow);
        }
        let r = rank(d, s[0]) as int;
        let c = code(d, rest);
        if n == 1 {
            assert(rest.len() == 0);
            assert(c == 0);
        }
        assert(c < pw);
        assert(r * pw + c < b * pw) by (nonlinear_arith)
            requires
                0 <= r < b,
                0 <= c < pw,
        ;
        assert(0 <= r * pw) by (nonlinear_arith)
            requires
                0 <= r,
                0 < pw,
        ;
    }
}

proof fn lemma_code_less<T: PartialOrd>(d: Set<T>, a: Seq<T>, b: Seq<T>, i: int)
    requires
        total_order::<T>(),
        d.finite(),
        a.len() == b.len(),
        0 <= i < a.len(),
        forall|k: int| 0 <= k < a.len() ==> d.contains(#[trigger] a[k]),
        forall|k: int| 0 <= k < b.len() ==> d.contains(#[trigger] b[k]),
        a.subrange(0, i) == b.subrange(0, i),
        lt(a[i], b[i]),
    ensures
        code(d, a) < code(d, b),
    decreases i,
{
    let n = a.len() as int;
    let ra = a.subrange(1, n);
    let rb = b.subrange(1, n);
    let bs = d.len() as int;
    let pw = pow(bs, (n - 1) as nat);
    vstd::arithmetic::power::lemma_pow_positive(bs, (n - 1) as nat);
    lemma_code_bound(d, ra);
    lemma_code_bound(d, rb);
    if i == 0 {
        lemma_rank_less(d, a[0], b[0]);
        let x = rank(d, a[0]) as int;
        let y = rank(d, b[0]) as int;
        let ca = code(d, ra);
        let cb = code(d, rb);
        if n == 1 {
            assert(ra.len() == 0 && rb.len() == 0);
        }
        assert(ca < pw);
        assert(x * pw + ca < y * pw + cb) by (nonlinear_arith)
            requires
                0 <= x < y,
                0 <= ca < pw,
                0 <= cb,
        ;
    } else {
        assert(a[0] == a.subrange(0, i)[0]);
        assert(b[0] == b.subrange(0, i)[0]);
        assert(ra.subrange(0, i - 1) =~= a.subrange(0, i).subrange(1, i));
        assert(rb.subrange(0, i - 1) =~= b.subrange(0, i).subrange(1, i));
        lemma_code_less(d, ra, rb, i - 1);
    }
}

/// `f` has been called with an arrangement of `s`.
pub open spec fn called_with<T, F: FnMut(&[T])>(f: F, s: Seq<T>) -> bool {
    exists|x: &[T]| x@ == s && #[trigger] call_ensures(f, (x,), ())
}

/// Stepping forward from `s0` finds a next arrangement `c - 1` times and then
/// none, and `f` has been called with each of the `c` arrangements on the way.
pub open spec fn visits_all<T: PartialOrd, F: FnMut(&[T])>(f: F, s0: Seq<T>, c: nat) -> bool {
    &&& c >= 1
    &&& walk_found(s0, (c - 1) as nat)
    &&& !next_perm(next_walk(s0, (c - 1) as nat)).1
    &&& forall|k: nat| k < c ==> #[trigger] called_with(f, next_walk(s0, k))
}

proof fn lemma_walk_step<T: PartialOrd>(s: Seq<T>, k: nat)
    ensures
        next_walk(s, k + 1) == next_perm(next_walk(s, k)).0,
    decreases k,
{
    if k > 0 {
        let t = next_perm(s).0;
        lemma_walk_step(t, (k - 1) as nat);
        assert(next_walk(s, k + 1) == next_walk(t, k));
        assert(next_walk(s, k) == next_walk(t, (k - 1) as nat));
    } else {
        assert(next_walk(s, 1) == next_walk(next_perm(s).0, 0));
    }
}

/// Sorts `s` in ascending order (std's `slice::sort_unstable`).
#[verifier::external_body]
fn sort_items<T: Ord>(s: &mut [T])
    requires
        total_order::<T>(),
        ord_agrees::<T>(),
    ensures
        final(s)@.len() == old(s)@.len(),
        final(s)@.to_multiset() == old(s)@.to_multiset(),
        forall|i: int, j: int| 0 <= i <= j < final(s)@.len() ==> le(#[trigger] final(s)@[i], #[trigger] final(s)@[j]),
{
    s.sort_unstable();
}

/// Sorts `elements` ascending, then hands `f` each of their permutations in
/// ascending lexicographic order, arranging `elements` accordingly; they end
/// ascending again. `f` is not called for empty `elements`.
pub fn for_each_permutation<T: Ord, F: FnMut(&[T])>(elements: &mut [T], mut f: F)
    requires
        total_order::<T>(),
        ord_agrees::<T>(),
        forall|x: &[T]| #[trigger] call_requires(f, (x,)),
    ensures
        final(elements)@.to_multiset() == old(elements)@.to_multiset(),
        forall|i: int, j: int| 0 <= i <= j < final(elements)@.len() ==> le(#[trigger] final(elements)@[i], #[trigger] final(elements)@[j]),
        old(elements)@.len() > 0 ==> exists|s0: Seq<T>, c: nat| #[trigger] visits_all(f, s0, c)
            && s0.to_multiset() == old(elements)@.to_multiset()
            && forall|i: int, j: int| 0 <= i <= j < s0.len() ==> le(#[trigger] s0[i], #[trigger] s0[j]),
{
    if elements.len() == 0 {
        return;
    }
    sort_items(elements);
    let ghost s0 = elements@;
    let ghost f0 = f;
    let ghost m0 = old(elements)@.to_multiset();
    assert(s0.to_multiset() == m0);
    assert(forall|i: int, j: int| 0 <= i <= j < s0.len() ==> le(#[trigger] s0[i], #[trigger] s0[j]));
    let ghost mut c: nat = 0;
    let ghost d = elements@.to_set();
    let ghost m = elements@.to_multiset();
    let ghost n = elements@.len();
    proof {
        broadcast use vstd::seq_lib::group_to_multiset_ensures;
        broadcast use vstd::seq_lib::seq_to_set_is_finite;
        assert(d.finite());
        assert(d.contains(elements@[0]));
        lemma_code_bound(d, elements@);
    }
    loop
        invariant_except_break
            elements@ == next_walk(s0, c),
        invariant
            f == f0,
            total_order::<T>(),
            forall|x: &[T]| #[trigger] call_requires(f, (x,)),
            elements@.to_multiset() == m,
            m == old(elements)@.to_multiset(),
            elements@.len() == n,
            n > 0,
            d.finite(),
            d.len() > 0,
            forall|k: int| 0 <= k < n ==> d.contains(#[trigger] elements@[k]),
            walk_found(s0, c),
            forall|k: nat| k < c ==> #[trigger] called_with(f, next_walk(s0, k)),
        ensures
            visits_all(f, s0, c + 1),
            elements@.to_multiset() == m,
            forall|i: int, j: int| 0 <= i <= j < elements@.len() ==> le(#[trigger] elements@[i], #[trigger] elements@[j]),
        decreases pow(d.len() as int, n) - code(d, elements@),
    {
        let view: &[T] = &*elements;
        f(view);
        proof {
            assert(called_with(f, next_walk(s0, c))) by {
                assert(view@ == next_walk(s0, c));
                assert(call_ensures(f, (view,), ()));
            }
        }
        let ghost before = elements@;
        let more = next_permutation(elements);
        proof {
            lemma_walk_step(s0, c);
            let c0 = c;
            if more {
                c = c + 1;
                assert forall|j: nat| j < c implies #[trigger] next_perm(next_walk(s0, j)).1 by {
                    if j < c0 {
                        assert(walk_found(s0, c0));
                    }
                }
                assert forall|k: nat| k < c implies #[trigger] called_with(f, next_walk(s0, k)) by {
                    if k < c0 {
                    }
                }
            } else {
                assert forall|k: nat| k < c + 1 implies #[trigger] called_with(f, next_walk(s0, k)) by {
                    if k < c0 {
                    }
                }
            }
            broadcast use vstd::seq_lib::group_to_multiset_ensures;
            assert forall|k: int| 0 <= k < n implies d.contains(#[trigger] elements@[k]) by {
                assert(elements@.contains(elements@[k]));
                assert(before.to_multiset().count(elements@[k]) > 0);
                assert(before.contains(elements@[k]));
                let w = choose|w: int| 0 <= w < before.len() && before[w] == elements@[k];
                assert(d.contains(before[w]));
            }
            lemma_code_bound(d, elements@);
            if more {
                lemma_next_is_greater(before);
                let i = choose|i: int| 0 <= i < before.len() && i < elements@.len()
                    && before.subrange(0, i) == elements@.subrange(0, i) && #[trigger] lt(before[i], elements@[i]);
                lemma_code_less(d, before, elements@, i);
            } else {
                lemma_wrap_around(before);
                assert(comparisons_specified::<T>());
                assert(elements@ == next_perm(before).0);
                assert(!next_perm(before).1);
                assert forall|k: int| 1 <= k < elements@.len() implies #[trigger] le(elements@[k - 1], elements@[k]) by {
                    assert(le(next_perm(before).0[k - 1], next_perm(before).0[k]));
                }
                assert forall|i: int, j: int| 0 <= i <= j < elements@.len() implies le(#[trigger] elements@[i], #[trigger] elements@[j]) by {
                    lemma_ascending(elements@, i, j);
                }
            }
        }
        if !more {
            break;
        }
    }
    proof {
        assert(visits_all(f, s0, c + 1));
        assert(f == f0);
    }
}

/// Adjacent items in order make the whole sequence ordered.
proof fn lemma_ascending<T: PartialOrd>(s: Seq<T>, i: int, j: int)
    requires
        total_order::<T>(),
        0 <= i <= j < s.len(),
        forall|k: int| 1 <= k < s.len() ==> #[trigger] le(s[k - 1], s[k]),
    ensures
        le(s[i], s[j]),
    decreases j - i,
{
    if i == j {
        crate::order::lemma_le_reflexive(s[i]);
    } else {
        lemma_ascending(s, i, j - 1);
        assert(le(s[j - 1], s[j]));
    }
}

} // verus!
