//! Palindromic radii of every center of a sequence (Manacher's algorithm).
//!
//! For a sequence of length `n > 0` the result has `2n - 1` entries:
//! entry `2i` is the radius of the longest palindrome centered on element
//! `i` (at least 1, the element itself), entry `2i + 1` that of the longest
//! palindrome centered between elements `i` and `i + 1` (possibly 0).
use vstd::prelude::*;
use vstd::string::StringSliceAdditionalSpecFns;
use crate::order::same;

verus! {

/// The elements `i - t` and `i + t` are in range and match.
pub open spec fn odd_step(rel: spec_fn(usize, usize) -> bool, n: int, i: int, t: int) -> bool {
    i - t >= 0 && i + t < n && rel((i - t) as usize, (i + t) as usize)
}

/// The elements `i - t` and `i + 1 + t` are in range and match.
pub open spec fn even_step(rel: spec_fn(usize, usize) -> bool, n: int, i: int, t: int) -> bool {
    i - t >= 0 && i + 1 + t < n && rel((i - t) as usize, (i + 1 + t) as usize)
}

/// The elements `i - t` and `i + t` match for every `1 <= t <= m`, all in range.
pub open spec fn odd_ok(rel: spec_fn(usize, usize) -> bool, n: int, i: int, m: int) -> bool {
    forall|t: int| 1 <= t <= m ==> #[trigger] odd_step(rel, n, i, t)
}

/// The elements `i - t` and `i + 1 + t` match for every `0 <= t < m`, all in range.
pub open spec fn even_ok(rel: spec_fn(usize, usize) -> bool, n: int, i: int, m: int) -> bool {
    forall|t: int| 0 <= t < m ==> #[trigger] even_step(rel, n, i, t)
}

/// `r` is the radius of the longest palindrome centered on element `i`.
pub open spec fn is_odd_radius(rel: spec_fn(usize, usize) -> bool, n: int, i: int, r: int) -> bool {
    r >= 1 && odd_ok(rel, n, i, r - 1) && !odd_ok(rel, n, i, r)
}

/// `r` is the radius of the longest palindrome centered between elements `i` and `i + 1`.
pub open spec fn is_even_radius(rel: spec_fn(usize, usize) -> bool, n: int, i: int, r: int) -> bool {
    r >= 0 && even_ok(rel, n, i, r) && !even_ok(rel, n, i, r + 1)
}

/// `radius` holds, for a sequence of length `n` compared by `rel`, the radius of
/// every center in order.
pub open spec fn are_radii(rel: spec_fn(usize, usize) -> bool, n: int, radius: Seq<usize>) -> bool {
    &&& (n == 0 ==> radius.len() == 0)
    &&& (n > 0 ==> radius.len() == 2 * n - 1)
    &&& forall|i: int| 0 <= i < n ==> is_odd_radius(rel, n, i, #[trigger] radius[2 * i] as int)
    &&& forall|i: int| 0 <= i < n - 1 ==> is_even_radius(rel, n, i, #[trigger] radius[2 * i + 1] as int)
}

/// `rel` is symmetric and transitive on indices below `n`.
pub open spec fn is_equivalence(rel: spec_fn(usize, usize) -> bool, n: int) -> bool {
    &&& forall|a: usize, b: usize| a < n && b < n && #[trigger] rel(a, b) ==> rel(b, a)
    &&& forall|a: usize, b: usize, c: usize|
        a < n && b < n && c < n && #[trigger] rel(a, b) && #[trigger] rel(b, c) ==> rel(a, c)
}

/// What the closure `equals` answers for `(l, r)`: that it can return `true` there.
pub open spec fn answers<F: Fn(usize, usize) -> bool>(equals: F) -> spec_fn(usize, usize) -> bool {
    |l: usize, r: usize| call_ensures(equals, (l, r), true)
}

/// `equals` can be called on every pair of indices `l < r` below `n`, returns
/// one answer per pair, and its answers form an equivalence.
pub open spec fn well_behaved<F: Fn(usize, usize) -> bool>(equals: F, n: int) -> bool {
    &&& forall|l: usize, r: usize| l < r < n ==> call_requires(equals, (l, r))
    &&& forall|l: usize, r: usize| call_ensures(equals, (l, r), false) ==> !call_ensures(equals, (l, r), true)
    &&& is_equivalence(answers(equals), n)
}

// The sequence is read through its "transformed" form of `2n + 1` positions:
// separators at even positions, element `k` at position `2k + 1`.

spec fn tmatch(rel: spec_fn(usize, usize) -> bool, a: int, b: int) -> bool {
    if a % 2 == 0 && b % 2 == 0 {
        true
    } else if a % 2 == 0 || b % 2 == 0 {
        false
    } else {
        rel((a / 2) as usize, (b / 2) as usize)
    }
}

/// Positions `j - s` and `j + s` are in range and match in the transformed form.
spec fn tstep(rel: spec_fn(usize, usize) -> bool, nt: int, j: int, s: int) -> bool {
    j - s >= 0 && j + s < nt && tmatch(rel, j - s, j + s)
}

/// Position `j` has a palindrome of radius `k` in the transformed form.
spec fn tpal(rel: spec_fn(usize, usize) -> bool, nt: int, j: int, k: int) -> bool {
    forall|s: int| 1 <= s <= k ==> #[trigger] tstep(rel, nt, j, s)
}

proof fn lemma_tmatch_equiv(rel: spec_fn(usize, usize) -> bool, n: int, a: int, b: int, c: int)
    requires
        is_equivalence(rel, n),
        0 <= a < 2 * n + 1,
        0 <= b < 2 * n + 1,
        0 <= c < 2 * n + 1,
    ensures
        tmatch(rel, a, b) ==> tmatch(rel, b, a),
        tmatch(rel, a, b) && tmatch(rel, b, c) ==> tmatch(rel, a, c),
{
    if a % 2 == 1 && b % 2 == 1 && c % 2 == 1 {
        let (x, y, z) = ((a / 2) as usize, (b / 2) as usize, (c / 2) as usize);
        assert(x < n && y < n && z < n);
        if rel(x, y) {
            assert(rel(y, x));
            if rel(y, z) {
                assert(rel(x, z));
            }
        }
    }
}

/// The mirror image of a palindrome inside a larger palindrome.
proof fn lemma_mirror(rel: spec_fn(usize, usize) -> bool, n: int, c: int, big: int, i: int, k: int)
    requires
        is_equivalence(rel, n),
        tpal(rel, 2 * n + 1, c, big),
        tpal(rel, 2 * n + 1, 2 * c - i, k),
        c < i <= c + big,
        k <= c + big - i,
    ensures
        tpal(rel, 2 * n + 1, i, k),
{
    let nt = 2 * n + 1;
    let m = 2 * c - i;
    assert forall|s: int| 1 <= s <= k implies #[trigger] tstep(rel, nt, i, s) by {
        assert(tstep(rel, nt, m, s));
        // i + s mirrors m - s about c
        let t1 = i + s - c;
        assert(1 <= t1 <= big);
        assert(tstep(rel, nt, c, t1));
        assert(c - t1 == m - s);
        // i - s mirrors m + s about c
        if i - s > c {
            let t2 = i - s - c;
            assert(1 <= t2 <= big);
            assert(tstep(rel, nt, c, t2));
            assert(c - t2 == m + s);
            lemma_tmatch_equiv(rel, n, m + s, i - s, m - s);
            lemma_tmatch_equiv(rel, n, i - s, m + s, m - s);
            lemma_tmatch_equiv(rel, n, i - s, m - s, i + s);
        } else if i - s == c {
            assert(m + s == c);
            lemma_tmatch_equiv(rel, n, i - s, m - s, i + s);
        } else {
            let t2 = c - (i - s);
            assert(1 <= t2 <= big);
            assert(tstep(rel, nt, c, t2));
            assert(c + t2 == m + s);
            lemma_tmatch_equiv(rel, n, i - s, m + s, m - s);
            lemma_tmatch_equiv(rel, n, i - s, m - s, i + s);
        }
    }
}

/// From the exact transformed radius of position `2i + 1` to the element radius.
proof fn lemma_odd_center(rel: spec_fn(usize, usize) -> bool, n: int, i: int, p: int)
    requires
        0 <= i < n,
        p >= 0,
        tpal(rel, 2 * n + 1, 2 * i + 1, p),
        !tpal(rel, 2 * n + 1, 2 * i + 1, p + 1),
    ensures
        p % 2 == 1,
        is_odd_radius(rel, n, i, (p + 1) / 2),
{
    let nt = 2 * n + 1;
    let j = 2 * i + 1;
    if p % 2 == 0 {
        let m = p / 2;
        if m >= 1 {
            assert(tstep(rel, nt, j, 2 * m));
        }
        assert forall|s: int| 1 <= s <= p + 1 implies #[trigger] tstep(rel, nt, j, s) by {
            if s <= p {
                assert(tstep(rel, nt, j, s));
            } else {
                assert((j - s) % 2 == 0);
                assert((j + s) % 2 == 0);
            }
        }
        assert(false);
    }
    let m = (p - 1) / 2;
    assert(p == 2 * m + 1);
    assert forall|t: int| 1 <= t <= m implies #[trigger] odd_step(rel, n, i, t) by {
        let s = 2 * t;
        assert(tstep(rel, nt, j, s));
        assert((j - s) / 2 == i - t);
        assert((j + s) / 2 == i + t);
    }
    if odd_ok(rel, n, i, m + 1) {
        let t = m + 1;
        assert(odd_step(rel, n, i, t));
        assert forall|s: int| 1 <= s <= p + 1 implies #[trigger] tstep(rel, nt, j, s) by {
            if s <= p {
                assert(tstep(rel, nt, j, s));
            } else {
                assert(s == 2 * t);
                assert((j - s) / 2 == i - t);
                assert((j + s) / 2 == i + t);
            }
        }
        assert(false);
    }
}

/// From the exact transformed radius of position `2i + 2` to the element radius.
proof fn lemma_even_center(rel: spec_fn(usize, usize) -> bool, n: int, i: int, p: int)
    requires
        0 <= i < n - 1,
        p >= 0,
        tpal(rel, 2 * n + 1, 2 * i + 2, p),
        !tpal(rel, 2 * n + 1, 2 * i + 2, p + 1),
    ensures
        p % 2 == 0,
        is_even_radius(rel, n, i, p / 2),
{
    let nt = 2 * n + 1;
    let j = 2 * i + 2;
    if p % 2 == 1 {
        assert(tstep(rel, nt, j, p));
        assert forall|s: int| 1 <= s <= p + 1 implies #[trigger] tstep(rel, nt, j, s) by {
            if s <= p {
                assert(tstep(rel, nt, j, s));
            } else {
                assert((j - s) % 2 == 0);
                assert((j + s) % 2 == 0);
            }
        }
        assert(false);
    }
    let m = p / 2;
    assert(p == 2 * m);
    assert forall|t: int| 0 <= t < m implies #[trigger] even_step(rel, n, i, t) by {
        let s = 2 * t + 1;
        assert(tstep(rel, nt, j, s));
        assert((j - s) / 2 == i - t);
        assert((j + s) / 2 == i + 1 + t);
    }
    if even_ok(rel, n, i, m + 1) {
        let t = m;
        assert(even_step(rel, n, i, t));
        assert forall|s: int| 1 <= s <= p + 1 implies #[trigger] tstep(rel, nt, j, s) by {
            if s <= p {
                assert(tstep(rel, nt, j, s));
            } else {
                assert(s == 2 * t + 1);
                assert((j - s) / 2 == i - t);
                assert((j + s) / 2 == i + 1 + t);
            }
        }
        assert(false);
    }
}

/// Manacher's algorithm over indices, with the closure's answers named by `rel`.
#[verifier::rlimit(50)]
fn radii<F: Fn(usize, usize) -> bool>(len: usize, equals: F, Ghost(rel): Ghost<spec_fn(usize, usize) -> bool>) -> (radius: Vec<usize>)
    requires
        len <= (usize::MAX - 1) / 2,
        forall|l: usize, r: usize| l < r < len ==> call_requires(equals, (l, r)),
        forall|l: usize, r: usize, b: bool| #[trigger] call_ensures(equals, (l, r), b) ==> b == rel(l, r),
        is_equivalence(rel, len as int),
    ensures
        are_radii(rel, len as int, radius@),
{
    if len == 0 {
        return Vec::new();
    }
    let nt: usize = 2 * len + 1;
    let ghost n = len as int;
    let mut p: Vec<usize> = Vec::new();
    let mut k: usize = 0;
    while k < nt
        invariant
            k <= nt,
            p.len() == k,
            forall|j: int| 0 <= j < k ==> p[j] == 0,
        decreases nt - k,
    {
        p.push(0);
        k += 1;
    }
    let mut center: usize = 0;
    let mut right: usize = 0;
    let mut i: usize = 0;
    while i < nt
        invariant
            nt == 2 * len + 1,
            n == len,
            len > 0,
            len <= (usize::MAX - 1) / 2,
            p.len() == nt,
            i <= nt,
            forall|l: usize, r: usize| l < r < len ==> call_requires(equals, (l, r)),
            forall|l: usize, r: usize, b: bool| #[trigger] call_ensures(equals, (l, r), b) ==> b == rel(l, r),
            is_equivalence(rel, n),
            forall|j: int| 0 <= j < i ==> tpal(rel, nt as int, j, #[trigger] p[j] as int)
                && !tpal(rel, nt as int, j, p[j] + 1),
            forall|j: int| i <= j < nt ==> #[trigger] p[j] == 0,
            center <= right,
            right < nt,
            tpal(rel, nt as int, center as int, right - center),
            (center < i) || (center == 0 && right == 0),
            forall|j: int| 0 <= j < i ==> j + #[trigger] p[j] <= right,
        decreases nt - i,
    {
        if i <= right && center < i {
            proof {
                assert(center - (right - center) >= 0) by {
                    if right > center {
                        let s = (right - center) as int;
                        assert(tstep(rel, nt as int, center as int, s));
                    }
                }
            }
            let mirror = center - (i - center);
            let a = right - i;
            let b = p[mirror];
            let init = if a < b { a } else { b };
            proof {
                assert(mirror < i);
                assert(tpal(rel, nt as int, mirror as int, b as int));
                assert forall|s: int| 1 <= s <= init implies #[trigger] tstep(rel, nt as int, mirror as int, s) by {
                    assert(tstep(rel, nt as int, mirror as int, s));
                }
                lemma_mirror(rel, n, center as int, (right - center) as int, i as int, init as int);
            }
            p.set(i, init);
        }
        loop
            invariant
                nt == 2 * len + 1,
                n == len,
                p.len() == nt,
                i < nt,
                forall|l: usize, r: usize| l < r < len ==> call_requires(equals, (l, r)),
                forall|l: usize, r: usize, b: bool| #[trigger] call_ensures(equals, (l, r), b) ==> b == rel(l, r),
                tpal(rel, nt as int, i as int, p[i as int] as int),
                p[i as int] <= i,
                i + p[i as int] < nt,
                forall|j: int| 0 <= j < i ==> tpal(rel, nt as int, j, #[trigger] p[j] as int)
                    && !tpal(rel, nt as int, j, p[j] + 1),
                forall|j: int| i < j < nt ==> #[trigger] p[j] == 0,
                forall|j: int| 0 <= j < i ==> j + #[trigger] p[j] <= right,
            ensures
                tpal(rel, nt as int, i as int, p[i as int] as int),
                !tpal(rel, nt as int, i as int, p[i as int] + 1),
                i + p[i as int] < nt,
            decreases nt - p[i as int],
        {
            let step = p[i] + 1;
            if i < step {
                proof {
                    assert(!tstep(rel, nt as int, i as int, step as int));
                }
                break;
            }
            let l = i - step;
            let r = i + step;
            if r >= nt {
                proof {
                    assert(!tstep(rel, nt as int, i as int, step as int));
                }
                break;
            }
            let l_is_sep = l % 2 == 0;
            let r_is_sep = r % 2 == 0;
            let matched = if l_is_sep && r_is_sep {
                true
            } else if l_is_sep || r_is_sep {
                false
            } else {
                proof {
                    assert(l / 2 < r / 2 < len) by {
                        assert(l % 2 == 1 && r % 2 == 1);
                        assert(l < r && r < nt);
                    }
                }
                equals(l / 2, r / 2)
            };
            if !matched {
                proof {
                    assert(!tmatch(rel, l as int, r as int));
                    assert(!tstep(rel, nt as int, i as int, step as int));
                }
                break;
            }
            proof {
                let ghost old_k = p[i as int] as int;
                assert forall|s: int| 1 <= s <= step implies #[trigger] tstep(rel, nt as int, i as int, s) by {
                    if s <= old_k {
                        assert(tstep(rel, nt as int, i as int, s));
                    }
                }
            }
            p.set(i, step);
        }
        if i + p[i] > right {
            center = i;
            right = i + p[i];
        }
        i += 1;
    }
    let mut radius: Vec<usize> = Vec::new();
    let mut c: usize = 0;
    while c < 2 * len - 1
        invariant
            nt == 2 * len + 1,
            len > 0,
            p.len() == nt,
            c <= 2 * len - 1,
            radius.len() == c,
            forall|j: int| 0 <= j < nt ==> tpal(rel, nt as int, j, #[trigger] p[j] as int)
                && !tpal(rel, nt as int, j, p[j] + 1),
            forall|j: int| 0 <= j < nt ==> j + #[trigger] p[j] < nt,
            forall|q: int| 0 <= q < c && q % 2 == 0 ==> is_odd_radius(rel, len as int, q / 2, #[trigger] radius[q] as int),
            forall|q: int| 0 <= q < c && q % 2 == 1 ==> is_even_radius(rel, len as int, q / 2, #[trigger] radius[q] as int),
        decreases 2 * len - 1 - c,
    {
        let v = p[c + 1];
        proof {
            assert(tpal(rel, nt as int, c + 1, p[c + 1] as int));
        }
        if c % 2 == 0 {
            proof {
                lemma_odd_center(rel, len as int, (c / 2) as int, v as int);
            }
            radius.push((v + 1) / 2);
        } else {
            proof {
                lemma_even_center(rel, len as int, (c / 2) as int, v as int);
            }
            radius.push(v / 2);
        }
        c += 1;
    }
    proof {
        assert forall|i: int| 0 <= i < n implies is_odd_radius(rel, n, i, #[trigger] radius@[2 * i] as int) by {
            assert((2 * i) % 2 == 0 && (2 * i) / 2 == i);
        }
        assert forall|i: int| 0 <= i < n - 1 implies is_even_radius(rel, n, i, #[trigger] radius@[2 * i + 1] as int) by {
            assert((2 * i + 1) % 2 == 1 && (2 * i + 1) / 2 == i);
        }
    }
    radius
}

/// Palindromic radii of a sequence of length `len`, whose elements at `l` and
/// `r` are compared by `equals(l, r)`.
pub fn manacher_by<F: Fn(usize, usize) -> bool>(len: usize, equals: F) -> (radius: Vec<usize>)
    requires
        len <= (usize::MAX - 1) / 2,
        well_behaved(equals, len as int),
    ensures
        are_radii(answers(equals), len as int, radius@),
{
    let ghost rel = answers(equals);
    proof {
        assert forall|l: usize, r: usize, b: bool| #[trigger] call_ensures(equals, (l, r), b) implies b == rel(l, r) by {
            if !b {
                assert(!call_ensures(equals, (l, r), true));
            }
        }
    }
    radii(len, equals, Ghost(rel))
}

/// Palindromic radii of `items`, compared with `==`.
pub fn manacher<T: Eq>(items: &[T]) -> (radius: Vec<usize>)
    requires
        items@.len() <= (usize::MAX - 1) / 2,
        vstd::laws_eq::obeys_eq::<T>(),
    ensures
        are_radii(|l: usize, r: usize| same(items@[l as int], items@[r as int]), items@.len() as int, radius@),
{
    let ghost rel = |l: usize, r: usize| same(items@[l as int], items@[r as int]);
    proof {
        reveal(vstd::laws_eq::obeys_eq_spec_properties);
    }
    let len = items.len();
    let equals = |l: usize, r: usize| -> (b: bool)
        requires
            l < items@.len(),
            r < items@.len(),
        ensures
            b == same(items@[l as int], items@[r as int]),
    { items[l] == items[r] };
    radii(len, equals, Ghost(rel))
}

/// Palindromic radii of the UTF-8 bytes of `text`.
pub fn manacher_str(text: &str) -> (radius: Vec<usize>)
    requires
        text.spec_bytes().len() <= (usize::MAX - 1) / 2,
    ensures
        are_radii(|l: usize, r: usize| text.spec_bytes()[l as int] == text.spec_bytes()[r as int],
            text.spec_bytes().len() as int, radius@),
{
    let bytes = text.as_bytes();
    let ghost rel = |l: usize, r: usize| text.spec_bytes()[l as int] == text.spec_bytes()[r as int];
    let len = bytes.len();
    let equals = |l: usize, r: usize| -> (b: bool)
        requires
            l < bytes@.len(),
            r < bytes@.len(),
        ensures
            b == (bytes@[l as int] == bytes@[r as int]),
    { bytes[l] == bytes[r] };
    radii(len, equals, Ghost(rel))
}

} // verus!
