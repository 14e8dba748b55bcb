//! The order of suffixes, and a linear-time check that an array lists them in that order.
//!
//! Suffixes are compared symbol by symbol; a suffix that is a strict prefix of another is the
//! smaller one (as if an end-of-string symbol below every other ended the string). Bytes are
//! compared as the symbols they widen to.
use vstd::prelude::*;

verus! {

/// The symbols of the bytes `s`, one per byte with the byte's value.
pub open spec fn widen(s: Seq<u8>) -> Seq<u32> {
    Seq::new(s.len(), |i: int| s[i] as u32)
}

/// The suffix of `s` at `p` is smaller than the suffix at `q` (positions `0..=s.len()`; the
/// suffix at `s.len()` is empty).
pub open spec fn suffix_lt(s: Seq<u32>, p: int, q: int) -> bool
    decreases s.len() - p,
{
    if p < 0 || q < 0 || q >= s.len() {
        false
    } else if p >= s.len() {
        true
    } else if s[p] != s[q] {
        s[p] < s[q]
    } else {
        suffix_lt(s, p + 1, q + 1)
    }
}

/// `sa` lists every suffix of `s` exactly once, smallest first: it is the suffix array of `s`.
pub open spec fn is_suffix_array(s: Seq<u32>, sa: Seq<i32>) -> bool {
    &&& sa.len() == s.len()
    &&& forall|r: int| 0 <= r < sa.len() ==> 0 <= #[trigger] sa[r] < s.len()
    &&& forall|i: int, j: int| 0 <= i < j < sa.len() ==> suffix_lt(s, sa[i] as int, sa[j] as int)
}

/// No suffix is smaller than itself.
pub proof fn lemma_suffix_lt_irreflexive(s: Seq<u32>, p: int)
    ensures
        !suffix_lt(s, p, p),
    decreases s.len() - p,
{
    if 0 <= p < s.len() {
        lemma_suffix_lt_irreflexive(s, p + 1);
    }
}

/// Of two different suffixes, exactly one is the smaller.
pub proof fn lemma_suffix_lt_total(s: Seq<u32>, p: int, q: int)
    requires
        0 <= p <= s.len(),
        0 <= q <= s.len(),
        p != q,
    ensures
        suffix_lt(s, p, q) != suffix_lt(s, q, p),
    decreases s.len() - p,
{
    if p < s.len() && q < s.len() && s[p] == s[q] {
        lemma_suffix_lt_total(s, p + 1, q + 1);
    }
}

/// The order of suffixes is transitive.
pub proof fn lemma_suffix_lt_transitive(s: Seq<u32>, p: int, q: int, r: int)
    requires
        suffix_lt(s, p, q),
        suffix_lt(s, q, r),
    ensures
        suffix_lt(s, p, r),
    decreases s.len() - p,
{
    if p < s.len() && s[p] == s[q] && s[q] == s[r] {
        lemma_suffix_lt_transitive(s, p + 1, q + 1, r + 1);
    }
}

/// Suffixes that start with the same `k` symbols compare as the suffixes after those symbols.
proof fn lemma_suffix_lt_skip(s: Seq<u32>, p: int, q: int, k: int)
    requires
        0 <= k,
        0 <= p,
        0 <= q,
        p + k <= s.len(),
        q + k <= s.len(),
        s.subrange(p, p + k) == s.subrange(q, q + k),
    ensures
        suffix_lt(s, p, q) == suffix_lt(s, p + k, q + k),
    decreases k,
{
    if k > 0 {
        assert(s[p] == s.subrange(p, p + k)[0]);
        assert(s[q] == s.subrange(q, q + k)[0]);
        assert(s.subrange(p + 1, p + k) =~= s.subrange(p, p + k).subrange(1, k));
        assert(s.subrange(q + 1, q + k) =~= s.subrange(q, q + k).subrange(1, k));
        lemma_suffix_lt_skip(s, p + 1, q + 1, k - 1);
    }
}

/// Returns whether the suffix of `s` at `p` is smaller than the one at `q`.
pub fn suffix_less(s: &[u32], p: usize, q: usize) -> (r: bool)
    requires
        p <= s@.len(),
        q <= s@.len(),
    ensures
        r == suffix_lt(s@, p as int, q as int),
{
    let n = s.len();
    let mut k: usize = 0;
    while p + k < n && q + k < n && s[p + k] == s[q + k]
        invariant
            n == s@.len(),
            p + k <= n,
            q + k <= n,
            s@.subrange(p as int, p + k) == s@.subrange(q as int, q + k),
        decreases n - p - k,
    {
        assert(s@.subrange(p as int, p + k + 1) =~= s@.subrange(p as int, p + k).push(s@[p + k]));
        assert(s@.subrange(q as int, q + k + 1) =~= s@.subrange(q as int, q + k).push(s@[q + k]));
        k = k + 1;
    }
    proof {
        lemma_suffix_lt_skip(s@, p as int, q as int, k as int);
    }
    if q + k >= n {
        false
    } else if p + k >= n {
        true
    } else {
        s[p + k] < s[q + k]
    }
}

/// The rank of the suffix at `x`, where the empty suffix at `n` ranks below all others.
pub open spec fn rank_of(rank: Seq<i32>, n: int, x: int) -> int {
    if x >= n {
        -1
    } else {
        rank[x] as int
    }
}

/// The neighbours at `k` and `k + 1` of `sa` are in order: either the first symbol of the
/// first is smaller, or the first symbols are equal and the suffixes after them are ranked in order.
pub open spec fn neighbours_ordered(s: Seq<u32>, sa: Seq<i32>, rank: Seq<i32>, k: int) -> bool {
    let p = sa[k] as int;
    let q = sa[k + 1] as int;
    ||| s[p] < s[q]
    ||| s[p] == s[q] && rank_of(rank, s.len() as int, p + 1) < rank_of(rank, s.len() as int, q + 1)
}

/// `rank` is the inverse of `sa`, a permutation of `0..n`.
pub open spec fn inverse_ranks(sa: Seq<i32>, rank: Seq<i32>, n: int) -> bool {
    &&& sa.len() == n
    &&& rank.len() == n
    &&& forall|r: int| 0 <= r < n ==> 0 <= #[trigger] sa[r] < n && rank[sa[r] as int] == r
    &&& forall|x: int| 0 <= x < n ==> 0 <= #[trigger] rank[x] < n && sa[rank[x] as int] == x
}

/// Along `sa`, the first symbols of the suffixes never decrease.
proof fn lemma_first_symbols_sorted(s: Seq<u32>, sa: Seq<i32>, rank: Seq<i32>, i: int, j: int)
    requires
        inverse_ranks(sa, rank, s.len() as int),
        forall|k: int| 0 <= k < s.len() - 1 ==> #[trigger] neighbours_ordered(s, sa, rank, k),
        0 <= i <= j < s.len(),
    ensures
        s[sa[i] as int] <= s[sa[j] as int],
    decreases j - i,
{
    if i < j {
        lemma_first_symbols_sorted(s, sa, rank, i, j - 1);
        assert(neighbours_ordered(s, sa, rank, j - 1));
    }
}

/// Along `sa`, between suffixes with the same first symbol, the suffixes after that symbol are
/// ranked in order.
proof fn lemma_tails_ranked(s: Seq<u32>, sa: Seq<i32>, rank: Seq<i32>, i: int, j: int)
    requires
        inverse_ranks(sa, rank, s.len() as int),
        forall|k: int| 0 <= k < s.len() - 1 ==> #[trigger] neighbours_ordered(s, sa, rank, k),
        0 <= i < j < s.len(),
        s[sa[i] as int] == s[sa[j] as int],
    ensures
        rank_of(rank, s.len() as int, sa[i] + 1) < rank_of(rank, s.len() as int, sa[j] + 1),
    decreases j - i,
{
    assert(neighbours_ordered(s, sa, rank, j - 1));
    if i < j - 1 {
        lemma_first_symbols_sorted(s, sa, rank, i, j - 1);
        lemma_tails_ranked(s, sa, rank, i, j - 1);
    }
}

/// An array whose neighbours are all in order, with ranks inverse to it, lists the suffixes
/// in order: each entry is smaller than every later one.
proof fn lemma_neighbours_sort(s: Seq<u32>, sa: Seq<i32>, rank: Seq<i32>, i: int, j: int)
    requires
        inverse_ranks(sa, rank, s.len() as int),
        forall|k: int| 0 <= k < s.len() - 1 ==> #[trigger] neighbours_ordered(s, sa, rank, k),
        0 <= i < j < s.len(),
    ensures
        suffix_lt(s, sa[i] as int, sa[j] as int),
    decreases s.len() - sa[i],
{
    let n = s.len() as int;
    let p = sa[i] as int;
    let q = sa[j] as int;
    lemma_first_symbols_sorted(s, sa, rank, i, j);
    assert(rank[p] == i && rank[q] == j);
    if s[p] == s[q] {
        lemma_tails_ranked(s, sa, rank, i, j);
        if p + 1 < n {
            assert(0 <= rank[p + 1]);
        }
        if q + 1 < n {
            assert(0 <= rank[q + 1]);
        }
        if p + 1 < n && q + 1 < n {
            let i2 = rank[p + 1] as int;
            let j2 = rank[q + 1] as int;
            assert(sa[i2] == p + 1 && sa[j2] == q + 1);
            lemma_neighbours_sort(s, sa, rank, i2, j2);
        }
        assert(suffix_lt(s, p, q) == suffix_lt(s, p + 1, q + 1));
    }
}

/// A suffix array lists every position: each of `0..s.len()` is one of its entries.
pub(crate) proof fn lemma_suffix_array_covers(s: Seq<u32>, sa: Seq<i32>, x: int)
    requires
        is_suffix_array(s, sa),
        0 <= x < s.len(),
    ensures
        exists|r: int| 0 <= r < sa.len() && sa[r] == x,
{
    let n = s.len() as int;
    let dom = vstd::set_lib::set_int_range(0, n);
    let f = |r: int| sa[r] as int;
    let img = dom.map(f);
    assert forall|r1: int, r2: int| dom.contains(r1) && dom.contains(r2) && #[trigger] f(r1) == #[trigger] f(r2) implies r1
        == r2 by {
        if r1 < r2 {
            lemma_suffix_lt_irreflexive(s, sa[r1] as int);
        } else if r2 < r1 {
            lemma_suffix_lt_irreflexive(s, sa[r2] as int);
        }
    }
    vstd::set_lib::lemma_int_range(0, n);
    vstd::set_lib::lemma_map_size(dom, img, f);
    if !(exists|r: int| 0 <= r < sa.len() && sa[r] == x) {
        let rest = dom.remove(x);
        assert forall|y: int| img.contains(y) implies rest.contains(y) by {
            let r = choose|r: int| dom.contains(r) && f(r) == y;
            assert(0 <= sa[r] < n);
        }
        assert(img.subset_of(rest));
        vstd::set_lib::lemma_len_subset(img, rest);
    }
}

/// Checks, in linear time, that `sa` is the suffix array of `s`.
pub fn check_suffix_array(s: &[u32], sa: &Vec<i32>) -> (ok: bool)
    requires
        s@.len() <= i32::MAX,
    ensures
        ok == is_suffix_array(s@, sa@),
{
    let n = s.len();
    if sa.len() != n {
        return false;
    }
    let ghost good = is_suffix_array(s@, sa@);
    let mut rank: Vec<i32> = vec![-1i32; n];
    let mut r: usize = 0;
    while r < n
        invariant
            n == s@.len() <= i32::MAX,
            sa@.len() == n,
            rank@.len() == n,
            r <= n,
            forall|k: int| 0 <= k < r ==> 0 <= #[trigger] sa@[k] < n && rank@[sa@[k] as int] == k,
            forall|x: int|
                0 <= x < n ==> (#[trigger] rank@[x] == -1 || (0 <= rank@[x] < r && sa@[rank@[x] as int]
                    == x)),
            good == is_suffix_array(s@, sa@),
        decreases n - r,
    {
        let p = sa[r];
        if p < 0 || p as usize >= n {
            return false;
        }
        if rank[p as usize] != -1 {
            proof {
                if good {
                    let r0 = rank@[p as int] as int;
                    assert(suffix_lt(s@, sa@[r0] as int, sa@[r as int] as int));
                    lemma_suffix_lt_irreflexive(s@, p as int);
                }
            }
            return false;
        }
        rank.set(p as usize, r as i32);
        r = r + 1;
    }
    let mut x: usize = 0;
    while x < n
        invariant
            n == s@.len() <= i32::MAX,
            sa@.len() == n,
            rank@.len() == n,
            x <= n,
            forall|k: int| 0 <= k < n ==> 0 <= #[trigger] sa@[k] < n && rank@[sa@[k] as int] == k,
            forall|y: int|
                0 <= y < n ==> (#[trigger] rank@[y] == -1 || (0 <= rank@[y] < n && sa@[rank@[y] as int]
                    == y)),
            forall|y: int| 0 <= y < x ==> #[trigger] rank@[y] != -1,
            good == is_suffix_array(s@, sa@),
        decreases n - x,
    {
        if rank[x] == -1 {
            proof {
                if good {
                    lemma_suffix_array_covers(s@, sa@, x as int);
                    let r0 = choose|r0: int| 0 <= r0 < sa@.len() && sa@[r0] == x;
                    assert(rank@[sa@[r0] as int] == r0);
                }
            }
            return false;
        }
        x = x + 1;
    }
    assert(inverse_ranks(sa@, rank@, n as int));
    let mut k: usize = 0;
    while k + 1 < n
        invariant
            n == s@.len() <= i32::MAX,
            inverse_ranks(sa@, rank@, n as int),
            k <= n,
            forall|t: int| 0 <= t < k ==> #[trigger] neighbours_ordered(s@, sa@, rank@, t),
            good == is_suffix_array(s@, sa@),
        decreases n - k,
    {
        let p = sa[k] as usize;
        let q = sa[k + 1] as usize;
        proof {
            if good {
                assert(suffix_lt(s@, p as int, q as int));
            }
        }
        if s[p] > s[q] {
            return false;
        }
        if s[p] == s[q] {
            let rp: i32 = if p + 1 < n {
                rank[p + 1]
            } else {
                -1
            };
            let rq: i32 = if q + 1 < n {
                rank[q + 1]
            } else {
                -1
            };
            if rp >= rq {
                proof {
                    if good {
                        assert(suffix_lt(s@, p as int, q as int));
                        assert(suffix_lt(s@, p + 1, q + 1));
                        if p + 1 < n && q + 1 < n {
                            let i2 = rank@[p + 1] as int;
                            let j2 = rank@[q + 1] as int;
                            assert(sa@[i2] == p + 1 && sa@[j2] == q + 1);
                            if j2 < i2 {
                                assert(suffix_lt(s@, sa@[j2] as int, sa@[i2] as int));
                                lemma_suffix_lt_total(s@, p + 1, q + 1);
                            } else if j2 == i2 {
                                assert(p == q);
                                assert(rank@[p as int] == k && rank@[q as int] == k + 1);
                            }
                        }
                    }
                }
                return false;
            }
        }
        assert(neighbours_ordered(s@, sa@, rank@, k as int));
        k = k + 1;
    }
    proof {
        assert forall|i: int, j: int| 0 <= i < j < sa@.len() implies suffix_lt(
            s@,
            sa@[i] as int,
            sa@[j] as int,
        ) by {
            lemma_neighbours_sort(s@, sa@, rank@, i, j);
        }
    }
    true
}

/// Builds the suffix array of `s` by selection: each round appends the smallest suffix not yet
/// listed. Quadratic in the length of `s` and more; meant only as the fallback of
/// [`super::sais::build_suffix_array`].
pub fn suffix_array_by_selection(s: &[u32]) -> (sa: Vec<i32>)
    requires
        s@.len() <= i32::MAX,
    ensures
        is_suffix_array(s@, sa@),
{
    let n = s.len();
    let mut sa: Vec<i32> = Vec::with_capacity(n);
    let mut used: Vec<bool> = vec![false; n];
    while sa.len() < n
        invariant
            n == s@.len() <= i32::MAX,
            used@.len() == n,
            sa@.len() <= n,
            forall|r: int| 0 <= r < sa@.len() ==> 0 <= #[trigger] sa@[r] < n && used@[sa@[r] as int],
            forall|x: int|
                0 <= x < n && #[trigger] used@[x] ==> exists|r: int| 0 <= r < sa@.len() && sa@[r] == x,
            forall|i: int, j: int|
                0 <= i < j < sa@.len() ==> suffix_lt(s@, sa@[i] as int, sa@[j] as int),
            forall|i: int, x: int|
                #![trigger sa@[i], used@[x]]
                0 <= i < sa@.len() && 0 <= x < n && !used@[x] ==> suffix_lt(s@, sa@[i] as int, x),
        decreases n - sa@.len(),
    {
        proof {
            if forall|x: int| 0 <= x < n ==> #[trigger] used@[x] {
                lemma_all_used_listed(sa@, used@, n as int);
                assert(false);
            }
        }
        // Pick the smallest unused suffix.
        let mut m: usize = n;
        let mut x: usize = 0;
        while x < n
            invariant
                n == s@.len() <= i32::MAX,
                used@.len() == n,
                x <= n,
                m == n || (m < x && !used@[m as int]),
                m == n ==> forall|y: int| 0 <= y < x ==> #[trigger] used@[y],
                m < n ==> forall|y: int|
                    0 <= y < x && !used@[y] && y != m ==> suffix_lt(s@, m as int, y),
            decreases n - x,
        {
            if !used[x] {
                if m == n || suffix_less(s, x, m) {
                    proof {
                        if m < n {
                            assert forall|y: int|
                                0 <= y < x + 1 && !used@[y] && y != x implies suffix_lt(
                                s@,
                                x as int,
                                y,
                            ) by {
                                if y != m as int {
                                    lemma_suffix_lt_transitive(s@, x as int, m as int, y);
                                }
                            }
                        }
                    }
                    m = x;
                } else {
                    proof {
                        lemma_suffix_lt_total(s@, x as int, m as int);
                    }
                }
            }
            x = x + 1;
        }
        proof {
            if m == n {
                lemma_all_used_listed(sa@, used@, n as int);
            }
        }
        let ghost old_sa = sa@;
        let ghost old_used = used@;
        sa.push(m as i32);
        used.set(m, true);
        proof {
            assert forall|y: int| 0 <= y < n && #[trigger] used@[y] implies exists|r: int|
                0 <= r < sa@.len() && sa@[r] == y by {
                if y == m as int {
                    assert(sa@[old_sa.len() as int] == y);
                } else {
                    assert(old_used[y]);
                    let r0 = choose|r: int| 0 <= r < old_sa.len() && old_sa[r] == y;
                    assert(sa@[r0] == y);
                }
            }
            assert forall|i: int, j: int| 0 <= i < j < sa@.len() implies suffix_lt(
                s@,
                sa@[i] as int,
                sa@[j] as int,
            ) by {
                if j == old_sa.len() {
                    assert(!old_used[m as int]);
                    assert(suffix_lt(s@, old_sa[i] as int, m as int));
                } else {
                    assert(sa@[i] == old_sa[i] && sa@[j] == old_sa[j]);
                }
            }
            assert forall|i: int, y: int|
                #![trigger sa@[i], used@[y]]
                0 <= i < sa@.len() && 0 <= y < n && !used@[y] implies suffix_lt(
                s@,
                sa@[i] as int,
                y,
            ) by {
                if i == old_sa.len() {
                    assert(y != m as int);
                } else {
                    assert(sa@[i] == old_sa[i]);
                    assert(!old_used[y]);
                }
            }
        }
    }
    sa
}

/// When every position is marked used, and each used position is listed in `sa` of at most
/// `n` entries, `sa` has `n` entries.
proof fn lemma_all_used_listed(sa: Seq<i32>, used: Seq<bool>, n: int)
    requires
        0 <= n,
        used.len() == n,
        sa.len() <= n,
        forall|x: int| 0 <= x < n ==> #[trigger] used[x],
        forall|x: int| 0 <= x < n && #[trigger] used[x] ==> exists|r: int| 0 <= r < sa.len() && sa[r] == x,
    ensures
        sa.len() == n,
{
    let listed = vstd::set_lib::set_int_range(0, n);
    let entries = vstd::set_lib::set_int_range(0, sa.len() as int);
    let f = |r: int| sa[r] as int;
    assert forall|x: int| listed.contains(x) implies #[trigger] entries.map(f).contains(x) by {
        assert(used[x]);
        let r = choose|r: int| 0 <= r < sa.len() && sa[r] == x;
        assert(entries.contains(r) && f(r) == x);
    }
    vstd::set_lib::lemma_int_range(0, n);
    vstd::set_lib::lemma_int_range(0, sa.len() as int);
    vstd::set_lib::lemma_map_size_bound(entries, entries.map(f), f);
    assert(listed.subset_of(entries.map(f)));
    vstd::set_lib::lemma_len_subset(listed, entries.map(f));
}

} // verus!
