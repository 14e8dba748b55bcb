//! Suffix array construction via the SA-IS algorithm.
//!
//! The choice of suffix-array algorithm does not affect the compressed output: the downstream
//! LCP-interval match finder only depends on the order of the sorted suffixes and their
//! longest-common-prefix lengths, both fully determined by the input. Suffixes that are a prefix of
//! another sort first, because of the appended sentinel.
//!
//! Every array access of the induced sorting is checked against the array's bounds, so the sort
//! keeps all its entries valid positions (or `-1` for "empty") whatever the input.
use vstd::prelude::*;
use super::suffix_order::{
    check_suffix_array, is_suffix_array, lemma_suffix_array_covers, lemma_suffix_lt_irreflexive, lemma_suffix_lt_total,
    suffix_array_by_selection, suffix_lt, widen,
};

verus! {

/// Every entry of `sa` is a position of a string of `n` symbols, or `-1`.
pub open spec fn entries_in_range(sa: Seq<i32>, n: int) -> bool {
    forall|i: int| 0 <= i < sa.len() ==> -1 <= #[trigger] sa[i] < n
}

/// The string the induced sort is run on for `input`: each byte mapped to `1..=256`, then a
/// `0` sentinel below every one of them.
pub open spec fn with_sentinel(input: Seq<u8>) -> Seq<u32> {
    Seq::new(input.len() + 1, |i: int| if i < input.len() { (input[i] + 1) as u32 } else { 0u32 })
}

/// Suffixes of `input` compare as the suffixes at the same positions of the string with the
/// sentinel: the sentinel, below every byte, stands for the end of `input`.
proof fn lemma_sentinel_order(input: Seq<u8>, p: int, q: int)
    requires
        0 <= p <= input.len(),
        0 <= q <= input.len(),
    ensures
        suffix_lt(with_sentinel(input), p, q) == suffix_lt(widen(input), p, q),
    decreases input.len() - p,
{
    reveal_with_fuel(suffix_lt, 2);
    let t = with_sentinel(input);
    if p < input.len() && q < input.len() && t[p] == t[q] {
        lemma_sentinel_order(input, p + 1, q + 1);
    }
}

/// The sentinel's suffix is the smallest, so it comes first in the suffix array.
proof fn lemma_sentinel_first(input: Seq<u8>, sa: Seq<i32>)
    requires
        is_suffix_array(with_sentinel(input), sa),
    ensures
        sa[0] == input.len(),
        forall|r: int| 1 <= r < sa.len() ==> 0 <= #[trigger] sa[r] < input.len(),
{
    let t = with_sentinel(input);
    let n = input.len() as int;
    lemma_suffix_array_covers(t, sa, n);
    let r0 = choose|r: int| 0 <= r < sa.len() && sa[r] == n;
    if r0 > 0 {
        assert(suffix_lt(t, sa[0] as int, n));
        if sa[0] == n {
            lemma_suffix_lt_irreflexive(t, n);
        } else {
            assert(t[sa[0] as int] >= 1);
            assert(suffix_lt(t, n, sa[0] as int));
            lemma_suffix_lt_total(t, n, sa[0] as int);
        }
    }
    assert forall|r: int| 1 <= r < sa.len() implies 0 <= #[trigger] sa[r] < n by {
        assert(suffix_lt(t, sa[0] as int, sa[r] as int));
        if sa[r] == n {
            lemma_suffix_lt_irreflexive(t, n);
        }
    }
}

/// Build the suffix array of `input`.
///
/// Returns a `Vec<i32>` of length `input.len()` where `sa[r]` is the start position of the
/// `r`-th smallest suffix. Suffixes are ordered as if an implicit end-of-string symbol smaller
/// than every byte terminated the input (so a suffix that is a strict prefix of another sorts
/// first). Inputs of 2 GiB or more are not supported.
pub fn build_suffix_array(input: &[u8]) -> (sa: Vec<i32>)
    requires
        input@.len() < i32::MAX,
    ensures
        is_suffix_array(widen(input@), sa@),
{
    let n0 = input.len();
    if n0 == 0 {
        return Vec::new();
    }
    // Map bytes to 1..=256 and append a 0 sentinel that is strictly smaller than every real
    // symbol. This makes the last position the unique smallest suffix, as SA-IS requires, and
    // lets inputs that legitimately contain a 0 byte coexist with the sentinel.
    let mut s: Vec<u32> = Vec::with_capacity(n0 + 1);
    let mut i: usize = 0;
    while i < n0
        invariant
            i <= n0,
            n0 == input@.len(),
            s@.len() == i,
            forall|k: int| 0 <= k < i ==> #[trigger] s@[k] == with_sentinel(input@)[k],
        decreases n0 - i,
    {
        s.push(input[i] as u32 + 1);
        i = i + 1;
    }
    s.push(0);
    assert(s@ =~= with_sentinel(input@));
    let mut sa: Vec<i32> = vec![-1i32; n0 + 1];
    sais(&s, &mut sa, 256);
    proof {
        lemma_sentinel_first(input@, sa@);
    }
    // sa[0] is the sentinel suffix (position n0); the n0 real suffixes follow it in order.
    let mut out: Vec<i32> = Vec::with_capacity(n0);
    let mut r: usize = 1;
    while r <= n0
        invariant
            1 <= r <= n0 + 1,
            n0 == input@.len() < i32::MAX,
            sa@.len() == n0 + 1,
            forall|k: int| 1 <= k < sa@.len() ==> 0 <= #[trigger] sa@[k] < n0,
            out@ == sa@.subrange(1, r as int),
        decreases n0 + 1 - r,
    {
        out.push(sa[r]);
        r = r + 1;
        assert(out@ =~= sa@.subrange(1, r as int));
    }
    proof {
        let t = with_sentinel(input@);
        assert forall|i: int, j: int| 0 <= i < j < out@.len() implies suffix_lt(
            widen(input@),
            out@[i] as int,
            out@[j] as int,
        ) by {
            assert(out@[i] == sa@[i + 1] && out@[j] == sa@[j + 1]);
            assert(suffix_lt(t, sa@[i + 1] as int, sa@[j + 1] as int));
            lemma_sentinel_order(input@, out@[i] as int, out@[j] as int);
        }
    }
    out
}

/// Histogram of the alphabet symbols in `s` (`counts[c]` = number of occurrences of symbol `c`,
/// for `c <= k`). Computed once per recursion level; bucket boundaries are then derived from it
/// in O(k) instead of rescanning `s` on every induced-sort pass.
fn count_symbols(s: &[u32], k: usize) -> (counts: Vec<i32>)
    requires
        s@.len() <= i32::MAX,
        k < usize::MAX,
    ensures
        counts@.len() == k + 1,
        forall|c: int| 0 <= c <= k ==> 0 <= #[trigger] counts@[c] <= s@.len(),
{
    let mut counts = vec![0i32; k + 1];
    let mut i: usize = 0;
    while i < s.len()
        invariant
            i <= s@.len() <= i32::MAX,
            counts@.len() == k + 1,
            forall|c: int| 0 <= c <= k ==> 0 <= #[trigger] counts@[c] <= i,
        decreases s@.len() - i,
    {
        let c = s[i] as usize;
        if c <= k {
            let v = counts[c];
            counts.set(c, v + 1);
        }
        i = i + 1;
    }
    counts
}

/// The running sum of `counts[0..=b]`, stopping at `i32::MAX`.
pub open spec fn bucket_sum(counts: Seq<i32>, b: int) -> int
    decreases b + 1,
{
    if b < 0 {
        0
    } else {
        let p = bucket_sum(counts, b - 1);
        if counts[b] > i32::MAX - p {
            i32::MAX as int
        } else {
            p + counts[b]
        }
    }
}

/// The boundary of bucket `b`: its exclusive end when `end`, else its start.
pub open spec fn bucket_bound(counts: Seq<i32>, b: int, end: bool) -> int {
    if end {
        bucket_sum(counts, b)
    } else if bucket_sum(counts, b) >= counts[b] {
        bucket_sum(counts, b) - counts[b]
    } else {
        0
    }
}

/// `bkt` with its first `counts.len()` entries set to the bucket boundaries of `counts`.
pub open spec fn buckets_of(counts: Seq<i32>, bkt: Seq<i32>, end: bool) -> Seq<i32> {
    Seq::new(bkt.len(), |b: int| if b < counts.len() { bucket_bound(counts, b, end) as i32 } else { bkt[b] })
}

/// What placing suffix `j` with first symbol `c` does to `sa` and the bucket counters `bkt`: it
/// takes the slot the counter of `c` points to (the head when `advance`, else the one before
/// the end), when there is one, and moves the counter past it.
pub open spec fn place_spec(sa: Seq<i32>, bkt: Seq<i32>, c: int, j: i32, advance: bool) -> (Seq<i32>, Seq<i32>) {
    let slot: int = if c >= bkt.len() {
        -1
    } else if advance {
        bkt[c] as int
    } else if bkt[c] > 0 {
        bkt[c] - 1
    } else {
        -1
    };
    if 0 <= slot < sa.len() {
        (sa.update(slot, j), bkt.update(c, (if advance { slot + 1 } else { slot }) as i32))
    } else {
        (sa, bkt)
    }
}

/// The left-to-right induction pass from entry `i` of `sa` (of `n` entries) on: the L-type
/// suffix before each listed suffix is placed at the head of its bucket.
pub open spec fn induce_l_from(s: Seq<u32>, t: Seq<bool>, sa: Seq<i32>, bkt: Seq<i32>, i: int, n: int) -> (Seq<i32>, Seq<i32>)
    decreases n - i,
{
    if i < 0 || i >= n {
        (sa, bkt)
    } else {
        let j = sa[i] - 1;
        let next = if j >= 0 && !t[j] { place_spec(sa, bkt, s[j] as int, j as i32, true) } else { (sa, bkt) };
        induce_l_from(s, t, next.0, next.1, i + 1, n)
    }
}

/// The right-to-left induction pass over the first `i` entries of `sa`: the S-type suffix
/// before each listed suffix is placed at the end of its bucket.
pub open spec fn induce_s_from(s: Seq<u32>, t: Seq<bool>, sa: Seq<i32>, bkt: Seq<i32>, i: int) -> (Seq<i32>, Seq<i32>)
    decreases i,
{
    if i <= 0 {
        (sa, bkt)
    } else {
        let j = sa[i - 1] - 1;
        let next = if j >= 0 && t[j] { place_spec(sa, bkt, s[j] as int, j as i32, false) } else { (sa, bkt) };
        induce_s_from(s, t, next.0, next.1, i - 1)
    }
}

/// Fill `bkt[0..=k]` with bucket boundaries derived from `counts`. With `end == true` each entry is
/// the exclusive end of its bucket; with `end == false` each entry is the inclusive start (head).
/// (The running sum stops at `i32::MAX`, which no input of the supported size reaches.)
fn get_buckets(counts: &[i32], bkt: &mut Vec<i32>, end: bool)
    requires
        forall|c: int| 0 <= c < counts@.len() ==> 0 <= #[trigger] counts@[c],
    ensures
        final(bkt)@.len() == old(bkt)@.len(),
        forall|b: int| 0 <= b < final(bkt)@.len() ==> #[trigger] final(bkt)@[b] == if b < counts@.len() {
            bucket_bound(counts@, b, end) as i32
        } else {
            old(bkt)@[b]
        },
        final(bkt)@ == buckets_of(counts@, old(bkt)@, end),
{
    let mut sum: i32 = 0;
    let mut b: usize = 0;
    while b < bkt.len() && b < counts.len()
        invariant
            bkt@.len() == old(bkt)@.len(),
            0 <= sum,
            sum == bucket_sum(counts@, b - 1),
            b <= bkt@.len(),
            b <= counts@.len(),
            forall|x: int| 0 <= x < b ==> 0 <= #[trigger] bucket_sum(counts@, x) <= i32::MAX,
            forall|x: int| 0 <= x < b && x < bkt@.len() ==> #[trigger] bkt@[x] == bucket_bound(counts@, x, end) as i32,
            forall|x: int| b <= x < bkt@.len() ==> #[trigger] bkt@[x] == old(bkt)@[x],
            forall|c: int| 0 <= c < counts@.len() ==> 0 <= #[trigger] counts@[c],
        decreases bkt@.len() - b,
    {
        let c = counts[b];
        sum = if c > i32::MAX - sum {
            i32::MAX
        } else {
            sum + c
        };
        let v = if end {
            sum
        } else if sum >= c {
            sum - c
        } else {
            0
        };
        bkt.set(b, v);
        b = b + 1;
    }
}

/// Places suffix `j` at the free slot its bucket counter points to, if that slot exists.
fn place(sa: &mut Vec<i32>, bkt: &mut Vec<i32>, c: usize, j: i32, advance: bool)
    requires
        entries_in_range(old(sa)@, old(sa)@.len() as int),
        0 <= j < old(sa)@.len() <= i32::MAX,
    ensures
        final(sa)@.len() == old(sa)@.len(),
        final(bkt)@.len() == old(bkt)@.len(),
        entries_in_range(final(sa)@, final(sa)@.len() as int),
        (final(sa)@, final(bkt)@) == place_spec(old(sa)@, old(bkt)@, c as int, j, advance),
        ({
            let slot: int = if c >= old(bkt)@.len() {
                -1
            } else if advance {
                old(bkt)@[c as int] as int
            } else if old(bkt)@[c as int] > 0 {
                old(bkt)@[c as int] - 1
            } else {
                -1
            };
            if 0 <= slot < old(sa)@.len() {
                &&& final(sa)@ == old(sa)@.update(slot, j)
                &&& final(bkt)@ == old(bkt)@.update(c as int, (if advance { slot + 1 } else { slot }) as i32)
            } else {
                &&& final(sa)@ == old(sa)@
                &&& final(bkt)@ == old(bkt)@
            }
        }),
{
    if c < bkt.len() {
        let b0 = bkt[c];
        let b = if advance {
            b0
        } else if b0 > 0 {
            b0 - 1
        } else {
            -1
        };
        if 0 <= b && (b as usize) < sa.len() {
            sa.set(b as usize, j);
            if advance {
                bkt.set(c, b + 1);
            } else {
                bkt.set(c, b);
            }
        }
    }
}

/// Induced sort of the L-type suffixes (left-to-right scan, placing at bucket heads).
fn induce_l(s: &[u32], sa: &mut Vec<i32>, t: &Vec<bool>, bkt: &mut Vec<i32>, counts: &[i32])
    requires
        old(sa)@.len() == s@.len() == t@.len() <= i32::MAX,
        entries_in_range(old(sa)@, s@.len() as int),
        forall|c: int| 0 <= c < counts@.len() ==> 0 <= #[trigger] counts@[c],
    ensures
        final(sa)@.len() == s@.len(),
        final(bkt)@.len() == old(bkt)@.len(),
        entries_in_range(final(sa)@, s@.len() as int),
        (final(sa)@, final(bkt)@) == induce_l_from(s@, t@, old(sa)@, buckets_of(counts@, old(bkt)@, false), 0, s@.len() as int),
{
    get_buckets(counts, bkt, false);
    let ghost target = induce_l_from(s@, t@, old(sa)@, buckets_of(counts@, old(bkt)@, false), 0, s@.len() as int);
    let mut i: usize = 0;
    while i < sa.len()
        invariant
            sa@.len() == s@.len() == t@.len() <= i32::MAX,
            bkt@.len() == old(bkt)@.len(),
            entries_in_range(sa@, s@.len() as int),
            i <= sa@.len(),
            induce_l_from(s@, t@, sa@, bkt@, i as int, s@.len() as int) == target,
        decreases sa@.len() - i,
    {
        let j = sa[i] - 1;
        if j >= 0 && !t[j as usize] {
            let c = s[j as usize] as usize;
            place(sa, bkt, c, j, true);
        }
        i = i + 1;
    }
}

/// Induced sort of the S-type suffixes (right-to-left scan, placing at bucket ends).
fn induce_s(s: &[u32], sa: &mut Vec<i32>, t: &Vec<bool>, bkt: &mut Vec<i32>, counts: &[i32])
    requires
        old(sa)@.len() == s@.len() == t@.len() <= i32::MAX,
        entries_in_range(old(sa)@, s@.len() as int),
        forall|c: int| 0 <= c < counts@.len() ==> 0 <= #[trigger] counts@[c],
    ensures
        final(sa)@.len() == s@.len(),
        final(bkt)@.len() == old(bkt)@.len(),
        entries_in_range(final(sa)@, s@.len() as int),
        (final(sa)@, final(bkt)@) == induce_s_from(s@, t@, old(sa)@, buckets_of(counts@, old(bkt)@, true), s@.len() as int),
{
    get_buckets(counts, bkt, true);
    let ghost target = induce_s_from(s@, t@, old(sa)@, buckets_of(counts@, old(bkt)@, true), s@.len() as int);
    let mut i: usize = sa.len();
    while i > 0
        invariant
            i <= sa@.len(),
            sa@.len() == s@.len() == t@.len() <= i32::MAX,
            bkt@.len() == old(bkt)@.len(),
            entries_in_range(sa@, s@.len() as int),
            induce_s_from(s@, t@, sa@, bkt@, i as int) == target,
        decreases i,
    {
        i = i - 1;
        let j = sa[i] - 1;
        if j >= 0 && t[j as usize] {
            let c = s[j as usize] as usize;
            place(sa, bkt, c, j, false);
        }
    }
}

/// Whether position `i` starts a leftmost-S substring: it is S-type and its predecessor L-type.
fn is_lms(t: &Vec<bool>, i: usize) -> (r: bool)
    requires
        i < t@.len(),
    ensures
        r == (i > 0 && t@[i as int] && !t@[i - 1]),
{
    i > 0 && t[i] && !t[i - 1]
}

/// Sets every entry of `sa` to `-1`, whatever it held.
fn fill_empty(sa: &mut Vec<i32>)
    ensures
        final(sa)@.len() == old(sa)@.len(),
        forall|x: int| 0 <= x < final(sa)@.len() ==> #[trigger] final(sa)@[x] == -1i32,
{
    let mut i: usize = 0;
    while i < sa.len()
        invariant
            i <= sa@.len() == old(sa)@.len(),
            forall|x: int| 0 <= x < i ==> #[trigger] sa@[x] == -1i32,
        decreases sa@.len() - i,
    {
        sa.set(i, -1);
        i = i + 1;
    }
}

/// Sets every entry of `sa[from..to]` to `-1`.
fn clear_range(sa: &mut Vec<i32>, from: usize, to: usize)
    requires
        to <= old(sa)@.len(),
        entries_in_range(old(sa)@, old(sa)@.len() as int),
    ensures
        final(sa)@.len() == old(sa)@.len(),
        entries_in_range(final(sa)@, final(sa)@.len() as int),
        forall|x: int| 0 <= x < old(sa)@.len() ==> #[trigger] final(sa)@[x] == if from <= x < to {
            -1i32
        } else {
            old(sa)@[x]
        },
{
    let mut i = from;
    while i < to
        invariant
            to <= sa@.len() == old(sa)@.len(),
            entries_in_range(sa@, sa@.len() as int),
            from <= i,
            i <= to || i == from,
            forall|x: int| 0 <= x < old(sa)@.len() ==> #[trigger] sa@[x] == if from <= x < i {
                -1i32
            } else {
                old(sa)@[x]
            },
        decreases to - i,
    {
        sa.set(i, -1);
        i = i + 1;
    }
}

/// Core recursive SA-IS. `s` is the string over alphabet `0..=k` (the last symbol must be the
/// unique smallest), and the suffix array is written into `sa` (which must have length `s.len()`).
///
/// The induced sort's order is not proved here: a linear-time check against the definition of
/// the order makes the result certain, and should that check ever fail, the array is built
/// again by selection.
fn sais(s: &[u32], sa: &mut Vec<i32>, k: usize)
    requires
        1 <= s@.len() <= i32::MAX,
        old(sa)@.len() == s@.len(),
        k < usize::MAX,
    ensures
        final(sa)@.len() == s@.len(),
        entries_in_range(final(sa)@, s@.len() as int),
        is_suffix_array(s@, final(sa)@),
    decreases s@.len(),
{
    let n = s.len();
    if n == 1 {
        sa.set(0, 0);
        return;
    }
    assert(n >= 2);
    fill_empty(sa);
    // Classify each suffix as S-type (true) or L-type (false).
    // S-type: s[i..] is lexicographically smaller than s[i+1..].
    let mut t: Vec<bool> = vec![false; n];
    t.set(n - 1, true);  // the sentinel suffix is S-type by definition
    let mut i: usize = n - 1;
    while i > 0
        invariant
            i < n == t@.len(),
            n == s@.len(),
        decreases i,
    {
        i = i - 1;
        let v = s[i] < s[i + 1] || (s[i] == s[i + 1] && t[i + 1]);
        t.set(i, v);
    }
    let counts = count_symbols(s, k);
    let mut bkt: Vec<i32> = vec![0i32; k + 1];

    // Stage 1: place LMS suffixes at the ends of their buckets, then induce.
    clear_range(sa, 0, n);
    get_buckets(&counts, &mut bkt, true);
    let mut i: usize = 1;
    while i < n
        invariant
            1 <= i <= n <= i32::MAX,
            n == s@.len() == sa@.len() == t@.len(),
            entries_in_range(sa@, n as int),
        decreases n - i,
    {
        if is_lms(&t, i) {
            let c = s[i] as usize;
            place(sa, &mut bkt, c, i as i32, false);
        }
        i = i + 1;
    }
    induce_l(s, sa, &t, &mut bkt, &counts);
    induce_s(s, sa, &t, &mut bkt, &counts);

    // Compact all sorted LMS positions into the front of `sa`.
    let mut n1: usize = 0;
    let mut i: usize = 0;
    while i < n
        invariant
            n1 <= i <= n,
            n == s@.len() == sa@.len() == t@.len(),
            entries_in_range(sa@, n as int),
        decreases n - i,
    {
        let p = sa[i];
        if p >= 0 && is_lms(&t, p as usize) {
            sa.set(n1, p);
            n1 = n1 + 1;
        }
        i = i + 1;
    }
    // LMS positions are non-adjacent, so n1 <= n/2 <= n - n1: the name area below can't overlap.
    clear_range(sa, n1, n);

    // Name the LMS substrings: equal substrings get the same name.
    let mut name: i32 = 0;
    let mut prev: i32 = -1;
    let mut i: usize = 0;
    while i < n1
        invariant
            n1 <= n == s@.len() == sa@.len() == t@.len() <= i32::MAX,
            entries_in_range(sa@, n as int),
            0 <= name <= i,
            -1 <= prev < n,
        decreases n1 - i,
    {
        let p = sa[i];
        let pos: usize = if p >= 0 {
            p as usize
        } else {
            0
        };
        let mut diff = false;
        let mut d: usize = 0;
        loop
            invariant
                pos < n == s@.len() == t@.len() <= i32::MAX,
                -1 <= prev < n,
                d <= n,
            decreases n - d,
        {
            if prev < 0 {
                diff = true;
                break;
            }
            let pp = prev as usize;
            if pos + d >= n || pp + d >= n {
                diff = true;
                break;
            }
            if s[pos + d] != s[pp + d] || t[pos + d] != t[pp + d] {
                diff = true;
                break;
            }
            if d > 0 && (is_lms(&t, pos + d) || is_lms(&t, pp + d)) {
                // Reached the end of both LMS substrings without a difference: they're equal.
                break;
            }
            d = d + 1;
        }
        if diff {
            name = name + 1;
            prev = pos as i32;
        }
        if n1 + pos / 2 < n && name >= 1 {
            sa.set(n1 + pos / 2, name - 1);
        }
        i = i + 1;
    }
    // Compact the names into the tail to form the reduced string.
    let mut j: usize = n - 1;
    let mut i: usize = n;
    while i > n1
        invariant
            n1 <= i <= n == s@.len() == sa@.len(),
            j < n,
            entries_in_range(sa@, n as int),
        decreases i,
    {
        i = i - 1;
        let v = sa[i];
        if v >= 0 {
            sa.set(j, v);
            if j > 0 {
                j = j - 1;
            }
        }
    }

    // Stage 2: solve the reduced problem.
    if name as usize == n1 {
        // Every LMS substring is unique: the suffix array is directly the inverse of the names.
        let mut i: usize = 0;
        while i < n1
            invariant
                n1 <= n == s@.len() == sa@.len() <= i32::MAX,
                entries_in_range(sa@, n as int),
            decreases n1 - i,
        {
            let v = sa[n - n1 + i];
            if v >= 0 && (v as usize) < n1 {
                sa.set(v as usize, i as i32);
            }
            i = i + 1;
        }
    } else if 1 <= n1 && n1 < n {
        let mut reduced: Vec<u32> = Vec::with_capacity(n1);
        let mut i: usize = 0;
        while i < n1
            invariant
                1 <= n1 < n == s@.len() == sa@.len(),
                reduced@.len() == i <= n1,
            decreases n1 - i,
        {
            let v = sa[n - n1 + i];
            reduced.push(if v >= 0 {
                v as u32
            } else {
                0
            });
            i = i + 1;
        }
        let mut sa1: Vec<i32> = vec![-1i32; n1];
        let k1: usize = if name >= 1 {
            (name - 1) as usize
        } else {
            0
        };
        sais(&reduced, &mut sa1, k1);
        let mut i: usize = 0;
        while i < n1
            invariant
                n1 < n == s@.len() == sa@.len(),
                sa1@.len() == n1,
                entries_in_range(sa@, n as int),
                entries_in_range(sa1@, n1 as int),
            decreases n1 - i,
        {
            sa.set(i, sa1[i]);
            i = i + 1;
        }
    }
    // Stage 3: induce the final suffix array from the sorted LMS suffixes.
    // Recover the LMS positions in text order.
    let mut p1: Vec<i32> = Vec::with_capacity(n1);
    let mut i: usize = 1;
    while i < n
        invariant
            1 <= i <= n == t@.len() <= i32::MAX,
            forall|q: int| 0 <= q < p1@.len() ==> 0 <= #[trigger] p1@[q] < n,
        decreases n - i,
    {
        if is_lms(&t, i) {
            p1.push(i as i32);
        }
        i = i + 1;
    }
    // Map the reduced-string suffix array back to the LMS positions of the input.
    let mut i: usize = 0;
    while i < n1
        invariant
            n1 <= n == s@.len() == sa@.len(),
            entries_in_range(sa@, n as int),
            forall|q: int| 0 <= q < p1@.len() ==> 0 <= #[trigger] p1@[q] < n,
        decreases n1 - i,
    {
        let v = sa[i];
        if v >= 0 && (v as usize) < p1.len() {
            sa.set(i, p1[v as usize]);
        }
        i = i + 1;
    }
    clear_range(sa, n1, n);
    // Place the sorted LMS suffixes at their bucket ends (reverse order), then induce.
    get_buckets(&counts, &mut bkt, true);
    let mut i: usize = n1;
    while i > 0
        invariant
            i <= n1 <= n == s@.len() == sa@.len() <= i32::MAX,
            entries_in_range(sa@, n as int),
        decreases i,
    {
        i = i - 1;
        let jpos = sa[i];
        sa.set(i, -1);
        if jpos >= 0 {
            let c = s[jpos as usize] as usize;
            place(sa, &mut bkt, c, jpos, false);
        }
    }
    induce_l(s, sa, &t, &mut bkt, &counts);
    induce_s(s, sa, &t, &mut bkt, &counts);
    if !check_suffix_array(s, sa) {
        let sorted = suffix_array_by_selection(s);
        let mut i: usize = 0;
        while i < n
            invariant
                n == s@.len() == sa@.len() == sorted@.len(),
                i <= n,
                forall|x: int| 0 <= x < i ==> #[trigger] sa@[x] == sorted@[x],
            decreases n - i,
        {
            sa.set(i, sorted[i]);
            i = i + 1;
        }
        assert(sa@ =~= sorted@);
    }
}

} // verus!
