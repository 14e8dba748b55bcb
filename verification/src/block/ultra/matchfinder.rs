//! LCP-interval match finder.
//!
//! For every position in the input it finds the single longest match (and a back-offset achieving
//! it). It works off a suffix array (built in [`super::sais`]) plus an LCP array, organised into
//! "LCP intervals". Because any prefix of a match at offset `D` is itself a match at offset `D`,
//! storing just the longest match per position (together with its offset) is enough for the optimal
//! parser to consider every useful sub-length.
//!
//! The 64-bit interval word gives positions a full 32 bits; the LCP field and visited flag are
//! shifted up accordingly.
//!
//! Every link read from the interval structure is checked against the bounds of the array it
//! indexes, and every match reported lies inside the window: it starts at most `MAX_OFFSET` bytes
//! back and ends before the last literals.
use vstd::prelude::*;
use crate::block::{LAST_LITERALS, MAX_DISTANCE, MFLIMIT};
use super::sais::build_suffix_array;
use super::{match_in_window, Match, MIN_MATCH_SIZE};

verus! {

/// Match lengths are clamped to this (`1 << (LCP_BITS - 1)`, with 15 LCP bits).
pub const LCP_MAX: i32 = 16384;

/// Bits of the position field.
const POS_MASK: u64 = 0xFFFF_FFFF;

/// The LCP field: bits `[32, 47)`.
const LCP_MASK: u64 = 0x7FFF_0000_0000;

/// Bit 47: the interval was visited.
const VISITED_FLAG: u64 = 0x8000_0000_0000;

/// Bits `[0, 47)`.
const EXCL_VISITED_MASK: u64 = 0x7FFF_FFFF_FFFF;

/// The value of the LCP field's lowest bit.
const LCP_UNIT: u64 = 0x1_0000_0000;

/// Scratch buffers for the match finder, reused across blocks to avoid reallocation.
pub struct MatchFinder {
    /// LCP-interval linkage, and later visited markers (`pos | VISITED_FLAG`).
    intervals: Vec<u64>,
    /// Per text-position link into the interval tree.
    pos_data: Vec<u64>,
    /// Stack of currently-open intervals during interval construction.
    open: Vec<u64>,
    /// Permuted-LCP scratch (doubles as the Phi array while computing it).
    phi: Vec<i32>,
    /// (position, clamped LCP) packed per suffix-array rank, consumed by `build_intervals`.
    sa_lcp: Vec<u64>,
}

/// `v` with `v[idx]` set to `x` when `idx` indexes it.
spec fn set_at_spec(v: Seq<u64>, idx: u64, x: u64) -> Seq<u64> {
    if idx < v.len() {
        v.update(idx as int, x)
    } else {
        v
    }
}

/// Closing open intervals from `top` down, for a rank whose LCP `next_lcp` is below the deepest
/// one: each closed interval is linked to the one below it, until one with LCP `next_lcp` is
/// reached, or one with a smaller LCP, in which case an interval with LCP `next_lcp` (numbered
/// `next_idx`) is opened in place of the last closed one. Gives the interval table, the stack,
/// the new top and whether an interval was opened.
spec fn close_until(intervals: Seq<u64>, open: Seq<u64>, top: int, next_lcp: u64, next_idx: u64) -> (Seq<u64>, Seq<u64>, int, bool)
    decreases top,
{
    if top <= 0 {
        (intervals, open, top, false)
    } else {
        let closed = open[top] & POS_MASK;
        let t = top - 1;
        let sup = open[t] & LCP_MASK;
        if next_lcp == sup {
            (set_at_spec(intervals, closed, open[t]), open, t, false)
        } else if next_lcp > sup {
            let open2 = open.update(top, next_lcp | next_idx);
            (set_at_spec(intervals, closed, open2[top]), open2, top, true)
        } else {
            close_until(set_at_spec(intervals, closed, open[t]), open, t, next_lcp, next_idx)
        }
    }
}

/// `v[idx]`, or 0 when `idx` does not index `v`.
spec fn get_at_spec(v: Seq<u64>, idx: u64) -> u64 {
    if idx < v.len() {
        v[idx as int]
    } else {
        0
    }
}

/// The ascent from the interval link `r` for the suffix at `n_offset`, of at most `steps`
/// steps: each interval passed on the way is marked visited by `n_offset`, until an interval
/// whose parent link has no LCP. Gives the interval table, the last link and its parent link.
spec fn ascend(intervals: Seq<u64>, r: u64, steps: u64, n_offset: u64) -> (Seq<u64>, u64, u64)
    decreases steps,
{
    let sr = get_at_spec(intervals, r & POS_MASK);
    if sr & LCP_MASK == 0 || steps == 0 {
        (intervals, r, sr)
    } else {
        ascend(set_at_spec(intervals, r & POS_MASK, n_offset | VISITED_FLAG), sr, (steps - 1) as u64, n_offset)
    }
}

/// The descent from position `match_pos` while its link lies above `r`, of at most `steps`
/// steps. Gives the position reached and its link.
spec fn descend(pos_data: Seq<u64>, intervals: Seq<u64>, match_pos: u64, r: u64, steps: u64) -> (u64, u64)
    decreases steps,
{
    let sr = get_at_spec(pos_data, match_pos);
    if sr > r && steps > 0 {
        descend(pos_data, intervals, get_at_spec(intervals, sr & POS_MASK) & EXCL_VISITED_MASK, r, (steps - 1) as u64)
    } else {
        (match_pos, sr)
    }
}

/// The walk over the intervals that contain the suffix at `n_offset`, innermost first, from
/// interval link `r` and candidate position `match_pos`, for at most `outer` more intervals:
/// each interval is marked visited by `n_offset` and remembers the suffix, and the first
/// candidate before `n_offset` within `MAX_DISTANCE` is reported when `want`. Gives the
/// interval table, the position links, the number of reported matches and the match.
spec fn walk_intervals(
    intervals: Seq<u64>,
    pos_data: Seq<u64>,
    n_offset: u64,
    want: bool,
    r: u64,
    match_pos: u64,
    count: int,
    found: Match,
    outer: u64,
) -> (Seq<u64>, Seq<u64>, int, Match)
    decreases outer,
{
    let d = descend(pos_data, intervals, match_pos, r, u64::MAX);
    let mp = d.0;
    let sr = d.1;
    let iv2 = set_at_spec(intervals, r & POS_MASK, n_offset | VISITED_FLAG);
    let pd2 = set_at_spec(pos_data, mp, r);
    let take = want && count < 1 && mp < n_offset && n_offset - mp <= MAX_DISTANCE;
    let count2 = if take { count + 1 } else { count };
    let found2 = if take { Match { length: (r >> 32u64) as i32, offset: (n_offset - mp) as u32 } } else { found };
    if sr == 0 || outer == 0 {
        (iv2, pd2, count2, found2)
    } else {
        walk_intervals(
            iv2,
            pd2,
            n_offset,
            want,
            sr,
            get_at_spec(iv2, sr & POS_MASK) & EXCL_VISITED_MASK,
            count2,
            found2,
            (outer - 1) as u64,
        )
    }
}

/// What finding the matches at `n_offset` does: the interval table, the position links, the
/// number of reported matches and the match.
spec fn matches_at(intervals: Seq<u64>, pos_data: Seq<u64>, n_offset: u64, want: bool) -> (Seq<u64>, Seq<u64>, int, Match) {
    let r0 = pos_data[n_offset as int];
    let pd1 = pos_data.update(n_offset as int, 0);
    let a = ascend(intervals, r0, u64::MAX, n_offset);
    let iv1 = a.0;
    let r = a.1;
    let sr = a.2;
    if sr == 0 {
        (if r != 0 { set_at_spec(iv1, r & POS_MASK, n_offset | VISITED_FLAG) } else { iv1 }, pd1, 0, Match {
            length: 0,
            offset: 0,
        })
    } else {
        walk_intervals(iv1, pd1, n_offset, want, r, sr & EXCL_VISITED_MASK, 0, Match { length: 0, offset: 0 }, u64::MAX)
    }
}

/// Closing every open interval from `top` down, each linked to the one below it.
spec fn close_all(intervals: Seq<u64>, open: Seq<u64>, top: int) -> Seq<u64>
    decreases top,
{
    if top <= 0 {
        intervals
    } else {
        close_all(set_at_spec(intervals, open[top] & POS_MASK, open[top - 1]), open, top - 1)
    }
}

impl MatchFinder {
    /// The buffers are sized for a window of `n` bytes.
    pub closed spec fn sized(&self, n: nat) -> bool {
        &&& self.intervals@.len() == n
        &&& self.pos_data@.len() == n
        &&& self.phi@.len() == n
        &&& self.sa_lcp@.len() == n
        &&& self.open@.len() == LCP_MAX + 2
    }

    /// The finder holds no window yet.
    pub closed spec fn holds_nothing(&self) -> bool {
        &&& self.intervals@.len() == 0
        &&& self.pos_data@.len() == 0
        &&& self.phi@.len() == 0
        &&& self.sa_lcp@.len() == 0
        &&& self.open@.len() == 0
    }

    pub fn new() -> (m: Self)
        ensures
            m.holds_nothing(),
    {
        MatchFinder { intervals: Vec::new(), pos_data: Vec::new(), open: Vec::new(), phi: Vec::new(), sa_lcp: Vec::new() }
    }

    fn reserve(&mut self, n: usize)
        ensures
            final(self).sized(n as nat),
            forall|k: int| 0 <= k < n ==> #[trigger] final(self).phi@[k] == 0,
    {
        self.intervals.clear();
        self.intervals.resize(n, 0);
        self.pos_data.clear();
        self.pos_data.resize(n, 0);
        self.phi.clear();
        self.phi.resize(n, 0);
        assert forall|k: int| 0 <= k < n implies #[trigger] self.phi@[k] == 0 by {
            assert(cloned::<i32>(0, self.phi@[k]));
        }
        self.sa_lcp.clear();
        self.sa_lcp.resize(n, 0);
        // Open-interval stack holds strictly increasing clamped LCP values plus a base entry.
        let cap = LCP_MAX as usize + 2;
        self.open.clear();
        self.open.resize(cap, 0);
    }

    /// Build the suffix array, LCP, and LCP-interval structures over `window`.
    fn build(&mut self, window: &[u8])
        requires
            1 <= window@.len() < i32::MAX,
        ensures
            final(self).sized(window@.len()),
    {
        let n = window.len();
        self.reserve(n);
        let sa = build_suffix_array(window);  // length n

        // Permuted-LCP: `plcp[i]` is the LCP of the suffix at text position `i` with its predecessor
        // in suffix-array order. `phi` doubles as `plcp` in place.
        self.phi.set(sa[0] as usize, -1);
        let mut r: usize = 1;
        while r < n
            invariant
                1 <= r <= n == window@.len() < i32::MAX,
                sa@.len() == n,
                forall|k: int| 0 <= k < n ==> 0 <= #[trigger] sa@[k] < n,
                self.sized(n as nat),
                forall|k: int| 0 <= k < n ==> -1 <= #[trigger] self.phi@[k] < n,
            decreases n - r,
        {
            self.phi.set(sa[r] as usize, sa[r - 1]);
            r = r + 1;
        }
        let mut cur_len: i32 = 0;
        let mut i: usize = 0;
        while i < n
            invariant
                i <= n == window@.len() < i32::MAX,
                0 <= cur_len <= n,
                self.sized(n as nat),
                forall|k: int| i <= k < n ==> -1 <= #[trigger] self.phi@[k] < n,
                forall|k: int| 0 <= k < i ==> 0 <= #[trigger] self.phi@[k] <= n,
            decreases n - i,
        {
            let p = self.phi[i];
            if p < 0 {
                self.phi.set(i, 0);
            } else {
                let p = p as usize;
                let max_len = (if i > p {
                    n - i
                } else {
                    n - p
                }) as i32;
                while cur_len < max_len && window[i + cur_len as usize] == window[p + cur_len as usize]
                    invariant
                        0 <= cur_len <= n,
                        i < n == window@.len() < i32::MAX,
                        p < n,
                        max_len <= n - i,
                        max_len <= n - p,
                    decreases max_len - cur_len,
                {
                    cur_len = cur_len + 1;
                }
                self.phi.set(i, cur_len);
                if cur_len > 0 {
                    cur_len = cur_len - 1;
                }
            }
            i = i + 1;
        }

        // Pack (position, clamped LCP) per suffix-array rank into the `sa_lcp` array.
        self.sa_lcp.set(0, sa[0] as u64);  // first rank has LCP 0
        let mut r: usize = 1;
        while r < n
            invariant
                1 <= r <= n == window@.len() < i32::MAX,
                sa@.len() == n,
                forall|k: int| 0 <= k < n ==> 0 <= #[trigger] sa@[k] < n,
                self.sized(n as nat),
            decreases n - r,
        {
            let idx = sa[r] as usize;
            let mut len = self.phi[idx];
            if len < MIN_MATCH_SIZE {
                len = 0;
            }
            if len > LCP_MAX {
                len = LCP_MAX;
            }
            self.sa_lcp.set(r, idx as u64 + (len as u64) * LCP_UNIT);
            r = r + 1;
        }
        self.build_intervals();
    }

    /// The interval table, position links and open-interval stack after building the intervals
    /// from rank `r` on of `sa_lcp` (of `n` ranks), with `top` the deepest open interval,
    /// `next_idx` the next interval number and `prev_pos` the position of rank `r - 1`.
    spec fn intervals_from(
        sa_lcp: Seq<u64>,
        intervals: Seq<u64>,
        pos_data: Seq<u64>,
        open: Seq<u64>,
        top: int,
        next_idx: u64,
        prev_pos: u64,
        r: int,
        n: int,
    ) -> (Seq<u64>, Seq<u64>, Seq<u64>)
        decreases n - r,
    {
        if r >= n || r < 0 {
            (close_all(intervals, open, top), set_at_spec(pos_data, prev_pos, open[top]), open)
        } else {
            let next_pos = sa_lcp[r] & POS_MASK;
            let next_lcp = sa_lcp[r] & LCP_MASK;
            let top_lcp = open[top] & LCP_MASK;
            if next_lcp == top_lcp {
                Self::intervals_from(
                    sa_lcp,
                    intervals,
                    set_at_spec(pos_data, prev_pos, open[top]),
                    open,
                    top,
                    next_idx,
                    next_pos,
                    r + 1,
                    n,
                )
            } else if next_lcp > top_lcp {
                let t = if top + 1 < open.len() { top + 1 } else { top };
                let open2 = open.update(t, next_lcp | next_idx);
                Self::intervals_from(
                    sa_lcp,
                    intervals,
                    set_at_spec(pos_data, prev_pos, open2[t]),
                    open2,
                    t,
                    (next_idx + 1) as u64,
                    next_pos,
                    r + 1,
                    n,
                )
            } else {
                let c = close_until(intervals, open, top, next_lcp, next_idx);
                Self::intervals_from(
                    sa_lcp,
                    c.0,
                    set_at_spec(pos_data, prev_pos, open[top]),
                    c.1,
                    c.2,
                    if c.3 { (next_idx + 1) as u64 } else { next_idx },
                    next_pos,
                    r + 1,
                    n,
                )
            }
        }
    }

    /// Sets `v[idx]` to `x` when `idx` indexes `v`.
    fn set_at(v: &mut Vec<u64>, idx: u64, x: u64)
        ensures
            final(v)@.len() == old(v)@.len(),
            final(v)@ == if idx < old(v)@.len() { old(v)@.update(idx as int, x) } else { old(v)@ },
    {
        if idx < v.len() as u64 {
            v.set(idx as usize, x);
        }
    }

    /// `v[idx]`, or 0 when `idx` does not index `v`.
    fn get_at(v: &Vec<u64>, idx: u64) -> (r: u64)
        ensures
            r == if idx < v@.len() { v@[idx as int] } else { 0u64 },
    {
        if idx < v.len() as u64 {
            v[idx as usize]
        } else {
            0
        }
    }

    /// Build LCP intervals from the (position, LCP) array.
    fn build_intervals(&mut self)
        requires
            old(self).sized(old(self).sa_lcp@.len()),
            1 <= old(self).sa_lcp@.len() < i32::MAX,
        ensures
            final(self).sized(old(self).sa_lcp@.len()),
            final(self).sa_lcp == old(self).sa_lcp,
            (final(self).intervals@, final(self).pos_data@, final(self).open@) == Self::intervals_from(
                old(self).sa_lcp@,
                old(self).intervals@.update(0, 0),
                old(self).pos_data@,
                old(self).open@.update(0, 0),
                0,
                1,
                old(self).sa_lcp@[0] & POS_MASK,
                1,
                old(self).sa_lcp@.len() as int,
            ),
    {
        let n = self.sa_lcp.len();
        let mut top: usize = 0;
        self.open.set(0, 0);
        self.intervals.set(0, 0);
        let mut next_interval_idx: u64 = 1;
        let mut prev_pos = self.sa_lcp[0] & POS_MASK;
        let ghost target = Self::intervals_from(
            self.sa_lcp@,
            self.intervals@,
            self.pos_data@,
            self.open@,
            0,
            1,
            prev_pos,
            1,
            n as int,
        );
        let mut r: usize = 1;
        while r < n
            invariant
                Self::intervals_from(
                    self.sa_lcp@,
                    self.intervals@,
                    self.pos_data@,
                    self.open@,
                    top as int,
                    next_interval_idx,
                    prev_pos,
                    r as int,
                    n as int,
                ) == target,
                1 <= r <= n == self.sa_lcp@.len() < i32::MAX,
                self.sized(n as nat),
                self.sa_lcp == old(self).sa_lcp,
                top < self.open@.len(),
                next_interval_idx <= r,
            decreases n - r,
        {
            let ghost iv0 = self.intervals@;
            let ghost pd0 = self.pos_data@;
            let ghost op0 = self.open@;
            let ghost top_0 = top as int;
            let ghost ni0 = next_interval_idx;
            let ghost pp0 = prev_pos;
            let next_pos = self.sa_lcp[r] & POS_MASK;
            let next_lcp = self.sa_lcp[r] & LCP_MASK;
            let top_lcp = self.open[top] & LCP_MASK;
            if next_lcp == top_lcp {
                // Continuing the deepest open interval.
                Self::set_at(&mut self.pos_data, prev_pos, self.open[top]);
                assert(Self::intervals_from(self.sa_lcp@, iv0, pd0, op0, top_0, ni0, pp0, r as int, n as int) == Self::intervals_from(
                    self.sa_lcp@,
                    self.intervals@,
                    self.pos_data@,
                    self.open@,
                    top as int,
                    next_interval_idx,
                    next_pos,
                    r + 1,
                    n as int,
                ));
            } else if next_lcp > top_lcp {
                // Opening a new interval.
                if top + 1 < self.open.len() {
                    top = top + 1;
                }
                self.open.set(top, next_lcp | next_interval_idx);
                next_interval_idx = next_interval_idx + 1;
                Self::set_at(&mut self.pos_data, prev_pos, self.open[top]);
                assert(Self::intervals_from(self.sa_lcp@, iv0, pd0, op0, top_0, ni0, pp0, r as int, n as int) == Self::intervals_from(
                    self.sa_lcp@,
                    self.intervals@,
                    self.pos_data@,
                    self.open@,
                    top as int,
                    next_interval_idx,
                    next_pos,
                    r + 1,
                    n as int,
                ));
            } else {
                // Closing the deepest open interval (possibly several).
                Self::set_at(&mut self.pos_data, prev_pos, self.open[top]);
                let mut opened = false;
                let ghost ctarget = close_until(self.intervals@, self.open@, top as int, next_lcp, next_interval_idx);
                let ghost pd1 = self.pos_data@;
                while top > 0
                    invariant_except_break
                        !opened,
                        close_until(self.intervals@, self.open@, top as int, next_lcp, next_interval_idx) == ctarget,
                    invariant
                        self.pos_data@ == pd1,
                        top < self.open@.len(),
                        self.sized(n as nat),
                        self.sa_lcp == old(self).sa_lcp,
                        next_interval_idx <= r,
                    ensures
                        (self.intervals@, self.open@, top as int, opened) == ctarget,
                    decreases top,
                {
                    let closed_interval_idx = self.open[top] & POS_MASK;
                    top = top - 1;
                    let superinterval_lcp = self.open[top] & LCP_MASK;
                    if next_lcp == superinterval_lcp {
                        Self::set_at(&mut self.intervals, closed_interval_idx, self.open[top]);
                        break;
                    } else if next_lcp > superinterval_lcp {
                        top = top + 1;
                        self.open.set(top, next_lcp | next_interval_idx);
                        opened = true;
                        Self::set_at(&mut self.intervals, closed_interval_idx, self.open[top]);
                        break;
                    } else {
                        Self::set_at(&mut self.intervals, closed_interval_idx, self.open[top]);
                    }
                }
                if opened {
                    next_interval_idx = next_interval_idx + 1;
                }
                assert(Self::intervals_from(self.sa_lcp@, iv0, pd0, op0, top_0, ni0, pp0, r as int, n as int) == Self::intervals_from(
                    self.sa_lcp@,
                    self.intervals@,
                    self.pos_data@,
                    self.open@,
                    top as int,
                    next_interval_idx,
                    next_pos,
                    r + 1,
                    n as int,
                ));
            }
            prev_pos = next_pos;
            r = r + 1;
            assert(Self::intervals_from(self.sa_lcp@, iv0, pd0, op0, top_0, ni0, pp0, r - 1, n as int) == Self::intervals_from(
                self.sa_lcp@,
                self.intervals@,
                self.pos_data@,
                self.open@,
                top as int,
                next_interval_idx,
                prev_pos,
                r as int,
                n as int,
            ));
        }
        // Close any still-open intervals.
        Self::set_at(&mut self.pos_data, prev_pos, self.open[top]);
        let ghost ftarget = close_all(self.intervals@, self.open@, top as int);
        let ghost pdf = self.pos_data@;
        let ghost opf = self.open@;
        assert((ftarget, pdf, opf) == target);
        while top > 0
            invariant
                self.pos_data@ == pdf,
                self.open@ == opf,
                close_all(self.intervals@, self.open@, top as int) == ftarget,
                top < self.open@.len(),
                self.sized(n as nat),
                self.sa_lcp == old(self).sa_lcp,
            decreases top,
        {
            Self::set_at(&mut self.intervals, self.open[top] & POS_MASK, self.open[top - 1]);
            top = top - 1;
        }
        assert(self.intervals@ == ftarget);
    }

    /// Find the longest match at `n_offset`, reporting it when `want` is set; returns how many
    /// were reported (0 or 1) and the match. Always runs the full interval traversal (its lazy
    /// updates are needed for later positions).
    ///
    /// The links form a tree whose walks end at its root; the step counters only bound them.
    fn find_matches_at(&mut self, n_offset: usize, want: bool) -> (r: (usize, Match))
        requires
            old(self).sized(old(self).pos_data@.len()),
            n_offset < old(self).pos_data@.len(),
        ensures
            final(self).sized(old(self).pos_data@.len()),
            r.0 <= 1,
            r.0 == 1 ==> want && 1 <= r.1.offset <= n_offset && r.1.offset <= MAX_DISTANCE,
            (final(self).intervals@, final(self).pos_data@, r.0 as int, r.1) == matches_at(
                old(self).intervals@,
                old(self).pos_data@,
                n_offset as u64,
                want,
            ),
    {
        let n = self.pos_data.len();
        let ghost target = matches_at(self.intervals@, self.pos_data@, n_offset as u64, want);
        let mut r = self.pos_data[n_offset];
        self.pos_data.set(n_offset, 0);
        let ghost asc = ascend(self.intervals@, r, u64::MAX, n_offset as u64);
        let ghost pd1 = self.pos_data@;

        // Ascend to a visited interval / the root, linking unvisited intervals to this suffix.
        let mut super_ref: u64;
        let mut steps: u64 = u64::MAX;
        loop
            invariant
                self.sized(n as nat),
                n_offset < n,
                self.pos_data@ == pd1,
                ascend(self.intervals@, r, steps, n_offset as u64) == asc,
            ensures
                (self.intervals@, r, super_ref) == asc,
            decreases steps,
        {
            super_ref = Self::get_at(&self.intervals, r & POS_MASK);
            if super_ref & LCP_MASK == 0 || steps == 0 {
                break;
            }
            Self::set_at(&mut self.intervals, r & POS_MASK, n_offset as u64 | VISITED_FLAG);
            r = super_ref;
            steps = steps - 1;
        }

        if super_ref == 0 {
            if r != 0 {
                Self::set_at(&mut self.intervals, r & POS_MASK, n_offset as u64 | VISITED_FLAG);
            }
            return (0, Match { length: 0, offset: 0 });
        }

        let mut match_pos = super_ref & EXCL_VISITED_MASK;
        let mut count: usize = 0;
        let mut found = Match { length: 0, offset: 0 };
        let mut outer: u64 = u64::MAX;
        loop
            invariant_except_break
                walk_intervals(self.intervals@, self.pos_data@, n_offset as u64, want, r, match_pos, count as int, found, outer)
                    == target,
            invariant
                self.sized(n as nat),
                n_offset < n,
                count <= 1,
                count == 1 ==> want && 1 <= found.offset <= n_offset && found.offset <= MAX_DISTANCE,
            ensures
                (self.intervals@, self.pos_data@, count as int, found) == target,
            decreases outer,
        {
            let ghost dsc = descend(self.pos_data@, self.intervals@, match_pos, r, u64::MAX);
            let ghost iv0 = self.intervals@;
            let ghost pd0 = self.pos_data@;
            let mut inner: u64 = u64::MAX;
            loop
                invariant
                    self.sized(n as nat),
                    self.intervals@ == iv0,
                    self.pos_data@ == pd0,
                    descend(self.pos_data@, self.intervals@, match_pos, r, inner) == dsc,
                ensures
                    (match_pos, super_ref) == dsc,
                decreases inner,
            {
                super_ref = Self::get_at(&self.pos_data, match_pos);
                if super_ref > r && inner > 0 {
                    match_pos = Self::get_at(&self.intervals, super_ref & POS_MASK) & EXCL_VISITED_MASK;
                    inner = inner - 1;
                } else {
                    break;
                }
            }
            Self::set_at(&mut self.intervals, r & POS_MASK, n_offset as u64 | VISITED_FLAG);
            Self::set_at(&mut self.pos_data, match_pos, r);

            if want && count < 1 && match_pos < n_offset as u64 {
                let offset = n_offset - match_pos as usize;
                if offset <= MAX_DISTANCE {
                    found = Match { length: (r >> 32u64) as i32, offset: offset as u32 };
                    count = count + 1;
                }
            }
            if super_ref == 0 || outer == 0 {
                break;
            }
            r = super_ref;
            match_pos = Self::get_at(&self.intervals, r & POS_MASK) & EXCL_VISITED_MASK;
            outer = outer - 1;
        }
        (count, found)
    }

    /// Find the longest match at every position in `window[prefix_len..]`, writing results into
    /// `matches[prefix_len..]`. Positions in `window[..prefix_len]` are treated as already-compressed
    /// lookback (their intervals are still traversed so the lazy updates stay consistent).
    pub fn find_all_matches(&mut self, window: &[u8], prefix_len: usize, matches: &mut Vec<Match>)
        requires
            1 <= window@.len() < i32::MAX,
            prefix_len <= window@.len(),
            old(matches)@.len() == window@.len(),
        ensures
            final(matches)@.len() == window@.len(),
            forall|i: int| prefix_len <= i < window@.len() ==> #[trigger] match_in_window(final(matches)@[i], i, window@.len() as int),
    {
        let n = window.len();
        self.build(window);

        // Skip the prefix: scan for side effects only, discard the matches.
        let mut i: usize = 0;
        while i < prefix_len
            invariant
                i <= prefix_len <= n == window@.len(),
                self.sized(n as nat),
            decreases prefix_len - i,
        {
            let _ = self.find_matches_at(i, false);
            i = i + 1;
        }
        let mut i: usize = prefix_len;
        while i < n
            invariant
                prefix_len <= i <= n == window@.len() < i32::MAX,
                self.sized(n as nat),
                matches@.len() == n,
                forall|k: int| prefix_len <= k < i ==> #[trigger] match_in_window(matches@[k], k, n as int),
            decreases n - i,
        {
            let (num, m) = self.find_matches_at(i, true);
            if num == 0 || i + MFLIMIT > n {
                matches.set(i, Match { length: 0, offset: 0 });
            } else {
                let max_len = (n - LAST_LITERALS - i) as i32;
                let length = if m.length > max_len {
                    max_len
                } else {
                    m.length
                };
                matches.set(i, Match { length, offset: m.offset });
            }
            i = i + 1;
        }
    }
}

} // verus!
