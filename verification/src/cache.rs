//! The incremental score cache.
//!
//! The cache keeps, for the current layout, every per-position effort term,
//! every per-column usage and finger-speed value, the scissor total and the
//! trigram reward, together with their sums. A candidate swap is then scored
//! by recomputing only the entries the swap can touch; `accept_swap` commits
//! the same computation. The invariant `cache_ok` ties every cached value to
//! its specification on the current layout, so the cached total provably
//! equals a full recomputation at all times.

use vstd::prelude::*;

use crate::fixed::TRIGRAM_CAP;
use crate::generate::LayoutGeneration;
use crate::generate::spec_scissor_list;
use crate::geometry::PosPair;
use crate::geometry::spec_col_of;
use crate::layout::FastLayout;
use crate::scorer::COL_FSPEED_CAP;
use crate::scorer::COL_USAGE_CAP;
use crate::scorer::EFFORT_TERM_CAP;
use crate::scorer::SCISSOR_CAP;
use crate::scorer::SCORE_CAP;
use crate::scorer::TRI_TOTAL_CAP;
use crate::scorer::lemma_col_fspeed_bound;
use crate::scorer::lemma_col_usage_bound;
use crate::scorer::lemma_effort_at_bound;
use crate::scorer::lemma_effort_sum_bound;
use crate::scorer::lemma_scissors_bound;
use crate::scorer::lemma_trigram_total_bound;
use crate::scorer::spec_col_fspeed;
use crate::scorer::spec_col_usage;
use crate::scorer::spec_effort_at;
use crate::scorer::spec_effort_sum;
use crate::scorer::spec_fspeed_slice;
use crate::scorer::spec_fspeed_term;
use crate::scorer::spec_pair_both;
use crate::scorer::spec_scissor_slice;
use crate::scorer::spec_scissors;
use crate::scorer::spec_score;
use crate::scorer::spec_tri_char_sum;
use crate::scorer::spec_trigram_total;
use crate::scorer::spec_usage_fspeed;
use crate::tri_sums::lemma_either_sym;
use crate::tri_sums::lemma_tri_delta;

verus! {

/// Per-aspect partial aggregates of the current layout's score.
pub struct LayoutCache {
    pub effort: Vec<i128>,
    pub effort_total: i128,
    pub scissors: i128,
    pub usage: Vec<i128>,
    pub usage_total: i128,
    pub fspeed: Vec<i128>,
    pub fspeed_total: i128,
    pub trigrams_total: i128,
}

/// Usage of the first `c` columns.
pub open spec fn spec_usage_sum(g: LayoutGeneration, m: Seq<u8>, c: int) -> int
    decreases c,
{
    if c <= 0 {
        0
    } else {
        spec_usage_sum(g, m, c - 1) + spec_col_usage(g, m, c - 1)
    }
}

/// Finger speed of the first `c` columns.
pub open spec fn spec_fspeed_sum(g: LayoutGeneration, m: Seq<u8>, c: int) -> int
    decreases c,
{
    if c <= 0 {
        0
    } else {
        spec_fspeed_sum(g, m, c - 1) + spec_col_fspeed(g, m, c - 1)
    }
}

/// The combined column sum splits into its two aspects.
pub proof fn lemma_usage_fspeed_split(g: LayoutGeneration, m: Seq<u8>, c: int)
    ensures
        spec_usage_fspeed(g, m, c) == spec_usage_sum(g, m, c) + spec_fspeed_sum(g, m, c),
    decreases c,
{
    if c > 0 {
        lemma_usage_fspeed_split(g, m, c - 1);
    }
}

/// Whether one scissor pair touches either position of a swap.
pub open spec fn spec_touches(q: PosPair, p: PosPair) -> bool {
    q.0 == p.0 || q.0 == p.1 || q.1 == p.0 || q.1 == p.1
}

/// Whether a swap touches any scissor pair.
pub open spec fn spec_affects_scissor(p: PosPair) -> bool {
    exists|k: int| 0 <= k < 15 && #[trigger] spec_touches(spec_scissor_list()[k], p)
}

/// The cache agrees with the layout, entry by entry and total by total.
pub open spec fn cache_ok(g: LayoutGeneration, l: FastLayout, c: LayoutCache) -> bool {
    &&& c.effort@.len() == 30
    &&& forall|i: int|
        0 <= i < 30 ==> (#[trigger] c.effort@[i]) == spec_effort_at(g, l.matrix@, i)
    &&& c.effort_total == spec_effort_sum(g, l.matrix@, 30)
    &&& c.usage@.len() == 8
    &&& forall|i: int| 0 <= i < 8 ==> (#[trigger] c.usage@[i]) == spec_col_usage(g, l.matrix@, i)
    &&& c.usage_total == spec_usage_sum(g, l.matrix@, 8)
    &&& c.fspeed@.len() == 8
    &&& forall|i: int|
        0 <= i < 8 ==> (#[trigger] c.fspeed@[i]) == spec_col_fspeed(g, l.matrix@, i)
    &&& c.fspeed_total == spec_fspeed_sum(g, l.matrix@, 8)
    &&& c.scissors == spec_scissors(g, l.matrix@)
    &&& c.trigrams_total == spec_trigram_total(g, l.pos_of@)
}

impl LayoutCache {
    /// The cached total: trigram reward minus every penalty. Equals the
    /// layout's full score whenever the cache agrees with the layout.
    pub fn total_score(&self) -> (r: i128)
        requires
            -SCORE_CAP <= self.trigrams_total <= SCORE_CAP,
            -SCORE_CAP <= self.scissors <= SCORE_CAP,
            -SCORE_CAP <= self.effort_total <= SCORE_CAP,
            -SCORE_CAP <= self.usage_total <= SCORE_CAP,
            -SCORE_CAP <= self.fspeed_total <= SCORE_CAP,
        ensures
            r == self.trigrams_total - self.scissors - self.effort_total - self.usage_total
                - self.fspeed_total,
    {
        self.trigrams_total - self.scissors - self.effort_total - self.usage_total
            - self.fspeed_total
    }
}

/// A consistent cache's total is the layout's score, and each aggregate is
/// bounded.
pub proof fn lemma_cache_total(g: LayoutGeneration, l: FastLayout, c: LayoutCache)
    requires
        g.wf(),
        l.wf(),
        cache_ok(g, l, c),
    ensures
        c.trigrams_total - c.scissors - c.effort_total - c.usage_total - c.fspeed_total
            == spec_score(g, l.matrix@, l.pos_of@),
        -TRI_TOTAL_CAP <= c.trigrams_total <= TRI_TOTAL_CAP,
        0 <= c.scissors <= SCISSOR_CAP,
        0 <= c.effort_total <= 30 * EFFORT_TERM_CAP,
        0 <= c.usage_total <= 8 * COL_USAGE_CAP,
        0 <= c.fspeed_total <= 8 * COL_FSPEED_CAP,
{
    lemma_usage_fspeed_split(g, l.matrix@, 8);
    lemma_trigram_total_bound(g, l.pos_of@);
    lemma_scissors_bound(g, l.matrix@);
    lemma_effort_sum_bound(g, l.matrix@, 30);
    lemma_usage_sum_bound(g, l.matrix@, 8);
    lemma_fspeed_sum_bound(g, l.matrix@, 8);
}

/// Usage sums are bounded.
pub proof fn lemma_usage_sum_bound(g: LayoutGeneration, m: Seq<u8>, c: int)
    requires
        g.wf(),
        crate::scorer::matrix_ok(m),
        0 <= c <= 8,
    ensures
        0 <= spec_usage_sum(g, m, c) <= c * COL_USAGE_CAP,
    decreases c,
{
    if c > 0 {
        lemma_usage_sum_bound(g, m, c - 1);
        lemma_col_usage_bound(g, m, c - 1);
    }
}

/// Finger-speed sums are bounded.
pub proof fn lemma_fspeed_sum_bound(g: LayoutGeneration, m: Seq<u8>, c: int)
    requires
        g.wf(),
        crate::scorer::matrix_ok(m),
        0 <= c <= 8,
    ensures
        0 <= spec_fspeed_sum(g, m, c) <= c * COL_FSPEED_CAP,
    decreases c,
{
    if c > 0 {
        lemma_fspeed_sum_bound(g, m, c - 1);
        lemma_col_fspeed_bound(g, m, c - 1);
    }
}

/// An effort sum changes only through the two swapped positions.
pub proof fn lemma_effort_sum_two(
    g: LayoutGeneration,
    m1: Seq<u8>,
    m2: Seq<u8>,
    i: int,
    j: int,
    n: int,
)
    requires
        0 <= i < 30,
        0 <= j < 30,
        i != j,
        m1.len() == 30,
        m2.len() == 30,
        forall|k: int| 0 <= k < 30 && k != i && k != j ==> m1[k] == m2[k],
        0 <= n <= 30,
    ensures
        spec_effort_sum(g, m2, n) == spec_effort_sum(g, m1, n) - (if i < n {
            spec_effort_at(g, m1, i) - spec_effort_at(g, m2, i)
        } else {
            0
        }) - (if j < n {
            spec_effort_at(g, m1, j) - spec_effort_at(g, m2, j)
        } else {
            0
        }),
    decreases n,
{
    if n > 0 {
        lemma_effort_sum_two(g, m1, m2, i, j, n - 1);
    }
}

/// Column usage and finger speed depend only on the keys of that column.
pub proof fn lemma_col_same(g: LayoutGeneration, m1: Seq<u8>, m2: Seq<u8>, c: int)
    requires
        g.wf(),
        m1.len() == 30,
        m2.len() == 30,
        0 <= c < 8,
        forall|p: int| 0 <= p < 30 && spec_col_of(p) == c ==> m1[p] == m2[p],
    ensures
        spec_col_usage(g, m1, c) == spec_col_usage(g, m2, c),
        spec_col_fspeed(g, m1, c) == spec_col_fspeed(g, m2, c),
{
    if c < 3 {
        assert(spec_col_of(c) == c && spec_col_of(c + 10) == c && spec_col_of(c + 20) == c);
    } else if c < 5 {
        let base = (c - 3) * 2 + 3;
        assert(spec_col_of(base) == c && spec_col_of(base + 1) == c && spec_col_of(base + 10) == c
            && spec_col_of(base + 11) == c && spec_col_of(base + 20) == c && spec_col_of(base + 21)
            == c);
    } else {
        assert(spec_col_of(c + 2) == c && spec_col_of(c + 12) == c && spec_col_of(c + 22) == c);
    }
    let (start, n) = crate::geometry::spec_col_to_start_len(c);
    lemma_slice_owner(c, start, n);
    lemma_fspeed_slice_same(g, m1, m2, c, start, n);
}

/// A finger-speed slice of one column depends only on that column's keys.
pub proof fn lemma_fspeed_slice_same(
    g: LayoutGeneration,
    m1: Seq<u8>,
    m2: Seq<u8>,
    c: int,
    start: int,
    n: int,
)
    requires
        g.wf(),
        m1.len() == 30,
        m2.len() == 30,
        0 <= c < 8,
        (start, n) == crate::geometry::spec_col_to_start_len(c),
        forall|p: int| 0 <= p < 30 && spec_col_of(p) == c ==> m1[p] == m2[p],
    ensures
        forall|m: int|
            0 <= m <= n ==> spec_fspeed_slice(g, m1, start, m) == #[trigger] spec_fspeed_slice(
                g,
                m2,
                start,
                m,
            ),
{
    lemma_slice_owner(c, start, n);
    assert forall|m: int|
        0 <= m <= n implies spec_fspeed_slice(g, m1, start, m) == #[trigger] spec_fspeed_slice(
        g,
        m2,
        start,
        m,
    ) by {
        lemma_fspeed_slice_same_rec(g, m1, m2, c, start, m);
    }
}

/// Induction for `lemma_fspeed_slice_same`.
proof fn lemma_fspeed_slice_same_rec(
    g: LayoutGeneration,
    m1: Seq<u8>,
    m2: Seq<u8>,
    c: int,
    start: int,
    m: int,
)
    requires
        g.wf(),
        m1.len() == 30,
        m2.len() == 30,
        0 <= c < 8,
        0 <= start,
        m <= 48,
        start + m <= 48,
        forall|k: int| start <= k < start + m ==> crate::generate::spec_col_owner(k) == c,
        forall|p: int| 0 <= p < 30 && spec_col_of(p) == c ==> m1[p] == m2[p],
    ensures
        spec_fspeed_slice(g, m1, start, m) == spec_fspeed_slice(g, m2, start, m),
    decreases m,
{
    if m > 0 {
        lemma_fspeed_slice_same_rec(g, m1, m2, c, start, m - 1);
        let k = start + m - 1;
        let (p, d) = g.fspeed_vals@[k];
        assert(crate::generate::spec_col_owner(k) == c);
        assert(spec_col_of(p.0 as int) == c && spec_col_of(p.1 as int) == c);
        assert(m1[p.0 as int] == m2[p.0 as int]);
        assert(m1[p.1 as int] == m2[p.1 as int]);
        assert(spec_fspeed_term(g, m1, k) == spec_fspeed_term(g, m2, k));
    }
}

/// Slot owners within a column's slice are that column.
pub proof fn lemma_slice_owner(c: int, start: int, n: int)
    requires
        0 <= c < 8,
        (start, n) == crate::geometry::spec_col_to_start_len(c),
    ensures
        forall|k: int| start <= k < start + n ==> crate::generate::spec_col_owner(k) == c,
        0 <= start,
        start + n <= 48,
{
}

/// A usage or finger-speed sum changes only through the given column.
pub proof fn lemma_col_sum_one(g: LayoutGeneration, m1: Seq<u8>, m2: Seq<u8>, c1: int, n: int)
    requires
        g.wf(),
        m1.len() == 30,
        m2.len() == 30,
        0 <= c1 < 8,
        forall|c: int|
            0 <= c < 8 && c != c1 ==> spec_col_usage(g, m1, c) == spec_col_usage(g, m2, c)
                && spec_col_fspeed(g, m1, c) == spec_col_fspeed(g, m2, c),
        0 <= n <= 8,
    ensures
        spec_usage_sum(g, m2, n) == spec_usage_sum(g, m1, n) - (if c1 < n {
            spec_col_usage(g, m1, c1) - spec_col_usage(g, m2, c1)
        } else {
            0
        }),
        spec_fspeed_sum(g, m2, n) == spec_fspeed_sum(g, m1, n) - (if c1 < n {
            spec_col_fspeed(g, m1, c1) - spec_col_fspeed(g, m2, c1)
        } else {
            0
        }),
    decreases n,
{
    if n > 0 {
        lemma_col_sum_one(g, m1, m2, c1, n - 1);
    }
}

/// A usage or finger-speed sum changes only through the two given columns.
pub proof fn lemma_col_sum_two(
    g: LayoutGeneration,
    m1: Seq<u8>,
    m2: Seq<u8>,
    c1: int,
    c2: int,
    n: int,
)
    requires
        g.wf(),
        m1.len() == 30,
        m2.len() == 30,
        0 <= c1 < 8,
        0 <= c2 < 8,
        c1 != c2,
        forall|c: int|
            0 <= c < 8 && c != c1 && c != c2 ==> spec_col_usage(g, m1, c) == spec_col_usage(
                g,
                m2,
                c,
            ) && spec_col_fspeed(g, m1, c) == spec_col_fspeed(g, m2, c),
        0 <= n <= 8,
    ensures
        spec_usage_sum(g, m2, n) == spec_usage_sum(g, m1, n) - (if c1 < n {
            spec_col_usage(g, m1, c1) - spec_col_usage(g, m2, c1)
        } else {
            0
        }) - (if c2 < n {
            spec_col_usage(g, m1, c2) - spec_col_usage(g, m2, c2)
        } else {
            0
        }),
        spec_fspeed_sum(g, m2, n) == spec_fspeed_sum(g, m1, n) - (if c1 < n {
            spec_col_fspeed(g, m1, c1) - spec_col_fspeed(g, m2, c1)
        } else {
            0
        }) - (if c2 < n {
            spec_col_fspeed(g, m1, c2) - spec_col_fspeed(g, m2, c2)
        } else {
            0
        }),
    decreases n,
{
    if n > 0 {
        lemma_col_sum_two(g, m1, m2, c1, c2, n - 1);
    }
}

/// The scissor total does not move under a swap that touches no scissor pair.
pub proof fn lemma_scissor_same(g: LayoutGeneration, m1: Seq<u8>, m2: Seq<u8>, p: PosPair, n: int)
    requires
        g.wf(),
        m1.len() == 30,
        m2.len() == 30,
        !spec_affects_scissor(p),
        forall|k: int| 0 <= k < 30 && k != p.0 as int && k != p.1 as int ==> m1[k] == m2[k],
        0 <= n <= 15,
    ensures
        spec_scissor_slice(g, m1, n) == spec_scissor_slice(g, m2, n),
    decreases n,
{
    if n > 0 {
        lemma_scissor_same(g, m1, m2, p, n - 1);
        let q = g.scissor_indices@[n - 1];
        assert(q == spec_scissor_list()[n - 1]);
        assert(!spec_touches(q, p));
        assert(m1[q.0 as int] == m2[q.0 as int]);
        assert(m1[q.1 as int] == m2[q.1 as int]);
    }
}

impl LayoutGeneration {
    /// Whether a swap touches any scissor pair.
    pub fn affects_scissor(&self, p: &PosPair) -> (r: bool)
        requires
            self.wf(),
        ensures
            r == spec_affects_scissor(*p),
    {
        let mut k: usize = 0;
        while k < 15
            invariant
                self.wf(),
                k <= 15,
                forall|m: int| 0 <= m < k ==> !spec_touches(#[trigger] spec_scissor_list()[m], *p),
            decreases 15 - k,
        {
            let q = self.scissor_indices[k];
            proof {
                assert(self.scissor_indices@[k as int] == spec_scissor_list()[k as int]);
            }
            if q.0 == p.0 || q.0 == p.1 || q.1 == p.0 || q.1 == p.1 {
                proof {
                    assert(spec_touches(spec_scissor_list()[k as int], *p));
                }
                return true;
            }
            k += 1;
        }
        false
    }

    /// Build a fresh cache for a layout by full recomputation.
    pub fn initialize_cache(&self, l: &FastLayout) -> (c: LayoutCache)
        requires
            self.wf(),
            l.wf(),
        ensures
            cache_ok(*self, *l, c),
    {
        let mut effort: Vec<i128> = Vec::new();
        let mut effort_total: i128 = 0;
        let mut i: usize = 0;
        while i < 30
            invariant
                self.wf(),
                l.wf(),
                i <= 30,
                effort@.len() == i,
                forall|k: int| 0 <= k < i ==> (#[trigger] effort@[k]) == spec_effort_at(
                    *self,
                    l.matrix@,
                    k,
                ),
                effort_total == spec_effort_sum(*self, l.matrix@, i as int),
                0 <= effort_total <= (i as int) * EFFORT_TERM_CAP,
            decreases 30 - i,
        {
            let t = self.char_effort(l, i);
            proof {
                assert((i as int) * EFFORT_TERM_CAP + EFFORT_TERM_CAP == ((i + 1) as int)
                    * EFFORT_TERM_CAP) by (nonlinear_arith);
                assert(((i + 1) as int) * EFFORT_TERM_CAP <= 30 * EFFORT_TERM_CAP)
                    by (nonlinear_arith)
                    requires
                        0 <= i,
                        i + 1 <= 30,
                ;
            }
            effort.push(t);
            effort_total = effort_total + t;
            i += 1;
        }
        let mut usage: Vec<i128> = Vec::new();
        let mut usage_total: i128 = 0;
        let mut fspeed: Vec<i128> = Vec::new();
        let mut fspeed_total: i128 = 0;
        let mut col: usize = 0;
        while col < 8
            invariant
                self.wf(),
                l.wf(),
                col <= 8,
                usage@.len() == col,
                forall|k: int| 0 <= k < col ==> (#[trigger] usage@[k]) == spec_col_usage(
                    *self,
                    l.matrix@,
                    k,
                ),
                usage_total == spec_usage_sum(*self, l.matrix@, col as int),
                0 <= usage_total <= (col as int) * COL_USAGE_CAP,
                fspeed@.len() == col,
                forall|k: int| 0 <= k < col ==> (#[trigger] fspeed@[k]) == spec_col_fspeed(
                    *self,
                    l.matrix@,
                    k,
                ),
                fspeed_total == spec_fspeed_sum(*self, l.matrix@, col as int),
                0 <= fspeed_total <= (col as int) * COL_FSPEED_CAP,
            decreases 8 - col,
        {
            let u = self.col_usage(l, col);
            let f = self.col_fspeed(l, col);
            proof {
                assert((col as int) * COL_USAGE_CAP + COL_USAGE_CAP == ((col + 1) as int)
                    * COL_USAGE_CAP) by (nonlinear_arith);
                assert(((col + 1) as int) * COL_USAGE_CAP <= 8 * COL_USAGE_CAP)
                    by (nonlinear_arith)
                    requires
                        0 <= col,
                        col + 1 <= 8,
                ;
                assert((col as int) * COL_FSPEED_CAP + COL_FSPEED_CAP == ((col + 1) as int)
                    * COL_FSPEED_CAP) by (nonlinear_arith);
                assert(((col + 1) as int) * COL_FSPEED_CAP <= 8 * COL_FSPEED_CAP)
                    by (nonlinear_arith)
                    requires
                        0 <= col,
                        col + 1 <= 8,
                ;
            }
            usage.push(u);
            usage_total = usage_total + u;
            fspeed.push(f);
            fspeed_total = fspeed_total + f;
            col += 1;
        }
        let scissors = self.scissor_score(l);
        let trigrams_total = self.trigram_score_iter(l, &self.data.trigrams);
        LayoutCache {
            effort,
            effort_total,
            scissors,
            usage,
            usage_total,
            fspeed,
            fspeed_total,
            trigrams_total,
        }
    }

    /// Commit a swap: exchange the two keys and update exactly the cache
    /// entries the swap touches. The cache again agrees with the layout.
    pub fn accept_swap(&self, l: &mut FastLayout, swap: &PosPair, cache: &mut LayoutCache)
        requires
            self.wf(),
            old(l).wf(),
            cache_ok(*self, *old(l), *old(cache)),
            swap.0 < 30,
            swap.1 < 30,
            swap.0 != swap.1,
        ensures
            final(l).wf(),
            final(l).matrix@ == old(l).matrix@.update(
                swap.0 as int,
                old(l).matrix@[swap.1 as int],
            ).update(swap.1 as int, old(l).matrix@[swap.0 as int]),
            final(l).pos_of@ == old(l).pos_of@.update(
                old(l).matrix@[swap.0 as int] as int,
                swap.1 as u8,
            ).update(old(l).matrix@[swap.1 as int] as int, swap.0 as u8),
            final(l).matrix@.to_multiset() == old(l).matrix@.to_multiset(),
            final(l).score == old(l).score,
            cache_ok(*self, *final(l), *final(cache)),
    {
        let i1 = swap.0;
        let i2 = swap.1;
        let ghost m1 = l.matrix@;
        let ghost p1 = l.pos_of@;
        let ghost a = l.matrix@[i1 as int];
        let ghost b = l.matrix@[i2 as int];
        proof {
            assert(p1[m1[i1 as int] as int] == i1 as u8);
            assert(p1[m1[i2 as int] as int] == i2 as u8);
            assert(a != b);
        }
        let trigrams_start = self.trigram_char_score(l, swap);
        l.swap_pair(swap);
        let ghost m2 = l.matrix@;
        let ghost p2 = l.pos_of@;
        let col1 = crate::geometry::col_of(i1);
        let col2 = crate::geometry::col_of(i2);
        proof {
            assert forall|c: int|
                0 <= c < 8 && c != col1 as int && c != col2 as int implies spec_col_usage(
                *self,
                m1,
                c,
            ) == spec_col_usage(*self, m2, c) && spec_col_fspeed(*self, m1, c) == spec_col_fspeed(
                *self,
                m2,
                c,
            ) by {
                lemma_col_same(*self, m1, m2, c);
            }
        }
        if col1 == col2 {
            let f = self.col_fspeed(l, col1);
            let u = self.col_usage(l, col1);
            proof {
                lemma_col_sum_one(*self, m1, m2, col1 as int, 8);
                lemma_fspeed_sum_bound(*self, m1, 8);
                lemma_usage_sum_bound(*self, m1, 8);
                lemma_col_fspeed_bound(*self, m1, col1 as int);
                lemma_col_usage_bound(*self, m1, col1 as int);
            }
            let old_f = cache.fspeed[col1];
            cache.fspeed_total = cache.fspeed_total - old_f + f;
            cache.fspeed.set(col1, f);
            let old_u = cache.usage[col1];
            cache.usage_total = cache.usage_total - old_u + u;
            cache.usage.set(col1, u);
        } else {
            let f1 = self.col_fspeed(l, col1);
            let f2 = self.col_fspeed(l, col2);
            let u1 = self.col_usage(l, col1);
            let u2 = self.col_usage(l, col2);
            proof {
                lemma_col_sum_two(*self, m1, m2, col1 as int, col2 as int, 8);
                lemma_fspeed_sum_bound(*self, m1, 8);
                lemma_usage_sum_bound(*self, m1, 8);
                lemma_col_fspeed_bound(*self, m1, col1 as int);
                lemma_col_fspeed_bound(*self, m1, col2 as int);
                lemma_col_usage_bound(*self, m1, col1 as int);
                lemma_col_usage_bound(*self, m1, col2 as int);
            }
            let old_f1 = cache.fspeed[col1];
            let old_f2 = cache.fspeed[col2];
            cache.fspeed_total = cache.fspeed_total - old_f1 - old_f2 + f1 + f2;
            cache.fspeed.set(col1, f1);
            cache.fspeed.set(col2, f2);
            let old_u1 = cache.usage[col1];
            let old_u2 = cache.usage[col2];
            cache.usage_total = cache.usage_total - old_u1 - old_u2 + u1 + u2;
            cache.usage.set(col1, u1);
            cache.usage.set(col2, u2);
        }
        let e1 = self.char_effort(l, i1);
        let e2 = self.char_effort(l, i2);
        proof {
            lemma_effort_sum_two(*self, m1, m2, i1 as int, i2 as int, 30);
            lemma_effort_sum_bound(*self, m1, 30);
            lemma_effort_at_bound(*self, m1, i1 as int);
            lemma_effort_at_bound(*self, m1, i2 as int);
        }
        let oe1 = cache.effort[i1];
        let oe2 = cache.effort[i2];
        cache.effort_total = cache.effort_total - oe1 - oe2 + e1 + e2;
        cache.effort.set(i1, e1);
        cache.effort.set(i2, e2);
        let trigrams_end = self.trigram_char_score(l, swap);
        proof {
            assert(m2[i1 as int] == b && m2[i2 as int] == a);
            lemma_either_sym(self.data.trigrams@, b, a);
            lemma_tri_delta(*self, p1, p2, a, b);
            lemma_trigram_total_bound(*self, p1);
            lemma_trigram_total_bound(*self, p2);
        }
        cache.trigrams_total = cache.trigrams_total - trigrams_start + trigrams_end;
        if self.affects_scissor(swap) {
            cache.scissors = self.scissor_score(l);
        } else {
            proof {
                lemma_scissor_same(*self, m1, m2, *swap, 15);
            }
        }
        proof {
            assert forall|k: int| 0 <= k < 30 implies (#[trigger] cache.effort@[k])
                == spec_effort_at(*self, m2, k) by {
                if k != i1 as int && k != i2 as int {
                    assert(cache.effort@[k] == old(cache).effort@[k]);
                    assert(m1[k] == m2[k]);
                }
            }
            assert forall|c: int| 0 <= c < 8 implies (#[trigger] cache.usage@[c]) == spec_col_usage(
                *self,
                m2,
                c,
            ) by {
                if c != col1 as int && c != col2 as int {
                    assert(cache.usage@[c] == old(cache).usage@[c]);
                }
            }
            assert forall|c: int| 0 <= c < 8 implies (#[trigger] cache.fspeed@[c])
                == spec_col_fspeed(*self, m2, c) by {
                if c != col1 as int && c != col2 as int {
                    assert(cache.fspeed@[c] == old(cache).fspeed@[c]);
                }
            }
        }
    }

    /// Score a candidate swap against the cache without committing anything:
    /// the layout comes back unchanged, and the result is the score the
    /// layout would have after the swap.
    pub fn score_swap_cached(&self, l: &mut FastLayout, swap: &PosPair, cache: &LayoutCache) -> (r:
        i128)
        requires
            self.wf(),
            old(l).wf(),
            cache_ok(*self, *old(l), *cache),
            swap.0 < 30,
            swap.1 < 30,
            swap.0 != swap.1,
        ensures
            final(l).wf(),
            final(l).matrix@ == old(l).matrix@,
            final(l).pos_of@ == old(l).pos_of@,
            final(l).score == old(l).score,
            r == spec_score(
                *self,
                old(l).matrix@.update(swap.0 as int, old(l).matrix@[swap.1 as int]).update(
                    swap.1 as int,
                    old(l).matrix@[swap.0 as int],
                ),
                old(l).pos_of@.update(old(l).matrix@[swap.0 as int] as int, swap.1 as u8).update(
                    old(l).matrix@[swap.1 as int] as int,
                    swap.0 as u8,
                ),
            ),
            -SCORE_CAP <= r <= SCORE_CAP,
    {
        let i1 = swap.0;
        let i2 = swap.1;
        let ghost m1 = l.matrix@;
        let ghost p1 = l.pos_of@;
        let ghost a = l.matrix@[i1 as int];
        let ghost b = l.matrix@[i2 as int];
        proof {
            assert(p1[m1[i1 as int] as int] == i1 as u8);
            assert(p1[m1[i2 as int] as int] == i2 as u8);
            assert(a != b);
        }
        let trigrams_start = self.trigram_char_score(l, swap);
        l.swap_pair(swap);
        let ghost m2 = l.matrix@;
        let ghost p2 = l.pos_of@;
        let col1 = crate::geometry::col_of(i1);
        let col2 = crate::geometry::col_of(i2);
        proof {
            assert forall|c: int|
                0 <= c < 8 && c != col1 as int && c != col2 as int implies spec_col_usage(
                *self,
                m1,
                c,
            ) == spec_col_usage(*self, m2, c) && spec_col_fspeed(*self, m1, c) == spec_col_fspeed(
                *self,
                m2,
                c,
            ) by {
                lemma_col_same(*self, m1, m2, c);
            }
        }
        let fspeed_score: i128;
        let usage_score: i128;
        if col1 == col2 {
            let f = self.col_fspeed(l, col1);
            let u = self.col_usage(l, col1);
            proof {
                lemma_col_sum_one(*self, m1, m2, col1 as int, 8);
                lemma_fspeed_sum_bound(*self, m1, 8);
                lemma_usage_sum_bound(*self, m1, 8);
                lemma_col_fspeed_bound(*self, m1, col1 as int);
                lemma_col_usage_bound(*self, m1, col1 as int);
            }
            fspeed_score = cache.fspeed_total - cache.fspeed[col1] + f;
            usage_score = cache.usage_total - cache.usage[col1] + u;
        } else {
            let f1 = self.col_fspeed(l, col1);
            let f2 = self.col_fspeed(l, col2);
            let u1 = self.col_usage(l, col1);
            let u2 = self.col_usage(l, col2);
            proof {
                lemma_col_sum_two(*self, m1, m2, col1 as int, col2 as int, 8);
                lemma_fspeed_sum_bound(*self, m1, 8);
                lemma_usage_sum_bound(*self, m1, 8);
                lemma_col_fspeed_bound(*self, m1, col1 as int);
                lemma_col_fspeed_bound(*self, m1, col2 as int);
                lemma_col_usage_bound(*self, m1, col1 as int);
                lemma_col_usage_bound(*self, m1, col2 as int);
            }
            fspeed_score = cache.fspeed_total - cache.fspeed[col1] - cache.fspeed[col2] + f1 + f2;
            usage_score = cache.usage_total - cache.usage[col1] - cache.usage[col2] + u1 + u2;
        }
        let e1 = self.char_effort(l, i1);
        let e2 = self.char_effort(l, i2);
        proof {
            lemma_effort_sum_two(*self, m1, m2, i1 as int, i2 as int, 30);
            lemma_effort_sum_bound(*self, m1, 30);
            lemma_effort_at_bound(*self, m1, i1 as int);
            lemma_effort_at_bound(*self, m1, i2 as int);
        }
        let effort_score = cache.effort_total - cache.effort[i1] - cache.effort[i2] + e1 + e2;
        let trigrams_end = self.trigram_char_score(l, swap);
        proof {
            assert(m2[i1 as int] == b && m2[i2 as int] == a);
            lemma_either_sym(self.data.trigrams@, b, a);
            lemma_tri_delta(*self, p1, p2, a, b);
            lemma_trigram_total_bound(*self, p1);
            lemma_trigram_total_bound(*self, p2);
        }
        let trigrams_score = cache.trigrams_total - trigrams_start + trigrams_end;
        let scissors_score: i128;
        if self.affects_scissor(swap) {
            scissors_score = self.scissor_score(l);
        } else {
            proof {
                lemma_scissor_same(*self, m1, m2, *swap, 15);
                lemma_scissors_bound(*self, m1);
            }
            scissors_score = cache.scissors;
        }
        proof {
            lemma_usage_fspeed_split(*self, m2, 8);
            crate::scorer::lemma_score_bound(*self, m2, p2);
            lemma_effort_sum_bound(*self, m2, 30);
            lemma_usage_sum_bound(*self, m2, 8);
            lemma_fspeed_sum_bound(*self, m2, 8);
            lemma_scissors_bound(*self, m2);
        }
        let total = trigrams_score - scissors_score - effort_score - usage_score - fspeed_score;
        l.swap_pair(swap);
        proof {
            assert(l.matrix@ =~= m1);
            assert(l.pos_of@[a as int] == p1[a as int]);
            assert(l.pos_of@ =~= p1);
        }
        total
    }
}

} // verus!
