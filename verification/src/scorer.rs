//! The scoring function.
//!
//! `score = trigrams - scissors - effort - usage - finger speed`, where
//! - effort is the sum over positions of character frequency times the effort
//!   map entry;
//! - usage punishes, per column, the frequency mass above the finger's
//!   threshold;
//! - finger speed charges, per finger-speed pair, its distance times the
//!   weighted same-finger bigram and skipgram mass;
//! - scissors charge the bigram mass of the fifteen scissor pairs;
//! - the trigram reward adds, per trigram, its frequency times the weight of
//!   its pattern (negative for redirects).
//!
//! Every aspect is defined here as a spec function; the executable scorer and
//! the incremental cache are both proved against these definitions.

use vstd::prelude::*;

use crate::fixed::DIST_CAP;
use crate::fixed::EFFORT_CAP;
use crate::fixed::FREQ_CAP;
use crate::fixed::TRIGRAM_CAP;
use crate::fixed::WEIGHT_CAP;
use crate::fixed::lemma_mul_fp_bound;
use crate::fixed::spec_mul_fp;
use crate::generate::LayoutGeneration;
use crate::geometry::spec_col_to_start_len;
use crate::language_data::LanguageData;
use crate::language_data::TrigramEntry;
use crate::language_data::spec_pair_idx;
use crate::layout::FastLayout;
use crate::trigram_patterns::TrigramPattern;
use crate::trigram_patterns::spec_classify_positions;

verus! {

/// Largest effort term: `mul_fp(FREQ_CAP, EFFORT_CAP)`.
pub const EFFORT_TERM_CAP: i128 = 200_000_000_000;

/// Largest inner (undistanced) finger-speed pair mass.
pub const INNER_CAP: i128 = 100_000_000_000;

/// Largest single finger-speed pair term.
pub const PAIR_TERM_CAP: i128 = 20_000_000_000_000;

/// Largest weighted per-column finger speed.
pub const COL_FSPEED_CAP: i128 = 30_000_000_000_000_000;

/// Largest weighted per-column usage penalty.
pub const COL_USAGE_CAP: i128 = 60_000_000_000;

/// Largest weighted scissor total.
pub const SCISSOR_CAP: i128 = 300_000_000_000;

/// Largest magnitude of one trigram's contribution.
pub const TRI_TERM_CAP: i128 = 10_000_000_000;

/// Largest magnitude of the whole trigram reward.
pub const TRI_TOTAL_CAP: i128 = 10_000_000_000_000_000;

/// Largest magnitude of a layout score.
pub const SCORE_CAP: i128 = 1_000_000_000_000_000_000;

/// A sound key matrix: 30 ids, each below 60.
pub open spec fn matrix_ok(m: Seq<u8>) -> bool {
    m.len() == 30 && forall|i: int| 0 <= i < 30 ==> (#[trigger] m[i]) < 60
}

/// Effort of one position: character frequency times the effort map entry.
pub open spec fn spec_effort_at(g: LayoutGeneration, m: Seq<u8>, i: int) -> int {
    spec_mul_fp(g.data.spec_char_freq(m[i] as int), g.effort_map@[i] as int)
}

/// Effort of the first `n` positions.
pub open spec fn spec_effort_sum(g: LayoutGeneration, m: Seq<u8>, n: int) -> int
    decreases n,
{
    if n <= 0 {
        0
    } else {
        spec_effort_sum(g, m, n - 1) + spec_effort_at(g, m, n - 1)
    }
}

/// Frequency mass of an id pair in both orders.
pub open spec fn spec_pair_both(table: Seq<i64>, a: int, b: int) -> int {
    LanguageData::spec_pair_freq(table, a, b) + LanguageData::spec_pair_freq(table, b, a)
}

/// One finger-speed pair term: distance times the bigram mass plus the
/// discounted skipgram mass of the two keys.
pub open spec fn spec_fspeed_term(g: LayoutGeneration, m: Seq<u8>, k: int) -> int {
    let (p, d) = g.fspeed_vals@[k];
    let a = m[p.0 as int] as int;
    let b = m[p.1 as int] as int;
    let inner = spec_pair_both(g.data.bigrams@, a, b) + spec_mul_fp(
        spec_pair_both(g.data.skipgrams@, a, b),
        g.weights.dsfb_ratio as int,
    ) + spec_mul_fp(spec_pair_both(g.data.skipgrams2@, a, b), g.weights.dsfb_ratio2 as int)
        + spec_mul_fp(spec_pair_both(g.data.skipgrams3@, a, b), g.weights.dsfb_ratio3 as int);
    spec_mul_fp(inner, d as int)
}

/// Sum of `n` finger-speed terms from `start`.
pub open spec fn spec_fspeed_slice(g: LayoutGeneration, m: Seq<u8>, start: int, n: int) -> int
    decreases n,
{
    if n <= 0 {
        0
    } else {
        spec_fspeed_slice(g, m, start, n - 1) + spec_fspeed_term(g, m, start + n - 1)
    }
}

/// Weighted finger speed of one column.
pub open spec fn spec_col_fspeed(g: LayoutGeneration, m: Seq<u8>, c: int) -> int {
    let (start, n) = spec_col_to_start_len(c);
    spec_mul_fp(spec_fspeed_slice(g, m, start, n), g.weights.fspeed as int)
}

/// Frequency of the character on one position.
pub open spec fn spec_freq_at(g: LayoutGeneration, m: Seq<u8>, i: int) -> int {
    g.data.spec_char_freq(m[i] as int)
}

/// Raw frequency mass of one column's keys.
pub open spec fn spec_col_usage_raw(g: LayoutGeneration, m: Seq<u8>, c: int) -> int {
    if c < 3 {
        spec_freq_at(g, m, c) + spec_freq_at(g, m, c + 10) + spec_freq_at(g, m, c + 20)
    } else if c < 5 {
        let base = (c - 3) * 2 + 3;
        spec_freq_at(g, m, base) + spec_freq_at(g, m, base + 1) + spec_freq_at(g, m, base + 10)
            + spec_freq_at(g, m, base + 11) + spec_freq_at(g, m, base + 20) + spec_freq_at(
            g,
            m,
            base + 21,
        )
    } else {
        spec_freq_at(g, m, c + 2) + spec_freq_at(g, m, c + 12) + spec_freq_at(g, m, c + 22)
    }
}

/// The usage threshold of a column's finger.
pub open spec fn spec_max_use(g: LayoutGeneration, c: int) -> int {
    if c == 0 || c == 7 {
        g.weights.max_finger_use.pinky as int
    } else if c == 1 || c == 6 {
        g.weights.max_finger_use.ring as int
    } else if c == 2 || c == 5 {
        g.weights.max_finger_use.middle as int
    } else {
        g.weights.max_finger_use.index as int
    }
}

/// Weighted over-usage penalty of one column.
pub open spec fn spec_col_usage(g: LayoutGeneration, m: Seq<u8>, c: int) -> int {
    let u = spec_col_usage_raw(g, m, c);
    let cap = spec_max_use(g, c);
    spec_mul_fp(
        if u > cap {
            u - cap
        } else {
            0
        },
        g.weights.max_finger_use.penalty as int,
    )
}

/// Bigram mass of the first `n` scissor pairs.
pub open spec fn spec_scissor_slice(g: LayoutGeneration, m: Seq<u8>, n: int) -> int
    decreases n,
{
    if n <= 0 {
        0
    } else {
        let p = g.scissor_indices@[n - 1];
        let a = m[p.0 as int] as int;
        let b = m[p.1 as int] as int;
        spec_scissor_slice(g, m, n - 1) + spec_pair_both(g.data.bigrams@, a, b)
    }
}

/// Weighted scissor total.
pub open spec fn spec_scissors(g: LayoutGeneration, m: Seq<u8>) -> int {
    spec_mul_fp(spec_scissor_slice(g, m, 15), g.weights.scissors as int)
}

/// The weight the score gives a pattern; zero for the neutral ones.
pub open spec fn spec_pattern_weight(g: LayoutGeneration, p: TrigramPattern) -> int {
    match p {
        TrigramPattern::Alternate => g.weights.alternates as int,
        TrigramPattern::AlternateSfs => g.weights.alternates_sfs as int,
        TrigramPattern::Inroll => g.weights.inrolls as int,
        TrigramPattern::Outroll => g.weights.outrolls as int,
        TrigramPattern::Onehand => g.weights.onehands as int,
        TrigramPattern::Redirect => g.weights.redirects as int,
        TrigramPattern::BadRedirect => g.weights.bad_redirects as int,
        _ => 0,
    }
}

/// Whether a pattern rewards (true) or punishes (false).
pub open spec fn spec_pattern_gain(p: TrigramPattern) -> bool {
    !(p == TrigramPattern::Redirect || p == TrigramPattern::BadRedirect)
}

/// The pattern of a trigram on a layout.
pub open spec fn spec_tri_pattern(pos: Seq<u8>, e: TrigramEntry) -> TrigramPattern {
    spec_classify_positions(pos[e.c0 as int] as int, pos[e.c1 as int] as int, pos[e.c2 as int] as int)
}

/// One trigram's signed contribution to the reward.
pub open spec fn spec_tri_contrib(g: LayoutGeneration, pos: Seq<u8>, e: TrigramEntry) -> int {
    let p = spec_tri_pattern(pos, e);
    let w = spec_mul_fp(spec_pattern_weight(g, p), e.freq as int);
    if spec_pattern_gain(p) {
        w
    } else {
        -w
    }
}

/// Signed reward of a trigram list.
pub open spec fn spec_tri_sum(g: LayoutGeneration, pos: Seq<u8>, s: Seq<TrigramEntry>) -> int
    decreases s.len(),
{
    if s.len() == 0 {
        0
    } else {
        spec_tri_sum(g, pos, s.drop_last()) + spec_tri_contrib(g, pos, s.last())
    }
}

/// The whole trigram reward.
pub open spec fn spec_trigram_total(g: LayoutGeneration, pos: Seq<u8>) -> int {
    spec_tri_sum(g, pos, g.data.trigrams@)
}

/// The trigrams of a list that contain either id, in order.
pub open spec fn spec_tri_either(s: Seq<TrigramEntry>, a: u8, b: u8) -> Seq<TrigramEntry>
    decreases s.len(),
{
    if s.len() == 0 {
        Seq::empty()
    } else {
        let rest = spec_tri_either(s.drop_last(), a, b);
        if crate::generate::spec_entry_has(s.last(), a) || crate::generate::spec_entry_has(
            s.last(),
            b,
        ) {
            rest.push(s.last())
        } else {
            rest
        }
    }
}

/// The reward over the trigrams that touch either of two characters.
pub open spec fn spec_tri_char_sum(g: LayoutGeneration, pos: Seq<u8>, a: u8, b: u8) -> int {
    spec_tri_sum(g, pos, spec_tri_either(g.data.trigrams@, a, b))
}

/// Usage and finger speed of the first `c` columns.
pub open spec fn spec_usage_fspeed(g: LayoutGeneration, m: Seq<u8>, c: int) -> int
    decreases c,
{
    if c <= 0 {
        0
    } else {
        spec_usage_fspeed(g, m, c - 1) + spec_col_usage(g, m, c - 1) + spec_col_fspeed(g, m, c - 1)
    }
}

/// The score of a layout: trigram reward minus every penalty.
pub open spec fn spec_score(g: LayoutGeneration, m: Seq<u8>, pos: Seq<u8>) -> int {
    spec_trigram_total(g, pos) - spec_scissors(g, m) - spec_effort_sum(g, m, 30)
        - spec_usage_fspeed(g, m, 8)
}

/// Effort terms are bounded.
pub proof fn lemma_effort_at_bound(g: LayoutGeneration, m: Seq<u8>, i: int)
    requires
        g.wf(),
        matrix_ok(m),
        0 <= i < 30,
    ensures
        0 <= spec_effort_at(g, m, i) <= EFFORT_TERM_CAP,
{
    lemma_mul_fp_bound(
        g.data.spec_char_freq(m[i] as int),
        g.effort_map@[i] as int,
        FREQ_CAP as int,
        EFFORT_CAP as int,
    );
}

/// Effort sums are bounded.
pub proof fn lemma_effort_sum_bound(g: LayoutGeneration, m: Seq<u8>, n: int)
    requires
        g.wf(),
        matrix_ok(m),
        0 <= n <= 30,
    ensures
        0 <= spec_effort_sum(g, m, n) <= n * EFFORT_TERM_CAP,
    decreases n,
{
    if n > 0 {
        lemma_effort_sum_bound(g, m, n - 1);
        lemma_effort_at_bound(g, m, n - 1);
    }
}

/// Pair masses are bounded by twice the frequency cap.
pub proof fn lemma_pair_both_bound(g: LayoutGeneration, table: Seq<i64>, a: int, b: int)
    requires
        table.len() == 3600,
        forall|i: int| 0 <= i < 3600 ==> 0 <= (#[trigger] table[i]) <= FREQ_CAP,
        0 <= a < 60,
        0 <= b < 60,
    ensures
        0 <= spec_pair_both(table, a, b) <= 2 * FREQ_CAP,
{
    crate::language_data::lemma_pair_idx_bound(a, b);
    crate::language_data::lemma_pair_idx_bound(b, a);
}

/// Finger-speed terms are bounded.
pub proof fn lemma_fspeed_term_bound(g: LayoutGeneration, m: Seq<u8>, k: int)
    requires
        g.wf(),
        matrix_ok(m),
        0 <= k < 48,
    ensures
        0 <= spec_fspeed_term(g, m, k) <= PAIR_TERM_CAP,
{
    let (p, d) = g.fspeed_vals@[k];
    let a = m[p.0 as int] as int;
    let b = m[p.1 as int] as int;
    lemma_pair_both_bound(g, g.data.bigrams@, a, b);
    lemma_pair_both_bound(g, g.data.skipgrams@, a, b);
    lemma_pair_both_bound(g, g.data.skipgrams2@, a, b);
    lemma_pair_both_bound(g, g.data.skipgrams3@, a, b);
    lemma_mul_fp_bound(
        spec_pair_both(g.data.skipgrams@, a, b),
        g.weights.dsfb_ratio as int,
        2 * FREQ_CAP as int,
        WEIGHT_CAP as int,
    );
    lemma_mul_fp_bound(
        spec_pair_both(g.data.skipgrams2@, a, b),
        g.weights.dsfb_ratio2 as int,
        2 * FREQ_CAP as int,
        WEIGHT_CAP as int,
    );
    lemma_mul_fp_bound(
        spec_pair_both(g.data.skipgrams3@, a, b),
        g.weights.dsfb_ratio3 as int,
        2 * FREQ_CAP as int,
        WEIGHT_CAP as int,
    );
    let inner = spec_pair_both(g.data.bigrams@, a, b) + spec_mul_fp(
        spec_pair_both(g.data.skipgrams@, a, b),
        g.weights.dsfb_ratio as int,
    ) + spec_mul_fp(spec_pair_both(g.data.skipgrams2@, a, b), g.weights.dsfb_ratio2 as int)
        + spec_mul_fp(spec_pair_both(g.data.skipgrams3@, a, b), g.weights.dsfb_ratio3 as int);
    assert(0 <= inner <= INNER_CAP);
    lemma_mul_fp_bound(inner, d as int, INNER_CAP as int, DIST_CAP as int);
}

/// Finger-speed slices are bounded.
pub proof fn lemma_fspeed_slice_bound(g: LayoutGeneration, m: Seq<u8>, start: int, n: int)
    requires
        g.wf(),
        matrix_ok(m),
        0 <= start,
        0 <= n,
        start + n <= 48,
    ensures
        0 <= spec_fspeed_slice(g, m, start, n) <= n * PAIR_TERM_CAP,
    decreases n,
{
    if n > 0 {
        lemma_fspeed_slice_bound(g, m, start, n - 1);
        lemma_fspeed_term_bound(g, m, start + n - 1);
    }
}

/// Weighted column finger speed is bounded.
pub proof fn lemma_col_fspeed_bound(g: LayoutGeneration, m: Seq<u8>, c: int)
    requires
        g.wf(),
        matrix_ok(m),
        0 <= c < 8,
    ensures
        0 <= spec_col_fspeed(g, m, c) <= COL_FSPEED_CAP,
{
    let (start, n) = spec_col_to_start_len(c);
    lemma_fspeed_slice_bound(g, m, start, n);
    lemma_mul_fp_bound(
        spec_fspeed_slice(g, m, start, n),
        g.weights.fspeed as int,
        15 * PAIR_TERM_CAP as int,
        WEIGHT_CAP as int,
    );
}

/// Weighted column usage is bounded.
pub proof fn lemma_col_usage_bound(g: LayoutGeneration, m: Seq<u8>, c: int)
    requires
        g.wf(),
        matrix_ok(m),
        0 <= c < 8,
    ensures
        0 <= spec_col_usage(g, m, c) <= COL_USAGE_CAP,
{
    let u = spec_col_usage_raw(g, m, c);
    assert(0 <= u <= 6 * FREQ_CAP);
    let cap = spec_max_use(g, c);
    let over = if u > cap {
        u - cap
    } else {
        0
    };
    assert(0 <= over <= 6 * FREQ_CAP);
    lemma_mul_fp_bound(
        over,
        g.weights.max_finger_use.penalty as int,
        6 * FREQ_CAP as int,
        WEIGHT_CAP as int,
    );
}

/// Scissor slices are bounded.
pub proof fn lemma_scissor_slice_bound(g: LayoutGeneration, m: Seq<u8>, n: int)
    requires
        g.wf(),
        matrix_ok(m),
        0 <= n <= 15,
    ensures
        0 <= spec_scissor_slice(g, m, n) <= n * 2 * FREQ_CAP,
    decreases n,
{
    if n > 0 {
        lemma_scissor_slice_bound(g, m, n - 1);
        let p = g.scissor_indices@[n - 1];
        assert(p == crate::generate::spec_scissor_list()[n - 1]);
        assert(p.0 < 30 && p.1 < 30);
        let a = m[p.0 as int] as int;
        let b = m[p.1 as int] as int;
        lemma_pair_both_bound(g, g.data.bigrams@, a, b);
    }
}

/// The weighted scissor total is bounded.
pub proof fn lemma_scissors_bound(g: LayoutGeneration, m: Seq<u8>)
    requires
        g.wf(),
        matrix_ok(m),
    ensures
        0 <= spec_scissors(g, m) <= SCISSOR_CAP,
{
    lemma_scissor_slice_bound(g, m, 15);
    lemma_mul_fp_bound(
        spec_scissor_slice(g, m, 15),
        g.weights.scissors as int,
        30 * FREQ_CAP as int,
        WEIGHT_CAP as int,
    );
}

/// One trigram's contribution is bounded in magnitude.
pub proof fn lemma_tri_contrib_bound(g: LayoutGeneration, pos: Seq<u8>, e: TrigramEntry)
    requires
        g.wf(),
        0 <= e.freq <= FREQ_CAP,
    ensures
        -TRI_TERM_CAP <= spec_tri_contrib(g, pos, e) <= TRI_TERM_CAP,
{
    let p = spec_tri_pattern(pos, e);
    lemma_mul_fp_bound(spec_pattern_weight(g, p), e.freq as int, WEIGHT_CAP as int, FREQ_CAP as int);
}

/// A trigram list entry is fit for scoring.
pub open spec fn entry_ok(e: TrigramEntry) -> bool {
    &&& e.c0 < 60
    &&& e.c1 < 60
    &&& e.c2 < 60
    &&& 0 <= e.freq <= FREQ_CAP
}

/// Trigram sums are bounded in magnitude by the list length.
pub proof fn lemma_tri_sum_bound(g: LayoutGeneration, pos: Seq<u8>, s: Seq<TrigramEntry>)
    requires
        g.wf(),
        forall|k: int| 0 <= k < s.len() ==> entry_ok(#[trigger] s[k]),
    ensures
        -(s.len() as int) * TRI_TERM_CAP <= spec_tri_sum(g, pos, s) <= (s.len() as int)
            * TRI_TERM_CAP,
    decreases s.len(),
{
    if s.len() > 0 {
        assert forall|k: int| 0 <= k < s.drop_last().len() implies entry_ok(
            #[trigger] s.drop_last()[k],
        ) by {
            assert(s.drop_last()[k] == s[k]);
        }
        lemma_tri_sum_bound(g, pos, s.drop_last());
        assert(s.last() == s[s.len() - 1]);
        lemma_tri_contrib_bound(g, pos, s.last());
        let n = s.len() as int;
        assert((n - 1) * TRI_TERM_CAP + TRI_TERM_CAP == n * TRI_TERM_CAP) by (nonlinear_arith);
        assert(-(n - 1) * TRI_TERM_CAP - TRI_TERM_CAP == -n * TRI_TERM_CAP) by (nonlinear_arith);
    }
}

/// The whole trigram reward is bounded.
pub proof fn lemma_trigram_total_bound(g: LayoutGeneration, pos: Seq<u8>)
    requires
        g.wf(),
    ensures
        -TRI_TOTAL_CAP <= spec_trigram_total(g, pos) <= TRI_TOTAL_CAP,
{
    lemma_tri_sum_bound(g, pos, g.data.trigrams@);
    let n = g.data.trigrams@.len() as int;
    assert(n <= TRIGRAM_CAP as int);
    assert(n * TRI_TERM_CAP <= TRIGRAM_CAP as int * TRI_TERM_CAP) by (nonlinear_arith)
        requires
            0 <= n <= TRIGRAM_CAP as int,
            TRI_TERM_CAP > 0,
    ;
}

/// Usage and finger-speed sums over columns are bounded.
pub proof fn lemma_usage_fspeed_bound(g: LayoutGeneration, m: Seq<u8>, c: int)
    requires
        g.wf(),
        matrix_ok(m),
        0 <= c <= 8,
    ensures
        0 <= spec_usage_fspeed(g, m, c) <= c * (COL_USAGE_CAP + COL_FSPEED_CAP),
    decreases c,
{
    if c > 0 {
        lemma_usage_fspeed_bound(g, m, c - 1);
        lemma_col_usage_bound(g, m, c - 1);
        lemma_col_fspeed_bound(g, m, c - 1);
    }
}

/// Every score lies within `SCORE_CAP`.
pub proof fn lemma_score_bound(g: LayoutGeneration, m: Seq<u8>, pos: Seq<u8>)
    requires
        g.wf(),
        matrix_ok(m),
    ensures
        -SCORE_CAP <= spec_score(g, m, pos) <= SCORE_CAP,
{
    lemma_trigram_total_bound(g, pos);
    lemma_scissors_bound(g, m);
    lemma_effort_sum_bound(g, m, 30);
    lemma_usage_fspeed_bound(g, m, 8);
}

/// Frequency mass of an id pair in both orders.
pub fn pair_both(table: &Vec<i64>, a: u8, b: u8) -> (r: i64)
    requires
        table@.len() == 3600,
        forall|i: int| 0 <= i < 3600 ==> 0 <= (#[trigger] table@[i]) <= FREQ_CAP,
        a < 60,
        b < 60,
    ensures
        r == spec_pair_both(table@, a as int, b as int),
        0 <= r <= 2 * FREQ_CAP,
{
    proof {
        crate::language_data::lemma_pair_idx_bound(a as int, b as int);
        crate::language_data::lemma_pair_idx_bound(b as int, a as int);
    }
    let f1 = table[(a as usize) * 60 + (b as usize)];
    let f2 = table[(b as usize) * 60 + (a as usize)];
    f1 + f2
}

impl LayoutGeneration {
    /// Effort of one position.
    pub fn char_effort(&self, l: &FastLayout, i: usize) -> (r: i128)
        requires
            self.wf(),
            l.wf(),
            i < 30,
        ensures
            r == spec_effort_at(*self, l.matrix@, i as int),
            0 <= r <= EFFORT_TERM_CAP,
    {
        let c = l.c(i);
        let f = self.data.char_freq(c);
        let e = self.effort_map[i];
        proof {
            lemma_mul_fp_bound(f as int, e as int, FREQ_CAP as int, EFFORT_CAP as int);
        }
        crate::fixed::mul_fp(f as i128, e as i128)
    }

    /// Frequency of the character on one position.
    fn freq_at(&self, l: &FastLayout, i: usize) -> (r: i64)
        requires
            self.wf(),
            l.wf(),
            i < 30,
        ensures
            r == spec_freq_at(*self, l.matrix@, i as int),
            0 <= r <= FREQ_CAP,
    {
        self.data.char_freq(l.c(i))
    }

    /// Weighted over-usage penalty of one column.
    pub fn col_usage(&self, l: &FastLayout, col: usize) -> (r: i128)
        requires
            self.wf(),
            l.wf(),
            col < 8,
        ensures
            r == spec_col_usage(*self, l.matrix@, col as int),
            0 <= r <= COL_USAGE_CAP,
    {
        let u: i64 = if col < 3 {
            self.freq_at(l, col) + self.freq_at(l, col + 10) + self.freq_at(l, col + 20)
        } else if col < 5 {
            let base = (col - 3) * 2 + 3;
            self.freq_at(l, base) + self.freq_at(l, base + 1) + self.freq_at(l, base + 10)
                + self.freq_at(l, base + 11) + self.freq_at(l, base + 20) + self.freq_at(
                l,
                base + 21,
            )
        } else {
            self.freq_at(l, col + 2) + self.freq_at(l, col + 12) + self.freq_at(l, col + 22)
        };
        let m: i64 = if col == 0 || col == 7 {
            self.weights.max_finger_use.pinky
        } else if col == 1 || col == 6 {
            self.weights.max_finger_use.ring
        } else if col == 2 || col == 5 {
            self.weights.max_finger_use.middle
        } else {
            self.weights.max_finger_use.index
        };
        let over: i64 = if u > m {
            u - m
        } else {
            0
        };
        proof {
            lemma_mul_fp_bound(
                over as int,
                self.weights.max_finger_use.penalty as int,
                6 * FREQ_CAP as int,
                WEIGHT_CAP as int,
            );
        }
        crate::fixed::mul_fp(over as i128, self.weights.max_finger_use.penalty as i128)
    }

    /// Weighted finger speed of one column.
    pub fn col_fspeed(&self, l: &FastLayout, col: usize) -> (r: i128)
        requires
            self.wf(),
            l.wf(),
            col < 8,
        ensures
            r == spec_col_fspeed(*self, l.matrix@, col as int),
            0 <= r <= COL_FSPEED_CAP,
    {
        let (start, len) = crate::geometry::col_to_start_len(col);
        let mut acc: i128 = 0;
        let mut k: usize = 0;
        while k < len
            invariant
                self.wf(),
                l.wf(),
                col < 8,
                (start as int, len as int) == spec_col_to_start_len(col as int),
                start + len <= 48,
                k <= len,
                acc == spec_fspeed_slice(*self, l.matrix@, start as int, k as int),
                0 <= acc <= k * PAIR_TERM_CAP,
            decreases len - k,
        {
            let (p, d) = self.fspeed_vals[start + k];
            let a = l.c(p.0);
            let b = l.c(p.1);
            let big = pair_both(&self.data.bigrams, a, b);
            let s1 = pair_both(&self.data.skipgrams, a, b);
            let s2 = pair_both(&self.data.skipgrams2, a, b);
            let s3 = pair_both(&self.data.skipgrams3, a, b);
            proof {
                lemma_mul_fp_bound(
                    s1 as int,
                    self.weights.dsfb_ratio as int,
                    2 * FREQ_CAP as int,
                    WEIGHT_CAP as int,
                );
                lemma_mul_fp_bound(
                    s2 as int,
                    self.weights.dsfb_ratio2 as int,
                    2 * FREQ_CAP as int,
                    WEIGHT_CAP as int,
                );
                lemma_mul_fp_bound(
                    s3 as int,
                    self.weights.dsfb_ratio3 as int,
                    2 * FREQ_CAP as int,
                    WEIGHT_CAP as int,
                );
            }
            let inner: i128 = (big as i128) + crate::fixed::mul_fp(
                s1 as i128,
                self.weights.dsfb_ratio as i128,
            ) + crate::fixed::mul_fp(s2 as i128, self.weights.dsfb_ratio2 as i128)
                + crate::fixed::mul_fp(s3 as i128, self.weights.dsfb_ratio3 as i128);
            proof {
                lemma_mul_fp_bound(inner as int, d as int, INNER_CAP as int, DIST_CAP as int);
            }
            let term = crate::fixed::mul_fp(inner, d as i128);
            proof {
                lemma_fspeed_term_bound(*self, l.matrix@, (start + k) as int);
                assert(term == spec_fspeed_term(*self, l.matrix@, start + k as int));
                assert((k as int) * PAIR_TERM_CAP + PAIR_TERM_CAP == ((k + 1) as int)
                    * PAIR_TERM_CAP) by (nonlinear_arith);
                assert((k + 1) as int * PAIR_TERM_CAP <= 15 * PAIR_TERM_CAP) by (nonlinear_arith)
                    requires
                        0 <= k,
                        k + 1 <= 15,
                ;
            }
            acc = acc + term;
            k += 1;
        }
        proof {
            lemma_fspeed_slice_bound(*self, l.matrix@, start as int, len as int);
            lemma_mul_fp_bound(
                acc as int,
                self.weights.fspeed as int,
                15 * PAIR_TERM_CAP as int,
                WEIGHT_CAP as int,
            );
        }
        crate::fixed::mul_fp(acc, self.weights.fspeed as i128)
    }

    /// Weighted scissor total.
    pub fn scissor_score(&self, l: &FastLayout) -> (r: i128)
        requires
            self.wf(),
            l.wf(),
        ensures
            r == spec_scissors(*self, l.matrix@),
            0 <= r <= SCISSOR_CAP,
    {
        let mut acc: i128 = 0;
        let mut k: usize = 0;
        while k < 15
            invariant
                self.wf(),
                l.wf(),
                k <= 15,
                acc == spec_scissor_slice(*self, l.matrix@, k as int),
                0 <= acc <= k * 2 * FREQ_CAP,
            decreases 15 - k,
        {
            let p = self.scissor_indices[k];
            proof {
                assert(self.scissor_indices@[k as int] == crate::generate::spec_scissor_list()[k as int]);
            }
            let a = l.c(p.0);
            let b = l.c(p.1);
            let m = pair_both(&self.data.bigrams, a, b);
            acc = acc + (m as i128);
            k += 1;
        }
        proof {
            lemma_mul_fp_bound(
                acc as int,
                self.weights.scissors as int,
                30 * FREQ_CAP as int,
                WEIGHT_CAP as int,
            );
        }
        crate::fixed::mul_fp(acc, self.weights.scissors as i128)
    }

    /// One trigram's signed contribution.
    pub fn trigram_contrib(&self, l: &FastLayout, e: &TrigramEntry) -> (r: i128)
        requires
            self.wf(),
            l.wf(),
            entry_ok(*e),
        ensures
            r == spec_tri_contrib(*self, l.pos_of@, *e),
            -TRI_TERM_CAP <= r <= TRI_TERM_CAP,
    {
        let p1 = l.position_of(e.c0);
        let p2 = l.position_of(e.c1);
        let p3 = l.position_of(e.c2);
        let pat = crate::trigram_patterns::classify(p1, p2, p3);
        let w: i64 = match pat {
            TrigramPattern::Alternate => self.weights.alternates,
            TrigramPattern::AlternateSfs => self.weights.alternates_sfs,
            TrigramPattern::Inroll => self.weights.inrolls,
            TrigramPattern::Outroll => self.weights.outrolls,
            TrigramPattern::Onehand => self.weights.onehands,
            TrigramPattern::Redirect => self.weights.redirects,
            TrigramPattern::BadRedirect => self.weights.bad_redirects,
            _ => 0,
        };
        proof {
            lemma_mul_fp_bound(w as int, e.freq as int, WEIGHT_CAP as int, FREQ_CAP as int);
        }
        let m = crate::fixed::mul_fp(w as i128, e.freq as i128);
        match pat {
            TrigramPattern::Redirect => -m,
            TrigramPattern::BadRedirect => -m,
            _ => m,
        }
    }

    /// Signed reward of a whole trigram list.
    pub fn trigram_score_iter(&self, l: &FastLayout, list: &Vec<TrigramEntry>) -> (r: i128)
        requires
            self.wf(),
            l.wf(),
            list@.len() <= TRIGRAM_CAP,
            forall|k: int| 0 <= k < list@.len() ==> entry_ok(#[trigger] list@[k]),
        ensures
            r == spec_tri_sum(*self, l.pos_of@, list@),
            -TRI_TOTAL_CAP <= r <= TRI_TOTAL_CAP,
    {
        let mut acc: i128 = 0;
        let mut k: usize = 0;
        while k < list.len()
            invariant
                self.wf(),
                l.wf(),
                k <= list@.len(),
                list@.len() <= TRIGRAM_CAP,
                forall|m: int| 0 <= m < list@.len() ==> entry_ok(#[trigger] list@[m]),
                acc == spec_tri_sum(*self, l.pos_of@, list@.take(k as int)),
                -(k as int) * TRI_TERM_CAP <= acc <= (k as int) * TRI_TERM_CAP,
            decreases list@.len() - k,
        {
            let e = list[k];
            let c = self.trigram_contrib(l, &e);
            proof {
                assert(list@.take(k + 1).drop_last() =~= list@.take(k as int));
                assert(list@.take(k + 1).last() == list@[k as int]);
                assert((k as int) * TRI_TERM_CAP + TRI_TERM_CAP == ((k + 1) as int) * TRI_TERM_CAP)
                    by (nonlinear_arith);
                assert(-(k as int) * TRI_TERM_CAP - TRI_TERM_CAP == -((k + 1) as int)
                    * TRI_TERM_CAP) by (nonlinear_arith);
                assert(((k + 1) as int) * TRI_TERM_CAP <= TRIGRAM_CAP as int * TRI_TERM_CAP)
                    by (nonlinear_arith)
                    requires
                        0 <= k,
                        k + 1 <= TRIGRAM_CAP as int,
                        TRI_TERM_CAP > 0,
                ;
            }
            acc = acc + c;
            k += 1;
        }
        proof {
            assert(list@.take(list@.len() as int) =~= list@);
            assert((list@.len() as int) * TRI_TERM_CAP <= TRIGRAM_CAP as int * TRI_TERM_CAP)
                by (nonlinear_arith)
                requires
                    0 <= list@.len() as int <= TRIGRAM_CAP as int,
                    TRI_TERM_CAP > 0,
            ;
        }
        acc
    }

    /// The raw scissor bigram mass, before weighting.
    pub fn scissor_percent(&self, l: &FastLayout) -> (r: i128)
        requires
            self.wf(),
            l.wf(),
        ensures
            r == spec_scissor_slice(*self, l.matrix@, 15),
            0 <= r <= 30 * FREQ_CAP,
    {
        let mut acc: i128 = 0;
        let mut k: usize = 0;
        while k < 15
            invariant
                self.wf(),
                l.wf(),
                k <= 15,
                acc == spec_scissor_slice(*self, l.matrix@, k as int),
                0 <= acc <= k * 2 * FREQ_CAP,
            decreases 15 - k,
        {
            let p = self.scissor_indices[k];
            proof {
                assert(self.scissor_indices@[k as int] == crate::generate::spec_scissor_list()[k as int]);
            }
            let a = l.c(p.0);
            let b = l.c(p.1);
            let m = pair_both(&self.data.bigrams, a, b);
            acc = acc + (m as i128);
            k += 1;
        }
        acc
    }

    /// The heat shade of a key for display: the brighter the rarer, clamped
    /// to the byte range.
    pub fn heatmap_heat(&self, id: u8) -> (r: u8)
        requires
            self.wf(),
            id < 60,
        ensures
            r as int == if 215 - spec_mul_fp(self.data.spec_char_freq(id as int), 1720) >= 0 {
                215 - spec_mul_fp(self.data.spec_char_freq(id as int), 1720)
            } else {
                0
            },
    {
        let f = self.data.char_freq(id);
        proof {
            lemma_mul_fp_bound(f as int, 1720, FREQ_CAP as int, 1720);
        }
        let scaled = crate::fixed::mul_fp(f as i128, 1720);
        if scaled >= 215 {
            0
        } else {
            (215 - scaled) as u8
        }
    }

    /// The score of a layout using only the most frequent trigrams, as many
    /// as `precision` allows.
    pub fn score_with_precision(&self, l: &FastLayout, precision: usize) -> (r: i128)
        requires
            self.wf(),
            l.wf(),
        ensures
            r == spec_tri_sum(
                *self,
                l.pos_of@,
                if precision <= self.data.trigrams@.len() {
                    self.data.trigrams@.take(precision as int)
                } else {
                    self.data.trigrams@
                },
            ) - spec_scissors(*self, l.matrix@) - spec_effort_sum(*self, l.matrix@, 30)
                - spec_usage_fspeed(*self, l.matrix@, 8),
    {
        let full = self.score(l);
        let cap = if precision <= self.data.trigrams.len() {
            precision
        } else {
            self.data.trigrams.len()
        };
        let mut acc: i128 = 0;
        let mut k: usize = 0;
        while k < cap
            invariant
                self.wf(),
                l.wf(),
                cap <= self.data.trigrams@.len(),
                self.data.trigrams@.len() <= TRIGRAM_CAP,
                k <= cap,
                acc == spec_tri_sum(*self, l.pos_of@, self.data.trigrams@.take(k as int)),
                -(k as int) * TRI_TERM_CAP <= acc <= (k as int) * TRI_TERM_CAP,
            decreases cap - k,
        {
            let e = self.data.trigrams[k];
            let c = self.trigram_contrib(l, &e);
            proof {
                assert(self.data.trigrams@.take(k + 1).drop_last() =~= self.data.trigrams@.take(
                    k as int,
                ));
                assert(self.data.trigrams@.take(k + 1).last() == self.data.trigrams@[k as int]);
                assert((k as int) * TRI_TERM_CAP + TRI_TERM_CAP == ((k + 1) as int) * TRI_TERM_CAP)
                    by (nonlinear_arith);
                assert(-(k as int) * TRI_TERM_CAP - TRI_TERM_CAP == -((k + 1) as int)
                    * TRI_TERM_CAP) by (nonlinear_arith);
                assert(((k + 1) as int) * TRI_TERM_CAP <= TRIGRAM_CAP as int * TRI_TERM_CAP)
                    by (nonlinear_arith)
                    requires
                        0 <= k,
                        k + 1 <= TRIGRAM_CAP as int,
                        TRI_TERM_CAP > 0,
                ;
            }
            acc = acc + c;
            k += 1;
        }
        let whole = self.trigram_score_iter(l, &self.data.trigrams);
        proof {
            if precision > self.data.trigrams@.len() {
                assert(self.data.trigrams@.take(self.data.trigrams@.len() as int)
                    =~= self.data.trigrams@);
            }
            assert((cap as int) * TRI_TERM_CAP <= TRIGRAM_CAP as int * TRI_TERM_CAP)
                by (nonlinear_arith)
                requires
                    0 <= cap as int <= TRIGRAM_CAP as int,
                    TRI_TERM_CAP > 0,
            ;
        }
        full - whole + acc
    }

    /// The score of a layout, by full recomputation.
    pub fn score(&self, l: &FastLayout) -> (r: i128)
        requires
            self.wf(),
            l.wf(),
        ensures
            r == spec_score(*self, l.matrix@, l.pos_of@),
            -SCORE_CAP <= r <= SCORE_CAP,
    {
        let mut effort: i128 = 0;
        let mut i: usize = 0;
        while i < 30
            invariant
                self.wf(),
                l.wf(),
                i <= 30,
                effort == spec_effort_sum(*self, l.matrix@, i as int),
                0 <= effort <= (i as int) * EFFORT_TERM_CAP,
            decreases 30 - i,
        {
            let t = self.char_effort(l, i);
            proof {
                assert((i as int) * EFFORT_TERM_CAP + EFFORT_TERM_CAP == ((i + 1) as int)
                    * EFFORT_TERM_CAP) by (nonlinear_arith);
                assert(((i + 1) as int) * EFFORT_TERM_CAP <= 30 * EFFORT_TERM_CAP)
                    by (nonlinear_arith)
                    requires
                        0 <= i,
                        i + 1 <= 30,
                ;
            }
            effort = effort + t;
            i += 1;
        }
        let mut fspeed_usage: i128 = 0;
        let mut c: usize = 0;
        while c < 8
            invariant
                self.wf(),
                l.wf(),
                c <= 8,
                fspeed_usage == spec_usage_fspeed(*self, l.matrix@, c as int),
                0 <= fspeed_usage <= (c as int) * (COL_USAGE_CAP + COL_FSPEED_CAP),
            decreases 8 - c,
        {
            let u = self.col_usage(l, c);
            let f = self.col_fspeed(l, c);
            proof {
                assert((c as int) * (COL_USAGE_CAP + COL_FSPEED_CAP) + (COL_USAGE_CAP
                    + COL_FSPEED_CAP) == ((c + 1) as int) * (COL_USAGE_CAP + COL_FSPEED_CAP))
                    by (nonlinear_arith);
                assert(((c + 1) as int) * (COL_USAGE_CAP + COL_FSPEED_CAP) <= 8 * (COL_USAGE_CAP
                    + COL_FSPEED_CAP)) by (nonlinear_arith)
                    requires
                        0 <= c,
                        c + 1 <= 8,
                ;
            }
            fspeed_usage = fspeed_usage + u + f;
            c += 1;
        }
        let scissors = self.scissor_score(l);
        let trigram_score = self.trigram_score_iter(l, &self.data.trigrams);
        trigram_score - scissors - effort - fspeed_usage
    }
}

} // verus!
