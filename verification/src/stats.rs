//! Per-aspect statistics for display and comparison.
//!
//! These follow the generation path's breakdown: same-finger bigram masses
//! over the finger-speed pairs, the raw scissor mass, per-column finger
//! speeds, and the frequency mass of every trigram pattern.

use vstd::prelude::*;

use crate::fixed::FREQ_CAP;
use crate::fixed::TRIGRAM_CAP;
use crate::generate::LayoutGeneration;
use crate::language_data::TrigramEntry;
use crate::layout::FastLayout;
use crate::scorer::COL_FSPEED_CAP;
use crate::scorer::pair_both;
use crate::scorer::spec_col_fspeed;
use crate::scorer::spec_effort_sum;
use crate::scorer::spec_pair_both;
use crate::scorer::spec_scissor_slice;
use crate::scorer::spec_tri_pattern;
use crate::trigram_patterns::TrigramPattern;

verus! {

/// Which same-finger mass a bigram query asks for.
#[derive(Clone, Copy, Debug, PartialEq, Eq, Structural)]
pub enum BigramType {
    /// Plain bigrams.
    Sfb,
    /// Gap-one skipgrams.
    Dsfb,
    /// Gap-two skipgrams.
    Dsfb2,
    /// Gap-three skipgrams.
    Dsfb3,
}

/// The frequency mass of one trigram pattern over a list.
pub open spec fn spec_pattern_mass(
    pos: Seq<u8>,
    s: Seq<TrigramEntry>,
    pat: TrigramPattern,
) -> int
    decreases s.len(),
{
    if s.len() == 0 {
        0
    } else {
        spec_pattern_mass(pos, s.drop_last(), pat) + if spec_tri_pattern(pos, s.last()) == pat {
            s.last().freq as int
        } else {
            0
        }
    }
}

/// The same-finger mass of the first `n` finger-speed pairs over a table.
pub open spec fn spec_bigram_mass(g: LayoutGeneration, m: Seq<u8>, table: Seq<i64>, n: int) -> int
    decreases n,
{
    if n <= 0 {
        0
    } else {
        let (p, d) = g.fspeed_vals@[n - 1];
        spec_bigram_mass(g, m, table, n - 1) + spec_pair_both(
            table,
            m[p.0 as int] as int,
            m[p.1 as int] as int,
        )
    }
}

/// The table a bigram query reads.
pub open spec fn spec_bigram_table(g: LayoutGeneration, t: BigramType) -> Seq<i64> {
    match t {
        BigramType::Sfb => g.data.bigrams@,
        BigramType::Dsfb => g.data.skipgrams@,
        BigramType::Dsfb2 => g.data.skipgrams2@,
        BigramType::Dsfb3 => g.data.skipgrams3@,
    }
}

/// Frequency mass per trigram pattern.
pub struct TrigramStats {
    pub alternates: i128,
    pub alternates_sfs: i128,
    pub inrolls: i128,
    pub outrolls: i128,
    pub onehands: i128,
    pub redirects: i128,
    pub bad_redirects: i128,
    pub sfbs: i128,
    pub bad_sfbs: i128,
    pub sfts: i128,
    pub other: i128,
    pub invalid: i128,
}

/// Whether the stats equal the pattern masses of a trigram prefix.
pub open spec fn trigram_stats_ok(pos: Seq<u8>, s: Seq<TrigramEntry>, t: TrigramStats) -> bool {
    &&& t.alternates == spec_pattern_mass(pos, s, TrigramPattern::Alternate)
    &&& t.alternates_sfs == spec_pattern_mass(pos, s, TrigramPattern::AlternateSfs)
    &&& t.inrolls == spec_pattern_mass(pos, s, TrigramPattern::Inroll)
    &&& t.outrolls == spec_pattern_mass(pos, s, TrigramPattern::Outroll)
    &&& t.onehands == spec_pattern_mass(pos, s, TrigramPattern::Onehand)
    &&& t.redirects == spec_pattern_mass(pos, s, TrigramPattern::Redirect)
    &&& t.bad_redirects == spec_pattern_mass(pos, s, TrigramPattern::BadRedirect)
    &&& t.sfbs == spec_pattern_mass(pos, s, TrigramPattern::Sfb)
    &&& t.bad_sfbs == spec_pattern_mass(pos, s, TrigramPattern::BadSfb)
    &&& t.sfts == spec_pattern_mass(pos, s, TrigramPattern::Sft)
    &&& t.other == spec_pattern_mass(pos, s, TrigramPattern::Other)
    &&& t.invalid == spec_pattern_mass(pos, s, TrigramPattern::Invalid)
}

/// A pattern mass is bounded by the list length.
pub proof fn lemma_pattern_mass_bound(pos: Seq<u8>, s: Seq<TrigramEntry>, pat: TrigramPattern)
    requires
        forall|k: int| 0 <= k < s.len() ==> 0 <= (#[trigger] s[k]).freq <= FREQ_CAP,
    ensures
        0 <= spec_pattern_mass(pos, s, pat) <= (s.len() as int) * FREQ_CAP,
    decreases s.len(),
{
    if s.len() > 0 {
        assert forall|k: int| 0 <= k < s.drop_last().len() implies 0 <= (
        #[trigger] s.drop_last()[k]).freq <= FREQ_CAP by {
            assert(s.drop_last()[k] == s[k]);
        }
        lemma_pattern_mass_bound(pos, s.drop_last(), pat);
        assert(s.last() == s[s.len() - 1]);
        let n = s.len() as int;
        assert((n - 1) * FREQ_CAP + FREQ_CAP == n * FREQ_CAP) by (nonlinear_arith);
    }
}

/// Aspect statistics of one layout.
pub struct LayoutStats {
    pub sfb: i128,
    pub dsfb: i128,
    pub scissors: i128,
    pub fspeed: i128,
    pub finger_speed: Vec<i128>,
    pub trigram_stats: TrigramStats,
}

impl LayoutGeneration {
    /// Classify the `trigram_precision` most frequent trigrams and sum the
    /// frequency mass of every pattern.
    pub fn trigram_stats(&self, l: &FastLayout, trigram_precision: usize) -> (r: TrigramStats)
        requires
            self.wf(),
            l.wf(),
        ensures
            trigram_stats_ok(
                l.pos_of@,
                if trigram_precision <= self.data.trigrams@.len() {
                    self.data.trigrams@.take(trigram_precision as int)
                } else {
                    self.data.trigrams@
                },
                r,
            ),
    {
        let cap = if trigram_precision <= self.data.trigrams.len() {
            trigram_precision
        } else {
            self.data.trigrams.len()
        };
        let mut r = TrigramStats {
            alternates: 0,
            alternates_sfs: 0,
            inrolls: 0,
            outrolls: 0,
            onehands: 0,
            redirects: 0,
            bad_redirects: 0,
            sfbs: 0,
            bad_sfbs: 0,
            sfts: 0,
            other: 0,
            invalid: 0,
        };
        let mut k: usize = 0;
        while k < cap
            invariant
                self.wf(),
                l.wf(),
                cap <= self.data.trigrams@.len(),
                self.data.trigrams@.len() <= TRIGRAM_CAP,
                k <= cap,
                trigram_stats_ok(l.pos_of@, self.data.trigrams@.take(k as int), r),
                0 <= r.alternates <= (k as int) * FREQ_CAP,
                0 <= r.alternates_sfs <= (k as int) * FREQ_CAP,
                0 <= r.inrolls <= (k as int) * FREQ_CAP,
                0 <= r.outrolls <= (k as int) * FREQ_CAP,
                0 <= r.onehands <= (k as int) * FREQ_CAP,
                0 <= r.redirects <= (k as int) * FREQ_CAP,
                0 <= r.bad_redirects <= (k as int) * FREQ_CAP,
                0 <= r.sfbs <= (k as int) * FREQ_CAP,
                0 <= r.bad_sfbs <= (k as int) * FREQ_CAP,
                0 <= r.sfts <= (k as int) * FREQ_CAP,
                0 <= r.other <= (k as int) * FREQ_CAP,
                0 <= r.invalid <= (k as int) * FREQ_CAP,
            decreases cap - k,
        {
            let e = self.data.trigrams[k];
            let p1 = l.position_of(e.c0);
            let p2 = l.position_of(e.c1);
            let p3 = l.position_of(e.c2);
            let pat = crate::trigram_patterns::classify(p1, p2, p3);
            proof {
                assert(self.data.trigrams@.take(k + 1).drop_last() =~= self.data.trigrams@.take(
                    k as int,
                ));
                assert(self.data.trigrams@.take(k + 1).last() == self.data.trigrams@[k as int]);
                assert(pat == spec_tri_pattern(l.pos_of@, e));
                assert((k as int) * FREQ_CAP + FREQ_CAP == ((k + 1) as int) * FREQ_CAP)
                    by (nonlinear_arith);
                assert(((k + 1) as int) * FREQ_CAP <= TRIGRAM_CAP as int * FREQ_CAP)
                    by (nonlinear_arith)
                    requires
                        0 <= k,
                        k + 1 <= TRIGRAM_CAP as int,
                        FREQ_CAP > 0,
                ;
            }
            let f = e.freq as i128;
            match pat {
                TrigramPattern::Alternate => r.alternates = r.alternates + f,
                TrigramPattern::AlternateSfs => r.alternates_sfs = r.alternates_sfs + f,
                TrigramPattern::Inroll => r.inrolls = r.inrolls + f,
                TrigramPattern::Outroll => r.outrolls = r.outrolls + f,
                TrigramPattern::Onehand => r.onehands = r.onehands + f,
                TrigramPattern::Redirect => r.redirects = r.redirects + f,
                TrigramPattern::BadRedirect => r.bad_redirects = r.bad_redirects + f,
                TrigramPattern::Sfb => r.sfbs = r.sfbs + f,
                TrigramPattern::BadSfb => r.bad_sfbs = r.bad_sfbs + f,
                TrigramPattern::Sft => r.sfts = r.sfts + f,
                TrigramPattern::Other => r.other = r.other + f,
                TrigramPattern::Invalid => r.invalid = r.invalid + f,
            }
            k += 1;
        }
        proof {
            if trigram_precision > self.data.trigrams@.len() {
                assert(self.data.trigrams@.take(self.data.trigrams@.len() as int)
                    =~= self.data.trigrams@);
            }
        }
        r
    }

    /// The same-finger mass of the chosen n-gram table over all finger-speed
    /// pairs.
    pub fn bigram_percent(&self, l: &FastLayout, bigram_type: BigramType) -> (r: i128)
        requires
            self.wf(),
            l.wf(),
        ensures
            r == spec_bigram_mass(*self, l.matrix@, spec_bigram_table(*self, bigram_type), 48),
            0 <= r <= 96 * FREQ_CAP,
    {
        let table = match bigram_type {
            BigramType::Sfb => &self.data.bigrams,
            BigramType::Dsfb => &self.data.skipgrams,
            BigramType::Dsfb2 => &self.data.skipgrams2,
            BigramType::Dsfb3 => &self.data.skipgrams3,
        };
        let mut acc: i128 = 0;
        let mut k: usize = 0;
        while k < 48
            invariant
                self.wf(),
                l.wf(),
                k <= 48,
                table@ == spec_bigram_table(*self, bigram_type),
                table@.len() == 3600,
                forall|i: int| 0 <= i < 3600 ==> 0 <= (#[trigger] table@[i]) <= FREQ_CAP,
                acc == spec_bigram_mass(*self, l.matrix@, table@, k as int),
                0 <= acc <= (k as int) * 2 * FREQ_CAP,
            decreases 48 - k,
        {
            let (p, _d) = self.fspeed_vals[k];
            let a = l.c(p.0);
            let b = l.c(p.1);
            let m = pair_both(table, a, b);
            acc = acc + (m as i128);
            k += 1;
        }
        acc
    }

    /// The weighted finger speed of every column.
    pub fn finger_speed(&self, l: &FastLayout) -> (r: Vec<i128>)
        requires
            self.wf(),
            l.wf(),
        ensures
            r@.len() == 8,
            forall|c: int| 0 <= c < 8 ==> (#[trigger] r@[c]) == spec_col_fspeed(*self, l.matrix@, c),
    {
        let mut r: Vec<i128> = Vec::new();
        let mut c: usize = 0;
        while c < 8
            invariant
                self.wf(),
                l.wf(),
                c <= 8,
                r@.len() == c,
                forall|t: int|
                    0 <= t < c ==> (#[trigger] r@[t]) == spec_col_fspeed(*self, l.matrix@, t),
            decreases 8 - c,
        {
            let f = self.col_fspeed(l, c);
            r.push(f);
            c += 1;
        }
        r
    }

    /// The effort of the whole layout.
    pub fn effort(&self, l: &FastLayout) -> (r: i128)
        requires
            self.wf(),
            l.wf(),
        ensures
            r == spec_effort_sum(*self, l.matrix@, 30),
    {
        let mut effort: i128 = 0;
        let mut i: usize = 0;
        while i < 30
            invariant
                self.wf(),
                l.wf(),
                i <= 30,
                effort == spec_effort_sum(*self, l.matrix@, i as int),
                0 <= effort <= (i as int) * crate::scorer::EFFORT_TERM_CAP,
            decreases 30 - i,
        {
            let t = self.char_effort(l, i);
            proof {
                assert((i as int) * crate::scorer::EFFORT_TERM_CAP + crate::scorer::EFFORT_TERM_CAP
                    == ((i + 1) as int) * crate::scorer::EFFORT_TERM_CAP) by (nonlinear_arith);
                assert(((i + 1) as int) * crate::scorer::EFFORT_TERM_CAP <= 30
                    * crate::scorer::EFFORT_TERM_CAP) by (nonlinear_arith)
                    requires
                        0 <= i,
                        i + 1 <= 30,
                ;
            }
            effort = effort + t;
            i += 1;
        }
        effort
    }

    /// All display statistics of one layout.
    pub fn get_layout_stats(&self, l: &FastLayout) -> (r: LayoutStats)
        requires
            self.wf(),
            l.wf(),
        ensures
            r.sfb == spec_bigram_mass(*self, l.matrix@, self.data.bigrams@, 48),
            r.dsfb == spec_bigram_mass(*self, l.matrix@, self.data.skipgrams@, 48),
            r.scissors == spec_scissor_slice(*self, l.matrix@, 15),
            r.fspeed == crate::cache::spec_fspeed_sum(*self, l.matrix@, 8),
            r.finger_speed@.len() == 8,
            forall|c: int|
                0 <= c < 8 ==> (#[trigger] r.finger_speed@[c]) == spec_col_fspeed(
                    *self,
                    l.matrix@,
                    c,
                ),
            trigram_stats_ok(l.pos_of@, self.data.trigrams@, r.trigram_stats),
    {
        let sfb = self.bigram_percent(l, BigramType::Sfb);
        let dsfb = self.bigram_percent(l, BigramType::Dsfb);
        let scissors = self.scissor_percent(l);
        let finger_speed = self.finger_speed(l);
        let mut fspeed: i128 = 0;
        let mut c: usize = 0;
        while c < 8
            invariant
                self.wf(),
                l.wf(),
                c <= 8,
                fspeed == crate::cache::spec_fspeed_sum(*self, l.matrix@, c as int),
                0 <= fspeed <= (c as int) * COL_FSPEED_CAP,
            decreases 8 - c,
        {
            let f = self.col_fspeed(l, c);
            proof {
                assert((c as int) * COL_FSPEED_CAP + COL_FSPEED_CAP == ((c + 1) as int)
                    * COL_FSPEED_CAP) by (nonlinear_arith);
                assert(((c + 1) as int) * COL_FSPEED_CAP <= 8 * COL_FSPEED_CAP)
                    by (nonlinear_arith)
                    requires
                        0 <= c,
                        c + 1 <= 8,
                ;
            }
            fspeed = fspeed + f;
            c += 1;
        }
        let trigram_stats = self.trigram_stats(l, self.data.trigrams.len());
        proof {
            assert(self.data.trigrams@.take(self.data.trigrams@.len() as int)
                =~= self.data.trigrams@);
        }
        LayoutStats { sfb, dsfb, scissors, fspeed, finger_speed, trigram_stats }
    }
}

} // verus!
