//! The hill-climbing optimizer and the generation drivers.
//!
//! `optimize_cached` repeatedly takes the best-scoring candidate swap until no
//! swap beats the best score seen; it never ends below the score it started
//! from, and it terminates because the integer score strictly climbs and is
//! bounded. `optimize_cols` tries every permutation of the six non-index
//! columns, on the board as it stands and with its rows exchanged, and keeps
//! the best board enumerated. `optimize` alternates the two until a column
//! pass stops improving on the preceding climb. The generators seed a layout
//! from a deterministic generator and run the optimizer; the pinned variants
//! never move a pinned key.

use vstd::prelude::*;

use vstd::multiset::Multiset;

use crate::cache::LayoutCache;
use crate::cache::cache_ok;
use crate::cache::lemma_cache_total;
use crate::generate::LayoutGeneration;
use crate::geometry::PosPair;
use crate::geometry::has_pair;
use crate::geometry::possible_swaps;
use crate::geometry::spec_lex_before;
use crate::layout::FastLayout;
use crate::rng::Lcg;
use crate::scorer::SCORE_CAP;
use crate::scorer::lemma_score_bound;
use crate::scorer::matrix_ok;
use crate::scorer::spec_score;

verus! {

/// A score lower than any real layout score; the climb starts from it.
pub const SCORE_SENTINEL: i128 = -4_000_000_000_000_000_000;

/// A candidate swap list: distinct on-board positions in every pair.
pub open spec fn swaps_ok(s: Seq<PosPair>) -> bool {
    forall|k: int|
        0 <= k < s.len() ==> (#[trigger] s[k]).0 < 30 && s[k].1 < 30 && s[k].0 != s[k].1
}

/// The matrix after exchanging the keys of a pair.
pub open spec fn spec_swapped_matrix(m: Seq<u8>, p: PosPair) -> Seq<u8> {
    m.update(p.0 as int, m[p.1 as int]).update(p.1 as int, m[p.0 as int])
}

/// The reverse index after exchanging the keys of a pair.
pub open spec fn spec_swapped_pos(m: Seq<u8>, pos: Seq<u8>, p: PosPair) -> Seq<u8> {
    pos.update(m[p.0 as int] as int, p.1 as u8).update(m[p.1 as int] as int, p.0 as u8)
}

/// The score a layout would have after one swap.
pub open spec fn spec_swap_score(g: LayoutGeneration, m: Seq<u8>, pos: Seq<u8>, p: PosPair) -> int {
    spec_score(g, spec_swapped_matrix(m, p), spec_swapped_pos(m, pos, p))
}

/// The starting score of a climb: the given one, or the sentinel.
pub open spec fn init_of(o: Option<i128>) -> int {
    match o {
        Some(s) => s as int,
        None => SCORE_SENTINEL as int,
    }
}

/// Swapping the same pair twice restores both views.
pub proof fn lemma_swap_restores(m1: Seq<u8>, p1: Seq<u8>, p: PosPair)
    requires
        matrix_ok(m1),
        p1.len() == 60,
        p.0 < 30,
        p.1 < 30,
        p.0 != p.1,
        p1[m1[p.0 as int] as int] == p.0 as u8,
        p1[m1[p.1 as int] as int] == p.1 as u8,
    ensures
        spec_swapped_matrix(spec_swapped_matrix(m1, p), p) == m1,
        spec_swapped_pos(spec_swapped_matrix(m1, p), spec_swapped_pos(m1, p1, p), p) == p1,
{
    let m2 = spec_swapped_matrix(m1, p);
    let p2 = spec_swapped_pos(m1, p1, p);
    assert(m1[p.0 as int] != m1[p.1 as int]);
    assert(spec_swapped_matrix(m2, p) =~= m1);
    assert(spec_swapped_pos(m2, p2, p) =~= p1);
}

/// A swapped matrix is still sound.
pub proof fn lemma_swapped_matrix_ok(m: Seq<u8>, p: PosPair)
    requires
        matrix_ok(m),
        p.0 < 30,
        p.1 < 30,
    ensures
        matrix_ok(spec_swapped_matrix(m, p)),
{
}

/// The `j`-th candidate is the first that reaches the score `s`.
pub open spec fn spec_first_best_at(
    g: LayoutGeneration,
    m: Seq<u8>,
    pos: Seq<u8>,
    swaps: Seq<PosPair>,
    j: int,
    s: int,
) -> bool {
    &&& 0 <= j < swaps.len()
    &&& spec_swap_score(g, m, pos, swaps[j]) == s
    &&& forall|k: int| 0 <= k < j ==> spec_swap_score(g, m, pos, swaps[k]) < s
}

/// Some candidate swap would restore the score `s0`.
pub open spec fn spec_can_restore(
    g: LayoutGeneration,
    m: Seq<u8>,
    pos: Seq<u8>,
    swaps: Seq<PosPair>,
    s0: int,
) -> bool {
    exists|j: int|
        0 <= j < swaps.len() && #[trigger] spec_swap_score(g, m, pos, swaps[j]) == s0
}

/// A ghost record of a column-permutation run: every board state the run
/// scores, and the board it leaves behind.
pub struct ColRun {
    pub states: Seq<(Seq<u8>, Seq<u8>)>,
    pub m: Seq<u8>,
    pub pos: Seq<u8>,
}

/// The top-row position of the `i`-th non-index column.
pub open spec fn spec_cols(i: int) -> usize {
    if i == 0 { 0 }
    else if i == 1 { 1 }
    else if i == 2 { 2 }
    else if i == 3 { 7 }
    else if i == 4 { 8 }
    else { 9 }
}

/// The views after exchanging two whole columns, key row by key row.
pub open spec fn spec_col_swap(m: Seq<u8>, pos: Seq<u8>, c1: usize, c2: usize) -> (Seq<u8>, Seq<
    u8,
>) {
    let p1 = PosPair(c1, c2);
    let p2 = PosPair((c1 + 10) as usize, (c2 + 10) as usize);
    let p3 = PosPair((c1 + 20) as usize, (c2 + 20) as usize);
    let m1 = spec_swapped_matrix(m, p1);
    let q1 = spec_swapped_pos(m, pos, p1);
    let m2 = spec_swapped_matrix(m1, p2);
    let q2 = spec_swapped_pos(m1, q1, p2);
    let m3 = spec_swapped_matrix(m2, p3);
    let q3 = spec_swapped_pos(m2, q2, p3);
    (m3, q3)
}

/// The boards a Heap's-style enumeration of the first `k` non-index columns
/// visits, starting from the given views: at the base every board is scored
/// once; otherwise `k` rounds of a sub-run followed by a column swap.
pub open spec fn spec_col_perm_run(m: Seq<u8>, pos: Seq<u8>, k: int) -> ColRun
    decreases k, 1int, 0int,
{
    if k <= 1 {
        ColRun { states: seq![(m, pos)], m, pos }
    } else {
        spec_col_perm_loop(m, pos, k, 0)
    }
}

/// The rounds of one Heap's level, from round `i` on.
pub open spec fn spec_col_perm_loop(m: Seq<u8>, pos: Seq<u8>, k: int, i: int) -> ColRun
    decreases k, 0int, (if i <= k { k - i } else { 0int }),
{
    if i >= k || k <= 1 {
        ColRun { states: Seq::empty(), m, pos }
    } else {
        let sub = spec_col_perm_run(m, pos, k - 1);
        let c1 = if k % 2 == 0 { spec_cols(i) } else { spec_cols(0) };
        let c2 = spec_cols(k - 1);
        let next = if c1 == c2 { (sub.m, sub.pos) } else { spec_col_swap(sub.m, sub.pos, c1, c2) };
        let rest = spec_col_perm_loop(next.0, next.1, k, i + 1);
        ColRun { states: sub.states + rest.states, m: rest.m, pos: rest.pos }
    }
}

/// The views after exchanging the top and bottom rows, position by position.
pub open spec fn spec_rows_swapped_upto(m: Seq<u8>, pos: Seq<u8>, i: int) -> (Seq<u8>, Seq<u8>)
    decreases i,
{
    if i <= 0 {
        (m, pos)
    } else {
        let prev = spec_rows_swapped_upto(m, pos, i - 1);
        let p = PosPair((i - 1) as usize, (i + 19) as usize);
        (spec_swapped_matrix(prev.0, p), spec_swapped_pos(prev.0, prev.1, p))
    }
}

/// Every board a full column pass scores: the enumeration of the board as it
/// stands, then the enumeration of the board it left with its rows exchanged.
pub open spec fn spec_col_pass_states(m: Seq<u8>, pos: Seq<u8>) -> Seq<(Seq<u8>, Seq<u8>)> {
    let run1 = spec_col_perm_run(m, pos, 6);
    let start2 = spec_rows_swapped_upto(run1.m, run1.pos, 10);
    run1.states + spec_col_perm_run(start2.0, start2.1, 6).states
}

impl LayoutGeneration {
    /// The candidate swap with the highest would-be score, if any beats the
    /// running best; ties go to the first candidate found.
    #[verifier::rlimit(60)]
    pub fn best_swap_cached(
        &self,
        l: &mut FastLayout,
        cache: &LayoutCache,
        current_best_score: Option<i128>,
        possible_swaps: &Vec<PosPair>,
    ) -> (r: (Option<PosPair>, i128))
        requires
            self.wf(),
            old(l).wf(),
            cache_ok(*self, *old(l), *cache),
            swaps_ok(possible_swaps@),
        ensures
            final(l).wf(),
            final(l).matrix@ == old(l).matrix@,
            final(l).pos_of@ == old(l).pos_of@,
            final(l).score == old(l).score,
            r.0 is Some ==> r.1 > init_of(current_best_score) && -SCORE_CAP <= r.1 <= SCORE_CAP,
            r.0 is None ==> r.1 == init_of(current_best_score),
            forall|k: int|
                0 <= k < possible_swaps@.len() ==> spec_swap_score(
                    *self,
                    final(l).matrix@,
                    final(l).pos_of@,
                    #[trigger] possible_swaps@[k],
                ) <= r.1,
            r.0 matches Some(p) ==> exists|j: int|
                #[trigger] spec_first_best_at(
                    *self,
                    final(l).matrix@,
                    final(l).pos_of@,
                    possible_swaps@,
                    j,
                    r.1 as int,
                ) && possible_swaps@[j] == p,
    {
        let mut best_score: i128 = match current_best_score {
            Some(s) => s,
            None => SCORE_SENTINEL,
        };
        let ghost init = best_score as int;
        let mut best_swap: Option<PosPair> = None;
        let ghost mut best_j: int = 0;
        let mut k: usize = 0;
        while k < possible_swaps.len()
            invariant
                self.wf(),
                l.wf(),
                cache_ok(*self, *l, *cache),
                swaps_ok(possible_swaps@),
                l.matrix@ == old(l).matrix@,
                l.pos_of@ == old(l).pos_of@,
                l.score == old(l).score,
                k <= possible_swaps@.len(),
                forall|t: int|
                    0 <= t < k ==> spec_swap_score(
                        *self,
                        l.matrix@,
                        l.pos_of@,
                        #[trigger] possible_swaps@[t],
                    ) <= best_score,
                match best_swap {
                    Some(p) => {
                        &&& best_score > init
                        &&& -SCORE_CAP <= best_score <= SCORE_CAP
                        &&& spec_first_best_at(
                            *self,
                            l.matrix@,
                            l.pos_of@,
                            possible_swaps@,
                            best_j,
                            best_score as int,
                        )
                        &&& best_j < k
                        &&& possible_swaps@[best_j] == p
                    },
                    None => best_score == init,
                },
            decreases possible_swaps@.len() - k,
        {
            let swap = possible_swaps[k];
            let s = self.score_swap_cached(l, &swap, cache);
            if s > best_score {
                best_score = s;
                best_swap = Some(swap);
                proof {
                    best_j = k as int;
                }
            }
            k += 1;
        }
        (best_swap, best_score)
    }

    /// Climb: accept the best candidate swap as long as one improves on the
    /// best score seen. The final layout scores at least what the initial one
    /// did, no candidate improves on it, and the cache stays consistent.
    #[verifier::rlimit(100)]
    pub fn optimize_cached(
        &self,
        l: &mut FastLayout,
        cache: &mut LayoutCache,
        possible_swaps: &Vec<PosPair>,
    ) -> (r: i128)
        requires
            self.wf(),
            old(l).wf(),
            cache_ok(*self, *old(l), *old(cache)),
            swaps_ok(possible_swaps@),
        ensures
            final(l).wf(),
            cache_ok(*self, *final(l), *final(cache)),
            final(l).matrix@.to_multiset() == old(l).matrix@.to_multiset(),
            final(l).score == old(l).score,
            forall|p: int|
                0 <= p < 30 && (forall|k: int|
                    0 <= k < possible_swaps@.len() ==> ((#[trigger] possible_swaps@[k]).0 as int
                        != p && possible_swaps@[k].1 as int != p)) ==> final(l).matrix@[p] == old(
                    l,
                ).matrix@[p],
            possible_swaps@.len() == 0 ==> final(l).matrix@ == old(l).matrix@ && final(l).pos_of@
                == old(l).pos_of@ && r == SCORE_SENTINEL,
            possible_swaps@.len() > 0 ==> {
                &&& r == spec_score(*self, final(l).matrix@, final(l).pos_of@)
                &&& r >= spec_score(*self, old(l).matrix@, old(l).pos_of@)
                &&& -SCORE_CAP <= r <= SCORE_CAP
                &&& forall|k: int|
                    0 <= k < possible_swaps@.len() ==> spec_swap_score(
                        *self,
                        final(l).matrix@,
                        final(l).pos_of@,
                        #[trigger] possible_swaps@[k],
                    ) <= r
                &&& forall|k: int|
                    0 <= k < possible_swaps@.len() ==> spec_swap_score(
                        *self,
                        old(l).matrix@,
                        old(l).pos_of@,
                        #[trigger] possible_swaps@[k],
                    ) <= r
            },
    {
        let ghost s0 = spec_score(*self, old(l).matrix@, old(l).pos_of@);
        let mut current_best: i128 = SCORE_SENTINEL;
        let mut done = false;
        while !done
            invariant
                self.wf(),
                l.wf(),
                cache_ok(*self, *l, *cache),
                swaps_ok(possible_swaps@),
                s0 == spec_score(*self, old(l).matrix@, old(l).pos_of@),
                l.matrix@.to_multiset() == old(l).matrix@.to_multiset(),
                l.score == old(l).score,
                current_best <= SCORE_CAP,
                forall|p: int|
                    0 <= p < 30 && (forall|k: int|
                        0 <= k < possible_swaps@.len() ==> ((#[trigger] possible_swaps@[k]).0 as int
                            != p && possible_swaps@[k].1 as int != p)) ==> l.matrix@[p] == old(
                        l,
                    ).matrix@[p],
                (current_best == SCORE_SENTINEL && l.matrix@ == old(l).matrix@ && l.pos_of@ == old(
                    l,
                ).pos_of@) || (current_best == spec_score(*self, l.matrix@, l.pos_of@) && -SCORE_CAP
                    <= current_best <= SCORE_CAP && (current_best >= s0 || spec_can_restore(
                    *self,
                    l.matrix@,
                    l.pos_of@,
                    possible_swaps@,
                    s0,
                ))),
                current_best != SCORE_SENTINEL ==> (forall|k: int|
                    0 <= k < possible_swaps@.len() ==> spec_swap_score(
                        *self,
                        old(l).matrix@,
                        old(l).pos_of@,
                        #[trigger] possible_swaps@[k],
                    ) <= current_best),
                done ==> (forall|k: int|
                    0 <= k < possible_swaps@.len() ==> spec_swap_score(
                        *self,
                        l.matrix@,
                        l.pos_of@,
                        #[trigger] possible_swaps@[k],
                    ) <= current_best),
                possible_swaps@.len() == 0 ==> (current_best == SCORE_SENTINEL && l.matrix@ == old(
                    l,
                ).matrix@ && l.pos_of@ == old(l).pos_of@),
            decreases SCORE_CAP - current_best, (if done {
                0int
            } else {
                1int
            }),
        {
            let (bs, ns) = self.best_swap_cached(l, cache, Some(current_best), possible_swaps);
            match bs {
                Some(p) => {
                    let ghost m1 = l.matrix@;
                    let ghost p1 = l.pos_of@;
                    proof {
                        let j = choose|j: int|
                            spec_first_best_at(
                                *self,
                                m1,
                                p1,
                                possible_swaps@,
                                j,
                                ns as int,
                            ) && possible_swaps@[j] == p;
                        assert(possible_swaps@[j] == p);
                    }
                    self.accept_swap(l, &p, cache);
                    proof {
                        let m2 = l.matrix@;
                        let p2 = l.pos_of@;
                        assert(m2 == spec_swapped_matrix(m1, p));
                        assert(p2 == spec_swapped_pos(m1, p1, p));
                        assert(spec_score(*self, m2, p2) == ns);
                        if current_best == SCORE_SENTINEL && m1 == old(l).matrix@ && p1 == old(
                            l,
                        ).pos_of@ {
                            // swapping the same pair again restores the start
                            let j = choose|j: int|
                                spec_first_best_at(
                                    *self,
                                    m1,
                                    p1,
                                    possible_swaps@,
                                    j,
                                    ns as int,
                                ) && possible_swaps@[j] == p;
                            assert(p1[m1[p.0 as int] as int] == p.0 as u8);
                            assert(p1[m1[p.1 as int] as int] == p.1 as u8);
                            lemma_swap_restores(m1, p1, p);
                            assert(spec_swap_score(*self, m2, p2, p) == spec_score(
                                *self,
                                m1,
                                p1,
                            ));
                            assert(spec_score(*self, m1, p1) == s0);
                            assert(possible_swaps@[j] == p);
                            assert(spec_swap_score(*self, m2, p2, possible_swaps@[j]) == s0);
                            assert(spec_can_restore(*self, m2, p2, possible_swaps@, s0));
                        } else if current_best >= s0 {
                            assert(ns > current_best);
                        } else {
                            let j = choose|j: int|
                                0 <= j < possible_swaps@.len() && #[trigger] spec_swap_score(
                                    *self,
                                    m1,
                                    p1,
                                    possible_swaps@[j],
                                ) == s0;
                            assert(spec_swap_score(*self, m1, p1, possible_swaps@[j]) <= ns);
                        }
                    }
                    current_best = ns;
                },
                None => {
                    done = true;
                },
            }
        }
        proof {
            if possible_swaps@.len() > 0 {
                if current_best == SCORE_SENTINEL {
                    let p = possible_swaps@[0];
                    lemma_swapped_matrix_ok(l.matrix@, p);
                    lemma_score_bound(
                        *self,
                        spec_swapped_matrix(l.matrix@, p),
                        spec_swapped_pos(l.matrix@, l.pos_of@, p),
                    );
                    assert(spec_swap_score(*self, l.matrix@, l.pos_of@, p) <= current_best);
                    assert(false);
                }
                if !(current_best >= s0) {
                    let j = choose|j: int|
                        0 <= j < possible_swaps@.len() && #[trigger] spec_swap_score(
                            *self,
                            l.matrix@,
                            l.pos_of@,
                            possible_swaps@[j],
                        ) == s0;
                    assert(spec_swap_score(*self, l.matrix@, l.pos_of@, possible_swaps@[j])
                        <= current_best);
                }
            }
        }
        current_best
    }

    /// Score a candidate swap by full recomputation, the reference the cached
    /// path is proved against: swap, score, swap back.
    pub fn score_swap(&self, l: &mut FastLayout, swap: &PosPair) -> (r: i128)
        requires
            self.wf(),
            old(l).wf(),
            swap.0 < 30,
            swap.1 < 30,
            swap.0 != swap.1,
        ensures
            final(l).wf(),
            final(l).matrix@ == old(l).matrix@,
            final(l).pos_of@ == old(l).pos_of@,
            final(l).score == old(l).score,
            r == spec_swap_score(*self, old(l).matrix@, old(l).pos_of@, *swap),
            -SCORE_CAP <= r <= SCORE_CAP,
    {
        let ghost m1 = l.matrix@;
        let ghost p1 = l.pos_of@;
        proof {
            assert(p1[m1[swap.0 as int] as int] == swap.0 as u8);
            assert(p1[m1[swap.1 as int] as int] == swap.1 as u8);
        }
        l.swap_pair(swap);
        let s = self.score(l);
        l.swap_pair(swap);
        proof {
            lemma_swap_restores(m1, p1, *swap);
        }
        s
    }

    /// The best candidate swap by full recomputation; same contract as the
    /// cached variant.
    #[verifier::rlimit(60)]
    pub fn best_swap(
        &self,
        l: &mut FastLayout,
        current_best_score: Option<i128>,
        possible_swaps: &Vec<PosPair>,
    ) -> (r: (Option<PosPair>, i128))
        requires
            self.wf(),
            old(l).wf(),
            swaps_ok(possible_swaps@),
        ensures
            final(l).wf(),
            final(l).matrix@ == old(l).matrix@,
            final(l).pos_of@ == old(l).pos_of@,
            final(l).score == old(l).score,
            r.0 is Some ==> r.1 > init_of(current_best_score) && -SCORE_CAP <= r.1 <= SCORE_CAP,
            r.0 is None ==> r.1 == init_of(current_best_score),
            forall|k: int|
                0 <= k < possible_swaps@.len() ==> spec_swap_score(
                    *self,
                    final(l).matrix@,
                    final(l).pos_of@,
                    #[trigger] possible_swaps@[k],
                ) <= r.1,
            r.0 matches Some(p) ==> exists|j: int|
                #[trigger] spec_first_best_at(
                    *self,
                    final(l).matrix@,
                    final(l).pos_of@,
                    possible_swaps@,
                    j,
                    r.1 as int,
                ) && possible_swaps@[j] == p,
    {
        let mut best_score: i128 = match current_best_score {
            Some(s) => s,
            None => SCORE_SENTINEL,
        };
        let ghost init = best_score as int;
        let mut best_swap: Option<PosPair> = None;
        let ghost mut best_j: int = 0;
        let mut k: usize = 0;
        while k < possible_swaps.len()
            invariant
                self.wf(),
                l.wf(),
                swaps_ok(possible_swaps@),
                l.matrix@ == old(l).matrix@,
                l.pos_of@ == old(l).pos_of@,
                l.score == old(l).score,
                k <= possible_swaps@.len(),
                forall|t: int|
                    0 <= t < k ==> spec_swap_score(
                        *self,
                        l.matrix@,
                        l.pos_of@,
                        #[trigger] possible_swaps@[t],
                    ) <= best_score,
                match best_swap {
                    Some(p) => {
                        &&& best_score > init
                        &&& -SCORE_CAP <= best_score <= SCORE_CAP
                        &&& spec_first_best_at(
                            *self,
                            l.matrix@,
                            l.pos_of@,
                            possible_swaps@,
                            best_j,
                            best_score as int,
                        )
                        &&& best_j < k
                        &&& possible_swaps@[best_j] == p
                    },
                    None => best_score == init,
                },
            decreases possible_swaps@.len() - k,
        {
            let swap = possible_swaps[k];
            let s = self.score_swap(l, &swap);
            if s > best_score {
                best_score = s;
                best_swap = Some(swap);
                proof {
                    best_j = k as int;
                }
            }
            k += 1;
        }
        (best_swap, best_score)
    }

    /// Climb without the cache, scoring every candidate from scratch: the
    /// slow reference for the cached climb, with the same guarantees.
    #[verifier::rlimit(100)]
    pub fn optimize_normal_no_cols(&self, layout: FastLayout, possible_swaps: &Vec<PosPair>) -> (r:
        FastLayout)
        requires
            self.wf(),
            layout.wf(),
            swaps_ok(possible_swaps@),
        ensures
            r.wf(),
            r.matrix@.to_multiset() == layout.matrix@.to_multiset(),
            r.score == layout.score,
            possible_swaps@.len() > 0 ==> {
                &&& spec_score(*self, r.matrix@, r.pos_of@) >= spec_score(
                    *self,
                    layout.matrix@,
                    layout.pos_of@,
                )
                &&& forall|k: int|
                    0 <= k < possible_swaps@.len() ==> spec_swap_score(
                        *self,
                        r.matrix@,
                        r.pos_of@,
                        #[trigger] possible_swaps@[k],
                    ) <= spec_score(*self, r.matrix@, r.pos_of@)
            },
    {
        let ghost s0 = spec_score(*self, layout.matrix@, layout.pos_of@);
        let mut l = layout;
        let mut current_best: i128 = SCORE_SENTINEL;
        let mut done = false;
        while !done
            invariant
                self.wf(),
                l.wf(),
                swaps_ok(possible_swaps@),
                s0 == spec_score(*self, layout.matrix@, layout.pos_of@),
                l.matrix@.to_multiset() == layout.matrix@.to_multiset(),
                l.score == layout.score,
                current_best <= SCORE_CAP,
                (current_best == SCORE_SENTINEL && l.matrix@ == layout.matrix@ && l.pos_of@
                    == layout.pos_of@) || (current_best == spec_score(*self, l.matrix@, l.pos_of@)
                    && -SCORE_CAP <= current_best <= SCORE_CAP && (current_best >= s0
                    || spec_can_restore(*self, l.matrix@, l.pos_of@, possible_swaps@, s0))),
                done ==> (forall|k: int|
                    0 <= k < possible_swaps@.len() ==> spec_swap_score(
                        *self,
                        l.matrix@,
                        l.pos_of@,
                        #[trigger] possible_swaps@[k],
                    ) <= current_best),
            decreases SCORE_CAP - current_best, (if done {
                0int
            } else {
                1int
            }),
        {
            let (bs, ns) = self.best_swap(&mut l, Some(current_best), possible_swaps);
            match bs {
                Some(p) => {
                    let ghost m1 = l.matrix@;
                    let ghost p1 = l.pos_of@;
                    proof {
                        let j = choose|j: int|
                            spec_first_best_at(
                                *self,
                                m1,
                                p1,
                                possible_swaps@,
                                j,
                                ns as int,
                            ) && possible_swaps@[j] == p;
                        assert(possible_swaps@[j] == p);
                    }
                    l.swap_pair(&p);
                    proof {
                        let m2 = l.matrix@;
                        let p2 = l.pos_of@;
                        assert(m2 == spec_swapped_matrix(m1, p));
                        assert(p2 == spec_swapped_pos(m1, p1, p));
                        assert(spec_score(*self, m2, p2) == ns);
                        if current_best == SCORE_SENTINEL && m1 == layout.matrix@ && p1
                            == layout.pos_of@ {
                            // swapping the same pair again restores the start
                            let j = choose|j: int|
                                spec_first_best_at(
                                    *self,
                                    m1,
                                    p1,
                                    possible_swaps@,
                                    j,
                                    ns as int,
                                ) && possible_swaps@[j] == p;
                            assert(p1[m1[p.0 as int] as int] == p.0 as u8);
                            assert(p1[m1[p.1 as int] as int] == p.1 as u8);
                            lemma_swap_restores(m1, p1, p);
                            assert(spec_swap_score(*self, m2, p2, p) == spec_score(
                                *self,
                                m1,
                                p1,
                            ));
                            assert(spec_score(*self, m1, p1) == s0);
                            assert(possible_swaps@[j] == p);
                            assert(spec_swap_score(*self, m2, p2, possible_swaps@[j]) == s0);
                            assert(spec_can_restore(*self, m2, p2, possible_swaps@, s0));
                        } else if current_best >= s0 {
                            assert(ns > current_best);
                        } else {
                            let j = choose|j: int|
                                0 <= j < possible_swaps@.len() && #[trigger] spec_swap_score(
                                    *self,
                                    m1,
                                    p1,
                                    possible_swaps@[j],
                                ) == s0;
                            assert(spec_swap_score(*self, m1, p1, possible_swaps@[j]) <= ns);
                        }
                    }
                    current_best = ns;
                },
                None => {
                    done = true;
                },
            }
        }
        proof {
            if possible_swaps@.len() > 0 {
                if current_best == SCORE_SENTINEL {
                    let p = possible_swaps@[0];
                    lemma_swapped_matrix_ok(l.matrix@, p);
                    lemma_score_bound(
                        *self,
                        spec_swapped_matrix(l.matrix@, p),
                        spec_swapped_pos(l.matrix@, l.pos_of@, p),
                    );
                    assert(spec_swap_score(*self, l.matrix@, l.pos_of@, p) <= current_best);
                    assert(false);
                }
                if !(current_best >= s0) {
                    let j = choose|j: int|
                        0 <= j < possible_swaps@.len() && #[trigger] spec_swap_score(
                            *self,
                            l.matrix@,
                            l.pos_of@,
                            possible_swaps@[j],
                        ) == s0;
                    assert(spec_swap_score(*self, l.matrix@, l.pos_of@, possible_swaps@[j])
                        <= current_best);
                }
            }
        }
        l
    }

    /// Exchange two whole columns (given by their top-row positions), key row
    /// by key row, keeping the cache consistent.
    fn swap_columns(&self, l: &mut FastLayout, cache: &mut LayoutCache, c1: usize, c2: usize)
        requires
            self.wf(),
            old(l).wf(),
            cache_ok(*self, *old(l), *old(cache)),
            c1 < 10,
            c2 < 10,
            c1 != c2,
        ensures
            final(l).wf(),
            cache_ok(*self, *final(l), *final(cache)),
            final(l).matrix@.to_multiset() == old(l).matrix@.to_multiset(),
            final(l).score == old(l).score,
            (final(l).matrix@, final(l).pos_of@) == spec_col_swap(
                old(l).matrix@,
                old(l).pos_of@,
                c1,
                c2,
            ),
    {
        self.accept_swap(l, &PosPair(c1, c2), cache);
        self.accept_swap(l, &PosPair(c1 + 10, c2 + 10), cache);
        self.accept_swap(l, &PosPair(c1 + 20, c2 + 20), cache);
    }

    /// Exchange the top and bottom rows, keeping the cache consistent.
    fn swap_rows(&self, l: &mut FastLayout, cache: &mut LayoutCache)
        requires
            self.wf(),
            old(l).wf(),
            cache_ok(*self, *old(l), *old(cache)),
        ensures
            final(l).wf(),
            cache_ok(*self, *final(l), *final(cache)),
            final(l).matrix@.to_multiset() == old(l).matrix@.to_multiset(),
            final(l).score == old(l).score,
            (final(l).matrix@, final(l).pos_of@) == spec_rows_swapped_upto(
                old(l).matrix@,
                old(l).pos_of@,
                10,
            ),
    {
        let mut i: usize = 0;
        while i < 10
            invariant
                self.wf(),
                l.wf(),
                cache_ok(*self, *l, *cache),
                i <= 10,
                l.matrix@.to_multiset() == old(l).matrix@.to_multiset(),
                l.score == old(l).score,
                (l.matrix@, l.pos_of@) == spec_rows_swapped_upto(
                    old(l).matrix@,
                    old(l).pos_of@,
                    i as int,
                ),
            decreases 10 - i,
        {
            self.accept_swap(l, &PosPair(i, i + 20), cache);
            i += 1;
        }
    }

    /// Heap's enumeration of the permutations of the six non-index columns,
    /// tracking the best layout seen: the best only improves, every enumerated
    /// board scores at most the best, and an unimproved best is untouched.
    #[verifier::rlimit(100)]
    fn col_perms(
        &self,
        l: &mut FastLayout,
        best: &mut FastLayout,
        cache: &mut LayoutCache,
        best_score: &mut i128,
        k: usize,
    )
        requires
            self.wf(),
            old(l).wf(),
            cache_ok(*self, *old(l), *old(cache)),
            old(best).wf(),
            *old(best_score) == spec_score(*self, old(best).matrix@, old(best).pos_of@),
            old(best).matrix@.to_multiset() == old(l).matrix@.to_multiset(),
            old(best).score == old(l).score,
            k <= 6,
        ensures
            final(l).wf(),
            cache_ok(*self, *final(l), *final(cache)),
            final(l).matrix@.to_multiset() == old(l).matrix@.to_multiset(),
            final(l).score == old(l).score,
            final(best).wf(),
            *final(best_score) == spec_score(*self, final(best).matrix@, final(best).pos_of@),
            *final(best_score) >= *old(best_score),
            final(best).matrix@.to_multiset() == old(l).matrix@.to_multiset(),
            final(best).score == old(l).score,
            (final(l).matrix@, final(l).pos_of@) == ({
                let run = spec_col_perm_run(old(l).matrix@, old(l).pos_of@, k as int);
                (run.m, run.pos)
            }),
            forall|j: int|
                0 <= j < spec_col_perm_run(old(l).matrix@, old(l).pos_of@, k as int).states.len()
                    ==> ({
                    let st = #[trigger] spec_col_perm_run(
                        old(l).matrix@,
                        old(l).pos_of@,
                        k as int,
                    ).states[j];
                    spec_score(*self, st.0, st.1) <= *final(best_score)
                }),
            *final(best_score) == *old(best_score) ==> final(best).matrix@ == old(best).matrix@
                && final(best).pos_of@ == old(best).pos_of@,
            *final(best_score) == *old(best_score) || exists|j: int|
                0 <= j < spec_col_perm_run(old(l).matrix@, old(l).pos_of@, k as int).states.len()
                    && ({
                    let st = #[trigger] spec_col_perm_run(
                        old(l).matrix@,
                        old(l).pos_of@,
                        k as int,
                    ).states[j];
                    spec_score(*self, st.0, st.1) == *final(best_score)
                }),
        decreases k,
    {
        if k <= 1 {
            proof {
                lemma_cache_total(*self, *l, *cache);
            }
            let total = cache.total_score();
            if total > *best_score {
                *best_score = total;
                *best = l.duplicate();
                proof {
                    let run = spec_col_perm_run(l.matrix@, l.pos_of@, k as int);
                    assert(spec_score(*self, run.states[0].0, run.states[0].1)
                        == *best_score as int);
                }
            }
            return ;
        }
        let ghost m0 = l.matrix@;
        let ghost p0 = l.pos_of@;
        let ghost mut seen: Seq<(Seq<u8>, Seq<u8>)> = Seq::empty();
        let cols: [usize; 6] = [0, 1, 2, 7, 8, 9];
        let mut i: usize = 0;
        while i < k
            invariant
                self.wf(),
                l.wf(),
                cache_ok(*self, *l, *cache),
                best.wf(),
                *best_score == spec_score(*self, best.matrix@, best.pos_of@),
                *best_score >= *old(best_score),
                2 <= k <= 6,
                i <= k,
                cols@ == seq![0usize, 1, 2, 7, 8, 9],
                m0 == old(l).matrix@ && p0 == old(l).pos_of@,
                l.matrix@.to_multiset() == old(l).matrix@.to_multiset(),
                l.score == old(l).score,
                best.matrix@.to_multiset() == old(l).matrix@.to_multiset(),
                best.score == old(l).score,
                spec_col_perm_loop(m0, p0, k as int, 0).states == seen + spec_col_perm_loop(
                    l.matrix@,
                    l.pos_of@,
                    k as int,
                    i as int,
                ).states,
                spec_col_perm_loop(m0, p0, k as int, 0).m == spec_col_perm_loop(
                    l.matrix@,
                    l.pos_of@,
                    k as int,
                    i as int,
                ).m,
                spec_col_perm_loop(m0, p0, k as int, 0).pos == spec_col_perm_loop(
                    l.matrix@,
                    l.pos_of@,
                    k as int,
                    i as int,
                ).pos,
                forall|j: int|
                    0 <= j < seen.len() ==> ({
                        let st = #[trigger] seen[j];
                        spec_score(*self, st.0, st.1) <= *best_score
                    }),
                *best_score == *old(best_score) ==> best.matrix@ == old(best).matrix@
                    && best.pos_of@ == old(best).pos_of@,
                *best_score == *old(best_score) || exists|j: int|
                    0 <= j < seen.len() && ({
                        let st = #[trigger] seen[j];
                        spec_score(*self, st.0, st.1) == *best_score
                    }),
            decreases k - i,
        {
            let ghost mpre = l.matrix@;
            let ghost ppre = l.pos_of@;
            let ghost score_pre = *best_score;
            self.col_perms(l, best, cache, best_score, k - 1);
            let ghost sub = spec_col_perm_run(mpre, ppre, (k - 1) as int);
            let ghost c1v = if k % 2 == 0 {
                spec_cols(i as int)
            } else {
                spec_cols(0)
            };
            let ghost c2v = spec_cols(k - 1);
            let ghost next = if c1v == c2v {
                (sub.m, sub.pos)
            } else {
                spec_col_swap(sub.m, sub.pos, c1v, c2v)
            };
            proof {
                assert(spec_col_perm_loop(mpre, ppre, k as int, i as int).states == sub.states
                    + spec_col_perm_loop(next.0, next.1, k as int, i + 1).states);
            }
            if k % 2 == 0 {
                proof {
                    assert(cols@[i as int] == spec_cols(i as int));
                    assert(cols@[k - 1] == spec_cols(k - 1));
                }
                if cols[i] != cols[k - 1] {
                    self.swap_columns(l, cache, cols[i], cols[k - 1]);
                }
            } else {
                proof {
                    assert(cols@[0] == spec_cols(0));
                    assert(cols@[k - 1] == spec_cols(k - 1));
                }
                self.swap_columns(l, cache, cols[0], cols[k - 1]);
            }
            proof {
                let ghost seen_old = seen;
                seen = seen + sub.states;
                assert(spec_col_perm_loop(m0, p0, k as int, 0).states =~= seen
                    + spec_col_perm_loop(l.matrix@, l.pos_of@, k as int, i + 1).states);
                assert forall|j: int| 0 <= j < seen.len() implies ({
                    let st = #[trigger] seen[j];
                    spec_score(*self, st.0, st.1) <= *best_score
                }) by {}
                if *best_score != score_pre {
                    // the recursive call improved: a state of its run achieves
                    // the new best
                    let j = choose|j: int|
                        0 <= j < sub.states.len() && ({
                            let st = #[trigger] sub.states[j];
                            spec_score(*self, st.0, st.1) == *best_score
                        });
                    assert(seen[seen_old.len() + j] == sub.states[j]);
                } else if score_pre != *old(best_score) {
                    let j = choose|j: int|
                        0 <= j < seen_old.len() && ({
                            let st = #[trigger] seen_old[j];
                            spec_score(*self, st.0, st.1) == score_pre
                        });
                    assert(seen[j] == seen_old[j]);
                }
            }
            i += 1;
        }
        proof {
            assert(spec_col_perm_loop(l.matrix@, l.pos_of@, k as int, k as int).states
                == Seq::<(Seq<u8>, Seq<u8>)>::empty());
            assert(spec_col_perm_loop(m0, p0, k as int, 0).states =~= seen);
        }
    }

    /// The column-permutation pass: try every permutation of the six
    /// non-index columns, on the board as it stands and with its rows
    /// exchanged, and keep the best layout found. The cache is stale
    /// afterwards; callers rebuild it if they continue.
    pub fn optimize_cols(
        &self,
        l: &mut FastLayout,
        cache: &mut LayoutCache,
        score: Option<i128>,
    ) -> (r: i128)
        requires
            self.wf(),
            old(l).wf(),
            cache_ok(*self, *old(l), *old(cache)),
            match score {
                Some(s) => s as int == spec_score(*self, old(l).matrix@, old(l).pos_of@),
                None => true,
            },
        ensures
            final(l).wf(),
            final(l).matrix@.to_multiset() == old(l).matrix@.to_multiset(),
            final(l).score == old(l).score,
            r == spec_score(*self, final(l).matrix@, final(l).pos_of@),
            r >= spec_score(*self, old(l).matrix@, old(l).pos_of@),
            forall|j: int|
                0 <= j < spec_col_pass_states(old(l).matrix@, old(l).pos_of@).len() ==> ({
                    let st = #[trigger] spec_col_pass_states(old(l).matrix@, old(l).pos_of@)[j];
                    spec_score(*self, st.0, st.1) <= r
                }),
            r == spec_score(*self, old(l).matrix@, old(l).pos_of@) ==> final(l).matrix@ == old(
                l,
            ).matrix@ && final(l).pos_of@ == old(l).pos_of@,
            r == spec_score(*self, old(l).matrix@, old(l).pos_of@) || exists|j: int|
                0 <= j < spec_col_pass_states(old(l).matrix@, old(l).pos_of@).len() && ({
                    let st = #[trigger] spec_col_pass_states(old(l).matrix@, old(l).pos_of@)[j];
                    spec_score(*self, st.0, st.1) == r
                }),
    {
        let ghost m0 = l.matrix@;
        let ghost p0 = l.pos_of@;
        let mut best_score: i128 = match score {
            Some(s) => s,
            None => {
                proof {
                    lemma_cache_total(*self, *l, *cache);
                }
                cache.total_score()
            },
        };
        let ghost entry_score = best_score as int;
        let mut best = l.duplicate();
        self.col_perms(l, &mut best, cache, &mut best_score, 6);
        let ghost score1 = best_score as int;
        self.swap_rows(l, cache);
        self.col_perms(l, &mut best, cache, &mut best_score, 6);
        proof {
            let run1 = spec_col_perm_run(m0, p0, 6);
            let start2 = spec_rows_swapped_upto(run1.m, run1.pos, 10);
            let run2 = spec_col_perm_run(start2.0, start2.1, 6);
            assert forall|j: int|
                0 <= j < spec_col_pass_states(m0, p0).len() implies ({
                let st = #[trigger] spec_col_pass_states(m0, p0)[j];
                spec_score(*self, st.0, st.1) <= best_score as int
            }) by {
                if j < run1.states.len() {
                    assert(spec_col_pass_states(m0, p0)[j] == run1.states[j]);
                } else {
                    assert(spec_col_pass_states(m0, p0)[j] == run2.states[j - run1.states.len()]);
                }
            }
            if best_score as int != entry_score {
                if best_score as int != score1 {
                    let j = choose|j: int|
                        0 <= j < run2.states.len() && ({
                            let st = #[trigger] run2.states[j];
                            spec_score(*self, st.0, st.1) == best_score as int
                        });
                    assert(spec_col_pass_states(m0, p0)[run1.states.len() + j] == run2.states[j]);
                } else {
                    let j = choose|j: int|
                        0 <= j < run1.states.len() && ({
                            let st = #[trigger] run1.states[j];
                            spec_score(*self, st.0, st.1) == best_score as int
                        });
                    assert(spec_col_pass_states(m0, p0)[j] == run1.states[j]);
                }
            }
        }
        *l = best;
        best_score
    }

    /// One full optimization: alternate the best-swap climb and the column
    /// pass until a column pass yields no improvement over the preceding
    /// climb. The result beats its starting point, no candidate swap improves
    /// it, and no enumerated column permutation of it scores higher.
    #[verifier::rlimit(100)]
    pub fn optimize(&self, layout: FastLayout, possible_swaps: &Vec<PosPair>) -> (r: FastLayout)
        requires
            self.wf(),
            layout.wf(),
            swaps_ok(possible_swaps@),
        ensures
            r.wf(),
            r.matrix@.to_multiset() == layout.matrix@.to_multiset(),
            r.score == layout.score,
            spec_score(*self, r.matrix@, r.pos_of@) >= spec_score(
                *self,
                layout.matrix@,
                layout.pos_of@,
            ),
            forall|k: int|
                0 <= k < possible_swaps@.len() ==> spec_swap_score(
                    *self,
                    layout.matrix@,
                    layout.pos_of@,
                    #[trigger] possible_swaps@[k],
                ) <= spec_score(*self, r.matrix@, r.pos_of@),
            possible_swaps@.len() > 0 ==> forall|k: int|
                0 <= k < possible_swaps@.len() ==> spec_swap_score(
                    *self,
                    r.matrix@,
                    r.pos_of@,
                    #[trigger] possible_swaps@[k],
                ) <= spec_score(*self, r.matrix@, r.pos_of@),
            possible_swaps@.len() > 0 ==> forall|j: int|
                0 <= j < spec_col_pass_states(r.matrix@, r.pos_of@).len() ==> ({
                    let st = #[trigger] spec_col_pass_states(r.matrix@, r.pos_of@)[j];
                    spec_score(*self, st.0, st.1) <= spec_score(*self, r.matrix@, r.pos_of@)
                }),
    {
        let mut l = layout;
        let mut cache = self.initialize_cache(&l);
        if possible_swaps.len() == 0 {
            // nothing to climb with: a single column pass, as the alternation
            // would do before stopping
            self.optimize_cols(&mut l, &mut cache, None);
            return l;
        }
        let mut optimized = self.optimize_cached(&mut l, &mut cache, possible_swaps);
        let ghost mut mid_m = l.matrix@;
        let ghost mut mid_p = l.pos_of@;
        let mut with_col = self.optimize_cols(&mut l, &mut cache, Some(optimized));
        while with_col > optimized
            invariant
                self.wf(),
                l.wf(),
                swaps_ok(possible_swaps@),
                possible_swaps@.len() > 0,
                l.matrix@.to_multiset() == layout.matrix@.to_multiset(),
                l.score == layout.score,
                -SCORE_CAP <= optimized <= SCORE_CAP,
                with_col as int == spec_score(*self, l.matrix@, l.pos_of@),
                with_col >= optimized,
                optimized as int >= spec_score(*self, layout.matrix@, layout.pos_of@),
                optimized as int == spec_score(*self, mid_m, mid_p),
                forall|k: int|
                    0 <= k < possible_swaps@.len() ==> spec_swap_score(
                        *self,
                        layout.matrix@,
                        layout.pos_of@,
                        #[trigger] possible_swaps@[k],
                    ) <= optimized as int,
                forall|k: int|
                    0 <= k < possible_swaps@.len() ==> spec_swap_score(
                        *self,
                        mid_m,
                        mid_p,
                        #[trigger] possible_swaps@[k],
                    ) <= optimized as int,
                forall|j: int|
                    0 <= j < spec_col_pass_states(mid_m, mid_p).len() ==> ({
                        let st = #[trigger] spec_col_pass_states(mid_m, mid_p)[j];
                        spec_score(*self, st.0, st.1) <= with_col as int
                    }),
                with_col == optimized ==> (l.matrix@ == mid_m && l.pos_of@ == mid_p),
            decreases SCORE_CAP - optimized,
        {
            cache = self.initialize_cache(&l);
            optimized = self.optimize_cached(&mut l, &mut cache, possible_swaps);
            proof {
                mid_m = l.matrix@;
                mid_p = l.pos_of@;
            }
            with_col = self.optimize_cols(&mut l, &mut cache, Some(optimized));
        }
        proof {
            assert(with_col == optimized);
            assert(l.matrix@ == mid_m && l.pos_of@ == mid_p);
        }
        l
    }
}

/// Whether a position appears in the pin list.
pub open spec fn spec_pinned(pins: Seq<usize>, p: usize) -> bool {
    exists|q: int| 0 <= q < pins.len() && pins[q] == p
}

/// Whether a pair occurs among the first `k` entries of a pair list.
pub open spec fn spec_from_prefix(all: Seq<PosPair>, k: int, x: PosPair) -> bool {
    exists|s: int| 0 <= s < k && all[s] == x
}

/// The candidate swaps that leave every pinned position alone: exactly the
/// pairs of the full lexicographic enumeration whose positions both avoid the
/// pins, in the same order.
pub fn pinned_swaps(pins: &Vec<usize>) -> (r: Vec<PosPair>)
    ensures
        swaps_ok(r@),
        forall|k: int| 0 <= k < r@.len() ==> (#[trigger] r@[k]).0 < r@[k].1,
        forall|k: int|
            0 <= k < r@.len() ==> !spec_pinned(pins@, (#[trigger] r@[k]).0) && !spec_pinned(
                pins@,
                r@[k].1,
            ),
        forall|i: usize, j: usize|
            i < j && j < 30 && !spec_pinned(pins@, i) && !spec_pinned(pins@, j)
                ==> #[trigger] has_pair(r@, i, j),
        forall|k: int, l: int| 0 <= k < l < r@.len() ==> spec_lex_before(r@[k], r@[l]),
{
    let mut map: Vec<bool> = Vec::new();
    while map.len() < 30
        invariant
            map@.len() <= 30,
            forall|p: int| 0 <= p < map@.len() ==> !(#[trigger] map@[p]),
        decreases 30 - map@.len(),
    {
        map.push(false);
    }
    let mut q: usize = 0;
    while q < pins.len()
        invariant
            q <= pins@.len(),
            map@.len() == 30,
            forall|t: int| 0 <= t < q && (#[trigger] pins@[t]) < 30 ==> map@[pins@[t] as int],
            forall|p: int|
                0 <= p < 30 && (#[trigger] map@[p]) ==> exists|t: int|
                    0 <= t < q && pins@[t] == p,
        decreases pins@.len() - q,
    {
        let p = pins[q];
        if p < 30 {
            map.set(p, true);
            proof {
                assert forall|p2: int| 0 <= p2 < 30 && (#[trigger] map@[p2]) implies exists|t: int|
                    0 <= t < q + 1 && pins@[t] == p2 by {
                    if p2 == p as int {
                        assert(pins@[q as int] == p2);
                    } else {
                        let t = choose|t: int| 0 <= t < q && pins@[t] == p2;
                        assert(pins@[t] == p2);
                    }
                }
            }
        }
        q += 1;
    }
    proof {
        assert forall|p: usize| p < 30 implies (map@[p as int] <==> spec_pinned(pins@, p)) by {
            if map@[p as int] {
                let t = choose|t: int| 0 <= t < pins@.len() && pins@[t] == p as int;
                assert(pins@[t] == p);
            }
            if spec_pinned(pins@, p) {
                let t = choose|t: int| 0 <= t < pins@.len() && pins@[t] == p;
                assert(pins@[t] < 30 ==> map@[pins@[t] as int]);
            }
        }
    }
    let all = possible_swaps();
    let mut r: Vec<PosPair> = Vec::new();
    let mut k: usize = 0;
    while k < all.len()
        invariant
            k <= all@.len(),
            map@.len() == 30,
            forall|p: usize| p < 30 ==> (map@[p as int] <==> spec_pinned(pins@, p)),
            forall|t: int|
                0 <= t < all@.len() ==> (#[trigger] all@[t]).0 < all@[t].1 && all@[t].1 < 30,
            forall|t: int, l: int| 0 <= t < l < all@.len() ==> spec_lex_before(all@[t], all@[l]),
            swaps_ok(r@),
            forall|t: int| 0 <= t < r@.len() ==> (#[trigger] r@[t]).0 < r@[t].1,
            forall|t: int|
                0 <= t < r@.len() ==> !map@[(#[trigger] r@[t]).0 as int] && !map@[r@[t].1 as int],
            forall|t: int|
                0 <= t < r@.len() ==> #[trigger] spec_from_prefix(all@, k as int, r@[t]),
            forall|t: int, l: int| 0 <= t < l < r@.len() ==> spec_lex_before(r@[t], r@[l]),
            forall|i: usize, j: usize|
                i < j && j < 30 && !map@[i as int] && !map@[j as int] && has_pair(
                    all@.take(k as int),
                    i,
                    j,
                ) ==> #[trigger] has_pair(r@, i, j),
        decreases all@.len() - k,
    {
        let ps = all[k];
        let ghost old_r = r@;
        if !map[ps.0] && !map[ps.1] {
            r.push(ps);
        }
        proof {
            assert forall|t: int|
                0 <= t < r@.len() implies #[trigger] spec_from_prefix(all@, k + 1, r@[t]) by {
                if t < old_r.len() {
                    assert(r@[t] == old_r[t]);
                    assert(spec_from_prefix(all@, k as int, old_r[t]));
                    let s = choose|s: int| 0 <= s < k && all@[s] == old_r[t];
                    assert(all@[s] == r@[t]);
                } else {
                    assert(all@[k as int] == r@[t]);
                }
            }
            assert forall|t: int, l: int|
                0 <= t < l < r@.len() implies spec_lex_before(r@[t], r@[l]) by {
                if l >= old_r.len() {
                    assert(spec_from_prefix(all@, k as int, old_r[t]));
                    let s = choose|s: int| 0 <= s < k && all@[s] == old_r[t];
                    assert(spec_lex_before(all@[s], all@[k as int]));
                }
            }
            assert forall|i: usize, j: usize|
                i < j && j < 30 && !map@[i as int] && !map@[j as int] && has_pair(
                    all@.take(k + 1),
                    i,
                    j,
                ) implies #[trigger] has_pair(r@, i, j) by {
                let s = choose|s: int|
                    0 <= s < all@.take(k + 1).len() && #[trigger] all@.take(k + 1)[s] == PosPair(
                        i,
                        j,
                    );
                if s < k {
                    assert(has_pair(all@.take(k as int), i, j)) by {
                        assert(all@.take(k as int)[s] == PosPair(i, j));
                    }
                    assert(has_pair(old_r, i, j));
                    let t = choose|t: int| 0 <= t < old_r.len() && old_r[t] == PosPair(i, j);
                    assert(r@[t] == PosPair(i, j));
                } else {
                    assert(all@[k as int] == PosPair(i, j));
                    assert(r@[r@.len() - 1] == PosPair(i, j));
                }
            }
        }
        k += 1;
    }
    proof {
        assert(all@.take(all@.len() as int) =~= all@);
        assert forall|k2: int|
            0 <= k2 < r@.len() implies !spec_pinned(pins@, (#[trigger] r@[k2]).0) && !spec_pinned(
            pins@,
            r@[k2].1,
        ) by {
            assert(!map@[r@[k2].0 as int] && !map@[r@[k2].1 as int]);
        }
        assert forall|i: usize, j: usize|
            i < j && j < 30 && !spec_pinned(pins@, i) && !spec_pinned(pins@, j)
            implies #[trigger] has_pair(r@, i, j) by {
            assert(!map@[i as int] && !map@[j as int]);
            assert(has_pair(all@, i, j));
        }
    }
    r
}

/// Inserting into a sequence inserts into its multiset.
proof fn lemma_insert_multiset<A>(s: Seq<A>, j: int, x: A)
    requires
        0 <= j <= s.len(),
    ensures
        s.insert(j, x).to_multiset() == s.to_multiset().insert(x),
{
    broadcast use vstd::seq_lib::group_to_multiset_ensures;
    broadcast use vstd::multiset::group_multiset_axioms;

    let pre = s.subrange(0, j);
    let post = s.subrange(j, s.len() as int);
    assert(s.insert(j, x) == pre.push(x) + post);
    vstd::seq_lib::lemma_multiset_commutative(pre.push(x), post);
    assert(pre.push(x).to_multiset() =~= pre.to_multiset().insert(x));
    assert(s =~= pre + post);
    vstd::seq_lib::lemma_multiset_commutative(pre, post);
    assert(s.insert(j, x).to_multiset() =~= s.to_multiset().insert(x));
}

/// Popping from a sequence removes its last element from the multiset.
proof fn lemma_pop_multiset<A>(s: Seq<A>)
    requires
        s.len() > 0,
    ensures
        s.to_multiset() == s.subrange(0, s.len() - 1).to_multiset().insert(s[s.len() - 1]),
{
    broadcast use vstd::seq_lib::group_to_multiset_ensures;
    broadcast use vstd::multiset::group_multiset_axioms;

    let head = s.subrange(0, s.len() - 1);
    assert(s =~= head.push(s[s.len() - 1]));
    assert(head.push(s[s.len() - 1]).to_multiset() =~= head.to_multiset().insert(
        s[s.len() - 1],
    ));
}

/// Sort layouts by their cached score, descending. The multiset of layouts is
/// unchanged, so this is a permutation of its input.
pub fn sort_layouts(v: Vec<FastLayout>) -> (r: Vec<FastLayout>)
    ensures
        r@.len() == v@.len(),
        r@.to_multiset() == v@.to_multiset(),
        forall|i: int, j: int| 0 <= i < j < r@.len() ==> r@[i].score >= r@[j].score,
{
    broadcast use vstd::multiset::group_multiset_axioms;

    let mut v = v;
    let ghost orig = v@;
    let mut out: Vec<FastLayout> = Vec::new();
    proof {
        broadcast use vstd::seq_lib::group_to_multiset_ensures;

        assert(out@.to_multiset().len() == 0);
        assert(out@.to_multiset() =~= Multiset::empty()) by {
            assert forall|x: FastLayout| out@.to_multiset().count(x) == 0 by {
                if out@.to_multiset().count(x) > 0 {
                    assert(out@.contains(x));
                }
            }
        }
        assert(out@.to_multiset().add(v@.to_multiset()) =~= v@.to_multiset());
    }
    while v.len() > 0
        invariant
            out@.to_multiset().add(v@.to_multiset()) == orig.to_multiset(),
            out@.len() + v@.len() == orig.len(),
            forall|i: int, j: int| 0 <= i < j < out@.len() ==> out@[i].score >= out@[j].score,
        decreases v@.len(),
    {
        let ghost pre_v = v@;
        let x = match v.pop() {
            Some(x) => x,
            None => vstd::pervasive::unreached(),
        };
        proof {
            lemma_pop_multiset(pre_v);
        }
        let mut j: usize = 0;
        while j < out.len() && out[j].score >= x.score
            invariant
                j <= out@.len(),
                forall|t: int| 0 <= t < j ==> (#[trigger] out@[t]).score >= x.score,
            decreases out@.len() - j,
        {
            j += 1;
        }
        let ghost pre_out = out@;
        out.insert(j, x);
        proof {
            lemma_insert_multiset(pre_out, j as int, x);
            pre_out.insert_ensures(j as int, x);
            assert forall|i: int, t: int|
                0 <= i < t < out@.len() implies out@[i].score >= out@[t].score by {
                if t < j {
                    assert(out@[i] == pre_out[i] && out@[t] == pre_out[t]);
                } else if t == j {
                    assert(out@[i] == pre_out[i] && out@[t] == x);
                } else if i == j {
                    assert(out@[i] == x && out@[t] == pre_out[t - 1]);
                    assert(pre_out[j as int].score < x.score);
                    if j < t - 1 {
                        assert(pre_out[j as int].score >= pre_out[t - 1].score);
                    }
                } else if i > j {
                    assert(out@[i] == pre_out[i - 1] && out@[t] == pre_out[t - 1]);
                } else {
                    assert(out@[i] == pre_out[i] && out@[t] == pre_out[t - 1]);
                    assert(i < t - 1);
                }
            }
            assert(out@.to_multiset().add(v@.to_multiset()) =~= orig.to_multiset());
        }
    }
    proof {
        broadcast use vstd::seq_lib::group_to_multiset_ensures;

        assert(v@.len() == 0);
        assert(v@.to_multiset().len() == 0);
        assert(v@.to_multiset() =~= Multiset::empty()) by {
            assert forall|x: FastLayout| v@.to_multiset().count(x) == 0 by {
                if v@.to_multiset().count(x) > 0 {
                    assert(v@.contains(x));
                }
            }
        }
        assert(out@.to_multiset() =~= orig.to_multiset());
        assert(out@.to_multiset().len() == out@.len());
        assert(orig.to_multiset().len() == orig.len());
    }
    out
}

impl LayoutGeneration {
    /// Generate one layout: shuffle the generation alphabet with the given
    /// seed, optimize, and store the final score on the layout.
    pub fn generate(&self, seed: u64) -> (r: FastLayout)
        requires
            self.wf(),
        ensures
            r.wf(),
            r.matrix@.to_multiset() == self.chars_for_generation@.to_multiset(),
            r.score == spec_score(*self, r.matrix@, r.pos_of@),
            forall|p: PosPair|
                p.0 < p.1 && p.1 < 30 ==> #[trigger] spec_swap_score(
                    *self,
                    r.matrix@,
                    r.pos_of@,
                    p,
                ) <= spec_score(*self, r.matrix@, r.pos_of@),
            forall|j: int|
                0 <= j < spec_col_pass_states(r.matrix@, r.pos_of@).len() ==> ({
                    let st = #[trigger] spec_col_pass_states(r.matrix@, r.pos_of@)[j];
                    spec_score(*self, st.0, st.1) <= spec_score(*self, r.matrix@, r.pos_of@)
                }),
    {
        let mut rng = Lcg::new(seed);
        let layout = FastLayout::random(&self.chars_for_generation, &mut rng);
        let swaps = possible_swaps();
        let mut l = self.optimize(layout, &swaps);
        proof {
            assert forall|p: PosPair|
                p.0 < p.1 && p.1 < 30 implies #[trigger] spec_swap_score(
                *self,
                l.matrix@,
                l.pos_of@,
                p,
            ) <= spec_score(*self, l.matrix@, l.pos_of@) by {
                assert(has_pair(swaps@, p.0, p.1));
                let k = choose|k: int| 0 <= k < swaps@.len() && swaps@[k] == PosPair(p.0, p.1);
                assert(spec_swap_score(*self, l.matrix@, l.pos_of@, swaps@[k]) <= spec_score(
                    *self,
                    l.matrix@,
                    l.pos_of@,
                ));
            }
        }
        let s = self.score(&l);
        l.score = s;
        l
    }

    /// Generate a pinned variant: shuffle every unpinned key of the template,
    /// then climb using only swaps that avoid the pinned positions. Pinned
    /// keys never move.
    pub fn generate_pinned(&self, based_on: &FastLayout, pins: &Vec<usize>, seed: u64) -> (r:
        FastLayout)
        requires
            self.wf(),
            based_on.wf(),
        ensures
            r.wf(),
            r.matrix@.to_multiset() == based_on.matrix@.to_multiset(),
            forall|q: int|
                0 <= q < pins@.len() && (#[trigger] pins@[q]) < 30 ==> r.matrix@[pins@[q] as int]
                    == based_on.matrix@[pins@[q] as int],
            r.score == spec_score(*self, r.matrix@, r.pos_of@),
            forall|p: PosPair|
                p.0 < p.1 && p.1 < 30 && !spec_pinned(pins@, p.0) && !spec_pinned(pins@, p.1)
                    ==> #[trigger] spec_swap_score(*self, r.matrix@, r.pos_of@, p) <= spec_score(
                    *self,
                    r.matrix@,
                    r.pos_of@,
                ),
    {
        let mut rng = Lcg::new(seed);
        let mut layout = FastLayout::random_pins(based_on, pins, &mut rng);
        let mut cache = self.initialize_cache(&layout);
        let swaps = pinned_swaps(pins);
        let ghost mid = layout;
        let climbed = self.optimize_cached(&mut layout, &mut cache, &swaps);
        proof {
            if swaps@.len() > 0 {
                assert(climbed as int == spec_score(*self, layout.matrix@, layout.pos_of@));
            }
            assert forall|p: PosPair|
                p.0 < p.1 && p.1 < 30 && !spec_pinned(pins@, p.0) && !spec_pinned(pins@, p.1)
                implies #[trigger] spec_swap_score(*self, layout.matrix@, layout.pos_of@, p)
                <= spec_score(*self, layout.matrix@, layout.pos_of@) by {
                assert(has_pair(swaps@, p.0, p.1));
                let k = choose|k: int| 0 <= k < swaps@.len() && swaps@[k] == PosPair(p.0, p.1);
                assert(swaps@.len() > 0);
                assert(spec_swap_score(*self, layout.matrix@, layout.pos_of@, swaps@[k])
                    <= climbed as int);
            }
        }
        proof {
            assert forall|q: int|
                0 <= q < pins@.len() && (#[trigger] pins@[q]) < 30 implies layout.matrix@[pins@[q] as int]
                == based_on.matrix@[pins@[q] as int] by {
                assert forall|k: int|
                    0 <= k < swaps@.len() implies ((#[trigger] swaps@[k]).0 as int
                    != pins@[q] as int && swaps@[k].1 as int != pins@[q] as int) by {
                    assert(swaps@[k].0 != pins@[q] && swaps@[k].1 != pins@[q]);
                }
                assert(layout.matrix@[pins@[q] as int] == mid.matrix@[pins@[q] as int]);
            }
        }
        let s = self.score(&layout);
        layout.score = s;
        layout
    }

    /// Generate `amount` layouts from seeds derived from the base seed, one
    /// after the other, and rank them by score, best first.
    pub fn generate_n(&self, amount: usize, base_seed: u64) -> (r: Vec<FastLayout>)
        requires
            self.wf(),
        ensures
            r@.len() == amount,
            forall|i: int, j: int| 0 <= i < j < r@.len() ==> r@[i].score >= r@[j].score,
            forall|i: int|
                0 <= i < r@.len() ==> (#[trigger] r@[i]).wf() && r@[i].matrix@.to_multiset()
                    == self.chars_for_generation@.to_multiset() && r@[i].score == spec_score(
                    *self,
                    r@[i].matrix@,
                    r@[i].pos_of@,
                ) && (forall|p: PosPair|
                    p.0 < p.1 && p.1 < 30 ==> #[trigger] spec_swap_score(
                        *self,
                        r@[i].matrix@,
                        r@[i].pos_of@,
                        p,
                    ) <= r@[i].score as int),
    {
        let mut layouts: Vec<FastLayout> = Vec::new();
        let mut i: usize = 0;
        while i < amount
            invariant
                self.wf(),
                i <= amount,
                layouts@.len() == i,
                forall|t: int|
                    0 <= t < layouts@.len() ==> (#[trigger] layouts@[t]).wf()
                        && layouts@[t].matrix@.to_multiset()
                        == self.chars_for_generation@.to_multiset() && layouts@[t].score
                        == spec_score(*self, layouts@[t].matrix@, layouts@[t].pos_of@) && (forall|
                        p: PosPair,
                    |
                        p.0 < p.1 && p.1 < 30 ==> #[trigger] spec_swap_score(
                            *self,
                            layouts@[t].matrix@,
                            layouts@[t].pos_of@,
                            p,
                        ) <= layouts@[t].score as int),
            decreases amount - i,
        {
            let l = self.generate(base_seed ^ (i as u64));
            layouts.push(l);
            i += 1;
        }
        let ghost unsorted = layouts@;
        let r = sort_layouts(layouts);
        proof {
            broadcast use vstd::seq_lib::group_to_multiset_ensures;
            broadcast use vstd::multiset::group_multiset_axioms;

            assert forall|t: int| 0 <= t < r@.len() implies (#[trigger] r@[t]).wf()
                && r@[t].matrix@.to_multiset() == self.chars_for_generation@.to_multiset()
                && r@[t].score == spec_score(*self, r@[t].matrix@, r@[t].pos_of@) && (forall|
                p: PosPair,
            |
                p.0 < p.1 && p.1 < 30 ==> #[trigger] spec_swap_score(
                    *self,
                    r@[t].matrix@,
                    r@[t].pos_of@,
                    p,
                ) <= r@[t].score as int) by {
                assert(r@.to_multiset().count(r@[t]) > 0);
                assert(unsorted.to_multiset().count(r@[t]) > 0);
                assert(unsorted.contains(r@[t]));
                let u = choose|u: int| 0 <= u < unsorted.len() && unsorted[u] == r@[t];
                assert(unsorted[u] == r@[t]);
            }
        }
        r
    }

    /// Generate `amount` pinned variants of a template, one after the other,
    /// and rank them by score, best first. Pinned keys never move.
    pub fn generate_n_pins(
        &self,
        amount: usize,
        based_on: &FastLayout,
        pins: &Vec<usize>,
        base_seed: u64,
    ) -> (r: Vec<FastLayout>)
        requires
            self.wf(),
            based_on.wf(),
        ensures
            r@.len() == amount,
            forall|i: int, j: int| 0 <= i < j < r@.len() ==> r@[i].score >= r@[j].score,
            forall|i: int|
                0 <= i < r@.len() ==> (#[trigger] r@[i]).wf() && r@[i].matrix@.to_multiset()
                    == based_on.matrix@.to_multiset() && r@[i].score == spec_score(
                    *self,
                    r@[i].matrix@,
                    r@[i].pos_of@,
                ) && (forall|q: int|
                    0 <= q < pins@.len() && (#[trigger] pins@[q]) < 30
                        ==> r@[i].matrix@[pins@[q] as int] == based_on.matrix@[pins@[q] as int]) && (
                forall|p: PosPair|
                    p.0 < p.1 && p.1 < 30 && !spec_pinned(pins@, p.0) && !spec_pinned(pins@, p.1)
                        ==> #[trigger] spec_swap_score(
                        *self,
                        r@[i].matrix@,
                        r@[i].pos_of@,
                        p,
                    ) <= r@[i].score as int),
    {
        let mut layouts: Vec<FastLayout> = Vec::new();
        let mut i: usize = 0;
        while i < amount
            invariant
                self.wf(),
                based_on.wf(),
                i <= amount,
                layouts@.len() == i,
                forall|t: int|
                    0 <= t < layouts@.len() ==> (#[trigger] layouts@[t]).wf()
                        && layouts@[t].matrix@.to_multiset() == based_on.matrix@.to_multiset()
                        && layouts@[t].score == spec_score(
                        *self,
                        layouts@[t].matrix@,
                        layouts@[t].pos_of@,
                    ) && (forall|q: int|
                        0 <= q < pins@.len() && (#[trigger] pins@[q]) < 30
                            ==> layouts@[t].matrix@[pins@[q] as int] == based_on.matrix@[pins@[q] as int])
                        && (forall|p: PosPair|
                        p.0 < p.1 && p.1 < 30 && !spec_pinned(pins@, p.0) && !spec_pinned(
                            pins@,
                            p.1,
                        ) ==> #[trigger] spec_swap_score(
                            *self,
                            layouts@[t].matrix@,
                            layouts@[t].pos_of@,
                            p,
                        ) <= layouts@[t].score as int),
            decreases amount - i,
        {
            let l = self.generate_pinned(based_on, pins, base_seed ^ (i as u64));
            layouts.push(l);
            i += 1;
        }
        let ghost unsorted = layouts@;
        let r = sort_layouts(layouts);
        proof {
            broadcast use vstd::seq_lib::group_to_multiset_ensures;
            broadcast use vstd::multiset::group_multiset_axioms;

            assert forall|t: int| 0 <= t < r@.len() implies (#[trigger] r@[t]).wf()
                && r@[t].matrix@.to_multiset() == based_on.matrix@.to_multiset() && r@[t].score
                == spec_score(*self, r@[t].matrix@, r@[t].pos_of@) && (forall|q: int|
                0 <= q < pins@.len() && (#[trigger] pins@[q]) < 30 ==> r@[t].matrix@[pins@[q] as int]
                    == based_on.matrix@[pins@[q] as int]) && (forall|p: PosPair|
                p.0 < p.1 && p.1 < 30 && !spec_pinned(pins@, p.0) && !spec_pinned(pins@, p.1)
                    ==> #[trigger] spec_swap_score(*self, r@[t].matrix@, r@[t].pos_of@, p)
                    <= r@[t].score as int) by {
                assert(r@.to_multiset().count(r@[t]) > 0);
                assert(unsorted.to_multiset().count(r@[t]) > 0);
                assert(unsorted.contains(r@[t]));
                let u = choose|u: int| 0 <= u < unsorted.len() && unsorted[u] == r@[t];
                assert(unsorted[u] == r@[t]);
            }
        }
        r
    }
}

} // verus!
