//! The library's cross-cutting laws, stated once and proved from the
//! contracts of the pieces they relate.

use vstd::prelude::*;

use crate::cache::LayoutCache;
use crate::cache::cache_ok;
use crate::cache::lemma_cache_total;
use crate::generate::LayoutGeneration;
use crate::geometry::PosPair;
use crate::language_data::LanguageData;
use crate::layout::FastLayout;
use crate::optimize::spec_swap_score;
use crate::optimize::spec_swapped_matrix;
use crate::optimize::spec_swapped_pos;
use crate::scorer::spec_pair_both;

verus! {

/// Scoring a swap agrees with committing it: once a swap is accepted, the
/// cached total equals exactly the value the swap scored at beforehand.
pub proof fn law_score_swap_agreement(
    g: LayoutGeneration,
    l1: FastLayout,
    l2: FastLayout,
    c2: LayoutCache,
    p: PosPair,
)
    requires
        g.wf(),
        l2.wf(),
        cache_ok(g, l2, c2),
        l2.matrix@ == spec_swapped_matrix(l1.matrix@, p),
        l2.pos_of@ == spec_swapped_pos(l1.matrix@, l1.pos_of@, p),
    ensures
        c2.trigrams_total - c2.scissors - c2.effort_total - c2.usage_total - c2.fspeed_total
            == spec_swap_score(g, l1.matrix@, l1.pos_of@, p),
{
    lemma_cache_total(g, l2, c2);
}

/// The cache is a function of the layout: two consistent caches for one
/// layout agree in every entry and every total.
pub proof fn law_cache_unique(g: LayoutGeneration, l: FastLayout, c1: LayoutCache, c2: LayoutCache)
    requires
        cache_ok(g, l, c1),
        cache_ok(g, l, c2),
    ensures
        c1.effort@ == c2.effort@,
        c1.effort_total == c2.effort_total,
        c1.usage@ == c2.usage@,
        c1.usage_total == c2.usage_total,
        c1.fspeed@ == c2.fspeed@,
        c1.fspeed_total == c2.fspeed_total,
        c1.scissors == c2.scissors,
        c1.trigrams_total == c2.trigrams_total,
{
    assert(c1.effort@ =~= c2.effort@);
    assert(c1.usage@ =~= c2.usage@);
    assert(c1.fspeed@ =~= c2.fspeed@);
}

/// The bigram mass of a pair reads both orders, so it is symmetric in its
/// two keys.
pub proof fn law_pair_both_symmetric(table: Seq<i64>, a: int, b: int)
    ensures
        spec_pair_both(table, a, b) == spec_pair_both(table, b, a),
{
}

/// A well-formed layout's reverse index is exact: the id on any position
/// points back at that position.
pub proof fn law_reverse_index_exact(l: FastLayout, i: int)
    requires
        l.wf(),
        0 <= i < 30,
    ensures
        l.pos_of@[l.matrix@[i] as int] == i as u8,
{
}

} // verus!
