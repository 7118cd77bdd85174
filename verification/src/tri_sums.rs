//! Sums over filtered trigram lists.
//!
//! A swap moves exactly two characters, so only trigrams containing one of
//! them can change pattern. The lemmas here split the full trigram reward
//! into the part over trigrams touching the two characters and the part over
//! the rest, and show the rest does not move; `trigram_char_score` computes
//! the touched part from the two per-character lists without double counting.

use vstd::prelude::*;

use crate::fixed::TRIGRAM_CAP;
use crate::generate::LayoutGeneration;
use crate::generate::spec_entry_has;
use crate::generate::spec_tri_of_char;
use crate::geometry::PosPair;
use crate::language_data::TrigramEntry;
use crate::layout::FastLayout;
use crate::scorer::TRI_TERM_CAP;
use crate::scorer::TRI_TOTAL_CAP;
use crate::scorer::entry_ok;
use crate::scorer::lemma_tri_contrib_bound;
use crate::scorer::spec_tri_char_sum;
use crate::scorer::spec_tri_contrib;
use crate::scorer::spec_tri_either;
use crate::scorer::spec_tri_sum;
use crate::scorer::spec_trigram_total;

verus! {

/// The trigrams of a list that avoid an id, in order.
pub open spec fn spec_tri_not(s: Seq<TrigramEntry>, x: u8) -> Seq<TrigramEntry>
    decreases s.len(),
{
    if s.len() == 0 {
        Seq::empty()
    } else {
        let rest = spec_tri_not(s.drop_last(), x);
        if !spec_entry_has(s.last(), x) {
            rest.push(s.last())
        } else {
            rest
        }
    }
}

/// The trigrams that contain `b` but not `a`, in order.
pub open spec fn spec_tri_second(s: Seq<TrigramEntry>, a: u8, b: u8) -> Seq<TrigramEntry>
    decreases s.len(),
{
    if s.len() == 0 {
        Seq::empty()
    } else {
        let rest = spec_tri_second(s.drop_last(), a, b);
        if spec_entry_has(s.last(), b) && !spec_entry_has(s.last(), a) {
            rest.push(s.last())
        } else {
            rest
        }
    }
}

/// The trigrams that contain neither id, in order.
pub open spec fn spec_tri_neither(s: Seq<TrigramEntry>, a: u8, b: u8) -> Seq<TrigramEntry>
    decreases s.len(),
{
    if s.len() == 0 {
        Seq::empty()
    } else {
        let rest = spec_tri_neither(s.drop_last(), a, b);
        if !spec_entry_has(s.last(), a) && !spec_entry_has(s.last(), b) {
            rest.push(s.last())
        } else {
            rest
        }
    }
}

/// Filtering which id first does not matter.
pub proof fn lemma_either_sym(s: Seq<TrigramEntry>, a: u8, b: u8)
    ensures
        spec_tri_either(s, a, b) == spec_tri_either(s, b, a),
    decreases s.len(),
{
    if s.len() > 0 {
        lemma_either_sym(s.drop_last(), a, b);
    }
}

/// The reward over trigrams touching `a` or `b` splits into the part touching
/// `a` and the part touching only `b`.
pub proof fn lemma_tri_split_either(
    g: LayoutGeneration,
    pos: Seq<u8>,
    s: Seq<TrigramEntry>,
    a: u8,
    b: u8,
)
    ensures
        spec_tri_sum(g, pos, spec_tri_either(s, a, b)) == spec_tri_sum(g, pos, spec_tri_of_char(s, a))
            + spec_tri_sum(g, pos, spec_tri_second(s, a, b)),
    decreases s.len(),
{
    if s.len() > 0 {
        lemma_tri_split_either(g, pos, s.drop_last(), a, b);
        let e = s.last();
        let ed = s.drop_last();
        if spec_entry_has(e, a) {
            assert(spec_tri_either(s, a, b) == spec_tri_either(ed, a, b).push(e));
            assert(spec_tri_of_char(s, a) == spec_tri_of_char(ed, a).push(e));
            assert(spec_tri_sum(g, pos, spec_tri_either(ed, a, b).push(e)) == spec_tri_sum(
                g,
                pos,
                spec_tri_either(ed, a, b),
            ) + spec_tri_contrib(g, pos, e)) by {
                assert(spec_tri_either(ed, a, b).push(e).drop_last() =~= spec_tri_either(ed, a, b));
            }
            assert(spec_tri_sum(g, pos, spec_tri_of_char(ed, a).push(e)) == spec_tri_sum(
                g,
                pos,
                spec_tri_of_char(ed, a),
            ) + spec_tri_contrib(g, pos, e)) by {
                assert(spec_tri_of_char(ed, a).push(e).drop_last() =~= spec_tri_of_char(ed, a));
            }
        } else if spec_entry_has(e, b) {
            assert(spec_tri_either(s, a, b) == spec_tri_either(ed, a, b).push(e));
            assert(spec_tri_second(s, a, b) == spec_tri_second(ed, a, b).push(e));
            assert(spec_tri_sum(g, pos, spec_tri_either(ed, a, b).push(e)) == spec_tri_sum(
                g,
                pos,
                spec_tri_either(ed, a, b),
            ) + spec_tri_contrib(g, pos, e)) by {
                assert(spec_tri_either(ed, a, b).push(e).drop_last() =~= spec_tri_either(ed, a, b));
            }
            assert(spec_tri_sum(g, pos, spec_tri_second(ed, a, b).push(e)) == spec_tri_sum(
                g,
                pos,
                spec_tri_second(ed, a, b),
            ) + spec_tri_contrib(g, pos, e)) by {
                assert(spec_tri_second(ed, a, b).push(e).drop_last() =~= spec_tri_second(ed, a, b));
            }
        }
    }
}

/// Dropping the trigrams that touch `a` from the list of those touching `b`
/// leaves exactly the trigrams touching only `b`.
pub proof fn lemma_tri_compose(s: Seq<TrigramEntry>, a: u8, b: u8)
    ensures
        spec_tri_not(spec_tri_of_char(s, b), a) == spec_tri_second(s, a, b),
    decreases s.len(),
{
    if s.len() > 0 {
        lemma_tri_compose(s.drop_last(), a, b);
        let e = s.last();
        let ed = s.drop_last();
        if spec_entry_has(e, b) {
            let t = spec_tri_of_char(ed, b);
            assert(spec_tri_of_char(s, b) == t.push(e));
            assert(t.push(e).drop_last() =~= t);
            assert(t.push(e).last() == e);
        }
    }
}

/// The whole reward splits into the trigrams touching `a` or `b` and the
/// rest.
pub proof fn lemma_tri_split_total(
    g: LayoutGeneration,
    pos: Seq<u8>,
    s: Seq<TrigramEntry>,
    a: u8,
    b: u8,
)
    ensures
        spec_tri_sum(g, pos, s) == spec_tri_sum(g, pos, spec_tri_either(s, a, b)) + spec_tri_sum(
            g,
            pos,
            spec_tri_neither(s, a, b),
        ),
    decreases s.len(),
{
    if s.len() > 0 {
        lemma_tri_split_total(g, pos, s.drop_last(), a, b);
        let e = s.last();
        let ed = s.drop_last();
        if spec_entry_has(e, a) || spec_entry_has(e, b) {
            assert(spec_tri_either(s, a, b) == spec_tri_either(ed, a, b).push(e));
            assert(spec_tri_sum(g, pos, spec_tri_either(ed, a, b).push(e)) == spec_tri_sum(
                g,
                pos,
                spec_tri_either(ed, a, b),
            ) + spec_tri_contrib(g, pos, e)) by {
                assert(spec_tri_either(ed, a, b).push(e).drop_last() =~= spec_tri_either(ed, a, b));
            }
        } else {
            assert(spec_tri_neither(s, a, b) == spec_tri_neither(ed, a, b).push(e));
            assert(spec_tri_sum(g, pos, spec_tri_neither(ed, a, b).push(e)) == spec_tri_sum(
                g,
                pos,
                spec_tri_neither(ed, a, b),
            ) + spec_tri_contrib(g, pos, e)) by {
                assert(spec_tri_neither(ed, a, b).push(e).drop_last() =~= spec_tri_neither(
                    ed,
                    a,
                    b,
                ));
            }
        }
    }
}

/// Every entry of the untouched remainder is a sound entry avoiding both ids.
pub proof fn lemma_neither_entries(s: Seq<TrigramEntry>, a: u8, b: u8)
    requires
        forall|k: int| 0 <= k < s.len() ==> entry_ok(#[trigger] s[k]),
    ensures
        spec_tri_neither(s, a, b).len() <= s.len(),
        forall|k: int|
            0 <= k < spec_tri_neither(s, a, b).len() ==> {
                let e = #[trigger] spec_tri_neither(s, a, b)[k];
                &&& entry_ok(e)
                &&& !spec_entry_has(e, a)
                &&& !spec_entry_has(e, b)
            },
    decreases s.len(),
{
    if s.len() > 0 {
        assert forall|k: int| 0 <= k < s.drop_last().len() implies entry_ok(
            #[trigger] s.drop_last()[k],
        ) by {
            assert(s.drop_last()[k] == s[k]);
        }
        lemma_neither_entries(s.drop_last(), a, b);
        assert(s.last() == s[s.len() - 1]);
    }
}

/// Every entry of a per-character list is a sound entry, and the list is no
/// longer than its source.
pub proof fn lemma_of_char_entries(s: Seq<TrigramEntry>, id: u8)
    requires
        forall|k: int| 0 <= k < s.len() ==> entry_ok(#[trigger] s[k]),
    ensures
        spec_tri_of_char(s, id).len() <= s.len(),
        forall|k: int|
            0 <= k < spec_tri_of_char(s, id).len() ==> entry_ok(
                #[trigger] spec_tri_of_char(s, id)[k],
            ),
    decreases s.len(),
{
    if s.len() > 0 {
        assert forall|k: int| 0 <= k < s.drop_last().len() implies entry_ok(
            #[trigger] s.drop_last()[k],
        ) by {
            assert(s.drop_last()[k] == s[k]);
        }
        lemma_of_char_entries(s.drop_last(), id);
        assert(s.last() == s[s.len() - 1]);
    }
}

/// If two layouts agree on the positions of every id but `a` and `b`, the
/// reward of any list avoiding both ids is the same on either layout.
pub proof fn lemma_tri_sum_same(
    g: LayoutGeneration,
    pos1: Seq<u8>,
    pos2: Seq<u8>,
    s: Seq<TrigramEntry>,
    a: u8,
    b: u8,
)
    requires
        forall|k: int|
            0 <= k < s.len() ==> {
                let e = #[trigger] s[k];
                &&& entry_ok(e)
                &&& !spec_entry_has(e, a)
                &&& !spec_entry_has(e, b)
            },
        forall|id: int| 0 <= id < 60 && id != a as int && id != b as int ==> pos1[id] == pos2[id],
    ensures
        spec_tri_sum(g, pos1, s) == spec_tri_sum(g, pos2, s),
    decreases s.len(),
{
    if s.len() > 0 {
        assert forall|k: int| 0 <= k < s.drop_last().len() implies {
            let e = #[trigger] s.drop_last()[k];
            &&& entry_ok(e)
            &&& !spec_entry_has(e, a)
            &&& !spec_entry_has(e, b)
        } by {
            assert(s.drop_last()[k] == s[k]);
        }
        lemma_tri_sum_same(g, pos1, pos2, s.drop_last(), a, b);
        let e = s.last();
        assert(e == s[s.len() - 1]);
        assert(pos1[e.c0 as int] == pos2[e.c0 as int]);
        assert(pos1[e.c1 as int] == pos2[e.c1 as int]);
        assert(pos1[e.c2 as int] == pos2[e.c2 as int]);
    }
}

/// The trigram reward after a swap of the characters `a` and `b` is the old
/// reward, minus the old touched part, plus the new touched part.
pub proof fn lemma_tri_delta(g: LayoutGeneration, pos1: Seq<u8>, pos2: Seq<u8>, a: u8, b: u8)
    requires
        g.wf(),
        forall|id: int| 0 <= id < 60 && id != a as int && id != b as int ==> pos1[id] == pos2[id],
    ensures
        spec_trigram_total(g, pos2) == spec_trigram_total(g, pos1) - spec_tri_char_sum(
            g,
            pos1,
            a,
            b,
        ) + spec_tri_char_sum(g, pos2, a, b),
{
    let s = g.data.trigrams@;
    lemma_tri_split_total(g, pos1, s, a, b);
    lemma_tri_split_total(g, pos2, s, a, b);
    lemma_neither_entries(s, a, b);
    lemma_tri_sum_same(g, pos1, pos2, spec_tri_neither(s, a, b), a, b);
}

impl LayoutGeneration {
    /// The reward over the trigrams that touch either of the characters on
    /// the two given positions: the larger per-character list in full, the
    /// smaller one filtered against double counting.
    pub fn trigram_char_score(&self, l: &FastLayout, pos: &PosPair) -> (r: i128)
        requires
            self.wf(),
            l.wf(),
            pos.0 < 30,
            pos.1 < 30,
        ensures
            r == spec_tri_char_sum(
                *self,
                l.pos_of@,
                l.matrix@[pos.0 as int],
                l.matrix@[pos.1 as int],
            ),
            -2 * TRI_TOTAL_CAP <= r <= 2 * TRI_TOTAL_CAP,
    {
        let c1 = l.c(pos.0);
        let c2 = l.c(pos.1);
        let v1_len = self.per_char_trigrams[c1 as usize].len();
        let v2_len = self.per_char_trigrams[c2 as usize].len();
        let (cbig, csmall) = if v1_len >= v2_len {
            (c1, c2)
        } else {
            (c2, c1)
        };
        let ghost s = self.data.trigrams@;
        proof {
            assert forall|k: int| 0 <= k < s.len() implies entry_ok(#[trigger] s[k]) by {}
            lemma_of_char_entries(s, cbig);
            lemma_of_char_entries(s, csmall);
        }
        let big = &self.per_char_trigrams[cbig as usize];
        let sum_big = self.trigram_score_iter(l, big);
        let small = &self.per_char_trigrams[csmall as usize];
        let mut acc: i128 = 0;
        let mut k: usize = 0;
        while k < small.len()
            invariant
                self.wf(),
                l.wf(),
                cbig < 60,
                csmall < 60,
                small == &self.per_char_trigrams@[csmall as int],
                small@ == spec_tri_of_char(self.data.trigrams@, csmall),
                k <= small@.len(),
                small@.len() <= TRIGRAM_CAP,
                forall|m: int| 0 <= m < small@.len() ==> entry_ok(#[trigger] small@[m]),
                acc == spec_tri_sum(*self, l.pos_of@, spec_tri_not(small@.take(k as int), cbig)),
                -(k as int) * TRI_TERM_CAP <= acc <= (k as int) * TRI_TERM_CAP,
            decreases small@.len() - k,
        {
            let e = small[k];
            proof {
                assert(small@.take(k + 1).drop_last() =~= small@.take(k as int));
                assert(small@.take(k + 1).last() == small@[k as int]);
                assert((k as int) * TRI_TERM_CAP + TRI_TERM_CAP == ((k + 1) as int) * TRI_TERM_CAP)
                    by (nonlinear_arith);
                assert(-(k as int) * TRI_TERM_CAP - TRI_TERM_CAP == -((k + 1) as int)
                    * TRI_TERM_CAP) by (nonlinear_arith);
            }
            if !crate::generate::entry_has(&e, cbig) {
                let c = self.trigram_contrib(l, &e);
                proof {
                    let t = spec_tri_not(small@.take(k as int), cbig);
                    assert(spec_tri_not(small@.take(k + 1), cbig) == t.push(e));
                    assert(spec_tri_sum(*self, l.pos_of@, t.push(e)) == spec_tri_sum(
                        *self,
                        l.pos_of@,
                        t,
                    ) + spec_tri_contrib(*self, l.pos_of@, e)) by {
                        assert(t.push(e).drop_last() =~= t);
                    }
                }
                acc = acc + c;
            }
            k += 1;
        }
        proof {
            assert(small@.take(small@.len() as int) =~= small@);
            lemma_tri_compose(s, cbig, csmall);
            lemma_tri_split_either(*self, l.pos_of@, s, cbig, csmall);
            lemma_either_sym(s, cbig, csmall);
            assert((small@.len() as int) * TRI_TERM_CAP <= TRIGRAM_CAP as int * TRI_TERM_CAP)
                by (nonlinear_arith)
                requires
                    0 <= small@.len() as int <= TRIGRAM_CAP as int,
                    TRI_TERM_CAP > 0,
            ;
        }
        sum_big + acc
    }
}

} // verus!
