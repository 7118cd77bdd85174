//! The layout generation engine: the scorer's precomputed tables and their
//! construction.
//!
//! A `LayoutGeneration` owns the language model, the weights, and four
//! derived tables: the per-position effort map, the 48-entry finger-speed
//! pair table, the 15 scissor pairs, and the per-character trigram lists that
//! make incremental re-scoring cheap.

use vstd::prelude::*;

use crate::codec::CharCodec;
use crate::fixed::DIST_CAP;
use crate::fixed::EFFORT_CAP;
use crate::fixed::FP;
use crate::fixed::FREQ_CAP;
use crate::fixed::MUL_CAP;
use crate::fixed::WEIGHT_CAP;
use crate::fixed::isqrt;
use crate::fixed::mul_fp;
use crate::fixed::spec_mul_fp;
use crate::geometry::PosPair;
use crate::geometry::spec_col_of;
use crate::language_data::DataError;
use crate::language_data::LanguageData;
use crate::language_data::TrigramEntry;
use crate::weights::Config;
use crate::weights::Weights;

verus! {

/// The column that owns slot `k` of the finger-speed table: the three
/// same-column pairs of each non-index column come first (columns 0, 1, 2,
/// then 5, 6, 7), then the fifteen within-column pairs of each index column.
pub open spec fn spec_col_owner(k: int) -> int {
    if k < 3 {
        0
    } else if k < 6 {
        1
    } else if k < 9 {
        2
    } else if k < 12 {
        5
    } else if k < 15 {
        6
    } else if k < 18 {
        7
    } else if k < 33 {
        3
    } else {
        4
    }
}

/// Grid coordinates of a position: column 0..9 and row 0..2.
pub open spec fn spec_grid_x(p: int) -> int {
    p % 10
}

/// Row of a position.
pub open spec fn spec_grid_y(p: int) -> int {
    p / 10
}

/// Squared euclidean travel between two positions: lateral stretch is scaled
/// by the lateral penalty, vertical travel by one key unit.
pub open spec fn spec_dist_sq(p1: int, p2: int, lat: int) -> int {
    let dx = if spec_grid_x(p1) >= spec_grid_x(p2) {
        spec_grid_x(p1) - spec_grid_x(p2)
    } else {
        spec_grid_x(p2) - spec_grid_x(p1)
    };
    let dy = if spec_grid_y(p1) >= spec_grid_y(p2) {
        spec_grid_y(p1) - spec_grid_y(p2)
    } else {
        spec_grid_y(p2) - spec_grid_y(p1)
    };
    (dx * lat) * (dx * lat) + (dy * FP) * (dy * FP)
}

/// The fixed list of fifteen scissor pairs: two-row jumps between adjacent
/// or index-adjacent fingers.
pub open spec fn spec_scissor_list() -> Seq<PosPair> {
    seq![
        PosPair(0, 21),
        PosPair(1, 20),
        PosPair(1, 22),
        PosPair(2, 21),
        PosPair(2, 23),
        PosPair(3, 22),
        PosPair(3, 24),
        PosPair(4, 25),
        PosPair(5, 26),
        PosPair(6, 27),
        PosPair(7, 26),
        PosPair(7, 28),
        PosPair(8, 27),
        PosPair(8, 29),
        PosPair(9, 28),
    ]
}

/// The trigrams of a list that contain a given id, in order.
pub open spec fn spec_tri_of_char(s: Seq<TrigramEntry>, id: u8) -> Seq<TrigramEntry>
    decreases s.len(),
{
    if s.len() == 0 {
        Seq::empty()
    } else {
        let rest = spec_tri_of_char(s.drop_last(), id);
        if spec_entry_has(s.last(), id) {
            rest.push(s.last())
        } else {
            rest
        }
    }
}

/// Whether a trigram contains an id.
pub open spec fn spec_entry_has(e: TrigramEntry, id: u8) -> bool {
    e.c0 == id || e.c1 == id || e.c2 == id
}

/// Whether a trigram contains an id.
pub fn entry_has(e: &TrigramEntry, id: u8) -> (r: bool)
    ensures
        r == spec_entry_has(*e, id),
{
    e.c0 == id || e.c1 == id || e.c2 == id
}

/// The scorer: language model, weights, and the precomputed tables.
pub struct LayoutGeneration {
    pub language: String,
    pub data: LanguageData,
    pub chars_for_generation: Vec<u8>,
    pub fspeed_vals: Vec<(PosPair, i64)>,
    pub effort_map: Vec<i64>,
    pub scissor_indices: Vec<PosPair>,
    pub weights: Weights,
    pub per_char_trigrams: Vec<Vec<TrigramEntry>>,
}

impl LayoutGeneration {
    /// Well-formed: sound model and weights, tables of the right shapes, every
    /// finger-speed pair inside the column that owns its slot, and the
    /// per-character lists exactly the filtered trigram list.
    pub open spec fn wf(&self) -> bool {
        &&& self.data.wf()
        &&& self.weights.wf()
        &&& self.effort_map@.len() == 30
        &&& forall|i: int| 0 <= i < 30 ==> 0 <= (#[trigger] self.effort_map@[i]) <= EFFORT_CAP
        &&& self.fspeed_vals@.len() == 48
        &&& forall|k: int|
            0 <= k < 48 ==> {
                let (p, d) = #[trigger] self.fspeed_vals@[k];
                &&& p.0 < 30
                &&& p.1 < 30
                &&& p.0 != p.1
                &&& spec_col_of(p.0 as int) == spec_col_owner(k)
                &&& spec_col_of(p.1 as int) == spec_col_owner(k)
                &&& 0 <= d <= DIST_CAP
            }
        &&& self.scissor_indices@ == spec_scissor_list()
        &&& self.per_char_trigrams@.len() == 60
        &&& forall|id: int|
            0 <= id < 60 ==> (#[trigger] self.per_char_trigrams@[id])@ == spec_tri_of_char(
                self.data.trigrams@,
                id as u8,
            )
        &&& self.chars_for_generation@.len() == 30
        &&& forall|i: int| 0 <= i < 30 ==> (#[trigger] self.chars_for_generation@[i]) < 60
        &&& forall|i: int, j: int|
            0 <= i < j < 30 ==> self.chars_for_generation@[i] != self.chars_for_generation@[j]
    }
}

/// The baseline per-position effort grid, in fixed point.
pub open spec fn spec_base_effort(i: int) -> int {
    if i == 0 { 330000000 }
    else if i == 1 { 250000000 }
    else if i == 2 { 210000000 }
    else if i == 3 { 230000000 }
    else if i == 4 { 260000000 }
    else if i == 5 { 340000000 }
    else if i == 6 { 220000000 }
    else if i == 7 { 200000000 }
    else if i == 8 { 240000000 }
    else if i == 9 { 300000000 }
    else if i == 10 { 180000000 }
    else if i == 11 { 130000000 }
    else if i == 12 { 110000000 }
    else if i == 13 { 100000000 }
    else if i == 14 { 260000000 }
    else if i == 15 { 220000000 }
    else if i == 16 { 100000000 }
    else if i == 17 { 110000000 }
    else if i == 18 { 130000000 }
    else if i == 19 { 170000000 }
    else if i == 20 { 350000000 }
    else if i == 21 { 300000000 }
    else if i == 22 { 270000000 }
    else if i == 23 { 230000000 }
    else if i == 24 { 370000000 }
    else if i == 25 { 290000000 }
    else if i == 26 { 240000000 }
    else if i == 27 { 280000000 }
    else if i == 28 { 320000000 }
    else { 360000000 }
}

/// The baseline effort of one position.
pub fn base_effort(i: usize) -> (b: i64)
    requires
        i < 30,
    ensures
        b as int == spec_base_effort(i as int),
        100000000 <= b <= 370000000,
{
    if i == 0 { 330000000 }
    else if i == 1 { 250000000 }
    else if i == 2 { 210000000 }
    else if i == 3 { 230000000 }
    else if i == 4 { 260000000 }
    else if i == 5 { 340000000 }
    else if i == 6 { 220000000 }
    else if i == 7 { 200000000 }
    else if i == 8 { 240000000 }
    else if i == 9 { 300000000 }
    else if i == 10 { 180000000 }
    else if i == 11 { 130000000 }
    else if i == 12 { 110000000 }
    else if i == 13 { 100000000 }
    else if i == 14 { 260000000 }
    else if i == 15 { 220000000 }
    else if i == 16 { 100000000 }
    else if i == 17 { 110000000 }
    else if i == 18 { 130000000 }
    else if i == 19 { 170000000 }
    else if i == 20 { 350000000 }
    else if i == 21 { 300000000 }
    else if i == 22 { 270000000 }
    else if i == 23 { 230000000 }
    else if i == 24 { 370000000 }
    else if i == 25 { 290000000 }
    else if i == 26 { 240000000 }
    else if i == 27 { 280000000 }
    else if i == 28 { 320000000 }
    else { 360000000 }
}

/// The effort map: each baseline entry scaled by the heatmap scale, plus the
/// heatmap offset.
pub fn get_effort_map(heatmap: [i64; 2]) -> (r: Vec<i64>)
    requires
        0 <= heatmap[0] <= WEIGHT_CAP,
        0 <= heatmap[1] <= WEIGHT_CAP,
    ensures
        r@.len() == 30,
        forall|i: int|
            0 <= i < 30 ==> (#[trigger] r@[i]) as int == spec_mul_fp(
                spec_base_effort(i),
                heatmap[0] as int,
            ) + heatmap[1] as int,
        forall|i: int| 0 <= i < 30 ==> 0 <= (#[trigger] r@[i]) <= EFFORT_CAP,
{
    let mut r: Vec<i64> = Vec::new();
    let mut i: usize = 0;
    while i < 30
        invariant
            0 <= heatmap[0] <= WEIGHT_CAP,
            0 <= heatmap[1] <= WEIGHT_CAP,
            i <= 30,
            r@.len() == i,
            forall|k: int|
                0 <= k < i ==> (#[trigger] r@[k]) as int == spec_mul_fp(
                    spec_base_effort(k),
                    heatmap[0] as int,
                ) + heatmap[1] as int,
            forall|k: int| 0 <= k < i ==> 0 <= (#[trigger] r@[k]) <= EFFORT_CAP,
        decreases 30 - i,
    {
        let base = base_effort(i);
        proof {
            crate::fixed::lemma_mul_fp_bound(
                base as int,
                heatmap[0] as int,
                370_000_000,
                WEIGHT_CAP as int,
            );
        }
        let scaled = mul_fp(base as i128, heatmap[0] as i128);
        let entry: i64 = (scaled as i64) + heatmap[1];
        r.push(entry);
        i += 1;
    }
    r
}

/// The 48-entry finger-speed pair table: three vertical pairs per non-index
/// column, then all fifteen pairs of each index column, with euclidean
/// distances (lateral travel scaled by the lateral penalty).
pub fn get_fspeed(lat_penalty: i64) -> (r: Vec<(PosPair, i64)>)
    requires
        0 <= lat_penalty <= WEIGHT_CAP,
    ensures
        r@.len() == 48,
        forall|k: int|
            0 <= k < 48 ==> {
                let (p, d) = #[trigger] r@[k];
                &&& p.0 < 30
                &&& p.1 < 30
                &&& p.0 != p.1
                &&& spec_col_of(p.0 as int) == spec_col_owner(k)
                &&& spec_col_of(p.1 as int) == spec_col_owner(k)
                &&& 0 <= d <= DIST_CAP
                &&& (d as int) * (d as int) <= spec_dist_sq(
                    p.0 as int,
                    p.1 as int,
                    lat_penalty as int,
                ) < ((d + 1) as int) * ((d + 1) as int)
            },
{
    let mut r: Vec<(PosPair, i64)> = Vec::new();
    // Non-index columns: positions col, col + 10, col + 20.
    let cols: [usize; 6] = [0, 1, 2, 7, 8, 9];
    let mut ci: usize = 0;
    while ci < 6
        invariant
            0 <= lat_penalty <= WEIGHT_CAP,
            ci <= 6,
            cols@ == seq![0usize, 1, 2, 7, 8, 9],
            r@.len() == 3 * ci,
            forall|k: int|
                0 <= k < r@.len() ==> {
                    let (p, d) = #[trigger] r@[k];
                    &&& p.0 < 30
                    &&& p.1 < 30
                    &&& p.0 != p.1
                    &&& spec_col_of(p.0 as int) == spec_col_owner(k)
                    &&& spec_col_of(p.1 as int) == spec_col_owner(k)
                    &&& 0 <= d <= DIST_CAP
                    &&& (d as int) * (d as int) <= spec_dist_sq(
                        p.0 as int,
                        p.1 as int,
                        lat_penalty as int,
                    ) < ((d + 1) as int) * ((d + 1) as int)
                },
        decreases 6 - ci,
    {
        let c = cols[ci];
        let ghost pre = r@;
        r.push(make_pair(c, c + 10, lat_penalty));
        r.push(make_pair(c, c + 20, lat_penalty));
        r.push(make_pair(c + 10, c + 20, lat_penalty));
        proof {
            assert(ci == 0 || ci == 1 || ci == 2 || ci == 3 || ci == 4 || ci == 5);
            let c_ = c as int;
            assert(spec_col_of(c_) == spec_col_of(c_ + 10) && spec_col_of(c_) == spec_col_of(
                c_ + 20,
            ));
            assert(spec_col_owner(3 * ci) == spec_col_of(c_) && spec_col_owner(3 * ci + 1)
                == spec_col_of(c_) && spec_col_owner(3 * ci + 2) == spec_col_of(c_));
            assert forall|k: int|
                0 <= k < r@.len() implies {
                let (p, d) = #[trigger] r@[k];
                &&& p.0 < 30
                &&& p.1 < 30
                &&& p.0 != p.1
                &&& spec_col_of(p.0 as int) == spec_col_owner(k)
                &&& spec_col_of(p.1 as int) == spec_col_owner(k)
                &&& 0 <= d <= DIST_CAP
                &&& (d as int) * (d as int) <= spec_dist_sq(
                    p.0 as int,
                    p.1 as int,
                    lat_penalty as int,
                ) < ((d + 1) as int) * ((d + 1) as int)
            } by {
                if k < pre.len() {
                    assert(r@[k] == pre[k]);
                }
            }
        }
        ci += 1;
    }
    // Index columns: all pairs of the six positions of each.
    let left: [usize; 6] = [3, 4, 13, 14, 23, 24];
    let right: [usize; 6] = [5, 6, 15, 16, 25, 26];
    let mut a: usize = 0;
    while a < 6
        invariant
            0 <= lat_penalty <= WEIGHT_CAP,
            a <= 6,
            left@ == seq![3usize, 4, 13, 14, 23, 24],
            r@.len() == 18 + index_pairs_before(a as int),
            forall|k: int|
                0 <= k < r@.len() ==> {
                    let (p, d) = #[trigger] r@[k];
                    &&& p.0 < 30
                    &&& p.1 < 30
                    &&& p.0 != p.1
                    &&& spec_col_of(p.0 as int) == spec_col_owner(k)
                    &&& spec_col_of(p.1 as int) == spec_col_owner(k)
                    &&& 0 <= d <= DIST_CAP
                    &&& (d as int) * (d as int) <= spec_dist_sq(
                        p.0 as int,
                        p.1 as int,
                        lat_penalty as int,
                    ) < ((d + 1) as int) * ((d + 1) as int)
                },
        decreases 6 - a,
    {
        let mut b: usize = a + 1;
        while b < 6
            invariant
                0 <= lat_penalty <= WEIGHT_CAP,
                a < 6,
                a < b <= 6,
                left@ == seq![3usize, 4, 13, 14, 23, 24],
                r@.len() == 18 + index_pairs_before(a as int) + b - a - 1,
                forall|k: int|
                    0 <= k < r@.len() ==> {
                        let (p, d) = #[trigger] r@[k];
                        &&& p.0 < 30
                        &&& p.1 < 30
                        &&& p.0 != p.1
                        &&& spec_col_of(p.0 as int) == spec_col_owner(k)
                        &&& spec_col_of(p.1 as int) == spec_col_owner(k)
                        &&& 0 <= d <= DIST_CAP
                        &&& (d as int) * (d as int) <= spec_dist_sq(
                            p.0 as int,
                            p.1 as int,
                            lat_penalty as int,
                        ) < ((d + 1) as int) * ((d + 1) as int)
                    },
            decreases 6 - b,
        {
            let ghost pre = r@;
            r.push(make_pair(left[a], left[b], lat_penalty));
            proof {
                lemma_ipb_values();
                assert(a == 0 || a == 1 || a == 2 || a == 3 || a == 4);
                assert(b == 1 || b == 2 || b == 3 || b == 4 || b == 5);
                let k0 = pre.len() as int;
                assert(18 <= k0 < 33);
                assert(spec_col_owner(k0) == 3);
                assert(spec_col_of(left@[a as int] as int) == 3 && spec_col_of(
                    left@[b as int] as int,
                ) == 3);
                assert forall|k: int|
                    0 <= k < r@.len() implies {
                    let (p, d) = #[trigger] r@[k];
                    &&& p.0 < 30
                    &&& p.1 < 30
                    &&& p.0 != p.1
                    &&& spec_col_of(p.0 as int) == spec_col_owner(k)
                    &&& spec_col_of(p.1 as int) == spec_col_owner(k)
                    &&& 0 <= d <= DIST_CAP
                    &&& (d as int) * (d as int) <= spec_dist_sq(
                        p.0 as int,
                        p.1 as int,
                        lat_penalty as int,
                    ) < ((d + 1) as int) * ((d + 1) as int)
                } by {
                    if k < pre.len() {
                        assert(r@[k] == pre[k]);
                    }
                }
            }
            b += 1;
        }
        a += 1;
    }
    proof {
        lemma_ipb_values();
    }
    let mut a2: usize = 0;
    while a2 < 6
        invariant
            0 <= lat_penalty <= WEIGHT_CAP,
            a2 <= 6,
            right@ == seq![5usize, 6, 15, 16, 25, 26],
            r@.len() == 33 + index_pairs_before(a2 as int),
            forall|k: int|
                0 <= k < r@.len() ==> {
                    let (p, d) = #[trigger] r@[k];
                    &&& p.0 < 30
                    &&& p.1 < 30
                    &&& p.0 != p.1
                    &&& spec_col_of(p.0 as int) == spec_col_owner(k)
                    &&& spec_col_of(p.1 as int) == spec_col_owner(k)
                    &&& 0 <= d <= DIST_CAP
                    &&& (d as int) * (d as int) <= spec_dist_sq(
                        p.0 as int,
                        p.1 as int,
                        lat_penalty as int,
                    ) < ((d + 1) as int) * ((d + 1) as int)
                },
        decreases 6 - a2,
    {
        let mut b2: usize = a2 + 1;
        while b2 < 6
            invariant
                0 <= lat_penalty <= WEIGHT_CAP,
                a2 < 6,
                a2 < b2 <= 6,
                right@ == seq![5usize, 6, 15, 16, 25, 26],
                r@.len() == 33 + index_pairs_before(a2 as int) + b2 - a2 - 1,
                forall|k: int|
                    0 <= k < r@.len() ==> {
                        let (p, d) = #[trigger] r@[k];
                        &&& p.0 < 30
                        &&& p.1 < 30
                        &&& p.0 != p.1
                        &&& spec_col_of(p.0 as int) == spec_col_owner(k)
                        &&& spec_col_of(p.1 as int) == spec_col_owner(k)
                        &&& 0 <= d <= DIST_CAP
                        &&& (d as int) * (d as int) <= spec_dist_sq(
                            p.0 as int,
                            p.1 as int,
                            lat_penalty as int,
                        ) < ((d + 1) as int) * ((d + 1) as int)
                    },
            decreases 6 - b2,
        {
            let ghost pre = r@;
            r.push(make_pair(right[a2], right[b2], lat_penalty));
            proof {
                lemma_ipb_values();
                assert(a2 == 0 || a2 == 1 || a2 == 2 || a2 == 3 || a2 == 4);
                assert(b2 == 1 || b2 == 2 || b2 == 3 || b2 == 4 || b2 == 5);
                let k0 = pre.len() as int;
                assert(33 <= k0 < 48);
                assert(spec_col_owner(k0) == 4);
                assert(spec_col_of(right@[a2 as int] as int) == 4 && spec_col_of(
                    right@[b2 as int] as int,
                ) == 4);
                assert forall|k: int|
                    0 <= k < r@.len() implies {
                    let (p, d) = #[trigger] r@[k];
                    &&& p.0 < 30
                    &&& p.1 < 30
                    &&& p.0 != p.1
                    &&& spec_col_of(p.0 as int) == spec_col_owner(k)
                    &&& spec_col_of(p.1 as int) == spec_col_owner(k)
                    &&& 0 <= d <= DIST_CAP
                    &&& (d as int) * (d as int) <= spec_dist_sq(
                        p.0 as int,
                        p.1 as int,
                        lat_penalty as int,
                    ) < ((d + 1) as int) * ((d + 1) as int)
                } by {
                    if k < pre.len() {
                        assert(r@[k] == pre[k]);
                    }
                }
            }
            b2 += 1;
        }
        a2 += 1;
    }
    proof {
        lemma_ipb_values();
    }
    r
}

/// The fixed scissor pair list.
pub fn get_scissor_indices() -> (r: Vec<PosPair>)
    ensures
        r@ == spec_scissor_list(),
{
    let mut r: Vec<PosPair> = Vec::new();
    r.push(PosPair(0, 21));
    r.push(PosPair(1, 20));
    r.push(PosPair(1, 22));
    r.push(PosPair(2, 21));
    r.push(PosPair(2, 23));
    r.push(PosPair(3, 22));
    r.push(PosPair(3, 24));
    r.push(PosPair(4, 25));
    r.push(PosPair(5, 26));
    r.push(PosPair(6, 27));
    r.push(PosPair(7, 26));
    r.push(PosPair(7, 28));
    r.push(PosPair(8, 27));
    r.push(PosPair(8, 29));
    r.push(PosPair(9, 28));
    proof {
        assert(r@ =~= spec_scissor_list());
    }
    r
}

impl LayoutGeneration {
    /// For every id, the sub-list of the trigrams that contain it.
    pub fn per_char_trigrams(trigrams: &Vec<TrigramEntry>) -> (r: Vec<Vec<TrigramEntry>>)
        ensures
            r@.len() == 60,
            forall|id: int|
                0 <= id < 60 ==> (#[trigger] r@[id])@ == spec_tri_of_char(trigrams@, id as u8),
    {
        let mut r: Vec<Vec<TrigramEntry>> = Vec::new();
        let mut id: usize = 0;
        while id < 60
            invariant
                id <= 60,
                r@.len() == id,
                forall|m: int|
                    0 <= m < id ==> (#[trigger] r@[m])@ == spec_tri_of_char(trigrams@, m as u8),
            decreases 60 - id,
        {
            let mut cur: Vec<TrigramEntry> = Vec::new();
            let mut k: usize = 0;
            while k < trigrams.len()
                invariant
                    k <= trigrams@.len(),
                    id < 60,
                    cur@ == spec_tri_of_char(trigrams@.take(k as int), id as u8),
                decreases trigrams@.len() - k,
            {
                proof {
                    assert(trigrams@.take(k + 1).drop_last() =~= trigrams@.take(k as int));
                    assert(trigrams@.take(k + 1).last() == trigrams@[k as int]);
                }
                let e = trigrams[k];
                if entry_has(&e, id as u8) {
                    cur.push(e);
                }
                k += 1;
            }
            proof {
                assert(trigrams@.take(trigrams@.len() as int) =~= trigrams@);
            }
            r.push(cur);
            id += 1;
        }
        r
    }

    /// Build a scorer from a language model: derive the effort map, the
    /// finger-speed pairs, the scissor list and the per-character trigram
    /// lists, and keep only the `trigram_precision` most frequent trigrams.
    /// The generation alphabet is the thirty first ids.
    pub fn new(data: LanguageData, trigram_precision: usize, weights_opt: Option<Weights>) -> (r:
        Result<LayoutGeneration, DataError>)
        requires
            data.wf(),
            match weights_opt {
                Some(w) => w.wf(),
                None => true,
            },
        ensures
            match r {
                Ok(g) => {
                    &&& g.wf()
                    &&& g.data.trigrams@ == if trigram_precision <= data.trigrams@.len() {
                        data.trigrams@.take(trigram_precision as int)
                    } else {
                        data.trigrams@
                    }
                    &&& g.data.characters@ == data.characters@
                    &&& g.data.bigrams@ == data.bigrams@
                    &&& g.data.skipgrams@ == data.skipgrams@
                    &&& g.data.skipgrams2@ == data.skipgrams2@
                    &&& g.data.skipgrams3@ == data.skipgrams3@
                    &&& g.data.convert_u8 == data.convert_u8
                    &&& g.language == data.language
                    &&& data.convert_u8.spec_len() >= 30
                    &&& g.weights == match weights_opt {
                        Some(w) => w,
                        None => crate::weights::spec_default_weights(),
                    }
                    &&& forall|i: int|
                        0 <= i < 30 ==> (#[trigger] g.effort_map@[i]) as int == spec_mul_fp(
                            spec_base_effort(i),
                            g.weights.heatmap[0] as int,
                        ) + g.weights.heatmap[1] as int
                    &&& forall|k: int|
                        0 <= k < 48 ==> {
                            let (p, d) = #[trigger] g.fspeed_vals@[k];
                            (d as int) * (d as int) <= spec_dist_sq(
                                p.0 as int,
                                p.1 as int,
                                g.weights.lateral_penalty as int,
                            ) < ((d + 1) as int) * ((d + 1) as int)
                        }
                    &&& forall|i: int|
                        0 <= i < 30 ==> (#[trigger] g.chars_for_generation@[i]) as int == i
                },
                Err(e) => {
                    &&& e == DataError::TooFewCharacters
                    &&& data.convert_u8.spec_len() < 30
                },
            },
    {
        let weights = match weights_opt {
            Some(w) => w,
            None => Config::default().weights,
        };
        if data.convert_u8.len() < 30 {
            return Err(DataError::TooFewCharacters);
        }
        let mut chars: Vec<u8> = Vec::new();
        let mut i: usize = 0;
        while i < 30
            invariant
                i <= 30,
                chars@.len() == i,
                forall|k: int| 0 <= k < i ==> (#[trigger] chars@[k]) as int == k,
            decreases 30 - i,
        {
            chars.push(i as u8);
            i += 1;
        }
        let mut data = data;
        let language = data.language.clone();
        let ghost full = data.trigrams@;
        data.trigrams.truncate(trigram_precision);
        proof {
            if trigram_precision <= full.len() {
                assert(data.trigrams@ =~= full.take(trigram_precision as int));
                assert forall|k: int| 0 <= k < data.trigrams@.len() implies {
                    let e = #[trigger] data.trigrams@[k];
                    &&& e.c0 < 60
                    &&& e.c1 < 60
                    &&& e.c2 < 60
                    &&& e.c0 != e.c1
                    &&& e.c1 != e.c2
                    &&& 0 <= e.freq <= FREQ_CAP
                } by {
                    assert(data.trigrams@[k] == full[k]);
                }
            }
        }
        let per_char = Self::per_char_trigrams(&data.trigrams);
        let fspeed_vals = get_fspeed(weights.lateral_penalty);
        let effort_map = get_effort_map(weights.heatmap);
        let scissor_indices = get_scissor_indices();
        Ok(
            LayoutGeneration {
                language,
                data,
                chars_for_generation: chars,
                fspeed_vals,
                effort_map,
                scissor_indices,
                weights,
                per_char_trigrams: per_char,
            },
        )
    }
}

/// The pair counts of the index-column enumeration.
pub proof fn lemma_ipb_values()
    ensures
        index_pairs_before(0) == 0,
        index_pairs_before(1) == 5,
        index_pairs_before(2) == 9,
        index_pairs_before(3) == 12,
        index_pairs_before(4) == 14,
        index_pairs_before(5) == 15,
        index_pairs_before(6) == 15,
{
    reveal_with_fuel(index_pairs_before, 8);
}

/// Number of index-column pairs emitted before outer iteration `a`.
pub open spec fn index_pairs_before(a: int) -> int
    decreases a,
{
    if a <= 0 {
        0
    } else {
        index_pairs_before(a - 1) + 6 - a
    }
}

/// One finger-speed pair with its euclidean distance. The two positions may
/// differ laterally by at most one grid column (pairs never cross fingers).
fn make_pair(p1: usize, p2: usize, lat_penalty: i64) -> (r: (PosPair, i64))
    requires
        p1 < 30,
        p2 < 30,
        p1 != p2,
        p1 % 10 <= p2 % 10 + 1,
        p2 % 10 <= p1 % 10 + 1,
        0 <= lat_penalty <= WEIGHT_CAP,
    ensures
        r.0 == PosPair(p1, p2),
        0 <= r.1 <= DIST_CAP,
        (r.1 as int) * (r.1 as int) <= spec_dist_sq(p1 as int, p2 as int, lat_penalty as int) < ((
        r.1 + 1) as int) * ((r.1 + 1) as int),
{
    let x1 = p1 % 10;
    let x2 = p2 % 10;
    let y1 = p1 / 10;
    let y2 = p2 / 10;
    let dx: i64 = if x1 >= x2 {
        (x1 - x2) as i64
    } else {
        (x2 - x1) as i64
    };
    let dy: i64 = if y1 >= y2 {
        (y1 - y2) as i64
    } else {
        (y2 - y1) as i64
    };
    proof {
        assert(0 <= dx <= 1);
        assert(0 <= dy <= 2);
        assert(0 <= dx * lat_penalty <= WEIGHT_CAP) by (nonlinear_arith)
            requires
                0 <= dx <= 1,
                0 <= lat_penalty <= WEIGHT_CAP,
        ;
        let xs = dx * lat_penalty;
        assert(xs * xs <= WEIGHT_CAP * WEIGHT_CAP) by (nonlinear_arith)
            requires
                0 <= xs <= WEIGHT_CAP,
        ;
        assert(0 <= dy * FP <= 2 * FP) by (nonlinear_arith)
            requires
                0 <= dy <= 2,
        ;
        let ys = dy * FP;
        assert(ys * ys <= (2 * FP) * (2 * FP)) by (nonlinear_arith)
            requires
                0 <= ys <= 2 * FP,
        ;
    }
    let xd: i128 = (dx as i128) * (lat_penalty as i128);
    let yd: i128 = (dy as i128) * (FP as i128);
    let sq: u128 = ((xd * xd) as u128) + ((yd * yd) as u128);
    let d128 = isqrt(sq);
    proof {
        assert(sq as int == spec_dist_sq(p1 as int, p2 as int, lat_penalty as int));
        if d128 > DIST_CAP as u128 {
            assert((d128 as int) * (d128 as int) >= (DIST_CAP as int + 1) * (DIST_CAP as int + 1))
                by (nonlinear_arith)
                requires
                    d128 as int > DIST_CAP as int,
                    DIST_CAP > 0,
            ;
            assert(WEIGHT_CAP * WEIGHT_CAP + (2 * FP) * (2 * FP) < (DIST_CAP as int + 1) * (
            DIST_CAP as int + 1));
            assert(false);
        }
    }
    let d: i64 = d128 as i64;
    (PosPair(p1, p2), d)
}

} // verus!
