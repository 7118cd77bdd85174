//! Static geometry of the 30-key board: position/column mapping, the candidate
//! swap list, and the fixed layout of the finger-speed pair table.
//!
//! Positions 0..9 are the top row, 10..19 the home row, 20..29 the bottom row.
//! Within a row, 0..4 belong to the left hand (pinky to index) and 5..9 to the
//! right hand (index to pinky). Logical columns (fingers) number 8: columns
//! 0..2 are the left pinky/ring/middle, column 3 the left index (grid columns
//! 3 and 4), column 4 the right index (grid columns 5 and 6), and columns 5..7
//! the right middle/ring/pinky.

use vstd::prelude::*;

verus! {

/// An unordered pair of key positions, each in `0..30`.
#[derive(Clone, Copy, Debug, PartialEq, Eq, Structural)]
pub struct PosPair(pub usize, pub usize);

/// The logical column (finger) of a key position.
pub open spec fn spec_col_of(pos: int) -> int {
    let x = pos % 10;
    if x <= 2 {
        x
    } else if x <= 4 {
        3
    } else if x <= 6 {
        4
    } else {
        x - 2
    }
}

/// Column of a position.
pub fn col_of(pos: usize) -> (c: usize)
    requires
        pos < 30,
    ensures
        c == spec_col_of(pos as int),
        c < 8,
{
    let x = pos % 10;
    if x <= 2 {
        x
    } else if x <= 4 {
        3
    } else if x <= 6 {
        4
    } else {
        x - 2
    }
}

/// Start and length of a column's slice of the 48-entry finger-speed table.
///
/// The table holds the three same-column pairs of each non-index column first
/// (columns 0, 1, 2, then 5, 6, 7), then the fifteen within-column pairs of
/// each index column.
pub open spec fn spec_col_to_start_len(col: int) -> (int, int) {
    if col <= 2 {
        (col * 3, 3)
    } else if col <= 4 {
        (18 + (col - 3) * 15, 15)
    } else {
        ((col - 2) * 3, 3)
    }
}

/// Where a column's pairs sit in the finger-speed table.
pub fn col_to_start_len(col: usize) -> (r: (usize, usize))
    requires
        col < 8,
    ensures
        (r.0 as int, r.1 as int) == spec_col_to_start_len(col as int),
        r.0 + r.1 <= 48,
{
    let r = if col <= 2 {
        (col * 3, 3)
    } else if col <= 4 {
        (18 + (col - 3) * 15, 15)
    } else {
        ((col - 2) * 3, 3)
    };
    r
}

/// Whether a sequence of pairs holds the pair (i, j).
pub open spec fn has_pair(s: Seq<PosPair>, i: usize, j: usize) -> bool {
    exists|k: int| 0 <= k < s.len() && s[k] == PosPair(i, j)
}

/// The lexicographic order the swap enumeration follows.
pub open spec fn spec_lex_before(a: PosPair, b: PosPair) -> bool {
    a.0 < b.0 || (a.0 == b.0 && a.1 < b.1)
}

/// Every unordered pair of distinct positions, 435 in all, in lexicographic
/// order, so that first-candidate tie-breaking follows this enumeration.
pub fn possible_swaps() -> (r: Vec<PosPair>)
    ensures
        r@.len() == 435,
        forall|k: int| 0 <= k < r@.len() ==> (#[trigger] r@[k]).0 < r@[k].1 && r@[k].1 < 30,
        forall|i: usize, j: usize| i < j && j < 30 ==> #[trigger] has_pair(r@, i, j),
        forall|k: int, l: int| 0 <= k < l < r@.len() ==> spec_lex_before(r@[k], r@[l]),
{
    let mut r: Vec<PosPair> = Vec::new();
    let mut i: usize = 0;
    while i < 30
        invariant
            i <= 30,
            r@.len() == sum_pairs(i as int),
            forall|k: int| 0 <= k < r@.len() ==> (#[trigger] r@[k]).0 < r@[k].1 && r@[k].1 < 30,
            forall|a: usize, b: usize| a < b && b < 30 && a < i ==> #[trigger] has_pair(r@, a, b),
            forall|k: int| 0 <= k < r@.len() ==> (#[trigger] r@[k]).0 < i,
            forall|k: int, l: int| 0 <= k < l < r@.len() ==> spec_lex_before(r@[k], r@[l]),
        decreases 30 - i,
    {
        let mut j: usize = i + 1;
        while j < 30
            invariant
                i < j <= 30,
                r@.len() == sum_pairs(i as int) + j - i - 1,
                forall|k: int| 0 <= k < r@.len() ==> (#[trigger] r@[k]).0 < r@[k].1 && r@[k].1 < 30,
                forall|a: usize, b: usize|
                    a < b && b < 30 && a < i ==> #[trigger] has_pair(r@, a, b),
                forall|b: usize| i < b && b < j ==> #[trigger] has_pair(r@, i, b),
                forall|k: int|
                    0 <= k < r@.len() ==> (#[trigger] r@[k]).0 < i || (r@[k].0 == i && r@[k].1 < j),
                forall|k: int, l: int| 0 <= k < l < r@.len() ==> spec_lex_before(r@[k], r@[l]),
            decreases 30 - j,
        {
            let ghost old_r = r@;
            r.push(PosPair(i, j));
            proof {
                assert forall|a: usize, b: usize|
                    a < b && b < 30 && a < i implies #[trigger] has_pair(r@, a, b) by {
                    assert(has_pair(old_r, a, b));
                    let k = choose|k: int| 0 <= k < old_r.len() && old_r[k] == PosPair(a, b);
                    assert(r@[k] == PosPair(a, b));
                }
                assert forall|b: usize| i < b && b <= j implies #[trigger] has_pair(r@, i, b) by {
                    if b < j {
                        assert(has_pair(old_r, i, b));
                        let k = choose|k: int| 0 <= k < old_r.len() && old_r[k] == PosPair(i, b);
                        assert(r@[k] == PosPair(i, b));
                    } else {
                        assert(r@[r@.len() - 1] == PosPair(i, b));
                    }
                }
            }
            j += 1;
        }
        i += 1;
    }
    proof {
        reveal_with_fuel(sum_pairs, 31);
        assert(sum_pairs(30) == 435);
    }
    r
}

/// Number of pairs (a, b) with a < b < 30 and a < i.
pub open spec fn sum_pairs(i: int) -> int
    decreases i,
{
    if i <= 0 {
        0
    } else {
        sum_pairs(i - 1) + 30 - i
    }
}

} // verus!
