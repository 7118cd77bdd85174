//! Trigram pattern classifier.
//!
//! An ordered triple of key positions is classified by the hand and the
//! logical column (finger) of each position alone. Two positions use the same
//! finger exactly when they share a column. Columns 0..3 belong to the left
//! hand, 4..7 to the right; column 3 and column 4 are the index fingers.

use vstd::prelude::*;

use crate::geometry::col_of;
use crate::geometry::spec_col_of;

verus! {

/// The closed set of trigram patterns.
///
/// `Other` is the residual bucket of the classification; with same-finger
/// detection by column none of the 512 column triples falls into it, but it
/// stays in the weight table with weight zero. `Invalid` marks any trigram
/// with a character that is not on the board.
#[derive(Clone, Copy, Debug, PartialEq, Eq, Structural)]
pub enum TrigramPattern {
    Alternate,
    AlternateSfs,
    Inroll,
    Outroll,
    Onehand,
    Redirect,
    BadRedirect,
    Sfb,
    BadSfb,
    Sft,
    Other,
    Invalid,
}

/// Whether a column lies on the right hand.
pub open spec fn spec_on_right(col: int) -> bool {
    col >= 4
}

/// Whether a column is an index finger.
pub open spec fn spec_is_index(col: int) -> bool {
    col == 3 || col == 4
}

/// Classify a triple of columns, each in 0..8.
///
/// - all three on one finger: `Sft`;
/// - exactly one adjacent pair on one finger: `Sfb`, or `BadSfb` when the
///   remaining adjacent transition jumps two or more columns within one hand
///   (a scissor-like stretch);
/// - all on one hand with strictly monotonic columns: `Onehand`; without
///   monotonic columns: `Redirect`, or `BadRedirect` when no index finger
///   takes part;
/// - hands alternating: `AlternateSfs` when the outer columns repeat a finger,
///   else `Alternate`;
/// - otherwise two adjacent keys roll on one hand: `Inroll` toward the index,
///   `Outroll` toward the pinky.
pub open spec fn spec_classify_cols(c1: int, c2: int, c3: int) -> TrigramPattern {
    let h1 = spec_on_right(c1);
    let h2 = spec_on_right(c2);
    let h3 = spec_on_right(c3);
    if c1 == c2 && c2 == c3 {
        TrigramPattern::Sft
    } else if c1 == c2 || c2 == c3 {
        let x = if c1 == c2 {
            c2
        } else {
            c1
        };
        let y = if c1 == c2 {
            c3
        } else {
            c2
        };
        if spec_on_right(x) == spec_on_right(y) && (x - y >= 2 || y - x >= 2) {
            TrigramPattern::BadSfb
        } else {
            TrigramPattern::Sfb
        }
    } else if h1 == h2 && h2 == h3 {
        if (c1 < c2 && c2 < c3) || (c1 > c2 && c2 > c3) {
            TrigramPattern::Onehand
        } else if spec_is_index(c1) || spec_is_index(c2) || spec_is_index(c3) {
            TrigramPattern::Redirect
        } else {
            TrigramPattern::BadRedirect
        }
    } else if h1 != h2 && h2 != h3 {
        if c1 == c3 {
            TrigramPattern::AlternateSfs
        } else {
            TrigramPattern::Alternate
        }
    } else {
        let a = if h1 == h2 {
            c1
        } else {
            c2
        };
        let b = if h1 == h2 {
            c2
        } else {
            c3
        };
        let inward = if spec_on_right(a) {
            a > b
        } else {
            a < b
        };
        if inward {
            TrigramPattern::Inroll
        } else {
            TrigramPattern::Outroll
        }
    }
}

/// Classify a triple of key positions; out-of-range positions are `Invalid`.
pub open spec fn spec_classify_positions(p1: int, p2: int, p3: int) -> TrigramPattern {
    if p1 >= 30 || p2 >= 30 || p3 >= 30 {
        TrigramPattern::Invalid
    } else {
        spec_classify_cols(spec_col_of(p1), spec_col_of(p2), spec_col_of(p3))
    }
}

/// Every triple of on-board positions gets a real pattern, and only
/// out-of-range triples are `Invalid`.
pub proof fn lemma_classifier_total(p1: int, p2: int, p3: int)
    requires
        0 <= p1,
        0 <= p2,
        0 <= p3,
    ensures
        spec_classify_positions(p1, p2, p3) == TrigramPattern::Invalid <==> (p1 >= 30 || p2 >= 30
            || p3 >= 30),
        spec_classify_positions(p1, p2, p3) != TrigramPattern::Other,
{
}

/// Classify three key positions.
pub fn classify(p1: usize, p2: usize, p3: usize) -> (r: TrigramPattern)
    ensures
        r == spec_classify_positions(p1 as int, p2 as int, p3 as int),
{
    if p1 >= 30 || p2 >= 30 || p3 >= 30 {
        return TrigramPattern::Invalid;
    }
    let c1 = col_of(p1);
    let c2 = col_of(p2);
    let c3 = col_of(p3);
    let h1 = c1 >= 4;
    let h2 = c2 >= 4;
    let h3 = c3 >= 4;
    if c1 == c2 && c2 == c3 {
        TrigramPattern::Sft
    } else if c1 == c2 || c2 == c3 {
        let x = if c1 == c2 {
            c2
        } else {
            c1
        };
        let y = if c1 == c2 {
            c3
        } else {
            c2
        };
        if (x >= 4) == (y >= 4) && (x + 2 <= y || y + 2 <= x) {
            TrigramPattern::BadSfb
        } else {
            TrigramPattern::Sfb
        }
    } else if h1 == h2 && h2 == h3 {
        if (c1 < c2 && c2 < c3) || (c1 > c2 && c2 > c3) {
            TrigramPattern::Onehand
        } else if c1 == 3 || c1 == 4 || c2 == 3 || c2 == 4 || c3 == 3 || c3 == 4 {
            TrigramPattern::Redirect
        } else {
            TrigramPattern::BadRedirect
        }
    } else if h1 != h2 && h2 != h3 {
        if c1 == c3 {
            TrigramPattern::AlternateSfs
        } else {
            TrigramPattern::Alternate
        }
    } else {
        let a = if h1 == h2 {
            c1
        } else {
            c2
        };
        let b = if h1 == h2 {
            c2
        } else {
            c3
        };
        let inward = if a >= 4 {
            a > b
        } else {
            a < b
        };
        if inward {
            TrigramPattern::Inroll
        } else {
            TrigramPattern::Outroll
        }
    }
}

} // verus!
