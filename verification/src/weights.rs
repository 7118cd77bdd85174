//! Scoring weights and configuration.
//!
//! All weights are non-negative fixed-point values (see `fixed::FP`); the
//! scorer subtracts where a weight punishes. `Config::default` supplies the
//! built-in values used when no weights file is given.

use vstd::prelude::*;

use crate::fixed::WEIGHT_CAP;

verus! {

/// Per-finger usage thresholds and the penalty for exceeding them.
#[derive(Clone, Copy, Debug)]
pub struct MaxFingerUse {
    pub pinky: i64,
    pub ring: i64,
    pub middle: i64,
    pub index: i64,
    pub penalty: i64,
}

/// The weight of every scoring aspect, as non-negative fixed-point values.
///
/// `heatmap` is a (scale, offset) pair applied to the baseline effort grid.
/// `dsfb_ratio`, `dsfb_ratio2` and `dsfb_ratio3` discount the three skipgram
/// orders inside the finger-speed aspect.
#[derive(Clone, Copy, Debug)]
pub struct Weights {
    pub heatmap: [i64; 2],
    pub sfb: i64,
    pub dsfb: i64,
    pub fspeed: i64,
    pub scissors: i64,
    pub inrolls: i64,
    pub outrolls: i64,
    pub onehands: i64,
    pub alternates: i64,
    pub alternates_sfs: i64,
    pub redirects: i64,
    pub bad_redirects: i64,
    pub lateral_penalty: i64,
    pub dsfb_ratio: i64,
    pub dsfb_ratio2: i64,
    pub dsfb_ratio3: i64,
    pub max_finger_use: MaxFingerUse,
}

impl Weights {
    /// Every weight within `[0, WEIGHT_CAP]`.
    pub open spec fn wf(&self) -> bool {
        &&& 0 <= self.heatmap[0] <= WEIGHT_CAP
        &&& 0 <= self.heatmap[1] <= WEIGHT_CAP
        &&& 0 <= self.sfb <= WEIGHT_CAP
        &&& 0 <= self.dsfb <= WEIGHT_CAP
        &&& 0 <= self.fspeed <= WEIGHT_CAP
        &&& 0 <= self.scissors <= WEIGHT_CAP
        &&& 0 <= self.inrolls <= WEIGHT_CAP
        &&& 0 <= self.outrolls <= WEIGHT_CAP
        &&& 0 <= self.onehands <= WEIGHT_CAP
        &&& 0 <= self.alternates <= WEIGHT_CAP
        &&& 0 <= self.alternates_sfs <= WEIGHT_CAP
        &&& 0 <= self.redirects <= WEIGHT_CAP
        &&& 0 <= self.bad_redirects <= WEIGHT_CAP
        &&& 0 <= self.lateral_penalty <= WEIGHT_CAP
        &&& 0 <= self.dsfb_ratio <= WEIGHT_CAP
        &&& 0 <= self.dsfb_ratio2 <= WEIGHT_CAP
        &&& 0 <= self.dsfb_ratio3 <= WEIGHT_CAP
        &&& 0 <= self.max_finger_use.pinky <= WEIGHT_CAP
        &&& 0 <= self.max_finger_use.ring <= WEIGHT_CAP
        &&& 0 <= self.max_finger_use.middle <= WEIGHT_CAP
        &&& 0 <= self.max_finger_use.index <= WEIGHT_CAP
        &&& 0 <= self.max_finger_use.penalty <= WEIGHT_CAP
    }
}

/// The built-in weight values, in fixed point.
pub open spec fn spec_default_weights() -> Weights {
    Weights {
        heatmap: [140_000_000i64, 60_000_000i64],
        sfb: 1_500_000_000,
        dsfb: 250_000_000,
        fspeed: 200_000_000,
        scissors: 100_000_000,
        inrolls: 60_000_000,
        outrolls: 40_000_000,
        onehands: 50_000_000,
        alternates: 50_000_000,
        alternates_sfs: 25_000_000,
        redirects: 50_000_000,
        bad_redirects: 450_000_000,
        lateral_penalty: 140_000_000,
        dsfb_ratio: 35_000_000,
        dsfb_ratio2: 10_000_000,
        dsfb_ratio3: 5_000_000,
        max_finger_use: MaxFingerUse {
            pinky: 18_000_000,
            ring: 25_000_000,
            middle: 32_000_000,
            index: 45_000_000,
            penalty: 500_000_000,
        },
    }
}

/// Startup defaults that do not score anything.
pub struct Defaults {
    pub language: String,
}

/// The whole configuration: defaults and weights.
pub struct Config {
    pub defaults: Defaults,
    pub weights: Weights,
}

impl Config {
    /// Built-in configuration, used when no weights file is given.
    pub fn default() -> (r: Config)
        ensures
            r.weights.wf(),
            r.weights == spec_default_weights(),
            r.defaults.language@ == "english"@,
    {
        Config {
            defaults: Defaults { language: "english".to_owned() },
            weights: Weights {
                heatmap: [140_000_000, 60_000_000],
                sfb: 1_500_000_000,
                dsfb: 250_000_000,
                fspeed: 200_000_000,
                scissors: 100_000_000,
                inrolls: 60_000_000,
                outrolls: 40_000_000,
                onehands: 50_000_000,
                alternates: 50_000_000,
                alternates_sfs: 25_000_000,
                redirects: 50_000_000,
                bad_redirects: 450_000_000,
                lateral_penalty: 140_000_000,
                dsfb_ratio: 35_000_000,
                dsfb_ratio2: 10_000_000,
                dsfb_ratio3: 5_000_000,
                max_finger_use: MaxFingerUse {
                    pinky: 18_000_000,
                    ring: 25_000_000,
                    middle: 32_000_000,
                    index: 45_000_000,
                    penalty: 500_000_000,
                },
            },
        }
    }
}

} // verus!
