//! A keyboard-layout optimizer.
//!
//! Given a statistical model of a language (character, bigram, skipgram and
//! trigram frequencies, all as fixed-point integers), the library searches the
//! space of 30-key layouts for one that maximizes a weighted ergonomic score.
//! The scoring engine, the incremental swap cache, the trigram classifier and
//! the hill-climbing optimizer are all verified.

mod analyze;
mod cache;
mod codec;
mod fixed;
mod generate;
mod geometry;
mod language_data;
mod laws;
mod layout;
mod optimize;
mod rng;
mod scorer;
mod stats;
mod tri_sums;
mod trigram_patterns;
mod weights;

pub use analyze::LayoutAnalysis;
pub use analyze::chars_eq;
pub use analyze::digits_of;
pub use analyze::is_kb_file;
pub use cache::LayoutCache;
pub use codec::CharCodec;
pub use codec::CodecError;
pub use fixed::FP;
pub use fixed::FREQ_CAP;
pub use fixed::TRIGRAM_CAP;
pub use fixed::WEIGHT_CAP;
pub use generate::LayoutGeneration;
pub use generate::base_effort;
pub use generate::get_effort_map;
pub use generate::get_fspeed;
pub use generate::get_scissor_indices;
pub use geometry::PosPair;
pub use geometry::col_of;
pub use geometry::col_to_start_len;
pub use geometry::possible_swaps;
pub use language_data::DataError;
pub use language_data::LanguageData;
pub use language_data::TrigramEntry;
pub use language_data::get_bigram_data;
pub use language_data::get_char_data;
pub use language_data::get_trigram_data;
pub use layout::FastLayout;
pub use layout::LayoutError;
pub use optimize::pinned_swaps;
pub use optimize::sort_layouts;
pub use rng::Lcg;
pub use stats::BigramType;
pub use stats::LayoutStats;
pub use stats::TrigramStats;
pub use trigram_patterns::TrigramPattern;
pub use trigram_patterns::classify;
pub use weights::Config;
pub use weights::Defaults;
pub use weights::MaxFingerUse;
pub use weights::Weights;
