//! Grouping of words by their phonemic transcription.
//!
//! The crate collects words with their transcriptions in a [`dictionary::Dictionary`],
//! groups them by exact or approximate transcription, and merges groups that share
//! members with a [`word_groups::GroupBuilder`].
pub mod classes;
pub mod determinism;
pub mod dictionary;
pub mod distance;
pub mod forest;
pub mod group_builder;
pub mod iter;
pub mod language;
pub mod language_code;
pub mod language_detection;
pub mod macros;
pub mod options;
pub mod phoneme;
pub mod text;
pub mod util;
pub mod word_groups;
