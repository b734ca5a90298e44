//! Exact-duplicate detection for audio collections: size filters, sample
//! fingerprints, a resumable fingerprint cache, scan planning and grouping.

pub mod cache;
pub mod config;
pub mod decimal;
pub mod dedup;
pub mod fingerprint;
pub mod order;
pub mod record;
pub mod scan;
pub mod size_filter;
pub mod text;
pub mod walker;

pub use cache::{CachedEntry, LoadOutcome, ResumeCache};
pub use dedup::compare_audio_files;
pub use record::{AudioFile, ProcessError};
pub use size_filter::{parse_size_filter, SizeFilter, SizeFilterError};
