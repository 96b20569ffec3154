//! Line-oriented redaction of fixed-length decimal digit runs.
//!
//! The library scans text line by line, finds every maximal run of exactly
//! `num_digits` consecutive ASCII decimal digits, and replaces each such run
//! with a fixed mask token of the same width.  A run that forms the tail
//! block of a canonical hyphenated UUID embedded in the line is left alone
//! when the redaction is UUID-aware.

pub mod digit_sequence_finder;
pub mod laws;
pub mod masker;
pub mod model;
pub mod redaction;
pub mod redactor;
pub mod uuid_recogniser;
