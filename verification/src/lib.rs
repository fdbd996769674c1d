//! Wordlist generation from encyclopedia article text.
//!
//! Two independent components:
//! - [`selector`]: reduces a list of candidate article titles to exactly one,
//!   validating interactive numeric choices when the list is ambiguous;
//! - [`wordlist`]: turns raw article text into a sorted, case-insensitively
//!   deduplicated, optionally bounded list of normalized words.
//!
//! All text is handled as UTF-8 byte sequences; the filtering, normalization
//! and ordering rules are defined over ASCII bytes, and bytes outside ASCII
//! pass through untouched (they are stripped by normalization like any other
//! non-alphanumeric byte).

pub mod ascii;
pub mod laws;
pub mod order;
pub mod selector;
pub mod wordlist;
