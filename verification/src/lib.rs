//! Finds the interesting pieces of text on a screen of terminal lines (URLs,
//! paths, hashes, addresses, numbers and user-supplied patterns) and gives
//! each a short label that can be typed to pick it.
//!
//! * [`matcher`] holds the regular expression engine behind a narrow, trusted
//!   boundary: every fact that the proofs take on faith is stated there.
//! * [`text`] slices lines at byte offsets.
//! * [`catalog`] is the ordered list of patterns that a scan works with.
//! * [`scanner`] walks a line and resolves competing patterns.
//! * [`alphabets`] produces the labels.
//! * [`allocation`] decides which match receives which label.
//! * [`state`] ties the pieces into one operation.
//! * [`error`] names the ways in which that operation fails.

pub mod allocation;
pub mod alphabets;
pub mod catalog;
pub mod error;
pub mod matcher;
pub mod scanner;
pub mod state;
pub mod text;
