//! The ways in which a scan can fail.

use vstd::prelude::*;

verus! {

/// Why a scan produced no matches at all.
#[derive(Clone, Copy, Debug, PartialEq, Eq, Structural)]
pub enum ScanError {
    /// The custom pattern at `index` is not a pattern the engine accepts.
    /// Found while the catalog is built, before any line is looked at.
    BadPattern { index: usize },
    /// The catalog is at odds with itself: a fixed pattern was not accepted,
    /// a match could not be cut out of its line or consumed nothing, or a
    /// pattern that declares a capture group matched without it.
    Internal,
}

impl ScanError {
    /// A sentence for the person at the terminal.
    pub fn message(&self) -> (r: String)
        ensures
            r@ == match *self {
                ScanError::BadPattern { .. } => "invalid custom pattern"@,
                ScanError::Internal => "the pattern catalog is inconsistent"@,
            },
    {
        match self {
            ScanError::BadPattern { .. } => "invalid custom pattern".to_owned(),
            ScanError::Internal => "the pattern catalog is inconsistent".to_owned(),
        }
    }
}

} // verus!
