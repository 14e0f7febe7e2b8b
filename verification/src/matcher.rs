//! The regular expression engine, seen through the few calls the scanner
//! makes. Nothing in this module is proved: each contract below is a claim
//! about the `regex` crate.

use regex::Regex;
use vstd::prelude::*;

verus! {

/// `regex::Regex`, a compiled pattern. Nothing is claimed of what it holds.
#[verifier::external_type_specification]
#[verifier::external_body]
pub struct ExRegex(Regex);

/// `regex::Error`, the engine's reason for refusing a pattern. Nothing is
/// claimed of what it holds.
#[verifier::external_type_specification]
#[verifier::external_body]
pub struct ExRegexError(regex::Error);

/// Whether the engine accepts `pattern`: it parses, and its program stays
/// within the engine's default size limit.
pub uninterp spec fn pattern_is_valid(pattern: Seq<char>) -> bool;

/// How many capture groups `pattern` declares, the implicit group of the
/// whole match included.
pub uninterp spec fn capture_groups(pattern: Seq<char>) -> usize;

/// The byte offsets `(start, end)` of the first match of `pattern` in `text`,
/// or `None` where it matches nowhere.
pub uninterp spec fn leftmost_match(pattern: Seq<char>, text: Seq<char>) -> Option<(usize, usize)>;

/// What the first explicit capture group holds in the first match of
/// `pattern` in `text`: `None` where the pattern matches nowhere,
/// `Some(None)` where it matches without that group taking part, and
/// otherwise the group's byte offsets `(start, end)` in `text`.
pub uninterp spec fn leading_group(pattern: Seq<char>, text: Seq<char>) -> Option<
    Option<(usize, usize)>,
>;

/// A compiled pattern, kept beside the text it was compiled from. Values are
/// made by [`compile`] alone, so the program always belongs to the text.
pub struct Matcher {
    source: String,
    program: Regex,
}

impl View for Matcher {
    type V = Seq<char>;

    /// The pattern text.
    closed spec fn view(&self) -> Seq<char> {
        self.source@
    }
}

/// `regex::Regex::new`. Whether a pattern is accepted depends on the pattern
/// alone; an accepted pattern yields a matcher for exactly that text.
#[verifier::external_body]
pub(crate) fn compile(pattern: &str) -> (r: Result<Matcher, regex::Error>)
    ensures
        r is Ok <==> pattern_is_valid(pattern@),
        r matches Ok(m) ==> m@ == pattern@,
{
    match Regex::new(pattern) {
        Ok(program) => Ok(Matcher { source: pattern.to_string(), program }),
        Err(e) => Err(e),
    }
}

/// `regex::Regex::captures_len`. The number of groups is a property of the
/// pattern text.
#[verifier::external_body]
pub(crate) fn count_groups(m: &Matcher) -> (n: usize)
    ensures
        n == capture_groups(m@),
{
    m.program.captures_len()
}

/// `regex::Regex::find`. The first match in `text` depends on the pattern and
/// the text alone; it is reported as the byte offsets of its two ends.
#[verifier::external_body]
pub(crate) fn find_first(m: &Matcher, text: &str) -> (r: Option<(usize, usize)>)
    ensures
        r == leftmost_match(m@, text@),
{
    m.program.find(text).map(|found| (found.start(), found.end()))
}

/// `regex::Regex::captures`, read at group 1 with `regex::Captures::get`. The
/// outcome depends on the pattern and the text alone.
#[verifier::external_body]
pub(crate) fn find_leading_group(m: &Matcher, text: &str) -> (r: Option<Option<(usize, usize)>>)
    ensures
        r == leading_group(m@, text@),
{
    m.program.captures(text).map(|groups| groups.get(1).map(|g| (g.start(), g.end())))
}

} // verus!
