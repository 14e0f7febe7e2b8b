//! Matches, and the operation that finds and labels them.

use crate::allocation::{
    allocate, allocated, demand, lemma_assigned_keeps_places, texts_of, walk_order,
};
use crate::alphabets::{hint_list, letters_of};
use crate::catalog::{build, built, first_invalid, texts};
use crate::error::ScanError;
use crate::scanner::{
    apart, lemma_scan_lines_laid_out, ordered, placed, precedes, scan_all, scan_lines,
};
use crate::text::{byte_len, is_span, slice};
use vstd::prelude::*;

verus! {

/// A piece of a line worth picking, and the label it was given.
///
/// Two matches are equal when they stand at the same place, whatever else
/// they hold.
#[derive(Clone, Debug)]
pub struct Match<'a> {
    /// Where the text starts in its line, as a byte offset.
    pub x: usize,
    /// The line, counted from zero.
    pub y: usize,
    /// The text itself, borrowed from the line.
    pub text: &'a str,
    /// The label: `None` until labels are handed out, and for good where
    /// there were fewer labels than matches.
    pub hint: Option<String>,
}

/// A match as the contracts see it.
pub struct MatchView {
    pub x: int,
    pub y: int,
    pub text: Seq<char>,
    pub hint: Option<Seq<char>>,
}

impl<'a> View for Match<'a> {
    type V = MatchView;

    open spec fn view(&self) -> MatchView {
        MatchView {
            x: self.x as int,
            y: self.y as int,
            text: self.text@,
            hint: match self.hint {
                Some(label) => Some(label@),
                None => None,
            },
        }
    }
}

impl<'a> PartialEq for Match<'a> {
    fn eq(&self, other: &Match<'a>) -> (r: bool) {
        self.x == other.x && self.y == other.y
    }
}

impl<'a> vstd::std_specs::cmp::PartialEqSpecImpl for Match<'a> {
    open spec fn obeys_eq_spec() -> bool {
        true
    }

    open spec fn eq_spec(&self, other: &Match<'a>) -> bool {
        self.x == other.x && self.y == other.y
    }
}

/// The views of a list of matches, in order.
pub open spec fn match_views(matches: Seq<Match>) -> Seq<MatchView> {
    Seq::new(matches.len(), |i: int| matches[i]@)
}

/// What a scan of `lines` with the given custom patterns finds, before any
/// label is handed out: the matches of all lines in the order of the scan,
/// or why there are none.
pub open spec fn found(custom: Seq<Seq<char>>, lines: Seq<Seq<char>>) -> Result<
    Seq<MatchView>,
    ScanError,
> {
    match built(custom) {
        Ok(cat) => match scan_lines(cat, lines, lines.len() as int) {
            Some(matches) => Ok(matches),
            None => Err(ScanError::Internal),
        },
        Err(e) => Err(e),
    }
}

/// What the whole operation comes to: the matches found, labelled.
pub open spec fn outcome(
    custom: Seq<Seq<char>>,
    lines: Seq<Seq<char>>,
    letters: Seq<char>,
    reverse: bool,
    unique: bool,
) -> Result<Seq<MatchView>, ScanError> {
    match found(custom, lines) {
        Ok(matches) => Ok(allocated(matches, letters, reverse, unique)),
        Err(e) => Err(e),
    }
}

/// What a scan finds, it finds in the lines: each match is a piece of its
/// line, taken at its place, and ends before the next match begins.
pub proof fn lemma_found_laid_out(custom: Seq<Seq<char>>, lines: Seq<Seq<char>>)
    ensures
        found(custom, lines) matches Ok(matches) ==> {
            &&& forall|k: int|
                0 <= k < matches.len() ==> 0 <= (#[trigger] matches[k]).y < lines.len() && placed(
                    matches[k],
                    lines[matches[k].y],
                )
            &&& forall|i: int, j: int|
                0 <= i < j < matches.len() ==> apart(#[trigger] matches[i], #[trigger] matches[j])
        },
{
    if let Ok(cat) = built(custom) {
        lemma_scan_lines_laid_out(cat, lines, lines.len() as int);
    }
}

/// Whether `m` is a piece of one of `lines`: the text that the line holds
/// at the place of `m`.
pub open spec fn located(m: MatchView, lines: Seq<Seq<char>>) -> bool {
    &&& 0 <= m.y < lines.len()
    &&& 0 <= m.x
    &&& is_span(lines[m.y], m.x, m.x + byte_len(m.text))
    &&& m.text == slice(lines[m.y], m.x, m.x + byte_len(m.text))
}

/// Labelled or not, the matches lie where the scan found them: each is a
/// piece of its line, taken at its place, and ends before the next begins.
pub proof fn lemma_outcome_laid_out(
    custom: Seq<Seq<char>>,
    lines: Seq<Seq<char>>,
    letters: Seq<char>,
    reverse: bool,
    unique: bool,
)
    ensures
        outcome(custom, lines, letters, reverse, unique) matches Ok(matches) ==> {
            &&& forall|k: int| 0 <= k < matches.len() ==> located(#[trigger] matches[k], lines)
            &&& forall|i: int, j: int|
                0 <= i < j < matches.len() ==> apart(#[trigger] matches[i], #[trigger] matches[j])
        },
{
    if let Ok(raw) = found(custom, lines) {
        lemma_found_laid_out(custom, lines);
        let hints = hint_list(letters, demand(walk_order(texts_of(raw), reverse), unique));
        lemma_assigned_keeps_places(raw, hints, reverse, unique);
        let labelled = allocated(raw, letters, reverse, unique);
        assert forall|k: int| 0 <= k < labelled.len() implies located(
            #[trigger] labelled[k],
            lines,
        ) by {
            assert(placed(raw[k], lines[raw[k].y]));
        }
        assert forall|i: int, j: int| 0 <= i < j < labelled.len() implies apart(
            #[trigger] labelled[i],
            #[trigger] labelled[j],
        ) by {
            assert(apart(raw[i], raw[j]));
        }
    }
}

/// Whatever the lines, the patterns, the alphabet and the two flags: the
/// matches come back in the order of their places, line by line and from
/// left to right within a line.
pub proof fn lemma_outcome_ordered(
    custom: Seq<Seq<char>>,
    lines: Seq<Seq<char>>,
    letters: Seq<char>,
    reverse: bool,
    unique: bool,
)
    ensures
        outcome(custom, lines, letters, reverse, unique) matches Ok(matches) ==> ordered(matches),
{
    if let Ok(matches) = outcome(custom, lines, letters, reverse, unique) {
        lemma_outcome_laid_out(custom, lines, letters, reverse, unique);
        assert forall|i: int, j: int| 0 <= i < j < matches.len() implies precedes(
            #[trigger] matches[i],
            #[trigger] matches[j],
        ) by {
            assert(apart(matches[i], matches[j]));
        }
    }
}

/// What a scan works on: the lines of the screen, the alphabet of the
/// labels and the custom patterns.
pub struct State<'a> {
    pub lines: &'a Vec<&'a str>,
    alphabet: &'a str,
    regexp: &'a Vec<&'a str>,
}

impl<'a> State<'a> {
    /// The lines, in order.
    pub closed spec fn rows(&self) -> Seq<Seq<char>> {
        texts(self.lines@)
    }

    /// The name of the alphabet.
    pub closed spec fn alphabet(&self) -> Seq<char> {
        self.alphabet@
    }

    /// The custom patterns, in order.
    pub closed spec fn patterns(&self) -> Seq<Seq<char>> {
        texts(self.regexp@)
    }

    /// Holds on to what a scan needs; nothing is looked at yet.
    pub fn new(lines: &'a Vec<&'a str>, alphabet: &'a str, regexp: &'a Vec<&'a str>) -> (state:
        State<'a>)
        ensures
            state.rows() == texts(lines@),
            state.alphabet() == alphabet@,
            state.patterns() == texts(regexp@),
    {
        State { lines, alphabet, regexp }
    }

    /// Finds the matches of all lines and labels them.
    ///
    /// The catalog is built first: a custom pattern that is not valid ends
    /// the operation before a line is looked at. Then the lines are scanned
    /// in order, and last the labels are handed out, from the first match
    /// on or, with `reverse`, from the last; with `unique`, equal texts
    /// share one label. The matches come back in the order of their places
    /// whatever the flags.
    pub fn matches(&self, reverse: bool, unique: bool) -> (r: Result<Vec<Match<'a>>, ScanError>)
        ensures
            r matches Ok(matches) ==> outcome(
                self.patterns(),
                self.rows(),
                letters_of(self.alphabet()),
                reverse,
                unique,
            ) == Ok::<Seq<MatchView>, ScanError>(match_views(matches@)),
            r matches Err(e) ==> outcome(
                self.patterns(),
                self.rows(),
                letters_of(self.alphabet()),
                reverse,
                unique,
            ) == Err::<Seq<MatchView>, ScanError>(e),
            r matches Err(ScanError::BadPattern { index }) ==> first_invalid(
                self.patterns(),
                index as int,
            ),
            r matches Ok(matches) ==> ordered(match_views(matches@)),
            r matches Ok(matches) ==> forall|k: int|
                0 <= k < matches@.len() ==> located((#[trigger] matches@[k])@, self.rows()),
    {
        let cat = match build(self.regexp) {
            Ok(cat) => cat,
            Err(e) => {
                return Err(e);
            },
        };
        let raw = match scan_all(&cat, self.lines) {
            Ok(raw) => raw,
            Err(e) => {
                return Err(e);
            },
        };
        let labelled = allocate(raw, self.alphabet, reverse, unique);
        proof {
            lemma_outcome_ordered(
                self.patterns(),
                self.rows(),
                letters_of(self.alphabet()),
                reverse,
                unique,
            );
            lemma_outcome_laid_out(
                self.patterns(),
                self.rows(),
                letters_of(self.alphabet()),
                reverse,
                unique,
            );
            assert forall|k: int| 0 <= k < labelled@.len() implies located(
                (#[trigger] labelled@[k])@,
                self.rows(),
            ) by {
                assert(match_views(labelled@)[k] == labelled@[k]@);
            }
        }
        Ok(labelled)
    }
}

} // verus!
