//! The line scanner.
//!
//! A line is consumed from left to right. At each step every pattern of the
//! catalog is tried on what is left of the line; the match that starts first
//! wins, and among matches that start at the same place the pattern that
//! stands first in the catalog. The winner is reported, unless it is an
//! exclusion, and the scan resumes behind it.

use crate::catalog::{texts, views, Kind, Pattern, PatternView};
use crate::error::ScanError;
use crate::matcher::{
    capture_groups, count_groups, find_first, find_leading_group, leading_group, leftmost_match,
};
use crate::state::{match_views, Match, MatchView};
use crate::text::{
    behind, byte_len, cut, is_span, lemma_slice, lemma_slice_all, lemma_slice_of_slice, length,
    slice, tail,
};
use vstd::prelude::*;

verus! {

/// Where each pattern of the catalog first matches in `text`, if at all.
pub open spec fn found(cat: Seq<PatternView>, text: Seq<char>) -> Seq<Option<(usize, usize)>> {
    Seq::new(cat.len(), |i: int| leftmost_match(cat[i].source, text))
}

/// Where a candidate starts.
pub open spec fn start_of(hit: Option<(usize, usize)>) -> int {
    match hit {
        Some((start, _)) => start as int,
        None => 0,
    }
}

/// Where a candidate ends.
pub open spec fn end_of(hit: Option<(usize, usize)>) -> int {
    match hit {
        Some((_, end)) => end as int,
        None => 0,
    }
}

/// Whether candidate `i` wins: it is a match, no match starts before it, and
/// none that starts with it stands earlier in the list.
pub open spec fn leads(hits: Seq<Option<(usize, usize)>>, i: int) -> bool {
    &&& 0 <= i < hits.len()
    &&& hits[i] is Some
    &&& forall|j: int|
        0 <= j < hits.len() && (#[trigger] hits[j]) is Some ==> {
            ||| start_of(hits[i]) < start_of(hits[j])
            ||| start_of(hits[i]) == start_of(hits[j]) && i <= j
        }
}

/// Whether nothing matched.
pub open spec fn all_missed(hits: Seq<Option<(usize, usize)>>) -> bool {
    forall|j: int| 0 <= j < hits.len() ==> (#[trigger] hits[j]) is None
}

/// The winning candidate, where there is a match at all.
pub open spec fn leader(hits: Seq<Option<(usize, usize)>>) -> int {
    choose|i: int| leads(hits, i)
}

/// Only one candidate wins.
pub proof fn lemma_leads_unique(hits: Seq<Option<(usize, usize)>>, i: int, j: int)
    requires
        leads(hits, i),
        leads(hits, j),
    ensures
        i == j,
        leader(hits) == i,
        !all_missed(hits),
{
}

/// Picks the winner among the candidates: the match that starts first, and
/// of several that start together the one listed first.
pub fn pick_leftmost(hits: &Vec<Option<(usize, usize)>>) -> (r: Option<usize>)
    ensures
        r matches Some(i) ==> leads(hits@, i as int),
        r is None <==> all_missed(hits@),
{
    let mut best: Option<usize> = None;
    let mut i: usize = 0;
    while i < hits.len()
        invariant
            i <= hits.len(),
            best matches Some(b) ==> leads(hits@.take(i as int), b as int),
            best is None ==> all_missed(hits@.take(i as int)),
        decreases hits.len() - i,
    {
        let ghost before = hits@.take(i as int);
        let ghost after = hits@.take(i + 1);
        assert(forall|j: int| 0 <= j < i ==> before[j] == after[j]);
        match hits[i] {
            None => {},
            Some((start, _)) => {
                let better = match best {
                    None => true,
                    Some(b) => {
                        assert(before[b as int] == hits@[b as int]);
                        match hits[b] {
                            Some((lead, _)) => start < lead,
                            None => false,
                        }
                    },
                };
                if better {
                    best = Some(i);
                }
            },
        }
        assert(best matches Some(b) ==> leads(after, b as int)) by {
            if let Some(b) = best {
                assert forall|j: int| 0 <= j < after.len() && (#[trigger] after[j]) is Some implies {
                    ||| start_of(after[b as int]) < start_of(after[j])
                    ||| start_of(after[b as int]) == start_of(after[j]) && b <= j
                } by {
                    if j < i {
                        assert(before[j] is Some);
                    }
                }
            }
        }
        assert(best is None ==> all_missed(after)) by {
            if best is None {
                assert forall|j: int| 0 <= j < after.len() implies (#[trigger] after[j]) is None by {
                    if j < i {
                        assert(before[j] is None);
                    }
                }
            }
        }
        i += 1;
    }
    assert(hits@.take(i as int) =~= hits@);
    best
}

/// What one step of the scan comes to.
pub enum Step {
    /// Nothing matches in what is left of the line.
    Done,
    /// The winner cannot be used: it consumed nothing, its offsets do not
    /// delimit a piece of the line, or its capture group is missing.
    Fault,
    /// The winner was consumed; the scan resumes at byte offset `resume`.
    Next { emitted: Option<MatchView>, resume: int },
}

/// The part of a winner's text that is reported, as byte offsets into that
/// text, for a pattern that declares `groups` capture groups, the implicit
/// one included, and whose first explicit group came out as `group`: that
/// group where the pattern declares one, else the whole text. `None` where
/// a declared group is missing.
pub open spec fn chosen_span(
    groups: usize,
    group: Option<Option<(usize, usize)>>,
    matched: Seq<char>,
) -> Option<(int, int)> {
    if groups > 1 {
        match group {
            Some(Some((start, end))) => Some((start as int, end as int)),
            _ => None,
        }
    } else {
        Some((0, byte_len(matched) as int))
    }
}

/// The part of a winner's text that is reported, for the pattern `pattern`.
pub open spec fn emitted_span(pattern: PatternView, matched: Seq<char>) -> Option<(int, int)> {
    chosen_span(
        capture_groups(pattern.source),
        leading_group(pattern.source, matched),
        matched,
    )
}

/// One step of the scan of `line`, number `y`, from byte offset `offset` on.
pub open spec fn step(cat: Seq<PatternView>, line: Seq<char>, y: int, offset: int) -> Step {
    let hits = found(cat, tail(line, offset));
    if all_missed(hits) {
        Step::Done
    } else {
        let winner = leader(hits);
        let from = offset + start_of(hits[winner]);
        let to = offset + end_of(hits[winner]);
        if !(offset < to && is_span(line, from, to)) {
            Step::Fault
        } else if cat[winner].kind == Kind::Exclude {
            Step::Next { emitted: None, resume: to }
        } else {
            match emitted_span(cat[winner], slice(line, from, to)) {
                Some((c, d)) => if is_span(line, from + c, from + d) && from + d <= to {
                    Step::Next {
                        emitted: Some(
                            MatchView {
                                x: from + c,
                                y,
                                text: slice(line, from + c, from + d),
                                hint: None,
                            },
                        ),
                        resume: to,
                    }
                } else {
                    Step::Fault
                },
                None => Step::Fault,
            }
        }
    }
}

/// `head` followed by `rest`, where there is a rest.
pub open spec fn prepend(head: Seq<MatchView>, rest: Option<Seq<MatchView>>) -> Option<
    Seq<MatchView>,
> {
    match rest {
        Some(r) => Some(head + r),
        None => None,
    }
}

/// The matches of `line` from byte offset `offset` on, in the order in which
/// the scan meets them; `None` where a step faults.
pub open spec fn scan_from(cat: Seq<PatternView>, line: Seq<char>, y: int, offset: int) -> Option<
    Seq<MatchView>,
>
    decreases byte_len(line) - offset,
{
    match step(cat, line, y, offset) {
        Step::Done => Some(Seq::empty()),
        Step::Fault => None,
        Step::Next { emitted, resume } => if offset < resume <= byte_len(line) {
            prepend(
                match emitted {
                    Some(m) => seq![m],
                    None => Seq::empty(),
                },
                scan_from(cat, line, y, resume),
            )
        } else {
            None
        },
    }
}

/// The matches of a whole line.
pub open spec fn scanned(cat: Seq<PatternView>, line: Seq<char>, y: int) -> Option<Seq<MatchView>> {
    scan_from(cat, line, y, 0)
}

/// Tries every pattern of the catalog on `text`.
fn candidates(cat: &Vec<Pattern>, text: &str) -> (hits: Vec<Option<(usize, usize)>>)
    ensures
        hits@ == found(views(cat@), text@),
{
    let mut hits: Vec<Option<(usize, usize)>> = Vec::new();
    let mut i: usize = 0;
    while i < cat.len()
        invariant
            i <= cat.len(),
            hits@ == found(views(cat@), text@).take(i as int),
        decreases cat.len() - i,
    {
        let hit = find_first(&cat[i].matcher, text);
        hits.push(hit);
        assert(hits@ =~= found(views(cat@), text@).take(i + 1));
        i += 1;
    }
    assert(found(views(cat@), text@).take(i as int) =~= found(views(cat@), text@));
    hits
}

/// Takes the winner out of what is left of a line: the text it matched and
/// the text behind it. Fails where the winner's offsets do not delimit a
/// piece of the text, or where the winner ends at the very start, so that
/// nothing would be consumed.
pub fn take_winner<'a>(chunk: &'a str, start: usize, end: usize) -> (r: Option<(&'a str, &'a str)>)
    ensures
        r is Some <==> 0 < end && is_span(chunk@, start as int, end as int),
        r matches Some((matched, rest)) ==> matched@ == slice(chunk@, start as int, end as int)
            && rest@ == tail(chunk@, end as int),
{
    if end == 0 {
        return None;
    }
    let rest = match behind(chunk, end) {
        Some(rest) => rest,
        None => {
            return None;
        },
    };
    match cut(chunk, start, end) {
        Some(matched) => Some((matched, rest)),
        None => None,
    }
}

/// The match to report for a winner that matched `matched`, beginning at
/// byte offset `at` of line `y`: the part of the text that `chosen_span`
/// names, at its place. Fails where a declared group is missing or its
/// offsets do not delimit a piece of the text.
pub fn report<'a>(
    matched: &'a str,
    at: usize,
    y: usize,
    groups: usize,
    group: Option<Option<(usize, usize)>>,
) -> (r: Option<Match<'a>>)
    requires
        at + byte_len(matched@) <= usize::MAX,
    ensures
        match chosen_span(groups, group, matched@) {
            Some((start, end)) => if is_span(matched@, start, end) {
                r matches Some(m) && m@ == (MatchView {
                    x: at + start,
                    y: y as int,
                    text: slice(matched@, start, end),
                    hint: None,
                })
            } else {
                r is None
            },
            None => r is None,
        },
{
    let (start, text) = if groups > 1 {
        match group {
            Some(Some((start, end))) => match cut(matched, start, end) {
                Some(text) => {
                    proof {
                        lemma_slice(matched@, start as int, end as int, 0);
                    }
                    (start, text)
                },
                None => {
                    return None;
                },
            },
            _ => {
                return None;
            },
        }
    } else {
        proof {
            lemma_slice_all(matched@);
        }
        (0, matched)
    };
    Some(Match { x: at + start, y, text, hint: None })
}

/// Scans one line: finds, from left to right, what the catalog matches in
/// it, and reports each match that is not an exclusion with its place and
/// its text.
pub fn scan_line<'a>(cat: &Vec<Pattern>, line: &'a str, y: usize) -> (r: Result<
    Vec<Match<'a>>,
    ScanError,
>)
    ensures
        r matches Ok(matches) ==> scanned(views(cat@), line@, y as int) == Some(
            match_views(matches@),
        ),
        r matches Err(e) ==> e == ScanError::Internal && scanned(views(cat@), line@, y as int)
            is None,
{
    let ghost model = views(cat@);
    let mut out: Vec<Match<'a>> = Vec::new();
    let mut chunk: &'a str = line;
    let mut offset: usize = 0;
    let total = length(line);
    proof {
        lemma_slice_all(line@);
        assert(match_views(out@) =~= Seq::<MatchView>::empty());
        let whole = scanned(model, line@, y as int);
        assert(prepend(Seq::<MatchView>::empty(), whole) == whole) by {
            if let Some(s) = whole {
                assert(Seq::<MatchView>::empty() + s =~= s);
            }
        }
    }
    loop
        invariant
            model == views(cat@),
            total == byte_len(line@),
            is_span(line@, offset as int, byte_len(line@) as int),
            chunk@ == tail(line@, offset as int),
            scanned(model, line@, y as int) == prepend(
                match_views(out@),
                scan_from(model, line@, y as int, offset as int),
            ),
        decreases byte_len(line@) - offset,
    {
        let ghost here = scan_from(model, line@, y as int, offset as int);
        let ghost end = byte_len(line@) as int;
        let hits = candidates(cat, chunk);
        let winner = match pick_leftmost(&hits) {
            Some(i) => i,
            None => {
                proof {
                    assert(here == Some(Seq::<MatchView>::empty()));
                    assert(match_views(out@) + Seq::<MatchView>::empty() =~= match_views(out@));
                }
                return Ok(out);
            },
        };
        let (a, b) = hits[winner].unwrap();
        let ghost from = offset + a;
        let ghost to = offset + b;
        proof {
            lemma_leads_unique(hits@, winner as int, leader(hits@));
            lemma_slice(line@, offset as int, end, a as int);
            lemma_slice(line@, offset as int, end, b as int);
        }
        let (matched, rest) = match take_winner(chunk, a, b) {
            Some(parts) => parts,
            None => {
                return Err(ScanError::Internal);
            },
        };
        proof {
            lemma_slice_of_slice(line@, offset as int, end, a as int, b as int);
            lemma_slice(line@, offset as int, end, end - offset);
            lemma_slice_of_slice(line@, offset as int, end, b as int, end - offset);
            lemma_slice(line@, from, to, 0);
        }
        let pattern = &cat[winner];
        assert(model[winner as int] == pattern@);
        let ghost emitted: Option<MatchView> = None;
        let ghost earlier = match_views(out@);
        match pattern.kind {
            Kind::Exclude => {},
            _ => {
                let groups = count_groups(&pattern.matcher);
                let group = if groups > 1 {
                    find_leading_group(&pattern.matcher, matched)
                } else {
                    None
                };
                proof {
                    if let Some((c, d)) = chosen_span(groups, group, matched@) {
                        lemma_slice(line@, from, to, c);
                        lemma_slice(line@, from, to, d);
                        if is_span(matched@, c, d) {
                            lemma_slice_of_slice(line@, from, to, c, d);
                        }
                    }
                }
                let found = match report(matched, offset + a, y, groups, group) {
                    Some(found) => found,
                    None => {
                        return Err(ScanError::Internal);
                    },
                };
                proof {
                    emitted = Some(found@);
                }
                out.push(found);
                assert(match_views(out@) =~= earlier.push(found@));
            },
        }
        proof {
            assert(step(model, line@, y as int, offset as int) == Step::Next { emitted, resume: to });
            let after = scan_from(model, line@, y as int, to);
            let single = match emitted {
                Some(m) => seq![m],
                None => Seq::<MatchView>::empty(),
            };
            assert(here == prepend(single, after));
            if let Some(r) = after {
                assert(earlier + (single + r) =~= match_views(out@) + r);
            }
        }
        chunk = rest;
        offset = offset + b;
    }
}

/// The matches of the first `upto` lines, line after line; `None` where
/// the scan of one of them faults.
pub open spec fn scan_lines(cat: Seq<PatternView>, lines: Seq<Seq<char>>, upto: int) -> Option<
    Seq<MatchView>,
>
    decreases upto,
{
    if upto <= 0 {
        Some(Seq::empty())
    } else {
        match scan_lines(cat, lines, upto - 1) {
            Some(head) => prepend(head, scanned(cat, lines[upto - 1], upto - 1)),
            None => None,
        }
    }
}

/// Once the scan of a line has faulted, scanning further lines does not
/// mend it.
pub proof fn lemma_scan_lines_fault(
    cat: Seq<PatternView>,
    lines: Seq<Seq<char>>,
    upto: int,
    beyond: int,
)
    requires
        upto <= beyond,
        scan_lines(cat, lines, upto) is None,
    ensures
        scan_lines(cat, lines, beyond) is None,
    decreases beyond - upto,
{
    if upto < beyond {
        lemma_scan_lines_fault(cat, lines, upto, beyond - 1);
    }
}

/// Scans the lines in order and gathers their matches in one list.
pub fn scan_all<'a>(cat: &Vec<Pattern>, lines: &Vec<&'a str>) -> (r: Result<
    Vec<Match<'a>>,
    ScanError,
>)
    ensures
        r matches Ok(matches) ==> scan_lines(views(cat@), texts(lines@), lines@.len() as int)
            == Some(match_views(matches@)),
        r matches Err(e) ==> e == ScanError::Internal && scan_lines(
            views(cat@),
            texts(lines@),
            lines@.len() as int,
        ) is None,
{
    let ghost model = views(cat@);
    let ghost rows = texts(lines@);
    let mut all: Vec<Match<'a>> = Vec::new();
    let mut y: usize = 0;
    assert(match_views(all@) =~= Seq::<MatchView>::empty());
    while y < lines.len()
        invariant
            y <= lines@.len(),
            model == views(cat@),
            rows == texts(lines@),
            scan_lines(model, rows, y as int) == Some(match_views(all@)),
        decreases lines.len() - y,
    {
        let ghost head = match_views(all@);
        let mut row = match scan_line(cat, lines[y], y) {
            Ok(row) => row,
            Err(e) => {
                proof {
                    lemma_scan_lines_fault(model, rows, y + 1, lines@.len() as int);
                }
                return Err(e);
            },
        };
        let ghost tail = match_views(row@);
        all.append(&mut row);
        assert(match_views(all@) =~= head + tail);
        y += 1;
    }
    Ok(all)
}

/// Whether `a` stands no later than `b`: on an earlier line, or on the same
/// line and not to the right of it.
pub open spec fn precedes(a: MatchView, b: MatchView) -> bool {
    a.y < b.y || (a.y == b.y && a.x <= b.x)
}

/// Whether the matches stand in the order of their places.
pub open spec fn ordered(matches: Seq<MatchView>) -> bool {
    forall|i: int, j: int|
        0 <= i < j < matches.len() ==> precedes(#[trigger] matches[i], #[trigger] matches[j])
}

/// Whether `a` ends before `b` begins: on an earlier line, or on the same
/// line with its last byte before the first byte of `b`.
pub open spec fn apart(a: MatchView, b: MatchView) -> bool {
    a.y < b.y || (a.y == b.y && a.x + byte_len(a.text) <= b.x)
}

/// Whether `m` is a piece of `line`, taken at its place, and carries no
/// label.
pub open spec fn placed(m: MatchView, line: Seq<char>) -> bool {
    &&& 0 <= m.x
    &&& is_span(line, m.x, m.x + byte_len(m.text))
    &&& m.text == slice(line, m.x, m.x + byte_len(m.text))
    &&& m.hint is None
}

/// Whether the step at byte offset `offset` of `line` reports `m`: its winner
/// is no exclusion, and `m` lies within what the winner matched.
pub open spec fn reported_at(
    cat: Seq<PatternView>,
    line: Seq<char>,
    y: int,
    offset: int,
    m: MatchView,
) -> bool {
    let hits = found(cat, tail(line, offset));
    let winner = leader(hits);
    let from = offset + start_of(hits[winner]);
    let to = offset + end_of(hits[winner]);
    &&& !all_missed(hits)
    &&& cat[winner].kind != Kind::Exclude
    &&& step(cat, line, y, offset) == (Step::Next { emitted: Some(m), resume: to })
    &&& from <= m.x
    &&& m.x + byte_len(m.text) <= to
}

/// What a step reports is a piece of the line, between the place where the
/// winner begins and the place where the scan resumes.
pub proof fn lemma_step_places(cat: Seq<PatternView>, line: Seq<char>, y: int, offset: int)
    requires
        0 <= offset,
    ensures
        step(cat, line, y, offset) matches Step::Next { emitted, resume } ==> {
            &&& offset < resume <= byte_len(line)
            &&& emitted matches Some(m) ==> {
                &&& m.y == y
                &&& offset <= m.x
                &&& placed(m, line)
                &&& m.x + byte_len(m.text) <= resume
                &&& reported_at(cat, line, y, offset, m)
            }
        },
{
    if let Step::Next { emitted, resume } = step(cat, line, y, offset) {
        let hits = found(cat, tail(line, offset));
        let from = offset + start_of(hits[leader(hits)]);
        lemma_slice(line, from, resume, 0);
        if let Some(m) = emitted {
            if let Some((c, d)) = emitted_span(cat[leader(hits)], slice(line, from, resume)) {
                lemma_slice(line, from + c, from + d, 0);
            }
        }
    }
}

/// An exclusion that wins is consumed and nothing is reported for it.
pub proof fn lemma_exclusion_unreported(
    cat: Seq<PatternView>,
    line: Seq<char>,
    y: int,
    offset: int,
)
    requires
        !all_missed(found(cat, tail(line, offset))),
        cat[leader(found(cat, tail(line, offset)))].kind == Kind::Exclude,
    ensures
        step(cat, line, y, offset) is Fault || step(cat, line, y, offset) == (Step::Next {
            emitted: None,
            resume: offset + end_of(
                found(cat, tail(line, offset))[leader(found(cat, tail(line, offset)))],
            ),
        }),
        forall|m: MatchView| !reported_at(cat, line, y, offset, m),
{
}

/// The matches of a line are pieces of it, each at its place; they follow
/// one another from left to right without overlapping; and each was
/// reported by a step whose winner is no exclusion.
pub proof fn lemma_scan_from_laid_out(cat: Seq<PatternView>, line: Seq<char>, y: int, offset: int)
    requires
        0 <= offset,
    ensures
        scan_from(cat, line, y, offset) matches Some(matches) ==> {
            &&& forall|k: int|
                0 <= k < matches.len() ==> {
                    &&& (#[trigger] matches[k]).y == y
                    &&& offset <= matches[k].x
                    &&& placed(matches[k], line)
                    &&& exists|at: int| offset <= at && #[trigger] reported_at(cat, line, y, at, matches[k])
                }
            &&& forall|k: int, l: int|
                0 <= k < l < matches.len() ==> apart(#[trigger] matches[k], #[trigger] matches[l])
        },
    decreases byte_len(line) - offset,
{
    if let Step::Next { emitted, resume } = step(cat, line, y, offset) {
        lemma_step_places(cat, line, y, offset);
        lemma_scan_from_laid_out(cat, line, y, resume);
        if let Some(rest) = scan_from(cat, line, y, resume) {
            let single = match emitted {
                Some(m) => seq![m],
                None => Seq::<MatchView>::empty(),
            };
            let matches = single + rest;
            assert forall|k: int| 0 <= k < matches.len() implies {
                &&& (#[trigger] matches[k]).y == y
                &&& offset <= matches[k].x
                &&& placed(matches[k], line)
                &&& exists|at: int| offset <= at && #[trigger] reported_at(cat, line, y, at, matches[k])
            } by {
                if k < single.len() {
                    assert(matches[k] == single[k]);
                    assert(reported_at(cat, line, y, offset, matches[k]));
                } else {
                    assert(matches[k] == rest[k - single.len()]);
                    let at = choose|at: int|
                        resume <= at && #[trigger] reported_at(cat, line, y, at, rest[k - single.len()]);
                    assert(reported_at(cat, line, y, at, matches[k]));
                }
            }
            assert forall|k: int, l: int| 0 <= k < l < matches.len() implies apart(
                #[trigger] matches[k],
                #[trigger] matches[l],
            ) by {
                assert(matches[l] == rest[l - single.len()]);
                if k < single.len() {
                    assert(matches[k] == single[k]);
                } else {
                    assert(matches[k] == rest[k - single.len()]);
                }
            }
        }
    }
}

/// The matches of the first `upto` lines are pieces of those lines, each at
/// its place, and each ends before the next begins.
pub proof fn lemma_scan_lines_laid_out(cat: Seq<PatternView>, lines: Seq<Seq<char>>, upto: int)
    requires
        upto <= lines.len(),
    ensures
        scan_lines(cat, lines, upto) matches Some(matches) ==> {
            &&& forall|k: int|
                0 <= k < matches.len() ==> 0 <= (#[trigger] matches[k]).y < upto && placed(
                    matches[k],
                    lines[matches[k].y],
                )
            &&& forall|i: int, j: int|
                0 <= i < j < matches.len() ==> apart(#[trigger] matches[i], #[trigger] matches[j])
        },
    decreases upto,
{
    if upto > 0 {
        lemma_scan_lines_laid_out(cat, lines, upto - 1);
        lemma_scan_from_laid_out(cat, lines[upto - 1], upto - 1, 0);
        if let Some(matches) = scan_lines(cat, lines, upto) {
            let head = scan_lines(cat, lines, upto - 1)->0;
            let last = scanned(cat, lines[upto - 1], upto - 1)->0;
            assert(matches == head + last);
            assert forall|k: int| 0 <= k < matches.len() implies 0 <= (#[trigger] matches[k]).y
                < upto && placed(matches[k], lines[matches[k].y]) by {
                if k < head.len() {
                    assert(matches[k] == head[k]);
                } else {
                    assert(matches[k] == last[k - head.len()]);
                }
            }
            assert forall|i: int, j: int| 0 <= i < j < matches.len() implies apart(
                #[trigger] matches[i],
                #[trigger] matches[j],
            ) by {
                if j < head.len() {
                    assert(matches[i] == head[i] && matches[j] == head[j]);
                } else if i < head.len() {
                    assert(matches[i] == head[i] && matches[j] == last[j - head.len()]);
                } else {
                    assert(matches[i] == last[i - head.len()] && matches[j] == last[j
                        - head.len()]);
                }
            }
        }
    }
}

} // verus!
