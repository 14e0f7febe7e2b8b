//! Which match receives which label.
//!
//! The matches are walked in the order in which they were found, or from the
//! last to the first where `reverse` is set, and the labels are handed out
//! in their own order along that walk. Where `unique` is set, a text that
//! was met before shares the label of its first occurrence and uses up none.
//! A match for which no label is left gets none. The walk decides only who
//! gets which label: the list itself stays in the order of the scan.

use crate::alphabets::{get_alphabet, hint_list, letters_of, strings};
use crate::state::{match_views, Match, MatchView};
use crate::text::same_text;
use vstd::prelude::*;

verus! {

/// The texts of a list of matches, in order.
pub open spec fn texts_of(matches: Seq<MatchView>) -> Seq<Seq<char>> {
    Seq::new(matches.len(), |i: int| matches[i].text)
}

/// The place in a list of `n` items that comes `i`-th in the walk, and the
/// place in the walk of the `i`-th item of the list.
pub open spec fn turn(n: int, reverse: bool, i: int) -> int {
    if reverse {
        n - 1 - i
    } else {
        i
    }
}

/// The texts in the order of the walk.
pub open spec fn walk_order(texts: Seq<Seq<char>>, reverse: bool) -> Seq<Seq<char>> {
    Seq::new(texts.len(), |p: int| texts[turn(texts.len() as int, reverse, p)])
}

/// Whether the text at `p` occurs nowhere before `p`.
pub open spec fn is_first(texts: Seq<Seq<char>>, p: int) -> bool {
    forall|q: int| 0 <= q < p ==> #[trigger] texts[q] != texts[p]
}

/// How many different texts stand among the first `n`.
pub open spec fn distinct_upto(texts: Seq<Seq<char>>, n: int) -> nat
    decreases n,
{
    if n <= 0 {
        0
    } else {
        distinct_upto(texts, n - 1) + if is_first(texts, n - 1) {
            1nat
        } else {
            0nat
        }
    }
}

/// Whether `q` is where the text at `p` occurs first.
pub open spec fn first_of(texts: Seq<Seq<char>>, p: int, q: int) -> bool {
    0 <= q <= p && texts[q] == texts[p] && is_first(texts, q)
}

/// The number of the label that belongs to place `p` of the walk: the place
/// itself, or, where equal texts share a label, the number of different
/// texts met before the text at `p` was first met.
pub open spec fn rank(order: Seq<Seq<char>>, unique: bool, p: int) -> nat {
    if unique {
        distinct_upto(order, choose|q: int| first_of(order, p, q))
    } else {
        p as nat
    }
}

/// How many labels the walk asks for.
pub open spec fn demand(order: Seq<Seq<char>>, unique: bool) -> nat {
    if unique {
        distinct_upto(order, order.len() as int)
    } else {
        order.len()
    }
}

/// Label number `k`, where there are that many.
pub open spec fn label(hints: Seq<Seq<char>>, k: nat) -> Option<Seq<char>> {
    if k < hints.len() {
        Some(hints[k as int])
    } else {
        None
    }
}

/// The matches with their labels: each keeps its place and its text, and
/// holds the label that its place in the walk entitles it to.
pub open spec fn assigned(
    matches: Seq<MatchView>,
    hints: Seq<Seq<char>>,
    reverse: bool,
    unique: bool,
) -> Seq<MatchView> {
    let n = matches.len() as int;
    let order = walk_order(texts_of(matches), reverse);
    Seq::new(
        matches.len(),
        |i: int|
            MatchView {
                x: matches[i].x,
                y: matches[i].y,
                text: matches[i].text,
                hint: label(hints, rank(order, unique, turn(n, reverse, i))),
            },
    )
}

/// A text occurs first at one place only.
pub proof fn lemma_first_of_unique(texts: Seq<Seq<char>>, p: int, q: int, r: int)
    requires
        first_of(texts, p, q),
        first_of(texts, p, r),
    ensures
        q == r,
{
    if q < r {
        assert(texts[q] != texts[r]);
    } else if r < q {
        assert(texts[r] != texts[q]);
    }
}

/// The count of different texts among the first `n` is the size of the set
/// of those texts.
pub proof fn lemma_distinct_upto_is_set_size(texts: Seq<Seq<char>>, n: int)
    requires
        0 <= n <= texts.len(),
    ensures
        texts.take(n).to_set().finite(),
        distinct_upto(texts, n) == texts.take(n).to_set().len(),
    decreases n,
{
    if n == 0 {
        assert(texts.take(0).to_set() =~= Set::<Seq<char>>::empty());
    } else {
        lemma_distinct_upto_is_set_size(texts, n - 1);
        let before = texts.take(n - 1);
        let last = texts[n - 1];
        assert(texts.take(n).to_set() =~= before.to_set().insert(last)) by {
            assert forall|t: Seq<char>| texts.take(n).to_set().contains(t) implies before.to_set().insert(
                last,
            ).contains(t) by {
                let k = choose|k: int| 0 <= k < n && texts.take(n)[k] == t;
                if k < n - 1 {
                    assert(before[k] == t);
                }
            }
            assert forall|t: Seq<char>| before.to_set().insert(last).contains(t) implies texts.take(
                n,
            ).to_set().contains(t) by {
                if t == last {
                    assert(texts.take(n)[n - 1] == t);
                } else {
                    let k = choose|k: int| 0 <= k < n - 1 && before[k] == t;
                    assert(texts.take(n)[k] == t);
                }
            }
        }
        if is_first(texts, n - 1) {
            assert(!before.to_set().contains(last)) by {
                if before.to_set().contains(last) {
                    let k = choose|k: int| 0 <= k < n - 1 && before[k] == last;
                    assert(texts[k] != texts[n - 1]);
                }
            }
        } else {
            let q = choose|q: int| 0 <= q < n - 1 && #[trigger] texts[q] == last;
            assert(before[q] == last);
        }
    }
}

/// Where equal texts share a label, as many labels are asked for as there
/// are different texts, whichever way the walk goes.
pub proof fn lemma_unique_demand(texts: Seq<Seq<char>>, reverse: bool)
    ensures
        texts.to_set().finite(),
        demand(walk_order(texts, reverse), true) == texts.to_set().len(),
{
    let order = walk_order(texts, reverse);
    let n = texts.len() as int;
    lemma_distinct_upto_is_set_size(order, n);
    assert(order.take(n) =~= order);
    assert(order.to_set() =~= texts.to_set()) by {
        assert forall|t: Seq<char>| order.to_set().contains(t) implies texts.to_set().contains(t) by {
            let k = choose|k: int| 0 <= k < n && order[k] == t;
            assert(texts[turn(n, reverse, k)] == t);
        }
        assert forall|t: Seq<char>| texts.to_set().contains(t) implies order.to_set().contains(t) by {
            let k = choose|k: int| 0 <= k < n && texts[k] == t;
            assert(order[turn(n, reverse, k)] == t);
        }
    }
}

/// The count of different texts never shrinks, and grows by one at most
/// with each place.
pub proof fn lemma_distinct_upto_bounds(texts: Seq<Seq<char>>, n: int)
    requires
        0 <= n,
    ensures
        distinct_upto(texts, n) <= n,
    decreases n,
{
    if n > 0 {
        lemma_distinct_upto_bounds(texts, n - 1);
    }
}

/// Whether the text at place `firsts[k]` of the walk is the text at place `q`.
pub open spec fn same_at(order: Seq<Seq<char>>, firsts: Seq<usize>, k: int, q: int) -> bool {
    order[firsts[k] as int] == order[q]
}

/// Whether `firsts[k]` is a place before `p` where a text occurs first, the
/// `k`-th such place.
pub open spec fn marks(order: Seq<Seq<char>>, firsts: Seq<usize>, p: int, k: int) -> bool {
    &&& firsts[k] < p
    &&& is_first(order, firsts[k] as int)
    &&& distinct_upto(order, firsts[k] as int) == k
}

/// Whether the text at place `q` is that of one of the places in `firsts`.
pub open spec fn known(order: Seq<Seq<char>>, firsts: Seq<usize>, q: int) -> bool {
    exists|k: int| 0 <= k < firsts.len() && #[trigger] same_at(order, firsts, k, q)
}

/// Whether `firsts` lists, in order, the places before `p` at which a text
/// occurs for the first time.
pub open spec fn tracks(order: Seq<Seq<char>>, firsts: Seq<usize>, p: int) -> bool {
    &&& firsts.len() == distinct_upto(order, p)
    &&& forall|k: int| 0 <= k < firsts.len() ==> #[trigger] marks(order, firsts, p, k)
    &&& forall|q: int| 0 <= q < p ==> #[trigger] known(order, firsts, q)
}

/// A text that was met before takes the number of its first occurrence, and
/// the list of first occurrences stays as it is.
proof fn lemma_seen(order: Seq<Seq<char>>, firsts: Seq<usize>, p: int, k: int)
    requires
        0 <= p < order.len(),
        tracks(order, firsts, p),
        0 <= k < firsts.len(),
        same_at(order, firsts, k, p),
    ensures
        rank(order, true, p) == k,
        tracks(order, firsts, p + 1),
{
    assert(marks(order, firsts, p, k));
    let q = firsts[k] as int;
    assert(first_of(order, p, q));
    lemma_first_of_unique(order, p, q, choose|c: int| first_of(order, p, c));
    assert(!is_first(order, p)) by {
        assert(order[q] == order[p]);
    }
    assert forall|j: int| 0 <= j < firsts.len() implies #[trigger] marks(order, firsts, p + 1, j) by {
        assert(marks(order, firsts, p, j));
    }
    assert forall|r: int| 0 <= r < p + 1 implies #[trigger] known(order, firsts, r) by {
        if r < p {
            assert(known(order, firsts, r));
        } else {
            assert(same_at(order, firsts, k, r));
        }
    }
}

/// A text that is met for the first time takes the next number, and its
/// place joins the list of first occurrences.
proof fn lemma_unseen(order: Seq<Seq<char>>, firsts: Seq<usize>, p: usize)
    requires
        p < order.len(),
        tracks(order, firsts, p as int),
        forall|k: int| 0 <= k < firsts.len() ==> !#[trigger] same_at(order, firsts, k, p as int),
    ensures
        firsts.len() <= p,
        rank(order, true, p as int) == firsts.len(),
        tracks(order, firsts.push(p), p + 1),
{
    let grown = firsts.push(p);
    assert(is_first(order, p as int)) by {
        assert forall|q: int| 0 <= q < p implies #[trigger] order[q] != order[p as int] by {
            assert(known(order, firsts, q));
            let k = choose|k: int| 0 <= k < firsts.len() && #[trigger] same_at(order, firsts, k, q);
            assert(!same_at(order, firsts, k, p as int));
        }
    }
    assert(first_of(order, p as int, p as int));
    lemma_first_of_unique(order, p as int, p as int, choose|c: int| first_of(order, p as int, c));
    lemma_distinct_upto_bounds(order, p as int);
    assert forall|j: int| 0 <= j < grown.len() implies #[trigger] marks(order, grown, p + 1, j) by {
        if j < firsts.len() {
            assert(marks(order, firsts, p as int, j));
            assert(grown[j] == firsts[j]);
        }
    }
    assert forall|r: int| 0 <= r < p + 1 implies #[trigger] known(order, grown, r) by {
        if r < p {
            assert(known(order, firsts, r));
            let k = choose|k: int| 0 <= k < firsts.len() && #[trigger] same_at(order, firsts, k, r);
            assert(grown[k] == firsts[k]);
            assert(same_at(order, grown, k, r));
        } else {
            assert(same_at(order, grown, firsts.len() as int, r));
        }
    }
}

/// Looks among the first occurrences met so far for the text at place `p`
/// of the walk.
fn seen_before(matches: &Vec<Match>, reverse: bool, firsts: &Vec<usize>, p: usize) -> (r: Option<
    usize,
>)
    requires
        p < matches@.len(),
        forall|k: int| 0 <= k < firsts@.len() ==> #[trigger] firsts@[k] < p,
    ensures
        r matches Some(k) ==> k < firsts@.len() && same_at(
            walk_order(texts_of(match_views(matches@)), reverse),
            firsts@,
            k as int,
            p as int,
        ),
        r is None ==> forall|k: int|
            0 <= k < firsts@.len() ==> !#[trigger] same_at(
                walk_order(texts_of(match_views(matches@)), reverse),
                firsts@,
                k,
                p as int,
            ),
{
    let n = matches.len();
    let ghost order = walk_order(texts_of(match_views(matches@)), reverse);
    let here = if reverse {
        n - 1 - p
    } else {
        p
    };
    let mut k: usize = 0;
    while k < firsts.len()
        invariant
            k <= firsts@.len(),
            n == matches@.len(),
            p < n,
            here == turn(n as int, reverse, p as int),
            order == walk_order(texts_of(match_views(matches@)), reverse),
            forall|j: int| 0 <= j < firsts@.len() ==> #[trigger] firsts@[j] < p,
            forall|j: int| 0 <= j < k ==> !#[trigger] same_at(order, firsts@, j, p as int),
        decreases firsts.len() - k,
    {
        let q = firsts[k];
        let there = if reverse {
            n - 1 - q
        } else {
            q
        };
        if same_text(matches[there].text, matches[here].text) {
            return Some(k);
        }
        k += 1;
    }
    None
}

/// Numbers the places of the walk: for each, which label belongs to it, and
/// how many labels the walk asks for in all.
pub fn number(matches: &Vec<Match>, reverse: bool, unique: bool) -> (r: (Vec<usize>, usize))
    ensures
        r.0@.len() == matches@.len(),
        forall|p: int|
            0 <= p < matches@.len() ==> (#[trigger] r.0@[p]) as nat == rank(
                walk_order(texts_of(match_views(matches@)), reverse),
                unique,
                p,
            ),
        r.1 as nat == demand(walk_order(texts_of(match_views(matches@)), reverse), unique),
{
    let n = matches.len();
    let ghost order = walk_order(texts_of(match_views(matches@)), reverse);
    let mut ranks: Vec<usize> = Vec::new();
    let mut firsts: Vec<usize> = Vec::new();
    let mut p: usize = 0;
    while p < n
        invariant
            p <= n,
            n == matches@.len(),
            n == order.len(),
            order == walk_order(texts_of(match_views(matches@)), reverse),
            ranks@.len() == p,
            forall|q: int| 0 <= q < p ==> (#[trigger] ranks@[q]) as nat == rank(order, unique, q),
            unique ==> tracks(order, firsts@, p as int),
        decreases n - p,
    {
        let rank = if unique {
            assert forall|k: int| 0 <= k < firsts@.len() implies #[trigger] firsts@[k] < p by {
                assert(marks(order, firsts@, p as int, k));
            }
            match seen_before(matches, reverse, &firsts, p) {
                Some(k) => {
                    proof {
                        lemma_seen(order, firsts@, p as int, k as int);
                    }
                    k
                },
                None => {
                    proof {
                        lemma_unseen(order, firsts@, p);
                    }
                    let k = firsts.len();
                    firsts.push(p);
                    k
                },
            }
        } else {
            p
        };
        ranks.push(rank);
        p += 1;
    }
    let asked = if unique {
        firsts.len()
    } else {
        n
    };
    (ranks, asked)
}

/// Gives each match the label whose number its place in the walk carries.
fn hand_out<'a>(matches: Vec<Match<'a>>, ranks: &Vec<usize>, hints: &Vec<String>, reverse: bool) -> (r:
    Vec<Match<'a>>)
    requires
        ranks@.len() == matches@.len(),
    ensures
        r@.len() == matches@.len(),
        forall|i: int|
            0 <= i < r@.len() ==> (#[trigger] r@[i])@ == (MatchView {
                x: matches@[i]@.x,
                y: matches@[i]@.y,
                text: matches@[i]@.text,
                hint: label(
                    strings(hints@),
                    ranks@[turn(matches@.len() as int, reverse, i)] as nat,
                ),
            }),
{
    let n = matches.len();
    let ghost before = matches@;
    let mut matches = matches;
    let mut i: usize = 0;
    while i < n
        invariant
            i <= n,
            n == before.len(),
            matches@.len() == n,
            ranks@.len() == n,
            forall|j: int|
                0 <= j < i ==> (#[trigger] matches@[j])@ == (MatchView {
                    x: before[j]@.x,
                    y: before[j]@.y,
                    text: before[j]@.text,
                    hint: label(strings(hints@), ranks@[turn(n as int, reverse, j)] as nat),
                }),
            forall|j: int| i <= j < n ==> matches@[j] == before[j],
        decreases n - i,
    {
        let p = if reverse {
            n - 1 - i
        } else {
            i
        };
        let k = ranks[p];
        let hint = if k < hints.len() {
            Some(hints[k].clone())
        } else {
            None
        };
        let old = &matches[i];
        let labelled = Match { x: old.x, y: old.y, text: old.text, hint };
        matches.set(i, labelled);
        i += 1;
    }
    matches
}

/// Hands the given labels out: each match receives the label whose number
/// its place in the walk carries, or none where the labels do not reach
/// that far. A label that a match held before is replaced.
pub fn assign<'a>(matches: Vec<Match<'a>>, hints: &Vec<String>, reverse: bool, unique: bool) -> (r:
    Vec<Match<'a>>)
    ensures
        match_views(r@) == assigned(match_views(matches@), strings(hints@), reverse, unique),
{
    let (ranks, _) = number(&matches, reverse, unique);
    let labelled = hand_out(matches, &ranks, hints, reverse);
    assert(match_views(labelled@) =~= assigned(
        match_views(matches@),
        strings(hints@),
        reverse,
        unique,
    ));
    labelled
}

/// The matches with the labels of the alphabet `letters`: as many labels
/// are asked for as the walk needs, and handed out along it.
pub open spec fn allocated(
    matches: Seq<MatchView>,
    letters: Seq<char>,
    reverse: bool,
    unique: bool,
) -> Seq<MatchView> {
    assigned(
        matches,
        hint_list(letters, demand(walk_order(texts_of(matches), reverse), unique)),
        reverse,
        unique,
    )
}

/// Labels the matches from the alphabet that `alphabet` denotes: asks for
/// one label for each match, or for each different text where equal texts
/// share a label, and hands them out along the walk.
pub fn allocate<'a>(matches: Vec<Match<'a>>, alphabet: &str, reverse: bool, unique: bool) -> (r:
    Vec<Match<'a>>)
    ensures
        match_views(r@) == allocated(
            match_views(matches@),
            letters_of(alphabet@),
            reverse,
            unique,
        ),
{
    let (ranks, asked) = number(&matches, reverse, unique);
    let hints = get_alphabet(alphabet).hints(asked);
    let labelled = hand_out(matches, &ranks, &hints, reverse);
    assert(match_views(labelled@) =~= allocated(
        match_views(matches@),
        letters_of(alphabet@),
        reverse,
        unique,
    ));
    labelled
}

/// Labelling moves nothing: each match keeps its place and its text.
pub proof fn lemma_assigned_keeps_places(
    matches: Seq<MatchView>,
    hints: Seq<Seq<char>>,
    reverse: bool,
    unique: bool,
)
    ensures
        assigned(matches, hints, reverse, unique).len() == matches.len(),
        forall|i: int|
            0 <= i < matches.len() ==> {
                let after = #[trigger] assigned(matches, hints, reverse, unique)[i];
                after.x == matches[i].x && after.y == matches[i].y && after.text == matches[i].text
            },
        texts_of(assigned(matches, hints, reverse, unique)) == texts_of(matches),
{
    assert(texts_of(assigned(matches, hints, reverse, unique)) =~= texts_of(matches));
}

/// Every text occurs first somewhere.
pub proof fn lemma_first_exists(texts: Seq<Seq<char>>, p: int)
    requires
        0 <= p,
    ensures
        exists|q: int| first_of(texts, p, q),
    decreases p,
{
    if is_first(texts, p) {
        assert(first_of(texts, p, p));
    } else {
        let q = choose|q: int| 0 <= q < p && texts[q] == texts[p];
        lemma_first_exists(texts, q);
        let r = choose|r: int| first_of(texts, q, r);
        assert(first_of(texts, p, r));
    }
}

/// Where equal texts share a label, matches with the same text hold the
/// same label.
pub proof fn lemma_unique_shares_labels(
    matches: Seq<MatchView>,
    hints: Seq<Seq<char>>,
    reverse: bool,
    i: int,
    j: int,
)
    requires
        0 <= i < matches.len(),
        0 <= j < matches.len(),
        matches[i].text == matches[j].text,
    ensures
        assigned(matches, hints, reverse, true)[i].hint == assigned(
            matches,
            hints,
            reverse,
            true,
        )[j].hint,
{
    let n = matches.len() as int;
    let order = walk_order(texts_of(matches), reverse);
    let p = turn(n, reverse, i);
    let q = turn(n, reverse, j);
    assert(order[p] == order[q]);
    lemma_first_exists(order, p);
    lemma_first_exists(order, q);
    let a = choose|a: int| first_of(order, p, a);
    let b = choose|b: int| first_of(order, q, b);
    if a < b {
        assert(order[a] != order[b]);
    } else if b < a {
        assert(order[b] != order[a]);
    }
}

/// Where every match has a label of its own, the labels follow the walk:
/// the match that is walked `k`-th holds label number `k`, if there is one.
pub proof fn lemma_plain_follows_walk(
    matches: Seq<MatchView>,
    hints: Seq<Seq<char>>,
    reverse: bool,
    i: int,
)
    requires
        0 <= i < matches.len(),
    ensures
        assigned(matches, hints, reverse, false)[i].hint == label(
            hints,
            turn(matches.len() as int, reverse, i) as nat,
        ),
{
}

/// The labels depend on the texts of the matches, the alphabet and the two
/// flags, and on nothing else: two lists with the same texts are labelled
/// alike.
pub proof fn lemma_labels_follow_texts(
    left: Seq<MatchView>,
    right: Seq<MatchView>,
    letters: Seq<char>,
    reverse: bool,
    unique: bool,
)
    requires
        texts_of(left) == texts_of(right),
    ensures
        allocated(left, letters, reverse, unique).len() == allocated(
            right,
            letters,
            reverse,
            unique,
        ).len(),
        forall|i: int|
            0 <= i < left.len() ==> (#[trigger] allocated(left, letters, reverse, unique)[i]).hint
                == allocated(right, letters, reverse, unique)[i].hint,
{
    assert(left.len() == texts_of(left).len());
    assert(right.len() == texts_of(right).len());
}

/// Labelling what is labelled already changes nothing: the labels depend on
/// the texts, the alphabet and the two flags, and on nothing that an earlier
/// labelling left behind.
pub proof fn lemma_allocate_idempotent(
    matches: Seq<MatchView>,
    letters: Seq<char>,
    reverse: bool,
    unique: bool,
)
    ensures
        allocated(allocated(matches, letters, reverse, unique), letters, reverse, unique)
            == allocated(matches, letters, reverse, unique),
{
    let once = allocated(matches, letters, reverse, unique);
    let hints = hint_list(letters, demand(walk_order(texts_of(matches), reverse), unique));
    lemma_assigned_keeps_places(matches, hints, reverse, unique);
    assert(allocated(once, letters, reverse, unique) =~= once);
}

} // verus!
