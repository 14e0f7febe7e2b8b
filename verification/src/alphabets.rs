//! The labels.
//!
//! An alphabet is named by its letters. Its labels are the letters
//! themselves as long as those suffice. Where more are asked for, letters
//! are taken from the end of the alphabet to serve as the first letter of
//! two-letter labels, as few as will do: no label then begins another, so a
//! label is recognised as soon as it is typed in full.

use vstd::prelude::*;
use vstd::string::*;

verus! {

/// The letters that `name` denotes: its characters, each once, in the order
/// in which they first appear.
pub open spec fn letters_of(name: Seq<char>) -> Seq<char>
    decreases name.len(),
{
    if name.len() == 0 {
        Seq::empty()
    } else {
        let before = letters_of(name.drop_last());
        if before.contains(name.last()) {
            before
        } else {
            before.push(name.last())
        }
    }
}

/// The one-letter labels of the first `kept` letters.
pub open spec fn singles(letters: Seq<char>, kept: int) -> Seq<Seq<char>> {
    Seq::new(kept as nat, |i: int| seq![letters[i]])
}

/// The first `size` two-letter labels that begin with letter `p`.
pub open spec fn block(letters: Seq<char>, p: int, size: int) -> Seq<Seq<char>> {
    Seq::new(size as nat, |j: int| seq![letters[p], letters[j]])
}

/// All two-letter labels that begin with one of the letters from `from` on.
pub open spec fn full_blocks(letters: Seq<char>, from: int) -> Seq<Seq<char>>
    decreases letters.len() - from,
{
    if from >= letters.len() {
        Seq::empty()
    } else {
        block(letters, from, letters.len() as int) + full_blocks(letters, from + 1)
    }
}

/// How many two-letter labels begin with one of the letters from `from` on,
/// in an alphabet of `n` letters.
pub open spec fn full_count(n: int, from: int) -> int
    decreases n - from,
{
    if from >= n {
        0
    } else {
        n + full_count(n, from + 1)
    }
}

/// How many labels there are where the first `kept` letters stand alone
/// and each of the others begins two-letter labels.
pub open spec fn reach(n: int, kept: int) -> int {
    kept + full_count(n, kept)
}

/// Whether keeping `kept` letters as labels of their own yields `count`
/// labels while keeping one more would not.
pub open spec fn keeps(n: int, count: int, kept: int) -> bool {
    &&& 0 <= kept < n
    &&& reach(n, kept) >= count
    &&& forall|more: int| kept < more < n ==> #[trigger] reach(n, more) < count
}

/// How many letters stay labels of their own when `count` labels are asked
/// for and the letters alone do not suffice: as many as possible, and none
/// where even two-letter labels throughout fall short.
pub open spec fn kept(n: int, count: int) -> int {
    if exists|k: int| keeps(n, count, k) {
        choose|k: int| keeps(n, count, k)
    } else {
        0
    }
}

/// The smaller of two numbers.
pub open spec fn least(a: int, b: int) -> int {
    if a <= b {
        a
    } else {
        b
    }
}

/// The labels for `count` matches over `letters`, in the order in which
/// they are handed out.
pub open spec fn hint_list(letters: Seq<char>, count: nat) -> Seq<Seq<char>> {
    let n = letters.len() as int;
    if count <= n {
        singles(letters, count as int)
    } else if n == 0 {
        Seq::empty()
    } else {
        let kept = kept(n, count as int);
        let first = least(n, count - kept - full_count(n, kept + 1));
        singles(letters, kept) + block(letters, kept, first) + full_blocks(letters, kept + 1)
    }
}

/// The strings of a list, as texts.
pub open spec fn strings(items: Seq<String>) -> Seq<Seq<char>> {
    Seq::new(items.len(), |i: int| items[i]@)
}

/// Only one number of kept letters fits.
pub proof fn lemma_keeps_unique(n: int, count: int, a: int, b: int)
    requires
        keeps(n, count, a),
        keeps(n, count, b),
    ensures
        a == b,
{
    if a < b {
        assert(reach(n, b) < count);
    } else if b < a {
        assert(reach(n, a) < count);
    }
}

/// Whether `label` is one of the first `kept` letters standing alone.
pub open spec fn is_single(letters: Seq<char>, kept: int, label: Seq<char>) -> bool {
    label.len() == 1 && exists|i: int| 0 <= i < kept && #[trigger] letters[i] == label[0]
}

/// Whether `label` has two letters, the first of them one of the letters
/// from `from` on.
pub open spec fn is_pair(letters: Seq<char>, from: int, label: Seq<char>) -> bool {
    label.len() == 2 && exists|p: int|
        from <= p < letters.len() && #[trigger] letters[p] == label[0]
}

/// How many letters stand alone among the labels for `count` matches.
pub open spec fn alone(letters: Seq<char>, count: nat) -> int {
    let n = letters.len() as int;
    if count <= n {
        count as int
    } else if n == 0 {
        0
    } else {
        kept(n, count as int)
    }
}

/// Whether `label` is a letter that stands alone or a pair that begins with
/// a letter that does not.
pub open spec fn shaped(letters: Seq<char>, kept: int, label: Seq<char>) -> bool {
    is_single(letters, kept, label) || is_pair(letters, kept, label)
}

/// The labels of a block are as many as asked for, all different, and each
/// begins with the letter of the block.
pub proof fn lemma_block(letters: Seq<char>, p: int, size: int)
    requires
        letters.no_duplicates(),
        0 <= p < letters.len(),
        0 <= size <= letters.len(),
    ensures
        block(letters, p, size).len() == size,
        block(letters, p, size).no_duplicates(),
        forall|k: int|
            0 <= k < size ==> (#[trigger] block(letters, p, size)[k]).len() == 2 && block(
                letters,
                p,
                size,
            )[k][0] == letters[p],
{
    let b = block(letters, p, size);
    assert forall|i: int, j: int| 0 <= i < b.len() && 0 <= j < b.len() && i != j implies b[i]
        != b[j] by {
        assert(b[i][1] == letters[i]);
        assert(b[j][1] == letters[j]);
    }
}

/// The two-letter labels from letter `from` on are as many as counted, all
/// different, and each begins with one of those letters.
pub proof fn lemma_full_blocks(letters: Seq<char>, from: int)
    requires
        letters.no_duplicates(),
        0 <= from,
    ensures
        full_blocks(letters, from).len() == full_count(letters.len() as int, from),
        full_blocks(letters, from).no_duplicates(),
        forall|k: int|
            0 <= k < full_blocks(letters, from).len() ==> is_pair(
                letters,
                from,
                #[trigger] full_blocks(letters, from)[k],
            ),
    decreases letters.len() - from,
{
    let n = letters.len() as int;
    if from < n {
        let head = block(letters, from, n);
        let rest = full_blocks(letters, from + 1);
        let all = full_blocks(letters, from);
        lemma_block(letters, from, n);
        lemma_full_blocks(letters, from + 1);
        assert(all == head + rest);
        assert forall|k: int| 0 <= k < all.len() implies is_pair(letters, from, #[trigger] all[k]) by {
            if k < head.len() {
                assert(all[k] == head[k]);
                assert(letters[from] == all[k][0]);
            } else {
                assert(all[k] == rest[k - head.len()]);
                assert(is_pair(letters, from + 1, rest[k - head.len()]));
                let q = choose|q: int| from + 1 <= q < letters.len() && #[trigger] letters[q] == all[k][0];
                assert(letters[q] == all[k][0]);
            }
        }
        assert forall|i: int, j: int| 0 <= i < head.len() && 0 <= j < rest.len() implies head[i]
            != rest[j] by {
            assert(is_pair(letters, from + 1, rest[j]));
            let q = choose|q: int| from + 1 <= q < letters.len() && #[trigger] letters[q] == rest[j][0];
            assert(head[i][0] == letters[from]);
            assert(letters[q] != letters[from]);
        }
        vstd::seq_lib::lemma_no_dup_in_concat(head, rest);
    }
}

/// Keeping fewer letters to themselves never yields fewer labels.
pub proof fn lemma_reach_grows(n: int, low: int, high: int)
    requires
        0 <= low <= high <= n,
    ensures
        reach(n, low) >= reach(n, high),
        reach(n, n) == n,
        full_count(n, low) >= 0,
    decreases n - low,
{
    if low < n {
        lemma_reach_grows(n, low + 1, if high > low {
            high
        } else {
            low + 1
        });
    }
}

/// Looking downward from `low` for the number of letters to keep finds one
/// that fits, unless no number fits at all.
proof fn lemma_keeps_search(n: int, count: int, low: int)
    requires
        0 <= low < n,
        forall|more: int| low < more < n ==> #[trigger] reach(n, more) < count,
    ensures
        (exists|k: int| keeps(n, count, k)) || (forall|m: int|
            0 <= m < n ==> #[trigger] reach(n, m) < count),
    decreases low,
{
    if reach(n, low) >= count {
        assert(keeps(n, count, low));
    } else if low > 0 {
        lemma_keeps_search(n, count, low - 1);
    }
}

/// What the number of kept letters is: fewer than there are letters, as
/// large as will do, and none only where even that falls short.
pub proof fn lemma_kept(n: int, count: int)
    requires
        0 < n < count,
    ensures
        0 <= kept(n, count) < n,
        forall|more: int| kept(n, count) < more < n ==> #[trigger] reach(n, more) < count,
        reach(n, kept(n, count)) >= count || (kept(n, count) == 0 && reach(n, 0) < count),
{
    lemma_keeps_search(n, count, n - 1);
    if exists|k: int| keeps(n, count, k) {
        let k = choose|k: int| keeps(n, count, k);
        assert(keeps(n, count, k));
    } else {
        assert(reach(n, 0) < count);
    }
}

/// How many labels there are: as many as asked for, as far as one- and
/// two-letter labels go.
pub proof fn lemma_hint_count(letters: Seq<char>, count: nat)
    ensures
        hint_list(letters, count).len() == least(
            count as int,
            full_count(letters.len() as int, 0),
        ),
        hint_list(letters, count).len() <= count,
{
    let n = letters.len() as int;
    lemma_reach_grows(n, 0, n);
    if count > n && n > 0 {
        let kept = kept(n, count as int);
        lemma_kept(n, count as int);
        lemma_reach_grows(n, 0, kept);
        lemma_reach_grows(n, kept + 1, n);
        lemma_full_blocks_len(letters, kept + 1);
    }
}

/// The two-letter labels from letter `from` on are as many as counted.
pub proof fn lemma_full_blocks_len(letters: Seq<char>, from: int)
    requires
        0 <= from,
    ensures
        full_blocks(letters, from).len() == full_count(letters.len() as int, from),
    decreases letters.len() - from,
{
    if from < letters.len() {
        lemma_full_blocks_len(letters, from + 1);
    }
}

/// Each label is a letter that stands alone or a pair that begins with a
/// letter that does not; and no two labels are alike.
pub proof fn lemma_hints_shape(letters: Seq<char>, count: nat)
    requires
        letters.no_duplicates(),
    ensures
        hint_list(letters, count).no_duplicates(),
        forall|k: int|
            0 <= k < hint_list(letters, count).len() ==> shaped(
                letters,
                alone(letters, count),
                #[trigger] hint_list(letters, count)[k],
            ),
{
    let n = letters.len() as int;
    let all = hint_list(letters, count);
    if count <= n {
        let kept = count as int;
        assert forall|k: int| 0 <= k < all.len() implies shaped(letters, kept, #[trigger] all[k]) by {
            assert(letters[k] == all[k][0]);
        }
        assert forall|i: int, j: int| 0 <= i < all.len() && 0 <= j < all.len() && i != j implies all[i]
            != all[j] by {
            assert(all[i][0] == letters[i] && all[j][0] == letters[j]);
        }
    } else if n == 0 {
    } else {
        let kept = kept(n, count as int);
        lemma_kept(n, count as int);
        lemma_reach_grows(n, kept + 1, n);
        let first = least(n, count - kept - full_count(n, kept + 1));
        let solo = singles(letters, kept);
        let head = block(letters, kept, first);
        let rest = full_blocks(letters, kept + 1);
        lemma_block(letters, kept, first);
        lemma_full_blocks(letters, kept + 1);
        assert forall|i: int, j: int| 0 <= i < head.len() && 0 <= j < rest.len() implies head[i]
            != rest[j] by {
            assert(is_pair(letters, kept + 1, rest[j]));
            let q = choose|q: int| kept + 1 <= q < letters.len() && #[trigger] letters[q] == rest[j][0];
            assert(head[i][0] == letters[kept]);
            assert(letters[q] != letters[kept]);
        }
        vstd::seq_lib::lemma_no_dup_in_concat(head, rest);
        let pairs = head + rest;
        assert forall|k: int| 0 <= k < pairs.len() implies is_pair(letters, kept, #[trigger] pairs[k]) by {
            if k < head.len() {
                assert(pairs[k] == head[k]);
                assert(letters[kept] == pairs[k][0]);
            } else {
                assert(pairs[k] == rest[k - head.len()]);
                assert(is_pair(letters, kept + 1, rest[k - head.len()]));
                let q = choose|q: int|
                    kept + 1 <= q < letters.len() && #[trigger] letters[q] == pairs[k][0];
                assert(letters[q] == pairs[k][0]);
            }
        }
        assert forall|i: int, j: int| 0 <= i < solo.len() && 0 <= j < solo.len() && i != j implies solo[i]
            != solo[j] by {
            assert(solo[i][0] == letters[i] && solo[j][0] == letters[j]);
        }
        assert forall|i: int, j: int| 0 <= i < solo.len() && 0 <= j < pairs.len() implies solo[i]
            != pairs[j] by {
            assert(is_pair(letters, kept, pairs[j]));
        }
        vstd::seq_lib::lemma_no_dup_in_concat(solo, pairs);
        assert(all =~= solo + pairs);
        assert forall|k: int| 0 <= k < all.len() implies shaped(letters, kept, #[trigger] all[k]) by {
            if k < solo.len() {
                assert(all[k] == solo[k]);
                assert(letters[k] == all[k][0]);
            } else {
                assert(all[k] == pairs[k - solo.len()]);
                assert(is_pair(letters, kept, pairs[k - solo.len()]));
            }
        }
    }
}

/// No label begins another: a label is known as soon as it is typed in
/// full.
pub proof fn lemma_hints_prefix_free(letters: Seq<char>, count: nat, i: int, j: int)
    requires
        letters.no_duplicates(),
        0 <= i < hint_list(letters, count).len(),
        0 <= j < hint_list(letters, count).len(),
        i != j,
    ensures
        !hint_list(letters, count)[i].is_prefix_of(hint_list(letters, count)[j]),
{
    let all = hint_list(letters, count);
    lemma_hints_shape(letters, count);
    let kept = alone(letters, count);
    let a = all[i];
    let b = all[j];
    assert(shaped(letters, kept, a));
    assert(shaped(letters, kept, b));
    if a.is_prefix_of(b) {
        assert(b.subrange(0, a.len() as int)[0] == b[0]);
        if a.len() == b.len() {
            assert(b.subrange(0, a.len() as int) =~= b);
            assert(a == b);
        } else {
            let s = choose|s: int| 0 <= s < kept && #[trigger] letters[s] == a[0];
            let p = choose|p: int| kept <= p < letters.len() && #[trigger] letters[p] == b[0];
            assert(letters[s] == letters[p]);
        }
    }
}

/// The letters of an alphabet, each held as a one-character piece of the
/// name they were taken from.
pub struct Alphabet<'a> {
    letters: Vec<&'a str>,
}

impl<'a> View for Alphabet<'a> {
    type V = Seq<char>;

    /// The letters, in order.
    closed spec fn view(&self) -> Seq<char> {
        Seq::new(self.letters@.len(), |i: int| self.letters@[i]@[0])
    }
}

impl<'a> Alphabet<'a> {
    #[verifier::type_invariant]
    spec fn well_formed(self) -> bool {
        &&& forall|i: int| 0 <= i < self.letters@.len() ==> (#[trigger] self.letters@[i])@.len() == 1
        &&& self@.no_duplicates()
    }

    /// Appends the one-letter labels of the first `kept` letters.
    fn push_singles(&self, out: &mut Vec<String>, kept: usize)
        requires
            kept <= self@.len(),
        ensures
            strings(final(out)@) == strings(old(out)@) + singles(self@, kept as int),
    {
        proof {
            use_type_invariant(self);
        }
        let ghost base = strings(out@);
        let mut i: usize = 0;
        assert(strings(out@) =~= base + singles(self@, 0));
        while i < kept
            invariant
                i <= kept <= self@.len(),
                self@.len() == self.letters@.len(),
                forall|k: int|
                    0 <= k < self.letters@.len() ==> (#[trigger] self.letters@[k])@ =~= seq![self@[k]],
                strings(out@) == base + singles(self@, i as int),
            decreases kept - i,
        {
            let label = self.letters[i].to_owned();
            let ghost sofar = strings(out@);
            assert(label@ == seq![self@[i as int]]);
            out.push(label);
            assert(strings(out@) =~= sofar.push(label@));
            assert(sofar.push(label@) =~= base + singles(self@, i + 1));
            i += 1;
        }
    }

    /// Appends the first `size` two-letter labels that begin with letter `p`.
    fn push_block(&self, out: &mut Vec<String>, p: usize, size: usize)
        requires
            p < self@.len(),
            size <= self@.len(),
        ensures
            strings(final(out)@) == strings(old(out)@) + block(self@, p as int, size as int),
    {
        proof {
            use_type_invariant(self);
        }
        let ghost base = strings(out@);
        let mut j: usize = 0;
        assert(strings(out@) =~= base + block(self@, p as int, 0));
        while j < size
            invariant
                j <= size <= self@.len(),
                p < self@.len(),
                self@.len() == self.letters@.len(),
                forall|k: int|
                    0 <= k < self.letters@.len() ==> (#[trigger] self.letters@[k])@ =~= seq![self@[k]],
                strings(out@) == base + block(self@, p as int, j as int),
            decreases size - j,
        {
            let mut label = self.letters[p].to_owned();
            label.append(self.letters[j]);
            assert(label@ =~= seq![self@[p as int], self@[j as int]]);
            let ghost sofar = strings(out@);
            out.push(label);
            assert(strings(out@) =~= sofar.push(label@));
            assert(sofar.push(label@) =~= base + block(self@, p as int, j + 1));
            j += 1;
        }
    }

    /// The labels for `matches` matches, in the order in which they are
    /// handed out: always the same for the same letters and the same
    /// number, never more than were asked for, and no two alike.
    pub fn hints(&self, matches: usize) -> (r: Vec<String>)
        ensures
            strings(r@) == hint_list(self@, matches as nat),
            r@.len() <= matches,
            strings(r@).no_duplicates(),
    {
        proof {
            use_type_invariant(self);
            lemma_hint_count(self@, matches as nat);
            lemma_hints_shape(self@, matches as nat);
        }
        let n = self.letters.len();
        let mut out: Vec<String> = Vec::new();
        assert(strings(out@) =~= Seq::<Seq<char>>::empty());
        if matches <= n {
            self.push_singles(&mut out, matches);
            assert(strings(out@) =~= singles(self@, matches as int));
            return out;
        }
        if n == 0 {
            return out;
        }
        let mut kept: usize = n;
        let mut pairs: usize = 0;
        let mut first: usize = 0;
        while kept > 0 && kept + pairs < matches
            invariant
                n == self@.len(),
                0 < n < matches,
                kept <= n,
                kept + pairs <= matches,
                first <= n,
                kept < n ==> pairs == first + full_count(n as int, kept + 1),
                kept == n ==> pairs == 0,
                kept + pairs < matches ==> pairs == full_count(n as int, kept as int),
                kept < n ==> first == least(
                    n as int,
                    matches - kept - full_count(n as int, kept + 1),
                ),
                forall|more: int| kept < more < n ==> #[trigger] reach(n as int, more) < matches,
                kept < n && kept + pairs == matches ==> reach(n as int, kept as int) >= matches,
            decreases kept,
        {
            assert(reach(n as int, kept as int) < matches);
            kept = kept - 1;
            let room = matches - kept - pairs;
            first = if room < n {
                room
            } else {
                n
            };
            pairs = pairs + first;
        }
        proof {
            if kept + pairs == matches {
                assert(keeps(n as int, matches as int, kept as int));
                lemma_keeps_unique(
                    n as int,
                    matches as int,
                    kept as int,
                    choose|k: int| keeps(n as int, matches as int, k),
                );
            } else {
                assert(kept == 0);
                assert(reach(n as int, 0) < matches);
                assert forall|k: int| !keeps(n as int, matches as int, k) by {
                    if keeps(n as int, matches as int, k) {
                        if k > 0 {
                            assert(reach(n as int, k) < matches);
                        }
                    }
                }
            }
            assert(kept == crate::alphabets::kept(n as int, matches as int));
        }
        self.push_singles(&mut out, kept);
        self.push_block(&mut out, kept, first);
        let ghost goal = hint_list(self@, matches as nat);
        let mut p: usize = kept + 1;
        assert(strings(out@) + full_blocks(self@, p as int) =~= goal);
        while p < n
            invariant
                kept < p <= n,
                n == self@.len(),
                strings(out@) + full_blocks(self@, p as int) == goal,
            decreases n - p,
        {
            let ghost before = strings(out@);
            self.push_block(&mut out, p, n);
            assert(strings(out@) + full_blocks(self@, p + 1) =~= before + full_blocks(
                self@,
                p as int,
            ));
            p += 1;
        }
        assert(strings(out@) + full_blocks(self@, p as int) =~= strings(out@));
        out
    }
}

/// Whether `c` is among `seen`.
fn holds(seen: &Vec<char>, c: char) -> (r: bool)
    ensures
        r == seen@.contains(c),
{
    let mut i: usize = 0;
    while i < seen.len()
        invariant
            i <= seen.len(),
            forall|k: int| 0 <= k < i ==> seen@[k] != c,
        decreases seen.len() - i,
    {
        if seen[i] == c {
            return true;
        }
        i += 1;
    }
    false
}

/// The letters of `name` have nothing twice.
pub proof fn lemma_letters_distinct(name: Seq<char>)
    ensures
        letters_of(name).no_duplicates(),
    decreases name.len(),
{
    if name.len() > 0 {
        lemma_letters_distinct(name.drop_last());
    }
}

/// The alphabet that `name` denotes.
pub fn get_alphabet<'a>(name: &'a str) -> (r: Alphabet<'a>)
    ensures
        r@ == letters_of(name@),
{
    let total = name.unicode_len();
    let mut letters: Vec<&'a str> = Vec::new();
    let mut seen: Vec<char> = Vec::new();
    let mut i: usize = 0;
    assert(name@.take(0) =~= Seq::<char>::empty());
    while i < total
        invariant
            i <= total,
            total == name@.len(),
            seen@ == letters_of(name@.take(i as int)),
            letters@.len() == seen@.len(),
            forall|k: int| 0 <= k < letters@.len() ==> (#[trigger] letters@[k])@ =~= seq![seen@[k]],
        decreases total - i,
    {
        let c = name.get_char(i);
        let ghost upto = name@.take(i + 1);
        assert(upto.drop_last() =~= name@.take(i as int));
        assert(upto.last() == c);
        if !holds(&seen, c) {
            seen.push(c);
            letters.push(name.substring_char(i, i + 1));
        }
        i += 1;
    }
    assert(name@.take(i as int) =~= name@);
    proof {
        lemma_letters_distinct(name@);
    }
    let alphabet = Alphabet { letters };
    assert(alphabet@ =~= seen@);
    alphabet
}

} // verus!
