//! The pattern catalog: what a scan looks for, in order of priority.
//!
//! Exclusion patterns come first: what they match is stepped over and never
//! reported. Custom patterns follow in the order in which they were given,
//! then the built-in ones in a fixed order. Where two patterns match at the
//! same place, the one that stands earlier in the catalog wins.

use crate::error::ScanError;
use crate::matcher::{compile, pattern_is_valid, Matcher};
use vstd::prelude::*;

verus! {

/// Terminal colour and style sequences.
pub const EXCLUDE_BASH: &'static str = r"[[:cntrl:]]\[([0-9]{1,2};)?([0-9]{1,2})?m";

/// Addresses on the web and of repositories: a scheme, then what may
/// follow it in a URL.
pub const URL: &'static str =
    r"((https?://|git@|git://|ssh://|ftp://|file:///)[\w?=%/_.:,;~@!#$&()*+-]*)";

/// The "from" header of a diff; only the path is reported.
pub const DIFF_A: &'static str = r"--- a/([^ ]+)";

/// The "to" header of a diff; only the path is reported.
pub const DIFF_B: &'static str = r"\+\+\+ b/([^ ]+)";

/// Anything with a slash in it and no blank or control character.
pub const PATH: &'static str = r"[^ ]+/[^ [[:cntrl:]]]+";

/// A colour as six hexadecimal digits behind a hash sign.
pub const COLOR: &'static str = r"#[0-9a-fA-F]{6}";

/// A UUID in its hyphenated form.
pub const UID: &'static str =
    r"[0-9a-f]{8}-[0-9a-f]{4}-[0-9a-f]{4}-[0-9a-f]{4}-[0-9a-f]{12}";

/// Seven to forty hexadecimal digits, as the ids of a version control
/// system are written, short or in full.
pub const SHA: &'static str = r"[0-9a-f]{7,40}";

/// Four groups of one to three digits with dots between them; the groups
/// are not held to the range of an address.
pub const IP: &'static str = r"\d{1,3}\.\d{1,3}\.\d{1,3}\.\d{1,3}";

/// A hexadecimal number behind `0x`.
pub const ADDRESS: &'static str = r"0x[0-9a-fA-F]+";

/// Four digits or more: ports, process ids.
pub const NUMBER: &'static str = r"[0-9]{4,}";

/// The three tiers of the catalog.
#[derive(Clone, Copy, Debug, PartialEq, Eq, Structural)]
pub enum Kind {
    /// Matched and stepped over, never reported.
    Exclude,
    /// Supplied by the caller.
    Custom,
    /// One of the fixed categories.
    BuiltIn,
}

/// One entry of the catalog.
pub struct Pattern {
    /// What the pattern is called; every custom pattern is called `custom`.
    pub name: &'static str,
    /// The tier it belongs to.
    pub kind: Kind,
    /// The pattern itself, compiled.
    pub matcher: Matcher,
}

/// What the scan reads of a pattern: its tier and its text.
pub struct PatternView {
    pub kind: Kind,
    pub source: Seq<char>,
}

impl View for Pattern {
    type V = PatternView;

    open spec fn view(&self) -> PatternView {
        PatternView { kind: self.kind, source: self.matcher@ }
    }
}

/// The views of a list of patterns, in order.
pub open spec fn views(patterns: Seq<Pattern>) -> Seq<PatternView> {
    Seq::new(patterns.len(), |i: int| patterns[i]@)
}

/// The texts of a list of strings, in order.
pub open spec fn texts(strings: Seq<&str>) -> Seq<Seq<char>> {
    Seq::new(strings.len(), |i: int| strings[i]@)
}

/// The texts of the exclusion patterns.
pub open spec fn exclusion_sources() -> Seq<Seq<char>> {
    seq![EXCLUDE_BASH@]
}

/// The texts of the built-in patterns, in order of priority.
pub open spec fn builtin_sources() -> Seq<Seq<char>> {
    seq![URL@, DIFF_A@, DIFF_B@, PATH@, COLOR@, UID@, SHA@, IP@, ADDRESS@, NUMBER@]
}

/// A list of pattern texts as catalog entries of one tier.
pub open spec fn tier(kind: Kind, sources: Seq<Seq<char>>) -> Seq<PatternView> {
    Seq::new(sources.len(), |i: int| PatternView { kind, source: sources[i] })
}

/// The catalog for the given custom patterns.
pub open spec fn catalog(custom: Seq<Seq<char>>) -> Seq<PatternView> {
    tier(Kind::Exclude, exclusion_sources()) + tier(Kind::Custom, custom) + tier(
        Kind::BuiltIn,
        builtin_sources(),
    )
}

/// Where a tier stands in the order of priority.
pub open spec fn priority(kind: Kind) -> int {
    match kind {
        Kind::Exclude => 0,
        Kind::Custom => 1,
        Kind::BuiltIn => 2,
    }
}

/// The catalog holds the exclusion, then the custom patterns as they were
/// given, then the ten built-in ones: the tiers never mix.
pub proof fn lemma_catalog_order(custom: Seq<Seq<char>>)
    ensures
        catalog(custom).len() == 1 + custom.len() + 10,
        catalog(custom)[0] == (PatternView { kind: Kind::Exclude, source: EXCLUDE_BASH@ }),
        forall|k: int|
            0 <= k < custom.len() ==> #[trigger] catalog(custom)[1 + k] == (PatternView {
                kind: Kind::Custom,
                source: custom[k],
            }),
        forall|k: int|
            0 <= k < 10 ==> #[trigger] catalog(custom)[1 + custom.len() + k] == (PatternView {
                kind: Kind::BuiltIn,
                source: builtin_sources()[k],
            }),
        forall|i: int, j: int|
            0 <= i <= j < catalog(custom).len() ==> priority(
                (#[trigger] catalog(custom)[i]).kind,
            ) <= priority((#[trigger] catalog(custom)[j]).kind),
{
}

/// Whether the engine accepts each of `sources`.
pub open spec fn all_valid(sources: Seq<Seq<char>>) -> bool {
    forall|i: int| 0 <= i < sources.len() ==> pattern_is_valid(#[trigger] sources[i])
}

/// Whether `index` is the first of `sources` that the engine does not accept.
pub open spec fn first_invalid(sources: Seq<Seq<char>>, index: int) -> bool {
    &&& 0 <= index < sources.len()
    &&& !pattern_is_valid(sources[index])
    &&& all_valid(sources.take(index))
}

/// What building the catalog for `custom` comes to.
pub open spec fn built(custom: Seq<Seq<char>>) -> Result<Seq<PatternView>, ScanError> {
    if !all_valid(exclusion_sources()) {
        Err(ScanError::Internal)
    } else if !all_valid(custom) {
        Err(ScanError::BadPattern { index: (choose|i: int| first_invalid(custom, i)) as usize })
    } else if !all_valid(builtin_sources()) {
        Err(ScanError::Internal)
    } else {
        Ok(catalog(custom))
    }
}

/// At most one index is the first invalid one.
pub proof fn lemma_first_invalid_unique(sources: Seq<Seq<char>>, i: int, j: int)
    requires
        first_invalid(sources, i),
        first_invalid(sources, j),
    ensures
        i == j,
{
    if i < j {
        assert(sources.take(j)[i] == sources[i]);
    } else if j < i {
        assert(sources.take(i)[j] == sources[j]);
    }
}

/// The pattern texts of a table of named patterns.
pub open spec fn table_sources(table: Seq<(&'static str, &'static str)>) -> Seq<Seq<char>> {
    Seq::new(table.len(), |i: int| table[i].1@)
}

fn exclusion_table() -> (table: Vec<(&'static str, &'static str)>)
    ensures
        table_sources(table@) == exclusion_sources(),
{
    let table = vec![("bash", EXCLUDE_BASH)];
    assert(table_sources(table@) =~= exclusion_sources());
    table
}

fn builtin_table() -> (table: Vec<(&'static str, &'static str)>)
    ensures
        table_sources(table@) == builtin_sources(),
{
    let table = vec![
        ("url", URL),
        ("diff_a", DIFF_A),
        ("diff_b", DIFF_B),
        ("path", PATH),
        ("color", COLOR),
        ("uid", UID),
        ("sha", SHA),
        ("ip", IP),
        ("address", ADDRESS),
        ("number", NUMBER),
    ];
    assert(table_sources(table@) =~= builtin_sources());
    table
}

/// Compiles `source` and, where the engine accepts it, appends it to `cat`.
fn enlist(cat: &mut Vec<Pattern>, name: &'static str, kind: Kind, source: &str) -> (ok: bool)
    ensures
        ok == pattern_is_valid(source@),
        ok ==> views(final(cat)@) == views(old(cat)@).push(PatternView { kind, source: source@ }),
        !ok ==> final(cat)@ == old(cat)@,
{
    match compile(source) {
        Ok(matcher) => {
            cat.push(Pattern { name, kind, matcher });
            assert(views(cat@) =~= views(old(cat)@).push(PatternView { kind, source: source@ }));
            true
        },
        Err(_) => false,
    }
}

/// Appends a table of fixed patterns to `cat`, as far as the engine accepts
/// them.
fn add_table(cat: &mut Vec<Pattern>, kind: Kind, table: &Vec<(&'static str, &'static str)>) -> (ok:
    bool)
    ensures
        ok == all_valid(table_sources(table@)),
        ok ==> views(final(cat)@) == views(old(cat)@) + tier(kind, table_sources(table@)),
{
    let ghost sources = table_sources(table@);
    let mut i: usize = 0;
    while i < table.len()
        invariant
            i <= table.len(),
            sources == table_sources(table@),
            all_valid(sources.take(i as int)),
            views(cat@) == views(old(cat)@) + tier(kind, sources.take(i as int)),
        decreases table.len() - i,
    {
        let (name, source) = table[i];
        assert(source@ == sources[i as int]);
        let ghost before = views(cat@);
        if !enlist(cat, name, kind, source) {
            return false;
        }
        assert(sources.take(i + 1) =~= sources.take(i as int).push(sources[i as int]));
        assert(views(cat@) =~= views(old(cat)@) + tier(kind, sources.take(i + 1)));
        i += 1;
    }
    assert(sources.take(i as int) =~= sources);
    true
}

/// Builds the catalog for the given custom patterns, in the order in which
/// a scan consults it. Fails on the first pattern the engine does not
/// accept: for a custom pattern it says which one.
pub fn build(custom: &Vec<&str>) -> (r: Result<Vec<Pattern>, ScanError>)
    ensures
        r matches Ok(cat) ==> built(texts(custom@)) == Ok::<Seq<PatternView>, ScanError>(
            views(cat@),
        ),
        r matches Err(e) ==> built(texts(custom@)) == Err::<Seq<PatternView>, ScanError>(e),
        r matches Err(ScanError::BadPattern { index }) ==> first_invalid(
            texts(custom@),
            index as int,
        ),
{
    let ghost sources = texts(custom@);
    let mut cat: Vec<Pattern> = Vec::new();
    assert(views(cat@) =~= Seq::<PatternView>::empty());
    let exclusions = exclusion_table();
    if !add_table(&mut cat, Kind::Exclude, &exclusions) {
        return Err(ScanError::Internal);
    }
    let ghost head = views(cat@);
    let mut i: usize = 0;
    while i < custom.len()
        invariant
            i <= custom.len(),
            sources == texts(custom@),
            all_valid(exclusion_sources()),
            all_valid(sources.take(i as int)),
            views(cat@) == head + tier(Kind::Custom, sources.take(i as int)),
        decreases custom.len() - i,
    {
        if !enlist(&mut cat, "custom", Kind::Custom, custom[i]) {
            proof {
                assert(first_invalid(sources, i as int));
                let chosen = choose|k: int| first_invalid(sources, k);
                lemma_first_invalid_unique(sources, i as int, chosen);
            }
            return Err(ScanError::BadPattern { index: i });
        }
        assert(sources.take(i + 1) =~= sources.take(i as int).push(sources[i as int]));
        assert(views(cat@) =~= head + tier(Kind::Custom, sources.take(i + 1)));
        i += 1;
    }
    assert(sources.take(i as int) =~= sources);
    let builtins = builtin_table();
    if !add_table(&mut cat, Kind::BuiltIn, &builtins) {
        return Err(ScanError::Internal);
    }
    assert(views(cat@) =~= catalog(sources));
    Ok(cat)
}

} // verus!
