use thumbs::allocation::{allocate, assign, number};
use thumbs::state::Match;

fn found<'a>(texts: &[&'a str]) -> Vec<Match<'a>> {
    texts
        .iter()
        .enumerate()
        .map(|(i, text)| Match { x: 10 * i, y: 0, text, hint: None })
        .collect()
}

fn hints(labels: &[&str]) -> Vec<String> {
    labels.iter().map(|s| s.to_string()).collect()
}

fn labels(matches: &Vec<Match>) -> Vec<Option<String>> {
    matches.iter().map(|m| m.hint.clone()).collect()
}

fn some(labels: &[&str]) -> Vec<Option<String>> {
    labels.iter().map(|s| Some(s.to_string())).collect()
}

#[test]
fn every_match_takes_the_next_label() {
    let out = assign(found(&["x", "y", "x"]), &hints(&["a", "b", "c", "d"]), false, false);
    assert_eq!(labels(&out), some(&["a", "b", "c"]));
}

#[test]
fn reverse_hands_out_from_the_last_match() {
    let out = assign(found(&["x", "y", "x"]), &hints(&["a", "b", "c", "d"]), true, false);
    assert_eq!(labels(&out), some(&["c", "b", "a"]));
}

#[test]
fn unique_shares_the_label_of_the_first_occurrence() {
    let out = assign(found(&["x", "y", "x", "z", "y"]), &hints(&["a", "b", "c", "d"]), false, true);
    assert_eq!(labels(&out), some(&["a", "b", "a", "c", "b"]));
}

#[test]
fn unique_and_reverse() {
    let out = assign(found(&["x", "y", "x", "z", "y"]), &hints(&["a", "b", "c", "d"]), true, true);
    assert_eq!(labels(&out), some(&["c", "a", "c", "b", "a"]));
}

#[test]
fn the_list_keeps_its_order_and_its_places() {
    for (reverse, unique) in [(false, false), (false, true), (true, false), (true, true)] {
        let out = assign(found(&["x", "y", "x"]), &hints(&["a", "b"]), reverse, unique);
        let places: Vec<(usize, usize, &str)> = out.iter().map(|m| (m.x, m.y, m.text)).collect();
        assert_eq!(places, vec![(0, 0, "x"), (10, 0, "y"), (20, 0, "x")]);
    }
}

#[test]
fn where_the_labels_run_out_matches_stay_bare() {
    let out = assign(found(&["x", "y", "z"]), &hints(&["a"]), false, false);
    assert_eq!(labels(&out), vec![Some("a".to_string()), None, None]);
    let out = assign(found(&["x", "y", "z"]), &hints(&["a"]), true, false);
    assert_eq!(labels(&out), vec![None, None, Some("a".to_string())]);
    let out = assign(found(&["x", "y", "x", "y"]), &hints(&["a"]), false, true);
    assert_eq!(labels(&out), vec![Some("a".to_string()), None, Some("a".to_string()), None]);
    let out = assign(found(&["x", "y"]), &hints(&[]), false, false);
    assert_eq!(labels(&out), vec![None, None]);
}

#[test]
fn an_earlier_label_is_replaced() {
    let mut matches = found(&["x", "y"]);
    matches[0].hint = Some("old".to_string());
    matches[1].hint = Some("older".to_string());
    let out = assign(matches, &hints(&["a"]), false, false);
    assert_eq!(labels(&out), vec![Some("a".to_string()), None]);
}

#[test]
fn nothing_to_label() {
    assert!(assign(Vec::new(), &hints(&["a"]), false, true).is_empty());
    assert_eq!(number(&Vec::new(), true, true), (vec![], 0));
}

#[test]
fn numbers_follow_the_walk() {
    let matches = found(&["x", "y", "x", "z", "y"]);
    assert_eq!(number(&matches, false, false), (vec![0, 1, 2, 3, 4], 5));
    assert_eq!(number(&matches, true, false), (vec![0, 1, 2, 3, 4], 5));
    assert_eq!(number(&matches, false, true), (vec![0, 1, 0, 2, 1], 3));
    // Walked from the end the texts are y, z, x, y, x.
    assert_eq!(number(&matches, true, true), (vec![0, 1, 2, 0, 2], 3));
}

#[test]
fn allocate_asks_the_alphabet_for_what_the_walk_needs() {
    let out = allocate(found(&["x", "y", "x"]), "abcd", false, false);
    assert_eq!(labels(&out), some(&["a", "b", "c"]));
    let out = allocate(found(&["x", "y", "x"]), "ab", false, false);
    assert_eq!(labels(&out), some(&["a", "ba", "bb"]));
    // Two texts only: the two letters suffice.
    let out = allocate(found(&["x", "y", "x"]), "ab", false, true);
    assert_eq!(labels(&out), some(&["a", "b", "a"]));
    let out = allocate(found(&["x", "y", "x"]), "ab", true, false);
    assert_eq!(labels(&out), some(&["bb", "ba", "a"]));
}

#[test]
fn allocating_twice_changes_nothing() {
    for (reverse, unique) in [(false, false), (false, true), (true, false), (true, true)] {
        let once = allocate(found(&["x", "y", "x", "z", "y", "w"]), "ab", reverse, unique);
        let first = labels(&once);
        let twice = allocate(once, "ab", reverse, unique);
        assert_eq!(labels(&twice), first);
    }
}
