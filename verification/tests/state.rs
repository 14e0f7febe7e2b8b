use thumbs::error::ScanError;
use thumbs::state::{Match, State};

fn split(output: &str) -> Vec<&str> {
    output.split("\n").collect::<Vec<&str>>()
}

#[test]
fn match_reverse() {
    let lines = split("lorem 127.0.0.1 lorem 255.255.255.255 lorem 127.0.0.1 lorem");
    let custom = [].to_vec();
    let results = State::new(&lines, "abcd", &custom).matches(false, false).unwrap();

    assert_eq!(results.len(), 3);
    assert_eq!(results.first().unwrap().hint.clone().unwrap(), "a");
    assert_eq!(results.last().unwrap().hint.clone().unwrap(), "c");
}

#[test]
fn match_unique() {
    let lines = split("lorem 127.0.0.1 lorem 255.255.255.255 lorem 127.0.0.1 lorem");
    let custom = [].to_vec();
    let results = State::new(&lines, "abcd", &custom).matches(false, true).unwrap();

    assert_eq!(results.len(), 3);
    assert_eq!(results.first().unwrap().hint.clone().unwrap(), "a");
    assert_eq!(results.last().unwrap().hint.clone().unwrap(), "a");
}

#[test]
fn match_bash() {
    let lines = split(
        "path: \x1b[32m/var/log/nginx.log\x1b[m\npath: \x1b[32mtest/log/nginx.log\x1b[m",
    );
    let custom = [].to_vec();
    let results = State::new(&lines, "abcd", &custom).matches(false, false).unwrap();

    assert_eq!(results.len(), 2);
}

#[test]
fn match_paths() {
    let lines = split(
        "Lorem /tmp/foo/bar lorem\n Lorem /var/log/bootstrap.log lorem ../log/kern.log lorem",
    );
    let custom = [].to_vec();
    let results = State::new(&lines, "abcd", &custom).matches(false, false).unwrap();

    assert_eq!(results.len(), 3);
}

#[test]
fn match_uids() {
    let lines =
        split("Lorem ipsum 123e4567-e89b-12d3-a456-426655440000 lorem\n Lorem lorem lorem");
    let custom = [].to_vec();
    let results = State::new(&lines, "abcd", &custom).matches(false, false).unwrap();

    assert_eq!(results.len(), 1);
}

#[test]
fn match_shas() {
    let lines = split(
        "Lorem fd70b5695 5246ddf f924213 lorem\n Lorem 973113963b491874ab2e372ee60d4b4cb75f717c lorem",
    );
    let custom = [].to_vec();
    let results = State::new(&lines, "abcd", &custom).matches(false, false).unwrap();

    assert_eq!(results.len(), 4);
}

#[test]
fn match_ips() {
    let lines = split("Lorem ipsum 127.0.0.1 lorem\n Lorem 255.255.10.255 lorem 127.0.0.1 lorem");
    let custom = [].to_vec();
    let results = State::new(&lines, "abcd", &custom).matches(false, false).unwrap();

    assert_eq!(results.len(), 3);
}

#[test]
fn match_urls() {
    let lines = split(
        "Lorem ipsum https://www.rust-lang.org/tools lorem\n Lorem https://crates.io lorem https://github.io lorem ssh://github.io",
    );
    let custom = [].to_vec();
    let results = State::new(&lines, "abcd", &custom).matches(false, false).unwrap();

    assert_eq!(results.len(), 4);
}

#[test]
fn match_addresses() {
    let lines = split("Lorem 0xfd70b5695 0x5246ddf lorem\n Lorem 0x973113 lorem");
    let custom = [].to_vec();
    let results = State::new(&lines, "abcd", &custom).matches(false, false).unwrap();

    assert_eq!(results.len(), 3);
}

#[test]
fn match_hex_colors() {
    let lines =
        split("Lorem #fd7b56 lorem #FF00FF\n Lorem #00fF05 lorem #abcd00 lorem #afRR00");
    let custom = [].to_vec();
    let results = State::new(&lines, "abcd", &custom).matches(false, false).unwrap();

    assert_eq!(results.len(), 4);
}

#[test]
fn match_process_port() {
    let lines = split(
        "Lorem 5695 52463 lorem\n Lorem 973113 lorem 99999 lorem 8888 lorem\n   23456 lorem 5432 lorem 23444",
    );
    let custom = [].to_vec();
    let results = State::new(&lines, "abcd", &custom).matches(false, false).unwrap();

    assert_eq!(results.len(), 8);
}

#[test]
fn match_diff_a() {
    let lines = split("Lorem lorem\n--- a/src/main.rs");
    let custom = [].to_vec();
    let results = State::new(&lines, "abcd", &custom).matches(false, false).unwrap();

    assert_eq!(results.len(), 1);
    assert_eq!(results.first().unwrap().text.clone(), "src/main.rs");
}

#[test]
fn match_diff_b() {
    let lines = split("Lorem lorem\n+++ b/src/main.rs");
    let custom = [].to_vec();
    let results = State::new(&lines, "abcd", &custom).matches(false, false).unwrap();

    assert_eq!(results.len(), 1);
    assert_eq!(results.first().unwrap().text.clone(), "src/main.rs");
}

#[test]
fn priority() {
    let lines = split(
        "Lorem CUSTOM-52463 lorem ISSUE-123 lorem\nLorem /var/fd70b569/9999.log 52463 lorem\n Lorem 973113 lorem 123e4567-e89b-12d3-a456-426655440000 lorem 8888 lorem\n  https://crates.io/23456/fd70b569 lorem",
    );
    let custom = ["CUSTOM-[0-9]{4,}", "ISSUE-[0-9]{3}"].to_vec();
    let results = State::new(&lines, "abcd", &custom).matches(false, false).unwrap();

    // Matches
    // CUSTOM-52463
    // ISSUE-123
    // /var/fd70b569/9999.log
    // 52463
    // 973113
    // 123e4567-e89b-12d3-a456-426655440000
    // 8888
    // https://crates.io/23456/fd70b569
    assert_eq!(results.len(), 8);
    assert_eq!(results.get(0).unwrap().text.clone(), "CUSTOM-52463");
    assert_eq!(results.get(1).unwrap().text.clone(), "ISSUE-123");
}

fn places(results: &Vec<Match>) -> Vec<(usize, usize)> {
    results.iter().map(|m| (m.y, m.x)).collect()
}

fn labels(results: &Vec<Match>) -> Vec<Option<String>> {
    results.iter().map(|m| m.hint.clone()).collect()
}

fn label(text: &str) -> Option<String> {
    Some(text.to_string())
}

#[test]
fn priority_texts_places_and_labels() {
    let lines = split(
        "Lorem CUSTOM-52463 lorem ISSUE-123 lorem\nLorem /var/fd70b569/9999.log 52463 lorem\n Lorem 973113 lorem 123e4567-e89b-12d3-a456-426655440000 lorem 8888 lorem\n  https://crates.io/23456/fd70b569 lorem",
    );
    let custom = ["CUSTOM-[0-9]{4,}", "ISSUE-[0-9]{3}"].to_vec();
    let results = State::new(&lines, "abcd", &custom).matches(false, false).unwrap();
    let texts: Vec<&str> = results.iter().map(|m| m.text).collect();
    assert_eq!(
        texts,
        vec![
            "CUSTOM-52463",
            "ISSUE-123",
            "/var/fd70b569/9999.log",
            "52463",
            "973113",
            "123e4567-e89b-12d3-a456-426655440000",
            "8888",
            "https://crates.io/23456/fd70b569",
        ]
    );
    assert_eq!(
        places(&results),
        vec![(0, 6), (0, 25), (1, 6), (1, 29), (2, 7), (2, 20), (2, 63), (3, 2)]
    );
    assert_eq!(
        labels(&results),
        vec![
            label("a"),
            label("b"),
            label("ca"),
            label("cb"),
            label("da"),
            label("db"),
            label("dc"),
            label("dd"),
        ]
    );
}

#[test]
fn reverse_walks_from_the_last_match() {
    let lines = split("lorem 127.0.0.1 lorem 255.255.255.255 lorem 127.0.0.1 lorem");
    let custom = [].to_vec();
    let results = State::new(&lines, "abcd", &custom).matches(true, false).unwrap();
    assert_eq!(labels(&results), vec![label("c"), label("b"), label("a")]);
    assert_eq!(places(&results), vec![(0, 6), (0, 22), (0, 44)]);
}

#[test]
fn reverse_and_unique_share_the_label_of_the_last_occurrence() {
    let lines = split("lorem 127.0.0.1 lorem 255.255.255.255 lorem 127.0.0.1 lorem");
    let custom = [].to_vec();
    let results = State::new(&lines, "abcd", &custom).matches(true, true).unwrap();
    assert_eq!(labels(&results), vec![label("a"), label("b"), label("a")]);
}

#[test]
fn unique_asks_for_one_label_for_each_text() {
    // Five matches, two texts: two labels are asked for, so the letters
    // alone suffice and no two-letter label appears.
    let lines = split("1111 2222 1111 2222 1111");
    let custom = [].to_vec();
    let results = State::new(&lines, "ab", &custom).matches(false, true).unwrap();
    assert_eq!(
        labels(&results),
        vec![label("a"), label("b"), label("a"), label("b"), label("a")]
    );
}

#[test]
fn matches_that_outnumber_the_labels_stay_bare() {
    let lines = split("1111 2222 3333 4444 5555");
    let custom = [].to_vec();
    let results = State::new(&lines, "ab", &custom).matches(false, false).unwrap();
    assert_eq!(
        labels(&results),
        vec![label("aa"), label("ab"), label("ba"), label("bb"), None]
    );
}

#[test]
fn results_come_in_the_order_of_their_places() {
    let lines = split(
        "Lorem /tmp/foo/bar lorem 10.0.0.1\n\n Lorem /var/log/bootstrap.log lorem ../log/kern.log lorem\n0xdeadbeef 424242",
    );
    let custom = [].to_vec();
    for (reverse, unique) in [(false, false), (false, true), (true, false), (true, true)] {
        let results = State::new(&lines, "abcd", &custom).matches(reverse, unique).unwrap();
        let mut sorted = places(&results);
        sorted.sort();
        assert_eq!(places(&results), sorted);
        assert_eq!(results.len(), 6);
    }
}

#[test]
fn a_bad_custom_pattern_stops_everything() {
    let lines = split("lorem 127.0.0.1 lorem");
    let custom = ["[0-9]+", "(unclosed"].to_vec();
    let outcome = State::new(&lines, "abcd", &custom).matches(false, false);
    assert_eq!(outcome.err(), Some(ScanError::BadPattern { index: 1 }));
}

#[test]
fn a_custom_pattern_with_an_absent_group_is_an_internal_error() {
    let lines = split("lorem bar lorem");
    let custom = ["(foo)?bar"].to_vec();
    let outcome = State::new(&lines, "abcd", &custom).matches(false, false);
    assert_eq!(outcome.err(), Some(ScanError::Internal));
}

#[test]
fn no_lines_no_matches() {
    let lines: Vec<&str> = Vec::new();
    let custom = [].to_vec();
    let results = State::new(&lines, "abcd", &custom).matches(false, false).unwrap();
    assert!(results.is_empty());
}

#[test]
fn the_state_keeps_its_lines() {
    let lines = split("one\ntwo");
    let custom = [].to_vec();
    let state = State::new(&lines, "abcd", &custom);
    assert_eq!(state.lines, &lines);
}

#[test]
fn matches_are_equal_when_they_stand_at_the_same_place() {
    let a = Match { x: 3, y: 1, text: "one", hint: None };
    let b = Match { x: 3, y: 1, text: "two", hint: Some("a".to_string()) };
    let c = Match { x: 4, y: 1, text: "one", hint: None };
    let d = Match { x: 3, y: 2, text: "one", hint: None };
    assert!(a == b);
    assert!(a != c);
    assert!(a != d);
}

#[test]
fn errors_describe_themselves() {
    assert_eq!(ScanError::BadPattern { index: 0 }.message(), "invalid custom pattern");
    assert_eq!(ScanError::Internal.message(), "the pattern catalog is inconsistent");
}
