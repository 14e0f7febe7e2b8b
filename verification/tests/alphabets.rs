use thumbs::alphabets::get_alphabet;

#[test]
fn letters_suffice() {
    assert_eq!(get_alphabet("abcd").hints(3), ["a", "b", "c"]);
    assert_eq!(get_alphabet("abcd").hints(4), ["a", "b", "c", "d"]);
}

#[test]
fn one_letter_becomes_a_prefix() {
    assert_eq!(get_alphabet("abcd").hints(6), ["a", "b", "c", "da", "db", "dc"]);
    assert_eq!(get_alphabet("abcd").hints(5), ["a", "b", "c", "da", "db"]);
    assert_eq!(get_alphabet("abcd").hints(7), ["a", "b", "c", "da", "db", "dc", "dd"]);
}

#[test]
fn several_letters_become_prefixes() {
    assert_eq!(
        get_alphabet("abcd").hints(8),
        ["a", "b", "ca", "cb", "da", "db", "dc", "dd"]
    );
}

#[test]
fn two_letter_labels_run_out() {
    assert_eq!(get_alphabet("ab").hints(8), ["aa", "ab", "ba", "bb"]);
    assert_eq!(get_alphabet("ab").hints(4), ["aa", "ab", "ba", "bb"]);
    assert_eq!(get_alphabet("ab").hints(3), ["a", "ba", "bb"]);
}

#[test]
fn no_labels_asked_for() {
    assert!(get_alphabet("abcd").hints(0).is_empty());
}

#[test]
fn an_empty_alphabet_has_no_labels() {
    assert!(get_alphabet("").hints(5).is_empty());
}

#[test]
fn a_single_letter() {
    assert_eq!(get_alphabet("a").hints(1), ["a"]);
    assert_eq!(get_alphabet("a").hints(3), ["aa"]);
}

#[test]
fn a_letter_counts_once() {
    assert_eq!(get_alphabet("abab").hints(2), ["a", "b"]);
    assert_eq!(get_alphabet("aab").hints(3), ["a", "ba", "bb"]);
}

#[test]
fn letters_may_be_any_characters() {
    assert_eq!(get_alphabet("é1").hints(3), ["é", "1é", "11"]);
}

#[test]
fn labels_are_all_different_and_none_begins_another() {
    for count in 0..40 {
        let hints = get_alphabet("abcde").hints(count);
        assert_eq!(hints.len(), count.min(25));
        for (i, a) in hints.iter().enumerate() {
            for (j, b) in hints.iter().enumerate() {
                if i != j {
                    assert!(!b.starts_with(a.as_str()));
                }
            }
        }
    }
}

#[test]
fn the_same_request_gives_the_same_labels() {
    assert_eq!(get_alphabet("qwerty").hints(17), get_alphabet("qwerty").hints(17));
}
