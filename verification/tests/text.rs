use thumbs::text::{behind, cut, length, same_text};

#[test]
fn cut_takes_the_bytes_between_two_offsets() {
    assert_eq!(cut("lorem ipsum", 6, 11), Some("ipsum"));
    assert_eq!(cut("lorem ipsum", 0, 5), Some("lorem"));
    assert_eq!(cut("lorem", 2, 2), Some(""));
    assert_eq!(cut("lorem", 0, 5), Some("lorem"));
    assert_eq!(cut("", 0, 0), Some(""));
}

#[test]
fn cut_refuses_what_is_no_piece_of_the_text() {
    assert_eq!(cut("lorem", 3, 2), None);
    assert_eq!(cut("lorem", 0, 6), None);
    assert_eq!(cut("lorem", 6, 6), None);
}

#[test]
fn cut_never_splits_a_character() {
    // 'é' takes the bytes 1 and 2.
    assert_eq!(cut("héllo", 0, 1), Some("h"));
    assert_eq!(cut("héllo", 1, 3), Some("é"));
    assert_eq!(cut("héllo", 1, 2), None);
    assert_eq!(cut("héllo", 2, 3), None);
    assert_eq!(cut("héllo", 3, 6), Some("llo"));
}

#[test]
fn behind_is_the_rest_of_the_text() {
    assert_eq!(behind("lorem ipsum", 6), Some("ipsum"));
    assert_eq!(behind("lorem", 0), Some("lorem"));
    assert_eq!(behind("lorem", 5), Some(""));
    assert_eq!(behind("lorem", 6), None);
    assert_eq!(behind("héllo", 3), Some("llo"));
    assert_eq!(behind("héllo", 2), None);
}

#[test]
fn length_counts_bytes() {
    assert_eq!(length(""), 0);
    assert_eq!(length("lorem"), 5);
    assert_eq!(length("héllo"), 6);
}

#[test]
fn same_text_compares_contents() {
    assert!(same_text("", ""));
    assert!(same_text("127.0.0.1", "127.0.0.1"));
    assert!(!same_text("127.0.0.1", "127.0.0.2"));
    assert!(!same_text("127.0.0.1", "127.0.0"));
    assert!(!same_text("héllo", "hello"));
}
