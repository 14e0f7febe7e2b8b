use thumbs::catalog::{build, Kind};
use thumbs::error::ScanError;

#[test]
fn the_catalog_lists_exclusions_then_custom_then_built_in_patterns() {
    let custom = vec!["CUSTOM-[0-9]{4,}", "ISSUE-[0-9]{3}"];
    let cat = build(&custom).ok().unwrap();
    let kinds: Vec<Kind> = cat.iter().map(|p| p.kind).collect();
    let mut expected = vec![Kind::Exclude, Kind::Custom, Kind::Custom];
    expected.extend(vec![Kind::BuiltIn; 10]);
    assert_eq!(kinds, expected);
    let names: Vec<&str> = cat.iter().map(|p| p.name).collect();
    assert_eq!(
        names,
        vec![
            "bash", "custom", "custom", "url", "diff_a", "diff_b", "path", "color", "uid", "sha",
            "ip", "address", "number",
        ]
    );
}

#[test]
fn the_catalog_without_custom_patterns() {
    let cat = build(&Vec::new()).ok().unwrap();
    assert_eq!(cat.len(), 11);
    assert_eq!(cat[0].kind, Kind::Exclude);
    assert_eq!(cat[1].kind, Kind::BuiltIn);
}

#[test]
fn the_first_bad_custom_pattern_is_named() {
    assert_eq!(build(&vec!["("]).err(), Some(ScanError::BadPattern { index: 0 }));
    assert_eq!(build(&vec!["a", "b", "[z-a]", "("]).err(), Some(ScanError::BadPattern { index: 2 }));
}

#[test]
fn a_pattern_that_would_grow_too_big_is_a_bad_pattern() {
    assert_eq!(build(&vec![r"\w{1000}"]).err(), Some(ScanError::BadPattern { index: 0 }));
}
