use wikimerge::longest_common_subsequence::get_longest_common_subsequence;
use wikimerge::longest_common_subsequence::CommonRegion;
use wikimerge::longest_common_subsequence::CommonSubsequence;

/// One item per character, as the character's UTF-8 bytes.
fn char_items(s: &str) -> Vec<Vec<u8>> {
    s.chars().map(|c| c.to_string().into_bytes()).collect()
}

#[test]
fn test_lcs_identical_strings() {
    let test_string = "test identical strings";
    let expected = CommonSubsequence::new(vec![CommonRegion::new(0, 0, 22)]);
    assert_eq!(
        Some(expected),
        get_longest_common_subsequence(&char_items(test_string), &char_items(test_string), u64::MAX)
    );
}

#[test]
fn test_lcs_diff_in_middle() {
    let test_string = "test string";
    let test_string2 = "test diff in middle string";
    let expected =
        CommonSubsequence::new(vec![CommonRegion::new(0, 0, 5), CommonRegion::new(5, 20, 6)]);
    assert_eq!(
        Some(expected),
        get_longest_common_subsequence(&char_items(test_string), &char_items(test_string2), u64::MAX)
    );
}

#[test]
fn test_lcs_complicated_diff() {
    let test_string = "123456";
    let test_string2 = "124536";
    let expected = CommonSubsequence::new(vec![
        CommonRegion::new(0, 0, 2),
        CommonRegion::new(3, 2, 2),
        CommonRegion::new(5, 5, 1),
    ]);
    assert_eq!(
        Some(expected),
        get_longest_common_subsequence(&char_items(test_string), &char_items(test_string2), u64::MAX)
    );
}

#[test]
fn test_lcs_no_words_in_common() {
    let test_string = "abcdefg";
    let test_string2 = "12345678";
    assert_eq!(
        Some(CommonSubsequence::new(vec![])),
        get_longest_common_subsequence(&char_items(test_string), &char_items(test_string2), u64::MAX)
    );
}

#[test]
fn test_lcs_special_characters() {
    let test_string = "Test \u{3055}\u{3088}string\u{10143}.";
    let test_string2 = "Test \u{3055}\u{3088}\u{3046}\u{306A}\u{3089} string.";
    let expected = CommonSubsequence::new(vec![
        CommonRegion::new(0, 0, 7),
        CommonRegion::new(7, 11, 6),
        CommonRegion::new(14, 17, 1),
    ]);
    assert_eq!(
        Some(expected),
        get_longest_common_subsequence(&char_items(test_string), &char_items(test_string2), u64::MAX)
    );
}

#[test]
fn test_lcs_length_symmetric_over_transposition() {
    let pairs = [
        ("the quick brown fox", "the slow brown dog"),
        ("a b c d e", "e d c b a"),
        ("one two three", "four five six"),
    ];
    for (a, b) in pairs {
        let ab = get_longest_common_subsequence(&char_items(a), &char_items(b), u64::MAX).unwrap();
        let ba = get_longest_common_subsequence(&char_items(b), &char_items(a), u64::MAX).unwrap();
        assert_eq!(ab.size, ba.size);
    }
}

#[test]
fn test_lcs_times_out_on_tiny_budget() {
    // Two long, fully disjoint inputs: the search cannot finish within a
    // zero-millisecond budget, so the deadline check fires.
    let a: Vec<Vec<u8>> = (0..400u32).map(|i| format!("a{}", i).into_bytes()).collect();
    let b: Vec<Vec<u8>> = (0..400u32).map(|i| format!("b{}", i).into_bytes()).collect();
    assert_eq!(None, get_longest_common_subsequence(&a, &b, 0));
}

#[test]
fn test_lcs_empty_inputs() {
    let empty: Vec<Vec<u8>> = vec![];
    let r = get_longest_common_subsequence(&empty, &empty, u64::MAX).unwrap();
    assert_eq!(0, r.size);
    assert!(r.common_regions.is_empty());
    let one = char_items("x");
    let r2 = get_longest_common_subsequence(&empty, &one, u64::MAX).unwrap();
    assert_eq!(0, r2.size);
}
