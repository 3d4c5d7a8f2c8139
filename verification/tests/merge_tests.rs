use wikimerge::longest_common_subsequence::CommonRegion;
use wikimerge::longest_common_subsequence::CommonSubsequence;
use wikimerge::merge::calculate_match_state_transitions;
use wikimerge::merge::parse;
use wikimerge::merge::Chunk;
use wikimerge::merge::MatchStateTransition::NewStartsMatching;
use wikimerge::merge::MatchStateTransition::NewStopsMatching;
use wikimerge::merge::MatchStateTransition::OtherStartsMatching;
use wikimerge::merge::MatchStateTransition::OtherStopsMatching;
use wikimerge::merge::Merger;
use wikimerge::words::Words;

const START_MARKER: &str = "\u{E000}";
const END_MARKER: &str = "\u{E001}";

fn try_merge(old: &str, new: &str, other: &str, marker: &str) -> (String, bool) {
    let merger = Merger::new(1_000_000, u64::MAX);
    let (bytes, timed_out) =
        merger.try_merge(old.as_bytes(), new.as_bytes(), other.as_bytes(), marker.as_bytes());
    (String::from_utf8(bytes).unwrap(), timed_out)
}

#[test]
fn test_words_with_no_spaces_at_beginning_or_end() {
    let mut words = Words::new("0 1 2 3".as_bytes());
    assert_eq!(Some("0 ".as_bytes()), words.next());
    assert_eq!(Some("1 ".as_bytes()), words.next());
    assert_eq!(Some("2 ".as_bytes()), words.next());
    assert_eq!(Some("3".as_bytes()), words.next());
    assert_eq!(None, words.next());
}

#[test]
fn test_words_with_spaces_at_beginning_and_end() {
    let mut words = Words::new(" 0 1 2 3 ".as_bytes());
    assert_eq!(Some(" ".as_bytes()), words.next());
    assert_eq!(Some("0 ".as_bytes()), words.next());
    assert_eq!(Some("1 ".as_bytes()), words.next());
    assert_eq!(Some("2 ".as_bytes()), words.next());
    assert_eq!(Some("3 ".as_bytes()), words.next());
    assert_eq!(None, words.next());
}

#[test]
fn test_words_with_multiple_spaces() {
    let mut words = Words::new("  0  1\r\n\t2  3  ".as_bytes());
    assert_eq!(Some("  ".as_bytes()), words.next());
    assert_eq!(Some("0  ".as_bytes()), words.next());
    assert_eq!(Some("1\r\n\t".as_bytes()), words.next());
    assert_eq!(Some("2  ".as_bytes()), words.next());
    assert_eq!(Some("3  ".as_bytes()), words.next());
    assert_eq!(None, words.next());
}

#[test]
fn test_words_with_multibyte_characters() {
    let mut words = Words::new(
        "  0  1\r\n\t\u{3055}\u{3088}\u{3046}\u{306A}\u{3089}  3  ".as_bytes(),
    );
    assert_eq!(Some("  ".as_bytes()), words.next());
    assert_eq!(Some("0  ".as_bytes()), words.next());
    assert_eq!(Some("1\r\n\t".as_bytes()), words.next());
    assert_eq!(
        Some("\u{3055}\u{3088}\u{3046}\u{306A}\u{3089}  ".as_bytes()),
        words.next()
    );
    assert_eq!(Some("3  ".as_bytes()), words.next());
    assert_eq!(None, words.next());
}

#[test]
fn test_try_merge_empty() {
    assert_eq!(("".to_string(), false), try_merge("", "", "", ""));
}

#[test]
fn test_try_merge_clean() {
    let old = "First sentence. Second sentence.";
    let new = "First sentence. Second sentence changed.";
    let other = "First sentence changed. Second sentence.";
    let expected = format!(
        "First {}test{}sentence changed. {}test{}Second sentence changed.",
        START_MARKER, START_MARKER, END_MARKER, END_MARKER
    );
    assert_eq!((expected, false), try_merge(old, new, other, "test"));
}

#[test]
fn test_try_merge_conflicting() {
    let old = "First sentence. Second sentence.";
    let new = "First sentence. Second sentence changed one way.";
    let other = "First sentence changed. Second sentence changed a different way.";
    let expected = format!(
        "First {}123{}sentence changed. {}123{}Second {}123{}sentence changed a different way.{}123{}",
        START_MARKER, START_MARKER, END_MARKER, END_MARKER,
        START_MARKER, START_MARKER, END_MARKER, END_MARKER
    );
    assert_eq!((expected, false), try_merge(old, new, other, "123"));
}

#[test]
fn test_try_merge_with_change_at_end() {
    let old = "Test string. ";
    let new = "Test 1 string. ";
    let other = "Test string. 2";
    let expected = format!(
        "Test 1 string. {}test{}2{}test{}",
        START_MARKER, START_MARKER, END_MARKER, END_MARKER
    );
    assert_eq!((expected, false), try_merge(old, new, other, "test"));
}

#[test]
fn test_try_merge_special_characters() {
    let old = "First sentence. Second sentence.";
    let new = "First sentence. Second sentence \u{10143}.";
    let other = "First sentence \u{3055}\u{3088}\u{3046}\u{306A}\u{3089}. Second sentence.";
    let expected = format!(
        "First {}test{}sentence \u{3055}\u{3088}\u{3046}\u{306A}\u{3089}. {}test{}Second sentence \u{10143}.",
        START_MARKER, START_MARKER, END_MARKER, END_MARKER
    );
    assert_eq!((expected, false), try_merge(old, new, other, "test"));
}

#[test]
fn test_calculate_match_state_transitions() {
    let new_lcs = CommonSubsequence::new(vec![
        CommonRegion::new(0, 0, 1),
        CommonRegion::new(1, 3, 2),
        CommonRegion::new(5, 5, 1),
    ]);
    let other_lcs = CommonSubsequence::new(vec![
        CommonRegion::new(0, 0, 2),
        CommonRegion::new(3, 2, 2),
        CommonRegion::new(5, 5, 1),
    ]);
    let expected = vec![
        NewStartsMatching(0, 0),
        OtherStartsMatching(0, 0),
        NewStopsMatching(1, 1),
        NewStartsMatching(1, 3),
        OtherStopsMatching(2, 2),
        NewStopsMatching(3, 5),
        OtherStartsMatching(3, 2),
        OtherStopsMatching(5, 4),
        NewStartsMatching(5, 5),
        OtherStartsMatching(5, 5),
        NewStopsMatching(6, 6),
        OtherStopsMatching(6, 6),
    ];
    assert_eq!(expected, calculate_match_state_transitions(new_lcs, other_lcs));
}

#[test]
fn test_parse() {
    let new_lcs = CommonSubsequence::new(vec![
        CommonRegion::new(0, 0, 1),
        CommonRegion::new(1, 3, 2),
        CommonRegion::new(5, 5, 1),
    ]);
    let other_lcs = CommonSubsequence::new(vec![
        CommonRegion::new(0, 0, 2),
        CommonRegion::new(3, 2, 2),
        CommonRegion::new(5, 5, 1),
    ]);
    let expected = vec![
        Chunk::Stable(0, 1),
        Chunk::Unstable((1, 0), (1, 2), (1, 0)),
        Chunk::Stable(1, 1),
        Chunk::Unstable((2, 3), (4, 1), (2, 3)),
        Chunk::Stable(5, 1),
        Chunk::Unstable((6, 0), (6, 0), (6, 1)),
    ];
    assert_eq!(expected, parse(new_lcs, other_lcs, 6, 6, 7));
}

#[test]
fn test_parse_covers_base_and_never_stacks_stable_chunks() {
    let new_lcs = CommonSubsequence::new(vec![
        CommonRegion::new(0, 0, 1),
        CommonRegion::new(1, 3, 2),
        CommonRegion::new(5, 5, 1),
    ]);
    let other_lcs = CommonSubsequence::new(vec![
        CommonRegion::new(0, 0, 2),
        CommonRegion::new(3, 2, 2),
        CommonRegion::new(5, 5, 1),
    ]);
    let chunks = parse(new_lcs, other_lcs, 6, 6, 7);
    let mut base_at = 0usize;
    let mut previous_stable = false;
    for chunk in &chunks {
        match chunk {
            Chunk::Stable(start, len) => {
                assert!(!previous_stable);
                assert_eq!(base_at, *start);
                base_at += len;
                previous_stable = true;
            }
            Chunk::Unstable((ob, ol), _, _) => {
                assert_eq!(base_at, *ob);
                base_at += ol;
                previous_stable = false;
            }
        }
    }
    assert_eq!(6, base_at);
}

#[test]
fn test_try_merge_identity() {
    let x = "Same text. In every role.";
    assert_eq!((x.to_string(), false), try_merge(x, x, x, "9"));
}

#[test]
fn test_try_merge_left_identity() {
    let base = "First sentence. Second sentence.";
    let mine = "First sentence. Second sentence changed.";
    assert_eq!((mine.to_string(), false), try_merge(base, mine, base, "9"));
}

#[test]
fn test_try_merge_right_unchanged_wraps_changes() {
    let base = "One two three four.";
    let theirs = "One 2 three four five.";
    let expected = format!(
        "One {m}9{m}2 {e}9{e}three {m}9{m}four five.{e}9{e}",
        m = START_MARKER,
        e = END_MARKER
    );
    assert_eq!((expected, false), try_merge(base, base, theirs, "9"));
}

#[test]
fn test_try_merge_idempotent_when_theirs_is_base() {
    let base = "Alpha beta gamma.";
    let mine = "Alpha delta gamma indeed.";
    let first = try_merge(base, mine, base, "7");
    assert_eq!((mine.to_string(), false), first.clone());
    let second = try_merge(base, &first.0, base, "7");
    assert_eq!(first, second);
}

#[test]
fn test_try_merge_multibyte_in_difference_regions() {
    let old = "alpha beta gamma";
    let new = "alpha beta gamma";
    let other = "alpha \u{1D11E}\u{10384} gamma";
    let expected = format!(
        "alpha {m}5{m}\u{1D11E}\u{10384} {e}5{e}gamma",
        m = START_MARKER,
        e = END_MARKER
    );
    assert_eq!((expected, false), try_merge(old, new, other, "5"));
}

#[test]
fn test_try_merge_size_guard_skips_large_diff() {
    let merger = Merger::new(4, u64::MAX);
    let old = "a b c";
    let new = "a x c";
    let other = "a b c d e f g h i j k l m n o p";
    let (r, timed_out) =
        merger.try_merge(old.as_bytes(), new.as_bytes(), other.as_bytes(), "1".as_bytes());
    assert_eq!(new.as_bytes(), r.as_slice());
    assert!(!timed_out);
}

#[test]
fn test_try_merge_times_out_on_tiny_budget() {
    let merger = Merger::new(1_000_000, 0);
    let old: String = (0..400u32).map(|i| format!("a{} ", i)).collect();
    let other: String = (0..400u32).map(|i| format!("b{} ", i)).collect();
    let new = old.clone();
    let (r, timed_out) =
        merger.try_merge(old.as_bytes(), new.as_bytes(), other.as_bytes(), "1".as_bytes());
    assert!(timed_out);
    assert_eq!(new.as_bytes(), r.as_slice());
}
