use wikimerge::sections::deduplicate_section_titles;
use wikimerge::sections::merge_step;
use wikimerge::merge::Merger;
use wikimerge::wiki::build_query;
use wikimerge::wiki::get_antivandalism_revisions;
use wikimerge::wiki::redirect_target;
use wikimerge::wiki::Revision;
use wikimerge::json::JsonValue;

const TITLE_COUNT_SEPARATOR: &str = "\u{E002}";

#[test]
fn test_deduplicate_section_titles() {
    let input = vec![
        ("title1".to_owned(), "content1".to_owned()),
        ("title1".to_owned(), "content2".to_owned()),
        ("title2".to_owned(), "content3".to_owned()),
        ("title1".to_owned(), "content4".to_owned()),
    ];
    let expected = vec![
        (format!("title1{}1", TITLE_COUNT_SEPARATOR), "content1".to_owned()),
        (format!("title1{}2", TITLE_COUNT_SEPARATOR), "content2".to_owned()),
        (format!("title2{}1", TITLE_COUNT_SEPARATOR), "content3".to_owned()),
        (format!("title1{}3", TITLE_COUNT_SEPARATOR), "content4".to_owned()),
    ];
    assert_eq!(expected, deduplicate_section_titles(input));
}

fn rev(revid: u64, parentid: u64, comment: &str) -> Revision {
    Revision { revid, parentid, comment: comment.to_owned() }
}

#[test]
fn test_antivandalism_filter_keeps_matching_comments_in_order() {
    let revisions = vec![
        rev(5, 4, "Reverted vandalism by 1.2.3.4"),
        rev(4, 3, "typo fix"),
        rev(3, 2, "rv vandal edits"),
        rev(2, 1, "Vandalism removed"),
    ];
    let kept = get_antivandalism_revisions(revisions);
    // The match is case-sensitive, so "Vandalism" does not count.
    let ids: Vec<u64> = kept.iter().map(|r| r.revid).collect();
    assert_eq!(vec![5, 3], ids);
}

#[test]
fn test_redirect_target_found() {
    let content = "#REDIRECT [[Richard Feynman]] and more text".as_bytes();
    assert_eq!(Some("Richard Feynman".as_bytes().to_vec()), redirect_target(content));
}

#[test]
fn test_redirect_target_absent_or_malformed() {
    assert_eq!(None, redirect_target("Just an article about redirects.".as_bytes()));
    assert_eq!(None, redirect_target("#REDIRECT [[Unclosed".as_bytes()));
    assert_eq!(None, redirect_target("#REDIRECT [[Single] bracket".as_bytes()));
}

#[test]
fn test_build_query() {
    let params = vec![
        ("action".to_owned(), "query".to_owned()),
        ("titles".to_owned(), "Main Page".to_owned()),
    ];
    assert_eq!("action=query&titles=Main Page&format=json", build_query(&params));
    let empty: Vec<(String, String)> = vec![];
    assert_eq!("&format=json", build_query(&empty));
}

#[test]
fn test_merge_step_applies_and_resets_streak() {
    let merger = Merger::new(1_000_000, u64::MAX);
    let accumulator = "First sentence. Second sentence changed.".as_bytes().to_vec();
    let clean = "First sentence. Second sentence.".as_bytes();
    let vandalized = "First sentence changed. Second sentence.".as_bytes();
    let (merged, streak) = merge_step(&merger, accumulator, clean, vandalized, 77, 2, 3);
    let expected = format!(
        "First \u{E000}77\u{E000}sentence changed. \u{E001}77\u{E001}Second sentence changed."
    );
    assert_eq!(expected.as_bytes(), merged.as_slice());
    assert_eq!(0, streak);
}

#[test]
fn test_merge_step_counts_size_skip_toward_cutoff() {
    // A diff past the size guard leaves the text alone but counts toward
    // the back-off streak, exactly like a timeout.
    let merger = Merger::new(4, u64::MAX);
    let accumulator = "a x c".as_bytes().to_vec();
    let clean = "a b c".as_bytes();
    let vandalized = "a b c d e f g h i j k l m n o p".as_bytes();
    let (merged, streak) = merge_step(&merger, accumulator, clean, vandalized, 1, 0, 3);
    assert_eq!("a x c".as_bytes(), merged.as_slice());
    assert_eq!(1, streak);
}

#[test]
fn test_merge_step_drops_triple_past_cutoff() {
    let merger = Merger::new(1_000_000, u64::MAX);
    let accumulator = "kept text".as_bytes().to_vec();
    let (merged, streak) =
        merge_step(&merger, accumulator, "a".as_bytes(), "b".as_bytes(), 1, 3, 3);
    assert_eq!("kept text".as_bytes(), merged.as_slice());
    assert_eq!(3, streak);
}

#[test]
fn test_revisions_from_json() {
    let entry = |revid: u64, parentid: u64, comment: &str| {
        JsonValue::Object(vec![
            ("revid".to_owned(), JsonValue::Number(revid)),
            ("parentid".to_owned(), JsonValue::Number(parentid)),
            ("comment".to_owned(), JsonValue::String(comment.to_owned())),
        ])
    };
    let json = JsonValue::Object(vec![(
        "query".to_owned(),
        JsonValue::Object(vec![(
            "pages".to_owned(),
            JsonValue::Object(vec![(
                "12".to_owned(),
                JsonValue::Object(vec![(
                    "revisions".to_owned(),
                    JsonValue::Array(vec![entry(9, 8, "rv vandalism"), entry(8, 7, "expand")]),
                )]),
            )]),
        )]),
    )]);
    let revisions = wikimerge::wiki::revisions_from_json(&json).unwrap();
    assert_eq!(2, revisions.len());
    assert_eq!(9, revisions[0].revid);
    assert_eq!(8, revisions[0].parentid);
    assert_eq!("rv vandalism", revisions[0].comment);
    assert_eq!(8, revisions[1].revid);

    let bad = JsonValue::Object(vec![("query".to_owned(), JsonValue::Null)]);
    assert!(wikimerge::wiki::revisions_from_json(&bad).is_err());
}

#[test]
fn test_dec_renderings() {
    assert_eq!("0", wikimerge::sections::dec_string(0));
    assert_eq!("907", wikimerge::sections::dec_string(907));
    assert_eq!(b"0".to_vec(), wikimerge::dec_bytes(0));
    assert_eq!(b"18446744073709551615".to_vec(), wikimerge::dec_bytes(u64::MAX));
}
