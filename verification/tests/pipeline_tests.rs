use wikimerge::sections::concat_sections;
use wikimerge::sections::match_sections;
use wikimerge::words::tokenize;
use wikimerge::words::Words;

#[test]
fn test_match_sections_pairs_titles_present_in_both() {
    let titles = vec!["intro".to_owned(), "history".to_owned(), "notes".to_owned()];
    let clean = vec![
        ("history".to_owned(), "clean history".to_owned()),
        ("intro".to_owned(), "clean intro".to_owned()),
    ];
    let vandalized = vec![
        ("intro".to_owned(), "bad intro".to_owned()),
        ("notes".to_owned(), "bad notes".to_owned()),
    ];
    let triples = match_sections(&titles, &clean, &vandalized);
    assert_eq!(
        vec![("intro".to_owned(), "clean intro".to_owned(), "bad intro".to_owned())],
        triples
    );
}

#[test]
fn test_concat_sections_keeps_order() {
    let sections = vec![b"alpha ".to_vec(), b"beta ".to_vec(), b"gamma".to_vec()];
    assert_eq!(b"alpha beta gamma".to_vec(), concat_sections(&sections));
}

#[test]
fn test_tokenize_empty_and_roundtrip() {
    assert!(tokenize(b"").is_empty());
    let text = b"  leading and trailing  ";
    let toks = tokenize(text);
    let rejoined: Vec<u8> = toks.concat();
    assert_eq!(text.to_vec(), rejoined);
}

#[test]
fn test_words_cursor_can_be_cloned_and_advanced_independently() {
    let text = "one two three".as_bytes();
    let mut words = Words::new(text);
    assert_eq!(Some("one ".as_bytes()), words.next());
    let mut snapshot = words;
    assert_eq!(Some("two ".as_bytes()), words.next());
    assert_eq!(Some("two ".as_bytes()), snapshot.next());
    assert_eq!(Some("three".as_bytes()), snapshot.next());
    assert_eq!(None, snapshot.next());
}
