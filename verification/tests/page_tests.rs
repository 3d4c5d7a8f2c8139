use wikimerge::page::process_merge_markers;
use wikimerge::page::remove_merge_markers;
use wikimerge::page::Page;

const START_MARKER: &str = "\u{E000}";
const END_MARKER: &str = "\u{E001}";

fn remove(html: &str) -> String {
    String::from_utf8(remove_merge_markers(html.as_bytes())).unwrap()
}

#[test]
fn test_remove_merge_markers_keep() {
    let html = format!(
        "<html><body>{}456{}<img src=\"asdf.jpg\">{}456{}</body></html>",
        START_MARKER, START_MARKER, END_MARKER, END_MARKER
    );
    assert_eq!(html.clone(), remove(&html));
}

#[test]
fn test_remove_merge_markers_keep_one_remove_one() {
    let html = format!(
        "<html><body>{}234{}<b>text{}234{}</b>{}567{}<img src=\"asdf{}567{}.jpg\"></body></html>",
        START_MARKER,
        START_MARKER,
        END_MARKER,
        END_MARKER,
        START_MARKER,
        START_MARKER,
        END_MARKER,
        END_MARKER
    );
    let expected = format!(
        "<html><body>{}234{}<b>text{}234{}</b><img src=\"asdf.jpg\"></body></html>",
        START_MARKER, START_MARKER, END_MARKER, END_MARKER
    );
    assert_eq!(expected, remove(&html));
}

#[test]
fn test_remove_merge_markers_end_inside_tag() {
    let html = format!(
        "<html><body>{}123{}<img src=\"asdf{}123{}.jpg\"></body></html>",
        START_MARKER, START_MARKER, END_MARKER, END_MARKER
    );
    let expected = "<html><body><img src=\"asdf.jpg\"></body></html>";
    assert_eq!(expected, remove(&html));
}

#[test]
fn test_remove_merge_markers_start_inside_tag() {
    let html = format!(
        "<html><body><img src=\"asdf{}123{}.jpg\">{}123{}</body></html>",
        START_MARKER, START_MARKER, END_MARKER, END_MARKER
    );
    let expected = "<html><body><img src=\"asdf.jpg\"></body></html>";
    assert_eq!(expected, remove(&html));
}

#[test]
fn test_remove_merge_markers_both_inside_tag() {
    let html = format!(
        "<html><body><img src=\"asdf{}123{}.jpg\">text<b{}123{}></body></html>",
        START_MARKER, START_MARKER, END_MARKER, END_MARKER
    );
    let expected = "<html><body><img src=\"asdf.jpg\">text<b></body></html>";
    assert_eq!(expected, remove(&html));
}

#[test]
fn test_stray_end_in_tag_strips_pair_from_body() {
    let html = format!(
        "<body>{}1{}<img src=\"x{}1{}.jpg\"></body>",
        START_MARKER, START_MARKER, END_MARKER, END_MARKER
    );
    let expected = "<body><img src=\"x.jpg\"></body>";
    assert_eq!(expected, remove(&html));
}

#[test]
fn test_process_merge_markers_makes_spans() {
    let html = format!(
        "<body>{}456{}kept{}456{}</body>",
        START_MARKER, START_MARKER, END_MARKER, END_MARKER
    );
    let expected =
        "<body><span style=\"color: red\" class=\"vandalism-456\">kept</span></body>";
    assert_eq!(
        expected,
        String::from_utf8(process_merge_markers(html.as_bytes())).unwrap()
    );
}

#[test]
fn test_page_splices_processed_body_into_skeleton() {
    let page = Page::new();
    let placeholder = String::from_utf8(page.placeholder.clone()).unwrap();
    assert!(placeholder.starts_with("WMW_PLACEHOLDER_"));
    assert!(placeholder["WMW_PLACEHOLDER_".len()..].chars().all(|c| c.is_ascii_digit()));

    let skeleton = format!("<html><div id=\"mw-content-text\">{}</div></html>", placeholder);
    let body = format!("text {}7{}new{}7{} end", START_MARKER, START_MARKER, END_MARKER, END_MARKER);
    let result = String::from_utf8(
        page.replace_body_and_remove_merge_markers(body.as_bytes(), skeleton.as_bytes()),
    )
    .unwrap();
    let expected = "<html><div id=\"mw-content-text\">text <span style=\"color: red\" class=\"vandalism-7\">new</span> end</div></html>";
    assert_eq!(expected, result);
}
