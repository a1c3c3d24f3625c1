use search_index::id_book::{offset_of, write_record, IDBookElement, RECORD_WIDTH};
use search_index::index_builder::IDBOOK_PATH;

fn element(url: &str) -> IDBookElement {
    IDBookElement::new(1, url.to_string(), "p".to_string())
}

#[test]
fn id_book_constants() {
    assert_eq!(IDBOOK_PATH, "inverted_index/id_book.txt");
    assert_eq!(RECORD_WIDTH, 400);
}

#[test]
fn new_element_holds_its_parts() {
    let e = IDBookElement::new(7, "https://a.b/c".to_string(), "dir/file.json".to_string());
    assert_eq!(e.id, 7);
    assert_eq!(e.url, "https://a.b/c");
    assert_eq!(e.path, "dir/file.json");
}

#[test]
fn domain_is_scheme_and_host() {
    assert_eq!(element("https://www.ics.uci.edu/a/b.html").get_domain(), "https://www.ics.uci.edu");
    assert_eq!(element("https://www.ics.uci.edu").get_domain(), "https://www.ics.uci.edu");
    assert_eq!(element("https://www.ics.uci.edu/").get_domain(), "https://www.ics.uci.edu");
    assert_eq!(element("http://h\u{e9}/x").get_domain(), "http://h\u{e9}");
}

#[test]
fn domain_of_url_with_fewer_than_two_slashes_is_the_url() {
    assert_eq!(element("").get_domain(), "");
    assert_eq!(element("example.com").get_domain(), "example.com");
    assert_eq!(element("example.com/page").get_domain(), "example.com/page");
}

#[test]
fn domain_drops_what_stands_between_the_first_two_slashes() {
    assert_eq!(element("a/b/c/d").get_domain(), "a//c");
    assert_eq!(element("//").get_domain(), "//");
}

#[test]
fn record_is_read_from_its_line() {
    let e = IDBookElement::idbook_element_from_string(3, "https://a.b/c | dir/f.json   \n").unwrap();
    assert_eq!(e.id, 3);
    assert_eq!(e.url, "https://a.b/c");
    assert_eq!(e.path, "dir/f.json");
}

#[test]
fn record_splits_at_the_first_bar() {
    let e = IDBookElement::idbook_element_from_string(3, "u|p|q").unwrap();
    assert_eq!(e.url, "u");
    assert_eq!(e.path, "p|q");
}

#[test]
fn line_without_bar_is_no_record() {
    assert!(IDBookElement::idbook_element_from_string(3, "https://a.b/c").is_none());
    assert!(IDBookElement::idbook_element_from_string(3, "").is_none());
}

#[test]
fn record_is_as_wide_as_a_record() {
    let record = write_record("https://a.b/c", "dir/f.json");
    assert_eq!(record.len(), 400);
    assert!(record.starts_with(b"https://a.b/c | dir/f.json "));
    assert_eq!(record[399], b'\n');
    assert!(record[26..399].iter().all(|b| *b == b' '));
}

#[test]
fn long_record_is_cut() {
    let url = "u".repeat(500);
    let record = write_record(&url, "p");
    assert_eq!(record.len(), 400);
    assert!(record[..399].iter().all(|b| *b == b'u'));
    assert_eq!(record[399], b'\n');
}

#[test]
fn record_offsets() {
    assert_eq!(offset_of(0), 0);
    assert_eq!(offset_of(1), 400);
    assert_eq!(offset_of(65535), 26_214_000);
}

#[test]
fn document_is_found_by_its_id() {
    let mut book = write_record("https://a.b/zero", "z.json");
    book.extend(write_record("https://a.b/one", "o.json"));
    let e = IDBookElement::get_doc_from_id(1, &book).unwrap();
    assert_eq!((e.id, e.url.as_str(), e.path.as_str()), (1, "https://a.b/one", "o.json"));
    let e = IDBookElement::get_doc_from_id(0, &book).unwrap();
    assert_eq!((e.id, e.url.as_str(), e.path.as_str()), (0, "https://a.b/zero", "z.json"));
    assert!(IDBookElement::get_doc_from_id(2, &book).is_none());
}

#[test]
fn record_that_is_not_text_is_not_found() {
    let mut book = vec![0xffu8; 399];
    book.push(b'\n');
    assert!(IDBookElement::get_doc_from_id(0, &book).is_none());
}
