use search_index::index_builder::{
    ascii_only, assemble_text, batch_dir, contains_lowered, ends_with_lowered,
    get_only_text_from_html, has_valid_extension, is_oversized, is_valid_page, keeps_only_ascii,
    matches_at, priority_selectors, Emphasis, Ingestor, ParsedUrl, Receipt, BATCH_SIZE,
    MAX_DOCUMENT_BYTES,
};

fn parsed(anchor: Option<&str>, path: Option<Vec<&str>>) -> Option<ParsedUrl> {
    Some(ParsedUrl {
        anchor: anchor.map(|a| a.to_string()),
        path: path.map(|p| p.into_iter().map(|s| s.to_string()).collect()),
    })
}

#[test]
fn large_documents_are_oversized() {
    assert_eq!(MAX_DOCUMENT_BYTES, 5_000_000);
    assert!(!is_oversized(0));
    assert!(!is_oversized(5_000_000));
    assert!(is_oversized(5_000_001));
}

#[test]
fn batch_directories_are_numbered() {
    assert_eq!(batch_dir(0), "inverted_index/0");
    assert_eq!(batch_dir(11), "inverted_index/11");
    assert_eq!(batch_dir(65535), "inverted_index/65535");
}

#[test]
fn search_in_lower_case() {
    assert!(matches_at(b"An HTML page", b"html", 3));
    assert!(!matches_at(b"An HTML page", b"html", 4));
    assert!(!matches_at(b"html", b"html", 1));
    assert!(matches_at(b"html", b"", 4));
    assert!(!matches_at(b"html", b"", 5));
    assert!(contains_lowered(b"<BODY>", b"body"));
    assert!(!contains_lowered(b"<BODY>", b"BODY"));
    assert!(contains_lowered(b"", b""));
    assert!(!contains_lowered(b"bod", b"body"));
    assert!(ends_with_lowered(b"INDEX.HTML", b".html"));
    assert!(!ends_with_lowered(b"index.html5", b".html"));
    assert!(!ends_with_lowered(b"ml", b".html"));
}

#[test]
fn extensions_of_pages() {
    for name in ["", "index.html", "INDEX.HTM", "a.txt", "readme.md", "feed.xml", "a.xhtml", "a.xhtm", "a.xht", "about", "a.b.txt"] {
        assert!(has_valid_extension(name));
    }
    for name in ["photo.png", "a.html.zip", "archive.tar.gz", "x.", ".bashrc"] {
        assert!(!has_valid_extension(name));
    }
}

#[test]
fn valid_pages() {
    assert!(is_valid_page(&parsed(None, Some(vec!["a", "index.html"])), "<html></html>"));
    assert!(is_valid_page(&parsed(None, None), "plain TEXT"));
    assert!(is_valid_page(&parsed(None, Some(vec![])), "<p>hi</p>"));
    assert!(is_valid_page(&parsed(None, Some(vec!["about"])), "<META>"));
}

#[test]
fn invalid_pages() {
    assert!(!is_valid_page(&None, "<html></html>"));
    assert!(!is_valid_page(&parsed(Some("top"), Some(vec!["index.html"])), "<html></html>"));
    assert!(!is_valid_page(&parsed(None, Some(vec!["a", "photo.png"])), "<html></html>"));
    assert!(!is_valid_page(&parsed(None, Some(vec!["index.html"])), "0101 1100"));
    assert!(!is_valid_page(&parsed(None, Some(vec!["index.html"])), ""));
}

#[test]
fn encodings_that_keep_only_ascii() {
    assert!(keeps_only_ascii("ascii"));
    assert!(keeps_only_ascii("US-ASCII"));
    assert!(keeps_only_ascii("utf-8 (ascii)"));
    assert!(keeps_only_ascii("windows-1252"));
    assert!(keeps_only_ascii(""));
    assert!(!keeps_only_ascii("UTF-8"));
    assert!(!keeps_only_ascii("ISO-8859-1"));
}

#[test]
fn ascii_filter() {
    assert_eq!(ascii_only("caf\u{e9} \u{1f600}ok"), "caf ok");
    assert_eq!(ascii_only(""), "");
    assert_eq!(ascii_only("\u{e9}\u{e9}"), "");
}

#[test]
fn selectors_and_weights() {
    assert_eq!(
        priority_selectors(),
        vec![
            ("title", 10),
            ("h1", 8),
            ("h2", 6),
            ("h3", 5),
            ("h4", 4),
            ("h5", 3),
            ("h6", 2),
            ("strong", 2),
            ("b", 1)
        ]
    );
}

#[test]
fn document_without_body_has_no_text() {
    let groups = vec![Emphasis { texts: vec!["t".to_string()], weight: 10 }];
    assert_eq!(assemble_text(None, &groups), "");
}

#[test]
fn emphasized_texts_are_repeated_by_weight() {
    let groups = vec![
        Emphasis { texts: vec!["T".to_string()], weight: 2 },
        Emphasis { texts: vec![], weight: 8 },
        Emphasis { texts: vec!["a".to_string(), "bc".to_string()], weight: 1 },
    ];
    assert_eq!(
        assemble_text(Some("body "), &groups),
        format!("body {}{}{}", "T".repeat(10), "a".repeat(5), "bc".repeat(5))
    );
    assert_eq!(assemble_text(Some("body"), &Vec::new()), "body");
}

#[test]
fn text_is_extracted_from_markup() {
    let page = "<html><head><title>Cats</title></head><body><h1>Big</h1><p>small <b>bold</b></p></body></html>";
    assert_eq!(
        get_only_text_from_html(page, "utf-8"),
        format!("Bigsmall bold{}{}{}", "Cats".repeat(50), "Big".repeat(40), "bold".repeat(5))
    );
}

#[test]
fn text_without_markup_is_its_own_body() {
    assert_eq!(get_only_text_from_html("plain words", "utf-8"), "plain words");
    assert_eq!(get_only_text_from_html("", "utf-8"), "");
}

#[test]
fn characters_outside_ascii_are_left_out_for_other_encodings() {
    assert_eq!(get_only_text_from_html("<p>caf\u{e9}</p>", "utf-8"), "caf\u{e9}");
    assert_eq!(get_only_text_from_html("<p>caf\u{e9}</p>", "iso-8859-1"), "caf\u{e9}");
    assert_eq!(get_only_text_from_html("<p>caf\u{e9}</p>", "ascii"), "caf");
    assert_eq!(get_only_text_from_html("<p>caf\u{e9}</p>", "windows-1252"), "caf");
}

#[test]
fn run_starts_empty() {
    let run = Ingestor::new();
    assert_eq!(run.documents, 0);
    assert!(run.book.is_empty());
    let (files, book, documents) = run.finish();
    assert!(files.is_none());
    assert!(book.is_empty());
    assert_eq!(documents, 0);
}

#[test]
fn documents_get_ids_in_order() {
    let mut run = Ingestor::new();
    assert!(matches!(run.receive("first", "a.json", "The cat sat"), Receipt::Indexed(0)));
    assert!(matches!(run.receive("second", "b.json", "the dog sat"), Receipt::Indexed(1)));
    assert_eq!(run.documents, 2);
    assert_eq!(run.book.len(), 800);
    assert!(run.book.starts_with(b"first | a.json "));
    assert!(run.book[400..].starts_with(b"second | b.json "));
    let (files, _, documents) = run.finish();
    assert_eq!(documents, 2);
    let files = files.unwrap();
    assert_eq!(files[0].path, "inverted_index/0/a_f.txt");
    assert_eq!(files[0].content, b"cat:0|1\ndog:1|1\n".to_vec());
    assert_eq!(files[2].path, "inverted_index/0/q_z.txt");
    assert_eq!(files[2].content, b"sat:0|1,1|1\n".to_vec());
}

#[test]
fn full_batch_is_flushed() {
    let mut run = Ingestor::new();
    for i in 0..BATCH_SIZE - 1 {
        assert!(matches!(run.receive("u", "p", "cat"), Receipt::Indexed(id) if id == i));
    }
    match run.receive("u", "p", "dog") {
        Receipt::Flushed(id, files) => {
            assert_eq!(id, BATCH_SIZE - 1);
            assert_eq!(files.len(), 4);
            assert_eq!(files[0].path, "inverted_index/0/a_f.txt");
            assert!(files[0].content.starts_with(b"cat:0|1,1|1,2|1,"));
            assert!(files[0].content.ends_with(b",4998|1\ndog:4999|1\n"));
        }
        other => panic!("{:?}", other),
    }
    assert!(run.index.a_f.get_ordered_keys().is_empty());
    assert!(matches!(run.receive("u", "p", "emu"), Receipt::Indexed(5000)));
    let (files, book, documents) = run.finish();
    assert_eq!(documents, 5001);
    assert_eq!(book.len(), 400 * 5001);
    let files = files.unwrap();
    assert_eq!(files[0].path, "inverted_index/1/a_f.txt");
    assert_eq!(files[0].content, b"emu:5000|1\n".to_vec());
}

#[test]
fn run_that_ends_on_a_full_batch_has_nothing_left() {
    let mut run = Ingestor::new();
    for _ in 0..BATCH_SIZE {
        run.receive("u", "p", "cat");
    }
    let (files, _, documents) = run.finish();
    assert!(files.is_none());
    assert_eq!(documents, BATCH_SIZE);
}

#[test]
fn documents_are_refused_when_ids_run_out() {
    let mut run = Ingestor::new();
    run.documents = u16::MAX;
    run.book = vec![b' '; 400 * u16::MAX as usize];
    assert!(matches!(run.receive("u", "p", "cat"), Receipt::Refused));
    assert_eq!(run.documents, u16::MAX);
    assert_eq!(run.book.len(), 400 * u16::MAX as usize);
    assert!(run.index.a_f.get_ordered_keys().is_empty());
}
