use search_index::file_skip_list::{
    get_postings_from_offset_range, next_line, FileSkip, SkipListBuilder, WordOffsetRange,
    MERGED_INDEX_DIR, PARTITION,
};

fn merged_file(lines: usize) -> Vec<u8> {
    let mut content = Vec::new();
    for i in 0..lines {
        content.extend_from_slice(format!("t{:05}:{}|{}\n", i, i + 1, 1 + i % 7).as_bytes());
    }
    content
}

fn pairs(list: &[FileSkip]) -> Vec<(String, u64)> {
    list.iter().map(|e| (String::from_utf8(e.word.clone()).unwrap(), e.byte_offset)).collect()
}

fn entry(word: &str, offset: u64) -> FileSkip {
    FileSkip { character: 't', word: word.as_bytes().to_vec(), byte_offset: offset }
}

#[test]
fn skip_list_constants() {
    assert_eq!(MERGED_INDEX_DIR, "inverted_index/merged");
    assert_eq!(PARTITION, 100);
}

#[test]
fn empty_file_has_no_samples() {
    assert!(FileSkip::build_skip_list('a', b"").is_empty());
}

#[test]
fn first_line_is_always_sampled() {
    let list = FileSkip::build_skip_list('c', b"cat:1|1\ncow:2|1\n");
    assert_eq!(pairs(&list), vec![("cat".to_string(), 0)]);
    assert_eq!(list[0].character, 'c');
}

#[test]
fn every_hundredth_line_is_sampled() {
    let content = merged_file(250);
    let list = FileSkip::build_skip_list('t', &content);
    let first_hundred = merged_file(100).len() as u64;
    let first_two_hundred = merged_file(200).len() as u64;
    assert_eq!(first_hundred, 1192);
    assert_eq!(
        pairs(&list),
        vec![
            ("t00000".to_string(), 0),
            ("t00100".to_string(), first_hundred),
            ("t00200".to_string(), first_two_hundred),
        ]
    );
}

#[test]
fn sample_offsets_are_line_starts() {
    let content = merged_file(301);
    for sample in FileSkip::build_skip_list('t', &content) {
        let at = sample.byte_offset as usize;
        assert!(at == 0 || content[at - 1] == b'\n');
        assert!(content[at..].starts_with(&sample.word));
    }
}

#[test]
fn samples_are_in_order() {
    let list = FileSkip::build_skip_list('t', &merged_file(1000));
    assert_eq!(list.len(), 10);
    for pair in list.windows(2) {
        assert!(pair[0].word <= pair[1].word);
        assert!(pair[0].byte_offset < pair[1].byte_offset);
    }
}

#[test]
fn last_line_may_lack_a_line_feed() {
    assert_eq!(next_line(b"cat:1|1\ncow:2|1", 0), 8);
    assert_eq!(next_line(b"cat:1|1\ncow:2|1", 8), 15);
}

#[test]
fn write_joins_samples_with_commas() {
    let list = vec![entry("cat", 0), entry(" cow \n", 1234)];
    assert_eq!(
        FileSkip::write_skip_list(&list),
        Some(('t', b"cat:0,cow:1234".to_vec()))
    );
}

#[test]
fn write_of_empty_list_is_no_file() {
    assert_eq!(FileSkip::write_skip_list(&Vec::new()), None);
}

#[test]
fn read_parses_samples() {
    let list = FileSkip::read_skip_list('c', b"cat:0,cow:1234");
    assert_eq!(pairs(&list), vec![("cat".to_string(), 0), ("cow".to_string(), 1234)]);
    assert!(list.iter().all(|e| e.character == 'c'));
}

#[test]
fn read_passes_over_bad_pieces() {
    let list = FileSkip::read_skip_list('c', b",cat:0,,noffset,cow:x,cub:7,big:18446744073709551616,");
    assert_eq!(pairs(&list), vec![("cat".to_string(), 0), ("cub".to_string(), 7)]);
}

#[test]
fn read_of_empty_file_is_empty() {
    assert!(FileSkip::read_skip_list('c', b"").is_empty());
}

#[test]
fn read_of_written_list_gives_it_back() {
    let built = FileSkip::build_skip_list('t', &merged_file(450));
    let (character, text) = FileSkip::write_skip_list(&built).unwrap();
    assert_eq!(character, 't');
    assert_eq!(pairs(&FileSkip::read_skip_list('t', &text)), pairs(&built));
}

#[test]
fn find_in_empty_list_is_invalid() {
    assert_eq!(FileSkip::find_skip_entry(&Vec::new(), "cat"), WordOffsetRange::Invalid);
}

#[test]
fn find_before_first_sample_is_invalid() {
    let list = vec![entry("cat", 0), entry("cow", 50)];
    assert_eq!(FileSkip::find_skip_entry(&list, "ant"), WordOffsetRange::Invalid);
}

#[test]
fn find_exact_between_and_after() {
    let list = vec![entry("cat", 0), entry("cow", 50), entry("cub", 90)];
    assert_eq!(FileSkip::find_skip_entry(&list, "cat"), WordOffsetRange::Exact(0));
    assert_eq!(FileSkip::find_skip_entry(&list, "cow"), WordOffsetRange::Exact(50));
    assert_eq!(FileSkip::find_skip_entry(&list, "cod"), WordOffsetRange::Between(0, 50));
    assert_eq!(FileSkip::find_skip_entry(&list, "crab"), WordOffsetRange::Between(50, 90));
    assert_eq!(FileSkip::find_skip_entry(&list, "cup"), WordOffsetRange::After(90));
}

#[test]
fn scan_of_invalid_range_finds_nothing() {
    let found = get_postings_from_offset_range(b"cat:1|1\n", WordOffsetRange::Invalid, "cat");
    assert_eq!(found.word, "cat");
    assert!(found.get_postings().is_empty());
}

#[test]
fn scan_reads_only_the_range() {
    let content = b"ant:1|1\ncat:2|2\ncow:3|3\ncub:4|4\n";
    let docs = |range, word| {
        get_postings_from_offset_range(content, range, word)
            .get_postings()
            .iter()
            .map(|p| (p.doc_id, p.term_freq))
            .collect::<Vec<_>>()
    };
    assert_eq!(docs(WordOffsetRange::Exact(8), "cat"), vec![(2, 2)]);
    assert_eq!(docs(WordOffsetRange::Exact(8), "cow"), vec![]);
    assert_eq!(docs(WordOffsetRange::Between(0, 16), "cat"), vec![(2, 2)]);
    assert_eq!(docs(WordOffsetRange::Between(0, 8), "cat"), vec![]);
    assert_eq!(docs(WordOffsetRange::Between(0, 9), "cat"), vec![(2, 2)]);
    assert_eq!(docs(WordOffsetRange::After(16), "cub"), vec![(4, 4)]);
    assert_eq!(docs(WordOffsetRange::After(16), "cat"), vec![]);
    assert_eq!(docs(WordOffsetRange::After(1000), "cub"), vec![]);
    assert_eq!(docs(WordOffsetRange::Between(0, u64::MAX), "cub"), vec![(4, 4)]);
    assert_eq!(docs(WordOffsetRange::Exact(u64::MAX), "cub"), vec![]);
}

#[test]
fn lookup_through_the_skip_list_finds_every_term() {
    let content = merged_file(731);
    let list = FileSkip::build_skip_list('t', &content);
    for i in [0usize, 1, 99, 100, 101, 350, 699, 700, 730] {
        let word = format!("t{:05}", i);
        let range = FileSkip::find_skip_entry(&list, &word);
        let found = get_postings_from_offset_range(&content, range, &word);
        let docs: Vec<(u16, u16)> =
            found.get_postings().iter().map(|p| (p.doc_id, p.term_freq)).collect();
        assert_eq!(docs, vec![(i as u16 + 1, 1 + (i % 7) as u16)]);
    }
}

#[test]
fn lookup_of_absent_term_finds_nothing() {
    let content = merged_file(300);
    let list = FileSkip::build_skip_list('t', &content);
    for word in ["a", "t000005", "t00150x", "zebra"] {
        let range = FileSkip::find_skip_entry(&list, word);
        let found = get_postings_from_offset_range(&content, range, word);
        assert!(found.get_postings().is_empty());
    }
}

#[test]
fn builder_samples_like_build_skip_list() {
    let content = merged_file(431);
    let mut builder = SkipListBuilder::new('t');
    for line in content.split_inclusive(|b| *b == b'\n') {
        assert!(builder.add_line(line));
    }
    let built = builder.finish();
    assert_eq!(pairs(&built), pairs(&FileSkip::build_skip_list('t', &content)));
    assert_eq!(built.len(), 5);
    assert!(built.iter().all(|e| e.character == 't'));
}

#[test]
fn builder_without_lines_has_no_samples() {
    assert!(SkipListBuilder::new('a').finish().is_empty());
}

#[test]
fn builder_refuses_what_is_not_one_line() {
    let mut builder = SkipListBuilder::new('c');
    assert!(!builder.add_line(b""));
    assert!(!builder.add_line(b"cat:1|1\ncow:2|2\n"));
    assert!(builder.add_line(b"cat:1|1\n"));
    assert!(builder.add_line(b"cow:2|2"));
    assert!(!builder.add_line(b"cub:3|3\n"));
    assert_eq!(pairs(&builder.finish()), vec![("cat".to_string(), 0)]);
}
