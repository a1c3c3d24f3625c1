use search_index::inverted_index::{route, InvertedIndex, InvertedIndexSplit, Shard};

fn docs(index: &InvertedIndex, term: &str) -> Option<Vec<(u16, u16)>> {
    index
        .get_postings(term)
        .map(|list| list.get_postings().iter().map(|p| (p.doc_id, p.term_freq)).collect())
}

fn text(bytes: Vec<u8>) -> String {
    String::from_utf8(bytes).unwrap()
}

#[test]
fn new_index_is_empty() {
    let index = InvertedIndex::new();
    assert!(index.get_ordered_keys().is_empty());
    assert_eq!(docs(&index, "cat"), None);
    assert_eq!(index.to_file(), Vec::<u8>::new());
}

#[test]
fn insert_counts_occurrences() {
    let mut index = InvertedIndex::new();
    index.insert("cat".to_string(), 1);
    index.insert("cat".to_string(), 1);
    index.insert("cat".to_string(), 3);
    index.insert("ant".to_string(), 2);
    assert_eq!(docs(&index, "cat"), Some(vec![(1, 2), (3, 1)]));
    assert_eq!(docs(&index, "ant"), Some(vec![(2, 1)]));
    assert_eq!(docs(&index, "ca"), None);
    assert_eq!(docs(&index, "cats"), None);
}

#[test]
fn keys_are_in_term_order() {
    let mut index = InvertedIndex::new();
    for term in ["dog", "ant", "cat", "dog", "bee", "an", "anta"] {
        index.insert(term.to_string(), 7);
    }
    assert_eq!(index.get_ordered_keys(), vec!["an", "ant", "anta", "bee", "cat", "dog"]);
}

#[test]
fn found_list_has_its_term() {
    let mut index = InvertedIndex::new();
    index.insert("cat".to_string(), 1);
    assert_eq!(index.get_postings("cat").unwrap().word, "cat");
}

#[test]
fn shard_file_has_one_line_per_term() {
    let mut index = InvertedIndex::new();
    index.insert("dog".to_string(), 2);
    index.insert("cat".to_string(), 1);
    index.insert("cat".to_string(), 1);
    index.insert("cat".to_string(), 20);
    assert_eq!(text(index.to_file()), "cat:1|2,20|1\ndog:2|1\n");
}

#[test]
fn merge_keeps_the_frequencies_of_the_other_index() {
    let mut index = InvertedIndex::new();
    index.insert("cat".to_string(), 1);
    index.insert("cat".to_string(), 2);
    let mut other = InvertedIndex::new();
    other.insert("cat".to_string(), 1);
    other.insert("cat".to_string(), 1);
    other.insert("cat".to_string(), 4);
    other.insert("cat".to_string(), 4);
    other.insert("ant".to_string(), 9);
    other.insert("emu".to_string(), 7);
    other.insert("emu".to_string(), 7);
    index.merge(other);
    assert_eq!(docs(&index, "cat"), Some(vec![(1, 3), (2, 1), (4, 2)]));
    assert_eq!(docs(&index, "ant"), Some(vec![(9, 1)]));
    assert_eq!(docs(&index, "emu"), Some(vec![(7, 2)]));
    assert_eq!(index.get_ordered_keys(), vec!["ant", "cat", "emu"]);
}

#[test]
fn merge_into_an_empty_index_gives_the_other_index() {
    let mut index = InvertedIndex::new();
    let mut other = InvertedIndex::new();
    other.insert("dog".to_string(), 2);
    other.insert("dog".to_string(), 2);
    other.insert("dog".to_string(), 2);
    index.merge(other);
    assert_eq!(index.get_postings("dog").unwrap().save_postings(), "dog:2|3");
    assert_eq!(text(index.to_file()), "dog:2|3\n");
}

#[test]
fn merge_with_empty_index_changes_nothing() {
    let mut index = InvertedIndex::new();
    index.insert("cat".to_string(), 1);
    index.merge(InvertedIndex::new());
    assert_eq!(text(index.to_file()), "cat:1|1\n");
}

#[test]
fn terms_are_routed_by_first_character() {
    assert_eq!(route("apple"), Some(Shard::AF));
    assert_eq!(route("fox"), Some(Shard::AF));
    assert_eq!(route("goat"), Some(Shard::GP));
    assert_eq!(route("pig"), Some(Shard::GP));
    assert_eq!(route("quail"), Some(Shard::QZ));
    assert_eq!(route("zebra"), Some(Shard::QZ));
    assert_eq!(route("0day"), Some(Shard::ZeroNine));
    assert_eq!(route("9lives"), Some(Shard::ZeroNine));
}

#[test]
fn terms_without_shard_are_dropped() {
    assert_eq!(route(""), None);
    assert_eq!(route("Apple"), None);
    assert_eq!(route("_x"), None);
    assert_eq!(route("\u{e9}t\u{e9}"), None);
    let mut index = InvertedIndexSplit::new();
    index.add_terms(1, &vec!["Apple".to_string(), "".to_string(), "\u{e9}t\u{e9}".to_string()]);
    for file in index.write_to_disk("d") {
        assert!(file.content.is_empty());
    }
}

#[test]
fn documents_are_indexed_by_their_terms() {
    let mut index = InvertedIndexSplit::new();
    index.add_document(1, "The cat sat");
    index.add_document(2, "the dog sat");
    assert_eq!(docs(&index.a_f, "cat"), Some(vec![(1, 1)]));
    assert_eq!(docs(&index.a_f, "dog"), Some(vec![(2, 1)]));
    assert_eq!(docs(&index.q_z, "sat"), Some(vec![(1, 1), (2, 1)]));
    assert_eq!(docs(&index.q_z, "the"), None);
    assert!(index.g_p.get_ordered_keys().is_empty());
    assert!(index.zero_nine.get_ordered_keys().is_empty());
}

#[test]
fn repeated_terms_raise_the_frequency() {
    let mut index = InvertedIndexSplit::new();
    index.add_document(5, "goat, goats; GOAT! 42 42");
    assert_eq!(docs(&index.g_p, "goat"), Some(vec![(5, 3)]));
    assert_eq!(docs(&index.zero_nine, "42"), None);
    index.add_document(6, "2024 2024 goat");
    assert_eq!(docs(&index.zero_nine, "2024"), Some(vec![(6, 2)]));
    assert_eq!(docs(&index.g_p, "goat"), Some(vec![(5, 3), (6, 1)]));
}

#[test]
fn batch_is_written_as_four_files() {
    let mut index = InvertedIndexSplit::new();
    index.add_document(1, "The cat sat");
    index.add_document(2, "the dog sat in 2024 with a goat");
    let files = index.write_to_disk("inverted_index/0");
    let seen: Vec<(String, String)> =
        files.into_iter().map(|f| (f.path, text(f.content))).collect();
    assert_eq!(
        seen,
        vec![
            ("inverted_index/0/a_f.txt".to_string(), "cat:1|1\ndog:2|1\n".to_string()),
            ("inverted_index/0/g_p.txt".to_string(), "goat:2|1\n".to_string()),
            ("inverted_index/0/q_z.txt".to_string(), "sat:1|1,2|1\n".to_string()),
            ("inverted_index/0/0_9.txt".to_string(), "2024:2|1\n".to_string()),
        ]
    );
}
