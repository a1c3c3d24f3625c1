use search_index::postings::{LoadError, Postings};
use search_index::single_posting::Posting;

fn pairs(list: &Postings) -> Vec<(u16, u16)> {
    list.get_postings().iter().map(|p| (p.doc_id, p.term_freq)).collect()
}

#[test]
fn new_list_is_empty() {
    let list = Postings::new("cat".to_string());
    assert_eq!(list.word, "cat");
    assert!(list.get_postings().is_empty());
}

#[test]
fn push_keeps_document_order() {
    let mut list = Postings::new("cat".to_string());
    list.push(Posting::new(7, 1));
    list.push(Posting::new(2, 4));
    list.push(Posting::new(5, 9));
    assert_eq!(pairs(&list), vec![(2, 4), (5, 9), (7, 1)]);
}

#[test]
fn push_replaces_posting_of_same_document() {
    let mut list = Postings::new("cat".to_string());
    list.push(Posting::new(2, 4));
    list.push(Posting::new(2, 6));
    assert_eq!(pairs(&list), vec![(2, 6)]);
}

#[test]
fn update_frequency_counts_and_inserts() {
    let mut list = Postings::new("cat".to_string());
    list.update_frequency(3);
    list.update_frequency(1);
    list.update_frequency(3);
    assert_eq!(pairs(&list), vec![(1, 1), (3, 2)]);
}

#[test]
fn increment_saturates() {
    let mut posting = Posting::new(1, u16::MAX - 1);
    posting.increment_freq();
    assert_eq!(posting.term_freq, u16::MAX);
    posting.increment_freq();
    assert_eq!(posting.term_freq, u16::MAX);
}

#[test]
fn postings_compare_by_document() {
    assert!(Posting::new(1, 9) < Posting::new(2, 0));
    assert!(Posting::new(4, 1) == Posting::new(4, 2));
}

#[test]
fn merge_is_union_by_document() {
    let mut a = Postings::load_postings("cat:1|2,4|1,9|3").unwrap();
    let b = Postings::load_postings("cat:2|5,4|7,10|1").unwrap();
    a.merge(b);
    assert_eq!(pairs(&a), vec![(1, 2), (2, 5), (4, 8), (9, 3), (10, 1)]);
}

#[test]
fn merge_with_empty_changes_nothing() {
    let mut a = Postings::load_postings("cat:1|2,4|1").unwrap();
    a.merge(Postings::new("cat".to_string()));
    assert_eq!(pairs(&a), vec![(1, 2), (4, 1)]);
    let mut empty = Postings::new("cat".to_string());
    empty.merge(a);
    assert_eq!(pairs(&empty), vec![(1, 2), (4, 1)]);
}

#[test]
fn merge_saturates_shared_frequency() {
    let mut a = Postings::load_postings("cat:1|65000").unwrap();
    let b = Postings::load_postings("cat:1|1000").unwrap();
    a.merge(b);
    assert_eq!(pairs(&a), vec![(1, 65535)]);
}

#[test]
fn save_writes_one_line() {
    let mut list = Postings::new("cat".to_string());
    list.push(Posting::new(12, 3));
    list.push(Posting::new(1, 1));
    assert_eq!(list.save_postings(), "cat:1|1,12|3");
    assert_eq!(list.to_bytes(), b"cat:1|1,12|3".to_vec());
}

#[test]
fn save_of_empty_list_is_bare_term() {
    let list = Postings::new("cat".to_string());
    assert_eq!(list.save_postings(), "cat");
}

#[test]
fn load_reads_a_line() {
    let list = Postings::load_postings("dog:3|1,40|2").unwrap();
    assert_eq!(list.word, "dog");
    assert_eq!(pairs(&list), vec![(3, 1), (40, 2)]);
}

#[test]
fn load_sorts_and_ignores_blanks() {
    let list = Postings::load_postings("dog: 9|1, 3|2\n").unwrap();
    assert_eq!(list.word, "dog");
    assert_eq!(pairs(&list), vec![(3, 2), (9, 1)]);
}

#[test]
fn load_accepts_plus_sign_and_leading_zeros() {
    let list = Postings::load_postings("dog:+3|007").unwrap();
    assert_eq!(pairs(&list), vec![(3, 7)]);
}

#[test]
fn load_round_trip() {
    let mut list = Postings::new("zebra".to_string());
    list.push(Posting::new(65535, 65535));
    list.push(Posting::new(0, 0));
    list.push(Posting::new(77, 5));
    let again = Postings::load_postings(&list.save_postings()).unwrap();
    assert_eq!(again.word, list.word);
    assert_eq!(pairs(&again), pairs(&list));
}

#[test]
fn load_errors() {
    assert_eq!(Postings::load_postings("").err(), Some(LoadError::EmptyLine));
    assert_eq!(Postings::load_postings("cat").err(), Some(LoadError::MissingColon));
    assert_eq!(Postings::from_bytes(b"\xff\xfe:1|1").err(), Some(LoadError::InvalidTerm));
    assert_eq!(Postings::from_bytes(b"").err(), Some(LoadError::EmptyLine));
    assert_eq!(Postings::load_postings("cat:").err(), Some(LoadError::MissingPipe));
    assert_eq!(Postings::load_postings("cat:1|1,5").err(), Some(LoadError::MissingPipe));
    assert_eq!(Postings::load_postings("cat:x|1").err(), Some(LoadError::BadDocId));
    assert_eq!(Postings::load_postings("cat:65536|1").err(), Some(LoadError::BadDocId));
    assert_eq!(Postings::load_postings("cat:1|").err(), Some(LoadError::BadFrequency));
    assert_eq!(Postings::load_postings("cat:1|2|3").err(), Some(LoadError::BadFrequency));
    assert_eq!(Postings::load_postings("cat:1|-2").err(), Some(LoadError::BadFrequency));
}

#[test]
fn skip_list_of_short_list_samples_all() {
    let mut list = Postings::load_postings("cat:5|1,6|1,9|1").unwrap();
    list.build_skip_list();
    assert_eq!(list.skip_list_to_file(), "5|0,6|1,9|2");
}

#[test]
fn skip_list_of_long_list_samples_five() {
    let mut list = Postings::new("cat".to_string());
    for doc in 0..11u16 {
        list.push(Posting::new(doc * 10, 1));
    }
    list.build_skip_list();
    assert_eq!(list.skip_list_to_file(), "0|0,20|2,40|4,60|6,80|8");
}

#[test]
fn skip_list_is_empty_before_it_is_built() {
    let list = Postings::load_postings("cat:5|1").unwrap();
    assert_eq!(list.skip_list_to_file(), "");
}

#[test]
fn bytes_are_read_like_text() {
    let list = Postings::from_bytes("stra\u{df}e:3|1,40|2\n".as_bytes()).unwrap();
    assert_eq!(list.word, "stra\u{df}e");
    assert_eq!(pairs(&list), vec![(3, 1), (40, 2)]);
    assert_eq!(list.save_postings(), "stra\u{df}e:3|1,40|2");
}
