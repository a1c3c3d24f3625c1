use search_index::file_skip_list::FileSkip;
use search_index::index_builder::{Ingestor, Receipt};
use search_index::inverted_index::InvertedIndexSplit;
use search_index::lazy_merger::merge_index;
use search_index::query::{
    find_bucket, posting_length, Candidate, SearchEngine, BUCKETS, TOTAL_DOCUMENT_COUNT,
};

fn tf_idf(term_freq: u16, postings: u16) -> f64 {
    let tf = f64::log2(term_freq as f64) + 1.0;
    let idf = f64::log2(TOTAL_DOCUMENT_COUNT as f64 / postings as f64);
    tf * idf
}

fn score_key(score: f64) -> u64 {
    if score > 0.0 {
        (score * 1_000_000.0).round() as u64
    } else {
        0
    }
}

struct Corpus {
    engine: SearchEngine,
    merged: Vec<Vec<u8>>,
}

impl Corpus {
    fn of_batches(batches: Vec<InvertedIndexSplit>) -> Corpus {
        let mut ranges = vec![Vec::new(); 4];
        for batch in &batches {
            let files = batch.write_to_disk("batch");
            ranges[0].push(files[3].content.clone());
            ranges[1].push(files[0].content.clone());
            ranges[2].push(files[1].content.clone());
            ranges[3].push(files[2].content.clone());
        }
        let mut merged = vec![Vec::new(); BUCKETS];
        let mut sidecars = vec![Vec::new(); BUCKETS];
        for file in merge_index(&ranges) {
            let bucket = find_bucket(&file.character.to_string()).unwrap();
            if let Some((_, text)) = FileSkip::write_skip_list(&file.skip_list) {
                sidecars[bucket] = text;
            }
            merged[bucket] = file.content;
        }
        Corpus { engine: SearchEngine::new(&sidecars), merged }
    }

    fn query(&mut self, text: &str) -> Vec<u16> {
        self.engine.set_query(text.to_string());
        let mut candidates = Vec::new();
        for list in self.engine.find_postings(&self.merged) {
            let length = posting_length(&list.word, list.get_postings().len());
            let mut candidate = Candidate::new(list.word.clone());
            for posting in list.get_postings() {
                candidate.update_score(posting.doc_id, score_key(tf_idf(posting.term_freq, length)));
            }
            candidates.push(candidate);
        }
        self.engine.search(&candidates, 10)
    }
}

fn two_documents() -> Corpus {
    let mut index = InvertedIndexSplit::new();
    index.add_document(1, "The cat sat");
    index.add_document(2, "the dog sat");
    Corpus::of_batches(vec![index])
}

#[test]
fn query_for_a_term_of_one_document() {
    assert_eq!(two_documents().query("cat"), vec![1]);
    assert_eq!(two_documents().query("dog"), vec![2]);
}

#[test]
fn query_for_a_term_of_both_documents() {
    assert_eq!(two_documents().query("sat"), vec![1, 2]);
}

#[test]
fn query_for_two_terms_needs_both() {
    assert_eq!(two_documents().query("cat sat"), vec![1]);
    assert_eq!(two_documents().query("cat dog"), Vec::<u16>::new());
}

#[test]
fn query_for_an_absent_term_is_empty() {
    assert_eq!(two_documents().query("unicorn"), Vec::<u16>::new());
    assert_eq!(two_documents().query("cat unicorn"), Vec::<u16>::new());
}

#[test]
fn empty_query_is_empty() {
    assert_eq!(two_documents().query(""), Vec::<u16>::new());
    assert_eq!(two_documents().query("  the a of ,, "), Vec::<u16>::new());
}

#[test]
fn higher_frequency_ranks_first() {
    let mut index = InvertedIndexSplit::new();
    index.add_document(1, "goat");
    index.add_document(2, "goat goat goat");
    index.add_document(3, "goat goat");
    assert_eq!(Corpus::of_batches(vec![index]).query("goats"), vec![2, 3, 1]);
}

#[test]
fn batches_are_merged_before_they_are_queried() {
    let mut first = InvertedIndexSplit::new();
    first.add_document(1, "cat 2024 zebra");
    let mut second = InvertedIndexSplit::new();
    second.add_document(2, "cat goat zebra zebra");
    let mut corpus = Corpus::of_batches(vec![first, second]);
    assert_eq!(corpus.query("cat"), vec![1, 2]);
    assert_eq!(corpus.query("zebra"), vec![2, 1]);
    assert_eq!(corpus.query("2024"), vec![1]);
    assert_eq!(corpus.query("goat zebra"), vec![2]);
}

#[test]
fn large_index_is_found_through_its_skip_lists() {
    let mut index = InvertedIndexSplit::new();
    for doc in 0..450u16 {
        index.add_terms(doc, &vec![format!("term{:03}x", doc)]);
    }
    let mut corpus = Corpus::of_batches(vec![index]);
    assert_eq!(corpus.merged[find_bucket("t").unwrap()].len(), 6640);
    for doc in [0u16, 1, 99, 100, 101, 250, 399, 400, 449] {
        assert_eq!(corpus.query(&format!("term{:03}x", doc)), vec![doc]);
    }
}

#[test]
fn ingested_run_is_queried() {
    let mut run = Ingestor::new();
    assert!(matches!(run.receive("first", "a.json", "The cat sat"), Receipt::Indexed(0)));
    assert!(matches!(run.receive("second", "b.json", "the dog sat"), Receipt::Indexed(1)));
    let index = run.index;
    let mut corpus = Corpus::of_batches(vec![index]);
    assert_eq!(corpus.query("sat"), vec![0, 1]);
    assert_eq!(corpus.query("dog"), vec![1]);
}
