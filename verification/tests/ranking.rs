use search_index::file_skip_list::FileSkip;
use search_index::lazy_merger::merge_index;
use search_index::query::{
    character_of, find_bucket, is_before, posting_length, rank, score_of, Candidate, RankingMode,
    SearchEngine, BUCKETS, TOTAL_DOCUMENT_COUNT,
};

fn candidate(term: &str, scores: &[(u16, u64)]) -> Candidate {
    let mut c = Candidate::new(term.to_string());
    for (doc, score) in scores {
        c.update_score(*doc, *score);
    }
    c
}

#[test]
fn query_constants() {
    assert_eq!(TOTAL_DOCUMENT_COUNT, 46843);
    assert_eq!(BUCKETS, 36);
}

#[test]
fn new_candidate_has_no_documents() {
    let c = Candidate::new("cat".to_string());
    assert_eq!(c.term, "cat");
    assert!(c.doc_ids.is_empty());
}

#[test]
fn update_score_sets_and_replaces() {
    let mut c = Candidate::new("cat".to_string());
    c.update_score(4, 10);
    c.update_score(9, 20);
    c.update_score(4, 30);
    assert_eq!(c.doc_ids.len(), 2);
    assert_eq!(c.doc_ids[&4], 30);
    assert_eq!(c.doc_ids[&9], 20);
}

#[test]
fn short_terms_count_with_nearly_the_whole_corpus() {
    assert_eq!(posting_length("a", 7), 46743);
    assert_eq!(posting_length("ab", 7), 46743);
    assert_eq!(posting_length("abc", 7), 7);
    assert_eq!(posting_length("abc", 0), 0);
    assert_eq!(posting_length("abc", 70000), 65535);
}

#[test]
fn buckets_by_first_character() {
    assert_eq!(find_bucket("0day"), Some(0));
    assert_eq!(find_bucket("9"), Some(9));
    assert_eq!(find_bucket("apple"), Some(10));
    assert_eq!(find_bucket("zebra"), Some(35));
    assert_eq!(find_bucket(""), None);
    assert_eq!(find_bucket("Apple"), None);
    assert_eq!(find_bucket("\u{e9}"), None);
    assert_eq!(character_of(0), '0');
    assert_eq!(character_of(9), '9');
    assert_eq!(character_of(10), 'a');
    assert_eq!(character_of(35), 'z');
}

#[test]
fn no_candidates_rank_nothing() {
    assert!(rank(&Vec::new(), RankingMode::All, 10).is_empty());
    assert!(rank(&Vec::new(), RankingMode::Any, 10).is_empty());
}

#[test]
fn limit_zero_ranks_nothing() {
    let cs = vec![candidate("cat", &[(1, 5)])];
    assert!(rank(&cs, RankingMode::All, 0).is_empty());
}

#[test]
fn only_documents_of_every_term_are_ranked() {
    let cs = vec![
        candidate("cat", &[(1, 5), (2, 7), (3, 1)]),
        candidate("dog", &[(2, 1), (3, 9), (4, 100)]),
    ];
    assert_eq!(rank(&cs, RankingMode::All, 10), vec![(3, 10), (2, 8)]);
}

#[test]
fn any_mode_ranks_partial_matches() {
    let cs = vec![
        candidate("cat", &[(1, 5), (2, 7), (3, 1)]),
        candidate("dog", &[(2, 1), (3, 9), (4, 100)]),
    ];
    assert_eq!(rank(&cs, RankingMode::Any, 10), vec![(4, 100), (3, 10), (2, 8), (1, 5)]);
    assert_eq!(rank(&cs, RankingMode::Any, 2), vec![(4, 100), (3, 10)]);
}

#[test]
fn equal_scores_rank_by_document() {
    let cs = vec![candidate("sat", &[(9, 3), (2, 3), (5, 3), (1, 2)])];
    assert_eq!(rank(&cs, RankingMode::All, 3), vec![(2, 3), (5, 3), (9, 3)]);
    assert!(is_before((2, 3), (5, 3)));
    assert!(is_before((9, 4), (5, 3)));
    assert!(!is_before((5, 3), (5, 3)));
}

#[test]
fn a_term_without_documents_empties_the_ranking() {
    let cs = vec![candidate("cat", &[(1, 5)]), candidate("unicorn", &[])];
    assert!(rank(&cs, RankingMode::All, 10).is_empty());
    assert_eq!(rank(&cs, RankingMode::Any, 10), vec![(1, 5)]);
}

#[test]
fn scores_saturate() {
    let cs = vec![candidate("a", &[(1, u64::MAX - 1)]), candidate("b", &[(1, 5)])];
    assert_eq!(rank(&cs, RankingMode::All, 1), vec![(1, u64::MAX)]);
    assert_eq!(score_of(&cs, RankingMode::All, 1), Some(u64::MAX));
    assert_eq!(score_of(&cs, RankingMode::All, 2), None);
}

#[test]
fn highest_and_lowest_document_ids_are_ranked() {
    let cs = vec![candidate("a", &[(0, 1), (65535, 2)])];
    assert_eq!(rank(&cs, RankingMode::All, 5), vec![(65535, 2), (0, 1)]);
}

fn engine_over(shards: Vec<Vec<u8>>) -> (SearchEngine, Vec<Vec<u8>>) {
    let files = merge_index(&vec![shards]);
    let mut merged = vec![Vec::new(); BUCKETS];
    let mut sidecars = vec![Vec::new(); BUCKETS];
    for file in files {
        let bucket = find_bucket(&file.character.to_string()).unwrap();
        if let Some((_, text)) = FileSkip::write_skip_list(&file.skip_list) {
            sidecars[bucket] = text;
        }
        merged[bucket] = file.content;
    }
    (SearchEngine::new(&sidecars), merged)
}

#[test]
fn empty_query_has_no_terms_and_no_results() {
    let (mut engine, merged) = engine_over(vec![b"cat:1|1\n".to_vec()]);
    engine.set_query("".to_string());
    assert!(engine.get_tokens().is_empty());
    assert!(engine.find_postings(&merged).is_empty());
    assert!(engine.search(&Vec::new(), 10).is_empty());
}

#[test]
fn query_is_normalized() {
    let (mut engine, _) = engine_over(vec![]);
    engine.set_query("The Cats, sitting!".to_string());
    assert_eq!(engine.get_tokens(), &vec!["cat".to_string(), "sit".to_string()]);
}

#[test]
fn query_terms_are_looked_up() {
    let (mut engine, merged) =
        engine_over(vec![b"cat:1|1\nsat:1|1\n".to_vec(), b"dog:2|1\nsat:2|1\n".to_vec()]);
    engine.set_query("cat sat unicorn".to_string());
    let found = engine.find_postings(&merged);
    let seen: Vec<(String, Vec<(u16, u16)>)> = found
        .iter()
        .map(|l| (l.word.clone(), l.get_postings().iter().map(|p| (p.doc_id, p.term_freq)).collect()))
        .collect();
    assert_eq!(
        seen,
        vec![
            ("cat".to_string(), vec![(1, 1)]),
            ("sat".to_string(), vec![(1, 1), (2, 1)]),
            ("unicorn".to_string(), vec![]),
        ]
    );
}

#[test]
fn missing_files_give_no_postings() {
    let engine_files: Vec<Vec<u8>> = Vec::new();
    let mut engine = SearchEngine::new(&engine_files);
    engine.set_query("cat".to_string());
    let found = engine.find_postings(&Vec::new());
    assert_eq!(found.len(), 1);
    assert!(found[0].get_postings().is_empty());
}

#[test]
fn search_gives_the_best_documents_of_all_terms() {
    let (engine, _) = engine_over(vec![]);
    let cs = vec![
        candidate("cat", &[(1, 5), (2, 7), (3, 1)]),
        candidate("dog", &[(2, 1), (3, 9), (4, 100)]),
    ];
    assert_eq!(engine.search(&cs, 10), vec![3, 2]);
    assert_eq!(engine.search(&cs, 1), vec![3]);
}

#[test]
fn documents_of_every_term_are_ranked_unless_told_otherwise() {
    assert_eq!(RankingMode::default(), RankingMode::All);
}

#[test]
fn query_is_taken_from_a_line_of_input() {
    let (mut engine, _) = engine_over(vec![]);
    engine.get_query("  The Cats, sitting! \r\n");
    assert_eq!(engine.get_tokens(), &vec!["cat".to_string(), "sit".to_string()]);
    engine.get_query("\n");
    assert!(engine.get_tokens().is_empty());
}
