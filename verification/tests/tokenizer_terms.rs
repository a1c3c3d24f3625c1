use search_index::tokenizer::{string_equal, Tokenizer};

fn terms(text: &str) -> Vec<String> {
    Tokenizer::new().tokenize(text)
}

#[test]
fn empty_text_has_no_terms() {
    assert_eq!(terms(""), Vec::<String>::new());
}

#[test]
fn separators_only_have_no_terms() {
    assert_eq!(terms(" ,;-- \n\t!"), Vec::<String>::new());
}

#[test]
fn splits_on_runs_of_other_characters() {
    assert_eq!(terms("cat--dog,,bird"), vec!["cat", "dog", "bird"]);
}

#[test]
fn lowercases_before_stemming() {
    assert_eq!(terms("Cat DOG"), vec!["cat", "dog"]);
}

#[test]
fn drops_stop_words_and_short_tokens() {
    assert_eq!(terms("The cat sat on a mat"), vec!["cat", "sat", "mat"]);
    assert_eq!(terms("the dog sat"), vec!["dog", "sat"]);
}

#[test]
fn non_ascii_letters_separate() {
    assert_eq!(terms("caf\u{e9}s na\u{ef}vely"), vec!["caf", "veli"]);
}

#[test]
fn digits_are_kept() {
    assert_eq!(terms("route 66 in 2024"), vec!["rout", "2024"]);
}

#[test]
fn stems_words() {
    assert_eq!(terms("ponies caresses motoring"), vec!["poni", "caress", "motor"]);
}

#[test]
fn stemmer_is_porter() {
    let tokenizer = Tokenizer::new();
    assert_eq!(tokenizer.porter_stemmer("totally"), "total");
    assert_eq!(tokenizer.porter_stemmer("relational"), "relat");
    assert_eq!(tokenizer.porter_stemmer("is"), "is");
}

#[test]
fn pieces_are_normalized_one_by_one() {
    let tokenizer = Tokenizer::new();
    let parts = vec!["".to_string(), "Running".to_string(), "THE".to_string(), "ab".to_string()];
    assert_eq!(tokenizer.normalize_pieces(&parts), vec!["run"]);
}

#[test]
fn own_stop_words_replace_the_default() {
    let tokenizer = Tokenizer::with_stop_words(vec!["cat".to_string()]);
    assert_eq!(tokenizer.tokenize("the cat sat"), vec!["the", "sat"]);
    assert!(tokenizer.is_stop_word("cat"));
    assert!(!tokenizer.is_stop_word("the"));
}

#[test]
fn default_stop_words_are_found() {
    let tokenizer = Tokenizer::new();
    assert!(tokenizer.is_stop_word("the"));
    assert!(tokenizer.is_stop_word("her"));
    assert!(!tokenizer.is_stop_word("cat"));
    assert!(!tokenizer.is_stop_word("The"));
}

#[test]
fn strings_compare_by_characters() {
    assert!(string_equal("stra\u{df}e", "stra\u{df}e"));
    assert!(!string_equal("cat", "cab"));
    assert!(!string_equal("cat", "cats"));
}
