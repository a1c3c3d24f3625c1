//! The term normalizer: text is cut into runs of ASCII letters and digits,
//! the runs are lowercased, short ones and stop words are dropped, and what
//! is left is stemmed.
//!
//! Cutting and stemming are done by the `regex` and `porter_stemmer` crates;
//! what is assumed of them is stated at the three wrappers in this file.

use vstd::prelude::*;
use vstd::string::StrSliceExecFns;

verus! {

/// The regular expression that matches what stands between two tokens: a
/// run of characters other than ASCII letters and digits.
pub const SEPARATOR_PATTERN: &'static str = "[^a-zA-Z0-9]+";

/// A token must be longer than this to be kept.
pub const SHORT_TOKEN: usize = 2;

/// Whether `c` is an ASCII letter or digit.
pub open spec fn is_alphanumeric(c: char) -> bool {
    ('a' <= c <= 'z') || ('A' <= c <= 'Z') || ('0' <= c <= '9')
}

/// The length of the run at the front of `text` of characters that are
/// letters or digits (if `wanted`) or are not (if not `wanted`).
pub open spec fn run_length(text: Seq<char>, wanted: bool) -> nat
    decreases text.len(),
{
    if text.len() == 0 || is_alphanumeric(text[0]) != wanted {
        0
    } else {
        1 + run_length(text.drop_first(), wanted)
    }
}

/// A run is no longer than the text, holds only characters of its kind,
/// and ends before a character of the other kind.
pub proof fn lemma_run_length(text: Seq<char>, wanted: bool)
    ensures
        run_length(text, wanted) <= text.len(),
        forall|i: int|
            0 <= i < run_length(text, wanted) ==> is_alphanumeric(#[trigger] text[i]) == wanted,
        run_length(text, wanted) < text.len() ==> is_alphanumeric(
            text[run_length(text, wanted) as int],
        ) != wanted,
    decreases text.len(),
{
    if text.len() > 0 && is_alphanumeric(text[0]) == wanted {
        let rest = text.drop_first();
        lemma_run_length(rest, wanted);
        assert forall|i: int| 0 <= i < run_length(text, wanted) implies is_alphanumeric(
            #[trigger] text[i],
        ) == wanted by {
            if i > 0 {
                assert(text[i] == rest[i - 1]);
            }
        }
    }
}

/// The pieces of `text`: what stands before, between and after its
/// separators, a separator being a longest run of characters other than
/// ASCII letters and digits. There is always at least one piece, and a text
/// that starts or ends with a separator has an empty piece at that end.
pub open spec fn pieces(text: Seq<char>) -> Seq<Seq<char>>
    decreases text.len(),
    via pieces_decreases
{
    let word = run_length(text, true) as int;
    let gap = run_length(text.skip(word), false) as int;
    if gap == 0 {
        seq![text]
    } else {
        seq![text.take(word)] + pieces(text.skip(word + gap))
    }
}

/// `pieces` ends: what is left after a piece and a separator is shorter.
#[via_fn]
proof fn pieces_decreases(text: Seq<char>) {
    let word = run_length(text, true) as int;
    lemma_run_length(text, true);
    lemma_run_length(text.skip(word), false);
}

/// The ASCII lower-case form of `c`.
pub open spec fn lower_char(c: char) -> char {
    if 'A' <= c <= 'Z' {
        ((c as u8) + 32) as char
    } else {
        c
    }
}

/// `text` with each character in its ASCII lower-case form.
pub open spec fn lowered(text: Seq<char>) -> Seq<char> {
    Seq::new(text.len(), |i: int| lower_char(text[i]))
}

/// The stem that `porter_stemmer::stem` gives for a word. It is computed by
/// that crate from the word alone; this library states nothing more of it.
pub uninterp spec fn stemmed(word: Seq<char>) -> Seq<char>;

/// The views of a list of strings.
pub open spec fn texts_of(list: Seq<String>) -> Seq<Seq<char>> {
    Seq::new(list.len(), |i: int| list[i]@)
}

/// Whether a lowercased token goes on to be stemmed: it is longer than
/// `SHORT_TOKEN` characters and is no stop word.
pub open spec fn is_kept(stop_words: Seq<Seq<char>>, token: Seq<char>) -> bool {
    token.len() > SHORT_TOKEN && !stop_words.contains(token)
}

/// The terms that a list of pieces gives: each piece is lowercased; if it is
/// kept it is stemmed; and the stem is a term unless it is empty.
pub open spec fn terms_of(stop_words: Seq<Seq<char>>, parts: Seq<Seq<char>>) -> Seq<Seq<char>>
    decreases parts.len(),
{
    if parts.len() == 0 {
        Seq::empty()
    } else {
        let before = terms_of(stop_words, parts.drop_last());
        let token = lowered(parts.last());
        if is_kept(stop_words, token) && stemmed(token).len() > 0 {
            before.push(stemmed(token))
        } else {
            before
        }
    }
}

/// The terms of a text.
pub open spec fn normalized(stop_words: Seq<Seq<char>>, text: Seq<char>) -> Seq<Seq<char>> {
    terms_of(stop_words, pieces(text))
}

/// Cuts `text` at the matches of the regular expression `pattern`, by
/// `regex::Regex::new` and `regex::Regex::split`. For the separator pattern
/// the matches are the longest runs of characters other than ASCII letters
/// and digits, and `split` gives what stands before, between and after
/// them, in order: at least one piece, with an empty piece at an end where
/// the text starts or ends with a match.
#[verifier::external_body]
fn split_at_matches(pattern: &str, text: &str) -> (parts: Vec<String>)
    requires
        pattern@ == SEPARATOR_PATTERN@,
    ensures
        texts_of(parts@) == pieces(text@),
{
    let expression = regex::Regex::new(pattern).unwrap();
    let mut parts: Vec<String> = Vec::new();
    for piece in expression.split(text) {
        parts.push(piece.to_string());
    }
    parts
}

/// Lowercases `text` with `str::to_ascii_lowercase` of the standard library:
/// the letters `A` to `Z` become `a` to `z`, every other character stays.
#[verifier::external_body]
fn lowercase(text: &str) -> (lower: String)
    ensures
        lower@ == lowered(text@),
{
    text.to_ascii_lowercase()
}

/// Stems `word` with `porter_stemmer::stem`, which returns for every word a
/// string that depends on the word alone.
#[verifier::external_body]
fn stem_word(word: &str) -> (stem: String)
    ensures
        stem@ == stemmed(word@),
{
    porter_stemmer::stem(word)
}

/// The stop words of a tokenizer made by `Tokenizer::new`.
pub open spec fn default_stop_words() -> Seq<Seq<char>> {
    seq![
        "the"@,
        "and"@,
        "for"@,
        "are"@,
        "but"@,
        "not"@,
        "you"@,
        "was"@,
        "were"@,
        "has"@,
        "have"@,
        "had"@,
        "with"@,
        "this"@,
        "that"@,
        "these"@,
        "those"@,
        "from"@,
        "they"@,
        "them"@,
        "their"@,
        "there"@,
        "then"@,
        "than"@,
        "what"@,
        "when"@,
        "where"@,
        "which"@,
        "who"@,
        "whom"@,
        "will"@,
        "would"@,
        "your"@,
        "its"@,
        "his"@,
        "her"@,
    ]
}

/// Splits text into terms.
pub struct Tokenizer {
    pub stop_words: Vec<String>,
}

impl Tokenizer {
    /// The stop words, as plain values.
    pub open spec fn stops(&self) -> Seq<Seq<char>> {
        texts_of(self.stop_words@)
    }

    /// A tokenizer with the default stop words.
    pub fn new() -> (tokenizer: Tokenizer)
        ensures
            tokenizer.stops() == default_stop_words(),
    {
        let mut words: Vec<String> = Vec::new();
        words.push("the".to_owned());
        words.push("and".to_owned());
        words.push("for".to_owned());
        words.push("are".to_owned());
        words.push("but".to_owned());
        words.push("not".to_owned());
        words.push("you".to_owned());
        words.push("was".to_owned());
        words.push("were".to_owned());
        words.push("has".to_owned());
        words.push("have".to_owned());
        words.push("had".to_owned());
        words.push("with".to_owned());
        words.push("this".to_owned());
        words.push("that".to_owned());
        words.push("these".to_owned());
        words.push("those".to_owned());
        words.push("from".to_owned());
        words.push("they".to_owned());
        words.push("them".to_owned());
        words.push("their".to_owned());
        words.push("there".to_owned());
        words.push("then".to_owned());
        words.push("than".to_owned());
        words.push("what".to_owned());
        words.push("when".to_owned());
        words.push("where".to_owned());
        words.push("which".to_owned());
        words.push("who".to_owned());
        words.push("whom".to_owned());
        words.push("will".to_owned());
        words.push("would".to_owned());
        words.push("your".to_owned());
        words.push("its".to_owned());
        words.push("his".to_owned());
        words.push("her".to_owned());
        assert(texts_of(words@) =~= default_stop_words());
        Tokenizer { stop_words: words }
    }

    /// A tokenizer with the stop words `stop_words`, which are compared with
    /// the lowercased tokens.
    pub fn with_stop_words(stop_words: Vec<String>) -> (tokenizer: Tokenizer)
        ensures
            tokenizer.stop_words == stop_words,
    {
        Tokenizer { stop_words }
    }

    /// Whether `token` is one of the stop words.
    pub fn is_stop_word(&self, token: &str) -> (found: bool)
        ensures
            found == self.stops().contains(token@),
    {
        let mut i: usize = 0;
        while i < self.stop_words.len()
            invariant
                i <= self.stop_words@.len(),
                forall|k: int| 0 <= k < i ==> self.stops()[k] != token@,
            decreases self.stop_words@.len() - i,
        {
            if string_equal(self.stop_words[i].as_str(), token) {
                assert(self.stops()[i as int] == token@);
                return true;
            }
            i += 1;
        }
        false
    }

    /// The stem of `token`.
    pub fn porter_stemmer(&self, token: &str) -> (stem: String)
        ensures
            stem@ == stemmed(token@),
    {
        stem_word(token)
    }

    /// The terms that a list of pieces gives; see `terms_of`.
    pub fn normalize_pieces(&self, parts: &Vec<String>) -> (terms: Vec<String>)
        ensures
            texts_of(terms@) == terms_of(self.stops(), texts_of(parts@)),
    {
        let ghost all = texts_of(parts@);
        let mut terms: Vec<String> = Vec::new();
        let mut i: usize = 0;
        assert(all.take(0) =~= Seq::<Seq<char>>::empty());
        assert(texts_of(terms@) =~= terms_of(self.stops(), all.take(0)));
        while i < parts.len()
            invariant
                i <= parts@.len(),
                all == texts_of(parts@),
                texts_of(terms@) == terms_of(self.stops(), all.take(i as int)),
            decreases parts@.len() - i,
        {
            assert(all.take(i + 1).drop_last() =~= all.take(i as int));
            assert(all.take(i + 1).last() == parts@[i as int]@);
            let ghost before = texts_of(terms@);
            let token = lowercase(parts[i].as_str());
            if token.as_str().unicode_len() > SHORT_TOKEN && !self.is_stop_word(token.as_str()) {
                let stem = self.porter_stemmer(token.as_str());
                if !stem.as_str().is_empty() {
                    terms.push(stem);
                    assert(texts_of(terms@) =~= before.push(stemmed(token@)));
                }
            }
            i += 1;
        }
        assert(all.take(i as int) =~= all);
        terms
    }

    /// The terms of `text`, in the order in which they occur.
    pub fn tokenize(&self, text: &str) -> (terms: Vec<String>)
        ensures
            texts_of(terms@) == normalized(self.stops(), text@),
    {
        let parts = split_at_matches(SEPARATOR_PATTERN, text);
        self.normalize_pieces(&parts)
    }
}

/// Whether two strings hold the same characters.
pub fn string_equal(a: &str, b: &str) -> (equal: bool)
    ensures
        equal == (a@ == b@),
{
    broadcast use vstd::utf8::encode_utf8_decode_utf8;

    let equal = crate::text::bytes_equal(a.as_bytes(), b.as_bytes());
    proof {
        if equal {
            assert(vstd::utf8::decode_utf8(vstd::utf8::encode_utf8(a@)) == a@);
            assert(vstd::utf8::decode_utf8(vstd::utf8::encode_utf8(b@)) == b@);
        }
    }
    equal
}

} // verus!
