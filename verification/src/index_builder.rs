//! The ingestion coordinator, as far as it decides: which documents are
//! taken, what text each is indexed by, which id each gets, and when a batch
//! is full and goes to disk. Reading and writing are left to the caller, who
//! hands in each document as it arrives and writes out what comes back.
//!
//! The text of a document is taken from its markup by the `scraper` crate;
//! what is assumed of it is stated at the one wrapper in this file.
//!
//! Ids are given on receipt, in order, starting at 0. So the ids of a run
//! are dense, batch `i` holds the documents `i * BATCH_SIZE` and following,
//! and the record of document `id` is the `id`-th of the id book.

use vstd::prelude::*;
use vstd::string::{StrSliceExecFns, StringExecFns};
use vstd::utf8::encode_utf8;
use crate::id_book::{record_text, write_record, RECORD_WIDTH};
use crate::inverted_index::{
    shard_text, shard_with_terms, InvertedIndexSplit, Shard, ShardFile,
};
use crate::text::{append_decimal, decimal, lemma_ascii_is_valid, lemma_decimal_reads_back, text_of_bytes};
use crate::tokenizer::{default_stop_words, normalized, texts_of};

verus! {

/// How many documents go into one batch.
pub const BATCH_SIZE: u16 = 5000;

/// The file of the id book.
pub const IDBOOK_PATH: &'static str = "inverted_index/id_book.txt";

/// The directory under which the batches are written.
pub const INDEX_DIR: &'static str = "inverted_index/";

/// A document of more bytes than this is passed over.
pub const MAX_DOCUMENT_BYTES: u64 = 5_000_000;

/// Whether a document of `size` bytes is too large to be indexed.
pub fn is_oversized(size: u64) -> (oversized: bool)
    ensures
        oversized == (size > MAX_DOCUMENT_BYTES),
{
    size > MAX_DOCUMENT_BYTES
}

/// The ASCII lower-case form of a byte.
pub open spec fn lower_byte(b: u8) -> u8 {
    if 65 <= b <= 90 {
        (b + 32) as u8
    } else {
        b
    }
}

/// `text` with each byte in its ASCII lower-case form.
pub open spec fn lowered_bytes(text: Seq<u8>) -> Seq<u8> {
    Seq::new(text.len(), |i: int| lower_byte(text[i]))
}

/// Whether `needle` stands at offset `at` of `hay`.
pub open spec fn stands_at(hay: Seq<u8>, needle: Seq<u8>, at: int) -> bool {
    0 <= at && at + needle.len() <= hay.len() && hay.subrange(at, at + needle.len()) == needle
}

/// Whether `needle` occurs in `hay`.
pub open spec fn occurs_in(hay: Seq<u8>, needle: Seq<u8>) -> bool {
    exists|at: int| stands_at(hay, needle, at)
}

/// Whether `hay` ends with `suffix`.
pub open spec fn ends_with(hay: Seq<u8>, suffix: Seq<u8>) -> bool {
    stands_at(hay, suffix, hay.len() - suffix.len())
}

/// Whether the lower-case form of `hay` has `needle` at offset `at`.
pub fn matches_at(hay: &[u8], needle: &[u8], at: usize) -> (found: bool)
    ensures
        found == stands_at(lowered_bytes(hay@), needle@, at as int),
{
    if at > hay.len() || needle.len() > hay.len() - at {
        return false;
    }
    let ghost lower = lowered_bytes(hay@);
    let mut k: usize = 0;
    while k < needle.len()
        invariant
            k <= needle@.len(),
            at + needle@.len() <= hay@.len(),
            hay@.len() <= usize::MAX,
            lower == lowered_bytes(hay@),
            forall|i: int| 0 <= i < k ==> lower[at + i] == needle@[i],
        decreases needle@.len() - k,
    {
        let b = hay[at + k];
        let low = if 65 <= b && b <= 90 {
            b + 32
        } else {
            b
        };
        if low != needle[k] {
            assert(lower.subrange(at as int, at + needle@.len())[k as int] != needle@[k as int]);
            return false;
        }
        k += 1;
    }
    assert(lower.subrange(at as int, at + needle@.len()) =~= needle@);
    true
}

/// Whether `needle` occurs in the lower-case form of `hay`.
pub fn contains_lowered(hay: &[u8], needle: &[u8]) -> (found: bool)
    ensures
        found == occurs_in(lowered_bytes(hay@), needle@),
{
    let mut at: usize = 0;
    while at < hay.len()
        invariant
            at <= hay@.len(),
            forall|i: int| 0 <= i < at ==> !stands_at(lowered_bytes(hay@), needle@, i),
        decreases hay@.len() - at,
    {
        if matches_at(hay, needle, at) {
            return true;
        }
        at += 1;
    }
    matches_at(hay, needle, at)
}

/// Whether the lower-case form of `hay` ends with `suffix`.
pub fn ends_with_lowered(hay: &[u8], suffix: &[u8]) -> (found: bool)
    ensures
        found == ends_with(lowered_bytes(hay@), suffix@),
{
    if suffix.len() > hay.len() {
        return false;
    }
    matches_at(hay, suffix, hay.len() - suffix.len())
}

/// What a parser has found in a URL, as far as the validity of a page
/// depends on it: the anchor after `#`, and the segments of the path.
#[derive(Debug)]
pub struct ParsedUrl {
    pub anchor: Option<String>,
    pub path: Option<Vec<String>>,
}

/// Whether a file name has an extension of a page, or none: it is empty, or
/// ends, whatever its case, with one of the extensions of text and markup,
/// or holds no dot.
pub open spec fn has_page_extension(name: Seq<u8>) -> bool {
    let lower = lowered_bytes(name);
    ||| name.len() == 0
    ||| ends_with(lower, encode_utf8(".txt"@))
    ||| ends_with(lower, encode_utf8(".html"@))
    ||| ends_with(lower, encode_utf8(".htm"@))
    ||| ends_with(lower, encode_utf8(".md"@))
    ||| ends_with(lower, encode_utf8(".xml"@))
    ||| ends_with(lower, encode_utf8(".xhtml"@))
    ||| ends_with(lower, encode_utf8(".xhtm"@))
    ||| ends_with(lower, encode_utf8(".xht"@))
    ||| !occurs_in(lower, encode_utf8("."@))
}

/// Whether a content looks like a page: it holds, whatever the case, one of
/// the words that markup and text carry.
pub open spec fn has_page_content(content: Seq<u8>) -> bool {
    let lower = lowered_bytes(content);
    ||| occurs_in(lower, encode_utf8("html"@))
    ||| occurs_in(lower, encode_utf8("body"@))
    ||| occurs_in(lower, encode_utf8("meta"@))
    ||| occurs_in(lower, encode_utf8("<p"@))
    ||| occurs_in(lower, encode_utf8("txt"@))
    ||| occurs_in(lower, encode_utf8("text"@))
}

/// The last segment of a path; the empty name where there is no segment.
pub open spec fn last_segment(path: Seq<String>) -> Seq<u8> {
    if path.len() == 0 {
        Seq::empty()
    } else {
        encode_utf8(path.last()@)
    }
}

/// Whether a document is a page to be indexed: its URL was parsed and has no
/// anchor, the last segment of its path, if it has a path, has the
/// extension of a page, and its content looks like a page.
pub open spec fn is_page(url: Option<ParsedUrl>, content: Seq<char>) -> bool {
    match url {
        None => false,
        Some(parsed) => {
            &&& parsed.anchor is None
            &&& (parsed.path matches Some(path) ==> has_page_extension(last_segment(path@)))
            &&& has_page_content(encode_utf8(content))
        },
    }
}

/// Computes `has_page_extension`.
pub fn has_valid_extension(name: &str) -> (valid: bool)
    ensures
        valid == has_page_extension(encode_utf8(name@)),
{
    let bytes = name.as_bytes();
    bytes.len() == 0 || ends_with_lowered(bytes, ".txt".as_bytes()) || ends_with_lowered(
        bytes,
        ".html".as_bytes(),
    ) || ends_with_lowered(bytes, ".htm".as_bytes()) || ends_with_lowered(bytes, ".md".as_bytes())
        || ends_with_lowered(bytes, ".xml".as_bytes()) || ends_with_lowered(
        bytes,
        ".xhtml".as_bytes(),
    ) || ends_with_lowered(bytes, ".xhtm".as_bytes()) || ends_with_lowered(
        bytes,
        ".xht".as_bytes(),
    ) || !contains_lowered(bytes, ".".as_bytes())
}

/// Decides whether a document is a page to be indexed; see `is_page`.
pub fn is_valid_page(url: &Option<ParsedUrl>, content: &str) -> (valid: bool)
    ensures
        valid == is_page(*url, content@),
{
    let parsed = match url {
        None => {
            return false;
        },
        Some(parsed) => parsed,
    };
    if parsed.anchor.is_some() {
        return false;
    }
    match &parsed.path {
        None => {},
        Some(path) => {
            let valid = if path.len() == 0 {
                has_valid_extension("")
            } else {
                has_valid_extension(path[path.len() - 1].as_str())
            };
            proof {
                if path@.len() == 0 {
                    assert(encode_utf8(""@) =~= Seq::<u8>::empty()) by {
                        reveal_strlit("");
                    }
                }
            }
            if !valid {
                return false;
            }
        },
    }
    let bytes = content.as_bytes();
    contains_lowered(bytes, "html".as_bytes()) || contains_lowered(bytes, "body".as_bytes())
        || contains_lowered(bytes, "meta".as_bytes()) || contains_lowered(bytes, "<p".as_bytes())
        || contains_lowered(bytes, "txt".as_bytes()) || contains_lowered(bytes, "text".as_bytes())
}

/// Whether a document in the encoding `encoding` is indexed by its ASCII
/// characters only: its encoding is named ASCII, or is neither UTF-8 nor one
/// of ISO 8859.
pub open spec fn is_ascii_encoding(encoding: Seq<u8>) -> bool {
    let lower = lowered_bytes(encoding);
    occurs_in(lower, encode_utf8("ascii"@)) || !(occurs_in(lower, encode_utf8("utf-8"@))
        || occurs_in(lower, encode_utf8("iso-8859"@)))
}

/// Computes `is_ascii_encoding`.
pub fn keeps_only_ascii(encoding: &str) -> (only: bool)
    ensures
        only == is_ascii_encoding(encode_utf8(encoding@)),
{
    let bytes = encoding.as_bytes();
    contains_lowered(bytes, "ascii".as_bytes()) || !(contains_lowered(bytes, "utf-8".as_bytes())
        || contains_lowered(bytes, "iso-8859".as_bytes()))
}

/// The ASCII bytes of `text`, in order.
pub open spec fn ascii_part(text: Seq<u8>) -> Seq<u8>
    decreases text.len(),
{
    if text.len() == 0 {
        Seq::empty()
    } else if text.last() < 128 {
        ascii_part(text.drop_last()).push(text.last())
    } else {
        ascii_part(text.drop_last())
    }
}

/// `content` without its characters outside ASCII.
pub fn ascii_only(content: &str) -> (ascii: String)
    ensures
        encode_utf8(ascii@) == ascii_part(encode_utf8(content@)),
{
    let bytes = content.as_bytes();
    let mut kept: Vec<u8> = Vec::new();
    let mut i: usize = 0;
    assert(bytes@.take(0) =~= Seq::<u8>::empty());
    while i < bytes.len()
        invariant
            i <= bytes@.len(),
            kept@ == ascii_part(bytes@.take(i as int)),
            forall|k: int| 0 <= k < kept@.len() ==> kept@[k] < 128,
        decreases bytes@.len() - i,
    {
        assert(bytes@.take(i + 1).drop_last() =~= bytes@.take(i as int));
        assert(bytes@.take(i + 1).last() == bytes@[i as int]);
        if bytes[i] < 128 {
            kept.push(bytes[i]);
        }
        i += 1;
    }
    assert(bytes@.take(i as int) =~= bytes@);
    proof {
        lemma_ascii_is_valid(kept@);
    }
    text_of_bytes(kept)
}

/// The texts of the elements that one selector finds in a document, and the
/// weight with which they count.
#[derive(Debug)]
pub struct Emphasis {
    pub texts: Vec<String>,
    pub weight: u32,
}

/// The selectors of the emphasized elements, each with its weight, in the
/// order in which their texts are added.
pub open spec fn priority_table() -> Seq<(Seq<char>, u32)> {
    seq![
        ("title"@, 10u32),
        ("h1"@, 8u32),
        ("h2"@, 6u32),
        ("h3"@, 5u32),
        ("h4"@, 4u32),
        ("h5"@, 3u32),
        ("h6"@, 2u32),
        ("strong"@, 2u32),
        ("b"@, 1u32),
    ]
}

/// A table of selectors and weights as plain values.
pub open spec fn selectors_of(table: Seq<(&'static str, u32)>) -> Seq<(Seq<char>, u32)> {
    Seq::new(table.len(), |i: int| (table[i].0@, table[i].1))
}

/// The table of `priority_table`.
pub fn priority_selectors() -> (table: Vec<(&'static str, u32)>)
    ensures
        selectors_of(table@) == priority_table(),
{
    let mut table: Vec<(&'static str, u32)> = Vec::new();
    table.push(("title", 10));
    table.push(("h1", 8));
    table.push(("h2", 6));
    table.push(("h3", 5));
    table.push(("h4", 4));
    table.push(("h5", 3));
    table.push(("h6", 2));
    table.push(("strong", 2));
    table.push(("b", 1));
    assert(selectors_of(table@) =~= priority_table());
    table
}

/// How often the text of an element counts for each unit of its weight.
pub const WEIGHT_FACTOR: u64 = 5;

/// `text`, `times` times over.
pub open spec fn repeated(text: Seq<char>, times: nat) -> Seq<char>
    decreases times,
{
    if times == 0 {
        Seq::empty()
    } else {
        repeated(text, (times - 1) as nat) + text
    }
}

/// Each of `texts` in turn, `times` times over.
pub open spec fn each_repeated(texts: Seq<Seq<char>>, times: nat) -> Seq<char>
    decreases texts.len(),
{
    if texts.len() == 0 {
        Seq::empty()
    } else {
        each_repeated(texts.drop_last(), times) + repeated(texts.last(), times)
    }
}

/// Groups of emphasized texts as plain values: the texts and the weight of
/// each.
pub open spec fn groups_of(groups: Seq<Emphasis>) -> Seq<(Seq<Seq<char>>, u32)> {
    Seq::new(groups.len(), |i: int| (texts_of(groups[i].texts@), groups[i].weight))
}

/// The texts of each group in turn, each as often as the weight of its
/// group says.
pub open spec fn emphasized(groups: Seq<(Seq<Seq<char>>, u32)>) -> Seq<char>
    decreases groups.len(),
{
    if groups.len() == 0 {
        Seq::empty()
    } else {
        emphasized(groups.drop_last()) + each_repeated(
            groups.last().0,
            (groups.last().1 * WEIGHT_FACTOR) as nat,
        )
    }
}

/// The text by which a document is indexed: the text of its body, followed
/// by the texts of its emphasized elements, repeated by their weights. A
/// document without a body has no text.
pub open spec fn indexed_text(body: Option<Seq<char>>, groups: Seq<(Seq<Seq<char>>, u32)>) -> Seq<
    char,
> {
    match body {
        None => Seq::empty(),
        Some(text) => text + emphasized(groups),
    }
}

/// Assembles the text by which a document is indexed from the text of its
/// body and the texts of its emphasized elements; see `indexed_text`.
pub fn assemble_text(body: Option<&str>, groups: &Vec<Emphasis>) -> (text: String)
    ensures
        text@ == indexed_text(
            match body {
                Some(b) => Some(b@),
                None => None,
            },
            groups_of(groups@),
        ),
{
    let mut combined = String::new();
    let body = match body {
        None => {
            return combined;
        },
        Some(body) => body,
    };
    let ghost plain = groups_of(groups@);
    combined.append(body);
    assert(combined@ =~= body@);
    let mut g: usize = 0;
    assert(plain.take(0) =~= Seq::<(Seq<Seq<char>>, u32)>::empty());
    assert(combined@ =~= body@ + emphasized(plain.take(0)));
    while g < groups.len()
        invariant
            g <= groups@.len(),
            plain == groups_of(groups@),
            combined@ == body@ + emphasized(plain.take(g as int)),
        decreases groups@.len() - g,
    {
        let group = &groups[g];
        let times: u64 = group.weight as u64 * WEIGHT_FACTOR;
        let ghost texts = texts_of(group.texts@);
        let ghost start = combined@;
        let mut e: usize = 0;
        assert(texts.take(0) =~= Seq::<Seq<char>>::empty());
        assert(combined@ =~= start + each_repeated(texts.take(0), times as nat));
        while e < group.texts.len()
            invariant
                e <= group.texts@.len(),
                texts == texts_of(group.texts@),
                combined@ == start + each_repeated(texts.take(e as int), times as nat),
            decreases group.texts@.len() - e,
        {
            let ghost held = combined@;
            let mut r: u64 = 0;
            assert(combined@ =~= held + repeated(texts[e as int], 0));
            while r < times
                invariant
                    r <= times,
                    e < group.texts@.len(),
                    texts == texts_of(group.texts@),
                    combined@ == held + repeated(texts[e as int], r as nat),
                decreases times - r,
            {
                combined.append(group.texts[e].as_str());
                assert(combined@ =~= held + repeated(texts[e as int], (r + 1) as nat));
                r += 1;
            }
            assert(texts.take(e + 1).drop_last() =~= texts.take(e as int));
            assert(texts.take(e + 1).last() == texts[e as int]);
            assert(combined@ =~= start + each_repeated(texts.take(e + 1), times as nat));
            e += 1;
        }
        assert(texts.take(e as int) =~= texts);
        assert(plain.take(g + 1).drop_last() =~= plain.take(g as int));
        assert(plain.take(g + 1).last() == plain[g as int]);
        assert(combined@ =~= body@ + emphasized(plain.take(g + 1)));
        g += 1;
    }
    assert(plain.take(g as int) =~= plain);
    combined
}

/// The texts of the elements of a document that a selector finds, one text
/// for each element, in the order of the document, as the `scraper` crate
/// gives them for a document and a selector; nothing where the selector is
/// none. This library states nothing more of them.
pub uninterp spec fn selected_texts(document: Seq<char>, selector: Seq<char>) -> Option<
    Seq<Seq<char>>,
>;

/// Parses `document` with `scraper::Html::parse_document` and each of
/// `selectors` with `scraper::Selector::parse`, and collects for each
/// selector the text that `scraper::ElementRef::text` gives for each element
/// that `scraper::Html::select` finds. What is found for a selector depends
/// on the document and the selector alone. There is nothing for a selector
/// that does not parse.
#[verifier::external_body]
fn select_texts(document: &str, selectors: &Vec<&str>) -> (found: Vec<Option<Vec<String>>>)
    ensures
        found@.len() == selectors@.len(),
        forall|i: int|
            0 <= i < found@.len() ==> match #[trigger] found@[i] {
                Some(texts) => selected_texts(document@, selectors@[i]@) == Some(texts_of(texts@)),
                None => selected_texts(document@, selectors@[i]@) is None,
            },
{
    let html = scraper::Html::parse_document(document);
    let mut found: Vec<Option<Vec<String>>> = Vec::new();
    for selector in selectors {
        found.push(None);
        if let Ok(parsed) = scraper::Selector::parse(selector) {
            let mut texts: Vec<String> = Vec::new();
            for element in html.select(&parsed) {
                texts.push(element.text().collect::<String>());
            }
            found.pop();
            found.push(Some(texts));
        }
    }
    found
}

/// The content of a document as it is parsed: without its characters
/// outside ASCII if its encoding asks for that.
pub open spec fn parsed_content(content: Seq<char>, encoding: Seq<char>) -> Seq<char> {
    if is_ascii_encoding(encode_utf8(encoding)) {
        vstd::utf8::decode_utf8(ascii_part(encode_utf8(content)))
    } else {
        content
    }
}

/// The first of the texts found, if any was found.
pub open spec fn first_text(found: Option<Seq<Seq<char>>>) -> Option<Seq<char>> {
    match found {
        Some(texts) => if texts.len() > 0 {
            Some(texts[0])
        } else {
            None
        },
        None => None,
    }
}

/// The text of the body of a document: of the first element that the
/// selector `body` finds, or, should that be no selector, the selector
/// `html`.
pub open spec fn body_text(document: Seq<char>) -> Option<Seq<char>> {
    match selected_texts(document, "body"@) {
        Some(texts) => first_text(Some(texts)),
        None => first_text(selected_texts(document, "html"@)),
    }
}

/// The emphasized texts of a document: for each selector of `table` in
/// turn, the texts that it finds, with its weight.
pub open spec fn emphasized_groups(document: Seq<char>, table: Seq<(Seq<char>, u32)>) -> Seq<
    (Seq<Seq<char>>, u32),
>
    decreases table.len(),
{
    if table.len() == 0 {
        Seq::empty()
    } else {
        let before = emphasized_groups(document, table.drop_last());
        match selected_texts(document, table.last().0) {
            Some(texts) => before.push((texts, table.last().1)),
            None => before,
        }
    }
}

/// The text by which a document with the content `content` in the encoding
/// `encoding` is indexed.
pub open spec fn extracted_text(content: Seq<char>, encoding: Seq<char>) -> Seq<char> {
    let document = parsed_content(content, encoding);
    indexed_text(body_text(document), emphasized_groups(document, priority_table()))
}

/// Extracts the text by which a document is indexed: the text of its body,
/// and after it the texts of its title, headings and bold parts, repeated
/// by their weights; see `indexed_text`.
pub fn get_only_text_from_html(content: &str, encoding: &str) -> (text: String)
    ensures
        text@ == extracted_text(content@, encoding@),
{
    let document = if keeps_only_ascii(encoding) {
        let ascii = ascii_only(content);
        proof {
            vstd::utf8::encode_utf8_decode_utf8(ascii@);
        }
        ascii
    } else {
        content.to_owned()
    };
    let table = priority_selectors();
    let ghost plain = selectors_of(table@);
    let mut selectors: Vec<&str> = Vec::new();
    selectors.push("body");
    selectors.push("html");
    let mut i: usize = 0;
    while i < table.len()
        invariant
            i <= table@.len(),
            selectors@.len() == i + 2,
            selectors@[0]@ == "body"@,
            selectors@[1]@ == "html"@,
            forall|k: int| 0 <= k < i ==> (#[trigger] selectors@[k + 2])@ == table@[k].0@,
        decreases table@.len() - i,
    {
        selectors.push(table[i].0);
        i += 1;
    }
    let mut found = select_texts(document.as_str(), &selectors);
    let mut groups: Vec<Emphasis> = Vec::new();
    assert(plain.take(table@.len() as int) =~= plain);
    while found.len() > 2
        invariant
            2 <= found@.len() <= table@.len() + 2,
            plain == selectors_of(table@),
            selectors@.len() == table@.len() + 2,
            selectors@[0]@ == "body"@,
            selectors@[1]@ == "html"@,
            forall|k: int|
                0 <= k < table@.len() ==> (#[trigger] selectors@[k + 2])@ == table@[k].0@,
            forall|k: int|
                0 <= k < found@.len() ==> match #[trigger] found@[k] {
                    Some(texts) => selected_texts(document@, selectors@[k]@) == Some(
                        texts_of(texts@),
                    ),
                    None => selected_texts(document@, selectors@[k]@) is None,
                },
            emphasized_groups(document@, plain) == emphasized_groups(
                document@,
                plain.take(found@.len() - 2),
            ) + groups_of(groups@),
        decreases found@.len(),
    {
        let at = found.len() - 3;
        let ghost held = groups_of(groups@);
        let ghost shorter = plain.take(found@.len() - 2);
        assert(shorter.drop_last() =~= plain.take(found@.len() - 3));
        assert(shorter.last() == plain[at as int]);
        assert(selectors@[at + 2]@ == table@[at as int].0@);
        match found.pop() {
            Some(Some(texts)) => {
                let ghost these = texts_of(texts@);
                groups.insert(0, Emphasis { texts, weight: table[at].1 });
                assert(groups_of(groups@) =~= seq![(these, plain[at as int].1)] + held);
            },
            _ => {},
        }
    }
    assert(plain.take(0) =~= Seq::<(Seq<char>, u32)>::empty());
    let body = match &found[0] {
        Some(texts) => if texts.len() > 0 {
            Some(texts[0].as_str())
        } else {
            None
        },
        None => match &found[1] {
            Some(texts) => if texts.len() > 0 {
                Some(texts[0].as_str())
            } else {
                None
            },
            None => None,
        },
    };
    assemble_text(body, &groups)
}

/// The directory of batch `batch`, as bytes: `inverted_index/` and the
/// number of the batch.
pub open spec fn batch_dir_text(batch: u16) -> Seq<u8> {
    encode_utf8(INDEX_DIR@) + decimal(batch as nat)
}

/// The name of the directory of batch `batch`.
pub open spec fn batch_dir_name(batch: u16) -> Seq<char> {
    vstd::utf8::decode_utf8(batch_dir_text(batch))
}

/// The directory of batch `batch`.
pub fn batch_dir(batch: u16) -> (dir: String)
    ensures
        encode_utf8(dir@) == batch_dir_text(batch),
        dir@ == batch_dir_name(batch),
{
    let mut bytes = INDEX_DIR.as_bytes_vec();
    append_decimal(&mut bytes, batch as u64);
    proof {
        let digits = decimal(batch as nat);
        lemma_decimal_reads_back(batch as nat);
        assert forall|i: int| 0 <= i < digits.len() implies digits[i] < 128 by {
            assert(crate::text::is_digit(digits[i]));
        }
        lemma_ascii_is_valid(digits);
        vstd::utf8::encode_utf8_valid_utf8(INDEX_DIR@);
        vstd::utf8::valid_utf8_concat(encode_utf8(INDEX_DIR@), digits);
    }
    let dir = text_of_bytes(bytes);
    proof {
        vstd::utf8::encode_utf8_decode_utf8(dir@);
    }
    dir
}

/// Whether `files` are the four shard files of `index` after one occurrence
/// in document `doc` of each of `terms`, to be written under `dir`.
pub open spec fn is_flush_of(
    files: Seq<ShardFile>,
    index: &InvertedIndexSplit,
    terms: Seq<Seq<char>>,
    doc: u16,
    dir: Seq<char>,
) -> bool {
    &&& files.len() == 4
    &&& files[0].path@ == dir + "/a_f.txt"@
    &&& files[0].content@ == shard_text(shard_with_terms(index.a_f@, Shard::AF, terms, doc))
    &&& files[1].path@ == dir + "/g_p.txt"@
    &&& files[1].content@ == shard_text(shard_with_terms(index.g_p@, Shard::GP, terms, doc))
    &&& files[2].path@ == dir + "/q_z.txt"@
    &&& files[2].content@ == shard_text(shard_with_terms(index.q_z@, Shard::QZ, terms, doc))
    &&& files[3].path@ == dir + "/0_9.txt"@
    &&& files[3].content@ == shard_text(
        shard_with_terms(index.zero_nine@, Shard::ZeroNine, terms, doc),
    )
}

/// Whether `files` are the four shard files of `index`, to be written under
/// `dir`.
pub open spec fn is_last_flush_of(
    files: Seq<ShardFile>,
    index: &InvertedIndexSplit,
    dir: Seq<char>,
) -> bool {
    &&& files.len() == 4
    &&& files[0].path@ == dir + "/a_f.txt"@
    &&& files[0].content@ == shard_text(index.a_f@)
    &&& files[1].path@ == dir + "/g_p.txt"@
    &&& files[1].content@ == shard_text(index.g_p@)
    &&& files[2].path@ == dir + "/q_z.txt"@
    &&& files[2].content@ == shard_text(index.q_z@)
    &&& files[3].path@ == dir + "/0_9.txt"@
    &&& files[3].content@ == shard_text(index.zero_nine@)
}

/// Whether `index` holds nothing and has the default tokenizer.
pub open spec fn is_fresh(index: &InvertedIndexSplit) -> bool {
    &&& index.wf()
    &&& index.a_f@.len() == 0
    &&& index.g_p@.len() == 0
    &&& index.q_z@.len() == 0
    &&& index.zero_nine@.len() == 0
    &&& index.tokenizer.stops() == default_stop_words()
}

/// What became of a document that was handed in.
#[derive(Debug)]
pub enum Receipt {
    /// It was indexed under this id.
    Indexed(u16),
    /// It was indexed under this id and filled its batch: these files are
    /// to be written, and the next document starts a new batch.
    Flushed(u16, Vec<ShardFile>),
    /// It was not taken: every id is in use.
    Refused,
}

/// The state of a run of ingestion: the index of the batch that is being
/// filled, the number of documents taken so far, and the id book so far.
pub struct Ingestor {
    pub index: InvertedIndexSplit,
    pub documents: u16,
    pub book: Vec<u8>,
}

impl Ingestor {
    /// The invariant of a run: the index is well formed, and the id book
    /// holds one record for each document taken.
    pub open spec fn wf(&self) -> bool {
        &&& self.index.wf()
        &&& self.book@.len() == RECORD_WIDTH * self.documents
    }

    /// The start of a run: no document taken.
    pub fn new() -> (run: Ingestor)
        ensures
            run.wf(),
            run.documents == 0,
            run.book@ == Seq::<u8>::empty(),
            is_fresh(&run.index),
    {
        Ingestor { index: InvertedIndexSplit::new(), documents: 0, book: Vec::new() }
    }

    /// Takes one document: it gets the next id, its text is indexed, and its
    /// record is added to the id book. If that fills the batch, the shard
    /// files of the batch are handed back and the index starts afresh.
    pub fn receive(&mut self, url: &str, path: &str, text: &str) -> (receipt: Receipt)
        requires
            old(self).wf(),
        ensures
            final(self).wf(),
            match receipt {
                Receipt::Refused => {
                    &&& old(self).documents == u16::MAX
                    &&& final(self).documents == old(self).documents
                    &&& final(self).book@ == old(self).book@
                    &&& final(self).index.follows(&old(self).index, Seq::empty(), 0)
                },
                Receipt::Indexed(id) => {
                    &&& id == old(self).documents
                    &&& final(self).documents == id + 1
                    &&& final(self).documents % BATCH_SIZE != 0
                    &&& final(self).book@ == old(self).book@ + record_text(
                        encode_utf8(url@),
                        encode_utf8(path@),
                    )
                    &&& final(self).index.follows(
                        &old(self).index,
                        normalized(old(self).index.tokenizer.stops(), text@),
                        id,
                    )
                },
                Receipt::Flushed(id, files) => {
                    &&& id == old(self).documents
                    &&& final(self).documents == id + 1
                    &&& final(self).documents % BATCH_SIZE == 0
                    &&& final(self).book@ == old(self).book@ + record_text(
                        encode_utf8(url@),
                        encode_utf8(path@),
                    )
                    &&& is_fresh(&final(self).index)
                    &&& is_flush_of(
                        files@,
                        &old(self).index,
                        normalized(old(self).index.tokenizer.stops(), text@),
                        id,
                        batch_dir_name(id / BATCH_SIZE),
                    )
                },
            },
    {
        if self.documents == u16::MAX {
            return Receipt::Refused;
        }
        let id = self.documents;
        self.index.add_document(id, text);
        let mut record = write_record(url, path);
        self.book.append(&mut record);
        self.documents = id + 1;
        assert(RECORD_WIDTH * (id + 1) == RECORD_WIDTH * id + RECORD_WIDTH) by (nonlinear_arith);
        if self.documents % BATCH_SIZE == 0 {
            let dir = batch_dir(id / BATCH_SIZE);
            let files = self.index.write_to_disk(dir.as_str());
            self.index = InvertedIndexSplit::new();
            assert(is_flush_of(
                files@,
                &old(self).index,
                normalized(old(self).index.tokenizer.stops(), text@),
                id,
                dir@,
            ));
            Receipt::Flushed(id, files)
        } else {
            Receipt::Indexed(id)
        }
    }

    /// Ends the run. If the last batch is partly filled, its shard files are
    /// handed back. With them come the id book and the number of documents
    /// taken.
    pub fn finish(self) -> (end: (Option<Vec<ShardFile>>, Vec<u8>, u16))
        requires
            self.wf(),
        ensures
            end.1@ == self.book@,
            end.2 == self.documents,
            match end.0 {
                None => self.documents % BATCH_SIZE == 0,
                Some(files) => {
                    &&& self.documents % BATCH_SIZE != 0
                    &&& is_last_flush_of(
                        files@,
                        &self.index,
                        batch_dir_name(self.documents / BATCH_SIZE),
                    )
                },
            },
    {
        let files = if self.documents % BATCH_SIZE != 0 {
            let dir = batch_dir(self.documents / BATCH_SIZE);
            let files = self.index.write_to_disk(dir.as_str());
            assert(is_last_flush_of(files@, &self.index, dir@));
            Some(files)
        } else {
            None
        };
        (files, self.book, self.documents)
    }
}

} // verus!
