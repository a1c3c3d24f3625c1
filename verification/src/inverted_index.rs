//! The in-memory index of one batch: for each term its postings list, kept
//! in term order; and the index split into four shards by the first
//! character of the term.

use vstd::prelude::*;
use vstd::string::StrSliceExecFns;
use vstd::utf8::{encode_utf8, valid_utf8};
use crate::lazy_merger::lines_of;
use crate::postings::{
    lemma_merged_increasing, lemma_merged_len, lemma_with_occurrence_increasing, line_text,
    merged, strictly_increasing, with_occurrence, Postings,
};
use crate::single_posting::Posting;
use crate::text::{
    bytes_equal, bytes_less, lemma_lex_total, lemma_lex_transitive, lex_lt, NEWLINE,
};
use crate::tokenizer::{normalized, texts_of, Tokenizer};

verus! {

/// A list as an index holds it: its term is text, and its postings are not
/// empty and are sorted by document.
pub open spec fn is_index_entry(entry: (Seq<u8>, Seq<Posting>)) -> bool {
    &&& valid_utf8(entry.0)
    &&& entry.1.len() > 0
    &&& strictly_increasing(entry.1)
}

/// The invariant of an index: terms strictly increasing, so that no term
/// occurs twice, and every list an entry of an index.
pub open spec fn index_wf(index: Seq<(Seq<u8>, Seq<Posting>)>) -> bool {
    &&& forall|i: int, j: int| 0 <= i < j < index.len() ==> lex_lt(index[i].0, index[j].0)
    &&& forall|i: int| 0 <= i < index.len() ==> is_index_entry(#[trigger] index[i])
}

/// How many entries at the front of `index` have a term before `term`.
pub open spec fn term_rank(index: Seq<(Seq<u8>, Seq<Posting>)>, term: Seq<u8>) -> nat
    decreases index.len(),
{
    if index.len() == 0 || !lex_lt(index[0].0, term) {
        0
    } else {
        1 + term_rank(index.drop_first(), term)
    }
}

/// The postings that `index` holds for `term`, if it holds the term.
pub open spec fn postings_for(index: Seq<(Seq<u8>, Seq<Posting>)>, term: Seq<u8>) -> Option<
    Seq<Posting>,
> {
    let k = term_rank(index, term) as int;
    if k < index.len() && index[k].0 == term {
        Some(index[k].1)
    } else {
        None
    }
}

/// `index` after one more occurrence of `term` in document `doc`: the list
/// of the term counts it, and a term that is new gets a list of its own, in
/// its place in term order.
pub open spec fn with_term_occurrence(
    index: Seq<(Seq<u8>, Seq<Posting>)>,
    term: Seq<u8>,
    doc: u16,
) -> Seq<(Seq<u8>, Seq<Posting>)> {
    let k = term_rank(index, term) as int;
    if k < index.len() && index[k].0 == term {
        index.update(k, (term, with_occurrence(index[k].1, doc)))
    } else {
        index.insert(k, (term, with_occurrence(Seq::empty(), doc)))
    }
}

/// `index` after taking in the list `list` of `term`: the list that the
/// index holds for the term becomes its union with `list`, in which every
/// posting keeps its frequency and a document of both lists gets the sum of
/// the two; a term that is new gets `list` as it is, in its place in term
/// order.
pub open spec fn with_term_list(
    index: Seq<(Seq<u8>, Seq<Posting>)>,
    term: Seq<u8>,
    list: Seq<Posting>,
) -> Seq<(Seq<u8>, Seq<Posting>)> {
    let k = term_rank(index, term) as int;
    if k < index.len() && index[k].0 == term {
        index.update(k, (term, merged(index[k].1, list)))
    } else {
        index.insert(k, (term, list))
    }
}

/// `index` after taking in `other`: the list of every term of `other` is
/// taken in, in the order of `other`.
pub open spec fn with_index(
    index: Seq<(Seq<u8>, Seq<Posting>)>,
    other: Seq<(Seq<u8>, Seq<Posting>)>,
) -> Seq<(Seq<u8>, Seq<Posting>)>
    decreases other.len(),
{
    if other.len() == 0 {
        index
    } else {
        with_term_list(with_index(index, other.drop_last()), other.last().0, other.last().1)
    }
}

/// The text of an index as a shard file: the line of each term, in term
/// order, each ended by a line feed.
pub open spec fn shard_text(index: Seq<(Seq<u8>, Seq<Posting>)>) -> Seq<u8>
    decreases index.len(),
{
    if index.len() == 0 {
        Seq::empty()
    } else {
        shard_text(index.drop_last()) + line_text(index.last().0, index.last().1) + seq![NEWLINE]
    }
}

/// In a sorted index, `term_rank` is the one index with earlier terms
/// before it and none from it on.
pub proof fn lemma_term_rank_unique(index: Seq<(Seq<u8>, Seq<Posting>)>, term: Seq<u8>, k: int)
    requires
        0 <= k <= index.len(),
        forall|i: int| 0 <= i < k ==> lex_lt(index[i].0, term),
        k < index.len() ==> !lex_lt(index[k].0, term),
    ensures
        term_rank(index, term) == k,
    decreases index.len(),
{
    if index.len() > 0 && lex_lt(index[0].0, term) {
        let rest = index.drop_first();
        assert(k >= 1);
        assert forall|i: int| 0 <= i < k - 1 implies lex_lt(rest[i].0, term) by {
            assert(rest[i] == index[i + 1]);
        }
        if k - 1 < rest.len() {
            assert(rest[k - 1] == index[k]);
        }
        lemma_term_rank_unique(rest, term, k - 1);
    } else if index.len() > 0 {
        if k > 0 {
            assert(lex_lt(index[0].0, term));
        }
    }
}

/// `term_rank` stays inside the index, has earlier terms before it and, in
/// a sorted index, none from it on.
pub proof fn lemma_term_rank(index: Seq<(Seq<u8>, Seq<Posting>)>, term: Seq<u8>)
    requires
        index_wf(index),
    ensures
        term_rank(index, term) <= index.len(),
        forall|i: int| 0 <= i < term_rank(index, term) ==> lex_lt(index[i].0, term),
        forall|i: int| term_rank(index, term) <= i < index.len() ==> !lex_lt(index[i].0, term),
    decreases index.len(),
{
    if index.len() > 0 && lex_lt(index[0].0, term) {
        let rest = index.drop_first();
        assert(index_wf(rest)) by {
            assert forall|i: int, j: int| 0 <= i < j < rest.len() implies lex_lt(
                rest[i].0,
                rest[j].0,
            ) by {
                assert(rest[i] == index[i + 1] && rest[j] == index[j + 1]);
            }
            assert forall|i: int| 0 <= i < rest.len() implies is_index_entry(
                #[trigger] rest[i],
            ) by {
                assert(rest[i] == index[i + 1]);
            }
        }
        lemma_term_rank(rest, term);
        assert forall|i: int| 0 <= i < term_rank(index, term) implies lex_lt(index[i].0, term) by {
            if i > 0 {
                assert(index[i] == rest[i - 1]);
            }
        }
        assert forall|i: int| term_rank(index, term) <= i < index.len() implies !lex_lt(
            index[i].0,
            term,
        ) by {
            assert(index[i] == rest[i - 1]);
        }
    } else if index.len() > 0 {
        assert forall|i: int| 0 <= i < index.len() implies !lex_lt(index[i].0, term) by {
            if i > 0 && lex_lt(index[i].0, term) {
                lemma_lex_transitive(index[0].0, index[i].0, term);
            }
        }
    }
}

/// Counting an occurrence keeps the index sorted.
pub proof fn lemma_with_term_occurrence_wf(
    index: Seq<(Seq<u8>, Seq<Posting>)>,
    term: Seq<u8>,
    doc: u16,
)
    requires
        index_wf(index),
        valid_utf8(term),
    ensures
        index_wf(with_term_occurrence(index, term, doc)),
{
    lemma_term_rank(index, term);
    let k = term_rank(index, term) as int;
    let r = with_term_occurrence(index, term, doc);
    if k < index.len() && index[k].0 == term {
        lemma_with_occurrence_increasing(index[k].1, doc);
        assert forall|i: int| 0 <= i < r.len() implies is_index_entry(#[trigger] r[i]) by {
            if i != k {
                assert(r[i] == index[i]);
            } else {
                assert(is_index_entry(index[k]));
            }
        }
    } else {
        lemma_with_occurrence_increasing(Seq::empty(), doc);
        assert forall|i: int| 0 <= i < r.len() implies is_index_entry(#[trigger] r[i]) by {
            if i < k {
                assert(r[i] == index[i]);
            } else if i > k {
                assert(r[i] == index[i - 1]);
            }
        }
        assert forall|i: int, j: int| 0 <= i < j < r.len() implies lex_lt(r[i].0, r[j].0) by {
            if j < k {
                assert(r[i] == index[i] && r[j] == index[j]);
            } else if j == k {
                assert(r[i] == index[i]);
            } else if i == k {
                assert(r[j] == index[j - 1]);
                lemma_lex_total(index[j - 1].0, term);
            } else if i < k {
                assert(r[i] == index[i] && r[j] == index[j - 1]);
            } else {
                assert(r[i] == index[i - 1] && r[j] == index[j - 1]);
            }
        }
    }
}

/// Taking in a list keeps the index sorted.
pub proof fn lemma_with_term_list_wf(
    index: Seq<(Seq<u8>, Seq<Posting>)>,
    term: Seq<u8>,
    list: Seq<Posting>,
)
    requires
        index_wf(index),
        is_index_entry((term, list)),
    ensures
        index_wf(with_term_list(index, term, list)),
{
    lemma_term_rank(index, term);
    let k = term_rank(index, term) as int;
    let r = with_term_list(index, term, list);
    if k < index.len() && index[k].0 == term {
        assert(is_index_entry(index[k]));
        lemma_merged_increasing(index[k].1, list);
        lemma_merged_len(index[k].1, list);
        assert forall|i: int| 0 <= i < r.len() implies is_index_entry(#[trigger] r[i]) by {
            if i != k {
                assert(r[i] == index[i]);
            }
        }
    } else {
        assert forall|i: int| 0 <= i < r.len() implies is_index_entry(#[trigger] r[i]) by {
            if i < k {
                assert(r[i] == index[i]);
            } else if i > k {
                assert(r[i] == index[i - 1]);
            }
        }
        assert forall|i: int, j: int| 0 <= i < j < r.len() implies lex_lt(r[i].0, r[j].0) by {
            if j < k {
                assert(r[i] == index[i] && r[j] == index[j]);
            } else if j == k {
                assert(r[i] == index[i]);
            } else if i == k {
                assert(r[j] == index[j - 1]);
                lemma_lex_total(index[j - 1].0, term);
            } else if i < k {
                assert(r[i] == index[i] && r[j] == index[j - 1]);
            } else {
                assert(r[i] == index[i - 1] && r[j] == index[j - 1]);
            }
        }
    }
}

/// What an index holds for a term after it took in a list of that term: the
/// union of what it held with the list, so that the postings taken in keep
/// their frequencies; or the list itself where the term was new.
pub proof fn lemma_with_term_list_holds(
    index: Seq<(Seq<u8>, Seq<Posting>)>,
    term: Seq<u8>,
    list: Seq<Posting>,
)
    requires
        index_wf(index),
    ensures
        postings_for(with_term_list(index, term, list), term) == Some(
            match postings_for(index, term) {
                Some(own) => merged(own, list),
                None => list,
            },
        ),
{
    lemma_term_rank(index, term);
    let k = term_rank(index, term) as int;
    let r = with_term_list(index, term, list);
    crate::text::lemma_lex_irreflexive(term);
    assert forall|i: int| 0 <= i < k implies lex_lt(r[i].0, term) by {
        assert(r[i] == index[i]);
    }
    assert(r[k].0 == term);
    lemma_term_rank_unique(r, term, k);
}

/// The index of one shard of one batch.
pub struct InvertedIndex {
    lists: Vec<Postings>,
}

impl View for InvertedIndex {
    type V = Seq<(Seq<u8>, Seq<Posting>)>;

    /// The entries of the index in term order: the bytes of each term, and
    /// its postings.
    closed spec fn view(&self) -> Seq<(Seq<u8>, Seq<Posting>)> {
        lines_of(self.lists@)
    }
}

impl InvertedIndex {
    /// The invariant of the index; see `index_wf`.
    pub open spec fn wf(&self) -> bool {
        index_wf(self@)
    }

    /// An empty index.
    pub fn new() -> (index: InvertedIndex)
        ensures
            index@ == Seq::<(Seq<u8>, Seq<Posting>)>::empty(),
            index.wf(),
    {
        let index = InvertedIndex { lists: Vec::new() };
        assert(index@ =~= Seq::<(Seq<u8>, Seq<Posting>)>::empty());
        index
    }

    /// Finds by bisection where `term` is, or belongs.
    fn lower_bound(&self, term: &[u8]) -> (k: usize)
        requires
            self.wf(),
        ensures
            k == term_rank(self@, term@),
            k <= self@.len(),
    {
        let mut lo: usize = 0;
        let mut hi: usize = self.lists.len();
        while lo < hi
            invariant
                self.wf(),
                lo <= hi <= self@.len(),
                self@.len() == self.lists@.len(),
                forall|i: int| 0 <= i < lo ==> lex_lt(self@[i].0, term@),
                forall|i: int| hi <= i < self@.len() ==> !lex_lt(self@[i].0, term@),
            decreases hi - lo,
        {
            let mid = lo + (hi - lo) / 2;
            assert(self@[mid as int].0 == self.lists@[mid as int].term());
            if bytes_less(self.lists[mid].term_text().as_bytes(), term) {
                assert forall|i: int| 0 <= i < mid + 1 implies lex_lt(self@[i].0, term@) by {
                    if i < mid {
                        lemma_lex_transitive(self@[i].0, self@[mid as int].0, term@);
                    }
                }
                lo = mid + 1;
            } else {
                assert forall|i: int| mid <= i < self@.len() implies !lex_lt(self@[i].0, term@) by {
                    if i > mid && lex_lt(self@[i].0, term@) {
                        lemma_lex_transitive(self@[mid as int].0, self@[i].0, term@);
                    }
                }
                hi = mid;
            }
        }
        proof {
            lemma_term_rank_unique(self@, term@, lo as int);
        }
        lo
    }

    /// Counts one more occurrence of `term` in document `doc_id`.
    pub fn insert(&mut self, term: String, doc_id: u16)
        requires
            old(self).wf(),
        ensures
            final(self).wf(),
            final(self)@ == with_term_occurrence(old(self)@, encode_utf8(term@), doc_id),
    {
        let ghost key = encode_utf8(term@);
        let ghost before = self@;
        let k = self.lower_bound(term.as_str().as_bytes());
        let mut found = false;
        if k < self.lists.len() {
            assert(self@[k as int].0 == self.lists@[k as int].term());
            found = bytes_equal(self.lists[k].term_text().as_bytes(), term.as_str().as_bytes());
        }
        if found {
            let mut list = self.lists.remove(k);
            assert(list@ == before[k as int].1);
            list.update_frequency(doc_id);
            self.lists.insert(k, list);
            assert(self@ =~= with_term_occurrence(before, key, doc_id));
        } else {
            let mut list = Postings::new(term);
            list.update_frequency(doc_id);
            self.lists.insert(k, list);
            assert(self@ =~= with_term_occurrence(before, key, doc_id));
        }
        proof {
            vstd::utf8::encode_utf8_valid_utf8(term@);
            lemma_with_term_occurrence_wf(before, key, doc_id);
        }
    }

    /// The postings list of `term`, if the index holds the term.
    pub fn get_postings(&self, term: &str) -> (list: Option<&Postings>)
        requires
            self.wf(),
        ensures
            match list {
                Some(list) => {
                    &&& postings_for(self@, encode_utf8(term@)) == Some(list@)
                    &&& list.word_view() == term@
                    &&& list.wf()
                },
                None => postings_for(self@, encode_utf8(term@)) is None,
            },
    {
        broadcast use vstd::utf8::encode_utf8_decode_utf8;

        let k = self.lower_bound(term.as_bytes());
        if k < self.lists.len() {
            assert(self@[k as int].0 == self.lists@[k as int].term());
            if bytes_equal(self.lists[k].term_text().as_bytes(), term.as_bytes()) {
                assert(vstd::utf8::decode_utf8(encode_utf8(term@)) == term@);
                assert(vstd::utf8::decode_utf8(encode_utf8(self.lists@[k as int].word_view()))
                    == self.lists@[k as int].word_view());
                return Some(&self.lists[k]);
            }
        }
        None
    }

    /// The terms of the index, in order.
    pub fn get_ordered_keys(&self) -> (keys: Vec<String>)
        ensures
            keys@.len() == self@.len(),
            forall|i: int| 0 <= i < keys@.len() ==> encode_utf8(keys@[i]@) == self@[i].0,
    {
        let mut keys: Vec<String> = Vec::new();
        let mut i: usize = 0;
        while i < self.lists.len()
            invariant
                i <= self.lists@.len(),
                keys@.len() == i,
                forall|k: int|
                    0 <= k < i ==> encode_utf8(keys@[k]@) == (#[trigger] self.lists@[k]).term(),
            decreases self.lists@.len() - i,
        {
            keys.push(self.lists[i].term_text().to_owned());
            i += 1;
        }
        keys
    }

    /// Takes in `other`: for every term of `other`, the list of the term in
    /// this index becomes its union with the list in `other`. No posting is
    /// lost and every frequency is kept; a document that both lists hold
    /// gets the sum of its two frequencies. See `with_index`.
    pub fn merge(&mut self, other: InvertedIndex)
        requires
            old(self).wf(),
            other.wf(),
        ensures
            final(self).wf(),
            final(self)@ == with_index(old(self)@, other@),
    {
        let ghost all = other@;
        let mut t: usize = 0;
        assert(all.take(0) =~= Seq::<(Seq<u8>, Seq<Posting>)>::empty());
        while t < other.lists.len()
            invariant
                t <= other.lists@.len(),
                all == other@,
                all.len() == other.lists@.len(),
                index_wf(all),
                self.wf(),
                self@ == with_index(old(self)@, all.take(t as int)),
            decreases other.lists@.len() - t,
        {
            let theirs = &other.lists[t];
            let ghost before = self@;
            let ghost term = theirs.term();
            assert(all[t as int] == (term, theirs@));
            assert(is_index_entry(all[t as int]));
            let k = self.lower_bound(theirs.term_text().as_bytes());
            let mut found = false;
            if k < self.lists.len() {
                assert(self@[k as int].0 == self.lists@[k as int].term());
                found = bytes_equal(
                    self.lists[k].term_text().as_bytes(),
                    theirs.term_text().as_bytes(),
                );
            }
            if found {
                let mut own = self.lists.remove(k);
                proof {
                    vstd::utf8::encode_utf8_decode_utf8(own.word_view());
                    vstd::utf8::encode_utf8_decode_utf8(theirs.word_view());
                    assert(is_index_entry(before[k as int]));
                }
                own.merge(theirs.clone());
                self.lists.insert(k, own);
                assert(self@ =~= with_term_list(before, term, theirs@));
            } else {
                self.lists.insert(k, theirs.clone());
                assert(self@ =~= with_term_list(before, term, theirs@));
            }
            proof {
                lemma_with_term_list_wf(before, term, theirs@);
            }
            assert(all.take(t + 1).drop_last() =~= all.take(t as int));
            assert(all.take(t + 1).last() == (term, theirs@));
            t += 1;
        }
        assert(all.take(t as int) =~= all);
    }

    /// Writes the index as a shard file; see `shard_text`.
    pub fn to_file(&self) -> (content: Vec<u8>)
        ensures
            content@ == shard_text(self@),
    {
        let ghost all = self@;
        let mut content: Vec<u8> = Vec::new();
        let mut i: usize = 0;
        assert(all.take(0) =~= Seq::<(Seq<u8>, Seq<Posting>)>::empty());
        while i < self.lists.len()
            invariant
                i <= self.lists@.len(),
                all == self@,
                all.len() == self.lists@.len(),
                content@ == shard_text(all.take(i as int)),
            decreases self.lists@.len() - i,
        {
            assert(all.take(i + 1).drop_last() =~= all.take(i as int));
            assert(all.take(i + 1).last() == all[i as int]);
            let ghost before = content@;
            let mut line = self.lists[i].to_bytes();
            content.append(&mut line);
            content.push(NEWLINE);
            assert(content@ =~= before + line_text(all[i as int].0, all[i as int].1)
                + seq![NEWLINE]);
            i += 1;
        }
        assert(all.take(i as int) =~= all);
        content
    }
}

/// The four shards of an index, by the first character of the term.
#[derive(Debug, Clone, Copy, PartialEq, Eq, Structural)]
pub enum Shard {
    /// Terms that begin with a digit.
    ZeroNine,
    /// Terms that begin with `a` to `f`.
    AF,
    /// Terms that begin with `g` to `p`.
    GP,
    /// Terms that begin with `q` to `z`.
    QZ,
}

/// The shard of a term. A term that begins with anything but a lower-case
/// ASCII letter or a digit, and the empty term, has none and is not indexed.
pub open spec fn shard_of(term: Seq<char>) -> Option<Shard> {
    if term.len() == 0 {
        None
    } else if 'a' <= term[0] <= 'f' {
        Some(Shard::AF)
    } else if 'g' <= term[0] <= 'p' {
        Some(Shard::GP)
    } else if 'q' <= term[0] <= 'z' {
        Some(Shard::QZ)
    } else if '0' <= term[0] <= '9' {
        Some(Shard::ZeroNine)
    } else {
        None
    }
}

/// The index of the shard `shard` after one occurrence in document `doc` of
/// each of `terms` that belongs to that shard, in turn.
pub open spec fn shard_with_terms(
    index: Seq<(Seq<u8>, Seq<Posting>)>,
    shard: Shard,
    terms: Seq<Seq<char>>,
    doc: u16,
) -> Seq<(Seq<u8>, Seq<Posting>)>
    decreases terms.len(),
{
    if terms.len() == 0 {
        index
    } else {
        let before = shard_with_terms(index, shard, terms.drop_last(), doc);
        if shard_of(terms.last()) == Some(shard) {
            with_term_occurrence(before, encode_utf8(terms.last()), doc)
        } else {
            before
        }
    }
}

/// Tells the shard of `term`; see `shard_of`.
pub fn route(term: &str) -> (shard: Option<Shard>)
    ensures
        shard == shard_of(term@),
{
    if term.is_empty() {
        return None;
    }
    let first = term.get_char(0);
    if 'a' <= first && first <= 'f' {
        Some(Shard::AF)
    } else if 'g' <= first && first <= 'p' {
        Some(Shard::GP)
    } else if 'q' <= first && first <= 'z' {
        Some(Shard::QZ)
    } else if '0' <= first && first <= '9' {
        Some(Shard::ZeroNine)
    } else {
        None
    }
}

/// One shard file of a batch: where it goes and what it holds.
#[derive(Debug)]
pub struct ShardFile {
    pub path: String,
    pub content: Vec<u8>,
}

/// The index of one batch, in four shards.
pub struct InvertedIndexSplit {
    pub a_f: InvertedIndex,
    pub g_p: InvertedIndex,
    pub q_z: InvertedIndex,
    pub zero_nine: InvertedIndex,
    pub tokenizer: Tokenizer,
}

impl InvertedIndexSplit {
    /// All four shards are well formed.
    pub open spec fn wf(&self) -> bool {
        &&& self.a_f.wf()
        &&& self.g_p.wf()
        &&& self.q_z.wf()
        &&& self.zero_nine.wf()
    }

    /// Whether this index is `before` after one occurrence of each of
    /// `terms` in document `doc`.
    pub open spec fn follows(&self, before: &InvertedIndexSplit, terms: Seq<Seq<char>>, doc: u16) -> bool {
        &&& self.a_f@ == shard_with_terms(before.a_f@, Shard::AF, terms, doc)
        &&& self.g_p@ == shard_with_terms(before.g_p@, Shard::GP, terms, doc)
        &&& self.q_z@ == shard_with_terms(before.q_z@, Shard::QZ, terms, doc)
        &&& self.zero_nine@ == shard_with_terms(before.zero_nine@, Shard::ZeroNine, terms, doc)
        &&& self.tokenizer.stops() == before.tokenizer.stops()
    }

    /// An empty index with the default tokenizer.
    pub fn new() -> (index: InvertedIndexSplit)
        ensures
            index.wf(),
            index.a_f@.len() == 0,
            index.g_p@.len() == 0,
            index.q_z@.len() == 0,
            index.zero_nine@.len() == 0,
            index.tokenizer.stops() == crate::tokenizer::default_stop_words(),
    {
        InvertedIndexSplit {
            a_f: InvertedIndex::new(),
            g_p: InvertedIndex::new(),
            q_z: InvertedIndex::new(),
            zero_nine: InvertedIndex::new(),
            tokenizer: Tokenizer::new(),
        }
    }

    /// Counts one occurrence in document `doc_id` of each of `terms`, each
    /// in the shard of its first character; terms without a shard are
    /// passed over.
    pub fn add_terms(&mut self, doc_id: u16, terms: &Vec<String>)
        requires
            old(self).wf(),
        ensures
            final(self).wf(),
            final(self).follows(old(self), texts_of(terms@), doc_id),
    {
        let ghost all = texts_of(terms@);
        let mut i: usize = 0;
        assert(all.take(0) =~= Seq::<Seq<char>>::empty());
        while i < terms.len()
            invariant
                i <= terms@.len(),
                all == texts_of(terms@),
                self.wf(),
                self.follows(old(self), all.take(i as int), doc_id),
            decreases terms@.len() - i,
        {
            assert(all.take(i + 1).drop_last() =~= all.take(i as int));
            assert(all.take(i + 1).last() == terms@[i as int]@);
            let term = terms[i].as_str();
            match route(term) {
                Some(Shard::AF) => self.a_f.insert(term.to_owned(), doc_id),
                Some(Shard::GP) => self.g_p.insert(term.to_owned(), doc_id),
                Some(Shard::QZ) => self.q_z.insert(term.to_owned(), doc_id),
                Some(Shard::ZeroNine) => self.zero_nine.insert(term.to_owned(), doc_id),
                None => {},
            }
            i += 1;
        }
        assert(all.take(i as int) =~= all);
    }

    /// Indexes the document `doc_id` with the text `content`: the text is
    /// normalized into terms and each term counted; see `add_terms`.
    pub fn add_document(&mut self, doc_id: u16, content: &str)
        requires
            old(self).wf(),
        ensures
            final(self).wf(),
            final(self).follows(
                old(self),
                normalized(old(self).tokenizer.stops(), content@),
                doc_id,
            ),
    {
        let terms = self.tokenizer.tokenize(content);
        self.add_terms(doc_id, &terms);
    }

    /// The four shard files of the batch, to be written under the directory
    /// `location`: `a_f.txt`, `g_p.txt`, `q_z.txt` and `0_9.txt`, each with
    /// the lines of its shard in term order.
    pub fn write_to_disk(&self, location: &str) -> (files: Vec<ShardFile>)
        ensures
            files@.len() == 4,
            files@[0].path@ == location@ + "/a_f.txt"@,
            files@[0].content@ == shard_text(self.a_f@),
            files@[1].path@ == location@ + "/g_p.txt"@,
            files@[1].content@ == shard_text(self.g_p@),
            files@[2].path@ == location@ + "/q_z.txt"@,
            files@[2].content@ == shard_text(self.q_z@),
            files@[3].path@ == location@ + "/0_9.txt"@,
            files@[3].content@ == shard_text(self.zero_nine@),
    {
        let mut files: Vec<ShardFile> = Vec::new();
        files.push(
            ShardFile {
                path: vstd::string::StringExecFns::concat(location.to_owned(), "/a_f.txt"),
                content: self.a_f.to_file(),
            },
        );
        files.push(
            ShardFile {
                path: vstd::string::StringExecFns::concat(location.to_owned(), "/g_p.txt"),
                content: self.g_p.to_file(),
            },
        );
        files.push(
            ShardFile {
                path: vstd::string::StringExecFns::concat(location.to_owned(), "/q_z.txt"),
                content: self.q_z.to_file(),
            },
        );
        files.push(
            ShardFile {
                path: vstd::string::StringExecFns::concat(location.to_owned(), "/0_9.txt"),
                content: self.zero_nine.to_file(),
            },
        );
        files
    }
}

} // verus!
