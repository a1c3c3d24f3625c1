//! The query engine: from query text to terms, from each term through its
//! skip list to its postings, and from the scored postings of all terms to
//! the ranked documents.
//!
//! Scores are integers here. Whoever computes them from frequencies decides
//! their scale; ranking only adds and compares them.

use std::collections::HashMap;
use vstd::prelude::*;
use vstd::string::StrSliceExecFns;
use vstd::utf8::encode_utf8;
use crate::file_skip_list::{
    entries, entries_from, found_in, get_postings_from_offset_range, lookup, FileSkip,
};
use crate::postings::Postings;
use crate::single_posting::Posting;
use crate::text::{cut_text, trim, trim_range};
use crate::tokenizer::{default_stop_words, normalized, texts_of, Tokenizer};

verus! {

/// The number of documents of the corpus.
pub const TOTAL_DOCUMENT_COUNT: u16 = 46843;

/// How many merged files there are: one for each digit and each letter.
pub const BUCKETS: usize = 36;

/// A term of at most this many characters is too short for its postings to
/// be counted on.
pub const SHORT_TERM: usize = 2;

/// The number of postings that a term counts with when it is scored: the
/// number found, or, for a short term, nearly the whole corpus.
pub open spec fn counted_postings(term: Seq<char>, found: nat) -> u16 {
    if term.len() <= SHORT_TERM {
        (TOTAL_DOCUMENT_COUNT - 100) as u16
    } else if found <= u16::MAX {
        found as u16
    } else {
        u16::MAX
    }
}

/// Computes `counted_postings`.
pub fn posting_length(term: &str, found: usize) -> (length: u16)
    ensures
        length == counted_postings(term@, found as nat),
{
    if term.unicode_len() <= SHORT_TERM {
        TOTAL_DOCUMENT_COUNT - 100
    } else if found <= 65535 {
        found as u16
    } else {
        u16::MAX
    }
}

/// The merged file in which terms that begin with `first` stand: 0 to 9 for
/// the digits, 10 to 35 for the lower-case letters.
pub open spec fn bucket_of(term: Seq<char>) -> Option<usize> {
    if term.len() == 0 {
        None
    } else if '0' <= term[0] <= '9' {
        Some((term[0] as u8 - 48) as usize)
    } else if 'a' <= term[0] <= 'z' {
        Some((term[0] as u8 - 97 + 10) as usize)
    } else {
        None
    }
}

/// The character of the merged file number `bucket`.
pub open spec fn bucket_character(bucket: usize) -> char {
    if bucket < 10 {
        (48 + bucket) as u8 as char
    } else {
        (97 + bucket - 10) as u8 as char
    }
}

/// Tells the merged file of `term`; see `bucket_of`.
pub fn find_bucket(term: &str) -> (bucket: Option<usize>)
    ensures
        bucket == bucket_of(term@),
        bucket matches Some(b) ==> b < BUCKETS,
{
    if term.is_empty() {
        return None;
    }
    let first = term.get_char(0);
    if '0' <= first && first <= '9' {
        Some((first as u8 - 48) as usize)
    } else if 'a' <= first && first <= 'z' {
        Some((first as u8 - 97 + 10) as usize)
    } else {
        None
    }
}

/// The documents that match one term of a query, each with its score.
#[derive(Debug)]
pub struct Candidate {
    pub term: String,
    pub doc_ids: HashMap<u16, u64>,
}

impl Candidate {
    /// A candidate for `token` without documents.
    pub fn new(token: String) -> (candidate: Candidate)
        ensures
            candidate.term == token,
            candidate.doc_ids@ == Map::<u16, u64>::empty(),
    {
        Candidate { term: token, doc_ids: HashMap::new() }
    }

    /// Sets the score of document `doc_id`.
    pub fn update_score(&mut self, doc_id: u16, score: u64)
        ensures
            final(self).doc_ids@ == old(self).doc_ids@.insert(doc_id, score),
            final(self).term == old(self).term,
    {
        broadcast use vstd::std_specs::hash::group_hash_axioms;

        self.doc_ids.insert(doc_id, score);
    }
}

/// How the documents of several terms are combined.
#[derive(Debug, Clone, Copy, PartialEq, Eq, Structural)]
pub enum RankingMode {
    /// Only documents that match every term are ranked.
    All,
    /// Documents that match any term are ranked.
    Any,
}

impl Default for RankingMode {
    /// Unless told otherwise, only documents that match every term are
    /// ranked.
    fn default() -> (mode: RankingMode)
        ensures
            mode == RankingMode::All,
    {
        RankingMode::All
    }
}

/// The score maps of a list of candidates.
pub open spec fn scores_of(candidates: Seq<Candidate>) -> Seq<Map<u16, u64>> {
    Seq::new(candidates.len(), |i: int| candidates[i].doc_ids@)
}

/// Whether every map holds `doc`.
pub open spec fn in_all(maps: Seq<Map<u16, u64>>, doc: u16) -> bool {
    forall|i: int| 0 <= i < maps.len() ==> (#[trigger] maps[i]).contains_key(doc)
}

/// Whether some map holds `doc`.
pub open spec fn in_any(maps: Seq<Map<u16, u64>>, doc: u16) -> bool {
    exists|i: int| 0 <= i < maps.len() && (#[trigger] maps[i]).contains_key(doc)
}

/// Whether `doc` is ranked at all. Without any term no document is.
pub open spec fn is_eligible(maps: Seq<Map<u16, u64>>, mode: RankingMode, doc: u16) -> bool {
    maps.len() > 0 && match mode {
        RankingMode::All => in_all(maps, doc),
        RankingMode::Any => in_any(maps, doc),
    }
}

/// The sum of two scores, held at `u64::MAX` once it no longer fits.
pub open spec fn saturating_score(a: u64, b: u64) -> u64 {
    if a + b <= u64::MAX {
        (a + b) as u64
    } else {
        u64::MAX
    }
}

/// The score of `doc` over all terms: the sum of its scores in the maps that
/// hold it.
pub open spec fn total_score(maps: Seq<Map<u16, u64>>, doc: u16) -> u64
    decreases maps.len(),
{
    if maps.len() == 0 {
        0
    } else if maps.last().contains_key(doc) {
        saturating_score(total_score(maps.drop_last(), doc), maps.last()[doc])
    } else {
        total_score(maps.drop_last(), doc)
    }
}

/// The order of the ranking: the higher score first, and of two documents
/// with the same score the one with the smaller id.
pub open spec fn ranks_before(a: (u16, u64), b: (u16, u64)) -> bool {
    a.1 > b.1 || (a.1 == b.1 && a.0 < b.0)
}

/// Whether `result` is the ranking of the documents below `bound`: it holds
/// at most `limit` of them, in ranking order, each eligible and with its
/// total score, and every eligible document that it leaves out ranks after
/// all that it holds, which are then `limit` many.
pub open spec fn is_ranking_below(
    result: Seq<(u16, u64)>,
    maps: Seq<Map<u16, u64>>,
    mode: RankingMode,
    limit: nat,
    bound: int,
) -> bool {
    &&& result.len() <= limit
    &&& forall|i: int, j: int| 0 <= i < j < result.len() ==> ranks_before(result[i], result[j])
    &&& forall|i: int|
        0 <= i < result.len() ==> {
            let entry = #[trigger] result[i];
            &&& entry.0 < bound
            &&& is_eligible(maps, mode, entry.0)
            &&& entry.1 == total_score(maps, entry.0)
        }
    &&& forall|doc: u16|
        doc < bound && #[trigger] is_eligible(maps, mode, doc) ==> {
            ||| exists|i: int| 0 <= i < result.len() && (#[trigger] result[i]).0 == doc
            ||| (result.len() == limit && forall|i: int|
                0 <= i < result.len() ==> ranks_before(
                    #[trigger] result[i],
                    (doc, total_score(maps, doc)),
                ))
        }
}

/// Whether `result` is the ranking of all documents: the `limit` best of the
/// eligible ones, best first.
pub open spec fn is_ranking(
    result: Seq<(u16, u64)>,
    maps: Seq<Map<u16, u64>>,
    mode: RankingMode,
    limit: nat,
) -> bool {
    is_ranking_below(result, maps, mode, limit, 65536)
}

/// In a ranking, a document that ranks before an entry is itself an entry
/// further up.
proof fn lemma_better_is_ranked(
    result: Seq<(u16, u64)>,
    maps: Seq<Map<u16, u64>>,
    mode: RankingMode,
    limit: nat,
    doc: u16,
    i: int,
)
    requires
        is_ranking(result, maps, mode, limit),
        is_eligible(maps, mode, doc),
        0 <= i < result.len(),
        ranks_before((doc, total_score(maps, doc)), result[i]),
    ensures
        exists|k: int| 0 <= k < i && result[k] == (doc, total_score(maps, doc)),
{
    let scored = (doc, total_score(maps, doc));
    if exists|k: int| 0 <= k < result.len() && (#[trigger] result[k]).0 == doc {
        let k = choose|k: int| 0 <= k < result.len() && (#[trigger] result[k]).0 == doc;
        assert(result[k] == scored);
        if k > i {
            assert(ranks_before(result[i], result[k]));
        }
        assert(k != i);
    } else {
        assert(ranks_before(result[i], scored));
    }
}

/// There is only one ranking: two results that both are the ranking of the
/// same candidates, in the same mode and with the same limit, are equal.
pub proof fn lemma_ranking_is_unique(
    first: Seq<(u16, u64)>,
    second: Seq<(u16, u64)>,
    maps: Seq<Map<u16, u64>>,
    mode: RankingMode,
    limit: nat,
)
    requires
        is_ranking(first, maps, mode, limit),
        is_ranking(second, maps, mode, limit),
    ensures
        first == second,
{
    lemma_ranking_prefix(first, second, maps, mode, limit, first.len() as int);
    lemma_ranking_prefix(second, first, maps, mode, limit, second.len() as int);
    lemma_not_longer(first, second, maps, mode, limit);
    lemma_not_longer(second, first, maps, mode, limit);
    assert(first =~= second);
}

/// Two rankings agree as far as both reach.
proof fn lemma_ranking_prefix(
    first: Seq<(u16, u64)>,
    second: Seq<(u16, u64)>,
    maps: Seq<Map<u16, u64>>,
    mode: RankingMode,
    limit: nat,
    n: int,
)
    requires
        is_ranking(first, maps, mode, limit),
        is_ranking(second, maps, mode, limit),
        0 <= n <= first.len(),
    ensures
        forall|i: int| 0 <= i < n && i < second.len() ==> first[i] == second[i],
    decreases n,
{
    if n > 0 {
        lemma_ranking_prefix(first, second, maps, mode, limit, n - 1);
        let i = n - 1;
        if i < second.len() {
            let a = first[i];
            let b = second[i];
            if a != b {
                if ranks_before(a, b) {
                    lemma_better_is_ranked(second, maps, mode, limit, a.0, i);
                    let k = choose|k: int| 0 <= k < i && second[k] == a;
                    assert(first[k] == a);
                    assert(ranks_before(first[k], first[i]));
                } else {
                    assert(a.0 != b.0) by {
                        if a.0 == b.0 {
                            assert(a.1 == b.1);
                        }
                    }
                    assert(ranks_before(b, a));
                    lemma_better_is_ranked(first, maps, mode, limit, b.0, i);
                    let k = choose|k: int| 0 <= k < i && first[k] == b;
                    assert(second[k] == b);
                    assert(ranks_before(second[k], second[i]));
                }
            }
        }
    }
}

/// A ranking that agrees with another as far as both reach is not the
/// shorter of the two.
proof fn lemma_not_longer(
    short: Seq<(u16, u64)>,
    long: Seq<(u16, u64)>,
    maps: Seq<Map<u16, u64>>,
    mode: RankingMode,
    limit: nat,
)
    requires
        is_ranking(short, maps, mode, limit),
        is_ranking(long, maps, mode, limit),
        forall|i: int| 0 <= i < short.len() && i < long.len() ==> short[i] == long[i],
    ensures
        long.len() <= short.len(),
{
    if short.len() < long.len() {
        let extra = long[short.len() as int];
        assert(is_eligible(maps, mode, extra.0));
        if exists|k: int| 0 <= k < short.len() && (#[trigger] short[k]).0 == extra.0 {
            let k = choose|k: int| 0 <= k < short.len() && (#[trigger] short[k]).0 == extra.0;
            assert(long[k] == short[k]);
            assert(ranks_before(long[k], long[short.len() as int]));
        }
    }
}

/// The score of `doc` over all candidates, if it is eligible.
pub fn score_of(candidates: &Vec<Candidate>, mode: RankingMode, doc: u16) -> (score: Option<u64>)
    ensures
        score is Some <==> is_eligible(scores_of(candidates@), mode, doc),
        score matches Some(total) ==> total == total_score(scores_of(candidates@), doc),
{
    broadcast use vstd::std_specs::hash::group_hash_axioms;

    let ghost maps = scores_of(candidates@);
    let mut total: u64 = 0;
    let mut all = true;
    let mut any = false;
    let mut i: usize = 0;
    assert(maps.take(0) =~= Seq::<Map<u16, u64>>::empty());
    while i < candidates.len()
        invariant
            i <= candidates@.len(),
            maps == scores_of(candidates@),
            total == total_score(maps.take(i as int), doc),
            all == in_all(maps.take(i as int), doc),
            any == in_any(maps.take(i as int), doc),
        decreases candidates@.len() - i,
    {
        let ghost before = maps.take(i as int);
        let ghost after = maps.take(i + 1);
        assert(after.drop_last() =~= before);
        assert(after.last() == candidates@[i as int].doc_ids@);
        match candidates[i].doc_ids.get(&doc) {
            Some(score) => {
                total = if total <= u64::MAX - *score {
                    total + *score
                } else {
                    u64::MAX
                };
                any = true;
                assert(after[i as int].contains_key(doc));
                assert(all == in_all(after, doc)) by {
                    if all {
                        assert forall|k: int| 0 <= k < after.len() implies (
                        #[trigger] after[k]).contains_key(doc) by {
                            if k < i {
                                assert(before[k].contains_key(doc));
                            }
                        }
                    } else {
                        let k = choose|k: int|
                            0 <= k < before.len() && !(#[trigger] before[k]).contains_key(doc);
                        assert(!after[k].contains_key(doc));
                    }
                }
            },
            None => {
                assert(!after[i as int].contains_key(doc));
                all = false;
                assert(any == in_any(after, doc)) by {
                    if any {
                        let k = choose|k: int|
                            0 <= k < before.len() && (#[trigger] before[k]).contains_key(doc);
                        assert(after[k].contains_key(doc));
                    } else {
                        assert forall|k: int| 0 <= k < after.len() implies !(
                        #[trigger] after[k]).contains_key(doc) by {
                            if k < i {
                                assert(!before[k].contains_key(doc));
                            }
                        }
                    }
                }
            },
        }
        i += 1;
    }
    assert(maps.take(i as int) =~= maps);
    let eligible = candidates.len() > 0 && match mode {
        RankingMode::All => all,
        RankingMode::Any => any,
    };
    if eligible {
        Some(total)
    } else {
        None
    }
}

/// Whether `a` ranks before `b`.
pub fn is_before(a: (u16, u64), b: (u16, u64)) -> (before: bool)
    ensures
        before == ranks_before(a, b),
{
    a.1 > b.1 || (a.1 == b.1 && a.0 < b.0)
}

/// Ranks the documents of `candidates`: the `limit` best of the eligible
/// documents, best first, each with its total score; see `is_ranking`.
pub fn rank(candidates: &Vec<Candidate>, mode: RankingMode, limit: usize) -> (result: Vec<
    (u16, u64),
>)
    ensures
        is_ranking(result@, scores_of(candidates@), mode, limit as nat),
{
    let ghost maps = scores_of(candidates@);
    let mut top: Vec<(u16, u64)> = Vec::new();
    let mut next: u32 = 0;
    while next < 65536
        invariant
            next <= 65536,
            maps == scores_of(candidates@),
            is_ranking_below(top@, maps, mode, limit as nat, next as int),
        decreases 65536 - next,
    {
        let doc = next as u16;
        match score_of(candidates, mode, doc) {
            Some(total) => {
                insert_ranked(&mut top, (doc, total), limit, Ghost(maps), Ghost(mode));
            },
            None => {},
        }
        next += 1;
    }
    top
}

/// Takes one more eligible document into a ranking of the documents before
/// it.
fn insert_ranked(
    top: &mut Vec<(u16, u64)>,
    entry: (u16, u64),
    limit: usize,
    Ghost(maps): Ghost<Seq<Map<u16, u64>>>,
    Ghost(mode): Ghost<RankingMode>,
)
    requires
        is_ranking_below(old(top)@, maps, mode, limit as nat, entry.0 as int),
        is_eligible(maps, mode, entry.0),
        entry.1 == total_score(maps, entry.0),
    ensures
        is_ranking_below(final(top)@, maps, mode, limit as nat, entry.0 + 1),
{
    let ghost before = top@;
    let mut at: usize = 0;
    while at < top.len() && is_before(top[at], entry)
        invariant
            at <= top@.len(),
            top@ == before,
            forall|i: int| 0 <= i < at ==> ranks_before(top@[i], entry),
        decreases top@.len() - at,
    {
        at += 1;
    }
    proof {
        assert forall|i: int| at <= i < before.len() implies ranks_before(entry, before[i]) by {
            assert(before[i].0 < entry.0);
            assert(!ranks_before(before[at as int], entry));
            if i > at {
                assert(ranks_before(before[at as int], before[i]));
            }
        }
    }
    if at >= limit {
        assert forall|doc: u16|
            doc < entry.0 + 1 && #[trigger] is_eligible(maps, mode, doc) implies {
            ||| exists|i: int| 0 <= i < before.len() && (#[trigger] before[i]).0 == doc
            ||| (before.len() == limit && forall|i: int|
                0 <= i < before.len() ==> ranks_before(
                    #[trigger] before[i],
                    (doc, total_score(maps, doc)),
                ))
        } by {}
        return ;
    }
    top.insert(at, entry);
    let ghost wide = top@;
    assert forall|i: int, j: int| 0 <= i < j < wide.len() implies ranks_before(
        wide[i],
        wide[j],
    ) by {
        if j < at {
            assert(wide[i] == before[i] && wide[j] == before[j]);
        } else if j == at {
            assert(wide[i] == before[i]);
        } else if i == at {
            assert(wide[j] == before[j - 1]);
        } else if i < at {
            assert(wide[i] == before[i] && wide[j] == before[j - 1]);
        } else {
            assert(wide[i] == before[i - 1] && wide[j] == before[j - 1]);
        }
    }
    if top.len() > limit {
        top.truncate(limit);
    }
    proof {
        let kept = top@;
        assert forall|i: int| 0 <= i < kept.len() implies kept[i] == wide[i] by {}
        assert forall|i: int| 0 <= i < kept.len() implies {
            let e = #[trigger] kept[i];
            &&& e.0 < entry.0 + 1
            &&& is_eligible(maps, mode, e.0)
            &&& e.1 == total_score(maps, e.0)
        } by {
            if i < at {
                assert(kept[i] == before[i]);
            } else if i > at {
                assert(kept[i] == before[i - 1]);
            }
        }
        assert forall|doc: u16|
            doc < entry.0 + 1 && #[trigger] is_eligible(maps, mode, doc) implies {
            ||| exists|i: int| 0 <= i < kept.len() && (#[trigger] kept[i]).0 == doc
            ||| (kept.len() == limit && forall|i: int|
                0 <= i < kept.len() ==> ranks_before(
                    #[trigger] kept[i],
                    (doc, total_score(maps, doc)),
                ))
        } by {
            let scored = (doc, total_score(maps, doc));
            if doc == entry.0 {
                assert(kept[at as int].0 == doc);
            } else if exists|i: int| 0 <= i < before.len() && (#[trigger] before[i]).0 == doc {
                let i = choose|i: int| 0 <= i < before.len() && (#[trigger] before[i]).0 == doc;
                let w = if i < at {
                    i
                } else {
                    i + 1
                };
                assert(wide[w] == before[i]);
                if w < kept.len() {
                    assert(kept[w].0 == doc);
                } else {
                    assert(before[i] == scored);
                    assert forall|k: int| 0 <= k < kept.len() implies ranks_before(
                        #[trigger] kept[k],
                        scored,
                    ) by {
                        assert(ranks_before(wide[k], wide[w]));
                    }
                }
            } else {
                assert(before.len() == limit);
                assert forall|k: int| 0 <= k < kept.len() implies ranks_before(
                    #[trigger] kept[k],
                    scored,
                ) by {
                    if k < at {
                        assert(kept[k] == before[k]);
                    } else if k > at {
                        assert(kept[k] == before[k - 1]);
                    } else {
                        assert(ranks_before(entry, before[limit - 1]));
                        assert(ranks_before(before[limit - 1], scored));
                    }
                }
            }
        }
    }
}

/// The character of the merged file number `bucket`.
pub fn character_of(bucket: usize) -> (character: char)
    requires
        bucket < BUCKETS,
    ensures
        character == bucket_character(bucket),
{
    if bucket < 10 {
        (48 + bucket) as u8 as char
    } else {
        (97 + bucket - 10) as u8 as char
    }
}

/// The file number `bucket` of a set of files; a file that is not there
/// counts as empty.
pub open spec fn file_at(files: Seq<Vec<u8>>, bucket: int) -> Seq<u8> {
    if 0 <= bucket < files.len() {
        files[bucket]@
    } else {
        Seq::empty()
    }
}

/// The postings that a look-up of `term` finds: those that the skip list of
/// its merged file leads to in that file. A term without a merged file, or
/// without a skip list, has none.
pub open spec fn postings_found(
    skip_lists: Seq<Seq<(Seq<u8>, u64)>>,
    merged: Seq<Vec<u8>>,
    term: Seq<char>,
) -> Seq<Posting> {
    match bucket_of(term) {
        None => Seq::empty(),
        Some(bucket) => if bucket < skip_lists.len() {
            found_in(
                file_at(merged, bucket as int),
                lookup(skip_lists[bucket as int], encode_utf8(term)),
                encode_utf8(term),
            )
        } else {
            Seq::empty()
        },
    }
}

/// A query engine: the skip lists of the merged files, and the query that
/// is being answered.
pub struct SearchEngine {
    query: String,
    tokens: Vec<String>,
    skiplists: Vec<Vec<FileSkip>>,
}

impl SearchEngine {
    /// The text of the query.
    pub closed spec fn query_view(&self) -> Seq<char> {
        self.query@
    }

    /// The terms of the query.
    pub closed spec fn terms(&self) -> Seq<Seq<char>> {
        texts_of(self.tokens@)
    }

    /// The skip lists, one for each merged file.
    pub closed spec fn skip_lists(&self) -> Seq<Seq<(Seq<u8>, u64)>> {
        Seq::new(self.skiplists@.len(), |b: int| entries(self.skiplists@[b]@))
    }

    /// An engine over the skip lists that the skip-list files `sidecars`
    /// hold, one file for each merged file in the order of the digits and
    /// then the letters. A file that is not there gives an empty skip list.
    pub fn new(sidecars: &Vec<Vec<u8>>) -> (engine: SearchEngine)
        ensures
            engine.query_view() == Seq::<char>::empty(),
            engine.terms() == Seq::<Seq<char>>::empty(),
            engine.skip_lists().len() == BUCKETS,
            forall|b: int|
                0 <= b < BUCKETS ==> (#[trigger] engine.skip_lists()[b]) == entries_from(
                    file_at(sidecars@, b),
                ),
    {
        let nothing: Vec<u8> = Vec::new();
        let mut skiplists: Vec<Vec<FileSkip>> = Vec::new();
        let mut bucket: usize = 0;
        while bucket < BUCKETS
            invariant
                bucket <= BUCKETS,
                nothing@ == Seq::<u8>::empty(),
                skiplists@.len() == bucket,
                forall|b: int|
                    0 <= b < bucket ==> entries((#[trigger] skiplists@[b])@) == entries_from(
                        file_at(sidecars@, b),
                    ),
            decreases BUCKETS - bucket,
        {
            let content = if bucket < sidecars.len() {
                sidecars[bucket].as_slice()
            } else {
                nothing.as_slice()
            };
            skiplists.push(FileSkip::read_skip_list(character_of(bucket), content));
            bucket += 1;
        }
        let engine = SearchEngine { query: String::new(), tokens: Vec::new(), skiplists };
        assert(engine.terms() =~= Seq::<Seq<char>>::empty());
        engine
    }

    /// Takes a new query and normalizes it into terms.
    pub fn set_query(&mut self, query: String)
        ensures
            final(self).query_view() == query@,
            final(self).terms() == normalized(default_stop_words(), query@),
            final(self).skip_lists() == old(self).skip_lists(),
    {
        self.tokens = Tokenizer::new().tokenize(query.as_str());
        self.query = query;
    }

    /// Takes the query from a line of input: the line without the blanks
    /// at its ends, the line end among them.
    pub fn get_query(&mut self, input: &str)
        ensures
            encode_utf8(final(self).query_view()) == trim(encode_utf8(input@)),
            final(self).terms() == normalized(default_stop_words(), final(self).query_view()),
            final(self).skip_lists() == old(self).skip_lists(),
    {
        let bytes = input.as_bytes();
        let (from, to) = trim_range(bytes, 0, bytes.len());
        assert(bytes@.subrange(0, bytes@.len() as int) =~= bytes@);
        self.set_query(cut_text(input, from, to));
    }

    /// The terms of the query.
    pub fn get_tokens(&self) -> (tokens: &Vec<String>)
        ensures
            texts_of(tokens@) == self.terms(),
    {
        &self.tokens
    }

    /// Looks each term of the query up in the merged files `merged`, which
    /// stand in the order of the skip lists: the result holds, for each term
    /// in turn, the postings found for it.
    pub fn find_postings(&self, merged: &Vec<Vec<u8>>) -> (found: Vec<Postings>)
        ensures
            found@.len() == self.terms().len(),
            forall|i: int|
                0 <= i < found@.len() ==> {
                    let list = #[trigger] found@[i];
                    &&& list.wf()
                    &&& list.word_view() == self.terms()[i]
                    &&& list@ == postings_found(self.skip_lists(), merged@, self.terms()[i])
                },
    {
        let nothing: Vec<u8> = Vec::new();
        let mut found: Vec<Postings> = Vec::new();
        let mut i: usize = 0;
        while i < self.tokens.len()
            invariant
                i <= self.tokens@.len(),
                nothing@ == Seq::<u8>::empty(),
                found@.len() == i,
                forall|k: int|
                    0 <= k < i ==> {
                        let list = #[trigger] found@[k];
                        &&& list.wf()
                        &&& list.word_view() == self.tokens@[k]@
                        &&& list@ == postings_found(
                            self.skip_lists(),
                            merged@,
                            self.tokens@[k]@,
                        )
                    },
            decreases self.tokens@.len() - i,
        {
            let term = self.tokens[i].as_str();
            let list = match find_bucket(term) {
                None => Postings::new(term.to_owned()),
                Some(bucket) => if bucket >= self.skiplists.len() {
                    Postings::new(term.to_owned())
                } else {
                    let content = if bucket < merged.len() {
                        merged[bucket].as_slice()
                    } else {
                        nothing.as_slice()
                    };
                    let range = FileSkip::find_skip_entry(&self.skiplists[bucket], term);
                    assert(self.skip_lists()[bucket as int] == entries(
                        self.skiplists@[bucket as int]@,
                    ));
                    get_postings_from_offset_range(content, range, term)
                },
            };
            found.push(list);
            i += 1;
        }
        found
    }

    /// Ranks the documents that match every term of the query, by the
    /// scores in `candidates`, and gives the ids of the `limit` best, best
    /// first.
    pub fn search(&self, candidates: &Vec<Candidate>, limit: usize) -> (documents: Vec<u16>)
        ensures
            exists|ranking: Seq<(u16, u64)>|
                {
                    &&& #[trigger] is_ranking(
                        ranking,
                        scores_of(candidates@),
                        RankingMode::All,
                        limit as nat,
                    )
                    &&& documents@.len() == ranking.len()
                    &&& forall|i: int| 0 <= i < ranking.len() ==> documents@[i] == ranking[i].0
                },
    {
        let ranking = rank(candidates, RankingMode::All, limit);
        let mut documents: Vec<u16> = Vec::new();
        let mut i: usize = 0;
        while i < ranking.len()
            invariant
                i <= ranking@.len(),
                documents@.len() == i,
                forall|k: int| 0 <= k < i ==> documents@[k] == ranking@[k].0,
            decreases ranking@.len() - i,
        {
            documents.push(ranking[i].0);
            i += 1;
        }
        documents
    }
}

} // verus!
