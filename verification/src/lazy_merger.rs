//! The merger of batches: a k-way merge of the sorted shard files of many
//! batches into one sequence of postings lists in term order, cut into one
//! merged file per leading character, each with its skip list.
//!
//! A shard file is read as a stream of postings lists: its lines from the
//! top down to the first line that is not a postings list.

use vstd::prelude::*;
use vstd::slice::slice_subrange;
use vstd::string::StrSliceExecFns;
use vstd::utf8::{decode_utf8, encode_utf8};
use crate::file_skip_list::{entries, line_end, next_line, samples, FileSkip};
use crate::index_builder::BATCH_SIZE;
use crate::postings::{
    lemma_merged_increasing, line_text, merge_lists, merged, parsed_line, strictly_increasing,
    Postings,
};
use crate::single_posting::Posting;
use crate::text::{bytes_equal, bytes_less, lex_lt, NEWLINE};

verus! {

/// The number of batches that `documents` documents fill, the last one
/// perhaps partly.
pub fn batch_count(documents: u16) -> (batches: u16)
    ensures
        documents == 0 ==> batches == 0,
        documents > 0 ==> batches == (documents - 1) / BATCH_SIZE as int + 1,
{
    if documents == 0 {
        0
    } else {
        (documents - 1) / BATCH_SIZE + 1
    }
}

/// The postings lists that a shard file gives from offset `from` on: one per
/// line, up to the end of the file or the first line that is none.
pub open spec fn readable_lines(content: Seq<u8>, from: int) -> Seq<(Seq<u8>, Seq<Posting>)>
    decreases content.len() - from,
{
    if from < 0 || from >= content.len() {
        Seq::empty()
    } else {
        match parsed_line(content.subrange(from, line_end(content, from))) {
            Ok(entry) => seq![entry] + readable_lines(content, line_end(content, from)),
            Err(_) => Seq::empty(),
        }
    }
}

/// The streams of a set of shard files.
pub open spec fn streams_of(shards: Seq<Vec<u8>>) -> Seq<Seq<(Seq<u8>, Seq<Posting>)>> {
    Seq::new(shards.len(), |i: int| readable_lines(shards[i]@, 0))
}

/// The least term at the head of any stream; none when all are exhausted.
pub open spec fn least_head(streams: Seq<Seq<(Seq<u8>, Seq<Posting>)>>) -> Option<Seq<u8>>
    decreases streams.len(),
{
    if streams.len() == 0 {
        None
    } else {
        let before = least_head(streams.drop_last());
        let stream = streams.last();
        if stream.len() == 0 {
            before
        } else {
            match before {
                None => Some(stream[0].0),
                Some(term) => if lex_lt(stream[0].0, term) {
                    Some(stream[0].0)
                } else {
                    Some(term)
                },
            }
        }
    }
}

/// The union of the postings at the heads of the streams whose head is for
/// `term`.
pub open spec fn gathered(streams: Seq<Seq<(Seq<u8>, Seq<Posting>)>>, term: Seq<u8>) -> Seq<
    Posting,
>
    decreases streams.len(),
{
    if streams.len() == 0 {
        Seq::empty()
    } else {
        let before = gathered(streams.drop_last(), term);
        let stream = streams.last();
        if stream.len() > 0 && stream[0].0 == term {
            merged(before, stream[0].1)
        } else {
            before
        }
    }
}

/// The streams after those whose head is for `term` have given it up.
pub open spec fn advanced(streams: Seq<Seq<(Seq<u8>, Seq<Posting>)>>, term: Seq<u8>) -> Seq<
    Seq<(Seq<u8>, Seq<Posting>)>,
> {
    Seq::new(
        streams.len(),
        |i: int|
            if streams[i].len() > 0 && streams[i][0].0 == term {
                streams[i].drop_first()
            } else {
                streams[i]
            },
    )
}

/// How many postings lists the streams still hold.
pub open spec fn remaining(streams: Seq<Seq<(Seq<u8>, Seq<Posting>)>>) -> nat
    decreases streams.len(),
{
    if streams.len() == 0 {
        0
    } else {
        remaining(streams.drop_last()) + streams.last().len()
    }
}

/// The k-way merge of the streams: as long as any stream has a head, the
/// least term among the heads is taken, the postings of all heads for that
/// term are united into one list, and those streams move on.
pub open spec fn kway(streams: Seq<Seq<(Seq<u8>, Seq<Posting>)>>) -> Seq<(Seq<u8>, Seq<Posting>)>
    decreases remaining(streams),
    via kway_decreases
{
    match least_head(streams) {
        None => Seq::empty(),
        Some(term) => seq![(term, gathered(streams, term))] + kway(advanced(streams, term)),
    }
}

/// `kway` ends: every step takes a list from at least one stream.
#[via_fn]
proof fn kway_decreases(streams: Seq<Seq<(Seq<u8>, Seq<Posting>)>>) {
    if let Some(term) = least_head(streams) {
        lemma_least_head_is_head(streams);
        let i = choose|i: int|
            0 <= i < streams.len() && streams[i].len() > 0 && streams[i][0].0 == term;
        lemma_advanced_is_less(streams, term, i);
    }
}

/// The least head is the head of some stream, and no head comes before it.
pub proof fn lemma_least_head_is_head(streams: Seq<Seq<(Seq<u8>, Seq<Posting>)>>)
    ensures
        match least_head(streams) {
            None => forall|i: int| 0 <= i < streams.len() ==> (#[trigger] streams[i]).len() == 0,
            Some(term) => {
                &&& exists|i: int|
                    0 <= i < streams.len() && streams[i].len() > 0 && streams[i][0].0 == term
                &&& forall|i: int|
                    0 <= i < streams.len() && (#[trigger] streams[i]).len() > 0 ==> !lex_lt(
                        streams[i][0].0,
                        term,
                    )
            },
        },
    decreases streams.len(),
{
    if streams.len() > 0 {
        let front = streams.drop_last();
        let stream = streams.last();
        let last = streams.len() - 1;
        lemma_least_head_is_head(front);
        assert forall|i: int| 0 <= i < last implies streams[i] == front[i] by {}
        match least_head(front) {
            None => {
                if stream.len() > 0 {
                    assert(streams[last].len() > 0 && streams[last][0].0 == stream[0].0);
                    crate::text::lemma_lex_irreflexive(stream[0].0);
                    assert forall|i: int|
                        0 <= i < streams.len() && (#[trigger] streams[i]).len() > 0 implies !lex_lt(
                        streams[i][0].0,
                        stream[0].0,
                    ) by {
                        if i < last {
                            assert(front[i].len() == 0);
                        }
                    }
                } else {
                    assert forall|i: int| 0 <= i < streams.len() implies (
                    #[trigger] streams[i]).len() == 0 by {
                        if i < last {
                            assert(front[i].len() == 0);
                        }
                    }
                }
            },
            Some(term) => {
                let w = choose|i: int|
                    0 <= i < front.len() && front[i].len() > 0 && front[i][0].0 == term;
                assert(streams[w] == front[w]);
                if stream.len() > 0 && lex_lt(stream[0].0, term) {
                    let least = stream[0].0;
                    assert(streams[last].len() > 0 && streams[last][0].0 == least);
                    crate::text::lemma_lex_irreflexive(least);
                    assert forall|i: int|
                        0 <= i < streams.len() && (#[trigger] streams[i]).len() > 0 implies !lex_lt(
                        streams[i][0].0,
                        least,
                    ) by {
                        if i < last {
                            assert(front[i].len() > 0);
                            if lex_lt(streams[i][0].0, least) {
                                crate::text::lemma_lex_transitive(streams[i][0].0, least, term);
                            }
                        }
                    }
                } else {
                    assert(streams[w].len() > 0 && streams[w][0].0 == term);
                    assert forall|i: int|
                        0 <= i < streams.len() && (#[trigger] streams[i]).len() > 0 implies !lex_lt(
                        streams[i][0].0,
                        term,
                    ) by {
                        if i < last {
                            assert(front[i].len() > 0);
                        }
                    }
                }
            },
        }
    }
}

/// Moving on never adds a list, and takes one away from each stream whose
/// head is for `term`.
pub proof fn lemma_advanced_is_less(
    streams: Seq<Seq<(Seq<u8>, Seq<Posting>)>>,
    term: Seq<u8>,
    i: int,
)
    requires
        0 <= i < streams.len(),
        streams[i].len() > 0,
        streams[i][0].0 == term,
    ensures
        remaining(advanced(streams, term)) < remaining(streams),
    decreases streams.len(),
{
    let front = streams.drop_last();
    assert(advanced(streams, term).drop_last() =~= advanced(front, term));
    if i < streams.len() - 1 {
        assert(front[i] == streams[i]);
        lemma_advanced_is_less(front, term, i);
    } else {
        lemma_advanced_not_more(front, term);
    }
}

/// Moving on never adds a list.
proof fn lemma_advanced_not_more(streams: Seq<Seq<(Seq<u8>, Seq<Posting>)>>, term: Seq<u8>)
    ensures
        remaining(advanced(streams, term)) <= remaining(streams),
    decreases streams.len(),
{
    if streams.len() > 0 {
        let front = streams.drop_last();
        assert(advanced(streams, term).drop_last() =~= advanced(front, term));
        lemma_advanced_not_more(front, term);
    }
}

/// The stream of a reader that holds the list `head`, if any, and will read
/// on at offset `next` of its file. A reader without a list is exhausted.
pub open spec fn cursor_stream(head: Option<Postings>, content: Seq<u8>, next: int) -> Seq<
    (Seq<u8>, Seq<Posting>),
> {
    match head {
        Some(list) => seq![(list.term(), list@)] + readable_lines(content, next),
        None => Seq::empty(),
    }
}

/// The streams of all readers.
pub open spec fn cursor_streams(
    heads: Seq<Option<Postings>>,
    nexts: Seq<usize>,
    shards: Seq<Vec<u8>>,
) -> Seq<Seq<(Seq<u8>, Seq<Posting>)>> {
    Seq::new(shards.len(), |i: int| cursor_stream(heads[i], shards[i]@, nexts[i] as int))
}

/// Every list that a reader holds is well formed.
pub open spec fn heads_wf(heads: Seq<Option<Postings>>) -> bool {
    forall|i: int| 0 <= i < heads.len() ==> ((#[trigger] heads[i]) matches Some(list) ==> list.wf())
}

/// Lists as plain values: the bytes of the term, and the postings.
pub open spec fn lines_of(lists: Seq<Postings>) -> Seq<(Seq<u8>, Seq<Posting>)> {
    Seq::new(lists.len(), |i: int| (lists[i].term(), lists[i]@))
}

/// Reads the line at offset `from` of a shard file into a reader.
fn read_cursor(content: &[u8], from: usize) -> (cursor: (Option<Postings>, usize))
    ensures
        cursor_stream(cursor.0, content@, cursor.1 as int) == readable_lines(content@, from as int),
        cursor.0 matches Some(list) ==> list.wf(),
{
    if from >= content.len() {
        return (None, from);
    }
    let next = next_line(content, from);
    match Postings::from_bytes(slice_subrange(content, from, next)) {
        Ok(list) => (Some(list), next),
        Err(_) => (None, next),
    }
}

/// Whether `heads` are the lists at the heads of `streams`: a reader holds
/// the first list of its stream, and none where its stream is exhausted.
pub open spec fn heads_of(
    heads: Seq<Option<Postings>>,
    streams: Seq<Seq<(Seq<u8>, Seq<Posting>)>>,
) -> bool {
    &&& heads.len() == streams.len()
    &&& forall|i: int|
        0 <= i < heads.len() ==> match #[trigger] heads[i] {
            Some(list) => streams[i].len() > 0 && streams[i][0] == (list.term(), list@),
            None => streams[i].len() == 0,
        }
}

/// Finds a reader whose list has the least term.
fn find_least(
    heads: &Vec<Option<Postings>>,
    Ghost(streams): Ghost<Seq<Seq<(Seq<u8>, Seq<Posting>)>>>,
) -> (least: Option<usize>)
    requires
        heads_of(heads@, streams),
    ensures
        match least {
            None => least_head(streams) is None,
            Some(w) => {
                &&& w < heads@.len()
                &&& heads@[w as int] matches Some(list) && least_head(streams) == Some(list.term())
            },
        },
{
    let mut best: Option<usize> = None;
    let mut i: usize = 0;
    while i < heads.len()
        invariant
            i <= heads@.len(),
            heads_of(heads@, streams),
            match best {
                None => least_head(streams.take(i as int)) is None,
                Some(w) => {
                    &&& w < i
                    &&& heads@[w as int] matches Some(list) && least_head(streams.take(i as int))
                        == Some(list.term())
                },
            },
        decreases heads@.len() - i,
    {
        assert(streams.take(i + 1).drop_last() =~= streams.take(i as int));
        assert(streams.take(i + 1).last() == streams[i as int]);
        match &heads[i] {
            None => {},
            Some(list) => {
                assert(streams[i as int][0].0 == list.term());
                match best {
                    None => {
                        best = Some(i);
                    },
                    Some(w) => {
                        let least = match &heads[w] {
                            Some(least) => least,
                            None => list,
                        };
                        if bytes_less(list.term_text().as_bytes(), least.term_text().as_bytes()) {
                            best = Some(i);
                        }
                    },
                }
            },
        }
        i += 1;
    }
    assert(streams.take(i as int) =~= streams);
    best
}

/// Unites the postings of all readers whose list is for `word`.
fn gather_heads(
    heads: &Vec<Option<Postings>>,
    word: &str,
    Ghost(streams): Ghost<Seq<Seq<(Seq<u8>, Seq<Posting>)>>>,
) -> (union: Vec<Posting>)
    requires
        heads_of(heads@, streams),
        heads_wf(heads@),
    ensures
        strictly_increasing(union@),
        union@ == gathered(streams, encode_utf8(word@)),
{
    let ghost term = encode_utf8(word@);
    let mut union: Vec<Posting> = Vec::new();
    let mut j: usize = 0;
    assert(streams.take(0).len() == 0);
    while j < heads.len()
        invariant
            j <= heads@.len(),
            heads_of(heads@, streams),
            heads_wf(heads@),
            term == encode_utf8(word@),
            strictly_increasing(union@),
            union@ == gathered(streams.take(j as int), term),
        decreases heads@.len() - j,
    {
        assert(streams.take(j + 1).drop_last() =~= streams.take(j as int));
        assert(streams.take(j + 1).last() == streams[j as int]);
        match &heads[j] {
            None => {},
            Some(list) => {
                if bytes_equal(list.term_text().as_bytes(), word.as_bytes()) {
                    proof {
                        lemma_merged_increasing(union@, list@);
                    }
                    union = merge_lists(&union, list.get_postings());
                }
            },
        }
        j += 1;
    }
    assert(streams.take(j as int) =~= streams);
    union
}

/// Whether reader `reader` holds a list for `word`.
fn holds_term(heads: &Vec<Option<Postings>>, reader: usize, word: &str) -> (holds: bool)
    requires
        reader < heads@.len(),
    ensures
        holds == (heads@[reader as int] matches Some(list) && list.term() == encode_utf8(word@)),
{
    match &heads[reader] {
        None => false,
        Some(list) => bytes_equal(list.term_text().as_bytes(), word.as_bytes()),
    }
}

/// Unites the postings of all readers whose list is for `word`, and lets
/// each of those readers read its next line.
fn take_heads(
    heads: &mut Vec<Option<Postings>>,
    nexts: &mut Vec<usize>,
    shards: &Vec<Vec<u8>>,
    word: &String,
) -> (union: Vec<Posting>)
    requires
        old(heads)@.len() == shards@.len(),
        old(nexts)@.len() == shards@.len(),
        heads_wf(old(heads)@),
    ensures
        final(heads)@.len() == shards@.len(),
        final(nexts)@.len() == shards@.len(),
        heads_wf(final(heads)@),
        strictly_increasing(union@),
        union@ == gathered(cursor_streams(old(heads)@, old(nexts)@, shards@), encode_utf8(word@)),
        cursor_streams(final(heads)@, final(nexts)@, shards@) == advanced(
            cursor_streams(old(heads)@, old(nexts)@, shards@),
            encode_utf8(word@),
        ),
{
    let n = shards.len();
    let ghost old_streams = cursor_streams(heads@, nexts@, shards@);
    let ghost term = encode_utf8(word@);
    let union = gather_heads(heads, word.as_str(), Ghost(old_streams));
    let mut j: usize = 0;
    while j < n
        invariant
            j <= n,
            n == shards@.len(),
            heads@.len() == n,
            nexts@.len() == n,
            old_streams.len() == n,
            heads_wf(heads@),
            term == encode_utf8(word@),
            forall|k: int|
                0 <= k < j ==> (#[trigger] cursor_streams(heads@, nexts@, shards@)[k]) == advanced(
                    old_streams,
                    term,
                )[k],
            forall|k: int|
                j <= k < n ==> (#[trigger] cursor_streams(heads@, nexts@, shards@)[k])
                    == old_streams[k],
        decreases n - j,
    {
        let ghost before = cursor_streams(heads@, nexts@, shards@);
        assert(before[j as int] == old_streams[j as int]);
        if holds_term(heads, j, word.as_str()) {
            let (head, next) = read_cursor(shards[j].as_slice(), nexts[j]);
            assert(old_streams[j as int].drop_first() =~= readable_lines(
                shards@[j as int]@,
                nexts@[j as int] as int,
            ));
            heads.set(j, head);
            nexts.set(j, next);
        }
        proof {
            let after = cursor_streams(heads@, nexts@, shards@);
            assert forall|k: int| 0 <= k < j + 1 implies (#[trigger] after[k]) == advanced(
                old_streams,
                term,
            )[k] by {
                if k < j {
                    assert(after[k] == before[k]);
                }
            }
            assert forall|k: int| j + 1 <= k < n implies (#[trigger] after[k]) == old_streams[k] by {
                assert(after[k] == before[k]);
            }
        }
        j += 1;
    }
    assert(cursor_streams(heads@, nexts@, shards@) =~= advanced(old_streams, term));
    union
}

/// The lists that the readers hold, each as a stream of one list.
pub open spec fn head_streams(heads: Seq<Option<Postings>>) -> Seq<Seq<(Seq<u8>, Seq<Posting>)>> {
    Seq::new(
        heads.len(),
        |i: int|
            match heads[i] {
                Some(list) => seq![(list.term(), list@)],
                None => Seq::empty(),
            },
    )
}

/// The readers whose stream has a head for `term`, in order.
pub open spec fn readers_with(streams: Seq<Seq<(Seq<u8>, Seq<Posting>)>>, term: Seq<u8>) -> Seq<
    usize,
>
    decreases streams.len(),
{
    if streams.len() == 0 {
        Seq::empty()
    } else {
        let before = readers_with(streams.drop_last(), term);
        if streams.last().len() > 0 && streams.last()[0].0 == term {
            before.push((streams.len() - 1) as usize)
        } else {
            before
        }
    }
}

/// What a line gives a reader: the list that it reads as, or nothing.
pub open spec fn line_stream(line: Seq<u8>) -> Seq<(Seq<u8>, Seq<Posting>)> {
    match parsed_line(line) {
        Ok(entry) => seq![entry],
        Err(_) => Seq::empty(),
    }
}

/// A k-way merge that is fed line by line, for files that are too large to
/// be held whole. It holds one list for each reader. Whoever drives it
/// hands each reader its first line, and then takes list after list, each
/// time handing the readers that gave up their list their next line.
pub struct Merger {
    heads: Vec<Option<Postings>>,
}

impl Merger {
    /// What the readers hold: for each reader a stream of the one list
    /// that it holds, or of none.
    pub closed spec fn streams(&self) -> Seq<Seq<(Seq<u8>, Seq<Posting>)>> {
        head_streams(self.heads@)
    }

    /// The invariant of the merger: every list that is held is sorted.
    pub closed spec fn wf(&self) -> bool {
        heads_wf(self.heads@)
    }

    /// A merger for `readers` readers, none of which holds a list.
    pub fn new(readers: usize) -> (merger: Merger)
        ensures
            merger.wf(),
            merger.streams() == Seq::new(
                readers as nat,
                |i: int| Seq::<(Seq<u8>, Seq<Posting>)>::empty(),
            ),
    {
        let mut heads: Vec<Option<Postings>> = Vec::new();
        let mut i: usize = 0;
        while i < readers
            invariant
                i <= readers,
                heads@.len() == i,
                forall|k: int| 0 <= k < i ==> (#[trigger] heads@[k]) is None,
            decreases readers - i,
        {
            heads.push(None);
            i += 1;
        }
        let merger = Merger { heads };
        assert(merger.streams() =~= Seq::new(
            readers as nat,
            |i: int| Seq::<(Seq<u8>, Seq<Posting>)>::empty(),
        ));
        merger
    }

    /// Hands reader `reader` the line `line`. If the line is a postings
    /// list, the reader holds it now; if not, the reader holds nothing, and
    /// is to be handed no more lines. Tells which of the two it was.
    pub fn read_line(&mut self, reader: usize, line: &[u8]) -> (taken: bool)
        requires
            old(self).wf(),
        ensures
            final(self).wf(),
            reader < old(self).streams().len() ==> {
                &&& final(self).streams() == old(self).streams().update(
                    reader as int,
                    line_stream(line@),
                )
                &&& taken == parsed_line(line@) is Ok
            },
            reader >= old(self).streams().len() ==> !taken && final(self).streams() == old(
                self,
            ).streams(),
    {
        if reader >= self.heads.len() {
            return false;
        }
        let ghost before = self.streams();
        match Postings::from_bytes(line) {
            Ok(list) => {
                self.heads.set(reader, Some(list));
                assert(self.streams() =~= before.update(reader as int, line_stream(line@)));
                true
            },
            Err(_) => {
                self.heads.set(reader, None);
                assert(self.streams() =~= before.update(reader as int, line_stream(line@)));
                false
            },
        }
    }

    /// Takes the next list of the merge: the union of the lists that the
    /// readers hold for the least term among them. Those readers hold
    /// nothing afterwards, and are named, so that each can be handed its
    /// next line. There is no next list once no reader holds one.
    pub fn next_list(&mut self) -> (next: Option<(Postings, Vec<usize>)>)
        requires
            old(self).wf(),
        ensures
            final(self).wf(),
            match next {
                None => {
                    &&& least_head(old(self).streams()) is None
                    &&& final(self).streams() == old(self).streams()
                },
                Some((list, readers)) => {
                    &&& list.wf()
                    &&& least_head(old(self).streams()) == Some(list.term())
                    &&& list@ == gathered(old(self).streams(), list.term())
                    &&& readers@ == readers_with(old(self).streams(), list.term())
                    &&& final(self).streams() == advanced(old(self).streams(), list.term())
                },
            },
    {
        let ghost old_streams = self.streams();
        let w = match find_least(&self.heads, Ghost(old_streams)) {
            None => {
                return None;
            },
            Some(w) => w,
        };
        let word: String = match &self.heads[w] {
            Some(list) => list.term_text().to_owned(),
            None => {
                return None;
            },
        };
        let ghost term = encode_utf8(word@);
        let union = gather_heads(&self.heads, word.as_str(), Ghost(old_streams));
        let mut readers: Vec<usize> = Vec::new();
        let n = self.heads.len();
        let mut j: usize = 0;
        assert(old_streams.take(0).len() == 0);
        while j < n
            invariant
                j <= n,
                n == self.heads@.len(),
                old_streams.len() == n,
                heads_wf(self.heads@),
                term == encode_utf8(word@),
                readers@ == readers_with(old_streams.take(j as int), term),
                forall|k: int|
                    0 <= k < j ==> (#[trigger] head_streams(self.heads@)[k]) == advanced(
                        old_streams,
                        term,
                    )[k],
                forall|k: int|
                    j <= k < n ==> (#[trigger] head_streams(self.heads@)[k]) == old_streams[k],
            decreases n - j,
        {
            let ghost before = head_streams(self.heads@);
            assert(old_streams.take(j + 1).drop_last() =~= old_streams.take(j as int));
            assert(old_streams.take(j + 1).last() == old_streams[j as int]);
            assert(before[j as int] == old_streams[j as int]);
            if holds_term(&self.heads, j, word.as_str()) {
                self.heads.set(j, None);
                readers.push(j);
                assert(old_streams[j as int].drop_first() =~= Seq::<
                    (Seq<u8>, Seq<Posting>),
                >::empty());
            }
            proof {
                let after = head_streams(self.heads@);
                assert forall|k: int| 0 <= k < j + 1 implies (#[trigger] after[k]) == advanced(
                    old_streams,
                    term,
                )[k] by {
                    if k < j {
                        assert(after[k] == before[k]);
                    }
                }
                assert forall|k: int| j + 1 <= k < n implies (#[trigger] after[k])
                    == old_streams[k] by {
                    assert(after[k] == before[k]);
                }
            }
            j += 1;
        }
        assert(old_streams.take(n as int) =~= old_streams);
        assert(head_streams(self.heads@) =~= advanced(old_streams, term));
        Some((Postings::from_sorted(word, union), readers))
    }
}

/// Merges the shard files `shards` of one range of terms, one file per
/// batch, into the postings lists of their k-way merge; see `kway`.
pub fn merge_batches(shards: &Vec<Vec<u8>>) -> (lists: Vec<Postings>)
    ensures
        lines_of(lists@) == kway(streams_of(shards@)),
        forall|i: int| 0 <= i < lists@.len() ==> (#[trigger] lists@[i]).wf(),
{
    let n = shards.len();
    let mut heads: Vec<Option<Postings>> = Vec::new();
    let mut nexts: Vec<usize> = Vec::new();
    let mut i: usize = 0;
    while i < n
        invariant
            i <= n,
            n == shards@.len(),
            heads@.len() == i,
            nexts@.len() == i,
            heads_wf(heads@),
            forall|k: int|
                0 <= k < i ==> cursor_stream(#[trigger] heads@[k], shards@[k]@, nexts@[k] as int)
                    == readable_lines(shards@[k]@, 0),
        decreases n - i,
    {
        let (head, next) = read_cursor(shards[i].as_slice(), 0);
        heads.push(head);
        nexts.push(next);
        i += 1;
    }
    assert(cursor_streams(heads@, nexts@, shards@) =~= streams_of(shards@));
    let mut lists: Vec<Postings> = Vec::new();
    assert(lines_of(lists@) =~= Seq::<(Seq<u8>, Seq<Posting>)>::empty());
    loop
        invariant
            n == shards@.len(),
            heads@.len() == n,
            nexts@.len() == n,
            heads_wf(heads@),
            forall|k: int| 0 <= k < lists@.len() ==> (#[trigger] lists@[k]).wf(),
            kway(streams_of(shards@)) == lines_of(lists@) + kway(
                cursor_streams(heads@, nexts@, shards@),
            ),
        decreases remaining(cursor_streams(heads@, nexts@, shards@)),
    {
        let ghost old_streams = cursor_streams(heads@, nexts@, shards@);
        let w = match find_least(&heads, Ghost(old_streams)) {
            None => {
                assert(lines_of(lists@) + Seq::<(Seq<u8>, Seq<Posting>)>::empty() =~= lines_of(
                    lists@,
                ));
                return lists;
            },
            Some(w) => w,
        };
        let word: String = match &heads[w] {
            Some(list) => list.term_text().to_owned(),
            None => {
                return lists;
            },
        };
        let ghost term = encode_utf8(word@);
        let union = take_heads(&mut heads, &mut nexts, shards, &word);
        proof {
            lemma_least_head_is_head(old_streams);
            let i = choose|i: int|
                0 <= i < old_streams.len() && old_streams[i].len() > 0 && old_streams[i][0].0
                    == term;
            lemma_advanced_is_less(old_streams, term, i);
        }
        let ghost done = lines_of(lists@);
        lists.push(Postings::from_sorted(word, union));
        assert(lines_of(lists@) =~= done + seq![(term, gathered(old_streams, term))]);
        assert(lines_of(lists@) + kway(advanced(old_streams, term)) =~= done + kway(old_streams));
    }
}

/// One merged file: the lines of a run of terms with the same leading
/// character, and the skip list of those lines.
#[derive(Debug)]
pub struct MergedFile {
    pub character: char,
    pub content: Vec<u8>,
    pub skip_list: Vec<FileSkip>,
}

/// The character by which a term is filed: its first, or `0` for the empty
/// term.
pub open spec fn leading_character(term: Seq<u8>) -> char {
    if decode_utf8(term).len() > 0 {
        decode_utf8(term)[0]
    } else {
        '0'
    }
}

/// The merged files of a sequence of lists, as character and content. Each
/// list gives one line, ended by a line feed; the line goes to the file of
/// the list before it if both terms lead with the same character, and opens
/// a new file if not.
pub open spec fn merged_files(lists: Seq<(Seq<u8>, Seq<Posting>)>) -> Seq<(char, Seq<u8>)>
    decreases lists.len(),
{
    if lists.len() == 0 {
        Seq::empty()
    } else {
        let before = merged_files(lists.drop_last());
        let character = leading_character(lists.last().0);
        let line = line_text(lists.last().0, lists.last().1) + seq![NEWLINE];
        if before.len() > 0 && before.last().0 == character {
            before.drop_last().push((character, before.last().1 + line))
        } else {
            before.push((character, line))
        }
    }
}

/// Merged files as plain values: character and content.
pub open spec fn files_of(files: Seq<MergedFile>) -> Seq<(char, Seq<u8>)> {
    Seq::new(files.len(), |i: int| (files[i].character, files[i].content@))
}

/// The skip list of every file is the one built from its content.
pub open spec fn files_indexed(files: Seq<MergedFile>) -> bool {
    forall|i: int|
        0 <= i < files.len() ==> {
            let file = #[trigger] files[i];
            &&& entries(file.skip_list@) == samples(file.content@, 0, 0)
            &&& forall|k: int|
                0 <= k < file.skip_list@.len() ==> (#[trigger] file.skip_list@[k]).character
                    == file.character
        }
}

/// The character by which `list` is filed.
pub fn leading_of(list: &Postings) -> (character: char)
    ensures
        character == leading_character(list.term()),
{
    broadcast use vstd::utf8::encode_utf8_decode_utf8;

    let text = list.term_text();
    if text.is_empty() {
        '0'
    } else {
        text.get_char(0)
    }
}

/// Whether the line of `list` opens a new merged file: no file is open, or
/// the open one is for another character than the one by which `list` is
/// filed.
pub fn opens_new_file(open: Option<char>, list: &Postings) -> (new_file: bool)
    ensures
        new_file == (open != Some(leading_character(list.term()))),
{
    let character = leading_of(list);
    match open {
        Some(current) => current != character,
        None => true,
    }
}

/// Closes a merged file: builds its skip list.
fn close_file(character: char, content: Vec<u8>) -> (file: MergedFile)
    ensures
        file.character == character,
        file.content@ == content@,
        entries(file.skip_list@) == samples(content@, 0, 0),
        forall|k: int|
            0 <= k < file.skip_list@.len() ==> (#[trigger] file.skip_list@[k]).character
                == character,
{
    let skip_list = FileSkip::build_skip_list(character, content.as_slice());
    MergedFile { character, content, skip_list }
}

/// Cuts a sequence of postings lists into merged files and builds the skip
/// list of each; see `merged_files`.
pub fn write_merged(lists: &Vec<Postings>) -> (files: Vec<MergedFile>)
    ensures
        files_of(files@) == merged_files(lines_of(lists@)),
        files_indexed(files@),
{
    let ghost lines = lines_of(lists@);
    let mut files: Vec<MergedFile> = Vec::new();
    if lists.len() == 0 {
        assert(files_of(files@) =~= merged_files(lines));
        return files;
    }
    let mut character = leading_of(&lists[0]);
    let mut content = lists[0].to_bytes();
    content.push(NEWLINE);
    let mut i: usize = 1;
    proof {
        assert(lines.take(1).drop_last() =~= Seq::<(Seq<u8>, Seq<Posting>)>::empty());
        assert(lines.take(1).last() == lines[0]);
        assert(merged_files(lines.take(1).drop_last()).len() == 0);
        assert(content@ =~= line_text(lines[0].0, lines[0].1) + seq![NEWLINE]);
        assert(files_of(files@).push((character, content@)) =~= merged_files(lines.take(1)));
    }
    while i < lists.len()
        invariant
            1 <= i <= lists@.len(),
            lines == lines_of(lists@),
            files_indexed(files@),
            files_of(files@).push((character, content@)) == merged_files(lines.take(i as int)),
        decreases lists@.len() - i,
    {
        let ghost before = merged_files(lines.take(i as int));
        assert(lines.take(i + 1).drop_last() =~= lines.take(i as int));
        assert(lines.take(i + 1).last() == lines[i as int]);
        assert(before.last() == (character, content@));
        assert(before.drop_last() =~= files_of(files@));
        let next = leading_of(&lists[i]);
        let mut line = lists[i].to_bytes();
        line.push(NEWLINE);
        let ghost text = line_text(lines[i as int].0, lines[i as int].1) + seq![NEWLINE];
        let ghost held = content@;
        assert(line@ =~= text);
        if !opens_new_file(Some(character), &lists[i]) {
            content.append(&mut line);
            assert(content@ =~= held + text);
        } else {
            let ghost closed = files_of(files@);
            files.push(close_file(character, content));
            assert(files_of(files@) =~= closed.push((character, files@.last().content@)));
            character = next;
            content = line;
        }
        assert(files_of(files@).push((character, content@)) =~= merged_files(lines.take(i + 1)));
        i += 1;
    }
    assert(lines.take(i as int) =~= lines);
    let ghost closed = files_of(files@);
    files.push(close_file(character, content));
    assert(files_of(files@) =~= closed.push((character, files@.last().content@)));
    files
}

/// The lists of the k-way merges of several ranges of terms, one after the
/// other.
pub open spec fn merged_ranges(ranges: Seq<Vec<Vec<u8>>>) -> Seq<(Seq<u8>, Seq<Posting>)>
    decreases ranges.len(),
{
    if ranges.len() == 0 {
        Seq::empty()
    } else {
        merged_ranges(ranges.drop_last()) + kway(streams_of(ranges.last()@))
    }
}

/// Merges the batches of a whole index. `ranges` holds, for each range of
/// terms in turn, the shard files of that range, one per batch. The result
/// is the merged files in the order in which they are to be written, each
/// with its skip list.
pub fn merge_index(ranges: &Vec<Vec<Vec<u8>>>) -> (files: Vec<MergedFile>)
    ensures
        files_of(files@) == merged_files(merged_ranges(ranges@)),
        files_indexed(files@),
{
    let mut lists: Vec<Postings> = Vec::new();
    let mut r: usize = 0;
    assert(ranges@.take(0) =~= Seq::<Vec<Vec<u8>>>::empty());
    assert(lines_of(lists@) =~= merged_ranges(ranges@.take(0)));
    while r < ranges.len()
        invariant
            r <= ranges@.len(),
            lines_of(lists@) == merged_ranges(ranges@.take(r as int)),
            forall|i: int| 0 <= i < lists@.len() ==> (#[trigger] lists@[i]).wf(),
        decreases ranges@.len() - r,
    {
        let ghost before = lines_of(lists@);
        let ghost held = lists@;
        let mut more = merge_batches(&ranges[r]);
        let ghost added = more@;
        lists.append(&mut more);
        assert(ranges@.take(r + 1).drop_last() =~= ranges@.take(r as int));
        assert(ranges@.take(r + 1).last() == ranges@[r as int]);
        assert(lists@ =~= held + added);
        assert(lines_of(lists@) =~= before + lines_of(added));
        r += 1;
    }
    assert(ranges@.take(r as int) =~= ranges@);
    write_merged(&lists)
}

} // verus!
