//! What holds of the files that the index writes: the lines of a written
//! file read back as the lists that were written, a k-way merge of sorted
//! streams is sorted, and a look-up through the skip list of a merged file
//! finds the postings of every term in it.

use vstd::prelude::*;
use vstd::utf8::valid_utf8;
use crate::file_skip_list::{found_in, key_at, key_of, line_end, lookup, samples};
use crate::inverted_index::{index_wf, is_index_entry, shard_text};
use crate::lazy_merger::{
    advanced, gathered, kway, least_head, lemma_advanced_is_less, lemma_least_head_is_head,
    merged_files, readable_lines, remaining,
};
use crate::postings::{
    lemma_merged_increasing, lemma_merged_len, lemma_pair_reads_back, lemma_postings_text_front,
    lemma_with_posting_at_end, lemma_with_posting_increasing, line_text, merged, pair_text,
    parsed_line, posting_of, postings_from, postings_text, strictly_increasing, with_posting,
    LoadError,
};
use crate::single_posting::Posting;
use crate::skip_list_laws::{
    lemma_line_end, lemma_lookup_finds, starts_line, terms_increase,
};
use crate::text::{
    decimal, is_blank, is_digit, lemma_decimal_reads_back, lemma_lex_total, lemma_lex_transitive,
    lemma_position, lemma_position_after, lemma_position_none, lex_lt, position, trim_end,
    trim_start, COLON, COMMA, NEWLINE, PIPE,
};

verus! {

/// A list as it can stand in a file and be read back: its term is valid
/// UTF-8 and holds neither `:` nor a line feed, and its postings are not
/// empty and are sorted by document.
#[verifier::opaque]
pub open spec fn is_writable(entry: (Seq<u8>, Seq<Posting>)) -> bool {
    &&& valid_utf8(entry.0)
    &&& forall|i: int| 0 <= i < entry.0.len() ==> entry.0[i] != COLON && entry.0[i] != NEWLINE
    &&& entry.1.len() > 0
    &&& strictly_increasing(entry.1)
}

/// Every list of `lists` can stand in a file.
pub open spec fn all_writable(lists: Seq<(Seq<u8>, Seq<Posting>)>) -> bool {
    forall|i: int| 0 <= i < lists.len() ==> is_writable(#[trigger] lists[i])
}

/// The terms of `lists` increase strictly.
pub open spec fn terms_sorted(lists: Seq<(Seq<u8>, Seq<Posting>)>) -> bool {
    forall|i: int, j: int| 0 <= i < j < lists.len() ==> lex_lt(lists[i].0, lists[j].0)
}

/// The line of a list, with its line feed.
pub open spec fn written_line(entry: (Seq<u8>, Seq<Posting>)) -> Seq<u8> {
    line_text(entry.0, entry.1) + seq![NEWLINE]
}

/// The offset at which the line of list number `i` starts in the file of
/// `lists`.
pub open spec fn line_offset(lists: Seq<(Seq<u8>, Seq<Posting>)>, i: int) -> int {
    shard_text(lists.take(i)).len() as int
}

/// The text of a posting holds no blank, no comma and no line feed.
proof fn lemma_pair_text_bytes(p: Posting)
    ensures
        forall|i: int|
            0 <= i < pair_text(p.doc_id, p.term_freq).len() ==> {
                let b = #[trigger] pair_text(p.doc_id, p.term_freq)[i];
                b != COMMA && b != NEWLINE && b != COLON && !is_blank(b)
            },
{
    lemma_pair_reads_back(p);
    let text = pair_text(p.doc_id, p.term_freq);
    assert forall|i: int| 0 <= i < text.len() implies {
        let b = #[trigger] text[i];
        b != COMMA && b != NEWLINE && b != COLON && !is_blank(b)
    } by {
        let b = text[i];
        assert(is_digit(b) || b == PIPE);
    }
}

/// The text of a list of postings holds no line feed and no colon.
proof fn lemma_postings_text_bytes(s: Seq<Posting>)
    ensures
        forall|i: int|
            0 <= i < postings_text(s).len() ==> {
                let b = #[trigger] postings_text(s)[i];
                b != NEWLINE && b != COLON
            },
    decreases s.len(),
{
    if s.len() == 0 {
    } else if s.len() == 1 {
        lemma_pair_text_bytes(s[0]);
    } else {
        lemma_postings_text_bytes(s.drop_last());
        lemma_pair_text_bytes(s.last());
        let front = postings_text(s.drop_last());
        let last = pair_text(s.last().doc_id, s.last().term_freq);
        let text = postings_text(s);
        assert forall|i: int| 0 <= i < text.len() implies {
            let b = #[trigger] text[i];
            b != NEWLINE && b != COLON
        } by {
            if i < front.len() {
                assert(text[i] == front[i]);
            } else if i > front.len() {
                assert(text[i] == last[i - front.len() - 1]);
            }
        }
    }
}

/// A posting whose text is followed by a line feed reads back as itself.
proof fn lemma_last_pair_reads_back(p: Posting)
    ensures
        posting_of(pair_text(p.doc_id, p.term_freq) + seq![NEWLINE]) == Ok::<Posting, LoadError>(p),
        position(pair_text(p.doc_id, p.term_freq) + seq![NEWLINE], COMMA) == pair_text(
            p.doc_id,
            p.term_freq,
        ).len() + 1,
{
    let d = decimal(p.doc_id as nat);
    let f = decimal(p.term_freq as nat);
    let text = pair_text(p.doc_id, p.term_freq);
    let field = text + seq![NEWLINE];
    lemma_decimal_reads_back(p.doc_id as nat);
    lemma_decimal_reads_back(p.term_freq as nat);
    lemma_pair_text_bytes(p);
    assert forall|i: int| 0 <= i < field.len() implies field[i] != COMMA by {
        if i < text.len() {
            assert(field[i] == text[i]);
        }
    }
    lemma_position_none(field, COMMA);
    assert forall|i: int| 0 <= i < d.len() implies d[i] != PIPE by {
        assert(is_digit(d[i]));
    }
    assert(field =~= d + seq![PIPE] + (f + seq![NEWLINE]));
    lemma_position_after(d, PIPE, f + seq![NEWLINE]);
    assert(is_digit(d[0]) && is_digit(d.last()));
    assert(is_digit(f[0]) && is_digit(f.last()));
    crate::text::lemma_trim_nothing(d);
    let tail = f + seq![NEWLINE];
    assert(tail[0] == f[0]);
    assert(trim_start(tail) == tail);
    assert(tail.drop_last() =~= f);
    assert(trim_end(tail) == trim_end(f));
    assert(trim_end(f) == f);
}

/// Reading the text of a sorted list that is followed by a line feed, after
/// `acc`, gives `acc` and the list.
proof fn lemma_postings_line_reads_back(acc: Seq<Posting>, t: Seq<Posting>)
    requires
        t.len() > 0,
        strictly_increasing(acc + t),
    ensures
        postings_from(acc, postings_text(t) + seq![NEWLINE]) == Ok::<Seq<Posting>, LoadError>(
            acc + t,
        ),
    decreases t.len(),
{
    let first = pair_text(t[0].doc_id, t[0].term_freq);
    lemma_pair_reads_back(t[0]);
    lemma_pair_text_bytes(t[0]);
    assert(strictly_increasing(acc.push(t[0]))) by {
        let whole = acc + t;
        let part = acc.push(t[0]);
        assert forall|i: int, j: int| 0 <= i < j < part.len() implies part[i].doc_id
            < part[j].doc_id by {
            assert(part[i] == whole[i] && part[j] == whole[j]);
        }
    }
    lemma_with_posting_at_end(acc, t[0]);
    if t.len() == 1 {
        lemma_last_pair_reads_back(t[0]);
        assert(acc.push(t[0]) =~= acc + t);
    } else {
        let rest = t.drop_first();
        lemma_postings_text_front(t);
        assert(postings_text(t) + seq![NEWLINE] =~= first + seq![COMMA] + (postings_text(rest)
            + seq![NEWLINE]));
        lemma_position_after(first, COMMA, postings_text(rest) + seq![NEWLINE]);
        assert(acc.push(t[0]) + rest =~= acc + t);
        lemma_postings_line_reads_back(acc.push(t[0]), rest);
    }
}

/// The written line of a list reads back as the list, has its one line feed
/// at its end, and has the term of the list before its first `:`.
pub proof fn lemma_written_line(entry: (Seq<u8>, Seq<Posting>))
    requires
        is_writable(entry),
    ensures
        parsed_line(written_line(entry)) == Ok::<(Seq<u8>, Seq<Posting>), LoadError>(entry),
        position(written_line(entry), NEWLINE) == written_line(entry).len() - 1,
        key_of(written_line(entry)) == entry.0,
{
    reveal(is_writable);
    reveal(parsed_line);
    let line = written_line(entry);
    let tail = postings_text(entry.1) + seq![NEWLINE];
    assert(line =~= entry.0 + seq![COLON] + tail);
    lemma_position_after(entry.0, COLON, tail);
    assert(Seq::<Posting>::empty() + entry.1 =~= entry.1);
    lemma_postings_line_reads_back(Seq::empty(), entry.1);
    lemma_postings_text_bytes(entry.1);
    let body = line_text(entry.0, entry.1);
    assert forall|i: int| 0 <= i < body.len() implies body[i] != NEWLINE by {
        if i < entry.0.len() {
            assert(body[i] == entry.0[i]);
        } else if i > entry.0.len() {
            assert(body[i] == postings_text(entry.1)[i - entry.0.len() - 1]);
        }
    }
    assert(line =~= body + seq![NEWLINE] + Seq::<u8>::empty());
    lemma_position_after(body, NEWLINE, Seq::empty());
}

/// The text of a file begins with the line of its first list.
pub proof fn lemma_shard_text_front(lists: Seq<(Seq<u8>, Seq<Posting>)>)
    requires
        lists.len() > 0,
    ensures
        shard_text(lists) == written_line(lists[0]) + shard_text(lists.drop_first()),
    decreases lists.len(),
{
    let front = lists.drop_last();
    let back = lists.drop_first();
    if lists.len() == 1 {
        assert(shard_text(front) =~= Seq::<u8>::empty());
        assert(shard_text(back) =~= Seq::<u8>::empty());
        assert(shard_text(lists) =~= written_line(lists[0]) + shard_text(back));
    } else {
        lemma_shard_text_front(front);
        assert(front.drop_first() =~= back.drop_last());
        assert(front[0] == lists[0]);
        assert(back.last() == lists.last());
        assert(shard_text(lists) =~= written_line(lists[0]) + shard_text(back));
    }
}

/// A line of a text is a line of the text after any prefix, further on by
/// the length of the prefix.
proof fn lemma_shift_line(prefix: Seq<u8>, rest: Seq<u8>, k: int)
    requires
        0 <= k < rest.len(),
    ensures
        line_end(prefix + rest, prefix.len() + k) == prefix.len() + line_end(rest, k),
        (prefix + rest).subrange(prefix.len() + k, prefix.len() + line_end(rest, k))
            == rest.subrange(k, line_end(rest, k)),
        key_at(prefix + rest, prefix.len() + k) == key_at(rest, k),
{
    let whole = prefix + rest;
    assert(whole.skip(prefix.len() + k) =~= rest.skip(k));
    lemma_line_end(rest, k);
    assert(whole.subrange(prefix.len() + k, prefix.len() + line_end(rest, k)) =~= rest.subrange(
        k,
        line_end(rest, k),
    ));
}

/// A line start of a text is a line start of the text after any prefix.
proof fn lemma_shift_starts(prefix: Seq<u8>, rest: Seq<u8>, k: int, p: int)
    requires
        starts_line(rest, k, p),
    ensures
        starts_line(prefix + rest, prefix.len() + k, prefix.len() + p),
    decreases rest.len() - k,
{
    if p != k {
        lemma_shift_line(prefix, rest, k);
        lemma_line_end(rest, k);
        lemma_shift_starts(prefix, rest, line_end(rest, k), p);
    }
}

/// Terms that increase in a text increase in the text after any prefix.
proof fn lemma_shift_increase(prefix: Seq<u8>, rest: Seq<u8>, k: int)
    requires
        0 <= k,
        terms_increase(rest, k),
    ensures
        terms_increase(prefix + rest, prefix.len() + k),
    decreases rest.len() - k,
{
    if k < rest.len() {
        let next = line_end(rest, k);
        lemma_shift_line(prefix, rest, k);
        lemma_line_end(rest, k);
        if next < rest.len() {
            lemma_shift_line(prefix, rest, next);
            lemma_shift_increase(prefix, rest, next);
        }
    }
}

/// A text after any prefix gives the lists that it gives alone.
proof fn lemma_shift_readable(prefix: Seq<u8>, rest: Seq<u8>, k: int)
    requires
        0 <= k,
    ensures
        readable_lines(prefix + rest, prefix.len() + k) == readable_lines(rest, k),
    decreases rest.len() - k,
{
    if k < rest.len() {
        lemma_shift_line(prefix, rest, k);
        lemma_line_end(rest, k);
        lemma_shift_readable(prefix, rest, line_end(rest, k));
    }
}

/// The first line of a written file is the written line of its first list.
proof fn lemma_first_line(lists: Seq<(Seq<u8>, Seq<Posting>)>)
    requires
        lists.len() > 0,
        is_writable(lists[0]),
    ensures
        line_end(shard_text(lists), 0) == written_line(lists[0]).len(),
        shard_text(lists).subrange(0, written_line(lists[0]).len() as int) == written_line(
            lists[0],
        ),
        key_at(shard_text(lists), 0) == lists[0].0,
{
    let content = shard_text(lists);
    let line = written_line(lists[0]);
    let body = line_text(lists[0].0, lists[0].1);
    let rest = shard_text(lists.drop_first());
    lemma_shard_text_front(lists);
    lemma_written_line(lists[0]);
    lemma_position(line, NEWLINE);
    assert forall|i: int| 0 <= i < body.len() implies body[i] != NEWLINE by {
        assert(line[i] == body[i]);
    }
    assert(content =~= body + seq![NEWLINE] + rest);
    lemma_position_after(body, NEWLINE, rest);
    assert(content.skip(0) =~= content);
    assert(content.subrange(0, line.len() as int) =~= line);
}

/// The lists after the first of writable lists are writable.
proof fn lemma_rest_writable(lists: Seq<(Seq<u8>, Seq<Posting>)>)
    requires
        all_writable(lists),
        lists.len() > 0,
    ensures
        all_writable(lists.drop_first()),
        terms_sorted(lists) ==> terms_sorted(lists.drop_first()),
{
    let back = lists.drop_first();
    assert forall|i: int| 0 <= i < back.len() implies is_writable(#[trigger] back[i]) by {
        assert(back[i] == lists[i + 1]);
    }
    if terms_sorted(lists) {
        assert forall|i: int, j: int| 0 <= i < j < back.len() implies lex_lt(
            back[i].0,
            back[j].0,
        ) by {
            assert(back[i] == lists[i + 1] && back[j] == lists[j + 1]);
        }
    }
}

/// A written file reads back as the lists that were written.
pub proof fn lemma_written_file(lists: Seq<(Seq<u8>, Seq<Posting>)>)
    requires
        all_writable(lists),
    ensures
        readable_lines(shard_text(lists), 0) == lists,
    decreases lists.len(),
{
    let content = shard_text(lists);
    if lists.len() == 0 {
        assert(readable_lines(content, 0) =~= lists);
    } else {
        let line = written_line(lists[0]);
        let back = lists.drop_first();
        let rest = shard_text(back);
        lemma_rest_writable(lists);
        lemma_written_file(back);
        lemma_shard_text_front(lists);
        lemma_first_line(lists);
        lemma_written_line(lists[0]);
        lemma_shift_readable(line, rest, 0);
        assert(content.len() > 0);
        assert(readable_lines(content, line.len() as int) == back);
        assert(readable_lines(content, 0) == seq![lists[0]] + readable_lines(
            content,
            line_end(content, 0),
        ));
        assert(seq![lists[0]] + back =~= lists);
    }
}

/// Where the terms of the lists that are written increase, so do the terms
/// of the lines of the file.
pub proof fn lemma_written_file_sorted(lists: Seq<(Seq<u8>, Seq<Posting>)>)
    requires
        all_writable(lists),
        terms_sorted(lists),
    ensures
        terms_increase(shard_text(lists), 0),
    decreases lists.len(),
{
    let content = shard_text(lists);
    if lists.len() > 0 {
        let line = written_line(lists[0]);
        let back = lists.drop_first();
        let rest = shard_text(back);
        lemma_rest_writable(lists);
        lemma_written_file_sorted(back);
        lemma_shard_text_front(lists);
        lemma_first_line(lists);
        lemma_shift_increase(line, rest, 0);
        assert(line_end(content, 0) == line.len());
        assert(terms_increase(content, line.len() as int));
        if back.len() > 0 {
            lemma_first_line(back);
            assert(back[0] == lists[1]);
            assert(rest.len() > 0);
            lemma_shift_line(line, rest, 0);
            assert(key_at(content, line.len() as int) == lists[1].0);
            assert(key_at(content, 0) == lists[0].0);
            assert(lex_lt(lists[0].0, lists[1].0));
        } else {
            assert(rest =~= Seq::<u8>::empty());
            assert(content.len() == line.len());
        }
    }
}

/// The line of each list of a written file starts at its offset and reads
/// back as the list.
pub proof fn lemma_written_entry(lists: Seq<(Seq<u8>, Seq<Posting>)>, i: int)
    requires
        all_writable(lists),
        0 <= i < lists.len(),
    ensures
        starts_line(shard_text(lists), 0, line_offset(lists, i)),
        parsed_line(
            shard_text(lists).subrange(
                line_offset(lists, i),
                line_end(shard_text(lists), line_offset(lists, i)),
            ),
        ) == Ok::<(Seq<u8>, Seq<Posting>), LoadError>(lists[i]),
    decreases i,
{
    let line = written_line(lists[0]);
    let back = lists.drop_first();
    let rest = shard_text(back);
    lemma_shard_text_front(lists);
    lemma_first_line(lists);
    lemma_written_line(lists[0]);
    if i == 0 {
        assert(lists.take(0) =~= Seq::<(Seq<u8>, Seq<Posting>)>::empty());
    } else {
        lemma_rest_writable(lists);
        lemma_written_entry(back, i - 1);
        let inner = line_offset(back, i - 1);
        assert(lists.take(i).drop_first() =~= back.take(i - 1));
        assert(lists.take(i)[0] == lists[0]);
        lemma_shard_text_front(lists.take(i));
        assert(line_offset(lists, i) == line.len() + inner);
        lemma_shift_starts(line, rest, 0, inner);
        crate::skip_list_laws::lemma_starts_line_bounds(rest, 0, inner);
        lemma_shift_line(line, rest, inner);
        assert(back[i - 1] == lists[i]);
    }
}

/// Looking up the term of any list of a written file, through the skip list
/// of the file, finds the postings of that list: no more and no fewer.
pub proof fn lemma_lookup_in_written_file(lists: Seq<(Seq<u8>, Seq<Posting>)>, i: int)
    requires
        all_writable(lists),
        terms_sorted(lists),
        shard_text(lists).len() <= u64::MAX,
        0 <= i < lists.len(),
    ensures
        found_in(
            shard_text(lists),
            lookup(samples(shard_text(lists), 0, 0), lists[i].0),
            lists[i].0,
        ) == lists[i].1,
{
    lemma_written_file_sorted(lists);
    lemma_written_entry(lists, i);
    lemma_lookup_finds(shard_text(lists), line_offset(lists, i), lists[i].0, lists[i].1);
}

/// The shard file of an index reads back as the index, and has its terms in
/// increasing order, where no term of the index holds `:` or a line feed.
pub proof fn lemma_shard_file_reads_back(index: Seq<(Seq<u8>, Seq<Posting>)>)
    requires
        index_wf(index),
        forall|i: int, k: int|
            0 <= i < index.len() && 0 <= k < index[i].0.len() ==> index[i].0[k] != COLON
                && index[i].0[k] != NEWLINE,
    ensures
        readable_lines(shard_text(index), 0) == index,
        terms_increase(shard_text(index), 0),
{
    assert(all_writable(index)) by {
        reveal(is_writable);
        assert forall|i: int| 0 <= i < index.len() implies is_writable(#[trigger] index[i]) by {
            assert(is_index_entry(index[i]));
        }
    }
    lemma_written_file(index);
    lemma_written_file_sorted(index);
}

/// Every stream holds lists that can stand in a file.
pub open spec fn streams_writable(streams: Seq<Seq<(Seq<u8>, Seq<Posting>)>>) -> bool {
    forall|s: int| 0 <= s < streams.len() ==> all_writable(#[trigger] streams[s])
}

/// The terms of every stream increase strictly.
pub open spec fn streams_sorted(streams: Seq<Seq<(Seq<u8>, Seq<Posting>)>>) -> bool {
    forall|s: int| 0 <= s < streams.len() ==> terms_sorted(#[trigger] streams[s])
}

/// The head of every stream that has one comes after `term`.
pub open spec fn heads_after(streams: Seq<Seq<(Seq<u8>, Seq<Posting>)>>, term: Seq<u8>) -> bool {
    forall|s: int|
        0 <= s < streams.len() && (#[trigger] streams[s]).len() > 0 ==> lex_lt(
            term,
            streams[s][0].0,
        )
}

/// Postings that are read after a sorted `acc` are sorted and not empty.
proof fn lemma_postings_from_sorted(acc: Seq<Posting>, text: Seq<u8>)
    requires
        strictly_increasing(acc),
    ensures
        postings_from(acc, text) matches Ok(s) ==> s.len() > 0 && strictly_increasing(s),
    decreases text.len(),
{
    let k = position(text, COMMA) as int;
    lemma_position(text, COMMA);
    if k >= text.len() {
        if let Ok(p) = posting_of(text) {
            lemma_with_posting_increasing(acc, p);
        }
    } else {
        if let Ok(p) = posting_of(text.subrange(0, k)) {
            lemma_with_posting_increasing(acc, p);
            lemma_postings_from_sorted(with_posting(acc, p), text.skip(k + 1));
        }
    }
}

/// What a line of a file reads as can stand in a file.
proof fn lemma_parsed_is_writable(content: Seq<u8>, from: int)
    requires
        0 <= from < content.len(),
    ensures
        parsed_line(content.subrange(from, line_end(content, from))) matches Ok(entry)
            ==> is_writable(entry),
{
    reveal(is_writable);
    reveal(parsed_line);
    let line = content.subrange(from, line_end(content, from));
    lemma_line_end(content, from);
    lemma_position(content.skip(from), NEWLINE);
    lemma_position(line, COLON);
    if let Ok(entry) = parsed_line(line) {
        let k = position(line, COLON) as int;
        assert(entry.0 == line.subrange(0, k));
        assert forall|i: int| 0 <= i < entry.0.len() implies entry.0[i] != COLON && entry.0[i]
            != NEWLINE by {
            assert(entry.0[i] == line[i]);
            assert(line[i] == content.skip(from)[i]);
        }
        lemma_postings_from_sorted(Seq::empty(), line.skip(k + 1));
    }
}

/// The lists that a file gives can stand in a file.
pub proof fn lemma_readable_lines_writable(content: Seq<u8>, from: int)
    ensures
        all_writable(readable_lines(content, from)),
    decreases content.len() - from,
{
    if 0 <= from < content.len() {
        let next = line_end(content, from);
        lemma_line_end(content, from);
        lemma_parsed_is_writable(content, from);
        lemma_readable_lines_writable(content, next);
        let all = readable_lines(content, from);
        let rest = readable_lines(content, next);
        assert forall|i: int| 0 <= i < all.len() implies is_writable(#[trigger] all[i]) by {
            if i > 0 {
                assert(all[i] == rest[i - 1]);
            }
        }
    }
}

/// The union of the heads for a term is sorted, and is not empty if some
/// stream has a head for the term.
proof fn lemma_gathered(streams: Seq<Seq<(Seq<u8>, Seq<Posting>)>>, term: Seq<u8>)
    requires
        streams_writable(streams),
    ensures
        strictly_increasing(gathered(streams, term)),
        (exists|s: int| 0 <= s < streams.len() && streams[s].len() > 0 && streams[s][0].0 == term)
            ==> gathered(streams, term).len() > 0,
    decreases streams.len(),
{
    reveal(is_writable);
    if streams.len() > 0 {
        let front = streams.drop_last();
        let last = streams.len() - 1;
        assert(streams_writable(front)) by {
            assert forall|s: int| 0 <= s < front.len() implies all_writable(
                #[trigger] front[s],
            ) by {
                assert(front[s] == streams[s]);
            }
        }
        lemma_gathered(front, term);
        let stream = streams.last();
        assert(all_writable(streams[last]));
        if stream.len() > 0 && stream[0].0 == term {
            assert(is_writable(stream[0]));
            lemma_merged_increasing(gathered(front, term), stream[0].1);
            lemma_merged_len(gathered(front, term), stream[0].1);
        } else if exists|s: int|
            0 <= s < streams.len() && streams[s].len() > 0 && streams[s][0].0 == term {
            let s = choose|s: int|
                0 <= s < streams.len() && streams[s].len() > 0 && streams[s][0].0 == term;
            assert(front[s] == streams[s]);
        }
    }
}

/// Moving on keeps the streams writable and sorted, and leaves every head
/// after the least term that was taken.
proof fn lemma_advanced_keeps(streams: Seq<Seq<(Seq<u8>, Seq<Posting>)>>, term: Seq<u8>)
    requires
        least_head(streams) == Some(term),
    ensures
        streams_writable(streams) ==> streams_writable(advanced(streams, term)),
        streams_sorted(streams) ==> streams_sorted(advanced(streams, term)) && heads_after(
            advanced(streams, term),
            term,
        ),
{
    let next = advanced(streams, term);
    lemma_least_head_is_head(streams);
    if streams_writable(streams) {
        assert forall|s: int| 0 <= s < next.len() implies all_writable(#[trigger] next[s]) by {
            assert(all_writable(streams[s]));
            assert forall|i: int| 0 <= i < next[s].len() implies is_writable(
                #[trigger] next[s][i],
            ) by {
                if streams[s].len() > 0 && streams[s][0].0 == term {
                    assert(next[s][i] == streams[s][i + 1]);
                }
            }
        }
    }
    if streams_sorted(streams) {
        assert forall|s: int| 0 <= s < next.len() implies terms_sorted(#[trigger] next[s]) by {
            assert(terms_sorted(streams[s]));
            assert forall|i: int, j: int| 0 <= i < j < next[s].len() implies lex_lt(
                next[s][i].0,
                next[s][j].0,
            ) by {
                if streams[s].len() > 0 && streams[s][0].0 == term {
                    assert(next[s][i] == streams[s][i + 1] && next[s][j] == streams[s][j + 1]);
                }
            }
        }
        assert forall|s: int| 0 <= s < next.len() && (#[trigger] next[s]).len() > 0 implies lex_lt(
            term,
            next[s][0].0,
        ) by {
            assert(terms_sorted(streams[s]));
            if streams[s].len() > 0 && streams[s][0].0 == term {
                assert(next[s][0] == streams[s][1]);
                assert(lex_lt(streams[s][0].0, streams[s][1].0));
            } else {
                assert(next[s] == streams[s]);
                lemma_lex_total(term, streams[s][0].0);
            }
        }
    }
}

/// Where every head comes after a term, so does every term of the merge.
proof fn lemma_kway_after(streams: Seq<Seq<(Seq<u8>, Seq<Posting>)>>, term: Seq<u8>)
    requires
        streams_sorted(streams),
        heads_after(streams, term),
    ensures
        forall|i: int| 0 <= i < kway(streams).len() ==> lex_lt(term, (#[trigger] kway(streams)[i]).0),
    decreases remaining(streams),
{
    if let Some(least) = least_head(streams) {
        lemma_least_head_is_head(streams);
        let s = choose|s: int|
            0 <= s < streams.len() && streams[s].len() > 0 && streams[s][0].0 == least;
        lemma_advanced_is_less(streams, least, s);
        lemma_advanced_keeps(streams, least);
        let next = advanced(streams, least);
        assert(lex_lt(term, least));
        assert(heads_after(next, term)) by {
            assert forall|k: int| 0 <= k < next.len() && (#[trigger] next[k]).len() > 0 implies lex_lt(
                term,
                next[k][0].0,
            ) by {
                lemma_lex_transitive(term, least, next[k][0].0);
            }
        }
        lemma_kway_after(next, term);
        let all = kway(streams);
        let rest = kway(next);
        assert forall|i: int| 0 <= i < all.len() implies lex_lt(term, (#[trigger] all[i]).0) by {
            if i > 0 {
                assert(all[i] == rest[i - 1]);
            }
        }
    }
}

/// The merge of sorted streams is sorted: its terms increase strictly, so
/// that every term has one list.
pub proof fn lemma_kway_sorted(streams: Seq<Seq<(Seq<u8>, Seq<Posting>)>>)
    requires
        streams_sorted(streams),
    ensures
        terms_sorted(kway(streams)),
    decreases remaining(streams),
{
    if let Some(least) = least_head(streams) {
        lemma_least_head_is_head(streams);
        let s = choose|s: int|
            0 <= s < streams.len() && streams[s].len() > 0 && streams[s][0].0 == least;
        lemma_advanced_is_less(streams, least, s);
        lemma_advanced_keeps(streams, least);
        let next = advanced(streams, least);
        lemma_kway_sorted(next);
        lemma_kway_after(next, least);
        let all = kway(streams);
        let rest = kway(next);
        assert forall|i: int, j: int| 0 <= i < j < all.len() implies lex_lt(all[i].0, all[j].0) by {
            assert(all[j] == rest[j - 1]);
            if i > 0 {
                assert(all[i] == rest[i - 1]);
            }
        }
    }
}

/// The lists of a merge of writable streams can stand in a file.
pub proof fn lemma_kway_writable(streams: Seq<Seq<(Seq<u8>, Seq<Posting>)>>)
    requires
        streams_writable(streams),
    ensures
        all_writable(kway(streams)),
    decreases remaining(streams),
{
    if let Some(least) = least_head(streams) {
        lemma_least_head_is_head(streams);
        let s = choose|s: int|
            0 <= s < streams.len() && streams[s].len() > 0 && streams[s][0].0 == least;
        lemma_advanced_is_less(streams, least, s);
        lemma_advanced_keeps(streams, least);
        let next = advanced(streams, least);
        lemma_kway_writable(next);
        lemma_gathered(streams, least);
        assert(all_writable(streams[s]));
        assert(is_writable(streams[s][0]));
        assert(is_writable((least, gathered(streams, least)))) by {
            reveal(is_writable);
        }
        let all = kway(streams);
        let rest = kway(next);
        assert forall|i: int| 0 <= i < all.len() implies is_writable(#[trigger] all[i]) by {
            if i > 0 {
                assert(all[i] == rest[i - 1]);
            }
        }
    }
}

/// Each merged file holds the lines of a run of the lists: `run.0` is the
/// number of the first list of file `f` and `run.1` the number after its
/// last. The last file runs up to the last list.
pub proof fn lemma_merged_file_is_run(lists: Seq<(Seq<u8>, Seq<Posting>)>, f: int) -> (run: (
    int,
    int,
))
    requires
        0 <= f < merged_files(lists).len(),
    ensures
        0 <= run.0 < run.1 <= lists.len(),
        merged_files(lists)[f].1 == shard_text(lists.subrange(run.0, run.1)),
        f == merged_files(lists).len() - 1 ==> run.1 == lists.len(),
    decreases lists.len(),
{
    let front = lists.drop_last();
    let before = merged_files(front);
    let files = merged_files(lists);
    let n = lists.len() as int;
    let line = written_line(lists.last());
    let extends = before.len() > 0 && before.last().0 == crate::lazy_merger::leading_character(
        lists.last().0,
    );
    if f < files.len() - 1 {
        assert(files[f] == before[f]);
        let run = lemma_merged_file_is_run(front, f);
        assert(front.subrange(run.0, run.1) =~= lists.subrange(run.0, run.1));
        run
    } else if extends {
        let run = lemma_merged_file_is_run(front, f);
        let wide = lists.subrange(run.0, n);
        assert(wide.drop_last() =~= front.subrange(run.0, run.1));
        assert(wide.last() == lists.last());
        assert(files[f].1 =~= shard_text(wide));
        (run.0, n)
    } else {
        let single = lists.subrange(n - 1, n);
        assert(single.drop_last() =~= Seq::<(Seq<u8>, Seq<Posting>)>::empty());
        assert(single.last() == lists.last());
        assert(shard_text(single.drop_last()) =~= Seq::<u8>::empty());
        assert(files[f].1 =~= shard_text(single));
        (n - 1, n)
    }
}

/// A query finds what the merger wrote. Where the streams that are merged
/// are sorted by term, looking up the term of any list of the merge,
/// through the skip list of the merged file that holds its line, finds the
/// postings of that list, no more and no fewer.
pub proof fn lemma_lookup_in_merged_file(
    streams: Seq<Seq<(Seq<u8>, Seq<Posting>)>>,
    f: int,
    i: int,
) -> (run: (int, int))
    requires
        streams_writable(streams),
        streams_sorted(streams),
        0 <= f < merged_files(kway(streams)).len(),
        merged_files(kway(streams))[f].1.len() <= u64::MAX,
    ensures
        0 <= run.0 < run.1 <= kway(streams).len(),
        merged_files(kway(streams))[f].1 == shard_text(kway(streams).subrange(run.0, run.1)),
        run.0 <= i < run.1 ==> found_in(
            merged_files(kway(streams))[f].1,
            lookup(samples(merged_files(kway(streams))[f].1, 0, 0), kway(streams)[i].0),
            kway(streams)[i].0,
        ) == kway(streams)[i].1,
{
    let lists = kway(streams);
    lemma_kway_sorted(streams);
    lemma_kway_writable(streams);
    let run = lemma_merged_file_is_run(lists, f);
    let part = lists.subrange(run.0, run.1);
    assert(all_writable(part)) by {
        assert forall|k: int| 0 <= k < part.len() implies is_writable(#[trigger] part[k]) by {
            assert(part[k] == lists[run.0 + k]);
        }
    }
    assert(terms_sorted(part)) by {
        assert forall|a: int, b: int| 0 <= a < b < part.len() implies lex_lt(
            part[a].0,
            part[b].0,
        ) by {
            assert(part[a] == lists[run.0 + a] && part[b] == lists[run.0 + b]);
        }
    }
    if run.0 <= i < run.1 {
        lemma_lookup_in_written_file(part, i - run.0);
        assert(part[i - run.0] == lists[i]);
    }
    run
}

} // verus!
