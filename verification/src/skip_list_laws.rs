//! What holds of skip lists: the samples of a sorted merged file are in
//! order, a look-up through them finds exactly the postings of a term, the
//! samples can be taken line by line, and a skip list that is written reads
//! back as it was.

use vstd::prelude::*;
use crate::file_skip_list::{
    entries_from, entry_of, entry_text, first_not_before, found_in, key_at, key_of, line_end,
    lookup, samples, scanned, sidecar_text, PARTITION,
};
use crate::postings::{lemma_merged_with_empty, merged, parsed_line, LoadError};
use crate::single_posting::Posting;
use crate::text::{
    decimal, is_digit, lemma_decimal_reads_back, lemma_lex_irreflexive, lemma_lex_le_transitive,
    lemma_lex_total, lemma_lex_transitive, lemma_position, lemma_position_after,
    lemma_position_none, lex_le, lex_lt, position, trim, COLON, COMMA, NEWLINE,
};

verus! {

/// Whether a line starts at offset `p`, among the lines from the one that
/// starts at `from` on.
pub open spec fn starts_line(content: Seq<u8>, from: int, p: int) -> bool
    decreases content.len() - from,
{
    if from < 0 || from >= content.len() {
        false
    } else if p == from {
        true
    } else {
        starts_line(content, line_end(content, from), p)
    }
}

/// From the line at `from` on, no line has a term before that of the line
/// above it.
pub open spec fn terms_ascend(content: Seq<u8>, from: int) -> bool
    decreases content.len() - from,
{
    if from < 0 || from >= content.len() {
        true
    } else {
        let next = line_end(content, from);
        next >= content.len() || (lex_le(key_at(content, from), key_at(content, next))
            && terms_ascend(content, next))
    }
}

/// From the line at `from` on, each line has a term after that of the line
/// above it: the file is sorted and holds no term twice.
pub open spec fn terms_increase(content: Seq<u8>, from: int) -> bool
    decreases content.len() - from,
{
    if from < 0 || from >= content.len() {
        true
    } else {
        let next = line_end(content, from);
        next >= content.len() || (lex_lt(key_at(content, from), key_at(content, next))
            && terms_increase(content, next))
    }
}

/// A line is not empty and ends inside the file.
pub proof fn lemma_line_end(content: Seq<u8>, from: int)
    requires
        0 <= from < content.len(),
    ensures
        from < line_end(content, from) <= content.len(),
{
    lemma_position(content.skip(from), NEWLINE);
}

/// A file without a repeated term is sorted.
pub proof fn lemma_increase_is_ascend(content: Seq<u8>, from: int)
    requires
        terms_increase(content, from),
    ensures
        terms_ascend(content, from),
    decreases content.len() - from,
{
    if 0 <= from < content.len() {
        lemma_line_end(content, from);
        lemma_increase_is_ascend(content, line_end(content, from));
    }
}

/// A line start lies inside the file, not before the line counted from.
pub proof fn lemma_starts_line_bounds(content: Seq<u8>, from: int, p: int)
    requires
        starts_line(content, from, p),
    ensures
        0 <= from <= p < content.len(),
    decreases content.len() - from,
{
    if p != from {
        lemma_line_end(content, from);
        lemma_starts_line_bounds(content, line_end(content, from), p);
    }
}

/// Of two line starts the later one is a line start counted from the
/// earlier one.
proof fn lemma_starts_line_chain(content: Seq<u8>, from: int, p: int, q: int)
    requires
        starts_line(content, from, p),
        starts_line(content, from, q),
        p <= q,
    ensures
        starts_line(content, p, q),
    decreases content.len() - from,
{
    lemma_starts_line_bounds(content, from, p);
    if p != from {
        lemma_line_end(content, from);
        lemma_starts_line_chain(content, line_end(content, from), p, q);
    }
}

/// The lines after a line start of a sorted file are sorted, and their
/// terms are not before the term at the start counted from.
proof fn lemma_ascend_from(content: Seq<u8>, from: int, p: int)
    requires
        terms_ascend(content, from),
        starts_line(content, from, p),
    ensures
        terms_ascend(content, p),
        lex_le(key_at(content, from), key_at(content, p)),
    decreases content.len() - from,
{
    if p != from {
        let next = line_end(content, from);
        lemma_line_end(content, from);
        lemma_starts_line_bounds(content, next, p);
        lemma_ascend_from(content, next, p);
        lemma_lex_le_transitive(key_at(content, from), key_at(content, next), key_at(content, p));
    }
}

/// The same for a file without a repeated term: a later line has a later
/// term.
proof fn lemma_increase_from(content: Seq<u8>, from: int, p: int)
    requires
        terms_increase(content, from),
        starts_line(content, from, p),
    ensures
        terms_increase(content, p),
        p != from ==> lex_lt(key_at(content, from), key_at(content, p)),
    decreases content.len() - from,
{
    if p != from {
        let next = line_end(content, from);
        lemma_line_end(content, from);
        lemma_starts_line_bounds(content, next, p);
        lemma_increase_from(content, next, p);
        if p != next {
            lemma_lex_transitive(key_at(content, from), key_at(content, next), key_at(content, p));
        }
    }
}

/// Every sample is the term and the offset of a line start, and the offsets
/// of the samples increase strictly.
pub proof fn lemma_samples_are_lines(content: Seq<u8>, from: int, index: nat)
    requires
        content.len() <= u64::MAX,
    ensures
        forall|i: int|
            0 <= i < samples(content, from, index).len() ==> {
                let entry = #[trigger] samples(content, from, index)[i];
                &&& starts_line(content, from, entry.1 as int)
                &&& entry.0 == key_at(content, entry.1 as int)
            },
        forall|i: int, j: int|
            0 <= i < j < samples(content, from, index).len() ==> samples(content, from, index)[i].1
                < samples(content, from, index)[j].1,
    decreases content.len() - from,
{
    if 0 <= from < content.len() {
        let next = line_end(content, from);
        lemma_line_end(content, from);
        lemma_samples_are_lines(content, next, index + 1);
        let all = samples(content, from, index);
        let rest = samples(content, next, index + 1);
        assert forall|i: int| 0 <= i < rest.len() implies from < (#[trigger] rest[i]).1 by {
            lemma_starts_line_bounds(content, next, rest[i].1 as int);
        }
        if index % PARTITION as nat == 0 {
            assert forall|i: int| 0 <= i < all.len() implies {
                let entry = #[trigger] all[i];
                &&& starts_line(content, from, entry.1 as int)
                &&& entry.0 == key_at(content, entry.1 as int)
            } by {
                if i > 0 {
                    assert(all[i] == rest[i - 1]);
                }
            }
            assert forall|i: int, j: int| 0 <= i < j < all.len() implies all[i].1 < all[j].1 by {
                assert(all[j] == rest[j - 1]);
                if i > 0 {
                    assert(all[i] == rest[i - 1]);
                }
            }
        }
    }
}

/// The samples of a sorted file are in order: their terms do not decrease
/// and their offsets increase strictly.
pub proof fn lemma_samples_in_order(content: Seq<u8>, i: int, j: int)
    requires
        content.len() <= u64::MAX,
        terms_ascend(content, 0),
        0 <= i < j < samples(content, 0, 0).len(),
    ensures
        lex_le(samples(content, 0, 0)[i].0, samples(content, 0, 0)[j].0),
        samples(content, 0, 0)[i].1 < samples(content, 0, 0)[j].1,
{
    let all = samples(content, 0, 0);
    lemma_samples_are_lines(content, 0, 0);
    let p = all[i].1 as int;
    let q = all[j].1 as int;
    lemma_starts_line_chain(content, 0, p, q);
    lemma_ascend_from(content, 0, p);
    lemma_ascend_from(content, p, q);
}

/// The samples before `first_not_before` have terms before `target`; the
/// sample there, if there is one, has not.
proof fn lemma_first_not_before(list: Seq<(Seq<u8>, u64)>, target: Seq<u8>)
    ensures
        first_not_before(list, target) <= list.len(),
        forall|i: int| 0 <= i < first_not_before(list, target) ==> lex_lt(list[i].0, target),
        first_not_before(list, target) < list.len() ==> !lex_lt(
            list[first_not_before(list, target) as int].0,
            target,
        ),
    decreases list.len(),
{
    if list.len() > 0 && lex_lt(list[0].0, target) {
        let rest = list.drop_first();
        lemma_first_not_before(rest, target);
        assert forall|i: int| 0 <= i < first_not_before(list, target) implies lex_lt(
            list[i].0,
            target,
        ) by {
            if i > 0 {
                assert(list[i] == rest[i - 1]);
            }
        }
        if first_not_before(list, target) < list.len() {
            assert(list[first_not_before(list, target) as int] == rest[first_not_before(
                rest,
                target,
            ) as int]);
        }
    }
}

/// A line that reads as a postings list has the term of the list.
proof fn lemma_parsed_term(line: Seq<u8>)
    ensures
        parsed_line(line) matches Ok((term, list)) ==> term == key_of(line),
{
    reveal(parsed_line);
}

/// A scan that starts at a line whose term is after `target`, in a file
/// without repeated terms, finds nothing more.
proof fn lemma_scan_past(
    content: Seq<u8>,
    from: int,
    until: int,
    target: Seq<u8>,
    acc: Seq<Posting>,
)
    requires
        terms_increase(content, from),
        0 <= from < content.len() ==> lex_lt(target, key_at(content, from)),
    ensures
        scanned(content, from, until, target, acc) == acc,
    decreases content.len() - from,
{
    if 0 <= from < content.len() && from < until {
        let next = line_end(content, from);
        lemma_line_end(content, from);
        lemma_parsed_term(content.subrange(from, next));
        lemma_lex_irreflexive(target);
        if next < content.len() {
            lemma_lex_transitive(target, key_at(content, from), key_at(content, next));
        }
        lemma_scan_past(content, next, until, target, acc);
    }
}

/// A scan over a stretch of a file without repeated terms that includes the
/// line of `target` finds the postings of that line and nothing else.
proof fn lemma_scan_finds(
    content: Seq<u8>,
    from: int,
    until: int,
    p: int,
    target: Seq<u8>,
    list: Seq<Posting>,
)
    requires
        terms_increase(content, from),
        starts_line(content, from, p),
        p < until,
        parsed_line(content.subrange(p, line_end(content, p))) == Ok::<
            (Seq<u8>, Seq<Posting>),
            LoadError,
        >((target, list)),
    ensures
        scanned(content, from, until, target, Seq::empty()) == list,
    decreases content.len() - from,
{
    let next = line_end(content, from);
    lemma_line_end(content, from);
    lemma_starts_line_bounds(content, from, p);
    lemma_parsed_term(content.subrange(p, line_end(content, p)));
    if p == from {
        lemma_merged_with_empty(list);
        if next < content.len() {
            assert(lex_lt(target, key_at(content, next)));
        }
        lemma_scan_past(content, next, until, target, list);
    } else {
        lemma_increase_from(content, from, p);
        lemma_parsed_term(content.subrange(from, next));
        lemma_lex_irreflexive(target);
        lemma_scan_finds(content, next, until, p, target, list);
    }
}

/// Looking a term up through the skip list finds its postings: in a merged
/// file without repeated terms, for a term that has a line in it, the scan
/// of the range that the skip list of the file gives for the term returns
/// the postings of that line, no more and no fewer.
pub proof fn lemma_lookup_finds(content: Seq<u8>, p: int, target: Seq<u8>, list: Seq<Posting>)
    requires
        content.len() <= u64::MAX,
        terms_increase(content, 0),
        starts_line(content, 0, p),
        parsed_line(content.subrange(p, line_end(content, p))) == Ok::<
            (Seq<u8>, Seq<Posting>),
            LoadError,
        >((target, list)),
    ensures
        found_in(content, lookup(samples(content, 0, 0), target), target) == list,
{
    let all = samples(content, 0, 0);
    let k = first_not_before(all, target) as int;
    lemma_starts_line_bounds(content, 0, p);
    lemma_parsed_term(content.subrange(p, line_end(content, p)));
    lemma_samples_are_lines(content, 0, 0);
    lemma_first_not_before(all, target);
    lemma_line_end(content, 0);
    assert(all.len() > 0 && all[0].1 == 0);
    lemma_increase_from(content, 0, p);
    lemma_lex_irreflexive(target);
    if k >= all.len() {
        let q = all.last().1 as int;
        assert(lex_lt(all[all.len() - 1].0, target));
        lemma_before_by_term(content, q, p);
        lemma_starts_line_chain(content, 0, q, p);
        lemma_increase_from(content, 0, q);
        lemma_scan_finds(content, q, content.len() as int, p, target, list);
    } else {
        let q = all[k].1 as int;
        lemma_lex_total(all[k].0, target);
        if all[k].0 == target {
            if q < p {
                lemma_starts_line_chain(content, 0, q, p);
                lemma_increase_from(content, 0, q);
                lemma_increase_from(content, q, p);
            } else if p < q {
                lemma_starts_line_chain(content, 0, p, q);
                lemma_increase_from(content, p, q);
            }
            assert(q == p);
            lemma_scan_finds(content, p, p + 1, p, target, list);
        } else {
            assert(lex_lt(target, all[k].0));
            if k == 0 {
                lemma_lex_total(target, key_at(content, 0));
                if p != 0 {
                    lemma_lex_transitive(target, key_at(content, 0), target);
                }
                assert(false);
            } else {
                let low = all[k - 1].1 as int;
                assert(lex_lt(all[k - 1].0, target));
                lemma_before_by_term(content, low, p);
                lemma_before_by_term(content, p, q);
                lemma_starts_line_chain(content, 0, low, p);
                lemma_increase_from(content, 0, low);
                lemma_scan_finds(content, low, q, p, target, list);
            }
        }
    }
}

/// In a file without repeated terms, a line with an earlier term starts
/// earlier.
proof fn lemma_before_by_term(content: Seq<u8>, p: int, q: int)
    requires
        terms_increase(content, 0),
        starts_line(content, 0, p),
        starts_line(content, 0, q),
        lex_lt(key_at(content, p), key_at(content, q)),
    ensures
        p < q,
{
    lemma_lex_irreflexive(key_at(content, p));
    if q < p {
        lemma_starts_line_chain(content, 0, q, p);
        lemma_increase_from(content, 0, q);
        lemma_increase_from(content, q, p);
        lemma_lex_total(key_at(content, p), key_at(content, q));
    }
}

/// The number of lines from the one that starts at `from` on.
pub open spec fn line_count(content: Seq<u8>, from: int) -> nat
    decreases content.len() - from,
{
    if from < 0 || from >= content.len() {
        0
    } else {
        1 + line_count(content, line_end(content, from))
    }
}

/// Whether `content` ends with the end of a line: it is empty or its last
/// byte is a line feed.
pub open spec fn ends_lines(content: Seq<u8>) -> bool {
    content.len() == 0 || content.last() == NEWLINE
}

/// Whether `line` is one line: not empty, and with no line feed but
/// possibly at its end.
pub open spec fn is_one_line(line: Seq<u8>) -> bool {
    line.len() > 0 && position(line, NEWLINE) >= line.len() - 1
}

/// A file has no more lines than bytes.
pub proof fn lemma_line_count_bound(content: Seq<u8>, from: int)
    requires
        0 <= from <= content.len(),
    ensures
        line_count(content, from) <= content.len() - from,
    decreases content.len() - from,
{
    if from < content.len() {
        lemma_line_end(content, from);
        lemma_line_count_bound(content, line_end(content, from));
    }
}

/// Adding a line to a file that ends with the end of a line adds one line,
/// and adds its sample if its number is a multiple of `PARTITION`.
pub proof fn lemma_samples_appended(content: Seq<u8>, line: Seq<u8>, from: int, index: nat)
    requires
        ends_lines(content),
        is_one_line(line),
        0 <= from <= content.len(),
        from == content.len() || starts_line(content, from, from),
    ensures
        line_count(content + line, from) == line_count(content, from) + 1,
        samples(content + line, from, index) == samples(content, from, index) + (if (index
            + line_count(content, from)) % PARTITION as nat == 0 {
            seq![(key_of(line), content.len() as u64)]
        } else {
            Seq::empty()
        }),
    decreases content.len() - from,
{
    let whole = content + line;
    if from == content.len() {
        assert(whole.skip(from) =~= line);
        lemma_position(line, NEWLINE);
        assert(line_end(whole, from) == whole.len());
        assert(whole.subrange(from, whole.len() as int) =~= line);
        assert(samples(whole, whole.len() as int, index + 1) =~= Seq::<(Seq<u8>, u64)>::empty());
        assert(samples(content, from, index) =~= Seq::<(Seq<u8>, u64)>::empty());
        assert(line_count(whole, whole.len() as int) == 0);
    } else {
        let here = content.skip(from);
        lemma_position(here, NEWLINE);
        let k = position(here, NEWLINE) as int;
        assert(k < here.len()) by {
            if k >= here.len() {
                assert(here[here.len() - 1] == content.last());
            }
        }
        let there = whole.skip(from);
        assert forall|i: int| 0 <= i < k implies there[i] != NEWLINE by {
            assert(there[i] == here[i]);
        }
        assert(there[k] == here[k]);
        crate::text::lemma_position_unique(there, NEWLINE, k);
        let next = line_end(content, from);
        assert(line_end(whole, from) == next);
        assert(whole.subrange(from, next) =~= content.subrange(from, next));
        lemma_samples_appended(content, line, next, index + 1);
        let tail = if (index + 1 + line_count(content, next)) % PARTITION as nat == 0 {
            seq![(key_of(line), content.len() as u64)]
        } else {
            Seq::<(Seq<u8>, u64)>::empty()
        };
        if index % PARTITION as nat == 0 {
            assert(samples(whole, from, index) =~= samples(content, from, index) + tail);
        }
    }
}

/// A sample as it can stand in a skip-list file and be read back: its term
/// has no blank at either end and holds neither `,` nor `:`.
pub open spec fn is_plain_sample(entry: (Seq<u8>, u64)) -> bool {
    &&& trim(entry.0) == entry.0
    &&& forall|i: int| 0 <= i < entry.0.len() ==> entry.0[i] != COMMA && entry.0[i] != COLON
}

/// The text of a plain sample holds no comma and reads back as the sample.
proof fn lemma_entry_reads_back(entry: (Seq<u8>, u64))
    requires
        is_plain_sample(entry),
    ensures
        entry_of(entry_text(entry)) == Some(entry),
        forall|i: int| 0 <= i < entry_text(entry).len() ==> entry_text(entry)[i] != COMMA,
        entry_text(entry).len() > 0,
{
    let digits = decimal(entry.1 as nat);
    let text = entry_text(entry);
    lemma_decimal_reads_back(entry.1 as nat);
    lemma_position_after(entry.0, COLON, digits);
    assert forall|i: int| 0 <= i < text.len() implies text[i] != COMMA by {
        if i < entry.0.len() {
            assert(text[i] == entry.0[i]);
        } else if i > entry.0.len() {
            assert(text[i] == digits[i - entry.0.len() - 1]);
            assert(is_digit(digits[i - entry.0.len() - 1]));
        }
    }
    assert(is_digit(digits[0]));
}

/// The text of two or more samples begins with the text of the first and a
/// comma.
proof fn lemma_sidecar_text_front(list: Seq<(Seq<u8>, u64)>)
    requires
        list.len() >= 2,
    ensures
        sidecar_text(list) == entry_text(list[0]) + seq![COMMA] + sidecar_text(list.drop_first()),
    decreases list.len(),
{
    let front = list.drop_last();
    let back = list.drop_first();
    if list.len() == 2 {
        assert(front.len() == 1 && back.len() == 1);
        assert(front[0] == list[0] && back[0] == list.last());
        assert(sidecar_text(front) == entry_text(list[0]));
        assert(sidecar_text(back) == entry_text(list.last()));
    } else {
        lemma_sidecar_text_front(front);
        assert(front.drop_first() =~= back.drop_last());
        assert(sidecar_text(list) =~= entry_text(list[0]) + seq![COMMA] + sidecar_text(back));
    }
}

/// A skip list that is written and read again is the same skip list, where
/// every sample of it is plain.
pub proof fn lemma_sidecar_reads_back(list: Seq<(Seq<u8>, u64)>)
    requires
        forall|i: int| 0 <= i < list.len() ==> is_plain_sample(#[trigger] list[i]),
    ensures
        entries_from(sidecar_text(list)) == list,
    decreases list.len(),
{
    if list.len() == 0 {
        assert(entries_from(sidecar_text(list)) =~= list);
    } else {
        let first = entry_text(list[0]);
        lemma_entry_reads_back(list[0]);
        if list.len() == 1 {
            lemma_position_none(first, COMMA);
            assert(entries_from(first) =~= list);
        } else {
            let back = list.drop_first();
            assert forall|i: int| 0 <= i < back.len() implies is_plain_sample(
                #[trigger] back[i],
            ) by {
                assert(back[i] == list[i + 1]);
            }
            lemma_sidecar_reads_back(back);
            lemma_sidecar_text_front(list);
            lemma_position_after(first, COMMA, sidecar_text(back));
            assert(seq![list[0]] + back =~= list);
        }
    }
}

} // verus!
