//! The postings list of one term: its postings in strictly increasing
//! document order, with insertion, frequency counting, merging and the
//! one-line text form `term:doc|freq,doc|freq,...`.

use vstd::prelude::*;
use vstd::slice::{slice_subrange, slice_to_vec};
use vstd::string::StrSliceExecFns;
use vstd::utf8::{encode_utf8, valid_utf8};
use crate::single_posting::{add_frequencies, saturating_sum, Posting};
use crate::text::{
    append_decimal, bounded_numeral, decimal, find_byte, is_digit, lemma_ascii_is_valid,
    lemma_decimal_reads_back, lemma_position_after, lemma_position_none, lemma_trim_nothing,
    parse_numeral, position, string_from_utf8, text_of_bytes, trim, trim_range, COLON, COMMA,
    PIPE,
};

verus! {

/// Document ids grow strictly along `s`, so no document occurs twice.
pub open spec fn strictly_increasing(s: Seq<Posting>) -> bool {
    forall|i: int, j: int| 0 <= i < j < s.len() ==> s[i].doc_id < s[j].doc_id
}

/// Whether `s` holds a posting for document `doc`.
pub open spec fn has_doc(s: Seq<Posting>, doc: u16) -> bool {
    exists|i: int| 0 <= i < s.len() && #[trigger] s[i].doc_id == doc
}

/// The frequency that `s` records for document `doc`; 0 where it records
/// none.
pub open spec fn frequency_of(s: Seq<Posting>, doc: u16) -> u16
    decreases s.len(),
{
    if s.len() == 0 {
        0
    } else if s[0].doc_id == doc {
        s[0].term_freq
    } else {
        frequency_of(s.drop_first(), doc)
    }
}

/// How many postings at the front of `s` are for documents before `doc`.
/// In a sorted list this is the place where `doc` is, or belongs.
pub open spec fn rank_of(s: Seq<Posting>, doc: u16) -> nat
    decreases s.len(),
{
    if s.len() == 0 || s[0].doc_id >= doc {
        0
    } else {
        1 + rank_of(s.drop_first(), doc)
    }
}

/// `s` with `p` put in its place: instead of the posting of the same
/// document if there is one, else between its neighbours.
pub open spec fn with_posting(s: Seq<Posting>, p: Posting) -> Seq<Posting> {
    let k = rank_of(s, p.doc_id) as int;
    if k < s.len() && s[k].doc_id == p.doc_id {
        s.update(k, p)
    } else {
        s.insert(k, p)
    }
}

/// `s` after one more occurrence in document `doc`: its frequency goes up
/// by one (saturating), or a posting with frequency 1 is put in.
pub open spec fn with_occurrence(s: Seq<Posting>, doc: u16) -> Seq<Posting> {
    let k = rank_of(s, doc) as int;
    if k < s.len() && s[k].doc_id == doc {
        s.update(k, Posting { doc_id: doc, term_freq: saturating_sum(s[k].term_freq, 1) })
    } else {
        s.insert(k, Posting { doc_id: doc, term_freq: 1 })
    }
}

/// The union of two sorted lists by document. A document that both hold
/// gets the sum of its two frequencies (saturating).
pub open spec fn merged(a: Seq<Posting>, b: Seq<Posting>) -> Seq<Posting>
    decreases a.len() + b.len(),
{
    if a.len() == 0 {
        b
    } else if b.len() == 0 {
        a
    } else if a[0].doc_id < b[0].doc_id {
        seq![a[0]] + merged(a.drop_first(), b)
    } else if b[0].doc_id < a[0].doc_id {
        seq![b[0]] + merged(a, b.drop_first())
    } else {
        seq![
            Posting {
                doc_id: a[0].doc_id,
                term_freq: saturating_sum(a[0].term_freq, b[0].term_freq),
            },
        ] + merged(a.drop_first(), b.drop_first())
    }
}

/// In a strictly increasing list the posting at index `i` is for a document
/// numbered at least `i`; so such a list has at most 65536 postings.
pub proof fn lemma_increasing_is_short(s: Seq<Posting>, i: int)
    requires
        strictly_increasing(s),
        0 <= i < s.len(),
    ensures
        s[i].doc_id >= i,
        s.len() <= 65536,
    decreases i,
{
    if i > 0 {
        lemma_increasing_is_short(s, i - 1);
    }
    if s.len() > 65536 {
        lemma_index_bound(s, 65536);
    }
}

/// The posting at index `i` of a sorted list is for a document numbered at
/// least `i`.
proof fn lemma_index_bound(s: Seq<Posting>, i: int)
    requires
        strictly_increasing(s),
        0 <= i < s.len(),
    ensures
        s[i].doc_id >= i,
    decreases i,
{
    if i > 0 {
        lemma_index_bound(s, i - 1);
    }
}

/// In a sorted list, `rank_of` is the one index with smaller documents
/// before it and none from it on.
pub proof fn lemma_rank_unique(s: Seq<Posting>, doc: u16, k: int)
    requires
        strictly_increasing(s),
        0 <= k <= s.len(),
        forall|i: int| 0 <= i < k ==> s[i].doc_id < doc,
        forall|i: int| k <= i < s.len() ==> s[i].doc_id >= doc,
    ensures
        rank_of(s, doc) == k,
    decreases s.len(),
{
    if s.len() > 0 && s[0].doc_id < doc {
        let t = s.drop_first();
        assert forall|i: int, j: int| 0 <= i < j < t.len() implies t[i].doc_id < t[j].doc_id by {
            assert(t[i] == s[i + 1] && t[j] == s[j + 1]);
        }
        assert(k >= 1);
        assert forall|i: int| 0 <= i < k - 1 implies t[i].doc_id < doc by {
            assert(t[i] == s[i + 1]);
        }
        assert forall|i: int| k - 1 <= i < t.len() implies t[i].doc_id >= doc by {
            assert(t[i] == s[i + 1]);
        }
        lemma_rank_unique(t, doc, k - 1);
    } else if s.len() > 0 {
        if k > 0 {
            assert(s[0].doc_id < doc);
        }
    }
}

/// `rank_of` stays inside the list and has smaller documents before it and
/// none from it on.
pub proof fn lemma_rank_of(s: Seq<Posting>, doc: u16)
    requires
        strictly_increasing(s),
    ensures
        rank_of(s, doc) <= s.len(),
        forall|i: int| 0 <= i < rank_of(s, doc) ==> s[i].doc_id < doc,
        forall|i: int| rank_of(s, doc) <= i < s.len() ==> s[i].doc_id >= doc,
    decreases s.len(),
{
    if s.len() > 0 && s[0].doc_id < doc {
        let t = s.drop_first();
        assert forall|i: int, j: int| 0 <= i < j < t.len() implies t[i].doc_id < t[j].doc_id by {
            assert(t[i] == s[i + 1] && t[j] == s[j + 1]);
        }
        lemma_rank_of(t, doc);
        assert forall|i: int| 0 <= i < rank_of(s, doc) implies s[i].doc_id < doc by {
            if i > 0 {
                assert(s[i] == t[i - 1]);
            }
        }
        assert forall|i: int| rank_of(s, doc) <= i < s.len() implies s[i].doc_id >= doc by {
            assert(s[i] == t[i - 1]);
        }
    } else if s.len() > 0 {
        assert forall|i: int| 0 <= i < s.len() implies s[i].doc_id >= doc by {
            if i > 0 {
                assert(s[0].doc_id < s[i].doc_id);
            }
        }
    }
}

/// Putting a posting in its place keeps the list sorted.
pub proof fn lemma_with_posting_increasing(s: Seq<Posting>, p: Posting)
    requires
        strictly_increasing(s),
    ensures
        strictly_increasing(with_posting(s, p)),
        has_doc(with_posting(s, p), p.doc_id),
{
    lemma_rank_of(s, p.doc_id);
    let k = rank_of(s, p.doc_id) as int;
    let r = with_posting(s, p);
    assert(r[k] == p);
    if k < s.len() && s[k].doc_id == p.doc_id {
    } else {
        assert forall|i: int, j: int| 0 <= i < j < r.len() implies r[i].doc_id < r[j].doc_id by {
            if i < k && j > k {
                assert(r[i] == s[i] && r[j] == s[j - 1]);
            } else if i == k {
                assert(r[j] == s[j - 1]);
            } else if j == k {
                assert(r[i] == s[i]);
            } else if j < k {
                assert(r[i] == s[i] && r[j] == s[j]);
            } else {
                assert(r[i] == s[i - 1] && r[j] == s[j - 1]);
            }
        }
    }
}

/// Counting an occurrence keeps the list sorted.
pub proof fn lemma_with_occurrence_increasing(s: Seq<Posting>, doc: u16)
    requires
        strictly_increasing(s),
    ensures
        strictly_increasing(with_occurrence(s, doc)),
        has_doc(with_occurrence(s, doc), doc),
{
    let k = rank_of(s, doc) as int;
    lemma_rank_of(s, doc);
    if k < s.len() && s[k].doc_id == doc {
        let p = Posting { doc_id: doc, term_freq: saturating_sum(s[k].term_freq, 1) };
        assert(with_occurrence(s, doc) == with_posting(s, p));
        lemma_with_posting_increasing(s, p);
    } else {
        let p = Posting { doc_id: doc, term_freq: 1 };
        assert(with_occurrence(s, doc) == with_posting(s, p));
        lemma_with_posting_increasing(s, p);
    }
}

/// Every document of `s` comes after `bound`.
pub open spec fn all_after(s: Seq<Posting>, bound: int) -> bool {
    forall|i: int| 0 <= i < s.len() ==> bound < (#[trigger] s[i]).doc_id
}

/// A sorted list without its first posting is sorted, and all its documents
/// come after the first.
proof fn lemma_drop_first_increasing(s: Seq<Posting>)
    requires
        strictly_increasing(s),
        s.len() > 0,
    ensures
        strictly_increasing(s.drop_first()),
        all_after(s.drop_first(), s[0].doc_id as int),
{
    let t = s.drop_first();
    assert forall|i: int, j: int| 0 <= i < j < t.len() implies t[i].doc_id < t[j].doc_id by {
        assert(t[i] == s[i + 1] && t[j] == s[j + 1]);
    }
    assert forall|i: int| 0 <= i < t.len() implies s[0].doc_id < (#[trigger] t[i]).doc_id by {
        assert(t[i] == s[i + 1]);
    }
}

/// Where the documents of two lists come after a bound, so do those of
/// their union.
proof fn lemma_merged_after(a: Seq<Posting>, b: Seq<Posting>, bound: int)
    requires
        all_after(a, bound),
        all_after(b, bound),
    ensures
        all_after(merged(a, b), bound),
    decreases a.len() + b.len(),
{
    if a.len() == 0 || b.len() == 0 {
    } else {
        let m = merged(a, b);
        let ta = a.drop_first();
        let tb = b.drop_first();
        assert forall|i: int| 0 <= i < ta.len() implies bound < (#[trigger] ta[i]).doc_id by {
            assert(ta[i] == a[i + 1]);
        }
        assert forall|i: int| 0 <= i < tb.len() implies bound < (#[trigger] tb[i]).doc_id by {
            assert(tb[i] == b[i + 1]);
        }
        assert(bound < a[0].doc_id && bound < b[0].doc_id);
        let rest = if a[0].doc_id < b[0].doc_id {
            merged(ta, b)
        } else if b[0].doc_id < a[0].doc_id {
            merged(a, tb)
        } else {
            merged(ta, tb)
        };
        if a[0].doc_id < b[0].doc_id {
            lemma_merged_after(ta, b, bound);
        } else if b[0].doc_id < a[0].doc_id {
            lemma_merged_after(a, tb, bound);
        } else {
            lemma_merged_after(ta, tb, bound);
        }
        assert forall|i: int| 0 <= i < m.len() implies bound < (#[trigger] m[i]).doc_id by {
            if i > 0 {
                assert(m[i] == rest[i - 1]);
            }
        }
    }
}

/// The union of two sorted lists is sorted: its document ids are strictly
/// increasing, so none occurs twice.
pub proof fn lemma_merged_increasing(a: Seq<Posting>, b: Seq<Posting>)
    requires
        strictly_increasing(a),
        strictly_increasing(b),
    ensures
        strictly_increasing(merged(a, b)),
    decreases a.len() + b.len(),
{
    if a.len() == 0 || b.len() == 0 {
    } else {
        let m = merged(a, b);
        let ta = a.drop_first();
        let tb = b.drop_first();
        lemma_drop_first_increasing(a);
        lemma_drop_first_increasing(b);
        let head = m[0].doc_id as int;
        let rest = if a[0].doc_id < b[0].doc_id {
            merged(ta, b)
        } else if b[0].doc_id < a[0].doc_id {
            merged(a, tb)
        } else {
            merged(ta, tb)
        };
        if a[0].doc_id < b[0].doc_id {
            lemma_merged_increasing(ta, b);
            assert forall|i: int| 0 <= i < b.len() implies head < (#[trigger] b[i]).doc_id by {
                if i > 0 {
                    assert(b[0].doc_id < b[i].doc_id);
                }
            }
            lemma_merged_after(ta, b, head);
        } else if b[0].doc_id < a[0].doc_id {
            lemma_merged_increasing(a, tb);
            assert forall|i: int| 0 <= i < a.len() implies head < (#[trigger] a[i]).doc_id by {
                if i > 0 {
                    assert(a[0].doc_id < a[i].doc_id);
                }
            }
            lemma_merged_after(a, tb, head);
        } else {
            lemma_merged_increasing(ta, tb);
            lemma_merged_after(ta, tb, head);
        }
        assert forall|i: int, j: int| 0 <= i < j < m.len() implies m[i].doc_id < m[j].doc_id by {
            assert(m[j] == rest[j - 1]);
            if i > 0 {
                assert(m[i] == rest[i - 1]);
            }
        }
    }
}

/// A list whose documents all come after `doc` does not hold `doc`.
proof fn lemma_absent_after(s: Seq<Posting>, doc: u16)
    requires
        all_after(s, doc as int),
    ensures
        !has_doc(s, doc),
        frequency_of(s, doc) == 0,
    decreases s.len(),
{
    if s.len() > 0 {
        let t = s.drop_first();
        assert(doc < s[0].doc_id);
        assert forall|i: int| 0 <= i < t.len() implies doc < (#[trigger] t[i]).doc_id by {
            assert(t[i] == s[i + 1]);
        }
        lemma_absent_after(t, doc);
    }
}

/// A list holds a document if its first posting is for it or the rest of
/// the list holds it.
proof fn lemma_has_doc_step(s: Seq<Posting>, doc: u16)
    requires
        s.len() > 0,
    ensures
        has_doc(s, doc) <==> (s[0].doc_id == doc || has_doc(s.drop_first(), doc)),
{
    let t = s.drop_first();
    if has_doc(s, doc) {
        let i = choose|i: int| 0 <= i < s.len() && #[trigger] s[i].doc_id == doc;
        if i > 0 {
            assert(t[i - 1].doc_id == doc);
        }
    }
    if has_doc(t, doc) {
        let i = choose|i: int| 0 <= i < t.len() && #[trigger] t[i].doc_id == doc;
        assert(s[i + 1].doc_id == doc);
    }
}

/// Merging loses nothing: the union holds exactly the documents of the two
/// lists, each with the sum of the frequencies that they record for it.
pub proof fn lemma_merged_is_union(a: Seq<Posting>, b: Seq<Posting>, doc: u16)
    requires
        strictly_increasing(a),
        strictly_increasing(b),
    ensures
        has_doc(merged(a, b), doc) <==> has_doc(a, doc) || has_doc(b, doc),
        frequency_of(merged(a, b), doc) == saturating_sum(
            frequency_of(a, doc),
            frequency_of(b, doc),
        ),
    decreases a.len() + b.len(),
{
    if a.len() == 0 {
        assert(!has_doc(a, doc));
    } else if b.len() == 0 {
        assert(!has_doc(b, doc));
    } else {
        let m = merged(a, b);
        let ta = a.drop_first();
        let tb = b.drop_first();
        lemma_drop_first_increasing(a);
        lemma_drop_first_increasing(b);
        lemma_has_doc_step(a, doc);
        lemma_has_doc_step(b, doc);
        lemma_has_doc_step(m, doc);
        if a[0].doc_id < b[0].doc_id {
            assert(m.drop_first() =~= merged(ta, b));
            lemma_merged_is_union(ta, b, doc);
            if a[0].doc_id == doc {
                lemma_absent_after(ta, doc);
                assert(all_after(b, doc as int)) by {
                    assert forall|i: int| 0 <= i < b.len() implies doc < (#[trigger] b[i]).doc_id by {
                        if i > 0 {
                            assert(b[0].doc_id < b[i].doc_id);
                        }
                    }
                }
                lemma_absent_after(b, doc);
            }
        } else if b[0].doc_id < a[0].doc_id {
            assert(m.drop_first() =~= merged(a, tb));
            lemma_merged_is_union(a, tb, doc);
            if b[0].doc_id == doc {
                lemma_absent_after(tb, doc);
                assert(all_after(a, doc as int)) by {
                    assert forall|i: int| 0 <= i < a.len() implies doc < (#[trigger] a[i]).doc_id by {
                        if i > 0 {
                            assert(a[0].doc_id < a[i].doc_id);
                        }
                    }
                }
                lemma_absent_after(a, doc);
            }
        } else {
            assert(m.drop_first() =~= merged(ta, tb));
            lemma_merged_is_union(ta, tb, doc);
            if a[0].doc_id == doc {
                lemma_absent_after(ta, doc);
                lemma_absent_after(tb, doc);
            }
        }
    }
}

/// Merging with an empty list, on either side, changes nothing.
pub proof fn lemma_merged_with_empty(a: Seq<Posting>)
    ensures
        merged(a, Seq::empty()) == a,
        merged(Seq::empty(), a) == a,
{
    if a.len() == 0 {
        assert(a =~= Seq::<Posting>::empty());
    }
}

/// A union is at least as long as either of its lists.
pub proof fn lemma_merged_len(a: Seq<Posting>, b: Seq<Posting>)
    ensures
        merged(a, b).len() >= a.len(),
        merged(a, b).len() >= b.len(),
    decreases a.len() + b.len(),
{
    if a.len() > 0 && b.len() > 0 {
        if a[0].doc_id < b[0].doc_id {
            lemma_merged_len(a.drop_first(), b);
        } else if b[0].doc_id < a[0].doc_id {
            lemma_merged_len(a, b.drop_first());
        } else {
            lemma_merged_len(a.drop_first(), b.drop_first());
        }
    }
}

/// Merges two lists of postings into their union by document.
pub fn merge_lists(a: &Vec<Posting>, b: &Vec<Posting>) -> (out: Vec<Posting>)
    ensures
        out@ == merged(a@, b@),
{
    let mut out: Vec<Posting> = Vec::new();
    let mut i: usize = 0;
    let mut j: usize = 0;
    assert(a@.skip(0) =~= a@ && b@.skip(0) =~= b@);
    while i < a.len() && j < b.len()
        invariant
            i <= a@.len(),
            j <= b@.len(),
            merged(a@, b@) == out@ + merged(a@.skip(i as int), b@.skip(j as int)),
        decreases a@.len() - i + b@.len() - j,
    {
        let ghost ra = a@.skip(i as int);
        let ghost rb = b@.skip(j as int);
        assert(ra[0] == a@[i as int] && rb[0] == b@[j as int]);
        assert(ra.drop_first() =~= a@.skip(i + 1));
        assert(rb.drop_first() =~= b@.skip(j + 1));
        let ghost before = out@;
        if a[i].doc_id < b[j].doc_id {
            out.push(a[i]);
            i += 1;
        } else if b[j].doc_id < a[i].doc_id {
            out.push(b[j]);
            j += 1;
        } else {
            out.push(Posting::new(a[i].doc_id, add_frequencies(a[i].term_freq, b[j].term_freq)));
            i += 1;
            j += 1;
        }
        assert(out@ + merged(a@.skip(i as int), b@.skip(j as int)) =~= before + merged(ra, rb));
    }
    while i < a.len()
        invariant
            i <= a@.len(),
            j == b@.len() || i == a@.len(),
            merged(a@, b@) == out@ + merged(a@.skip(i as int), b@.skip(j as int)),
        decreases a@.len() - i,
    {
        let ghost ra = a@.skip(i as int);
        let ghost before = out@;
        proof {
            assert(b@.skip(j as int) =~= Seq::<Posting>::empty());
            lemma_merged_with_empty(ra);
            lemma_merged_with_empty(a@.skip(i + 1));
        }
        out.push(a[i]);
        i += 1;
        assert(out@ + a@.skip(i as int) =~= before + ra);
    }
    while j < b.len()
        invariant
            i == a@.len(),
            j <= b@.len(),
            merged(a@, b@) == out@ + merged(a@.skip(i as int), b@.skip(j as int)),
        decreases b@.len() - j,
    {
        let ghost rb = b@.skip(j as int);
        let ghost before = out@;
        proof {
            assert(a@.skip(i as int) =~= Seq::<Posting>::empty());
            lemma_merged_with_empty(rb);
            lemma_merged_with_empty(b@.skip(j + 1));
        }
        out.push(b[j]);
        j += 1;
        assert(out@ + b@.skip(j as int) =~= before + rb);
    }
    assert(a@.skip(i as int) =~= Seq::<Posting>::empty());
    assert(b@.skip(j as int) =~= Seq::<Posting>::empty());
    assert(out@ + Seq::<Posting>::empty() =~= out@);
    out
}

/// The text of one posting: `doc|freq`, both in decimal.
pub open spec fn pair_text(first: u16, second: u16) -> Seq<u8> {
    decimal(first as nat) + seq![PIPE] + decimal(second as nat)
}

/// The text of a list of postings: their texts with commas between them.
pub open spec fn postings_text(s: Seq<Posting>) -> Seq<u8>
    decreases s.len(),
{
    if s.len() == 0 {
        Seq::empty()
    } else if s.len() == 1 {
        pair_text(s[0].doc_id, s[0].term_freq)
    } else {
        postings_text(s.drop_last()) + seq![COMMA] + pair_text(s.last().doc_id, s.last().term_freq)
    }
}

/// The line of a term and its postings: `term:doc|freq,doc|freq,...`. A
/// term without postings is written bare, without the colon.
pub open spec fn line_text(term: Seq<u8>, s: Seq<Posting>) -> Seq<u8> {
    if s.len() == 0 {
        term
    } else {
        term + seq![COLON] + postings_text(s)
    }
}

/// Why a line could not be read as a postings list.
#[derive(Debug, Clone, Copy, PartialEq, Eq, Structural)]
pub enum LoadError {
    /// The line has no bytes at all.
    EmptyLine,
    /// The line has no `:` after the term.
    MissingColon,
    /// The bytes before the `:` are not valid UTF-8.
    InvalidTerm,
    /// A posting has no `|` between document and frequency.
    MissingPipe,
    /// What stands before a `|` is not a number that fits a document id.
    BadDocId,
    /// What stands after a `|` is not a number that fits a frequency.
    BadFrequency,
}

/// The posting that `field` denotes: a document id, `|`, a frequency.
/// ASCII blanks around either number are ignored.
pub open spec fn posting_of(field: Seq<u8>) -> Result<Posting, LoadError> {
    let k = position(field, PIPE) as int;
    if k >= field.len() {
        Err(LoadError::MissingPipe)
    } else {
        match bounded_numeral(trim(field.subrange(0, k)), u16::MAX as nat) {
            None => Err(LoadError::BadDocId),
            Some(doc) => match bounded_numeral(trim(field.skip(k + 1)), u16::MAX as nat) {
                None => Err(LoadError::BadFrequency),
                Some(freq) => Ok(Posting { doc_id: doc as u16, term_freq: freq as u16 }),
            },
        }
    }
}

/// The postings that the comma-separated `text` denotes, read from left to
/// right into `acc`. Each is put in its place by document, so the result is
/// sorted whatever the order in the text, and of two postings for one
/// document the later one stays. The first field that denotes no posting
/// fails the whole text.
pub open spec fn postings_from(acc: Seq<Posting>, text: Seq<u8>) -> Result<
    Seq<Posting>,
    LoadError,
>
    decreases text.len(),
{
    let k = position(text, COMMA) as int;
    if k >= text.len() {
        match posting_of(text) {
            Err(e) => Err(e),
            Ok(p) => Ok(with_posting(acc, p)),
        }
    } else {
        match posting_of(text.subrange(0, k)) {
            Err(e) => Err(e),
            Ok(p) => postings_from(with_posting(acc, p), text.skip(k + 1)),
        }
    }
}

/// What a line denotes: the bytes of its term, which end before the first
/// `:`, and the postings after it.
#[verifier::opaque]
pub open spec fn parsed_line(line: Seq<u8>) -> Result<(Seq<u8>, Seq<Posting>), LoadError> {
    let k = position(line, COLON) as int;
    if line.len() == 0 {
        Err(LoadError::EmptyLine)
    } else if k >= line.len() {
        Err(LoadError::MissingColon)
    } else if !valid_utf8(line.subrange(0, k)) {
        Err(LoadError::InvalidTerm)
    } else {
        match postings_from(Seq::empty(), line.skip(k + 1)) {
            Err(e) => Err(e),
            Ok(s) => Ok((line.subrange(0, k), s)),
        }
    }
}

/// Postings fail to be read only for a missing `|` or a bad number.
pub proof fn lemma_postings_errors(acc: Seq<Posting>, text: Seq<u8>)
    ensures
        postings_from(acc, text) matches Err(e) ==> e == LoadError::MissingPipe || e
            == LoadError::BadDocId || e == LoadError::BadFrequency,
    decreases text.len(),
{
    let k = position(text, COMMA) as int;
    crate::text::lemma_position(text, COMMA);
    if k < text.len() {
        if let Ok(p) = posting_of(text.subrange(0, k)) {
            lemma_postings_errors(with_posting(acc, p), text.skip(k + 1));
        }
    }
}

/// The text of a posting holds digits and one `|`, and denotes the posting.
pub proof fn lemma_pair_reads_back(p: Posting)
    ensures
        posting_of(pair_text(p.doc_id, p.term_freq)) == Ok::<Posting, LoadError>(p),
        forall|i: int|
            0 <= i < pair_text(p.doc_id, p.term_freq).len() ==> {
                let b = #[trigger] pair_text(p.doc_id, p.term_freq)[i];
                is_digit(b) || b == PIPE
            },
{
    let d = decimal(p.doc_id as nat);
    let f = decimal(p.term_freq as nat);
    let text = pair_text(p.doc_id, p.term_freq);
    lemma_decimal_reads_back(p.doc_id as nat);
    lemma_decimal_reads_back(p.term_freq as nat);
    assert forall|i: int| 0 <= i < d.len() implies d[i] != PIPE by {
        assert(is_digit(d[i]));
    }
    lemma_position_after(d, PIPE, f);
    assert(is_digit(d[0]) && is_digit(d.last()));
    assert(is_digit(f[0]) && is_digit(f.last()));
    lemma_trim_nothing(d);
    lemma_trim_nothing(f);
    assert forall|i: int| 0 <= i < text.len() implies {
        let b = #[trigger] text[i];
        is_digit(b) || b == PIPE
    } by {
        if i < d.len() {
            assert(text[i] == d[i]);
        } else if i > d.len() {
            assert(text[i] == f[i - d.len() - 1]);
        }
    }
}

/// The text of two or more postings begins with the text of the first and
/// a comma.
pub proof fn lemma_postings_text_front(s: Seq<Posting>)
    requires
        s.len() >= 2,
    ensures
        postings_text(s) == pair_text(s[0].doc_id, s[0].term_freq) + seq![COMMA] + postings_text(
            s.drop_first(),
        ),
    decreases s.len(),
{
    let front = s.drop_last();
    let back = s.drop_first();
    if s.len() == 2 {
        assert(front.len() == 1 && back.len() == 1);
        assert(front[0] == s[0] && back[0] == s.last());
        assert(postings_text(front) == pair_text(s[0].doc_id, s[0].term_freq));
        assert(postings_text(back) == pair_text(s.last().doc_id, s.last().term_freq));
    } else {
        lemma_postings_text_front(front);
        assert(front.drop_first() =~= back.drop_last());
        assert(postings_text(s) =~= pair_text(s[0].doc_id, s[0].term_freq) + seq![COMMA]
            + postings_text(back));
    }
}

/// A posting for a later document than all of `acc` is put at its end.
pub proof fn lemma_with_posting_at_end(acc: Seq<Posting>, p: Posting)
    requires
        strictly_increasing(acc.push(p)),
    ensures
        with_posting(acc, p) == acc.push(p),
{
    let whole = acc.push(p);
    assert forall|i: int, j: int| 0 <= i < j < acc.len() implies acc[i].doc_id < acc[j].doc_id by {
        assert(whole[i] == acc[i] && whole[j] == acc[j]);
    }
    assert forall|i: int| 0 <= i < acc.len() implies acc[i].doc_id < p.doc_id by {
        assert(whole[i] == acc[i] && whole[acc.len() as int] == p);
    }
    lemma_rank_unique(acc, p.doc_id, acc.len() as int);
    assert(acc.insert(acc.len() as int, p) =~= acc.push(p));
}

/// Reading the text of a sorted list after `acc` gives `acc` and the list.
pub proof fn lemma_postings_read_back(acc: Seq<Posting>, t: Seq<Posting>)
    requires
        t.len() > 0,
        strictly_increasing(acc + t),
    ensures
        postings_from(acc, postings_text(t)) == Ok::<Seq<Posting>, LoadError>(acc + t),
    decreases t.len(),
{
    let first = pair_text(t[0].doc_id, t[0].term_freq);
    lemma_pair_reads_back(t[0]);
    assert forall|i: int| 0 <= i < first.len() implies first[i] != COMMA by {
        let b = first[i];
        assert(is_digit(b) || b == PIPE);
    }
    assert(acc.push(t[0]) =~= (acc + t).subrange(0, acc.len() as int + 1));
    assert(strictly_increasing(acc.push(t[0]))) by {
        let whole = acc + t;
        let part = acc.push(t[0]);
        assert forall|i: int, j: int| 0 <= i < j < part.len() implies part[i].doc_id
            < part[j].doc_id by {
            assert(part[i] == whole[i] && part[j] == whole[j]);
        }
    }
    lemma_with_posting_at_end(acc, t[0]);
    if t.len() == 1 {
        lemma_position_none(first, COMMA);
        assert(acc.push(t[0]) =~= acc + t);
    } else {
        let rest = t.drop_first();
        lemma_postings_text_front(t);
        lemma_position_after(first, COMMA, postings_text(rest));
        assert(acc.push(t[0]) + rest =~= acc + t);
        lemma_postings_read_back(acc.push(t[0]), rest);
    }
}

/// A written line reads back as what was written: the same term and the
/// same postings, for every sorted list that is not empty and whose term is
/// valid UTF-8 and holds no `:`.
pub proof fn lemma_line_reads_back(term: Seq<u8>, s: Seq<Posting>)
    requires
        s.len() > 0,
        strictly_increasing(s),
        valid_utf8(term),
        forall|i: int| 0 <= i < term.len() ==> term[i] != COLON,
    ensures
        parsed_line(line_text(term, s)) == Ok::<(Seq<u8>, Seq<Posting>), LoadError>((term, s)),
{
    reveal(parsed_line);
    lemma_position_after(term, COLON, postings_text(s));
    assert(Seq::<Posting>::empty() + s =~= s);
    lemma_postings_read_back(Seq::empty(), s);
}

/// The text of a pair of numbers is ASCII.
proof fn lemma_pair_text_ascii(first: u16, second: u16)
    ensures
        forall|i: int| 0 <= i < pair_text(first, second).len() ==> pair_text(first, second)[i] < 128,
{
    let text = pair_text(first, second);
    lemma_pair_reads_back(Posting { doc_id: first, term_freq: second });
    assert forall|i: int| 0 <= i < text.len() implies text[i] < 128 by {
        let b = text[i];
        assert(is_digit(b) || b == PIPE);
    }
}

/// The text of a list of postings is ASCII.
proof fn lemma_postings_text_ascii(s: Seq<Posting>)
    ensures
        forall|i: int| 0 <= i < postings_text(s).len() ==> postings_text(s)[i] < 128,
    decreases s.len(),
{
    if s.len() == 1 {
        lemma_pair_text_ascii(s[0].doc_id, s[0].term_freq);
    } else if s.len() > 1 {
        lemma_postings_text_ascii(s.drop_last());
        lemma_pair_text_ascii(s.last().doc_id, s.last().term_freq);
        let front = postings_text(s.drop_last());
        let last = pair_text(s.last().doc_id, s.last().term_freq);
        let text = postings_text(s);
        assert forall|i: int| 0 <= i < text.len() implies text[i] < 128 by {
            if i < front.len() {
                assert(text[i] == front[i]);
            } else if i > front.len() {
                assert(text[i] == last[i - front.len() - 1]);
            }
        }
    }
}

/// The line of a list whose term is text is text.
proof fn lemma_line_text_valid(term: Seq<u8>, s: Seq<Posting>)
    requires
        valid_utf8(term),
    ensures
        valid_utf8(line_text(term, s)),
{
    if s.len() > 0 {
        let tail = seq![COLON] + postings_text(s);
        lemma_postings_text_ascii(s);
        assert forall|i: int| 0 <= i < tail.len() implies tail[i] < 128 by {
            if i > 0 {
                assert(tail[i] == postings_text(s)[i - 1]);
            }
        }
        lemma_ascii_is_valid(tail);
        vstd::utf8::valid_utf8_concat(term, tail);
        assert(line_text(term, s) =~= term + tail);
    }
}

/// One sample of a postings list: the document at position `index`.
#[derive(Debug, Clone, Copy)]
pub struct SkipList {
    pub doc_id: u16,
    pub index: u16,
}

/// The samples taken of a list: of five or more postings, those at the
/// multiples of a fifth of its length; of a shorter list, all.
pub open spec fn samples_of(s: Seq<Posting>) -> Seq<SkipList> {
    if s.len() >= 5 {
        Seq::new(
            5,
            |i: int|
                SkipList {
                    doc_id: s[i * (s.len() as int / 5)].doc_id,
                    index: (i * (s.len() as int / 5)) as u16,
                },
        )
    } else {
        Seq::new(s.len(), |i: int| SkipList { doc_id: s[i].doc_id, index: i as u16 })
    }
}

/// The text of a list of samples: `doc|index` with commas between them.
pub open spec fn samples_text(s: Seq<SkipList>) -> Seq<u8>
    decreases s.len(),
{
    if s.len() == 0 {
        Seq::empty()
    } else if s.len() == 1 {
        pair_text(s[0].doc_id, s[0].index)
    } else {
        samples_text(s.drop_last()) + seq![COMMA] + pair_text(s.last().doc_id, s.last().index)
    }
}

/// The text of a list of samples is ASCII.
proof fn lemma_samples_text_ascii(s: Seq<SkipList>)
    ensures
        forall|i: int| 0 <= i < samples_text(s).len() ==> samples_text(s)[i] < 128,
    decreases s.len(),
{
    if s.len() == 1 {
        lemma_pair_text_ascii(s[0].doc_id, s[0].index);
    } else if s.len() > 1 {
        lemma_samples_text_ascii(s.drop_last());
        lemma_pair_text_ascii(s.last().doc_id, s.last().index);
        let front = samples_text(s.drop_last());
        let last = pair_text(s.last().doc_id, s.last().index);
        let text = samples_text(s);
        assert forall|i: int| 0 <= i < text.len() implies text[i] < 128 by {
            if i < front.len() {
                assert(text[i] == front[i]);
            } else if i > front.len() {
                assert(text[i] == last[i - front.len() - 1]);
            }
        }
    }
}

/// Appends `first|second` to `out`.
fn append_pair(out: &mut Vec<u8>, first: u16, second: u16)
    ensures
        final(out)@ == old(out)@ + pair_text(first, second),
{
    append_decimal(out, first as u64);
    out.push(PIPE);
    append_decimal(out, second as u64);
    assert(out@ =~= old(out)@ + pair_text(first, second));
}

/// Appends the text of `list` to `out`.
pub fn append_postings(out: &mut Vec<u8>, list: &Vec<Posting>)
    ensures
        final(out)@ == old(out)@ + postings_text(list@),
{
    let mut i: usize = 0;
    assert(list@.subrange(0, 0) =~= Seq::<Posting>::empty());
    assert(out@ =~= old(out)@ + postings_text(list@.subrange(0, 0)));
    while i < list.len()
        invariant
            i <= list@.len(),
            out@ == old(out)@ + postings_text(list@.subrange(0, i as int)),
        decreases list@.len() - i,
    {
        let ghost done = list@.subrange(0, i as int);
        let ghost next = list@.subrange(0, i + 1);
        assert(next.drop_last() =~= done);
        assert(next.last() == list@[i as int]);
        if i > 0 {
            out.push(COMMA);
        }
        append_pair(out, list[i].doc_id, list[i].term_freq);
        assert(out@ =~= old(out)@ + postings_text(next));
        i += 1;
    }
    assert(list@.subrange(0, i as int) =~= list@);
}

/// Reads the posting that stands in `s[from..to]`.
pub fn parse_posting(s: &[u8], from: usize, to: usize) -> (posting: Result<Posting, LoadError>)
    requires
        from <= to <= s@.len(),
    ensures
        posting == posting_of(s@.subrange(from as int, to as int)),
{
    let ghost field = s@.subrange(from as int, to as int);
    let bar = find_byte(s, from, to, PIPE);
    if bar >= to {
        return Err(LoadError::MissingPipe);
    }
    assert(field.subrange(0, bar - from) =~= s@.subrange(from as int, bar as int));
    assert(field.skip(bar - from + 1) =~= s@.subrange(bar + 1, to as int));
    let (doc_from, doc_to) = trim_range(s, from, bar);
    let doc = match parse_numeral(s, doc_from, doc_to, 65535) {
        None => {
            return Err(LoadError::BadDocId);
        },
        Some(doc) => doc,
    };
    let (freq_from, freq_to) = trim_range(s, bar + 1, to);
    let freq = match parse_numeral(s, freq_from, freq_to, 65535) {
        None => {
            return Err(LoadError::BadFrequency);
        },
        Some(freq) => freq,
    };
    Ok(Posting::new(doc as u16, freq as u16))
}

/// The postings list of one term.
pub struct Postings {
    pub word: String,
    postings: Vec<Posting>,
    skip_list: Vec<SkipList>,
}

impl View for Postings {
    type V = Seq<Posting>;

    /// The postings, in the order in which they are held.
    closed spec fn view(&self) -> Seq<Posting> {
        self.postings@
    }
}

impl Clone for Postings {
    /// A copy with the same term, postings and samples.
    fn clone(&self) -> (copy: Postings)
        ensures
            copy@ == self@,
            copy.word_view() == self.word_view(),
            copy.skips() == self.skips(),
    {
        let copy = Postings {
            word: self.word.clone(),
            postings: self.postings.clone(),
            skip_list: self.skip_list.clone(),
        };
        assert(copy.postings@ =~= self.postings@);
        assert(copy.skip_list@ =~= self.skip_list@);
        copy
    }
}

impl Postings {
    /// The samples that `build_skip_list` last took.
    pub closed spec fn skips(&self) -> Seq<SkipList> {
        self.skip_list@
    }

    /// The invariant of a postings list: document ids strictly increasing.
    pub open spec fn wf(&self) -> bool {
        strictly_increasing(self@)
    }

    /// The characters of the term.
    pub closed spec fn word_view(&self) -> Seq<char> {
        self.word@
    }

    /// The bytes of the term, as they stand in a file.
    pub open spec fn term(&self) -> Seq<u8> {
        encode_utf8(self.word_view())
    }

    /// The term.
    pub fn term_text(&self) -> (term: &str)
        ensures
            term@ == self.word_view(),
    {
        self.word.as_str()
    }

    /// An empty list for `term`.
    pub fn new(term: String) -> (list: Postings)
        ensures
            list.word_view() == term@,
            list@ == Seq::<Posting>::empty(),
            list.skips() == Seq::<SkipList>::empty(),
            list.wf(),
    {
        Postings { word: term, postings: Vec::new(), skip_list: Vec::new() }
    }

    /// A list for `term` that holds `postings`.
    pub(crate) fn from_sorted(term: String, postings: Vec<Posting>) -> (list: Postings)
        requires
            strictly_increasing(postings@),
        ensures
            list.word_view() == term@,
            list@ == postings@,
            list.skips() == Seq::<SkipList>::empty(),
            list.wf(),
    {
        Postings { word: term, postings, skip_list: Vec::new() }
    }

    /// Finds by bisection where document `doc` is, or belongs.
    fn lower_bound(&self, doc: u16) -> (k: usize)
        requires
            self.wf(),
        ensures
            k == rank_of(self@, doc),
            k <= self@.len(),
    {
        let mut lo: usize = 0;
        let mut hi: usize = self.postings.len();
        while lo < hi
            invariant
                self.wf(),
                lo <= hi <= self.postings@.len(),
                forall|i: int| 0 <= i < lo ==> self.postings@[i].doc_id < doc,
                forall|i: int| hi <= i < self.postings@.len() ==> self.postings@[i].doc_id >= doc,
            decreases hi - lo,
        {
            let mid = lo + (hi - lo) / 2;
            if self.postings[mid].doc_id < doc {
                lo = mid + 1;
            } else {
                hi = mid;
            }
        }
        proof {
            lemma_rank_unique(self@, doc, lo as int);
        }
        lo
    }

    /// Puts `posting` in its place: it replaces the posting of the same
    /// document if the list has one, and is inserted in document order if
    /// not.
    pub fn push(&mut self, posting: Posting)
        requires
            old(self).wf(),
        ensures
            final(self).wf(),
            final(self)@ == with_posting(old(self)@, posting),
            final(self).word_view() == old(self).word_view(),
            final(self).skips() == old(self).skips(),
    {
        let k = self.lower_bound(posting.doc_id);
        if k < self.postings.len() && self.postings[k].doc_id == posting.doc_id {
            self.postings.set(k, posting);
        } else {
            self.postings.insert(k, posting);
        }
        proof {
            lemma_with_posting_increasing(old(self)@, posting);
        }
    }

    /// Counts one more occurrence of the term in document `doc_id`.
    pub fn update_frequency(&mut self, doc_id: u16)
        requires
            old(self).wf(),
        ensures
            final(self).wf(),
            final(self)@ == with_occurrence(old(self)@, doc_id),
            final(self).word_view() == old(self).word_view(),
            final(self).skips() == old(self).skips(),
    {
        let k = self.lower_bound(doc_id);
        if k < self.postings.len() && self.postings[k].doc_id == doc_id {
            let mut posting = self.postings[k];
            posting.increment_freq();
            self.postings.set(k, posting);
        } else {
            self.postings.insert(k, Posting::new(doc_id, 1));
        }
        proof {
            lemma_with_occurrence_increasing(old(self)@, doc_id);
        }
    }

    /// The postings, in document order.
    pub fn get_postings(&self) -> (list: &Vec<Posting>)
        ensures
            list@ == self@,
    {
        &self.postings
    }

    /// Takes in the postings of `other`, a list for the same term: the
    /// result is the union by document, and a document that both lists hold
    /// gets the sum of its two frequencies.
    pub fn merge(&mut self, other: Postings)
        requires
            old(self).wf(),
            other.wf(),
            old(self).word_view() == other.word_view(),
        ensures
            final(self).wf(),
            final(self)@ == merged(old(self)@, other@),
            final(self).word_view() == old(self).word_view(),
            final(self).skips() == old(self).skips(),
    {
        let union = merge_lists(&self.postings, &other.postings);
        proof {
            lemma_merged_increasing(self@, other@);
        }
        self.postings = union;
    }

    /// Reads a list from its line `term:doc|freq,doc|freq,...`. The
    /// postings may stand in any order, and blanks around a number, such as
    /// the line end after the last one, are ignored; see `postings_from`.
    /// Each way in which a line can fail to be a list has its own error; a
    /// line of text never fails for its term.
    pub fn load_postings(line: &str) -> (loaded: Result<Postings, LoadError>)
        ensures
            match loaded {
                Ok(list) => {
                    &&& list.wf()
                    &&& parsed_line(encode_utf8(line@)) == Ok::<(Seq<u8>, Seq<Posting>), LoadError>(
                        (list.term(), list@),
                    )
                    &&& list.skips() == Seq::<SkipList>::empty()
                },
                Err(e) => parsed_line(encode_utf8(line@)) == Err::<
                    (Seq<u8>, Seq<Posting>),
                    LoadError,
                >(e) && e != LoadError::InvalidTerm,
            },
    {
        let bytes = line.as_bytes();
        let loaded = Postings::from_bytes(bytes);
        proof {
            let colon = position(bytes@, COLON) as int;
            crate::text::lemma_position(bytes@, COLON);
            vstd::utf8::encode_utf8_valid_utf8(line@);
            if colon < bytes@.len() {
                assert(bytes@[colon] < 128);
                crate::text::lemma_cut_is_valid(bytes@, 0, colon);
            }
            assert(parsed_line(bytes@) != Err::<(Seq<u8>, Seq<Posting>), LoadError>(
                LoadError::InvalidTerm,
            )) by {
                reveal(parsed_line);
                lemma_postings_errors(Seq::empty(), bytes@.skip(colon + 1));
            }
        }
        loaded
    }

    /// Reads a list from the bytes of its line, as `load_postings` does from
    /// its text. Bytes need not be text: a term that is not valid UTF-8
    /// fails the line.
    pub fn from_bytes(line: &[u8]) -> (loaded: Result<Postings, LoadError>)
        ensures
            match loaded {
                Ok(list) => {
                    &&& list.wf()
                    &&& valid_utf8(list.term())
                    &&& parsed_line(line@) == Ok::<(Seq<u8>, Seq<Posting>), LoadError>(
                        (list.term(), list@),
                    )
                    &&& list.skips() == Seq::<SkipList>::empty()
                },
                Err(e) => parsed_line(line@) == Err::<(Seq<u8>, Seq<Posting>), LoadError>(e),
            },
    {
        proof {
            reveal(parsed_line);
        }
        let len = line.len();
        if len == 0 {
            return Err(LoadError::EmptyLine);
        }
        let colon = find_byte(line, 0, len, COLON);
        assert(line@.subrange(0, len as int) =~= line@);
        if colon >= len {
            return Err(LoadError::MissingColon);
        }
        let word = match string_from_utf8(slice_to_vec(slice_subrange(line, 0, colon))) {
            None => {
                return Err(LoadError::InvalidTerm);
            },
            Some(word) => word,
        };
        proof {
            vstd::utf8::decode_utf8_encode_utf8(line@.subrange(0, colon as int));
        }
        let mut list = Postings::new(word);
        let mut at: usize = colon + 1;
        assert(line@.skip(colon + 1) =~= line@.subrange(at as int, len as int));
        loop
            invariant
                colon < at <= len,
                len == line@.len(),
                colon == position(line@, COLON),
                valid_utf8(line@.subrange(0, colon as int)),
                list.wf(),
                list.term() == line@.subrange(0, colon as int),
                list.skips() == Seq::<SkipList>::empty(),
                postings_from(Seq::empty(), line@.skip(colon + 1)) == postings_from(
                    list@,
                    line@.subrange(at as int, len as int),
                ),
            decreases len - at,
        {
            proof {
                reveal(parsed_line);
            }
            let ghost rest = line@.subrange(at as int, len as int);
            let comma = find_byte(line, at, len, COMMA);
            assert(rest.subrange(0, comma - at) =~= line@.subrange(at as int, comma as int));
            match parse_posting(line, at, comma) {
                Err(e) => {
                    return Err(e);
                },
                Ok(posting) => {
                    list.push(posting);
                },
            }
            if comma >= len {
                return Ok(list);
            }
            assert(rest.skip(comma - at + 1) =~= line@.subrange(comma + 1, len as int));
            at = comma + 1;
        }
    }

    /// Loading what `save_postings` wrote gives the list back: a list
    /// `loaded` that denotes what the written line of `self` denotes has the
    /// term and the postings of `self`. This holds of every list that is not
    /// empty and whose term holds no `:`.
    pub proof fn lemma_round_trip(&self, loaded: &Postings)
        requires
            self.wf(),
            self@.len() > 0,
            forall|i: int| 0 <= i < self.term().len() ==> self.term()[i] != COLON,
            parsed_line(line_text(self.term(), self@)) == Ok::<(Seq<u8>, Seq<Posting>), LoadError>(
                (loaded.term(), loaded@),
            ),
        ensures
            loaded@ == self@,
            loaded.word_view() == self.word_view(),
    {
        broadcast use vstd::utf8::encode_utf8_valid_utf8, vstd::utf8::encode_utf8_decode_utf8;

        lemma_line_reads_back(self.term(), self@);
        assert(vstd::utf8::decode_utf8(encode_utf8(loaded.word_view())) == loaded.word_view());
        assert(vstd::utf8::decode_utf8(encode_utf8(self.word_view())) == self.word_view());
    }

    /// Writes the list as one line, without a line end.
    pub fn save_postings(&self) -> (line: String)
        ensures
            encode_utf8(line@) == line_text(self.term(), self@),
    {
        let bytes = self.to_bytes();
        proof {
            vstd::utf8::encode_utf8_valid_utf8(self.word_view());
            lemma_line_text_valid(self.term(), self@);
        }
        text_of_bytes(bytes)
    }

    /// Writes the list as the bytes of one line, without a line end.
    pub fn to_bytes(&self) -> (line: Vec<u8>)
        ensures
            line@ == line_text(self.term(), self@),
    {
        let mut out = self.word.as_str().as_bytes_vec();
        if self.postings.len() > 0 {
            out.push(COLON);
            append_postings(&mut out, &self.postings);
        }
        assert(out@ =~= line_text(self.term(), self@));
        out
    }

    /// Takes the samples of the list as it is now; see `samples_of`.
    pub fn build_skip_list(&mut self)
        requires
            old(self).wf(),
        ensures
            final(self).skips() == samples_of(old(self)@),
            final(self)@ == old(self)@,
            final(self).word_view() == old(self).word_view(),
    {
        let mut samples: Vec<SkipList> = Vec::new();
        let n = self.postings.len();
        proof {
            if n > 0 {
                lemma_increasing_is_short(self@, 0);
            }
        }
        if n >= 5 {
            let step = n / 5;
            let mut i: usize = 0;
            while i < 5
                invariant
                    i <= 5,
                    n == self.postings@.len(),
                    5 <= n <= 65536,
                    step == n / 5,
                    samples@.len() == i,
                    forall|k: int| 0 <= k < i ==> samples@[k] == samples_of(self.postings@)[k],
                decreases 5 - i,
            {
                assert(i * step <= 4 * step) by (nonlinear_arith)
                    requires
                        i <= 4,
                ;
                let at = i * step;
                samples.push(SkipList { doc_id: self.postings[at].doc_id, index: at as u16 });
                i += 1;
            }
        } else {
            let mut i: usize = 0;
            while i < n
                invariant
                    i <= n,
                    n == self.postings@.len(),
                    n < 5,
                    samples@.len() == i,
                    forall|k: int| 0 <= k < i ==> samples@[k] == samples_of(self.postings@)[k],
                decreases n - i,
            {
                samples.push(SkipList { doc_id: self.postings[i].doc_id, index: i as u16 });
                i += 1;
            }
        }
        assert(samples@ =~= samples_of(self@));
        self.skip_list = samples;
    }

    /// Writes the samples as `doc|index,doc|index,...`.
    pub fn skip_list_to_file(&self) -> (text: String)
        ensures
            encode_utf8(text@) == samples_text(self.skips()),
    {
        let mut out: Vec<u8> = Vec::new();
        let mut i: usize = 0;
        assert(self.skip_list@.subrange(0, 0) =~= Seq::<SkipList>::empty());
        while i < self.skip_list.len()
            invariant
                i <= self.skip_list@.len(),
                out@ == samples_text(self.skip_list@.subrange(0, i as int)),
            decreases self.skip_list@.len() - i,
        {
            let ghost done = self.skip_list@.subrange(0, i as int);
            let ghost next = self.skip_list@.subrange(0, i + 1);
            assert(next.drop_last() =~= done);
            assert(next.last() == self.skip_list@[i as int]);
            if i > 0 {
                out.push(COMMA);
            }
            append_pair(&mut out, self.skip_list[i].doc_id, self.skip_list[i].index);
            assert(out@ =~= samples_text(next));
            i += 1;
        }
        assert(self.skip_list@.subrange(0, i as int) =~= self.skip_list@);
        proof {
            lemma_samples_text_ascii(self.skip_list@);
            lemma_ascii_is_valid(out@);
        }
        text_of_bytes(out)
    }
}

} // verus!
