//! The skip list of a merged file: a sparse sample of the terms of its lines
//! with the byte offsets at which those lines start. It narrows the search
//! for a term to the stretch of the file between two samples.
//!
//! A merged file is a sequence of bytes. Its lines end with a line feed, the
//! last one possibly without; the term of a line is what stands before its
//! first `:`.

use vstd::prelude::*;
use vstd::slice::{slice_subrange, slice_to_vec};
use vstd::utf8::encode_utf8;
use crate::postings::{
    lemma_merged_increasing, merge_lists, merged, parsed_line, strictly_increasing, Postings,
};
use crate::single_posting::Posting;
use crate::text::{
    append_decimal, bounded_numeral, bytes_equal, bytes_less, decimal, find_byte, lex_lt,
    parse_numeral, position, trim, trim_range, COLON, COMMA, NEWLINE,
};

verus! {

/// The directory of the merged files and their skip lists.
pub const MERGED_INDEX_DIR: &'static str = "inverted_index/merged";

/// One line in this many is sampled.
pub const PARTITION: usize = 100;

/// One sample: the line that starts at `byte_offset` of the merged file for
/// `character` has the term `word`.
#[derive(Debug)]
pub struct FileSkip {
    pub character: char,
    pub word: Vec<u8>,
    pub byte_offset: u64,
}

/// Where in a merged file a term has to be looked for.
#[derive(Debug, Clone, Copy, PartialEq, Eq, Structural)]
pub enum WordOffsetRange {
    /// Nowhere: the term comes before every sample, or there is no sample.
    Invalid,
    /// In the line that starts at this offset.
    Exact(u64),
    /// In a line that starts at or after the first offset and before the
    /// second.
    Between(u64, u64),
    /// In a line that starts at or after this offset.
    After(u64),
}

/// The samples of a list as plain values: term and offset.
pub open spec fn entries(list: Seq<FileSkip>) -> Seq<(Seq<u8>, u64)> {
    Seq::new(list.len(), |i: int| (list[i].word@, list[i].byte_offset))
}

/// The offset just after the line that starts at `from`: after its line
/// feed, or the end of the file.
pub open spec fn line_end(content: Seq<u8>, from: int) -> int {
    let k = position(content.skip(from), NEWLINE) as int;
    if from + k < content.len() {
        from + k + 1
    } else {
        content.len() as int
    }
}

/// The term of a line: what stands before its first `:`, or all of it.
pub open spec fn key_of(line: Seq<u8>) -> Seq<u8> {
    line.subrange(0, position(line, COLON) as int)
}

/// The term of the line that starts at `from`.
pub open spec fn key_at(content: Seq<u8>, from: int) -> Seq<u8> {
    key_of(content.subrange(from, line_end(content, from)))
}

/// The samples of the lines from offset `from` on, where the line at `from`
/// is line number `index` of the file: each line whose number is a multiple
/// of `PARTITION` gives one sample, its term and the offset of its start.
pub open spec fn samples(content: Seq<u8>, from: int, index: nat) -> Seq<(Seq<u8>, u64)>
    decreases content.len() - from,
{
    if from < 0 || from >= content.len() {
        Seq::empty()
    } else {
        let rest = samples(content, line_end(content, from), index + 1);
        if index % PARTITION as nat == 0 {
            seq![(key_at(content, from), from as u64)] + rest
        } else {
            rest
        }
    }
}

/// How many samples at the front of `list` have a term before `target`.
pub open spec fn first_not_before(list: Seq<(Seq<u8>, u64)>, target: Seq<u8>) -> nat
    decreases list.len(),
{
    if list.len() == 0 || !lex_lt(list[0].0, target) {
        0
    } else {
        1 + first_not_before(list.drop_first(), target)
    }
}

/// Where `target` has to be looked for, by the samples `list`. The first
/// sample whose term is not before `target` decides: if it is `target`, the
/// line is found; if it is the very first sample, the file cannot hold
/// `target`; otherwise `target` lies between the sample before it and this
/// one. If every sample is before `target`, it lies after the last.
pub open spec fn lookup(list: Seq<(Seq<u8>, u64)>, target: Seq<u8>) -> WordOffsetRange {
    let k = first_not_before(list, target) as int;
    if list.len() == 0 {
        WordOffsetRange::Invalid
    } else if k >= list.len() {
        WordOffsetRange::After(list.last().1)
    } else if list[k].0 == target {
        WordOffsetRange::Exact(list[k].1)
    } else if k == 0 {
        WordOffsetRange::Invalid
    } else {
        WordOffsetRange::Between(list[k - 1].1, list[k].1)
    }
}

/// The postings gathered for `target` from the lines that start at `from`
/// or later and before `until`, added to `acc`. A line counts if it reads as
/// a postings list and its term is `target`; any other line is passed over.
pub open spec fn scanned(
    content: Seq<u8>,
    from: int,
    until: int,
    target: Seq<u8>,
    acc: Seq<Posting>,
) -> Seq<Posting>
    decreases content.len() - from,
{
    if from < 0 || from >= content.len() || from >= until {
        acc
    } else {
        let next = line_end(content, from);
        let found = match parsed_line(content.subrange(from, next)) {
            Ok((term, list)) => if term == target {
                merged(acc, list)
            } else {
                acc
            },
            Err(_) => acc,
        };
        scanned(content, next, until, target, found)
    }
}

/// The postings that a look-up of `target` finds in the range `range` of a
/// merged file.
pub open spec fn found_in(content: Seq<u8>, range: WordOffsetRange, target: Seq<u8>) -> Seq<
    Posting,
> {
    match range {
        WordOffsetRange::Invalid => Seq::empty(),
        WordOffsetRange::Exact(at) => scanned(content, at as int, at + 1, target, Seq::empty()),
        WordOffsetRange::Between(from, until) => scanned(
            content,
            from as int,
            until as int,
            target,
            Seq::empty(),
        ),
        WordOffsetRange::After(from) => scanned(
            content,
            from as int,
            content.len() as int,
            target,
            Seq::empty(),
        ),
    }
}

/// The text of one sample in a skip-list file: its term without the blanks
/// at either end, `:`, and its offset in decimal.
pub open spec fn entry_text(entry: (Seq<u8>, u64)) -> Seq<u8> {
    trim(entry.0) + seq![COLON] + decimal(entry.1 as nat)
}

/// The text of a skip-list file: the texts of the samples with commas
/// between them.
pub open spec fn sidecar_text(list: Seq<(Seq<u8>, u64)>) -> Seq<u8>
    decreases list.len(),
{
    if list.len() == 0 {
        Seq::empty()
    } else if list.len() == 1 {
        entry_text(list[0])
    } else {
        sidecar_text(list.drop_last()) + seq![COMMA] + entry_text(list.last())
    }
}

/// The sample that one piece of a skip-list file denotes: a term, `:`, and
/// an offset that fits 64 bits. Any other piece denotes none.
pub open spec fn entry_of(piece: Seq<u8>) -> Option<(Seq<u8>, u64)> {
    let k = position(piece, COLON) as int;
    if k >= piece.len() {
        None
    } else {
        match bounded_numeral(piece.skip(k + 1), u64::MAX as nat) {
            Some(offset) => Some((piece.subrange(0, k), offset as u64)),
            None => None,
        }
    }
}

/// The samples that a skip-list file denotes: those of its comma-separated
/// pieces, in order; pieces that denote no sample are left out.
pub open spec fn entries_from(text: Seq<u8>) -> Seq<(Seq<u8>, u64)>
    decreases text.len(),
{
    let k = position(text, COMMA) as int;
    if k >= text.len() {
        match entry_of(text) {
            Some(entry) => seq![entry],
            None => Seq::empty(),
        }
    } else {
        let rest = entries_from(text.skip(k + 1));
        match entry_of(text.subrange(0, k)) {
            Some(entry) => seq![entry] + rest,
            None => rest,
        }
    }
}

/// Finds the end of the line that starts at `from`.
pub fn next_line(content: &[u8], from: usize) -> (next: usize)
    requires
        from < content@.len(),
    ensures
        from < next <= content@.len(),
        next == line_end(content@, from as int),
{
    let feed = find_byte(content, from, content.len(), NEWLINE);
    assert(content@.subrange(from as int, content@.len() as int) =~= content@.skip(from as int));
    if feed < content.len() {
        feed + 1
    } else {
        feed
    }
}

impl FileSkip {
    /// Samples the merged file `content` of `character`: every line whose
    /// number, counted from 0, is a multiple of `PARTITION` gives one sample.
    pub fn build_skip_list(character: char, content: &[u8]) -> (list: Vec<FileSkip>)
        ensures
            entries(list@) == samples(content@, 0, 0),
            forall|i: int| 0 <= i < list@.len() ==> (#[trigger] list@[i]).character == character,
    {
        let mut list: Vec<FileSkip> = Vec::new();
        let mut from: usize = 0;
        let mut index: usize = 0;
        assert(entries(list@) =~= Seq::<(Seq<u8>, u64)>::empty());
        while from < content.len()
            invariant
                from <= content@.len(),
                index <= from,
                samples(content@, 0, 0) == entries(list@) + samples(
                    content@,
                    from as int,
                    index as nat,
                ),
                forall|i: int|
                    0 <= i < list@.len() ==> (#[trigger] list@[i]).character == character,
            decreases content@.len() - from,
        {
            let next = next_line(content, from);
            let ghost before = entries(list@);
            if index % PARTITION == 0 {
                let colon = find_byte(content, from, next, COLON);
                let word = slice_to_vec(slice_subrange(content, from, colon));
                assert(word@ =~= key_at(content@, from as int));
                list.push(FileSkip { character, word, byte_offset: from as u64 });
                assert(entries(list@) =~= before + seq![(key_at(content@, from as int), from as u64)]);
            }
            assert(entries(list@) + samples(content@, next as int, (index + 1) as nat) =~= before
                + samples(content@, from as int, index as nat));
            from = next;
            index += 1;
        }
        assert(entries(list@) + Seq::<(Seq<u8>, u64)>::empty() =~= entries(list@));
        list
    }

    /// The skip-list file of `skip_list`: the character whose file it is,
    /// taken from the first sample, and its text. An empty list has no file.
    pub fn write_skip_list(skip_list: &Vec<FileSkip>) -> (file: Option<(char, Vec<u8>)>)
        ensures
            match file {
                None => skip_list@.len() == 0,
                Some((character, text)) => {
                    &&& skip_list@.len() > 0
                    &&& character == skip_list@[0].character
                    &&& text@ == sidecar_text(entries(skip_list@))
                },
            },
    {
        if skip_list.len() == 0 {
            return None;
        }
        let ghost list = entries(skip_list@);
        let mut out: Vec<u8> = Vec::new();
        let mut i: usize = 0;
        assert(list.subrange(0, 0) =~= Seq::<(Seq<u8>, u64)>::empty());
        while i < skip_list.len()
            invariant
                i <= skip_list@.len(),
                list == entries(skip_list@),
                out@ == sidecar_text(list.subrange(0, i as int)),
            decreases skip_list@.len() - i,
        {
            let ghost done = list.subrange(0, i as int);
            let ghost next = list.subrange(0, i + 1);
            assert(next.drop_last() =~= done);
            assert(next.last() == list[i as int]);
            if i > 0 {
                out.push(COMMA);
            }
            let word = skip_list[i].word.as_slice();
            let (from, to) = trim_range(word, 0, word.len());
            assert(word@.subrange(0, word@.len() as int) =~= word@);
            let mut k: usize = from;
            let ghost start = out@;
            while k < to
                invariant
                    from <= k <= to <= word@.len(),
                    out@ == start + word@.subrange(from as int, k as int),
                decreases to - k,
            {
                out.push(word[k]);
                assert(out@ =~= start + word@.subrange(from as int, k + 1));
                k += 1;
            }
            out.push(COLON);
            append_decimal(&mut out, skip_list[i].byte_offset);
            assert(out@ =~= start + entry_text(list[i as int]));
            i += 1;
        }
        assert(list.subrange(0, i as int) =~= list);
        Some((skip_list[0].character, out))
    }

    /// Reads the skip list of `character` from the text of its file; see
    /// `entries_from`.
    pub fn read_skip_list(character: char, content: &[u8]) -> (list: Vec<FileSkip>)
        ensures
            entries(list@) == entries_from(content@),
            forall|i: int| 0 <= i < list@.len() ==> (#[trigger] list@[i]).character == character,
    {
        let len = content.len();
        let mut list: Vec<FileSkip> = Vec::new();
        let mut at: usize = 0;
        assert(content@.skip(0) =~= content@);
        assert(entries(list@) =~= Seq::<(Seq<u8>, u64)>::empty());
        loop
            invariant
                at <= len,
                len == content@.len(),
                entries_from(content@) == entries(list@) + entries_from(content@.skip(at as int)),
                forall|i: int|
                    0 <= i < list@.len() ==> (#[trigger] list@[i]).character == character,
            decreases len - at,
        {
            let ghost rest = content@.skip(at as int);
            let ghost before = entries(list@);
            let comma = find_byte(content, at, len, COMMA);
            assert(content@.subrange(at as int, len as int) =~= rest);
            let ghost piece = content@.subrange(at as int, comma as int);
            assert(rest.subrange(0, comma - at) =~= piece);
            let colon = find_byte(content, at, comma, COLON);
            if colon < comma {
                assert(piece.skip(colon - at + 1) =~= content@.subrange(colon + 1, comma as int));
                assert(piece.subrange(0, colon - at) =~= content@.subrange(
                    at as int,
                    colon as int,
                ));
                match parse_numeral(content, colon + 1, comma, u64::MAX) {
                    Some(byte_offset) => {
                        let word = slice_to_vec(slice_subrange(content, at, colon));
                        list.push(FileSkip { character, word, byte_offset });
                        assert(entries(list@) =~= before + seq![entry_of(piece).unwrap()]);
                    },
                    None => {},
                }
            }
            if comma >= len {
                assert(piece =~= rest);
                assert(entries(list@) =~= before + entries_from(rest));
                assert(entries(list@) + Seq::<(Seq<u8>, u64)>::empty() =~= entries(list@));
                return list;
            }
            assert(rest.skip(comma - at + 1) =~= content@.skip(comma + 1));
            assert(entries(list@) + entries_from(content@.skip(comma + 1)) =~= before
                + entries_from(rest));
            at = comma + 1;
        }
    }

    /// Tells where `word` has to be looked for; see `lookup`.
    pub fn find_skip_entry(skip_list: &Vec<FileSkip>, word: &str) -> (range: WordOffsetRange)
        ensures
            range == lookup(entries(skip_list@), encode_utf8(word@)),
    {
        let target = word.as_bytes();
        let ghost list = entries(skip_list@);
        let mut i: usize = 0;
        assert(list.skip(0) =~= list);
        while i < skip_list.len() && bytes_less(skip_list[i].word.as_slice(), target)
            invariant
                i <= skip_list@.len(),
                list == entries(skip_list@),
                target@ == encode_utf8(word@),
                first_not_before(list, target@) == i + first_not_before(
                    list.skip(i as int),
                    target@,
                ),
            decreases skip_list@.len() - i,
        {
            assert(list.skip(i as int)[0] == list[i as int]);
            assert(list.skip(i as int).drop_first() =~= list.skip(i + 1));
            i += 1;
        }
        proof {
            if i < skip_list.len() {
                assert(list.skip(i as int)[0] == list[i as int]);
            }
        }
        if skip_list.len() == 0 {
            WordOffsetRange::Invalid
        } else if i >= skip_list.len() {
            WordOffsetRange::After(skip_list[skip_list.len() - 1].byte_offset)
        } else if bytes_equal(skip_list[i].word.as_slice(), target) {
            WordOffsetRange::Exact(skip_list[i].byte_offset)
        } else if i == 0 {
            WordOffsetRange::Invalid
        } else {
            WordOffsetRange::Between(skip_list[i - 1].byte_offset, skip_list[i].byte_offset)
        }
    }
}

/// Builds the skip list of a merged file from its lines as they are
/// written or read, one by one, without holding the file.
pub struct SkipListBuilder {
    character: char,
    offset: u64,
    lines: u64,
    closed: bool,
    list: Vec<FileSkip>,
    seen: Ghost<Seq<u8>>,
}

impl SkipListBuilder {
    /// The lines taken so far, one after the other.
    pub closed spec fn content(&self) -> Seq<u8> {
        self.seen@
    }

    /// The character of the merged file.
    pub closed spec fn character(&self) -> char {
        self.character
    }

    /// The samples taken so far.
    pub closed spec fn taken(&self) -> Seq<(Seq<u8>, u64)> {
        entries(self.list@)
    }

    /// The invariant of the builder: the samples taken are those of the
    /// lines taken.
    pub closed spec fn wf(&self) -> bool {
        &&& self.offset == self.seen@.len()
        &&& self.lines == crate::skip_list_laws::line_count(self.seen@, 0)
        &&& self.closed == crate::skip_list_laws::ends_lines(self.seen@)
        &&& entries(self.list@) == samples(self.seen@, 0, 0)
        &&& forall|i: int|
            0 <= i < self.list@.len() ==> (#[trigger] self.list@[i]).character == self.character
    }

    /// A builder for the merged file of `character`, with no line taken.
    pub fn new(character: char) -> (builder: SkipListBuilder)
        ensures
            builder.wf(),
            builder.character() == character,
            builder.content() == Seq::<u8>::empty(),
    {
        let builder = SkipListBuilder {
            character,
            offset: 0,
            lines: 0,
            closed: true,
            list: Vec::new(),
            seen: Ghost(Seq::empty()),
        };
        assert(entries(builder.list@) =~= samples(builder.seen@, 0, 0));
        builder
    }

    /// Takes the next line of the file, with its line feed if it has one.
    /// A line is refused, and nothing changes, if it is empty or holds a
    /// line feed before its end, if the line before it had no line feed, or
    /// if the file would grow beyond what an offset can tell.
    pub fn add_line(&mut self, line: &[u8]) -> (taken: bool)
        requires
            old(self).wf(),
        ensures
            final(self).wf(),
            final(self).character() == old(self).character(),
            taken == (crate::skip_list_laws::is_one_line(line@)
                && crate::skip_list_laws::ends_lines(old(self).content()) && old(
                self,
            ).content().len() + line@.len() <= u64::MAX),
            taken ==> final(self).content() == old(self).content() + line@,
            !taken ==> final(self).content() == old(self).content() && final(self).taken() == old(
                self,
            ).taken(),
    {
        let len = line.len();
        if len == 0 || !self.closed || len as u64 > u64::MAX - self.offset {
            return false;
        }
        let feed = find_byte(line, 0, len, NEWLINE);
        assert(line@.subrange(0, len as int) =~= line@);
        if feed < len - 1 {
            return false;
        }
        let ghost before = self.seen@;
        let ghost held = entries(self.list@);
        proof {
            if before.len() > 0 {
                assert(crate::skip_list_laws::starts_line(before, 0, 0));
            }
            crate::skip_list_laws::lemma_samples_appended(before, line@, 0, 0);
            crate::skip_list_laws::lemma_line_count_bound(before + line@, 0);
        }
        if self.lines % PARTITION as u64 == 0 {
            let colon = find_byte(line, 0, len, COLON);
            let word = slice_to_vec(slice_subrange(line, 0, colon));
            self.list.push(
                FileSkip { character: self.character, word, byte_offset: self.offset },
            );
            assert(entries(self.list@) =~= held + seq![(key_of(line@), before.len() as u64)]);
        } else {
            assert(entries(self.list@) =~= held + Seq::<(Seq<u8>, u64)>::empty());
        }
        self.closed = feed < len;
        self.offset = self.offset + len as u64;
        self.lines = self.lines + 1;
        self.seen = Ghost(before + line@);
        proof {
            let whole = before + line@;
            assert(whole.last() == line@[len - 1]);
        }
        true
    }

    /// The skip list of the lines taken.
    pub fn finish(self) -> (list: Vec<FileSkip>)
        requires
            self.wf(),
        ensures
            entries(list@) == samples(self.content(), 0, 0),
            forall|i: int|
                0 <= i < list@.len() ==> (#[trigger] list@[i]).character == self.character(),
    {
        self.list
    }
}

/// Gathers the postings of `word` from the lines of a merged file that
/// `offset_range` points at. Each line in the range is read; those that are
/// postings lists of `word` are united, the others passed over.
pub fn get_postings_from_offset_range(
    content: &[u8],
    offset_range: WordOffsetRange,
    word: &str,
) -> (found: Postings)
    ensures
        found.wf(),
        found.word_view() == word@,
        found@ == found_in(content@, offset_range, encode_utf8(word@)),
{
    let len = content.len();
    let (start, until): (u64, u64) = match offset_range {
        WordOffsetRange::Invalid => (0, 0),
        WordOffsetRange::Exact(at) => (
            at,
            if at < u64::MAX {
                at + 1
            } else {
                at
            },
        ),
        WordOffsetRange::Between(from, until) => (from, until),
        WordOffsetRange::After(from) => (from, u64::MAX),
    };
    let target = word.as_bytes();
    let mut list: Vec<Posting> = Vec::new();
    if start < len as u64 {
        let mut from: usize = start as usize;
        while from < len && (from as u64) < until
            invariant
                from <= len,
                len == content@.len(),
                target@ == encode_utf8(word@),
                strictly_increasing(list@),
                scanned(content@, start as int, until as int, target@, Seq::empty()) == scanned(
                    content@,
                    from as int,
                    until as int,
                    target@,
                    list@,
                ),
            decreases len - from,
        {
            let next = next_line(content, from);
            match Postings::from_bytes(slice_subrange(content, from, next)) {
                Ok(line) => {
                    if bytes_equal(line.term_text().as_bytes(), target) {
                        proof {
                            lemma_merged_increasing(list@, line@);
                        }
                        list = merge_lists(&list, line.get_postings());
                    }
                },
                Err(_) => {},
            }
            from = next;
        }
    }
    proof {
        if let WordOffsetRange::After(from) = offset_range {
            lemma_scan_to_end(
                content@,
                from as int,
                content@.len() as int,
                until as int,
                encode_utf8(word@),
                Seq::empty(),
            );
        }
    }
    Postings::from_sorted(word.to_owned(), list)
}

/// A limit at or after the end of the file never stops a scan, so any two
/// such limits give the same result.
pub proof fn lemma_scan_to_end(
    content: Seq<u8>,
    from: int,
    until: int,
    other: int,
    target: Seq<u8>,
    acc: Seq<Posting>,
)
    requires
        until >= content.len(),
        other >= content.len(),
    ensures
        scanned(content, from, until, target, acc) == scanned(content, from, other, target, acc),
    decreases content.len() - from,
{
    if 0 <= from < content.len() {
        let next = line_end(content, from);
        let found = match parsed_line(content.subrange(from, next)) {
            Ok((term, list)) => if term == target {
                merged(acc, list)
            } else {
                acc
            },
            Err(_) => acc,
        };
        lemma_scan_to_end(content, next, until, other, target, found);
    }
}

} // verus!
