//! The id book: one record of fixed width for each document, with its URL
//! and the path of its source, so that the record of a document is found at
//! an offset that its id alone gives.

use vstd::prelude::*;
use vstd::slice::{slice_subrange, slice_to_vec};
use vstd::string::StrSliceExecFns;
use vstd::utf8::{encode_utf8, valid_utf8};
use crate::file_skip_list::{line_end, next_line};
use crate::text::{
    cut_text, find_byte, position, string_from_utf8, trim, trim_range, NEWLINE, PIPE,
};

verus! {

/// The width of a record in bytes, its line feed included.
pub const RECORD_WIDTH: usize = 400;

/// The byte `/`.
pub const SLASH: u8 = 47;

/// The space, with which a record is filled.
pub const SPACE: u8 = 32;

/// What the id book says of one document.
#[derive(Debug)]
pub struct IDBookElement {
    pub id: u16,
    pub url: String,
    pub path: String,
}

/// The scheme and host of a URL: what stands before its first `/`, then
/// `//`, then what stands between its second and its third `/`. A URL with
/// fewer than two `/` is its own domain.
pub open spec fn domain_of(url: Seq<u8>) -> Seq<u8> {
    let first = position(url, SLASH) as int;
    let second = first + 1 + position(url.skip(first + 1), SLASH);
    let third = second + 1 + position(url.skip(second + 1), SLASH);
    if first >= url.len() || second >= url.len() {
        url
    } else {
        url.subrange(0, first) + seq![SLASH, SLASH] + url.subrange(second + 1, third)
    }
}

/// The URL and the path that a record denotes: what stands before and after
/// its first `|`, each without the blanks at its ends. A record without `|`
/// denotes nothing.
pub open spec fn record_of(line: Seq<u8>) -> Option<(Seq<u8>, Seq<u8>)> {
    let bar = position(line, PIPE) as int;
    if bar >= line.len() {
        None
    } else {
        Some((trim(line.subrange(0, bar)), trim(line.skip(bar + 1))))
    }
}

/// The offset of the record of document `id` in the id book.
pub open spec fn record_offset(id: u16) -> int {
    RECORD_WIDTH * id
}

/// The record of a document as it stands in the id book: `url | path`, cut
/// or filled with spaces to one byte less than the width of a record, and a
/// line feed.
pub open spec fn record_text(url: Seq<u8>, path: Seq<u8>) -> Seq<u8> {
    let line = url + seq![SPACE, PIPE, SPACE] + path;
    if line.len() >= RECORD_WIDTH - 1 {
        line.subrange(0, RECORD_WIDTH - 1) + seq![NEWLINE]
    } else {
        line + Seq::new((RECORD_WIDTH - 1 - line.len()) as nat, |i: int| SPACE) + seq![NEWLINE]
    }
}

impl IDBookElement {
    /// The record of document `id`.
    pub fn new(id: u16, url: String, path: String) -> (element: IDBookElement)
        ensures
            element.id == id,
            element.url == url,
            element.path == path,
    {
        IDBookElement { id, url, path }
    }

    /// The scheme and host of the URL; see `domain_of`.
    pub fn get_domain(&self) -> (domain: String)
        ensures
            encode_utf8(domain@) == domain_of(encode_utf8(self.url@)),
    {
        let url = self.url.as_str();
        let bytes = url.as_bytes();
        let len = bytes.len();
        let first = find_byte(bytes, 0, len, SLASH);
        assert(bytes@.subrange(0, len as int) =~= bytes@);
        if first >= len {
            return self.url.clone();
        }
        let second = find_byte(bytes, first + 1, len, SLASH);
        assert(bytes@.subrange(first + 1, len as int) =~= bytes@.skip(first + 1));
        if second >= len {
            return self.url.clone();
        }
        let third = find_byte(bytes, second + 1, len, SLASH);
        assert(bytes@.subrange(second + 1, len as int) =~= bytes@.skip(second + 1));
        let scheme = cut_text(url, 0, first);
        let host = cut_text(url, second + 1, third);
        let mut domain = scheme.as_str().as_bytes_vec();
        domain.push(SLASH);
        domain.push(SLASH);
        let mut rest = host.as_str().as_bytes_vec();
        domain.append(&mut rest);
        proof {
            let middle = seq![SLASH, SLASH];
            vstd::utf8::encode_utf8_valid_utf8(scheme@);
            vstd::utf8::encode_utf8_valid_utf8(host@);
            crate::text::lemma_ascii_is_valid(middle);
            vstd::utf8::valid_utf8_concat(encode_utf8(scheme@), middle);
            vstd::utf8::valid_utf8_concat(encode_utf8(scheme@) + middle, encode_utf8(host@));
            assert(domain@ =~= encode_utf8(scheme@) + middle + encode_utf8(host@));
        }
        crate::text::text_of_bytes(domain)
    }

    /// Reads the record `line` of document `id`; see `record_of`.
    pub fn idbook_element_from_string(id: u16, line: &str) -> (element: Option<IDBookElement>)
        ensures
            match element {
                Some(e) => e.id == id && record_of(encode_utf8(line@)) == Some(
                    (encode_utf8(e.url@), encode_utf8(e.path@)),
                ),
                None => record_of(encode_utf8(line@)) is None,
            },
    {
        let bytes = line.as_bytes();
        let len = bytes.len();
        let bar = find_byte(bytes, 0, len, PIPE);
        assert(bytes@.subrange(0, len as int) =~= bytes@);
        if bar >= len {
            return None;
        }
        assert(bytes@.subrange(bar + 1, len as int) =~= bytes@.skip(bar + 1));
        let (url_from, url_to) = trim_range(bytes, 0, bar);
        let (path_from, path_to) = trim_range(bytes, bar + 1, len);
        let url = cut_text(line, url_from, url_to);
        let path = cut_text(line, path_from, path_to);
        Some(IDBookElement { id, url, path })
    }

    /// Reads the record of document `id` from the id book `book`: the line
    /// that starts at the offset of the record. There is none if the book
    /// ends before it, or the line is not text or not a record.
    pub fn get_doc_from_id(id: u16, book: &[u8]) -> (element: Option<IDBookElement>)
        ensures
            match element {
                Some(e) => {
                    &&& e.id == id
                    &&& record_offset(id) < book@.len()
                    &&& valid_utf8(record_line(book@, id))
                    &&& record_of(record_line(book@, id)) == Some(
                        (encode_utf8(e.url@), encode_utf8(e.path@)),
                    )
                },
                None => {
                    ||| record_offset(id) >= book@.len()
                    ||| !valid_utf8(record_line(book@, id))
                    ||| record_of(record_line(book@, id)) is None
                },
            },
    {
        let at = offset_of(id);
        if at >= book.len() as u64 {
            return None;
        }
        let from = at as usize;
        let next = next_line(book, from);
        let line = match string_from_utf8(slice_to_vec(slice_subrange(book, from, next))) {
            None => {
                return None;
            },
            Some(line) => line,
        };
        proof {
            vstd::utf8::decode_utf8_encode_utf8(book@.subrange(from as int, next as int));
        }
        IDBookElement::idbook_element_from_string(id, line.as_str())
    }
}

/// The line of the id book that starts at the offset of the record of `id`.
pub open spec fn record_line(book: Seq<u8>, id: u16) -> Seq<u8> {
    book.subrange(record_offset(id), line_end(book, record_offset(id)))
}

/// Computes `record_offset`.
pub fn offset_of(id: u16) -> (offset: u64)
    ensures
        offset == record_offset(id),
{
    let offset: u64 = 400 * (id as u64);
    assert(offset == RECORD_WIDTH * id) by (nonlinear_arith)
        requires
            offset == 400 * id,
            RECORD_WIDTH == 400,
    ;
    offset
}

/// Writes the record of a document; see `record_text`.
pub fn write_record(url: &str, path: &str) -> (record: Vec<u8>)
    ensures
        record@ == record_text(encode_utf8(url@), encode_utf8(path@)),
        record@.len() == RECORD_WIDTH,
{
    let mut line = url.as_bytes_vec();
    line.push(SPACE);
    line.push(PIPE);
    line.push(SPACE);
    let mut rest = path.as_bytes_vec();
    line.append(&mut rest);
    let ghost whole = line@;
    assert(whole =~= encode_utf8(url@) + seq![SPACE, PIPE, SPACE] + encode_utf8(path@));
    if line.len() >= RECORD_WIDTH - 1 {
        line.truncate(RECORD_WIDTH - 1);
        line.push(NEWLINE);
        assert(line@ =~= whole.subrange(0, RECORD_WIDTH - 1) + seq![NEWLINE]);
    } else {
        let ghost fill = (RECORD_WIDTH - 1 - whole.len()) as nat;
        while line.len() < RECORD_WIDTH - 1
            invariant
                whole.len() <= line@.len() <= RECORD_WIDTH - 1,
                line@ == whole + Seq::new((line@.len() - whole.len()) as nat, |i: int| SPACE),
            decreases RECORD_WIDTH - 1 - line@.len(),
        {
            line.push(SPACE);
            assert(line@ =~= whole + Seq::new((line@.len() - whole.len()) as nat, |i: int| SPACE));
        }
        line.push(NEWLINE);
        assert(line@ =~= whole + Seq::new(fill, |i: int| SPACE) + seq![NEWLINE]);
    }
    line
}

} // verus!
