//! The atomic record of the index: one document and how often a term occurs
//! in it.

use vstd::prelude::*;
use vstd::std_specs::cmp::{PartialEqSpecImpl, PartialOrdSpecImpl};
use core::cmp::Ordering;

verus! {

/// One occurrence record: `term_freq` occurrences of a term in document
/// `doc_id`.
#[derive(Debug, Clone, Copy)]
pub struct Posting {
    pub doc_id: u16,
    pub term_freq: u16,
}

/// The sum of two frequencies, held at `u16::MAX` once it no longer fits.
pub open spec fn saturating_sum(a: u16, b: u16) -> u16 {
    if a + b <= u16::MAX {
        (a + b) as u16
    } else {
        u16::MAX
    }
}

/// Adds two frequencies, saturating at `u16::MAX`.
pub fn add_frequencies(a: u16, b: u16) -> (sum: u16)
    ensures
        sum == saturating_sum(a, b),
{
    if a <= u16::MAX - b {
        a + b
    } else {
        u16::MAX
    }
}

impl Posting {
    /// The posting of `term_freq` occurrences in document `doc_id`.
    pub fn new(doc_id: u16, term_freq: u16) -> (posting: Posting)
        ensures
            posting.doc_id == doc_id,
            posting.term_freq == term_freq,
    {
        Posting { doc_id, term_freq }
    }

    /// Counts one more occurrence. A frequency that has reached `u16::MAX`
    /// stays there.
    pub fn increment_freq(&mut self)
        ensures
            final(self).doc_id == old(self).doc_id,
            final(self).term_freq == saturating_sum(old(self).term_freq, 1),
    {
        self.term_freq = add_frequencies(self.term_freq, 1);
    }
}

/// Two postings are equal when they speak of the same document.
impl PartialEq for Posting {
    fn eq(&self, other: &Self) -> (equal: bool) {
        self.doc_id == other.doc_id
    }
}

impl PartialEqSpecImpl for Posting {
    open spec fn obeys_eq_spec() -> bool {
        true
    }

    open spec fn eq_spec(&self, other: &Self) -> bool {
        self.doc_id == other.doc_id
    }
}

impl Eq for Posting {}

/// Postings are ordered by document.
impl PartialOrd for Posting {
    fn partial_cmp(&self, other: &Self) -> (order: Option<Ordering>) {
        if self.doc_id < other.doc_id {
            Some(Ordering::Less)
        } else if self.doc_id == other.doc_id {
            Some(Ordering::Equal)
        } else {
            Some(Ordering::Greater)
        }
    }
}

impl PartialOrdSpecImpl for Posting {
    open spec fn obeys_partial_cmp_spec() -> bool {
        true
    }

    open spec fn partial_cmp_spec(&self, other: &Self) -> Option<Ordering> {
        if self.doc_id < other.doc_id {
            Some(Ordering::Less)
        } else if self.doc_id == other.doc_id {
            Some(Ordering::Equal)
        } else {
            Some(Ordering::Greater)
        }
    }
}

} // verus!
