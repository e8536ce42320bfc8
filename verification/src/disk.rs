//! The layout of the disk region: the postings of each term as consecutive
//! 8-byte records, the terms in ascending order, and a directory that says
//! where each term starts.

use vstd::prelude::*;
use vstd::bytes::{lemma_auto_spec_u32_to_from_le_bytes, spec_u32_from_le_bytes,
    spec_u32_to_le_bytes, u32_from_le_bytes, u32_to_le_bytes};
use vstd::slice::slice_subrange;
use crate::postings::{Posting, TermView, concat, postings_before};

verus! {

/// A directory record: where the postings of a term start in the region, and
/// how many there are.
#[derive(Debug, Clone, PartialEq, Eq)]
pub struct Term {
    pub file_offset: usize,
    pub term: String,
    pub doc_freq: u32,
}

/// A directory record, as contracts see it.
pub struct TermRecord {
    pub file_offset: nat,
    pub term: Seq<char>,
    pub doc_freq: nat,
}

impl View for Term {
    type V = TermRecord;

    open spec fn view(&self) -> TermRecord {
        TermRecord {
            file_offset: self.file_offset as nat,
            term: self.term@,
            doc_freq: self.doc_freq as nat,
        }
    }
}

/// The record of a posting: the document in 4 bytes, little-endian, then the
/// frequency in 4 bytes, little-endian.
pub open spec fn posting_bytes(posting: Posting) -> Seq<u8> {
    spec_u32_to_le_bytes(posting.document_id) + spec_u32_to_le_bytes(posting.frequency)
}

/// The posting whose record starts at `offset`.
pub open spec fn decode_posting(bytes: Seq<u8>, offset: int) -> Posting {
    Posting {
        document_id: spec_u32_from_le_bytes(bytes.subrange(offset, offset + 4)),
        frequency: spec_u32_from_le_bytes(bytes.subrange(offset + 4, offset + 8)),
    }
}

/// The records of `postings`, one after the other.
pub open spec fn postings_bytes(postings: Seq<Posting>) -> Seq<u8>
    decreases postings.len(),
{
    if postings.len() == 0 {
        Seq::empty()
    } else {
        postings_bytes(postings.drop_last()) + posting_bytes(postings.last())
    }
}

/// The region of the first `n` terms: the records of their postings, term by
/// term.
pub open spec fn region_bytes(entries: Seq<TermView>, n: int) -> Seq<u8>
    decreases n,
{
    if n <= 0 {
        Seq::empty()
    } else {
        region_bytes(entries, n - 1) + postings_bytes(concat(entries[n - 1].chunks))
    }
}

/// The directory of a region: for each term, in order, where its records
/// start and how many they are.
pub open spec fn directory_of(entries: Seq<TermView>) -> Seq<TermRecord> {
    Seq::new(
        entries.len(),
        |i: int|
            TermRecord {
                file_offset: 8 * postings_before(entries, i),
                term: entries[i].term,
                doc_freq: concat(entries[i].chunks).len(),
            },
    )
}

/// A record decodes to its posting.
pub proof fn lemma_decode_posting(bytes: Seq<u8>, offset: int, posting: Posting)
    requires
        0 <= offset,
        offset + 8 <= bytes.len(),
        bytes.subrange(offset, offset + 8) == posting_bytes(posting),
    ensures
        decode_posting(bytes, offset) == posting,
{
    lemma_auto_spec_u32_to_from_le_bytes();
    let record = bytes.subrange(offset, offset + 8);
    assert(bytes.subrange(offset, offset + 4) =~= record.subrange(0, 4));
    assert(bytes.subrange(offset + 4, offset + 8) =~= record.subrange(4, 8));
    assert(record.subrange(0, 4) =~= spec_u32_to_le_bytes(posting.document_id));
    assert(record.subrange(4, 8) =~= spec_u32_to_le_bytes(posting.frequency));
}

/// The records of `postings` take 8 bytes each, and record `k` is that of
/// posting `k`.
pub proof fn lemma_postings_bytes(postings: Seq<Posting>)
    ensures
        postings_bytes(postings).len() == 8 * postings.len(),
        forall|k: int|
            0 <= k < postings.len() ==> postings_bytes(postings).subrange(8 * k, 8 * k + 8)
                == posting_bytes(#[trigger] postings[k]),
    decreases postings.len(),
{
    lemma_auto_spec_u32_to_from_le_bytes();
    if postings.len() > 0 {
        let front = postings.drop_last();
        lemma_postings_bytes(front);
        let all = postings_bytes(postings);
        assert forall|k: int| 0 <= k < postings.len() implies all.subrange(8 * k, 8 * k + 8)
            == posting_bytes(#[trigger] postings[k]) by {
            if k < front.len() {
                assert(front[k] == postings[k]);
                assert(all.subrange(8 * k, 8 * k + 8) =~= postings_bytes(front).subrange(
                    8 * k,
                    8 * k + 8,
                ));
            } else {
                assert(all.subrange(8 * k, 8 * k + 8) =~= posting_bytes(postings.last()));
            }
        }
    }
}

/// The region of the first `n` terms takes 8 bytes for each of their
/// postings, and holds, for each term `i` among them, the record of its
/// posting `k` at 8 times the number of postings before it.
pub proof fn lemma_region_bytes(entries: Seq<TermView>, n: int, i: int, k: int)
    requires
        0 <= i < n <= entries.len(),
        0 <= k < concat(entries[i].chunks).len(),
    ensures
        region_bytes(entries, n).len() == 8 * postings_before(entries, n),
        8 * postings_before(entries, i) + 8 * k + 8 <= region_bytes(entries, n).len(),
        region_bytes(entries, n).subrange(
            8 * postings_before(entries, i) + 8 * k,
            8 * postings_before(entries, i) + 8 * k + 8,
        ) == posting_bytes(concat(entries[i].chunks)[k]),
    decreases n,
{
    lemma_region_len(entries, n);
    lemma_region_len(entries, n - 1);
    let last = concat(entries[n - 1].chunks);
    lemma_postings_bytes(last);
    let front = region_bytes(entries, n - 1);
    let all = region_bytes(entries, n);
    let at = 8 * postings_before(entries, i) + 8 * k;
    if i < n - 1 {
        lemma_region_bytes(entries, n - 1, i, k);
        assert(all.subrange(at, at + 8) =~= front.subrange(at, at + 8));
    } else {
        assert(all.subrange(at, at + 8) =~= postings_bytes(last).subrange(8 * k, 8 * k + 8));
    }
}

/// The region of the first `n` terms takes 8 bytes for each of their
/// postings.
pub proof fn lemma_region_len(entries: Seq<TermView>, n: int)
    requires
        0 <= n <= entries.len(),
    ensures
        region_bytes(entries, n).len() == 8 * postings_before(entries, n),
    decreases n,
{
    if n > 0 {
        lemma_region_len(entries, n - 1);
        lemma_postings_bytes(concat(entries[n - 1].chunks));
    }
}

/// Appends the record of `posting` to `bytes`.
pub fn write_posting(bytes: &mut Vec<u8>, posting: Posting)
    ensures
        final(bytes)@ == old(bytes)@ + posting_bytes(posting),
{
    let ghost before = bytes@;
    let mut document = u32_to_le_bytes(posting.document_id);
    let mut frequency = u32_to_le_bytes(posting.frequency);
    bytes.append(&mut document);
    bytes.append(&mut frequency);
    assert(bytes@ =~= before + posting_bytes(posting));
}

/// Reads the posting whose record starts at `offset`.
pub fn read_posting(bytes: &Vec<u8>, offset: usize) -> (posting: Posting)
    requires
        offset + 8 <= bytes.len(),
    ensures
        posting == decode_posting(bytes@, offset as int),
{
    let document = slice_subrange(bytes.as_slice(), offset, offset + 4);
    let frequency = slice_subrange(bytes.as_slice(), offset + 4, offset + 8);
    Posting {
        document_id: u32_from_le_bytes(document),
        frequency: u32_from_le_bytes(frequency),
    }
}

} // verus!
