//! The in-memory postings index: for each term, its postings in chunks whose
//! capacities double, kept in ascending order of the terms.

use vstd::prelude::*;
use crate::order::{Comparison, compare_terms, lemma_term_lt_irreflexive, lemma_term_lt_total,
    lemma_term_lt_transitive, term_lt};

verus! {

/// The capacity of the first chunk of a term.
pub const FIRST_CHUNK_CAPACITY: u64 = 4;

/// One entry of a posting list: a document and how often the term occurs in
/// it.
#[derive(Debug, Clone, Copy, PartialEq, Eq, Structural)]
pub struct Posting {
    pub document_id: u32,
    pub frequency: u32,
}

/// The chunks of a term, each with its capacity and its postings.
pub type ChunkList = Seq<(nat, Seq<Posting>)>;

/// The postings of all chunks, in append order.
pub open spec fn concat(list: ChunkList) -> Seq<Posting>
    decreases list.len(),
{
    if list.len() == 0 {
        Seq::empty()
    } else {
        concat(list.drop_last()) + list.last().1
    }
}

/// The chunks after one more posting: into the last chunk where it has a
/// free slot, else into a new chunk of twice its capacity; the first chunk
/// has capacity 4.
pub open spec fn grow(list: ChunkList, posting: Posting) -> ChunkList {
    if list.len() == 0 {
        seq![(FIRST_CHUNK_CAPACITY as nat, seq![posting])]
    } else if list.last().1.len() == list.last().0 {
        list.push((2 * list.last().0, seq![posting]))
    } else {
        list.update(list.len() - 1, (list.last().0, list.last().1.push(posting)))
    }
}

/// The shape of a chunk list: capacities 4, 8, 16, ..., every chunk but the
/// last full, the last one neither empty nor over its capacity.
pub open spec fn well_chunked(list: ChunkList) -> bool {
    &&& list.len() >= 1
    &&& list[0].0 == FIRST_CHUNK_CAPACITY
    &&& forall|q: int, p: int|
        0 <= q && q + 1 == p && p < list.len() ==> (#[trigger] list[p]).0 == 2 * (
        #[trigger] list[q]).0
    &&& forall|k: int| 0 <= k < list.len() - 1 ==> (#[trigger] list[k]).1.len() == list[k].0
    &&& 1 <= list.last().1.len() <= list.last().0
    &&& concat(list).len() + FIRST_CHUNK_CAPACITY == list.last().0 + list.last().1.len()
}

/// Growing keeps the shape and appends the posting.
pub proof fn lemma_grow(list: ChunkList, posting: Posting)
    requires
        list.len() == 0 || well_chunked(list),
    ensures
        well_chunked(grow(list, posting)),
        concat(grow(list, posting)) == concat(list).push(posting),
        grow(list, posting).len() >= list.len(),
{
    let grown = grow(list, posting);
    if list.len() == 0 {
        assert(grown.drop_last() =~= list);
        assert(concat(grown) =~= concat(list).push(posting));
    } else if list.last().1.len() == list.last().0 {
        assert(grown.drop_last() =~= list);
        assert(concat(grown) =~= concat(list).push(posting));
        assert forall|q: int, p: int| 0 <= q && q + 1 == p && p < grown.len() implies (
        #[trigger] grown[p]).0 == 2 * (#[trigger] grown[q]).0 by {
            if p < list.len() {
                assert(list[p].0 == 2 * list[q].0);
            }
        }
    } else {
        assert(grown.drop_last() =~= list.drop_last());
        assert(concat(grown) =~= concat(list).push(posting));
        assert forall|q: int, p: int| 0 <= q && q + 1 == p && p < grown.len() implies (
        #[trigger] grown[p]).0 == 2 * (#[trigger] grown[q]).0 by {
            assert(list[p].0 == 2 * list[q].0);
        }
    }
}

/// A chunk: postings up to a fixed capacity.
#[derive(Debug)]
pub struct PostingChunk {
    capacity: u64,
    postings: Vec<Posting>,
}

impl PostingChunk {
    /// The capacity and the postings of the chunk.
    pub closed spec fn view(&self) -> (nat, Seq<Posting>) {
        (self.capacity as nat, self.postings@)
    }

    /// How many postings the chunk can hold.
    pub fn capacity(&self) -> (capacity: u64)
        ensures
            capacity == self.view().0,
    {
        self.capacity
    }

    /// How many postings the chunk holds.
    pub fn len(&self) -> (len: usize)
        ensures
            len == self.view().1.len(),
    {
        self.postings.len()
    }

    /// Posting `i` of the chunk.
    pub fn posting(&self, i: usize) -> (posting: Posting)
        requires
            i < self.view().1.len(),
        ensures
            posting == self.view().1[i as int],
    {
        self.postings[i]
    }
}

/// The views of a sequence of chunks.
pub open spec fn chunk_list(chunks: Seq<PostingChunk>) -> ChunkList {
    Seq::new(chunks.len(), |k: int| chunks[k].view())
}

/// A term of the index, as contracts see it.
pub struct TermView {
    pub term: Seq<char>,
    pub chunks: ChunkList,
}

/// A term with its document frequency and its postings.
#[derive(Debug)]
pub struct TermEntry {
    term: String,
    document_frequency: u32,
    chunks: Vec<PostingChunk>,
}

impl View for TermEntry {
    type V = TermView;

    closed spec fn view(&self) -> TermView {
        TermView { term: self.term@, chunks: chunk_list(self.chunks@) }
    }
}

impl TermEntry {
    /// The stored document frequency, which [`TermEntry::wf`] ties to the
    /// postings.
    pub closed spec fn stored_frequency(&self) -> u32 {
        self.document_frequency
    }

    /// The chunks have the shape of [`well_chunked`], and the document
    /// frequency is the number of postings.
    pub open spec fn wf(&self) -> bool {
        &&& well_chunked(self@.chunks)
        &&& self.stored_frequency() == concat(self@.chunks).len()
    }

    /// The entry of a term that has one posting.
    pub fn new(term: String, posting: Posting) -> (entry: TermEntry)
        ensures
            entry.wf(),
            entry@.term == term@,
            entry@.chunks == grow(Seq::empty(), posting),
    {
        let mut postings: Vec<Posting> = Vec::with_capacity(4);
        postings.push(posting);
        let mut chunks: Vec<PostingChunk> = Vec::new();
        chunks.push(PostingChunk { capacity: FIRST_CHUNK_CAPACITY, postings });
        let entry = TermEntry { term, document_frequency: 1, chunks };
        proof {
            lemma_grow(Seq::empty(), posting);
            assert(entry@.chunks =~= grow(Seq::empty(), posting));
        }
        entry
    }

    /// Adds a posting and counts its document.
    pub fn push(&mut self, posting: Posting)
        requires
            old(self).wf(),
            old(self).stored_frequency() < u32::MAX,
        ensures
            final(self).wf(),
            final(self)@.term == old(self)@.term,
            final(self)@.chunks == grow(old(self)@.chunks, posting),
            final(self).stored_frequency() == old(self).stored_frequency() + 1,
    {
        proof {
            lemma_grow(self@.chunks, posting);
        }
        let ghost before = self@.chunks;
        let last: usize = self.chunks.len() - 1;
        assert(before[last as int] == self.chunks@[last as int].view());
        assert(before.last() == before[last as int]);
        let capacity: u64 = self.chunks[last].capacity;
        if self.chunks[last].postings.len() as u64 == capacity {
            let mut postings: Vec<Posting> = Vec::new();
            postings.push(posting);
            self.chunks.push(PostingChunk { capacity: capacity * 2, postings });
        } else {
            let chunk = &mut self.chunks[last];
            chunk.postings.push(posting);
        }
        self.document_frequency = self.document_frequency + 1;
        assert(self@.chunks =~= grow(before, posting));
    }

    /// The term.
    pub fn term(&self) -> (term: &String)
        ensures
            term@ == self@.term,
    {
        &self.term
    }

    /// In how many documents the term occurs: the number of its postings.
    pub fn document_frequency(&self) -> (frequency: u32)
        requires
            self.wf(),
        ensures
            frequency == concat(self@.chunks).len(),
    {
        self.document_frequency
    }

    /// The number of chunks.
    pub fn chunk_count(&self) -> (count: usize)
        ensures
            count == self@.chunks.len(),
    {
        self.chunks.len()
    }

    /// Chunk `k`.
    pub fn chunk(&self, k: usize) -> (chunk: &PostingChunk)
        requires
            k < self@.chunks.len(),
        ensures
            chunk.view() == self@.chunks[k as int],
    {
        &self.chunks[k]
    }
}

/// Whether the terms of `entries` ascend strictly.
pub open spec fn ascending(entries: Seq<TermView>) -> bool {
    forall|i: int, j: int|
        0 <= i < j < entries.len() ==> term_lt((#[trigger] entries[i]).term, (
        #[trigger] entries[j]).term)
}

/// The chunks of `term` in `entries`; none where the term is not there.
pub open spec fn chunks_in(entries: Seq<TermView>, term: Seq<char>) -> ChunkList {
    if exists|i: int| 0 <= i < entries.len() && (#[trigger] entries[i]).term == term {
        let i = choose|i: int| 0 <= i < entries.len() && (#[trigger] entries[i]).term == term;
        entries[i].chunks
    } else {
        Seq::empty()
    }
}

/// The number of postings of the first `n` terms.
pub open spec fn postings_before(entries: Seq<TermView>, n: int) -> nat
    decreases n,
{
    if n <= 0 {
        0
    } else {
        postings_before(entries, n - 1) + concat(entries[n - 1].chunks).len()
    }
}

/// In an ascending sequence a term stands at one place only.
pub proof fn lemma_chunks_in_at(entries: Seq<TermView>, i: int)
    requires
        ascending(entries),
        0 <= i < entries.len(),
    ensures
        chunks_in(entries, entries[i].term) == entries[i].chunks,
{
    let term = entries[i].term;
    let j = choose|j: int| 0 <= j < entries.len() && (#[trigger] entries[j]).term == term;
    lemma_term_lt_irreflexive(term);
    if j < i {
        assert(term_lt(entries[j].term, entries[i].term));
    } else if i < j {
        assert(term_lt(entries[i].term, entries[j].term));
    }
}

/// Replacing the chunks of one term changes the count of postings by the
/// difference.
pub proof fn lemma_postings_before_update(entries: Seq<TermView>, i: int, entry: TermView, n: int)
    requires
        0 <= i < entries.len(),
        0 <= n <= entries.len(),
    ensures
        postings_before(entries.update(i, entry), n) == if i < n {
            postings_before(entries, n) - concat(entries[i].chunks).len() + concat(
                entry.chunks,
            ).len()
        } else {
            postings_before(entries, n) as int
        },
    decreases n,
{
    if n > 0 {
        lemma_postings_before_update(entries, i, entry, n - 1);
    }
}

/// Inserting a term adds its postings to the count.
pub proof fn lemma_postings_before_insert(entries: Seq<TermView>, i: int, entry: TermView, n: int)
    requires
        0 <= i <= entries.len(),
        0 <= n <= entries.len(),
    ensures
        n <= i ==> postings_before(entries.insert(i, entry), n) == postings_before(entries, n),
        n >= i ==> postings_before(entries.insert(i, entry), n + 1) == postings_before(entries, n)
            + concat(entry.chunks).len(),
    decreases n,
{
    let longer = entries.insert(i, entry);
    if n > 0 {
        lemma_postings_before_insert(entries, i, entry, n - 1);
        if n <= i {
            assert(longer[n - 1] == entries[n - 1]);
        } else {
            assert(longer[n] == entries[n - 1]);
        }
    }
    if n == i {
        assert(longer[i] == entry);
    }
}

/// The in-memory postings index.
#[derive(Debug)]
pub struct InMemoryIndex {
    entries: Vec<TermEntry>,
}

impl View for InMemoryIndex {
    type V = Seq<TermView>;

    closed spec fn view(&self) -> Seq<TermView> {
        Seq::new(self.entries.len() as nat, |i: int| self.entries[i]@)
    }
}

impl InMemoryIndex {
    /// The terms ascend strictly, and every entry is well-formed.
    pub closed spec fn wf(&self) -> bool {
        &&& ascending(self@)
        &&& forall|i: int| 0 <= i < self.entries.len() ==> (#[trigger] self.entries[i]).wf()
    }

    /// The chunks of `term`; none where the index does not hold the term.
    pub open spec fn chunks(&self, term: Seq<char>) -> ChunkList {
        chunks_in(self@, term)
    }

    /// The postings of `term`, in append order.
    pub open spec fn postings(&self, term: Seq<char>) -> Seq<Posting> {
        concat(self.chunks(term))
    }

    /// In how many documents `term` occurs.
    pub open spec fn document_frequency(&self, term: Seq<char>) -> nat {
        self.postings(term).len()
    }

    /// The number of postings of all terms.
    pub open spec fn total_postings(&self) -> nat {
        postings_before(self@, self@.len() as int)
    }

    /// Whether `after` is `before` with one more posting for `term`: the
    /// chunks of `term` have grown by it, and no other term has changed.
    pub open spec fn updated(before: InMemoryIndex, after: InMemoryIndex, term: Seq<char>, posting: Posting) -> bool {
        &&& after.chunks(term) == grow(before.chunks(term), posting)
        &&& forall|other: Seq<char>| other != term ==> after.chunks(other) == before.chunks(other)
    }

    /// What well-formedness says of the view.
    pub proof fn lemma_wf(&self)
        requires
            self.wf(),
        ensures
            ascending(self@),
            forall|i: int| 0 <= i < self@.len() ==> well_chunked((#[trigger] self@[i]).chunks),
            forall|i: int|
                0 <= i < self@.len() ==> concat((#[trigger] self@[i]).chunks).len() <= u32::MAX,
    {
        assert forall|i: int| 0 <= i < self@.len() implies well_chunked(
            (#[trigger] self@[i]).chunks,
        ) && concat(self@[i].chunks).len() <= u32::MAX by {
            assert(self.entries[i].wf());
        }
    }

    /// An index without terms.
    pub fn new() -> (index: InMemoryIndex)
        ensures
            index.wf(),
            index@.len() == 0,
    {
        InMemoryIndex { entries: Vec::new() }
    }

    /// The number of terms.
    pub fn len(&self) -> (len: usize)
        ensures
            len == self@.len(),
    {
        self.entries.len()
    }

    /// The entry of term number `i` in ascending order.
    pub fn entry(&self, i: usize) -> (entry: &TermEntry)
        requires
            self.wf(),
            i < self@.len(),
        ensures
            entry@ == self@[i as int],
            entry.wf(),
    {
        &self.entries[i]
    }

    /// Drops every term.
    pub fn clear(&mut self)
        ensures
            final(self).wf(),
            final(self)@.len() == 0,
    {
        self.entries.clear();
    }

    /// The place of the first term that does not come before `term`.
    fn lower_bound(&self, term: &str) -> (at: usize)
        requires
            self.wf(),
        ensures
            at <= self@.len(),
            forall|j: int| 0 <= j < at ==> term_lt((#[trigger] self@[j]).term, term@),
            forall|j: int| at <= j < self@.len() ==> !term_lt((#[trigger] self@[j]).term, term@),
    {
        let mut low: usize = 0;
        let mut high: usize = self.entries.len();
        while low < high
            invariant
                self.wf(),
                low <= high <= self@.len(),
                forall|j: int| 0 <= j < low ==> term_lt((#[trigger] self@[j]).term, term@),
                forall|j: int|
                    high <= j < self@.len() ==> !term_lt((#[trigger] self@[j]).term, term@),
            decreases high - low,
        {
            let mid: usize = low + (high - low) / 2;
            let middle = self.entries[mid].term.as_str();
            assert(middle@ == self@[mid as int].term);
            match compare_terms(middle, term) {
                Comparison::Before => {
                    assert forall|j: int| 0 <= j < mid + 1 implies term_lt(
                        (#[trigger] self@[j]).term,
                        term@,
                    ) by {
                        if j < mid {
                            assert(term_lt(self@[j].term, self@[mid as int].term));
                            lemma_term_lt_transitive(self@[j].term, middle@, term@);
                        }
                    }
                    low = mid + 1;
                },
                _ => {
                    assert forall|j: int| mid <= j < self@.len() implies !term_lt(
                        (#[trigger] self@[j]).term,
                        term@,
                    ) by {
                        if mid < j && term_lt(self@[j].term, term@) {
                            assert(term_lt(self@[mid as int].term, self@[j].term));
                            lemma_term_lt_transitive(middle@, self@[j].term, term@);
                        }
                    }
                    high = mid;
                },
            }
        }
        low
    }

    /// The place of `term`, where the index holds it.
    pub fn position(&self, term: &str) -> (place: Option<usize>)
        requires
            self.wf(),
        ensures
            match place {
                Some(i) => i < self@.len() && self@[i as int].term == term@,
                None => forall|j: int| 0 <= j < self@.len() ==> (#[trigger] self@[j]).term != term@,
            },
    {
        let at: usize = self.lower_bound(term);
        if at < self.entries.len() {
            let found = self.entries[at].term.as_str();
            assert(found@ == self@[at as int].term);
            match compare_terms(found, term) {
                Comparison::Same => {
                    return Some(at);
                },
                _ => {},
            }
        }
        proof {
            self.lemma_absent(term@, at as int);
        }
        None
    }

    /// Where the first term that does not come before `term` is another
    /// term, the index does not hold `term`, and `term` comes before
    /// everything from that place on.
    proof fn lemma_absent(&self, term: Seq<char>, at: int)
        requires
            self.wf(),
            0 <= at <= self@.len(),
            forall|j: int| 0 <= j < at ==> term_lt((#[trigger] self@[j]).term, term),
            forall|j: int| at <= j < self@.len() ==> !term_lt((#[trigger] self@[j]).term, term),
            at < self@.len() ==> self@[at].term != term,
        ensures
            forall|j: int| 0 <= j < self@.len() ==> (#[trigger] self@[j]).term != term,
            forall|j: int| at <= j < self@.len() ==> term_lt(term, (#[trigger] self@[j]).term),
            chunks_in(self@, term).len() == 0,
    {
        lemma_term_lt_irreflexive(term);
        assert forall|j: int| at <= j < self@.len() implies term_lt(
            term,
            (#[trigger] self@[j]).term,
        ) by {
            lemma_term_lt_total(term, self@[at].term);
            if at < j {
                assert(term_lt(self@[at].term, self@[j].term));
                lemma_term_lt_transitive(term, self@[at].term, self@[j].term);
            }
        }
    }

    /// In how many documents `term` occurs; 0 where the index does not hold
    /// it.
    pub fn frequency_of(&self, term: &str) -> (frequency: u32)
        requires
            self.wf(),
        ensures
            frequency == self.document_frequency(term@),
    {
        match self.position(term) {
            Some(i) => {
                proof {
                    lemma_chunks_in_at(self@, i as int);
                }
                self.entries[i].document_frequency()
            },
            None => 0,
        }
    }

    /// Records that `term` occurs `freq` times in document `doc_id`. A new
    /// term gets document frequency 1 and one chunk of capacity 4 with the
    /// posting. For a term that is there, the document frequency goes up by
    /// one, and the posting goes into the last chunk, or, where that one is
    /// full, into a new chunk of twice its capacity. Nothing is looked up by
    /// document: a document recorded twice counts twice.
    pub fn update_dictionary(&mut self, term: String, doc_id: u32, freq: u32)
        requires
            old(self).wf(),
            old(self).document_frequency(term@) < u32::MAX,
        ensures
            final(self).wf(),
            Self::updated(
                *old(self),
                *final(self),
                term@,
                Posting { document_id: doc_id, frequency: freq },
            ),
            final(self).postings(term@) == old(self).postings(term@).push(
                Posting { document_id: doc_id, frequency: freq },
            ),
            final(self).document_frequency(term@) == old(self).document_frequency(term@) + 1,
            final(self).total_postings() == old(self).total_postings() + 1,
    {
        let posting = Posting { document_id: doc_id, frequency: freq };
        let ghost before = self@;
        let at: usize = self.lower_bound(term.as_str());
        let mut found = false;
        if at < self.entries.len() {
            let here = self.entries[at].term.as_str();
            assert(here@ == self@[at as int].term);
            match compare_terms(here, term.as_str()) {
                Comparison::Same => {
                    found = true;
                },
                _ => {},
            }
        }
        if found {
            proof {
                lemma_chunks_in_at(before, at as int);
                assert(self.entries[at as int].wf());
                lemma_grow(before[at as int].chunks, posting);
            }
            let entry = &mut self.entries[at];
            entry.push(posting);
            proof {
                let after = self@;
                assert(after =~= before.update(at as int, after[at as int]));
                assert(ascending(after)) by {
                    assert forall|i: int, j: int| 0 <= i < j < after.len() implies term_lt(
                        (#[trigger] after[i]).term,
                        (#[trigger] after[j]).term,
                    ) by {
                        assert(term_lt(before[i].term, before[j].term));
                    }
                }
                lemma_chunks_in_at(after, at as int);
                Self::lemma_others_updated(before, after, at as int);
                lemma_postings_before_update(before, at as int, after[at as int], before.len() as int);
            }
        } else {
            proof {
                self.lemma_absent(term@, at as int);
                lemma_grow(Seq::empty(), posting);
            }
            let entry = TermEntry::new(term, posting);
            let ghost added = entry@;
            self.entries.insert(at, entry);
            proof {
                let after = self@;
                assert(after =~= before.insert(at as int, added));
                assert(ascending(after)) by {
                    assert forall|i: int, j: int| 0 <= i < j < after.len() implies term_lt(
                        (#[trigger] after[i]).term,
                        (#[trigger] after[j]).term,
                    ) by {
                        if j < at {
                            assert(term_lt(before[i].term, before[j].term));
                        } else if j == at {
                            assert(term_lt(before[i].term, added.term));
                        } else if i < at {
                            assert(term_lt(before[i].term, before[j - 1].term));
                        } else if i == at {
                            assert(term_lt(added.term, before[j - 1].term));
                        } else {
                            assert(term_lt(before[i - 1].term, before[j - 1].term));
                        }
                    }
                }
                lemma_chunks_in_at(after, at as int);
                Self::lemma_others_inserted(before, after, at as int);
                lemma_postings_before_insert(before, at as int, added, before.len() as int);
            }
        }
    }

    /// Replacing the entry at one place leaves the chunks of the other terms
    /// as they were.
    proof fn lemma_others_updated(before: Seq<TermView>, after: Seq<TermView>, at: int)
        requires
            ascending(before),
            ascending(after),
            0 <= at < before.len(),
            after == before.update(at, after[at]),
            after[at].term == before[at].term,
        ensures
            forall|other: Seq<char>|
                other != before[at].term ==> chunks_in(after, other) == chunks_in(before, other),
    {
        assert forall|other: Seq<char>| other != before[at].term implies chunks_in(after, other)
            == chunks_in(before, other) by {
            if exists|i: int| 0 <= i < before.len() && (#[trigger] before[i]).term == other {
                let i = choose|i: int| 0 <= i < before.len() && (#[trigger] before[i]).term == other;
                assert(after[i] == before[i]);
                lemma_chunks_in_at(before, i);
                lemma_chunks_in_at(after, i);
            } else {
                if exists|i: int| 0 <= i < after.len() && (#[trigger] after[i]).term == other {
                    let i = choose|i: int| 0 <= i < after.len() && (#[trigger] after[i]).term == other;
                    assert(before[i].term == other);
                }
            }
        }
    }

    /// Inserting an entry leaves the chunks of the other terms as they were.
    proof fn lemma_others_inserted(before: Seq<TermView>, after: Seq<TermView>, at: int)
        requires
            ascending(before),
            ascending(after),
            0 <= at <= before.len(),
            after == before.insert(at, after[at]),
        ensures
            forall|other: Seq<char>|
                other != after[at].term ==> chunks_in(after, other) == chunks_in(before, other),
    {
        assert forall|other: Seq<char>| other != after[at].term implies chunks_in(after, other)
            == chunks_in(before, other) by {
            if exists|i: int| 0 <= i < before.len() && (#[trigger] before[i]).term == other {
                let i = choose|i: int| 0 <= i < before.len() && (#[trigger] before[i]).term == other;
                let moved = if i < at {
                    i
                } else {
                    i + 1
                };
                assert(after[moved] == before[i]);
                lemma_chunks_in_at(before, i);
                lemma_chunks_in_at(after, moved);
            } else {
                if exists|i: int| 0 <= i < after.len() && (#[trigger] after[i]).term == other {
                    let i = choose|i: int| 0 <= i < after.len() && (#[trigger] after[i]).term == other;
                    if i < at {
                        assert(before[i].term == other);
                    } else {
                        assert(before[i - 1].term == other);
                    }
                }
            }
        }
    }
}

/// The postings of the calls that name `term`, in the order of the calls.
pub open spec fn calls_for(calls: Seq<(Seq<char>, Posting)>, term: Seq<char>) -> Seq<Posting>
    decreases calls.len(),
{
    if calls.len() == 0 {
        Seq::empty()
    } else if calls.last().0 == term {
        calls_for(calls.drop_last(), term).push(calls.last().1)
    } else {
        calls_for(calls.drop_last(), term)
    }
}

/// The chunks of a term hold its postings in the shape of [`well_chunked`],
/// or the term is not in the index and has none.
pub proof fn lemma_chunks_shape(index: InMemoryIndex, term: Seq<char>)
    requires
        index.wf(),
    ensures
        index.chunks(term).len() == 0 || well_chunked(index.chunks(term)),
{
    index.lemma_wf();
    if exists|i: int| 0 <= i < index@.len() && (#[trigger] index@[i]).term == term {
        let i = choose|i: int| 0 <= i < index@.len() && (#[trigger] index@[i]).term == term;
        assert(well_chunked(index@[i].chunks));
    }
}

/// After any sequence of updates of an empty index, the postings of a term
/// are those of the updates that named it, in their order, and its document
/// frequency is the number of these updates: a document that is recorded
/// twice counts twice.
pub proof fn lemma_frequency_counts_updates(
    states: Seq<InMemoryIndex>,
    calls: Seq<(Seq<char>, Posting)>,
    term: Seq<char>,
)
    requires
        states.len() == calls.len() + 1,
        states[0]@.len() == 0,
        forall|k: int| 0 <= k < states.len() ==> (#[trigger] states[k]).wf(),
        forall|k: int|
            0 <= k < calls.len() ==> InMemoryIndex::updated(
                states[k],
                states[k + 1],
                (#[trigger] calls[k]).0,
                calls[k].1,
            ),
    ensures
        states.last().postings(term) == calls_for(calls, term),
        states.last().document_frequency(term) == calls_for(calls, term).len(),
    decreases calls.len(),
{
    if calls.len() > 0 {
        let n = calls.len() as int;
        let front = calls.drop_last();
        let earlier = states.drop_last();
        assert forall|k: int| 0 <= k < front.len() implies InMemoryIndex::updated(
            earlier[k],
            earlier[k + 1],
            (#[trigger] front[k]).0,
            front[k].1,
        ) by {
            assert(InMemoryIndex::updated(states[k], states[k + 1], calls[k].0, calls[k].1));
        }
        lemma_frequency_counts_updates(earlier, front, term);
        assert(earlier.last() == states[n - 1]);
        assert(InMemoryIndex::updated(states[n - 1], states[n], calls[n - 1].0, calls[n - 1].1));
        if calls.last().0 == term {
            lemma_chunks_shape(states[n - 1], term);
            lemma_grow(states[n - 1].chunks(term), calls.last().1);
        }
    }
}

} // verus!
