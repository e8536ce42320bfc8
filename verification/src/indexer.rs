//! The indexer: counts the terms of each document, records them in the
//! in-memory postings index, and moves that index to the disk region once
//! its size crosses a threshold.

use vstd::prelude::*;
use vstd::hash_map::StringHashMap;
use crate::disk::{Term, TermRecord, decode_posting, directory_of, lemma_decode_posting,
    lemma_region_bytes, lemma_region_len, postings_bytes, read_posting, region_bytes,
    write_posting};
use crate::postings::{InMemoryIndex, Posting, TermView, concat, grow, lemma_chunks_in_at,
    postings_before};
use crate::order::term_lt;
use crate::text::views;

verus! {

/// The size of the in-memory postings above which they are moved to disk.
pub const FLUSH_THRESHOLD_BYTES: u64 = 1000;

/// How often `term` occurs among `tokens`.
pub open spec fn occurrences(tokens: Seq<Seq<char>>, term: Seq<char>) -> nat
    decreases tokens.len(),
{
    if tokens.len() == 0 {
        0
    } else {
        occurrences(tokens.drop_last(), term) + if tokens.last() == term {
            1nat
        } else {
            0nat
        }
    }
}

/// The different tokens among `tokens`, in the order of their first
/// occurrences.
pub open spec fn distinct_terms(tokens: Seq<Seq<char>>) -> Seq<Seq<char>>
    decreases tokens.len(),
{
    if tokens.len() == 0 {
        Seq::empty()
    } else if distinct_terms(tokens.drop_last()).contains(tokens.last()) {
        distinct_terms(tokens.drop_last())
    } else {
        distinct_terms(tokens.drop_last()).push(tokens.last())
    }
}

/// Whether no term stands twice in `terms`.
pub open spec fn distinct(terms: Seq<Seq<char>>) -> bool {
    forall|i: int, j: int| 0 <= i < j < terms.len() ==> #[trigger] terms[i] != #[trigger] terms[j]
}

/// A term occurs no more often than there are tokens.
pub proof fn lemma_occurrences_bound(tokens: Seq<Seq<char>>, term: Seq<char>)
    ensures
        occurrences(tokens, term) <= tokens.len(),
    decreases tokens.len(),
{
    if tokens.len() > 0 {
        lemma_occurrences_bound(tokens.drop_last(), term);
    }
}

/// The distinct terms are distinct, and they are the tokens that occur.
pub proof fn lemma_distinct_terms(tokens: Seq<Seq<char>>)
    ensures
        distinct(distinct_terms(tokens)),
        forall|term: Seq<char>|
            distinct_terms(tokens).contains(term) <==> occurrences(tokens, term) >= 1,
    decreases tokens.len(),
{
    if tokens.len() > 0 {
        let front = tokens.drop_last();
        let last = tokens.last();
        lemma_distinct_terms(front);
        let before = distinct_terms(front);
        let all = distinct_terms(tokens);
        if !before.contains(last) {
            assert forall|i: int, j: int| 0 <= i < j < all.len() implies #[trigger] all[i]
                != #[trigger] all[j] by {
                if j == before.len() {
                    assert(before[i] == all[i]);
                    assert(before.contains(before[i]));
                } else {
                    assert(before[i] != before[j]);
                }
            }
            assert forall|term: Seq<char>| all.contains(term) <==> occurrences(tokens, term)
                >= 1 by {
                if before.contains(term) {
                    let at = choose|at: int| 0 <= at < before.len() && before[at] == term;
                    assert(all[at] == term);
                }
                if term == last {
                    assert(all[before.len() as int] == term);
                }
                if all.contains(term) && term != last {
                    let at = choose|at: int| 0 <= at < all.len() && all[at] == term;
                    assert(before[at] == term);
                }
            }
        }
    }
}

/// How often each term occurs in one document.
pub struct TermFrequencies {
    counts: StringHashMap<u32>,
    terms: Vec<String>,
}

impl TermFrequencies {
    /// The terms of the document, each one once, in the order of their first
    /// occurrences.
    pub closed spec fn terms(&self) -> Seq<Seq<char>> {
        views(self.terms@)
    }

    /// How often `term` occurs; 0 where it does not.
    pub closed spec fn count(&self, term: Seq<char>) -> nat {
        if self.counts@.contains_key(term) {
            self.counts@[term] as nat
        } else {
            0
        }
    }

    /// The terms are distinct, and they are the terms with a count.
    pub closed spec fn wf(&self) -> bool {
        &&& distinct(self.terms())
        &&& forall|term: Seq<char>| self.counts@.contains_key(term) <==> self.terms().contains(term)
        &&& forall|term: Seq<char>| self.counts@.contains_key(term) ==> self.counts@[term] >= 1
    }

    /// What well-formedness says of the terms.
    pub proof fn lemma_wf(&self)
        requires
            self.wf(),
        ensures
            distinct(self.terms()),
            forall|term: Seq<char>| self.terms().contains(term) <==> self.count(term) >= 1,
            forall|term: Seq<char>| self.count(term) <= u32::MAX,
    {
    }

    /// The number of different terms.
    pub fn len(&self) -> (len: usize)
        ensures
            len == self.terms().len(),
    {
        self.terms.len()
    }

    /// Term number `i`.
    pub fn term(&self, i: usize) -> (term: &String)
        requires
            i < self.terms().len(),
        ensures
            term@ == self.terms()[i as int],
    {
        &self.terms[i]
    }

    /// How often `term` occurs, where it does.
    pub fn get(&self, term: &str) -> (count: Option<u32>)
        requires
            self.wf(),
        ensures
            match count {
                Some(count) => count == self.count(term@) && count >= 1,
                None => self.count(term@) == 0,
            },
    {
        match self.counts.get(term) {
            Some(count) => Some(*count),
            None => None,
        }
    }
}

/// What the indexer holds, as contracts see it.
pub struct IndexerView {
    /// The terms in memory, in ascending order, with their chunks.
    pub memory: Seq<TermView>,
    /// The approximate size of the postings in memory.
    pub in_memory_bytes: nat,
    /// The disk region, once there is one.
    pub disk: Option<Seq<u8>>,
    /// The directory of the disk region.
    pub directory: Seq<TermRecord>,
}

/// Why a document was not ingested.
#[derive(Debug, Clone, Copy, PartialEq, Eq, Structural)]
pub enum IngestError {
    /// The document has more tokens than a frequency can count.
    TooManyTokens,
    /// A document frequency or the byte counter would overflow.
    CounterOverflow,
}

/// The indexer.
pub struct Indexer {
    in_mem_dictionary: InMemoryIndex,
    disk_posting: Option<Vec<u8>>,
    in_memory_bytes: u64,
    disk_term_dictionary: Vec<Term>,
}

impl View for Indexer {
    type V = IndexerView;

    closed spec fn view(&self) -> IndexerView {
        IndexerView {
            memory: self.in_mem_dictionary@,
            in_memory_bytes: self.in_memory_bytes as nat,
            disk: match self.disk_posting {
                Some(bytes) => Some(bytes@),
                None => None,
            },
            directory: Seq::new(
                self.disk_term_dictionary.len() as nat,
                |i: int| self.disk_term_dictionary[i]@,
            ),
        }
    }
}

/// The postings before term `n` grow with `n`.
pub proof fn lemma_postings_before_ascends(entries: Seq<TermView>, i: int, n: int)
    requires
        0 <= i <= n,
    ensures
        postings_before(entries, i) <= postings_before(entries, n),
    decreases n - i,
{
    if i < n {
        lemma_postings_before_ascends(entries, i, n - 1);
    }
}

/// Every record of a directory lies inside the region.
pub open spec fn directory_fits(directory: Seq<TermRecord>, region: Seq<u8>) -> bool {
    forall|i: int|
        0 <= i < directory.len() ==> (#[trigger] directory[i]).file_offset + 8
            * directory[i].doc_freq <= region.len()
}

impl Indexer {
    /// The in-memory postings index.
    pub closed spec fn memory(&self) -> InMemoryIndex {
        self.in_mem_dictionary
    }

    /// The in-memory index is well-formed, the byte counter stands at 8 bytes
    /// for each posting in memory, and the directory fits the disk region.
    pub closed spec fn wf(&self) -> bool {
        &&& self.in_mem_dictionary.wf()
        &&& self.in_memory_bytes == 8 * self.in_mem_dictionary.total_postings()
        &&& match self@.disk {
            Some(region) => directory_fits(self@.directory, region),
            None => self@.directory.len() == 0,
        }
    }

    /// What well-formedness says of the view.
    pub proof fn lemma_wf(&self)
        requires
            self.wf(),
        ensures
            self.memory().wf(),
            self.memory()@ == self@.memory,
            self@.in_memory_bytes == 8 * self.memory().total_postings(),
            self@.disk is None ==> self@.directory.len() == 0,
            self@.disk is Some ==> directory_fits(self@.directory, self@.disk->0),
    {
    }

    /// Whether `after` is `before` with one posting recorded for each term of
    /// a document: the term's count in the document, under `doc_id`.
    pub open spec fn recorded(before: Indexer, after: Indexer, counts: TermFrequencies, doc_id: u32) -> bool {
        &&& forall|term: Seq<char>|
            after.memory().chunks(term) == if counts.count(term) >= 1 {
                grow(
                    before.memory().chunks(term),
                    Posting { document_id: doc_id, frequency: counts.count(term) as u32 },
                )
            } else {
                before.memory().chunks(term)
            }
        &&& after@.in_memory_bytes == before@.in_memory_bytes + 8 * counts.terms().len()
        &&& after@.disk == before@.disk
        &&& after@.directory == before@.directory
    }

    /// Whether `after` is `before` with the in-memory postings moved to disk:
    /// the region holds the postings of each term, the terms in ascending
    /// order, the directory says where each term starts, and nothing is left
    /// in memory. Once there is a disk region, nothing moves.
    pub open spec fn merged(before: Indexer, after: Indexer) -> bool {
        if before@.disk is None {
            &&& after@.memory.len() == 0
            &&& after@.in_memory_bytes == 0
            &&& after@.disk == Some(region_bytes(before@.memory, before@.memory.len() as int))
            &&& after@.disk->0.len() == before@.in_memory_bytes
            &&& after@.directory == directory_of(before@.memory)
        } else {
            after@ == before@
        }
    }

    /// Whether `counts` can be recorded without an overflow.
    pub open spec fn has_room(&self, counts: TermFrequencies) -> bool {
        &&& self@.in_memory_bytes + 8 * counts.terms().len() <= u64::MAX
        &&& forall|i: int|
            0 <= i < counts.terms().len() ==> self.memory().document_frequency(
                #[trigger] counts.terms()[i],
            ) < u32::MAX
    }

    /// An indexer with nothing in memory and nothing on disk.
    pub fn new() -> (indexer: Indexer)
        ensures
            indexer.wf(),
            indexer@.memory.len() == 0,
            indexer@.in_memory_bytes == 0,
            indexer@.disk is None,
            indexer@.directory.len() == 0,
    {
        Indexer {
            in_mem_dictionary: InMemoryIndex::new(),
            disk_posting: None,
            in_memory_bytes: 0,
            disk_term_dictionary: Vec::new(),
        }
    }

    /// Counts how often each token occurs, in one pass over `tokens`.
    pub fn calculate_term_frequencies(tokens: Vec<String>) -> (counts: TermFrequencies)
        requires
            tokens.len() <= u32::MAX,
        ensures
            counts.wf(),
            counts.terms() == distinct_terms(views(tokens@)),
            forall|term: Seq<char>| counts.count(term) == occurrences(views(tokens@), term),
    {
        let mut counts: StringHashMap<u32> = StringHashMap::new();
        let mut terms: Vec<String> = Vec::new();
        let ghost all = views(tokens@);
        let mut i: usize = 0;
        assert(views(terms@) =~= distinct_terms(all.take(0)));
        while i < tokens.len()
            invariant
                i <= tokens.len() <= u32::MAX,
                all == views(tokens@),
                views(terms@) == distinct_terms(all.take(i as int)),
                forall|term: Seq<char>|
                    counts@.contains_key(term) <==> occurrences(all.take(i as int), term) >= 1,
                forall|term: Seq<char>|
                    counts@.contains_key(term) ==> counts@[term] == occurrences(
                        all.take(i as int),
                        term,
                    ),
            decreases tokens.len() - i,
        {
            let token = tokens[i].clone();
            let ghost seen = all.take(i as int);
            proof {
                assert(all.take(i + 1).drop_last() =~= seen);
                assert(all.take(i + 1).last() == token@);
                lemma_occurrences_bound(seen, token@);
                lemma_distinct_terms(seen);
            }
            let next: u32 = match counts.get(token.as_str()) {
                Some(count) => *count + 1,
                None => {
                    let ghost before = views(terms@);
                    terms.push(token.clone());
                    assert(views(terms@) =~= before.push(token@));
                    1
                },
            };
            counts.insert(token, next);
            i += 1;
        }
        proof {
            assert(all.take(tokens.len() as int) =~= all);
            lemma_distinct_terms(all);
        }
        TermFrequencies { counts, terms }
    }

    /// Records one posting for each term of a document, and adds 8 bytes for
    /// each to the byte counter.
    pub fn process_document(&mut self, term_freq: TermFrequencies, doc_id: u32)
        requires
            old(self).wf(),
            term_freq.wf(),
            old(self).has_room(term_freq),
        ensures
            final(self).wf(),
            Self::recorded(*old(self), *final(self), term_freq, doc_id),
    {
        let count: usize = term_freq.len();
        let ghost before = self.in_mem_dictionary;
        let ghost terms = term_freq.terms();
        proof {
            term_freq.lemma_wf();
        }
        self.in_memory_bytes = self.in_memory_bytes + 8 * (count as u64);
        let mut i: usize = 0;
        while i < count
            invariant
                i <= count == terms.len(),
                terms == term_freq.terms(),
                term_freq.wf(),
                distinct(terms),
                self.in_mem_dictionary.wf(),
                self.in_mem_dictionary.total_postings() == before.total_postings() + i,
                forall|k: int|
                    0 <= k < terms.len() ==> before.document_frequency(#[trigger] terms[k])
                        < u32::MAX,
                forall|term: Seq<char>|
                    self.in_mem_dictionary.chunks(term) == if terms.take(i as int).contains(term) {
                        grow(
                            before.chunks(term),
                            Posting {
                                document_id: doc_id,
                                frequency: term_freq.count(term) as u32,
                            },
                        )
                    } else {
                        before.chunks(term)
                    },
                self.disk_posting == old(self).disk_posting,
                self.disk_term_dictionary == old(self).disk_term_dictionary,
                self.in_memory_bytes == old(self).in_memory_bytes + 8 * count,
            decreases count - i,
        {
            let term = term_freq.term(i).clone();
            let ghost done = terms.take(i as int);
            proof {
                assert(terms.take(i + 1) =~= done.push(term@));
                if done.contains(term@) {
                    let at = choose|at: int| 0 <= at < done.len() && done[at] == term@;
                    assert(terms[at] == terms[i as int]);
                }
                assert(terms.contains(terms[i as int]));
                assert(before.document_frequency(terms[i as int]) < u32::MAX);
            }
            match term_freq.get(term.as_str()) {
                Some(freq) => {
                    self.in_mem_dictionary.update_dictionary(term, doc_id, freq);
                    proof {
                        let more = terms.take(i + 1);
                        assert forall|other: Seq<char>|
                            more.contains(other) <==> (done.contains(other) || other
                                == terms[i as int]) by {
                            if done.contains(other) {
                                let at = choose|at: int| 0 <= at < done.len() && done[at] == other;
                                assert(more[at] == other);
                            }
                            if other == terms[i as int] {
                                assert(more[i as int] == other);
                            }
                            if more.contains(other) {
                                let at = choose|at: int| 0 <= at < more.len() && more[at] == other;
                                if at < i {
                                    assert(done[at] == other);
                                }
                            }
                        }
                    }
                },
                None => {
                    assert(false);
                },
            }
            i += 1;
        }
        proof {
            assert(terms.take(count as int) =~= terms);
        }
    }

    /// Moves the in-memory postings to disk, unless there is a disk region
    /// already. The region is sized to the byte counter. The terms are taken
    /// in ascending order; each gets a directory record with the offset
    /// where its postings start, and its postings are written as consecutive
    /// 8-byte records in append order. Then the in-memory index is cleared
    /// and the byte counter reset.
    pub fn merge_indices(&mut self)
        requires
            old(self).wf(),
        ensures
            final(self).wf(),
            Self::merged(*old(self), *final(self)),
    {
        if self.disk_posting.is_none() {
            let ghost entries = self.in_mem_dictionary@;
            let count: usize = self.in_mem_dictionary.len();
            let mut region: Vec<u8> = Vec::new();
            let mut directory: Vec<Term> = Vec::new();
            let mut i: usize = 0;
            while i < count
                invariant
                    self.in_mem_dictionary.wf(),
                    entries == self.in_mem_dictionary@,
                    i <= count == entries.len(),
                    region@ == region_bytes(entries, i as int),
                    directory.len() == i,
                    forall|k: int|
                        0 <= k < i ==> (#[trigger] directory[k])@ == directory_of(entries)[k],
                decreases count - i,
            {
                let entry = self.in_mem_dictionary.entry(i);
                proof {
                    lemma_region_len(entries, i as int);
                }
                directory.push(
                    Term {
                        file_offset: region.len(),
                        term: entry.term().clone(),
                        doc_freq: entry.document_frequency(),
                    },
                );
                let ghost start = region@;
                let ghost chunks = entry@.chunks;
                let chunk_count: usize = entry.chunk_count();
                let mut k: usize = 0;
                assert(concat(chunks.take(0)) =~= Seq::<Posting>::empty());
                assert(region@ =~= start + postings_bytes(concat(chunks.take(0))));
                while k < chunk_count
                    invariant
                        k <= chunk_count == chunks.len(),
                        chunks == entry@.chunks,
                        region@ == start + postings_bytes(concat(chunks.take(k as int))),
                    decreases chunk_count - k,
                {
                    let chunk = entry.chunk(k);
                    let ghost done = concat(chunks.take(k as int));
                    let ghost postings = chunks[k as int].1;
                    let len: usize = chunk.len();
                    let mut j: usize = 0;
                    assert(done + postings.take(0) =~= done);
                    while j < len
                        invariant
                            j <= len == postings.len(),
                            postings == chunk.view().1,
                            region@ == start + postings_bytes(done + postings.take(j as int)),
                        decreases len - j,
                    {
                        let posting = chunk.posting(j);
                        let ghost written = done + postings.take(j as int);
                        write_posting(&mut region, posting);
                        proof {
                            assert(done + postings.take(j + 1) =~= written.push(posting));
                            assert(written.push(posting).drop_last() =~= written);
                            assert(region@ =~= start + postings_bytes(written.push(posting)));
                        }
                        j += 1;
                    }
                    proof {
                        assert(postings.take(len as int) =~= postings);
                        assert(chunks.take(k + 1).drop_last() =~= chunks.take(k as int));
                        assert(chunks.take(k + 1).last() == chunks[k as int]);
                    }
                    k += 1;
                }
                proof {
                    assert(chunks.take(chunk_count as int) =~= chunks);
                    assert(region@ =~= region_bytes(entries, i + 1));
                }
                i += 1;
            }
            proof {
                lemma_region_len(entries, count as int);
                let records = Seq::new(directory.len() as nat, |i: int| directory[i]@);
                assert(records =~= directory_of(entries));
                assert forall|k: int| 0 <= k < records.len() implies (#[trigger] records[k]).file_offset
                    + 8 * records[k].doc_freq <= region@.len() by {
                    lemma_postings_before_ascends(entries, k + 1, count as int);
                }
            }
            self.disk_posting = Some(region);
            self.disk_term_dictionary = directory;
            self.in_mem_dictionary.clear();
            self.in_memory_bytes = 0;
        }
    }
}

/// Whether `counts` are the term frequencies of `tokens`.
pub open spec fn counted(counts: TermFrequencies, tokens: Seq<Seq<char>>) -> bool {
    &&& counts.wf()
    &&& counts.terms() == distinct_terms(tokens)
    &&& forall|term: Seq<char>| counts.count(term) == occurrences(tokens, term)
}

/// There are no more distinct terms than tokens.
pub proof fn lemma_distinct_terms_len(tokens: Seq<Seq<char>>)
    ensures
        distinct_terms(tokens).len() <= tokens.len(),
    decreases tokens.len(),
{
    if tokens.len() > 0 {
        lemma_distinct_terms_len(tokens.drop_last());
    }
}

/// The postings that the records of directory entry `record` decode to.
pub open spec fn disk_postings(region: Seq<u8>, record: TermRecord) -> Seq<Posting> {
    Seq::new(record.doc_freq, |k: int| decode_posting(region, record.file_offset + 8 * k))
}

impl Indexer {
    /// Whether `after` is what ingesting a document makes of `before`: its
    /// terms are recorded, which gives `between`, and where the byte counter
    /// is then over the threshold, the postings are moved to disk. The
    /// outcome says whether that moved anything.
    pub open spec fn ingested(
        before: Indexer,
        after: Indexer,
        tokens: Seq<Seq<char>>,
        doc_id: u32,
        outcome: Result<bool, IngestError>,
        counts: TermFrequencies,
        between: Indexer,
    ) -> bool {
        &&& counted(counts, tokens)
        &&& before.has_room(counts)
        &&& between.wf()
        &&& Self::recorded(before, between, counts, doc_id)
        &&& outcome == Ok::<bool, IngestError>(
            between@.in_memory_bytes > FLUSH_THRESHOLD_BYTES && between@.disk is None,
        )
        &&& if between@.in_memory_bytes > FLUSH_THRESHOLD_BYTES {
            Self::merged(between, after)
        } else {
            after == between
        }
    }

    /// Whether `counts` can be recorded without an overflow.
    fn check_room(&self, counts: &TermFrequencies) -> (room: bool)
        requires
            self.wf(),
            counts.terms().len() <= u32::MAX,
        ensures
            room == self.has_room(*counts),
    {
        let count: usize = counts.len();
        if self.in_memory_bytes > u64::MAX - 8 * (count as u64) {
            return false;
        }
        let mut i: usize = 0;
        while i < count
            invariant
                self.wf(),
                i <= count == counts.terms().len(),
                forall|k: int|
                    0 <= k < i ==> self.memory().document_frequency(#[trigger] counts.terms()[k])
                        < u32::MAX,
            decreases count - i,
        {
            if self.in_mem_dictionary.frequency_of(counts.term(i).as_str()) == u32::MAX {
                return false;
            }
            i += 1;
        }
        true
    }

    /// Takes one document from the pipeline: counts its terms, records them,
    /// and moves the postings to disk where the byte counter has crossed
    /// [`FLUSH_THRESHOLD_BYTES`]. Returns whether postings were moved. A
    /// document that cannot be counted or recorded without an overflow is
    /// refused, and nothing changes.
    pub fn ingest(&mut self, tokens: Vec<String>, doc_id: u32) -> (outcome: Result<
        bool,
        IngestError,
    >)
        requires
            old(self).wf(),
        ensures
            final(self).wf(),
            outcome is Ok ==> exists|counts: TermFrequencies, between: Indexer|
                #[trigger] Self::ingested(
                    *old(self),
                    *final(self),
                    views(tokens@),
                    doc_id,
                    outcome,
                    counts,
                    between,
                ),
            outcome == Err::<bool, IngestError>(IngestError::TooManyTokens) ==> tokens.len()
                > u32::MAX && *final(self) == *old(self),
            outcome == Err::<bool, IngestError>(IngestError::CounterOverflow) ==> tokens.len()
                <= u32::MAX && *final(self) == *old(self) && forall|counts: TermFrequencies|
                counted(counts, views(tokens@)) ==> !old(self).has_room(counts),
    {
        if tokens.len() > u32::MAX as usize {
            return Err(IngestError::TooManyTokens);
        }
        let ghost all = views(tokens@);
        let counts = Self::calculate_term_frequencies(tokens);
        proof {
            lemma_distinct_terms_len(all);
        }
        if !self.check_room(&counts) {
            return Err(IngestError::CounterOverflow);
        }
        let ghost taken = counts;
        let ghost before = *self;
        self.process_document(counts, doc_id);
        let ghost between = *self;
        let flushed = self.in_memory_bytes > FLUSH_THRESHOLD_BYTES && self.disk_posting.is_none();
        if self.in_memory_bytes > FLUSH_THRESHOLD_BYTES {
            self.merge_indices();
        }
        let outcome: Result<bool, IngestError> = Ok(flushed);
        assert(Self::ingested(before, *self, all, doc_id, outcome, taken, between));
        outcome
    }

    /// The approximate size of the postings in memory.
    pub fn in_memory_bytes(&self) -> (bytes: u64)
        ensures
            bytes == self@.in_memory_bytes,
    {
        self.in_memory_bytes
    }

    /// The in-memory postings index.
    pub fn dictionary(&self) -> (index: &InMemoryIndex)
        ensures
            *index == self.memory(),
    {
        &self.in_mem_dictionary
    }

    /// The disk region, once the postings have been moved.
    pub fn disk_posting(&self) -> (region: Option<&Vec<u8>>)
        ensures
            match region {
                Some(bytes) => self@.disk == Some(bytes@),
                None => self@.disk is None,
            },
    {
        match &self.disk_posting {
            Some(bytes) => Some(bytes),
            None => None,
        }
    }

    /// The directory of the disk region, in ascending order of the terms.
    pub fn disk_term_dictionary(&self) -> (directory: &Vec<Term>)
        ensures
            directory@.len() == self@.directory.len(),
            forall|i: int| 0 <= i < directory@.len() ==> (#[trigger] directory@[i])@ == self@.directory[i],
    {
        &self.disk_term_dictionary
    }

    /// Scans the directory for the first record of `term` and reads its
    /// postings from the disk region.
    pub fn read_from_disk(&self, term: &str) -> (found: Option<Vec<Posting>>)
        requires
            self.wf(),
        ensures
            match found {
                Some(postings) => exists|i: int|
                    0 <= i < self@.directory.len() && (#[trigger] self@.directory[i]).term == term@
                        && self@.disk is Some && postings@ == disk_postings(
                        self@.disk->0,
                        self@.directory[i],
                    ) && forall|k: int| 0 <= k < i ==> (#[trigger] self@.directory[k]).term != term@,
                None => forall|i: int|
                    0 <= i < self@.directory.len() ==> (#[trigger] self@.directory[i]).term
                        != term@,
            },
    {
        let region = match &self.disk_posting {
            Some(region) => region,
            None => {
                return None;
            },
        };
        let key = String::from_str(term);
        let count: usize = self.disk_term_dictionary.len();
        let mut i: usize = 0;
        while i < count
            invariant
                self.wf(),
                self@.disk == Some(region@),
                key@ == term@,
                i <= count == self@.directory.len(),
                forall|k: int| 0 <= k < i ==> (#[trigger] self@.directory[k]).term != term@,
            decreases count - i,
        {
            let record = &self.disk_term_dictionary[i];
            assert(record@ == self@.directory[i as int]);
            if record.term == key {
                let mut postings: Vec<Posting> = Vec::new();
                let mut k: u32 = 0;
                while k < record.doc_freq
                    invariant
                        k <= record.doc_freq,
                        record.file_offset + 8 * record.doc_freq <= region.len(),
                        postings@ == disk_postings(region@, record@).take(k as int),
                    decreases record.doc_freq - k,
                {
                    let posting = read_posting(region, record.file_offset + 8 * (k as usize));
                    postings.push(posting);
                    assert(postings@ =~= disk_postings(region@, record@).take(k + 1));
                    k += 1;
                }
                assert(postings@ =~= disk_postings(region@, record@));
                return Some(postings);
            }
            i += 1;
        }
        None
    }

    /// After the postings have moved to disk, every posting that was in
    /// memory can be read back: the directory holds the term with its
    /// document frequency, and the record at the term's offset plus 8 times
    /// `k` decodes to posting `k` of the term. The terms of the directory
    /// ascend, and nothing is left in memory.
    pub proof fn lemma_flush_round_trip(before: Indexer, after: Indexer, term: Seq<char>)
        requires
            before.wf(),
            before@.disk is None,
            Self::merged(before, after),
            before.memory().document_frequency(term) > 0,
        ensures
            after@.memory.len() == 0,
            forall|i: int, j: int|
                0 <= i < j < after@.directory.len() ==> term_lt(
                    (#[trigger] after@.directory[i]).term,
                    (#[trigger] after@.directory[j]).term,
                ),
            exists|i: int|
                0 <= i < after@.directory.len() && (#[trigger] after@.directory[i]).term == term
                    && after@.directory[i].doc_freq == before.memory().document_frequency(term)
                    && disk_postings(after@.disk->0, after@.directory[i]) == before.memory().postings(
                    term,
                ),
    {
        before.lemma_wf();
        before.memory().lemma_wf();
        let entries = before@.memory;
        let region = after@.disk->0;
        let i = choose|i: int| 0 <= i < entries.len() && (#[trigger] entries[i]).term == term;
        lemma_chunks_in_at(entries, i);
        let postings = concat(entries[i].chunks);
        let record = after@.directory[i];
        assert(record == directory_of(entries)[i]);
        assert forall|i: int, j: int| 0 <= i < j < after@.directory.len() implies term_lt(
            (#[trigger] after@.directory[i]).term,
            (#[trigger] after@.directory[j]).term,
        ) by {
            assert(term_lt(entries[i].term, entries[j].term));
        }
        assert forall|k: int| 0 <= k < postings.len() implies decode_posting(
            region,
            record.file_offset + 8 * k,
        ) == postings[k] by {
            lemma_region_bytes(entries, entries.len() as int, i, k);
            lemma_decode_posting(region, record.file_offset + 8 * k, postings[k]);
        }
        assert(disk_postings(region, record) =~= postings);
    }
}

} // verus!
