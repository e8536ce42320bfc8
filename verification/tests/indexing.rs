use wikipedia_search_engine::disk::{read_posting, write_posting, Term};
use wikipedia_search_engine::indexer::{Indexer, FLUSH_THRESHOLD_BYTES};
use wikipedia_search_engine::order::{compare_terms, Comparison};
use wikipedia_search_engine::postings::{InMemoryIndex, Posting};

fn strings(items: &[&str]) -> Vec<String> {
    items.iter().map(|s| s.to_string()).collect()
}

fn capacities(index: &InMemoryIndex, term: &str) -> Vec<u64> {
    let entry = index.entry(index.position(term).unwrap());
    (0..entry.chunk_count()).map(|k| entry.chunk(k).capacity()).collect()
}

fn lens(index: &InMemoryIndex, term: &str) -> Vec<usize> {
    let entry = index.entry(index.position(term).unwrap());
    (0..entry.chunk_count()).map(|k| entry.chunk(k).len()).collect()
}

fn postings(index: &InMemoryIndex, term: &str) -> Vec<Posting> {
    let entry = index.entry(index.position(term).unwrap());
    let mut all = Vec::new();
    for k in 0..entry.chunk_count() {
        for j in 0..entry.chunk(k).len() {
            all.push(entry.chunk(k).posting(j));
        }
    }
    all
}

fn posting(document_id: u32, frequency: u32) -> Posting {
    Posting { document_id, frequency }
}

#[test]
fn test_calculate_term_frequencies() {
    let tokens = vec!["apple".into(), "banana".into(), "apple".into()];
    let result = Indexer::calculate_term_frequencies(tokens);
    assert_eq!(result.get("apple"), Some(2));
    assert_eq!(result.get("banana"), Some(1));
}

#[test]
fn term_frequencies_list_each_term_once_in_order_of_first_occurrence() {
    let result = Indexer::calculate_term_frequencies(strings(&["b", "a", "b", "", "c", "a", "b"]));
    assert_eq!(result.len(), 4);
    assert_eq!(result.term(0), "b");
    assert_eq!(result.term(1), "a");
    assert_eq!(result.term(2), "");
    assert_eq!(result.term(3), "c");
    assert_eq!(result.get("b"), Some(3));
    assert_eq!(result.get("a"), Some(2));
    assert_eq!(result.get(""), Some(1));
    assert_eq!(result.get("c"), Some(1));
    assert_eq!(result.get("d"), None);
    let empty = Indexer::calculate_term_frequencies(Vec::new());
    assert_eq!(empty.len(), 0);
    assert_eq!(empty.get("a"), None);
}

#[test]
fn new_term_gets_one_chunk_of_capacity_four() {
    let mut index = InMemoryIndex::new();
    assert_eq!(index.len(), 0);
    assert_eq!(index.frequency_of("term"), 0);
    index.update_dictionary("term".to_string(), 7, 3);
    assert_eq!(index.len(), 1);
    assert_eq!(index.frequency_of("term"), 1);
    assert_eq!(capacities(&index, "term"), vec![4]);
    assert_eq!(lens(&index, "term"), vec![1]);
    assert_eq!(postings(&index, "term"), vec![posting(7, 3)]);
}

#[test]
fn posting_chunk_growth() {
    let mut index = InMemoryIndex::new();
    for doc in 0..4 {
        index.update_dictionary("term".to_string(), doc, 1);
    }
    assert_eq!(capacities(&index, "term"), vec![4]);
    assert_eq!(lens(&index, "term"), vec![4]);
    index.update_dictionary("term".to_string(), 4, 1);
    assert_eq!(capacities(&index, "term"), vec![4, 8]);
    assert_eq!(lens(&index, "term"), vec![4, 1]);
    assert_eq!(index.frequency_of("term"), 5);
}

#[test]
fn chunk_capacities_keep_doubling() {
    let mut index = InMemoryIndex::new();
    for doc in 0..29 {
        index.update_dictionary("term".to_string(), doc, doc + 1);
    }
    assert_eq!(capacities(&index, "term"), vec![4, 8, 16, 32]);
    assert_eq!(lens(&index, "term"), vec![4, 8, 16, 1]);
    let expected: Vec<Posting> = (0..29).map(|doc| posting(doc, doc + 1)).collect();
    assert_eq!(postings(&index, "term"), expected);
}

#[test]
fn document_frequency_counts_every_update() {
    let mut index = InMemoryIndex::new();
    index.update_dictionary("a".to_string(), 1, 1);
    index.update_dictionary("b".to_string(), 1, 2);
    index.update_dictionary("a".to_string(), 1, 5);
    index.update_dictionary("a".to_string(), 2, 1);
    assert_eq!(index.frequency_of("a"), 3);
    assert_eq!(index.frequency_of("b"), 1);
    assert_eq!(index.frequency_of("c"), 0);
    assert_eq!(postings(&index, "a"), vec![posting(1, 1), posting(1, 5), posting(2, 1)]);
    assert_eq!(index.entry(index.position("a").unwrap()).document_frequency(), 3);
}

#[test]
fn terms_are_kept_in_ascending_byte_order() {
    let mut index = InMemoryIndex::new();
    for term in ["pear", "apple", "été", "Zebra", "app", "apple", ""] {
        index.update_dictionary(term.to_string(), 1, 1);
    }
    let terms: Vec<String> = (0..index.len()).map(|i| index.entry(i).term().clone()).collect();
    let mut sorted = strings(&["pear", "apple", "été", "Zebra", "app", ""]);
    sorted.sort_unstable();
    assert_eq!(terms, sorted);
    assert_eq!(terms, strings(&["", "Zebra", "app", "apple", "pear", "été"]));
    assert_eq!(index.position("apple"), Some(3));
    assert_eq!(index.position("apples"), None);
}

#[test]
fn compare_terms_orders_by_bytes() {
    assert_eq!(compare_terms("a", "b"), Comparison::Before);
    assert_eq!(compare_terms("b", "a"), Comparison::After);
    assert_eq!(compare_terms("a", "a"), Comparison::Same);
    assert_eq!(compare_terms("", "a"), Comparison::Before);
    assert_eq!(compare_terms("ab", "a"), Comparison::After);
    assert_eq!(compare_terms("Z", "a"), Comparison::Before);
    assert_eq!(compare_terms("z", "é"), Comparison::Before);
}

#[test]
fn posting_records_are_little_endian() {
    let mut bytes = vec![0xAA];
    write_posting(&mut bytes, posting(1, 2));
    write_posting(&mut bytes, posting(0x01020304, 0xA0B0C0D0));
    assert_eq!(
        bytes,
        vec![0xAA, 1, 0, 0, 0, 2, 0, 0, 0, 4, 3, 2, 1, 0xD0, 0xC0, 0xB0, 0xA0]
    );
    assert_eq!(read_posting(&bytes, 1), posting(1, 2));
    assert_eq!(read_posting(&bytes, 9), posting(0x01020304, 0xA0B0C0D0));
}

#[test]
fn process_document_counts_eight_bytes_for_each_distinct_term() {
    let mut indexer = Indexer::new();
    assert_eq!(indexer.in_memory_bytes(), 0);
    let counts = Indexer::calculate_term_frequencies(strings(&["a", "b", "a", "c"]));
    indexer.process_document(counts, 9);
    assert_eq!(indexer.in_memory_bytes(), 24);
    assert_eq!(postings(indexer.dictionary(), "a"), vec![posting(9, 2)]);
    assert_eq!(postings(indexer.dictionary(), "b"), vec![posting(9, 1)]);
    assert_eq!(postings(indexer.dictionary(), "c"), vec![posting(9, 1)]);
    assert!(indexer.disk_posting().is_none());
}

#[test]
fn ingest_below_the_threshold_stays_in_memory() {
    let mut indexer = Indexer::new();
    assert_eq!(indexer.ingest(strings(&["a", "b", "a"]), 0), Ok(false));
    assert_eq!(indexer.ingest(strings(&["b", "c"]), 1), Ok(false));
    assert_eq!(indexer.in_memory_bytes(), 32);
    assert_eq!(indexer.dictionary().frequency_of("a"), 1);
    assert_eq!(indexer.dictionary().frequency_of("b"), 2);
    assert_eq!(postings(indexer.dictionary(), "b"), vec![posting(0, 1), posting(1, 1)]);
    assert!(indexer.disk_posting().is_none());
    assert!(indexer.disk_term_dictionary().is_empty());
    assert_eq!(indexer.read_from_disk("a"), None);
}

#[test]
fn merge_indices_writes_the_terms_in_ascending_order() {
    let mut indexer = Indexer::new();
    indexer.process_document(Indexer::calculate_term_frequencies(strings(&["b", "a", "b"])), 1);
    indexer.process_document(Indexer::calculate_term_frequencies(strings(&["b", "c"])), 2);
    indexer.merge_indices();
    assert_eq!(
        indexer.disk_posting().unwrap(),
        &vec![
            1, 0, 0, 0, 1, 0, 0, 0, // a: document 1, once
            1, 0, 0, 0, 2, 0, 0, 0, // b: document 1, twice
            2, 0, 0, 0, 1, 0, 0, 0, // b: document 2, once
            2, 0, 0, 0, 1, 0, 0, 0, // c: document 2, once
        ]
    );
    assert_eq!(
        indexer.disk_term_dictionary(),
        &vec![
            Term { file_offset: 0, term: "a".to_string(), doc_freq: 1 },
            Term { file_offset: 8, term: "b".to_string(), doc_freq: 2 },
            Term { file_offset: 24, term: "c".to_string(), doc_freq: 1 },
        ]
    );
    assert_eq!(indexer.dictionary().len(), 0);
    assert_eq!(indexer.in_memory_bytes(), 0);
    assert_eq!(indexer.read_from_disk("b"), Some(vec![posting(1, 2), posting(2, 1)]));
    assert_eq!(indexer.read_from_disk("d"), None);
}

#[test]
fn merge_indices_of_nothing_makes_an_empty_region() {
    let mut indexer = Indexer::new();
    indexer.merge_indices();
    assert_eq!(indexer.disk_posting().unwrap(), &Vec::<u8>::new());
    assert!(indexer.disk_term_dictionary().is_empty());
}

#[test]
fn flush_round_trip() {
    let mut indexer = Indexer::new();
    let mut expected: Vec<(String, Vec<Posting>)> = Vec::new();
    let mut doc: u32 = 0;
    let mut flushed = false;
    while !flushed {
        let tokens: Vec<String> = (0..=doc % 7)
            .flat_map(|i| vec![format!("term{}", (doc + i * 3) % 11); (i as usize % 3) + 1])
            .collect();
        let counts = Indexer::calculate_term_frequencies(tokens.clone());
        for i in 0..counts.len() {
            let term = counts.term(i).clone();
            let frequency = counts.get(&term).unwrap();
            match expected.iter_mut().find(|(known, _)| *known == term) {
                Some((_, postings)) => postings.push(posting(doc, frequency)),
                None => expected.push((term, vec![posting(doc, frequency)])),
            }
        }
        let before = indexer.in_memory_bytes();
        flushed = indexer.ingest(tokens, doc).unwrap();
        if !flushed {
            assert_eq!(indexer.in_memory_bytes(), before + 8 * counts.len() as u64);
            assert!(indexer.in_memory_bytes() <= FLUSH_THRESHOLD_BYTES);
        }
        doc += 1;
    }
    let total: usize = expected.iter().map(|(_, postings)| postings.len()).sum();
    assert!(8 * total as u64 > FLUSH_THRESHOLD_BYTES);
    assert_eq!(indexer.disk_posting().unwrap().len(), 8 * total);
    assert_eq!(indexer.dictionary().len(), 0);
    assert_eq!(indexer.in_memory_bytes(), 0);
    assert_eq!(indexer.disk_term_dictionary().len(), expected.len());
    for (term, postings) in &expected {
        let record = indexer
            .disk_term_dictionary()
            .iter()
            .find(|record| record.term == *term)
            .unwrap();
        assert_eq!(record.doc_freq as usize, postings.len());
        for (k, posting) in postings.iter().enumerate() {
            let read = read_posting(indexer.disk_posting().unwrap(), record.file_offset + 8 * k);
            assert_eq!(read, *posting);
        }
        assert_eq!(indexer.read_from_disk(term), Some(postings.clone()));
    }
    let terms: Vec<&String> = indexer.disk_term_dictionary().iter().map(|r| &r.term).collect();
    let mut sorted = terms.clone();
    sorted.sort_unstable();
    assert_eq!(terms, sorted);
}

#[test]
fn postings_move_to_disk_only_once() {
    let mut indexer = Indexer::new();
    let mut doc: u32 = 0;
    while !indexer.ingest(strings(&["a", "b", "c", "d"]), doc).unwrap() {
        doc += 1;
    }
    assert_eq!(doc, 31);
    let region = indexer.disk_posting().unwrap().clone();
    assert_eq!(region.len(), 1024);
    for next in 0..40 {
        assert_eq!(indexer.ingest(strings(&["a", "b", "c", "d"]), 100 + next), Ok(false));
    }
    assert_eq!(indexer.in_memory_bytes(), 40 * 32);
    assert_eq!(indexer.dictionary().frequency_of("a"), 40);
    assert_eq!(indexer.disk_posting().unwrap(), &region);
    assert_eq!(indexer.disk_term_dictionary().len(), 4);
    assert_eq!(indexer.disk_term_dictionary()[0].doc_freq, 32);
}
