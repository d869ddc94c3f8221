use meilidb::criterion::{sum_of_typos_rank, Criteria};
use meilidb::indexer::Indexer;
use meilidb::schema::SchemaAttr;
use meilidb::query::{build_raw_documents, sort_documents, window_documents, WordMatches};
use meilidb::{DocIndex, DocumentId};

fn posting(id: u64, attr: u16, wi: u16, ci: u16, len: u16) -> DocIndex {
    DocIndex {
        document_id: DocumentId(id),
        attribute: attr,
        word_index: wi,
        char_index: ci,
        char_length: len,
    }
}

// Three documents with `title` as attribute 1 and `body` as attribute 2:
// document 1 holds "hello world" in its title, document 2 holds "world"
// in its title and "hello" in its body, document 3 holds "hellish" in
// its title.

fn one_word_streams(distance: u8, exact: bool) -> Vec<WordMatches> {
    vec![
        // the query word matched "hello" in documents 1 and 2
        WordMatches {
            query_index: 0,
            distance,
            is_exact: exact,
            postings: vec![posting(1, 1, 0, 0, 5), posting(2, 2, 0, 0, 5)],
        },
        // and "hellish" in document 3, two edits away
        WordMatches {
            query_index: 0,
            distance: 2,
            is_exact: false,
            postings: vec![posting(3, 1, 0, 0, 7)],
        },
    ]
}

#[test]
fn exact_query_ranks_title_body_typo() {
    let streams = one_word_streams(0, true);
    let docs = build_raw_documents(&streams, None);
    let ranked = sort_documents(&Criteria::standard(), docs);
    let ids: Vec<u64> = ranked.iter().map(|d| d.id.0).collect();
    assert_eq!(ids, vec![1, 2, 3]);
}

#[test]
fn one_typo_query_keeps_the_same_order() {
    let streams = one_word_streams(1, false);
    let docs = build_raw_documents(&streams, None);
    let ranked = sort_documents(&Criteria::standard(), docs);
    let ids: Vec<u64> = ranked.iter().map(|d| d.id.0).collect();
    assert_eq!(ids, vec![1, 2, 3]);

    // the typo sum of the trailing document stays at least as large
    let third = ranked.iter().find(|d| d.id.0 == 3).unwrap();
    let first = ranked.iter().find(|d| d.id.0 == 1).unwrap();
    assert!(
        sum_of_typos_rank(&third.query_index, &third.distance)
            >= sum_of_typos_rank(&first.query_index, &first.distance)
    );
}

#[test]
fn synonym_matches_count_as_exact() {
    // a synonym expansion hands the same words in at distance zero
    let streams = one_word_streams(0, true);
    let docs = build_raw_documents(&streams, None);
    let ranked = sort_documents(&Criteria::standard(), docs);
    assert_eq!(ranked[0].id, DocumentId(1));
    assert!(ranked[0].is_exact.iter().all(|e| *e));
}

#[test]
fn prefix_on_the_last_word_prefers_both_words_in_one_attribute() {
    let streams = vec![
        // slot 0: "hello" in the title of 1 and the body of 2
        WordMatches {
            query_index: 0,
            distance: 0,
            is_exact: true,
            postings: vec![posting(1, 1, 0, 0, 5), posting(2, 2, 0, 0, 5)],
        },
        // slot 1: the prefix matched "world" in the titles of 1 and 2
        WordMatches {
            query_index: 1,
            distance: 0,
            is_exact: false,
            postings: vec![posting(1, 1, 1, 6, 5), posting(2, 1, 0, 0, 5)],
        },
    ];
    let docs = build_raw_documents(&streams, None);
    let ranked = sort_documents(&Criteria::standard(), docs);
    let ids: Vec<u64> = ranked.iter().map(|d| d.id.0).collect();
    assert_eq!(ids, vec![1, 2]);
}

#[test]
fn searchable_attributes_drop_other_matches() {
    let streams = one_word_streams(0, true);
    let only_title = vec![1u16];
    let docs = build_raw_documents(&streams, Some(&only_title));
    // document 2 matched only in its body, so it is gone
    let ids: Vec<u64> = docs.iter().map(|d| d.id.0).collect();
    assert_eq!(ids, vec![1, 3]);
}

#[test]
fn candidates_carry_rows_and_highlights() {
    let streams = one_word_streams(0, true);
    let docs = build_raw_documents(&streams, None);
    assert_eq!(docs.len(), 3);
    let first = &docs[0];
    assert_eq!(first.id, DocumentId(1));
    assert_eq!(first.query_index, vec![0]);
    assert_eq!(first.distance, vec![0]);
    assert_eq!(first.attribute, vec![1]);
    assert_eq!(first.word_index, vec![0]);
    assert_eq!(first.is_exact, vec![true]);
    assert_eq!(first.highlights.len(), 1);
    assert_eq!(first.highlights[0].attribute, 1);
    assert_eq!(first.highlights[0].char_index, 0);
    assert_eq!(first.highlights[0].char_length, 5);
}

#[test]
fn window_cuts_offset_and_limit() {
    let streams = one_word_streams(0, true);
    let docs = build_raw_documents(&streams, None);
    let ranked = sort_documents(&Criteria::standard(), docs);

    let page = window_documents(ranked, 1, 1);
    let ids: Vec<u64> = page.iter().map(|d| d.id.0).collect();
    assert_eq!(ids, vec![2]);

    let streams = one_word_streams(0, true);
    let docs = build_raw_documents(&streams, None);
    let ranked = sort_documents(&Criteria::standard(), docs);
    let page = window_documents(ranked, 2, 10);
    let ids: Vec<u64> = page.iter().map(|d| d.id.0).collect();
    assert_eq!(ids, vec![3]);
}

#[test]
fn distinct_caps_repeated_keys() {
    // five candidates; three share the key "red", one has "blue", one none
    let docs: Vec<meilidb::raw_document::RawDocument> = (1u64..=5)
        .map(|id| meilidb::raw_document::RawDocument {
            id: DocumentId(id),
            query_index: vec![],
            distance: vec![],
            attribute: vec![],
            word_index: vec![],
            is_exact: vec![],
            highlights: vec![],
        })
        .collect();
    let keys = vec![
        Some(b"red".to_vec()),
        Some(b"red".to_vec()),
        None,
        Some(b"blue".to_vec()),
        Some(b"red".to_vec()),
    ];
    let kept = meilidb::query::apply_distinct(docs, keys, 2);
    let ids: Vec<u64> = kept.iter().map(|d| d.id.0).collect();
    // the third "red" is dropped; keyless candidates always stay
    assert_eq!(ids, vec![1, 2, 3, 4]);

    let docs: Vec<meilidb::raw_document::RawDocument> = (1u64..=3)
        .map(|id| meilidb::raw_document::RawDocument {
            id: DocumentId(id),
            query_index: vec![],
            distance: vec![],
            attribute: vec![],
            word_index: vec![],
            is_exact: vec![],
            highlights: vec![],
        })
        .collect();
    let keys = vec![
        Some(b"red".to_vec()),
        Some(b"red".to_vec()),
        Some(b"red".to_vec()),
    ];
    let kept = meilidb::query::apply_distinct(docs, keys, 1);
    let ids: Vec<u64> = kept.iter().map(|d| d.id.0).collect();
    assert_eq!(ids, vec![1]);
}

#[test]
fn query_automata_budgets_and_prefix() {
    let automata = meilidb::query::build_query_automata("hi hello extravagant");
    assert_eq!(automata.len(), 3);
    assert_eq!(automata[0].query_index, 0);
    assert_eq!(automata[0].word, "hi");
    assert_eq!(automata[0].typo_budget, 0);
    assert!(!automata[0].is_prefix);
    assert_eq!(automata[1].word, "hello");
    assert_eq!(automata[1].typo_budget, 1);
    assert!(!automata[1].is_prefix);
    assert_eq!(automata[2].word, "extravagant");
    assert_eq!(automata[2].typo_budget, 2);
    assert!(automata[2].is_prefix);
}

#[test]
fn round_trip_index_then_rank() {
    // index three documents, then answer the query "hello" from the
    // postings the indexer produced
    let mut indexer = Indexer::new();
    indexer.index_text(DocumentId(1), SchemaAttr(1), "hello world");
    indexer.index_text(DocumentId(2), SchemaAttr(1), "world");
    indexer.index_text(DocumentId(2), SchemaAttr(2), "hello");
    indexer.index_text(DocumentId(3), SchemaAttr(1), "hellish");
    let indexed = indexer.build();

    let mut streams = Vec::new();
    for (word, run) in &indexed.words_doc_indexes {
        if word.as_slice() == b"hello" {
            streams.push(WordMatches {
                query_index: 0,
                distance: 0,
                is_exact: true,
                postings: run.as_slice().to_vec(),
            });
        }
        if word.as_slice() == b"hellish" {
            streams.push(WordMatches {
                query_index: 0,
                distance: 2,
                is_exact: false,
                postings: run.as_slice().to_vec(),
            });
        }
    }
    assert_eq!(streams.len(), 2);

    let docs = build_raw_documents(&streams, None);
    let ranked = sort_documents(&Criteria::standard(), docs);
    let ids: Vec<u64> = ranked.iter().map(|d| d.id.0).collect();
    assert_eq!(ids, vec![1, 2, 3]);
}
