use meilidb::indexer::Indexer;
use meilidb::schema::SchemaAttr;
use meilidb::{DocIndex, DocumentId};

#[test]
fn index_text_lowercases_words() {
    let mut indexer = Indexer::new();
    indexer.index_text(DocumentId(1), SchemaAttr(0), "Hello World");
    let indexed = indexer.build();

    let keys: Vec<&[u8]> = indexed
        .words_doc_indexes
        .iter()
        .map(|(w, _)| w.as_slice())
        .collect();
    assert_eq!(keys, vec![b"hello".as_slice(), b"world".as_slice()]);
}

#[test]
fn index_text_records_positions() {
    let mut indexer = Indexer::new();
    indexer.index_text(DocumentId(9), SchemaAttr(2), "yo lolo");
    let indexed = indexer.build();

    assert_eq!(indexed.words_doc_indexes.len(), 2);
    let (word, run) = &indexed.words_doc_indexes[0];
    assert_eq!(word.as_slice(), b"lolo");
    assert_eq!(
        run.as_slice(),
        &[DocIndex {
            document_id: DocumentId(9),
            attribute: 2,
            word_index: 1,
            char_index: 3,
            char_length: 4,
        }]
    );
    let (word, run) = &indexed.words_doc_indexes[1];
    assert_eq!(word.as_slice(), b"yo");
    assert_eq!(
        run.as_slice(),
        &[DocIndex {
            document_id: DocumentId(9),
            attribute: 2,
            word_index: 0,
            char_index: 0,
            char_length: 2,
        }]
    );
}

#[test]
fn index_text_transliterates_accents() {
    let mut indexer = Indexer::new();
    indexer.index_text(DocumentId(1), SchemaAttr(0), "aïe");
    let indexed = indexer.build();

    // both the lowercase form and its ASCII transliteration are indexed
    let keys: Vec<&[u8]> = indexed
        .words_doc_indexes
        .iter()
        .map(|(w, _)| w.as_slice())
        .collect();
    assert_eq!(keys, vec!["aie".as_bytes(), "aïe".as_bytes()]);

    // char_length counts bytes: three for the transliteration, four for
    // the two-byte accented character
    assert_eq!(indexed.words_doc_indexes[0].1.as_slice()[0].char_length, 3);
    assert_eq!(indexed.words_doc_indexes[1].1.as_slice()[0].char_length, 4);
}

#[test]
fn postings_runs_are_sorted_and_unique() {
    let mut indexer = Indexer::new();
    // index the same word for two documents, larger id first
    indexer.index_text(DocumentId(7), SchemaAttr(0), "hello hello");
    indexer.index_text(DocumentId(3), SchemaAttr(0), "hello");
    let indexed = indexer.build();

    assert_eq!(indexed.words_doc_indexes.len(), 1);
    let (word, run) = &indexed.words_doc_indexes[0];
    assert_eq!(word.as_slice(), b"hello");
    let rows = run.as_slice();
    assert!(rows.len() >= 2);
    for pair in rows.windows(2) {
        assert!(pair[0] < pair[1]);
    }
    assert_eq!(rows[0].document_id, DocumentId(3));
}

#[test]
fn docs_words_hold_word_sets() {
    let mut indexer = Indexer::new();
    indexer.index_text(DocumentId(1), SchemaAttr(0), "world hello world");
    let indexed = indexer.build();

    assert_eq!(indexed.docs_words.len(), 1);
    let (id, words) = &indexed.docs_words[0];
    assert_eq!(*id, DocumentId(1));
    assert!(words.contains(b"hello"));
    assert!(words.contains(b"world"));
    assert!(!words.contains(b"salut"));
    assert_eq!(words.len(), 2);
}

#[test]
fn word_limit_stops_an_attribute() {
    let mut indexer = Indexer::with_word_limit(1);
    indexer.index_text(DocumentId(1), SchemaAttr(0), "one two three");
    let indexed = indexer.build();

    let keys: Vec<&[u8]> = indexed
        .words_doc_indexes
        .iter()
        .map(|(w, _)| w.as_slice())
        .collect();
    assert_eq!(keys, vec![b"one".as_slice()]);
}

#[test]
fn index_text_seq_offsets_continue() {
    let mut indexer = Indexer::new();
    indexer.index_text_seq(DocumentId(1), SchemaAttr(0), vec!["hello", "world"]);
    let indexed = indexer.build();

    assert_eq!(indexed.words_doc_indexes.len(), 2);
    let (word, run) = &indexed.words_doc_indexes[1];
    assert_eq!(word.as_slice(), b"world");
    // the second text resumes one hard gap after the first
    assert_eq!(run.as_slice()[0].word_index, 8);
    assert_eq!(run.as_slice()[0].char_index, 8);
}
