use meilidb::{DocIndex, Document, DocumentId, Highlight, TmpMatch};
use meilidb::raw_document::RawDocument;
use std::mem;

#[test]
fn docindex_mem_size() {
    assert_eq!(mem::size_of::<DocIndex>(), 16);
}

#[test]
fn document_from_raw_collects_matches() {
    let raw = RawDocument {
        id: DocumentId(7),
        query_index: vec![0, 1],
        distance: vec![0, 2],
        attribute: vec![1, 1],
        word_index: vec![0, 3],
        is_exact: vec![true, false],
        highlights: vec![Highlight { attribute: 1, char_index: 0, char_length: 5 }],
    };
    let doc = Document::from_raw(raw);
    assert_eq!(doc.id, DocumentId(7));
    assert_eq!(doc.highlights, vec![Highlight { attribute: 1, char_index: 0, char_length: 5 }]);
    assert_eq!(
        doc.matches,
        vec![
            TmpMatch { query_index: 0, distance: 0, attribute: 1, word_index: 0, is_exact: true },
            TmpMatch { query_index: 1, distance: 2, attribute: 1, word_index: 3, is_exact: false },
        ]
    );
}
