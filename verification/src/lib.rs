//! Core of an embedded full-text search engine: a tokenizer shared by the
//! index and the query side, a schema with attribute ids and diffing, an
//! indexer that accumulates postings per word, and the ranking criteria
//! used to order candidate documents.

pub mod byte_order;
pub mod codec;
pub mod criterion;
pub mod error;
pub mod indexer;
pub mod query;
pub mod raw_document;
pub mod schema;
pub mod tokenizer;
pub mod update;

use vstd::prelude::*;

verus! {

/// An internally generated document unique identifier.
///
/// It is derived from the document's identifier attribute and stays stable
/// across updates, which makes it usable for custom ranking.
#[derive(Debug, Copy, Clone, Eq, PartialEq, PartialOrd, Ord, Hash, Structural)]
pub struct DocumentId(pub u64);

/// The position of one occurrence of a word in a document.
///
/// Records of this shape are generated at index time, stored in the postings,
/// and interpreted at search time.
#[derive(Debug, Copy, Clone, PartialEq, Eq, PartialOrd, Ord, Hash, Structural)]
pub struct DocIndex {
    /// The document in which the word was found.
    pub document_id: DocumentId,
    /// The attribute in which the word was found.
    pub attribute: u16,
    /// The position of the word inside the attribute, in word units.
    pub word_index: u16,
    /// The position of the word inside the attribute text, in characters.
    pub char_index: u16,
    /// The length of the word, in bytes.
    pub char_length: u16,
}

/// A span of the original text to highlight in a result document.
///
/// The field order matters: highlights are ordered lexicographically on
/// `(attribute, char_index, char_length)`.
#[derive(Debug, Copy, Clone, PartialEq, Eq, PartialOrd, Ord, Hash, Structural)]
pub struct Highlight {
    /// The attribute in which the word was found.
    pub attribute: u16,
    /// The position of the word inside the attribute text, in characters.
    pub char_index: u16,
    /// The length of the word, in bytes.
    pub char_length: u16,
}

/// A transient match record produced while answering one query.
///
/// `query_index` is the slot of the query automaton that produced the match.
#[derive(Debug, Copy, Clone, PartialEq, Eq, PartialOrd, Ord, Hash, Structural)]
pub struct TmpMatch {
    pub query_index: u32,
    pub distance: u8,
    pub attribute: u16,
    pub word_index: u16,
    pub is_exact: bool,
}

/// Statistics reported for one index: how many words the vocabulary
/// holds, how many documents are stored, and how many entries the
/// ranked map carries.
#[derive(Debug, Copy, Clone, PartialEq, Eq, Structural)]
pub struct IndexStats {
    pub number_of_words: usize,
    pub number_of_documents: usize,
    pub number_attrs_in_ranked_map: usize,
}

/// A result document as returned to the caller: its identifier, the
/// spans to highlight, and the matches the ranking used.
#[derive(Debug, Clone, PartialEq, Eq)]
pub struct Document {
    pub id: DocumentId,
    pub highlights: Vec<Highlight>,
    pub matches: Vec<TmpMatch>,
}

impl Document {
    /// Folds the parallel match arrays of a ranked candidate back into a
    /// list of match records, row by row.
    pub fn from_raw(raw: crate::raw_document::RawDocument) -> (d: Document)
        requires
            raw.wf(),
        ensures
            d.id == raw.id,
            d.highlights@ == raw.highlights@,
            d.matches@.len() == raw.query_index@.len(),
            forall|i: int|
                0 <= i < d.matches@.len() ==> #[trigger] d.matches@[i] == (TmpMatch {
                    query_index: raw.query_index@[i],
                    distance: raw.distance@[i],
                    attribute: raw.attribute@[i],
                    word_index: raw.word_index@[i],
                    is_exact: raw.is_exact@[i],
                }),
    {
        let len = raw.query_index.len();
        let mut matches: Vec<TmpMatch> = Vec::new();

        let mut i: usize = 0;
        while i < len
            invariant
                0 <= i <= len,
                raw.wf(),
                len == raw.query_index@.len(),
                matches@.len() == i,
                forall|j: int|
                    0 <= j < i ==> #[trigger] matches@[j] == (TmpMatch {
                        query_index: raw.query_index@[j],
                        distance: raw.distance@[j],
                        attribute: raw.attribute@[j],
                        word_index: raw.word_index@[j],
                        is_exact: raw.is_exact@[j],
                    }),
            decreases len - i,
        {
            let match_ = TmpMatch {
                query_index: raw.query_index[i],
                distance: raw.distance[i],
                attribute: raw.attribute[i],
                word_index: raw.word_index[i],
                is_exact: raw.is_exact[i],
            };
            matches.push(match_);
            i = i + 1;
        }

        Document { id: raw.id, matches, highlights: raw.highlights }
    }
}

} // verus!
