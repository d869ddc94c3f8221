//! The per-candidate scratch record used during ranking: all matches of
//! one document, held as parallel arrays so that a criterion can read one
//! field without touching the others, plus the highlights to return.

use vstd::prelude::*;
use crate::{DocumentId, Highlight};

verus! {

/// All matches of one candidate document, in parallel arrays: row `i` of
/// the five arrays is one match.
#[derive(Debug, Clone)]
pub struct RawDocument {
    pub id: DocumentId,
    pub query_index: Vec<u32>,
    pub distance: Vec<u8>,
    pub attribute: Vec<u16>,
    pub word_index: Vec<u16>,
    pub is_exact: Vec<bool>,
    pub highlights: Vec<Highlight>,
}

impl RawDocument {
    /// The parallel arrays carry one row per match, and the number of
    /// rows leaves room for the ranking sums in a machine word.
    pub open spec fn wf(self) -> bool {
        &&& self.distance@.len() == self.query_index@.len()
        &&& self.attribute@.len() == self.query_index@.len()
        &&& self.word_index@.len() == self.query_index@.len()
        &&& self.is_exact@.len() == self.query_index@.len()
        &&& self.query_index@.len() <= 0xffff_ffff
    }

    /// The number of matches.
    pub open spec fn rows(self) -> int {
        self.query_index@.len() as int
    }
}

} // verus!
