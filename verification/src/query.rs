//! The ranking half of the query pipeline: turning the matches that the
//! automata found in the vocabulary into per-document candidates,
//! ordering them under a criterion cascade, and cutting the requested
//! window.
//!
//! The vocabulary side stays with the ordered-set collaborator: it hands
//! this module, for each query automaton and each matched word, the edit
//! distance and the word's postings run.

use vstd::prelude::*;
use vstd::multiset::Multiset;
use crate::criterion::{cascade_compare, spec_cascade_cmp, Criteria, Criterion, CriterionKind};
use crate::raw_document::RawDocument;
use crate::{DocIndex, DocumentId, Highlight};
use core::cmp::Ordering;

verus! {

/// What one query automaton matched for one vocabulary word: the query
/// slot, the edit distance, whether the match counts as exact, and the
/// postings run of the matched word.
pub struct WordMatches {
    pub query_index: u32,
    pub distance: u8,
    pub is_exact: bool,
    pub postings: Vec<DocIndex>,
}

/// The mathematical content of one candidate: its document id, its match
/// rows in stream order, and its highlights.
#[verifier::ext_equal]
pub struct CandidateModel {
    pub id: u64,
    pub rows: Seq<(u32, u8, u16, u16, bool)>,
    pub highlights: Seq<Highlight>,
}

/// The content of a built candidate.
pub open spec fn doc_model(d: RawDocument) -> CandidateModel {
    CandidateModel {
        id: d.id.0,
        rows: Seq::new(
            d.query_index@.len(),
            |k: int|
                (
                    d.query_index@[k],
                    d.distance@[k],
                    d.attribute@[k],
                    d.word_index@[k],
                    d.is_exact@[k],
                ),
        ),
        highlights: d.highlights@,
    }
}

/// The content of a list of candidates.
pub open spec fn docs_models(v: Seq<RawDocument>) -> Seq<CandidateModel> {
    Seq::new(v.len(), |i: int| doc_model(v[i]))
}

/// Appends one match row under a document: an existing candidate grows,
/// a new document opens a candidate at the end.
pub open spec fn add_candidate_row(
    models: Seq<CandidateModel>,
    id: u64,
    row: (u32, u8, u16, u16, bool),
    hl: Highlight,
) -> Seq<CandidateModel>
    decreases models.len(),
{
    if models.len() == 0 {
        seq![CandidateModel { id, rows: seq![row], highlights: seq![hl] }]
    } else if models[0].id == id {
        seq![
            CandidateModel {
                id,
                rows: models[0].rows.push(row),
                highlights: models[0].highlights.push(hl),
            },
        ] + models.drop_first()
    } else {
        seq![models[0]] + add_candidate_row(models.drop_first(), id, row, hl)
    }
}

/// Whether matches in this attribute are kept, under an optional set of
/// searchable attributes.
pub open spec fn attr_allowed(filter: Option<Seq<u16>>, attr: u16) -> bool {
    match filter {
        None => true,
        Some(f) => f.contains(attr),
    }
}

/// One stream's postings folded into the candidates, from row `k` on:
/// each posting in an allowed attribute contributes one match row and
/// one highlight to its document.
pub open spec fn add_stream_rows(
    models: Seq<CandidateModel>,
    qi: u32,
    dist: u8,
    exact: bool,
    filter: Option<Seq<u16>>,
    run: Seq<DocIndex>,
    k: int,
) -> Seq<CandidateModel>
    decreases run.len() - k,
{
    if k < 0 || k >= run.len() {
        models
    } else {
        let d = run[k];
        let m2 = if attr_allowed(filter, d.attribute) {
            add_candidate_row(
                models,
                d.document_id.0,
                (qi, dist, d.attribute, d.word_index, exact),
                Highlight {
                    attribute: d.attribute,
                    char_index: d.char_index,
                    char_length: d.char_length,
                },
            )
        } else {
            models
        };
        add_stream_rows(m2, qi, dist, exact, filter, run, k + 1)
    }
}

/// All streams folded into the candidates, from stream `i` on.
pub open spec fn group_streams(
    models: Seq<CandidateModel>,
    streams: Seq<WordMatches>,
    i: int,
    filter: Option<Seq<u16>>,
) -> Seq<CandidateModel>
    decreases streams.len() - i,
{
    if i < 0 || i >= streams.len() {
        models
    } else {
        group_streams(
            add_stream_rows(
                models,
                streams[i].query_index,
                streams[i].distance,
                streams[i].is_exact,
                filter,
                streams[i].postings@,
                0,
            ),
            streams,
            i + 1,
            filter,
        )
    }
}

/// The searchable-attribute filter, by value.
pub open spec fn filter_view(searchables: Option<&Vec<u16>>) -> Option<Seq<u16>> {
    match searchables {
        None => None,
        Some(v) => Some(v@),
    }
}

/// The number of postings in the streams from `i` on.
pub open spec fn total_postings_from(streams: Seq<WordMatches>, i: int) -> int
    decreases streams.len() - i,
{
    if i < 0 || i >= streams.len() {
        0
    } else {
        streams[i].postings@.len() + total_postings_from(streams, i + 1)
    }
}

/// The total number of postings across the streams.
pub open spec fn total_postings(streams: Seq<WordMatches>) -> int {
    total_postings_from(streams, 0)
}

proof fn lemma_total_postings_nonneg(streams: Seq<WordMatches>, i: int)
    ensures
        total_postings_from(streams, i) >= 0,
    decreases streams.len() - i,
{
    if 0 <= i < streams.len() {
        lemma_total_postings_nonneg(streams, i + 1);
    }
}

/// A row lands in the candidate found at `idx`.
proof fn lemma_add_candidate_at(
    models: Seq<CandidateModel>,
    id: u64,
    row: (u32, u8, u16, u16, bool),
    hl: Highlight,
    idx: int,
)
    requires
        0 <= idx < models.len(),
        forall|j: int| 0 <= j < idx ==> (#[trigger] models[j]).id != id,
        models[idx].id == id,
    ensures
        add_candidate_row(models, id, row, hl) == models.update(
            idx,
            CandidateModel {
                id,
                rows: models[idx].rows.push(row),
                highlights: models[idx].highlights.push(hl),
            },
        ),
    decreases idx,
{
    if idx == 0 {
        assert(add_candidate_row(models, id, row, hl) =~= models.update(
            0,
            CandidateModel {
                id,
                rows: models[0].rows.push(row),
                highlights: models[0].highlights.push(hl),
            },
        ));
    } else {
        let tail = models.drop_first();
        assert forall|j: int| 0 <= j < idx - 1 implies (#[trigger] tail[j]).id != id by {
            assert(tail[j] == models[j + 1]);
        }
        assert(tail[idx - 1] == models[idx]);
        lemma_add_candidate_at(tail, id, row, hl, idx - 1);
        assert(add_candidate_row(models, id, row, hl) =~= models.update(
            idx,
            CandidateModel {
                id,
                rows: models[idx].rows.push(row),
                highlights: models[idx].highlights.push(hl),
            },
        ));
    }
}

/// A row of an unknown document opens a candidate at the end.
proof fn lemma_add_candidate_append(
    models: Seq<CandidateModel>,
    id: u64,
    row: (u32, u8, u16, u16, bool),
    hl: Highlight,
)
    requires
        forall|j: int| 0 <= j < models.len() ==> (#[trigger] models[j]).id != id,
    ensures
        add_candidate_row(models, id, row, hl) == models.push(
            CandidateModel { id, rows: seq![row], highlights: seq![hl] },
        ),
    decreases models.len(),
{
    if models.len() == 0 {
        assert(add_candidate_row(models, id, row, hl) =~= models.push(
            CandidateModel { id, rows: seq![row], highlights: seq![hl] },
        ));
    } else {
        let tail = models.drop_first();
        assert forall|j: int| 0 <= j < tail.len() implies (#[trigger] tail[j]).id != id by {
            assert(tail[j] == models[j + 1]);
        }
        lemma_add_candidate_append(tail, id, row, hl);
        assert(add_candidate_row(models, id, row, hl) =~= models.push(
            CandidateModel { id, rows: seq![row], highlights: seq![hl] },
        ));
    }
}

fn attribute_allowed(searchables: Option<&Vec<u16>>, attr: u16) -> (r: bool)
    ensures
        r == attr_allowed(filter_view(searchables), attr),
{
    match searchables {
        None => true,
        Some(f) => {
            let n = f.len();
            let mut i: usize = 0;
            while i < n
                invariant
                    0 <= i <= n,
                    n == f@.len(),
                    searchables == Some(f),
                    forall|j: int| 0 <= j < i ==> f@[j] != attr,
                decreases n - i,
            {
                if f[i] == attr {
                    proof {
                        assert(f@[i as int] == attr);
                    }
                    return true;
                }
                i = i + 1;
            }
            assert(!f@.contains(attr));
            false
        },
    }
}

/// Adds one match row to the candidate of its document, opening the
/// candidate if the document is new.
fn add_one_row(
    docs: &mut Vec<RawDocument>,
    id: DocumentId,
    qi: u32,
    dist: u8,
    exact: bool,
    d: DocIndex,
)
    requires
        forall|i: int| 0 <= i < old(docs)@.len() ==> (#[trigger] old(docs)@[i]).wf(),
        forall|i: int, j: int|
            0 <= i < j < old(docs)@.len() ==> (#[trigger] old(docs)@[i]).id != (
            #[trigger] old(docs)@[j]).id,
        fold_rows_max(old(docs)@) < 0xffff_ffff,
    ensures
        docs_models(final(docs)@) == add_candidate_row(
            docs_models(old(docs)@),
            id.0,
            (qi, dist, d.attribute, d.word_index, exact),
            Highlight { attribute: d.attribute, char_index: d.char_index, char_length: d.char_length },
        ),
        forall|i: int| 0 <= i < final(docs)@.len() ==> (#[trigger] final(docs)@[i]).wf(),
        forall|i: int, j: int|
            0 <= i < j < final(docs)@.len() ==> (#[trigger] final(docs)@[i]).id != (
            #[trigger] final(docs)@[j]).id,
        fold_rows_max(final(docs)@) <= fold_rows_max(old(docs)@) + 1,
{
    let ghost m = docs_models(docs@);
    let ghost row = (qi, dist, d.attribute, d.word_index, exact);
    let hl = Highlight {
        attribute: d.attribute,
        char_index: d.char_index,
        char_length: d.char_length,
    };
    let n = docs.len();
    let mut idx: usize = 0;
    let mut found = false;
    loop
        invariant
            *docs == *old(docs),
            0 <= idx <= n,
            n == docs@.len(),
            m == docs_models(docs@),
            forall|j: int| 0 <= j < idx ==> (#[trigger] m[j]).id != id.0,
            found ==> idx < n && m[idx as int].id == id.0,
        ensures
            *docs == *old(docs),
            0 <= idx <= n,
            forall|j: int| 0 <= j < idx ==> (#[trigger] m[j]).id != id.0,
            found ==> idx < n && m[idx as int].id == id.0,
            !found ==> idx == n,
        decreases n - idx,
    {
        if idx >= n {
            break ;
        }
        if docs[idx].id == id {
            found = true;
            break ;
        }
        idx = idx + 1;
    }
    if found {
        proof {
            lemma_add_candidate_at(m, id.0, row, hl, idx as int);
        }
        proof {
            assert(old(docs)@[idx as int].wf());
        }
        let entry = &mut docs[idx];
        entry.query_index.push(qi);
        entry.distance.push(dist);
        entry.attribute.push(d.attribute);
        entry.word_index.push(d.word_index);
        entry.is_exact.push(exact);
        entry.highlights.push(hl);
        proof {
            assert(docs_models(docs@) =~~= m.update(
                idx as int,
                CandidateModel {
                    id: id.0,
                    rows: m[idx as int].rows.push(row),
                    highlights: m[idx as int].highlights.push(hl),
                },
            ));
            assert forall|i: int|
                0 <= i < docs@.len() implies (#[trigger] docs@[i]).query_index@.len()
                <= fold_rows_max(old(docs)@) + 1 by {
                lemma_fold_rows_max(old(docs)@, i);
            }
            lemma_fold_rows_max_le(docs@, fold_rows_max(old(docs)@) + 1);
            assert forall|i: int, j: int|
                0 <= i < j < docs@.len() implies (#[trigger] docs@[i]).id != (
            #[trigger] docs@[j]).id by {
                assert(docs@[i].id == old(docs)@[i].id);
                assert(docs@[j].id == old(docs)@[j].id);
            }
            assert forall|i: int| 0 <= i < docs@.len() implies (#[trigger] docs@[i]).wf() by {
                assert(old(docs)@[i].wf());
                lemma_fold_rows_max(old(docs)@, i);
            }
        }
    } else {
        proof {
            lemma_add_candidate_append(m, id.0, row, hl);
        }
        let fresh = RawDocument {
            id,
            query_index: vec![qi],
            distance: vec![dist],
            attribute: vec![d.attribute],
            word_index: vec![d.word_index],
            is_exact: vec![exact],
            highlights: vec![hl],
        };

        docs.push(fresh);
        proof {
            assert(docs_models(docs@) =~~= m.push(
                CandidateModel { id: id.0, rows: seq![row], highlights: seq![hl] },
            ));
            assert forall|i: int|
                0 <= i < docs@.len() implies (#[trigger] docs@[i]).query_index@.len()
                <= fold_rows_max(old(docs)@) + 1 by {
                if i < old(docs)@.len() {
                    lemma_fold_rows_max(old(docs)@, i);
                } else {
                    assert(docs@[i].query_index@.len() == 1);
                    lemma_fold_rows_max_nonneg(old(docs)@);
                }
            }
            lemma_fold_rows_max_le(docs@, fold_rows_max(old(docs)@) + 1);
            assert forall|i: int, j: int|
                0 <= i < j < docs@.len() implies (#[trigger] docs@[i]).id != (
            #[trigger] docs@[j]).id by {
                if j < old(docs)@.len() {
                    assert(docs@[i].id == old(docs)@[i].id);
                    assert(docs@[j].id == old(docs)@[j].id);
                } else {
                    assert(docs@[i].id == old(docs)@[i].id);
                    assert(m[i].id != id.0);
                }
            }
            assert forall|i: int| 0 <= i < docs@.len() implies (#[trigger] docs@[i]).wf() by {
                if i < old(docs)@.len() {
                    assert(old(docs)@[i].wf());
                }
            }
        }
    }
}

/// Builds one candidate per document out of the automata's match
/// streams: every posting of every stream, in order, becomes one match
/// row and one highlight of its document's candidate. Matches outside
/// the searchable attributes, when a set is given, are dropped.
pub fn build_raw_documents(
    streams: &Vec<WordMatches>,
    searchables: Option<&Vec<u16>>,
) -> (r: Vec<RawDocument>)
    requires
        total_postings(streams@) <= 0xffff_ffff,
    ensures
        docs_models(r@) == group_streams(
            Seq::<CandidateModel>::empty(),
            streams@,
            0,
            filter_view(searchables),
        ),
        forall|i: int| 0 <= i < r@.len() ==> (#[trigger] r@[i]).wf(),
        forall|i: int, j: int|
            0 <= i < j < r@.len() ==> (#[trigger] r@[i]).id != (#[trigger] r@[j]).id,
{
    let ghost filter = filter_view(searchables);
    let ghost target = group_streams(Seq::<CandidateModel>::empty(), streams@, 0, filter);
    let mut docs: Vec<RawDocument> = Vec::new();
    let ghost mut processed: int = 0;
    let ns = streams.len();
    let mut si: usize = 0;
    proof {
        assert(docs_models(docs@) =~= Seq::<CandidateModel>::empty());
        lemma_fold_rows_max_le(docs@, 0);
    }
    while si < ns
        invariant
            0 <= si <= ns,
            ns == streams@.len(),
            filter == filter_view(searchables),
            target == group_streams(Seq::<CandidateModel>::empty(), streams@, 0, filter),
            target == group_streams(docs_models(docs@), streams@, si as int, filter),
            forall|i: int| 0 <= i < docs@.len() ==> (#[trigger] docs@[i]).wf(),
            forall|i: int, j: int|
                0 <= i < j < docs@.len() ==> (#[trigger] docs@[i]).id != (#[trigger] docs@[j]).id,
            0 <= processed,
            processed + total_postings_from(streams@, si as int) <= total_postings(streams@),
            total_postings(streams@) <= 0xffff_ffff,
            fold_rows_max(docs@) <= processed,
        decreases ns - si,
    {
        let stream_len = streams[si].postings.len();
        let qi = streams[si].query_index;
        let dist = streams[si].distance;
        let exact = streams[si].is_exact;
        let ghost run = streams@[si as int].postings@;
        let mut pi: usize = 0;
        proof {
            lemma_total_postings_nonneg(streams@, si as int + 1);
        }
        while pi < stream_len
            invariant
                0 <= pi <= stream_len,
                0 <= si < ns,
                ns == streams@.len(),
                stream_len == run.len(),
                run == streams@[si as int].postings@,
                qi == streams@[si as int].query_index,
                dist == streams@[si as int].distance,
                exact == streams@[si as int].is_exact,
                filter == filter_view(searchables),
                target == group_streams(Seq::<CandidateModel>::empty(), streams@, 0, filter),
                target == group_streams(
                    add_stream_rows(docs_models(docs@), qi, dist, exact, filter, run, pi as int),
                    streams@,
                    si as int + 1,
                    filter,
                ),
                forall|i: int| 0 <= i < docs@.len() ==> (#[trigger] docs@[i]).wf(),
                forall|i: int, j: int|
                    0 <= i < j < docs@.len() ==> (#[trigger] docs@[i]).id != (
                    #[trigger] docs@[j]).id,
                0 <= processed,
                processed + (stream_len - pi) + total_postings_from(streams@, si as int + 1)
                    <= total_postings(streams@),
                total_postings(streams@) <= 0xffff_ffff,
                fold_rows_max(docs@) <= processed,
            decreases stream_len - pi,
        {
            let d = streams[si].postings[pi];
            proof {
                lemma_total_postings_nonneg(streams@, si as int + 1);
            }
            if attribute_allowed(searchables, d.attribute) {
                add_one_row(&mut docs, d.document_id, qi, dist, exact, d);
            }
            proof {
                processed = processed + 1;
            }
            pi = pi + 1;
        }
        si = si + 1;
    }
    docs
}

/// An upper bound on the number of rows any one candidate holds.
pub open spec fn fold_rows_max(v: Seq<RawDocument>) -> int
    decreases v.len(),
{
    if v.len() == 0 {
        0
    } else {
        let rest = fold_rows_max(v.drop_first());
        if v[0].query_index@.len() > rest {
            v[0].query_index@.len() as int
        } else {
            rest
        }
    }
}

proof fn lemma_fold_rows_max_nonneg(v: Seq<RawDocument>)
    ensures
        fold_rows_max(v) >= 0,
    decreases v.len(),
{
    if v.len() > 0 {
        lemma_fold_rows_max_nonneg(v.drop_first());
    }
}

/// A pointwise bound on the rows bounds the fold.
proof fn lemma_fold_rows_max_le(v: Seq<RawDocument>, b: int)
    requires
        forall|i: int| 0 <= i < v.len() ==> (#[trigger] v[i]).query_index@.len() <= b,
    ensures
        fold_rows_max(v) <= b || v.len() == 0,
        v.len() == 0 ==> fold_rows_max(v) == 0,
    decreases v.len(),
{
    if v.len() > 0 {
        let tail = v.drop_first();
        assert forall|i: int| 0 <= i < tail.len() implies (#[trigger] tail[i]).query_index@.len()
            <= b by {
            assert(tail[i] == v[i + 1]);
        }
        lemma_fold_rows_max_le(tail, b);
    }
}

proof fn lemma_fold_rows_max(v: Seq<RawDocument>, i: int)
    requires
        0 <= i < v.len(),
    ensures
        v[i].query_index@.len() <= fold_rows_max(v),
        fold_rows_max(v) >= 0,
    decreases v.len(),
{
    if i == 0 {
        if v.len() > 1 {
            lemma_fold_rows_max(v.drop_first(), 0);
        }
    } else {
        lemma_fold_rows_max(v.drop_first(), i - 1);
        assert(v.drop_first()[i - 1] == v[i]);
    }
}

/// A list of candidates is ordered under a cascade when no later one
/// should come before an earlier one.
pub open spec fn cascade_sorted(list: Seq<CriterionKind>, v: Seq<RawDocument>) -> bool {
    forall|i: int, j: int|
        0 <= i < j < v.len() ==> spec_cascade_cmp(list, #[trigger] v[i], #[trigger] v[j])
            != Ordering::Greater
}

/// Swapping the sides of a cascade comparison flips its verdict.
proof fn lemma_cascade_flip(list: Seq<CriterionKind>, a: RawDocument, b: RawDocument)
    ensures
        (spec_cascade_cmp(list, a, b) == Ordering::Greater) == (spec_cascade_cmp(list, b, a)
            == Ordering::Less),
        (spec_cascade_cmp(list, a, b) == Ordering::Equal) == (spec_cascade_cmp(list, b, a)
            == Ordering::Equal),
    decreases list.len(),
{
    if list.len() > 0 && list[0].rank(&a) == list[0].rank(&b) {
        lemma_cascade_flip(list.drop_first(), a, b);
    }
}

/// The cascade order is transitive.
proof fn lemma_cascade_trans(list: Seq<CriterionKind>, a: RawDocument, b: RawDocument, c: RawDocument)
    requires
        spec_cascade_cmp(list, a, b) != Ordering::Greater,
        spec_cascade_cmp(list, b, c) != Ordering::Greater,
    ensures
        spec_cascade_cmp(list, a, c) != Ordering::Greater,
    decreases list.len(),
{
    if list.len() > 0 {
        let ra = list[0].rank(&a);
        let rb = list[0].rank(&b);
        let rc = list[0].rank(&c);
        if ra == rb && rb == rc {
            lemma_cascade_trans(list.drop_first(), a, b, c);
        }
    }
}

/// Orders the candidates under a cascade, best first. The result holds
/// exactly the candidates given.
pub fn sort_documents(criteria: &Criteria, docs: Vec<RawDocument>) -> (r: Vec<RawDocument>)
    requires
        forall|i: int| 0 <= i < docs@.len() ==> (#[trigger] docs@[i]).wf(),
    ensures
        r@.to_multiset() == docs@.to_multiset(),
        r@.len() == docs@.len(),
        cascade_sorted(criteria.list(), r@),
        forall|i: int| 0 <= i < r@.len() ==> (#[trigger] r@[i]).wf(),
{
    broadcast use vstd::seq_lib::group_to_multiset_ensures, vstd::multiset::group_multiset_axioms;

    let ghost original = docs@;
    let mut rest = docs;
    let mut out: Vec<RawDocument> = Vec::new();
    proof {
        assert(out@.to_multiset().len() == 0);
        assert(out@.to_multiset() =~= Multiset::<RawDocument>::empty());
        assert(out@.to_multiset().add(rest@.to_multiset()) =~= original.to_multiset());
    }
    loop
        invariant
            out@.to_multiset().add(rest@.to_multiset()) == original.to_multiset(),
            out@.len() + rest@.len() == original.len(),
            cascade_sorted(criteria.list(), out@),
            forall|i: int| 0 <= i < rest@.len() ==> (#[trigger] rest@[i]).wf(),
            forall|i: int| 0 <= i < out@.len() ==> (#[trigger] out@[i]).wf(),
        ensures
            rest@.len() == 0,
            out@.to_multiset().add(rest@.to_multiset()) == original.to_multiset(),
            out@.len() == original.len(),
            cascade_sorted(criteria.list(), out@),
            forall|i: int| 0 <= i < out@.len() ==> (#[trigger] out@[i]).wf(),
        decreases rest@.len(),
    {
        let ghost rest_before = rest@;
        let ghost out_before_insert = out@;
        let next = match rest.pop() {
            Some(next) => next,
            None => {
                break ;
            },
        };
        proof {
            assert(rest_before =~= rest@.push(next));
        }
        let n = out.len();
        let mut p: usize = 0;
        loop
            invariant
                0 <= p <= n,
                n == out@.len(),
                next.wf(),
                cascade_sorted(criteria.list(), out@),
                forall|i: int| 0 <= i < out@.len() ==> (#[trigger] out@[i]).wf(),
                forall|k: int|
                    0 <= k < p ==> spec_cascade_cmp(criteria.list(), #[trigger] out@[k], next)
                        != Ordering::Greater,
            ensures
                0 <= p <= n,
                n == out@.len(),
                forall|k: int|
                    0 <= k < p ==> spec_cascade_cmp(criteria.list(), #[trigger] out@[k], next)
                        != Ordering::Greater,
                p < n ==> spec_cascade_cmp(criteria.list(), out@[p as int], next)
                    == Ordering::Greater,
            decreases n - p,
        {
            if p >= n {
                break ;
            }
            match cascade_compare(criteria, &out[p], &next) {
                Ordering::Greater => {
                    break ;
                },
                _ => {
                    p = p + 1;
                },
            }
        }
        let ghost before = out@;
        out.insert(p, next);
        proof {
            vstd::seq_lib::to_multiset_build(rest@, next);
            assert(rest_before.to_multiset() == rest@.to_multiset().insert(next));
            vstd::seq_lib::to_multiset_insert(before, p as int, next);
            assert(out@.to_multiset() == before.to_multiset().insert(next));
            assert(out@.to_multiset().add(rest@.to_multiset()) =~= before.to_multiset().add(
                rest_before.to_multiset(),
            ));
            assert forall|i: int, j: int|
                0 <= i < j < out@.len() implies spec_cascade_cmp(
                criteria.list(),
                #[trigger] out@[i],
                #[trigger] out@[j],
            ) != Ordering::Greater by {
                let list = criteria.list();
                if i == p {
                    // `next` against what stood at or after the break point
                    assert(spec_cascade_cmp(list, before[p as int], next) == Ordering::Greater);
                    lemma_cascade_flip(list, before[p as int], next);
                    if j - 1 > p {
                        assert(spec_cascade_cmp(list, before[p as int], before[j - 1])
                            != Ordering::Greater);
                        lemma_cascade_trans(list, next, before[p as int], before[j - 1]);
                    }
                    assert(out@[j] == before[j - 1]);
                } else if j == p {
                    assert(out@[i] == before[i]);
                } else if i < p && j > p {
                    assert(out@[i] == before[i]);
                    assert(out@[j] == before[j - 1]);
                    assert(spec_cascade_cmp(list, before[i], before[j - 1]) != Ordering::Greater);
                } else if j < p {
                    assert(out@[i] == before[i]);
                    assert(out@[j] == before[j]);
                } else {
                    assert(out@[i] == before[i - 1]);
                    assert(out@[j] == before[j - 1]);
                    assert(spec_cascade_cmp(list, before[i - 1], before[j - 1])
                        != Ordering::Greater);
                }
            }
        }
    }
    proof {
        assert(rest@.to_multiset().len() == 0);
        assert(rest@.to_multiset() =~= Multiset::<RawDocument>::empty());
        assert(out@.to_multiset() =~= out@.to_multiset().add(rest@.to_multiset()));
        assert(out@.to_multiset().len() == out@.len());
        assert(original.to_multiset().len() == original.len());
    }
    out
}

/// The window of a result list: `offset` entries skipped, at most
/// `limit` kept.
pub open spec fn spec_window(docs: Seq<RawDocument>, offset: int, limit: int) -> Seq<RawDocument> {
    let start = if offset <= docs.len() {
        offset
    } else {
        docs.len() as int
    };
    let count = if limit <= docs.len() - start {
        limit
    } else {
        docs.len() - start
    };
    docs.skip(start).take(count)
}

/// Cuts the window the caller asked for: `offset` candidates are
/// skipped, at most `limit` are kept.
pub fn window_documents(docs: Vec<RawDocument>, offset: usize, limit: usize) -> (r: Vec<
    RawDocument,
>)
    ensures
        r@ == spec_window(docs@, offset as int, limit as int),
{
    let ghost original = docs@;
    let mut docs = docs;
    let n = docs.len();
    let start: usize = if offset <= n {
        offset
    } else {
        n
    };
    let avail = n - start;
    let count: usize = if limit <= avail {
        limit
    } else {
        avail
    };
    docs.truncate(start + count);
    let mut i: usize = 0;
    while i < start
        invariant
            0 <= i <= start,
            start + count <= original.len(),
            docs@ == original.subrange(i as int, (start + count) as int),
        decreases start - i,
    {
        docs.remove(0);
        i = i + 1;
    }
    proof {
        assert(docs@ =~= spec_window(original, offset as int, limit as int));
    }
    docs
}

/// One automaton to run against the vocabulary: the slot of the query
/// word, the word itself, its typo budget, and whether it also matches
/// every vocabulary entry it prefixes.
pub struct QueryAutomaton {
    pub query_index: u32,
    pub word: String,
    pub typo_budget: u8,
    pub is_prefix: bool,
}

/// The edits a query word tolerates: none up to four characters, one up
/// to eight, two beyond.
pub open spec fn spec_typo_budget(len: int) -> u8 {
    if len <= 4 {
        0
    } else if len <= 8 {
        1
    } else {
        2
    }
}

/// Builds the automata of a query: one per query word, in source order,
/// each with its typo budget; the last word also matches by prefix.
pub fn build_query_automata(query: &str) -> (r: Vec<QueryAutomaton>)
    requires
        8 * query@.len() <= usize::MAX,
        query@.len() <= 0xffff_ffff,
    ensures
        r@.len() == crate::tokenizer::text_tokens(query@).len(),
        forall|i: int|
            0 <= i < r@.len() ==> {
                let toks = crate::tokenizer::text_tokens(query@);
                &&& (#[trigger] r@[i]).query_index == i as u32
                &&& r@[i].word@ == toks[i].word
                &&& r@[i].typo_budget == spec_typo_budget(toks[i].word.len() as int)
                &&& r@[i].is_prefix == (i == toks.len() - 1)
            },
{
    let ghost toks = crate::tokenizer::text_tokens(query@);
    proof {
        crate::tokenizer::lemma_text_tokens_count_le(query@);
    }
    let mut tokenizer = crate::tokenizer::Tokenizer::new(query);
    let mut r: Vec<QueryAutomaton> = Vec::new();
    loop
        invariant
            tokenizer.wf(),
            toks == crate::tokenizer::text_tokens(query@),
            toks.len() <= 0xffff_ffff,
            r@.len() + tokenizer.remaining().len() == toks.len(),
            tokenizer.remaining() == toks.skip(r@.len() as int),
            forall|i: int|
                0 <= i < r@.len() ==> {
                    &&& (#[trigger] r@[i]).query_index == i as u32
                    &&& r@[i].word@ == toks[i].word
                    &&& r@[i].typo_budget == spec_typo_budget(toks[i].word.len() as int)
                    &&& r@[i].is_prefix == (i == toks.len() - 1)
                },
        decreases tokenizer.remaining().len(),
    {
        let token = match tokenizer.next() {
            Some(token) => token,
            None => {
                return r;
            },
        };
        proof {
            assert(tokenizer.remaining() =~= toks.skip(r@.len() as int + 1));
        }
        let len = token.word.unicode_len();
        let budget: u8 = if len <= 4 {
            0
        } else if len <= 8 {
            1
        } else {
            2
        };
        let is_prefix = tokenizer.is_done();
        let slot = r.len() as u32;
        let word = token.word.to_owned();
        r.push(QueryAutomaton { query_index: slot, word, typo_budget: budget, is_prefix });
    }
}

/// How many kept candidates carry this distinct key.
pub open spec fn key_count(kept: Seq<(RawDocument, Option<Vec<u8>>)>, key: Seq<u8>) -> int
    decreases kept.len(),
{
    if kept.len() == 0 {
        0
    } else {
        key_count(kept.drop_first(), key) + (match kept[0].1 {
            Some(v) => if v@ == key {
                1int
            } else {
                0int
            },
            None => 0int,
        })
    }
}

proof fn lemma_key_count_push(
    kept: Seq<(RawDocument, Option<Vec<u8>>)>,
    p: (RawDocument, Option<Vec<u8>>),
    key: Seq<u8>,
)
    ensures
        key_count(kept.push(p), key) == key_count(kept, key) + (match p.1 {
            Some(v) => if v@ == key {
                1int
            } else {
                0int
            },
            None => 0int,
        }),
    decreases kept.len(),
{
    if kept.len() == 0 {
        assert(kept.push(p).drop_first() =~= Seq::<(RawDocument, Option<Vec<u8>>)>::empty());
        assert(kept.push(p)[0] == p);
        assert(key_count(Seq::<(RawDocument, Option<Vec<u8>>)>::empty(), key) == 0);
    } else {
        assert(kept.push(p).drop_first() =~= kept.drop_first().push(p));
        assert(kept.push(p)[0] == kept[0]);
        lemma_key_count_push(kept.drop_first(), p, key);
    }
}

/// The distinct filter: candidates are walked in order; one without a
/// key is always kept; one whose key was already kept `k` times is
/// skipped. The result is the kept candidates with their keys.
pub open spec fn spec_distinct(
    pairs: Seq<(RawDocument, Option<Vec<u8>>)>,
    k: int,
    i: int,
    kept: Seq<(RawDocument, Option<Vec<u8>>)>,
) -> Seq<(RawDocument, Option<Vec<u8>>)>
    decreases pairs.len() - i,
{
    if i < 0 || i >= pairs.len() {
        kept
    } else {
        match pairs[i].1 {
            None => spec_distinct(pairs, k, i + 1, kept.push(pairs[i])),
            Some(key) => if key_count(kept, key@) < k {
                spec_distinct(pairs, k, i + 1, kept.push(pairs[i]))
            } else {
                spec_distinct(pairs, k, i + 1, kept)
            },
        }
    }
}

/// No key survives the distinct filter more than `k` times.
pub proof fn lemma_distinct_cap(
    pairs: Seq<(RawDocument, Option<Vec<u8>>)>,
    k: int,
    i: int,
    kept: Seq<(RawDocument, Option<Vec<u8>>)>,
)
    requires
        k >= 0,
        forall|key: Seq<u8>| key_count(kept, key) <= k,
    ensures
        forall|key: Seq<u8>| key_count(spec_distinct(pairs, k, i, kept), key) <= k,
    decreases pairs.len() - i,
{
    if 0 <= i < pairs.len() {
        match pairs[i].1 {
            None => {
                assert forall|key: Seq<u8>| key_count(kept.push(pairs[i]), key) <= k by {
                    lemma_key_count_push(kept, pairs[i], key);
                }
                lemma_distinct_cap(pairs, k, i + 1, kept.push(pairs[i]));
                assert(spec_distinct(pairs, k, i, kept) == spec_distinct(
                    pairs,
                    k,
                    i + 1,
                    kept.push(pairs[i]),
                ));
            },
            Some(keyv) => {
                if key_count(kept, keyv@) < k {
                    assert forall|key: Seq<u8>| key_count(kept.push(pairs[i]), key) <= k by {
                        lemma_key_count_push(kept, pairs[i], key);
                    }
                    lemma_distinct_cap(pairs, k, i + 1, kept.push(pairs[i]));
                    assert(spec_distinct(pairs, k, i, kept) == spec_distinct(
                        pairs,
                        k,
                        i + 1,
                        kept.push(pairs[i]),
                    ));
                } else {
                    lemma_distinct_cap(pairs, k, i + 1, kept);
                    assert(spec_distinct(pairs, k, i, kept) == spec_distinct(pairs, k, i + 1, kept));
                }
            },
        }
    }
}

/// Run from the start, the distinct filter never keeps any key value
/// more than `k` times.
pub proof fn lemma_distinct_never_exceeds(pairs: Seq<(RawDocument, Option<Vec<u8>>)>, k: int)
    requires
        k >= 0,
    ensures
        forall|key: Seq<u8>|
            key_count(
                spec_distinct(pairs, k, 0, Seq::<(RawDocument, Option<Vec<u8>>)>::empty()),
                key,
            ) <= k,
{
    assert forall|key: Seq<u8>|
        key_count(Seq::<(RawDocument, Option<Vec<u8>>)>::empty(), key) <= k by {
        assert(key_count(Seq::<(RawDocument, Option<Vec<u8>>)>::empty(), key) == 0);
    }
    lemma_distinct_cap(pairs, k, 0, Seq::<(RawDocument, Option<Vec<u8>>)>::empty());
}

/// The candidates and their distinct keys, paired up.
pub open spec fn zip_keys(
    docs: Seq<RawDocument>,
    keys: Seq<Option<Vec<u8>>>,
) -> Seq<(RawDocument, Option<Vec<u8>>)> {
    Seq::new(docs.len(), |i: int| (docs[i], keys[i]))
}

/// The candidates of a kept list, in order.
pub open spec fn kept_docs(kept: Seq<(RawDocument, Option<Vec<u8>>)>) -> Seq<RawDocument> {
    Seq::new(kept.len(), |i: int| kept[i].0)
}

fn count_key(kept_keys: &Vec<Option<Vec<u8>>>, ghost_docs: Ghost<Seq<RawDocument>>, key: &Vec<u8>) -> (r: usize)
    requires
        ghost_docs@.len() == kept_keys@.len(),
    ensures
        r == key_count(zip_keys(ghost_docs@, kept_keys@), key@),
{
    let ghost kept = zip_keys(ghost_docs@, kept_keys@);
    proof {
        lemma_key_count_suffix_zero(kept, key@, kept.len() as int);
    }
    let n = kept_keys.len();
    let mut acc: usize = 0;
    let mut i: usize = 0;
    proof {
        assert(kept.skip(0) =~= kept);
    }
    while i < n
        invariant
            0 <= i <= n,
            n == kept_keys@.len(),
            kept == zip_keys(ghost_docs@, kept_keys@),
            ghost_docs@.len() == n,
            acc <= i,
            acc + key_count(kept.skip(i as int), key@) == key_count(kept, key@),
        decreases n - i,
    {
        proof {
            assert(kept.skip(i as int).drop_first() =~= kept.skip(i as int + 1));
            assert(kept.skip(i as int)[0] == kept[i as int]);
        }
        match &kept_keys[i] {
            Some(v) => {
                if matches!(crate::byte_order::bytes_compare(v, key), Ordering::Equal) {
                    acc = acc + 1;
                }
            },
            None => {},
        }
        i = i + 1;
    }
    proof {
        assert(kept.skip(n as int) =~= Seq::<(RawDocument, Option<Vec<u8>>)>::empty());
    }
    acc
}

proof fn lemma_key_count_suffix_zero(
    kept: Seq<(RawDocument, Option<Vec<u8>>)>,
    key: Seq<u8>,
    i: int,
)
    requires
        0 <= i <= kept.len(),
    ensures
        key_count(kept, key) >= 0,
    decreases kept.len(),
{
    if kept.len() > 0 {
        lemma_key_count_suffix_zero(kept.drop_first(), key, 0);
    }
}

/// Applies the distinct filter: each candidate comes with the value of
/// the distinct attribute the store looked up for it, or nothing when
/// the document has none; no key is kept more than `k` times.
pub fn apply_distinct(
    docs: Vec<RawDocument>,
    keys: Vec<Option<Vec<u8>>>,
    k: usize,
) -> (r: Vec<RawDocument>)
    requires
        keys@.len() == docs@.len(),
    ensures
        r@ == kept_docs(
            spec_distinct(
                zip_keys(docs@, keys@),
                k as int,
                0,
                Seq::<(RawDocument, Option<Vec<u8>>)>::empty(),
            ),
        ),
{
    let ghost pairs = zip_keys(docs@, keys@);
    let ghost target = spec_distinct(
        pairs,
        k as int,
        0,
        Seq::<(RawDocument, Option<Vec<u8>>)>::empty(),
    );
    let mut docs = docs;
    let mut keys = keys;
    let mut out: Vec<RawDocument> = Vec::new();
    let mut kept_keys: Vec<Option<Vec<u8>>> = Vec::new();
    let mut i: usize = 0;
    let n = docs.len();
    proof {
        assert(zip_keys(out@, kept_keys@) =~= Seq::<(RawDocument, Option<Vec<u8>>)>::empty());
    }
    while i < n
        invariant
            0 <= i <= n,
            n == pairs.len(),
            docs@ == kept_docs(pairs).skip(i as int),
            keys@.len() == docs@.len(),
            forall|j: int| 0 <= j < keys@.len() ==> keys@[j] == pairs[j + i].1,
            forall|j: int| 0 <= j < docs@.len() ==> docs@[j] == pairs[j + i].0,
            out@.len() == kept_keys@.len(),
            target == spec_distinct(pairs, k as int, i as int, zip_keys(out@, kept_keys@)),
        decreases n - i,
    {
        let ghost kept = zip_keys(out@, kept_keys@);
        let doc = docs.remove(0);
        let key = keys.remove(0);
        proof {
            assert(doc == pairs[i as int].0);
            assert(key == pairs[i as int].1);
            assert(docs@ =~= kept_docs(pairs).skip(i as int + 1));
        }
        match key {
            None => {
                out.push(doc);
                kept_keys.push(None);
                proof {
                    assert(zip_keys(out@, kept_keys@) =~= kept.push(pairs[i as int]));
                }
            },
            Some(keyv) => {
                let c = count_key(&kept_keys, Ghost(out@), &keyv);
                if c < k {
                    out.push(doc);
                    kept_keys.push(Some(keyv));
                    proof {
                        assert(zip_keys(out@, kept_keys@) =~= kept.push(pairs[i as int]));
                    }
                }
            },
        }
        i = i + 1;
    }
    proof {
        assert(out@ =~= kept_docs(zip_keys(out@, kept_keys@)));
    }
    out
}

} // verus!
