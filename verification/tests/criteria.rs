use meilidb::criterion::{
    cascade_compare, Criteria, CriteriaBuilder, Criterion, CriterionKind,
    DocumentId as DocumentIdCriterion, Exact, NumberOfWords, SumOfTypos, SumOfWordsAttribute,
    SumOfWordsPosition, WordsProximity,
};
use meilidb::raw_document::RawDocument;
use meilidb::DocumentId;
use std::cmp::Ordering;

fn candidate(
    id: u64,
    query_index: Vec<u32>,
    distance: Vec<u8>,
    attribute: Vec<u16>,
    word_index: Vec<u16>,
    is_exact: Vec<bool>,
) -> RawDocument {
    RawDocument {
        id: DocumentId(id),
        query_index,
        distance,
        attribute,
        word_index,
        is_exact,
        highlights: Vec::new(),
    }
}

#[test]
fn sum_of_typos_prefers_fewer_typos() {
    // two query slots, best distances 0 and 1 -> rank 1
    let a = candidate(1, vec![0, 0, 1], vec![2, 0, 1], vec![0, 0, 0], vec![0, 1, 2], vec![
        false, true, false,
    ]);
    // best distances 1 and 2 -> rank 3
    let b = candidate(2, vec![0, 1], vec![1, 2], vec![0, 0], vec![0, 1], vec![false, false]);
    assert_eq!(SumOfTypos.evaluate(&a, &b), Ordering::Less);
    assert_eq!(SumOfTypos.evaluate(&b, &a), Ordering::Greater);
    assert_eq!(SumOfTypos.evaluate(&a, &a), Ordering::Equal);
    assert!(Criterion::eq(&SumOfTypos, &a, &a));
}

#[test]
fn number_of_words_prefers_more_slots() {
    let a = candidate(1, vec![0, 1], vec![0, 0], vec![0, 0], vec![0, 1], vec![true, true]);
    let b = candidate(2, vec![0, 0], vec![0, 0], vec![0, 0], vec![0, 1], vec![true, true]);
    // a matched two slots, b only one: a comes first
    assert_eq!(NumberOfWords.evaluate(&a, &b), Ordering::Less);
    assert_eq!(NumberOfWords.evaluate(&b, &a), Ordering::Greater);
}

#[test]
fn words_proximity_prefers_adjacent_words() {
    // slots 0 and 1 adjacent in the same attribute: gap 1
    let a = candidate(1, vec![0, 1], vec![0, 0], vec![0, 0], vec![3, 4], vec![true, true]);
    // same slots across attributes: gap 8
    let b = candidate(2, vec![0, 1], vec![0, 0], vec![0, 1], vec![3, 4], vec![true, true]);
    assert_eq!(WordsProximity.evaluate(&a, &b), Ordering::Less);
}

#[test]
fn sum_of_words_attribute_prefers_early_attributes() {
    let a = candidate(1, vec![0], vec![0], vec![0], vec![0], vec![true]);
    let b = candidate(2, vec![0], vec![0], vec![2], vec![0], vec![true]);
    assert_eq!(SumOfWordsAttribute.evaluate(&a, &b), Ordering::Less);
    // the best (smallest) attribute per slot counts
    let c = candidate(3, vec![0, 0], vec![0, 0], vec![2, 0], vec![0, 0], vec![true, true]);
    assert_eq!(SumOfWordsAttribute.evaluate(&a, &c), Ordering::Equal);
}

#[test]
fn sum_of_words_position_prefers_early_words() {
    let a = candidate(1, vec![0], vec![0], vec![0], vec![1], vec![true]);
    let b = candidate(2, vec![0], vec![0], vec![0], vec![5], vec![true]);
    assert_eq!(SumOfWordsPosition.evaluate(&a, &b), Ordering::Less);
}

#[test]
fn exact_prefers_exact_matches() {
    let a = candidate(1, vec![0], vec![0], vec![0], vec![0], vec![true]);
    let b = candidate(2, vec![0], vec![0], vec![0], vec![0], vec![false]);
    assert_eq!(Exact.evaluate(&a, &b), Ordering::Less);
    // an exact flag at a nonzero distance does not count
    let c = candidate(3, vec![0], vec![1], vec![0], vec![0], vec![true]);
    assert_eq!(Exact.evaluate(&a, &c), Ordering::Less);
}

#[test]
fn document_id_breaks_ties() {
    let a = candidate(1, vec![], vec![], vec![], vec![], vec![]);
    let b = candidate(2, vec![], vec![], vec![], vec![], vec![]);
    assert_eq!(DocumentIdCriterion.evaluate(&a, &b), Ordering::Less);
    assert_eq!(DocumentIdCriterion.evaluate(&b, &a), Ordering::Greater);
    assert_eq!(DocumentIdCriterion.evaluate(&a, &a), Ordering::Equal);
}

#[test]
fn standard_cascade_order() {
    let criteria = Criteria::standard();
    let names: Vec<&str> = criteria.as_slice().iter().map(|c| c.name()).collect();
    assert_eq!(
        names,
        vec![
            "SumOfTypos",
            "NumberOfWords",
            "WordsProximity",
            "SumOfWordsAttribute",
            "SumOfWordsPosition",
            "Exact",
            "DocumentId",
        ]
    );
    let default_criteria = Criteria::default();
    assert_eq!(default_criteria.as_slice().len(), 7);
}

#[test]
fn builder_collects_in_order() {
    let mut builder = CriteriaBuilder::new();
    builder.reserve(2);
    builder.push(CriterionKind::Exact(Exact));
    let criteria = builder.add(CriterionKind::DocumentId(DocumentIdCriterion)).build();
    let names: Vec<&str> = criteria.as_slice().iter().map(|c| c.name()).collect();
    assert_eq!(names, vec!["Exact", "DocumentId"]);
}

#[test]
fn cascade_falls_through_to_later_criteria() {
    let criteria = Criteria::standard();
    // same single exact match in different attributes: the attribute sum decides
    let a = candidate(1, vec![0], vec![0], vec![0], vec![0], vec![true]);
    let b = candidate(2, vec![0], vec![0], vec![1], vec![0], vec![true]);
    assert_eq!(cascade_compare(&criteria, &a, &b), Ordering::Less);
    // fully identical matches: the document id breaks the tie
    let c = candidate(3, vec![0], vec![0], vec![0], vec![0], vec![true]);
    assert_eq!(cascade_compare(&criteria, &a, &c), Ordering::Less);
    assert_eq!(cascade_compare(&criteria, &c, &a), Ordering::Greater);
    assert_eq!(cascade_compare(&criteria, &a, &a), Ordering::Equal);
}

#[test]
fn cascade_prefers_fewer_typos_over_everything_later() {
    let criteria = Criteria::standard();
    // b matches with a better attribute and position, but with one typo
    let a = candidate(9, vec![0], vec![0], vec![5], vec![9], vec![false]);
    let b = candidate(1, vec![0], vec![1], vec![0], vec![0], vec![false]);
    assert_eq!(cascade_compare(&criteria, &a, &b), Ordering::Less);
}
