//! The ranking criteria: an ordered cascade of comparators applied to
//! candidate documents, each one comparing an integer rank computed from
//! the matches, with the document id as the final tie-break.
//!
//! All ranks are "smaller is better"; criteria that prefer more of
//! something rank by the negated count.

use vstd::prelude::*;
use core::cmp::Ordering;
use crate::raw_document::RawDocument;

verus! {

/// The three-way comparison of two mathematical integers.
pub open spec fn spec_cmp_int(a: int, b: int) -> Ordering {
    if a < b {
        Ordering::Less
    } else if a == b {
        Ordering::Equal
    } else {
        Ordering::Greater
    }
}

fn cmp_u64(a: u64, b: u64) -> (r: Ordering)
    ensures
        r == spec_cmp_int(a as int, b as int),
{
    if a < b {
        Ordering::Less
    } else if a == b {
        Ordering::Equal
    } else {
        Ordering::Greater
    }
}

/// Row `i` is the first row of its query slot.
pub open spec fn is_first_occ(qis: Seq<u32>, i: int) -> bool {
    forall|j: int| 0 <= j < i ==> (#[trigger] qis[j]) != qis[i]
}

fn is_first_occurrence(qis: &Vec<u32>, i: usize) -> (r: bool)
    requires
        i < qis@.len(),
    ensures
        r == is_first_occ(qis@, i as int),
{
    let mut j: usize = 0;
    while j < i
        invariant
            0 <= j <= i < qis@.len(),
            forall|k: int| 0 <= k < j ==> (#[trigger] qis@[k]) != qis@[i as int],
        decreases i - j,
    {
        if qis[j] == qis[i] {
            return false;
        }
        j = j + 1;
    }
    true
}

/// The number of distinct query slots among the rows from `i` on that
/// see their slot for the first time.
pub open spec fn slot_count_from(qis: Seq<u32>, i: int) -> int
    decreases qis.len() - i,
{
    if i < 0 || i >= qis.len() {
        0
    } else {
        slot_count_from(qis, i + 1) + if is_first_occ(qis, i) {
            1int
        } else {
            0int
        }
    }
}

/// The number of distinct query slots that matched.
pub fn count_query_slots(qis: &Vec<u32>) -> (r: u64)
    requires
        qis@.len() <= 0xffff_ffff,
    ensures
        r == slot_count_from(qis@, 0),
{
    let n = qis.len();
    let mut count: u64 = 0;
    let mut i: usize = 0;
    while i < n
        invariant
            0 <= i <= n,
            n == qis@.len() <= 0xffff_ffff,
            count <= i,
            count + slot_count_from(qis@, i as int) == slot_count_from(qis@, 0),
        decreases n - i,
    {
        if is_first_occurrence(qis, i) {
            count = count + 1;
        }
        i = i + 1;
    }
    count
}

/// The smallest distance among the rows from `k` on whose slot is `q`,
/// or 256 when no such row is left.
pub open spec fn min_dist_from(qis: Seq<u32>, dists: Seq<u8>, q: u32, k: int) -> int
    decreases qis.len() - k,
{
    if k < 0 || k >= qis.len() {
        256
    } else {
        let rest = min_dist_from(qis, dists, q, k + 1);
        if qis[k] == q && dists[k] < rest {
            dists[k] as int
        } else {
            rest
        }
    }
}

proof fn lemma_min_dist_from_le(qis: Seq<u32>, dists: Seq<u8>, q: u32, k: int)
    ensures
        min_dist_from(qis, dists, q, k) <= 256,
    decreases qis.len() - k,
{
    if 0 <= k < qis.len() {
        lemma_min_dist_from_le(qis, dists, q, k + 1);
    }
}

fn min_distance_for(qis: &Vec<u32>, dists: &Vec<u8>, q: u32) -> (r: u64)
    requires
        dists@.len() == qis@.len(),
    ensures
        r == min_dist_from(qis@, dists@, q, 0),
{
    proof {
        lemma_min_dist_from_le(qis@, dists@, q, 0);
    }
    let n = qis.len();
    let mut acc: u64 = 256;
    let mut i: usize = 0;
    while i < n
        invariant
            0 <= i <= n,
            n == qis@.len() == dists@.len(),
            acc <= 256,
            min_dist_from(qis@, dists@, q, 0) == (if acc <= min_dist_from(
                qis@,
                dists@,
                q,
                i as int,
            ) {
                acc as int
            } else {
                min_dist_from(qis@, dists@, q, i as int)
            }),
        decreases n - i,
    {
        if qis[i] == q && (dists[i] as u64) < acc {
            acc = dists[i] as u64;
        }
        i = i + 1;
    }
    acc
}

/// The sum, over the distinct query slots, of the smallest distance seen
/// for that slot, for the rows from `i` on.
pub open spec fn typos_from(qis: Seq<u32>, dists: Seq<u8>, i: int) -> int
    decreases qis.len() - i,
{
    if i < 0 || i >= qis.len() {
        0
    } else {
        typos_from(qis, dists, i + 1) + if is_first_occ(qis, i) {
            min_dist_from(qis, dists, qis[i], 0)
        } else {
            0int
        }
    }
}

/// The rank of the `SumOfTypos` criterion.
pub fn sum_of_typos_rank(qis: &Vec<u32>, dists: &Vec<u8>) -> (r: u64)
    requires
        dists@.len() == qis@.len(),
        qis@.len() <= 0xffff_ffff,
    ensures
        r == typos_from(qis@, dists@, 0),
{
    let n = qis.len();
    let mut acc: u64 = 0;
    let mut i: usize = 0;
    while i < n
        invariant
            0 <= i <= n,
            n == qis@.len() == dists@.len(),
            n <= 0xffff_ffff,
            acc <= 256 * i,
            acc + typos_from(qis@, dists@, i as int) == typos_from(qis@, dists@, 0),
        decreases n - i,
    {
        if is_first_occurrence(qis, i) {
            let m = min_distance_for(qis, dists, qis[i]);
            proof {
                lemma_min_dist_from_le(qis@, dists@, qis@[i as int], 0);
            }
            acc = acc + m;
        }
        i = i + 1;
    }
    acc
}

/// The smallest value among the rows from `k` on whose slot is `q`, or
/// 65536 when no such row is left. Used for attribute ids and for word
/// positions.
pub open spec fn min_u16_from(qis: Seq<u32>, vals: Seq<u16>, q: u32, k: int) -> int
    decreases qis.len() - k,
{
    if k < 0 || k >= qis.len() {
        65536
    } else {
        let rest = min_u16_from(qis, vals, q, k + 1);
        if qis[k] == q && vals[k] < rest {
            vals[k] as int
        } else {
            rest
        }
    }
}

proof fn lemma_min_u16_from_le(qis: Seq<u32>, vals: Seq<u16>, q: u32, k: int)
    ensures
        min_u16_from(qis, vals, q, k) <= 65536,
    decreases qis.len() - k,
{
    if 0 <= k < qis.len() {
        lemma_min_u16_from_le(qis, vals, q, k + 1);
    }
}

fn min_u16_for(qis: &Vec<u32>, vals: &Vec<u16>, q: u32) -> (r: u64)
    requires
        vals@.len() == qis@.len(),
    ensures
        r == min_u16_from(qis@, vals@, q, 0),
{
    proof {
        lemma_min_u16_from_le(qis@, vals@, q, 0);
    }
    let n = qis.len();
    let mut acc: u64 = 65536;
    let mut i: usize = 0;
    while i < n
        invariant
            0 <= i <= n,
            n == qis@.len() == vals@.len(),
            acc <= 65536,
            min_u16_from(qis@, vals@, q, 0) == (if acc <= min_u16_from(
                qis@,
                vals@,
                q,
                i as int,
            ) {
                acc as int
            } else {
                min_u16_from(qis@, vals@, q, i as int)
            }),
        decreases n - i,
    {
        if qis[i] == q && (vals[i] as u64) < acc {
            acc = vals[i] as u64;
        }
        i = i + 1;
    }
    acc
}

/// The sum, over the distinct query slots, of the smallest value of the
/// parallel array for that slot, for the rows from `i` on.
pub open spec fn sum_min_u16_from(qis: Seq<u32>, vals: Seq<u16>, i: int) -> int
    decreases qis.len() - i,
{
    if i < 0 || i >= qis.len() {
        0
    } else {
        sum_min_u16_from(qis, vals, i + 1) + if is_first_occ(qis, i) {
            min_u16_from(qis, vals, qis[i], 0)
        } else {
            0int
        }
    }
}

/// The rank of `SumOfWordsAttribute` and of `SumOfWordsPosition`: the
/// attributes or positions of the best match of each query slot, summed.
pub fn sum_min_u16_rank(qis: &Vec<u32>, vals: &Vec<u16>) -> (r: u64)
    requires
        vals@.len() == qis@.len(),
        qis@.len() <= 0xffff_ffff,
    ensures
        r == sum_min_u16_from(qis@, vals@, 0),
{
    let n = qis.len();
    let mut acc: u64 = 0;
    let mut i: usize = 0;
    while i < n
        invariant
            0 <= i <= n,
            n == qis@.len() == vals@.len(),
            n <= 0xffff_ffff,
            acc <= 65536 * i,
            acc + sum_min_u16_from(qis@, vals@, i as int) == sum_min_u16_from(qis@, vals@, 0),
        decreases n - i,
    {
        if is_first_occurrence(qis, i) {
            let m = min_u16_for(qis, vals, qis[i]);
            proof {
                lemma_min_u16_from_le(qis@, vals@, qis@[i as int], 0);
            }
            acc = acc + m;
        }
        i = i + 1;
    }
    acc
}

/// Whether some row from `k` on matches slot `q` exactly: marked exact
/// and at distance zero.
pub open spec fn slot_has_exact_from(
    qis: Seq<u32>,
    exacts: Seq<bool>,
    dists: Seq<u8>,
    q: u32,
    k: int,
) -> bool
    decreases qis.len() - k,
{
    if k < 0 || k >= qis.len() {
        false
    } else {
        (qis[k] == q && exacts[k] && dists[k] == 0) || slot_has_exact_from(
            qis,
            exacts,
            dists,
            q,
            k + 1,
        )
    }
}

fn slot_has_exact(qis: &Vec<u32>, exacts: &Vec<bool>, dists: &Vec<u8>, q: u32) -> (r: bool)
    requires
        exacts@.len() == qis@.len(),
        dists@.len() == qis@.len(),
    ensures
        r == slot_has_exact_from(qis@, exacts@, dists@, q, 0),
{
    let n = qis.len();
    let mut i: usize = 0;
    while i < n
        invariant
            0 <= i <= n,
            n == qis@.len() == exacts@.len() == dists@.len(),
            slot_has_exact_from(qis@, exacts@, dists@, q, 0) == slot_has_exact_from(
                qis@,
                exacts@,
                dists@,
                q,
                i as int,
            ),
        decreases n - i,
    {
        if qis[i] == q && exacts[i] && dists[i] == 0 {
            return true;
        }
        i = i + 1;
    }
    false
}

/// The number of distinct query slots with an exact match, for the rows
/// from `i` on.
pub open spec fn exact_count_from(
    qis: Seq<u32>,
    exacts: Seq<bool>,
    dists: Seq<u8>,
    i: int,
) -> int
    decreases qis.len() - i,
{
    if i < 0 || i >= qis.len() {
        0
    } else {
        exact_count_from(qis, exacts, dists, i + 1) + if is_first_occ(qis, i)
            && slot_has_exact_from(qis, exacts, dists, qis[i], 0) {
            1int
        } else {
            0int
        }
    }
}

/// The count the `Exact` criterion negates.
pub fn exact_count(qis: &Vec<u32>, exacts: &Vec<bool>, dists: &Vec<u8>) -> (r: u64)
    requires
        exacts@.len() == qis@.len(),
        dists@.len() == qis@.len(),
        qis@.len() <= 0xffff_ffff,
    ensures
        r == exact_count_from(qis@, exacts@, dists@, 0),
{
    let n = qis.len();
    let mut acc: u64 = 0;
    let mut i: usize = 0;
    while i < n
        invariant
            0 <= i <= n,
            n == qis@.len() == exacts@.len() == dists@.len(),
            n <= 0xffff_ffff,
            acc <= i,
            acc + exact_count_from(qis@, exacts@, dists@, i as int) == exact_count_from(
                qis@,
                exacts@,
                dists@,
                0,
            ),
        decreases n - i,
    {
        if is_first_occurrence(qis, i) {
            if slot_has_exact(qis, exacts, dists, qis[i]) {
                acc = acc + 1;
            }
        }
        i = i + 1;
    }
    acc
}

/// The smallest query slot strictly above `q` among the rows from `k`
/// on, or 0x1_0000_0000 when no row matches a later slot.
pub open spec fn min_slot_above_from(qis: Seq<u32>, q: u32, k: int) -> int
    decreases qis.len() - k,
{
    if k < 0 || k >= qis.len() {
        0x1_0000_0000
    } else {
        let rest = min_slot_above_from(qis, q, k + 1);
        if qis[k] > q && qis[k] < rest {
            qis[k] as int
        } else {
            rest
        }
    }
}

proof fn lemma_min_slot_above_le(qis: Seq<u32>, q: u32, k: int)
    ensures
        min_slot_above_from(qis, q, k) <= 0x1_0000_0000,
    decreases qis.len() - k,
{
    if 0 <= k < qis.len() {
        lemma_min_slot_above_le(qis, q, k + 1);
    }
}

fn min_slot_above(qis: &Vec<u32>, q: u32) -> (r: u64)
    ensures
        r == min_slot_above_from(qis@, q, 0),
{
    proof {
        lemma_min_slot_above_le(qis@, q, 0);
    }
    let n = qis.len();
    let mut acc: u64 = 0x1_0000_0000;
    let mut i: usize = 0;
    while i < n
        invariant
            0 <= i <= n,
            n == qis@.len(),
            acc <= 0x1_0000_0000,
            min_slot_above_from(qis@, q, 0) == (if acc <= min_slot_above_from(
                qis@,
                q,
                i as int,
            ) {
                acc as int
            } else {
                min_slot_above_from(qis@, q, i as int)
            }),
        decreases n - i,
    {
        if qis[i] > q && (qis[i] as u64) < acc {
            acc = qis[i] as u64;
        }
        i = i + 1;
    }
    acc
}

/// The proximity cost of one ordered pair of matches: within one
/// attribute the word gap, counted once more when the second word comes
/// first, and capped at eight; across attributes always eight.
pub open spec fn position_gap(a1: u16, w1: u16, a2: u16, w2: u16) -> int {
    if a1 != a2 {
        8
    } else if w2 >= w1 {
        if w2 - w1 < 8 {
            w2 - w1
        } else {
            8
        }
    } else {
        if w1 - w2 + 1 < 8 {
            w1 - w2 + 1
        } else {
            8
        }
    }
}

fn position_gap_exec(a1: u16, w1: u16, a2: u16, w2: u16) -> (r: u64)
    ensures
        r == position_gap(a1, w1, a2, w2),
{
    if a1 != a2 {
        8
    } else if w2 >= w1 {
        let d = (w2 - w1) as u64;
        if d < 8 {
            d
        } else {
            8
        }
    } else {
        let d = (w1 - w2) as u64 + 1;
        if d < 8 {
            d
        } else {
            8
        }
    }
}

/// The smallest proximity cost from the match `(a1, w1)` to any row from
/// `k` on whose slot is `q2`, or 9 when no such row is left.
pub open spec fn min_gap_to_slot_from(
    qis: Seq<u32>,
    attrs: Seq<u16>,
    words: Seq<u16>,
    a1: u16,
    w1: u16,
    q2: u32,
    k: int,
) -> int
    decreases qis.len() - k,
{
    if k < 0 || k >= qis.len() {
        9
    } else {
        let rest = min_gap_to_slot_from(qis, attrs, words, a1, w1, q2, k + 1);
        if qis[k] == q2 && position_gap(a1, w1, attrs[k], words[k]) < rest {
            position_gap(a1, w1, attrs[k], words[k])
        } else {
            rest
        }
    }
}

proof fn lemma_min_gap_to_slot_le(
    qis: Seq<u32>,
    attrs: Seq<u16>,
    words: Seq<u16>,
    a1: u16,
    w1: u16,
    q2: u32,
    k: int,
)
    ensures
        min_gap_to_slot_from(qis, attrs, words, a1, w1, q2, k) <= 9,
    decreases qis.len() - k,
{
    if 0 <= k < qis.len() {
        lemma_min_gap_to_slot_le(qis, attrs, words, a1, w1, q2, k + 1);
    }
}

fn min_gap_to_slot(
    qis: &Vec<u32>,
    attrs: &Vec<u16>,
    words: &Vec<u16>,
    a1: u16,
    w1: u16,
    q2: u32,
) -> (r: u64)
    requires
        attrs@.len() == qis@.len(),
        words@.len() == qis@.len(),
    ensures
        r == min_gap_to_slot_from(qis@, attrs@, words@, a1, w1, q2, 0),
{
    proof {
        lemma_min_gap_to_slot_le(qis@, attrs@, words@, a1, w1, q2, 0);
    }
    let n = qis.len();
    let mut acc: u64 = 9;
    let mut i: usize = 0;
    while i < n
        invariant
            0 <= i <= n,
            n == qis@.len() == attrs@.len() == words@.len(),
            acc <= 9,
            min_gap_to_slot_from(qis@, attrs@, words@, a1, w1, q2, 0) == (if acc
                <= min_gap_to_slot_from(qis@, attrs@, words@, a1, w1, q2, i as int) {
                acc as int
            } else {
                min_gap_to_slot_from(qis@, attrs@, words@, a1, w1, q2, i as int)
            }),
        decreases n - i,
    {
        if qis[i] == q2 {
            let g = position_gap_exec(a1, w1, attrs[i], words[i]);
            if g < acc {
                acc = g;
            }
        }
        i = i + 1;
    }
    acc
}

/// The smallest proximity cost between any match of slot `q1` (rows from
/// `k` on) and any match of slot `q2`, or 9 when slot `q1` has no row
/// left.
pub open spec fn min_gap_between_from(
    qis: Seq<u32>,
    attrs: Seq<u16>,
    words: Seq<u16>,
    q1: u32,
    q2: u32,
    k: int,
) -> int
    decreases qis.len() - k,
{
    if k < 0 || k >= qis.len() {
        9
    } else {
        let rest = min_gap_between_from(qis, attrs, words, q1, q2, k + 1);
        if qis[k] == q1 && min_gap_to_slot_from(qis, attrs, words, attrs[k], words[k], q2, 0)
            < rest {
            min_gap_to_slot_from(qis, attrs, words, attrs[k], words[k], q2, 0)
        } else {
            rest
        }
    }
}

proof fn lemma_min_gap_between_le(
    qis: Seq<u32>,
    attrs: Seq<u16>,
    words: Seq<u16>,
    q1: u32,
    q2: u32,
    k: int,
)
    ensures
        min_gap_between_from(qis, attrs, words, q1, q2, k) <= 9,
    decreases qis.len() - k,
{
    if 0 <= k < qis.len() {
        lemma_min_gap_between_le(qis, attrs, words, q1, q2, k + 1);
    }
}

fn min_gap_between(
    qis: &Vec<u32>,
    attrs: &Vec<u16>,
    words: &Vec<u16>,
    q1: u32,
    q2: u32,
) -> (r: u64)
    requires
        attrs@.len() == qis@.len(),
        words@.len() == qis@.len(),
    ensures
        r == min_gap_between_from(qis@, attrs@, words@, q1, q2, 0),
{
    proof {
        lemma_min_gap_between_le(qis@, attrs@, words@, q1, q2, 0);
    }
    let n = qis.len();
    let mut acc: u64 = 9;
    let mut i: usize = 0;
    while i < n
        invariant
            0 <= i <= n,
            n == qis@.len() == attrs@.len() == words@.len(),
            acc <= 9,
            min_gap_between_from(qis@, attrs@, words@, q1, q2, 0) == (if acc
                <= min_gap_between_from(qis@, attrs@, words@, q1, q2, i as int) {
                acc as int
            } else {
                min_gap_between_from(qis@, attrs@, words@, q1, q2, i as int)
            }),
        decreases n - i,
    {
        if qis[i] == q1 {
            let g = min_gap_to_slot(qis, attrs, words, attrs[i], words[i], q2);
            if g < acc {
                acc = g;
            }
        }
        i = i + 1;
    }
    acc
}

/// The proximity sum: for each distinct query slot that has a next
/// matched slot, the smallest gap between the two slots' matches, for
/// the rows from `i` on.
pub open spec fn proximity_from(
    qis: Seq<u32>,
    attrs: Seq<u16>,
    words: Seq<u16>,
    i: int,
) -> int
    decreases qis.len() - i,
{
    if i < 0 || i >= qis.len() {
        0
    } else {
        proximity_from(qis, attrs, words, i + 1) + if is_first_occ(qis, i)
            && min_slot_above_from(qis, qis[i], 0) < 0x1_0000_0000 {
            min_gap_between_from(
                qis,
                attrs,
                words,
                qis[i],
                min_slot_above_from(qis, qis[i], 0) as u32,
                0,
            )
        } else {
            0int
        }
    }
}

/// The rank of the `WordsProximity` criterion.
pub fn words_proximity_rank(qis: &Vec<u32>, attrs: &Vec<u16>, words: &Vec<u16>) -> (r: u64)
    requires
        attrs@.len() == qis@.len(),
        words@.len() == qis@.len(),
        qis@.len() <= 0xffff_ffff,
    ensures
        r == proximity_from(qis@, attrs@, words@, 0),
{
    let n = qis.len();
    let mut acc: u64 = 0;
    let mut i: usize = 0;
    while i < n
        invariant
            0 <= i <= n,
            n == qis@.len() == attrs@.len() == words@.len(),
            n <= 0xffff_ffff,
            acc <= 9 * i,
            acc + proximity_from(qis@, attrs@, words@, i as int) == proximity_from(
                qis@,
                attrs@,
                words@,
                0,
            ),
        decreases n - i,
    {
        if is_first_occurrence(qis, i) {
            let nxt = min_slot_above(qis, qis[i]);
            if nxt < 0x1_0000_0000 {
                let g = min_gap_between(qis, attrs, words, qis[i], nxt as u32);
                proof {
                    lemma_min_gap_between_le(qis@, attrs@, words@, qis@[i as int], nxt as u32, 0);
                }
                acc = acc + g;
            }
        }
        i = i + 1;
    }
    acc
}

/// One comparator of the ranking cascade. Each criterion boils a
/// candidate down to an integer rank, smaller being better, and compares
/// two candidates by their ranks. `prepare` may precompute over one
/// candidate but leaves its value unchanged.
pub trait Criterion {
    /// The rank this criterion assigns to a candidate.
    spec fn rank(&self, doc: &RawDocument) -> int;

    fn prepare(&self, document: &mut RawDocument)
        requires
            old(document).wf(),
        ensures
            *final(document) == *old(document),
    ;

    fn evaluate(&self, lhs: &RawDocument, rhs: &RawDocument) -> (r: Ordering)
        requires
            lhs.wf(),
            rhs.wf(),
        ensures
            r == spec_cmp_int(self.rank(lhs), self.rank(rhs)),
    ;

    fn name(&self) -> &'static str;

    fn eq(&self, lhs: &RawDocument, rhs: &RawDocument) -> (r: bool)
        requires
            lhs.wf(),
            rhs.wf(),
        ensures
            r == (self.rank(lhs) == self.rank(rhs)),
    {
        match self.evaluate(lhs, rhs) {
            Ordering::Equal => true,
            _ => false,
        }
    }
}

/// Ranks by the summed best distance of each query slot: fewer typos win.
#[derive(Debug, Clone, Copy, PartialEq, Eq, Structural)]
pub struct SumOfTypos;

impl Criterion for SumOfTypos {
    open spec fn rank(&self, doc: &RawDocument) -> int {
        typos_from(doc.query_index@, doc.distance@, 0)
    }

    fn prepare(&self, document: &mut RawDocument) {
    }

    fn evaluate(&self, lhs: &RawDocument, rhs: &RawDocument) -> (r: Ordering) {
        let a = sum_of_typos_rank(&lhs.query_index, &lhs.distance);
        let b = sum_of_typos_rank(&rhs.query_index, &rhs.distance);
        cmp_u64(a, b)
    }

    fn name(&self) -> &'static str {
        "SumOfTypos"
    }
}

/// Ranks by the number of query slots matched: more matched words win.
#[derive(Debug, Clone, Copy, PartialEq, Eq, Structural)]
pub struct NumberOfWords;

impl Criterion for NumberOfWords {
    open spec fn rank(&self, doc: &RawDocument) -> int {
        -slot_count_from(doc.query_index@, 0)
    }

    fn prepare(&self, document: &mut RawDocument) {
    }

    fn evaluate(&self, lhs: &RawDocument, rhs: &RawDocument) -> (r: Ordering) {
        let a = count_query_slots(&lhs.query_index);
        let b = count_query_slots(&rhs.query_index);
        cmp_u64(b, a)
    }

    fn name(&self) -> &'static str {
        "NumberOfWords"
    }
}

/// Ranks by how close the matches of consecutive query slots sit:
/// nearer words win, and a pair split across attributes costs eight.
#[derive(Debug, Clone, Copy, PartialEq, Eq, Structural)]
pub struct WordsProximity;

impl Criterion for WordsProximity {
    open spec fn rank(&self, doc: &RawDocument) -> int {
        proximity_from(doc.query_index@, doc.attribute@, doc.word_index@, 0)
    }

    fn prepare(&self, document: &mut RawDocument) {
    }

    fn evaluate(&self, lhs: &RawDocument, rhs: &RawDocument) -> (r: Ordering) {
        let a = words_proximity_rank(&lhs.query_index, &lhs.attribute, &lhs.word_index);
        let b = words_proximity_rank(&rhs.query_index, &rhs.attribute, &rhs.word_index);
        cmp_u64(a, b)
    }

    fn name(&self) -> &'static str {
        "WordsProximity"
    }
}

/// Ranks by the summed attribute id of the best match of each query
/// slot: matches in earlier attributes win.
#[derive(Debug, Clone, Copy, PartialEq, Eq, Structural)]
pub struct SumOfWordsAttribute;

impl Criterion for SumOfWordsAttribute {
    open spec fn rank(&self, doc: &RawDocument) -> int {
        sum_min_u16_from(doc.query_index@, doc.attribute@, 0)
    }

    fn prepare(&self, document: &mut RawDocument) {
    }

    fn evaluate(&self, lhs: &RawDocument, rhs: &RawDocument) -> (r: Ordering) {
        let a = sum_min_u16_rank(&lhs.query_index, &lhs.attribute);
        let b = sum_min_u16_rank(&rhs.query_index, &rhs.attribute);
        cmp_u64(a, b)
    }

    fn name(&self) -> &'static str {
        "SumOfWordsAttribute"
    }
}

/// Ranks by the summed word position of the best match of each query
/// slot: matches nearer the start of their attribute win.
#[derive(Debug, Clone, Copy, PartialEq, Eq, Structural)]
pub struct SumOfWordsPosition;

impl Criterion for SumOfWordsPosition {
    open spec fn rank(&self, doc: &RawDocument) -> int {
        sum_min_u16_from(doc.query_index@, doc.word_index@, 0)
    }

    fn prepare(&self, document: &mut RawDocument) {
    }

    fn evaluate(&self, lhs: &RawDocument, rhs: &RawDocument) -> (r: Ordering) {
        let a = sum_min_u16_rank(&lhs.query_index, &lhs.word_index);
        let b = sum_min_u16_rank(&rhs.query_index, &rhs.word_index);
        cmp_u64(a, b)
    }

    fn name(&self) -> &'static str {
        "SumOfWordsPosition"
    }
}

/// Ranks by the number of query slots matched exactly, at distance zero:
/// more exact words win.
#[derive(Debug, Clone, Copy, PartialEq, Eq, Structural)]
pub struct Exact;

impl Criterion for Exact {
    open spec fn rank(&self, doc: &RawDocument) -> int {
        -exact_count_from(doc.query_index@, doc.is_exact@, doc.distance@, 0)
    }

    fn prepare(&self, document: &mut RawDocument) {
    }

    fn evaluate(&self, lhs: &RawDocument, rhs: &RawDocument) -> (r: Ordering) {
        let a = exact_count(&lhs.query_index, &lhs.is_exact, &lhs.distance);
        let b = exact_count(&rhs.query_index, &rhs.is_exact, &rhs.distance);
        cmp_u64(b, a)
    }

    fn name(&self) -> &'static str {
        "Exact"
    }
}

/// The stable final tie-break: ascending document id.
#[derive(Debug, Clone, Copy, PartialEq, Eq, Structural)]
pub struct DocumentId;

impl Criterion for DocumentId {
    open spec fn rank(&self, doc: &RawDocument) -> int {
        doc.id.0 as int
    }

    fn prepare(&self, document: &mut RawDocument) {
        // nothing to prepare
    }

    fn evaluate(&self, lhs: &RawDocument, rhs: &RawDocument) -> (r: Ordering) {
        cmp_u64(lhs.id.0, rhs.id.0)
    }

    fn name(&self) -> &'static str {
        "DocumentId"
    }
}

/// One comparator of the cascade, as a tagged value: the built-in
/// criteria of the engine.
#[derive(Debug, Clone, Copy, PartialEq, Eq, Structural)]
pub enum CriterionKind {
    SumOfTypos(SumOfTypos),
    NumberOfWords(NumberOfWords),
    WordsProximity(WordsProximity),
    SumOfWordsAttribute(SumOfWordsAttribute),
    SumOfWordsPosition(SumOfWordsPosition),
    Exact(Exact),
    DocumentId(DocumentId),
}

impl Criterion for CriterionKind {
    open spec fn rank(&self, doc: &RawDocument) -> int {
        match self {
            CriterionKind::SumOfTypos(c) => c.rank(doc),
            CriterionKind::NumberOfWords(c) => c.rank(doc),
            CriterionKind::WordsProximity(c) => c.rank(doc),
            CriterionKind::SumOfWordsAttribute(c) => c.rank(doc),
            CriterionKind::SumOfWordsPosition(c) => c.rank(doc),
            CriterionKind::Exact(c) => c.rank(doc),
            CriterionKind::DocumentId(c) => c.rank(doc),
        }
    }

    fn prepare(&self, document: &mut RawDocument) {
        match self {
            CriterionKind::SumOfTypos(c) => c.prepare(document),
            CriterionKind::NumberOfWords(c) => c.prepare(document),
            CriterionKind::WordsProximity(c) => c.prepare(document),
            CriterionKind::SumOfWordsAttribute(c) => c.prepare(document),
            CriterionKind::SumOfWordsPosition(c) => c.prepare(document),
            CriterionKind::Exact(c) => c.prepare(document),
            CriterionKind::DocumentId(c) => c.prepare(document),
        }
    }

    fn evaluate(&self, lhs: &RawDocument, rhs: &RawDocument) -> (r: Ordering) {
        match self {
            CriterionKind::SumOfTypos(c) => c.evaluate(lhs, rhs),
            CriterionKind::NumberOfWords(c) => c.evaluate(lhs, rhs),
            CriterionKind::WordsProximity(c) => c.evaluate(lhs, rhs),
            CriterionKind::SumOfWordsAttribute(c) => c.evaluate(lhs, rhs),
            CriterionKind::SumOfWordsPosition(c) => c.evaluate(lhs, rhs),
            CriterionKind::Exact(c) => c.evaluate(lhs, rhs),
            CriterionKind::DocumentId(c) => c.evaluate(lhs, rhs),
        }
    }

    fn name(&self) -> &'static str {
        match self {
            CriterionKind::SumOfTypos(c) => c.name(),
            CriterionKind::NumberOfWords(c) => c.name(),
            CriterionKind::WordsProximity(c) => c.name(),
            CriterionKind::SumOfWordsAttribute(c) => c.name(),
            CriterionKind::SumOfWordsPosition(c) => c.name(),
            CriterionKind::Exact(c) => c.name(),
            CriterionKind::DocumentId(c) => c.name(),
        }
    }
}

/// Collects the comparators of a cascade, in order.
pub struct CriteriaBuilder {
    inner: Vec<CriterionKind>,
}

impl CriteriaBuilder {
    /// The comparators added so far, in order.
    pub closed spec fn list(self) -> Seq<CriterionKind> {
        self.inner@
    }

    pub fn new() -> (b: CriteriaBuilder)
        ensures
            b.list() == Seq::<CriterionKind>::empty(),
    {
        CriteriaBuilder { inner: Vec::new() }
    }

    pub fn with_capacity(capacity: usize) -> (b: CriteriaBuilder)
        ensures
            b.list() == Seq::<CriterionKind>::empty(),
    {
        CriteriaBuilder { inner: Vec::with_capacity(capacity) }
    }

    pub fn reserve(&mut self, additional: usize)
        ensures
            final(self).list() == old(self).list(),
    {
        self.inner.reserve(additional)
    }

    /// Adds a comparator at the end of the cascade, builder style.
    pub fn add(self, criterion: CriterionKind) -> (b: CriteriaBuilder)
        requires
            self.list().len() < usize::MAX,
        ensures
            b.list() == self.list().push(criterion),
    {
        let mut this = self;
        this.push(criterion);
        this
    }

    /// Adds a comparator at the end of the cascade.
    pub fn push(&mut self, criterion: CriterionKind)
        requires
            old(self).list().len() < usize::MAX,
        ensures
            final(self).list() == old(self).list().push(criterion),
    {
        self.inner.push(criterion);
    }

    pub fn build(self) -> (c: Criteria)
        ensures
            c.list() == self.list(),
    {
        Criteria { inner: self.inner }
    }
}

/// An ordered cascade of comparators.
pub struct Criteria {
    inner: Vec<CriterionKind>,
}

impl Criteria {
    /// The comparators of the cascade, in order.
    pub closed spec fn list(self) -> Seq<CriterionKind> {
        self.inner@
    }

    /// The default cascade: typos, then word count, proximity, attribute,
    /// position, exactness, and the document id as the stable tie-break.
    pub fn standard() -> (c: Criteria)
        ensures
            c.list() == seq![
                CriterionKind::SumOfTypos(SumOfTypos),
                CriterionKind::NumberOfWords(NumberOfWords),
                CriterionKind::WordsProximity(WordsProximity),
                CriterionKind::SumOfWordsAttribute(SumOfWordsAttribute),
                CriterionKind::SumOfWordsPosition(SumOfWordsPosition),
                CriterionKind::Exact(Exact),
                CriterionKind::DocumentId(DocumentId),
            ],
    {
        let c = CriteriaBuilder::with_capacity(7)
            .add(CriterionKind::SumOfTypos(SumOfTypos))
            .add(CriterionKind::NumberOfWords(NumberOfWords))
            .add(CriterionKind::WordsProximity(WordsProximity))
            .add(CriterionKind::SumOfWordsAttribute(SumOfWordsAttribute))
            .add(CriterionKind::SumOfWordsPosition(SumOfWordsPosition))
            .add(CriterionKind::Exact(Exact))
            .add(CriterionKind::DocumentId(DocumentId))
            .build();
        proof {
            assert(c.list() =~= seq![
                CriterionKind::SumOfTypos(SumOfTypos),
                CriterionKind::NumberOfWords(NumberOfWords),
                CriterionKind::WordsProximity(WordsProximity),
                CriterionKind::SumOfWordsAttribute(SumOfWordsAttribute),
                CriterionKind::SumOfWordsPosition(SumOfWordsPosition),
                CriterionKind::Exact(Exact),
                CriterionKind::DocumentId(DocumentId),
            ]);
        }
        c
    }

    /// The comparators, in cascade order.
    pub fn as_slice(&self) -> (r: &[CriterionKind])
        ensures
            r@ == self.list(),
    {
        self.inner.as_slice()
    }
}

impl Default for Criteria {
    fn default() -> (c: Criteria)
        ensures
            c.list() == seq![
                CriterionKind::SumOfTypos(SumOfTypos),
                CriterionKind::NumberOfWords(NumberOfWords),
                CriterionKind::WordsProximity(WordsProximity),
                CriterionKind::SumOfWordsAttribute(SumOfWordsAttribute),
                CriterionKind::SumOfWordsPosition(SumOfWordsPosition),
                CriterionKind::Exact(Exact),
                CriterionKind::DocumentId(DocumentId),
            ],
    {
        Criteria::standard()
    }
}

/// What a cascade says of two candidates: the verdict of the first
/// comparator that tells them apart, or a tie.
pub open spec fn spec_cascade_cmp(
    list: Seq<CriterionKind>,
    lhs: RawDocument,
    rhs: RawDocument,
) -> Ordering
    decreases list.len(),
{
    if list.len() == 0 {
        Ordering::Equal
    } else if list[0].rank(&lhs) != list[0].rank(&rhs) {
        spec_cmp_int(list[0].rank(&lhs), list[0].rank(&rhs))
    } else {
        spec_cascade_cmp(list.drop_first(), lhs, rhs)
    }
}

/// Compares two candidates under a cascade, applying the comparators in
/// order until one tells them apart.
pub fn cascade_compare(criteria: &Criteria, lhs: &RawDocument, rhs: &RawDocument) -> (r: Ordering)
    requires
        lhs.wf(),
        rhs.wf(),
    ensures
        r == spec_cascade_cmp(criteria.list(), *lhs, *rhs),
{
    let list = criteria.as_slice();
    let n = list.len();
    let mut i: usize = 0;
    proof {
        assert(criteria.list().skip(0) =~= criteria.list());
    }
    while i < n
        invariant
            0 <= i <= n,
            n == criteria.list().len(),
            list@ == criteria.list(),
            lhs.wf(),
            rhs.wf(),
            spec_cascade_cmp(criteria.list(), *lhs, *rhs) == spec_cascade_cmp(
                criteria.list().skip(i as int),
                *lhs,
                *rhs,
            ),
        decreases n - i,
    {
        proof {
            assert(criteria.list().skip(i as int).drop_first() =~= criteria.list().skip(
                i as int + 1,
            ));
            assert(criteria.list().skip(i as int)[0] == criteria.list()[i as int]);
        }
        match list[i].evaluate(lhs, rhs) {
            Ordering::Equal => {
                i = i + 1;
            },
            verdict => {
                return verdict;
            },
        }
    }
    Ordering::Equal
}

/// Under any cascade led by `SumOfTypos`, the default one included, a
/// candidate with the strictly smaller typo rank comes first, whatever
/// the later comparators say.
pub proof fn lemma_fewer_typos_rank_first(
    list: Seq<CriterionKind>,
    lhs: RawDocument,
    rhs: RawDocument,
)
    requires
        list.len() > 0,
        list[0] == CriterionKind::SumOfTypos(SumOfTypos),
        typos_from(lhs.query_index@, lhs.distance@, 0) < typos_from(rhs.query_index@, rhs.distance@, 0),
    ensures
        spec_cascade_cmp(list, lhs, rhs) == Ordering::Less,
{
}

} // verus!
