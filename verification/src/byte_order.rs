//! Lexicographic order on byte strings: the order of the vocabulary, of
//! the per-document word lists, and of the storage keys.

use vstd::prelude::*;
use core::cmp::Ordering;

verus! {

/// Strict lexicographic order on byte sequences, the order `Ord` gives
/// byte slices: the first differing byte decides; a proper prefix comes
/// first.
pub open spec fn bytes_lt(a: Seq<u8>, b: Seq<u8>) -> bool
    decreases a.len(),
{
    if b.len() == 0 {
        false
    } else if a.len() == 0 {
        true
    } else if a[0] < b[0] {
        true
    } else if a[0] > b[0] {
        false
    } else {
        bytes_lt(a.drop_first(), b.drop_first())
    }
}

/// Exactly one of `a < b`, `a == b`, `b < a` holds.
pub proof fn lemma_bytes_lt_trichotomy(a: Seq<u8>, b: Seq<u8>)
    ensures
        bytes_lt(a, b) || a == b || bytes_lt(b, a),
        bytes_lt(a, b) ==> a != b && !bytes_lt(b, a),
        a == b ==> !bytes_lt(a, b) && !bytes_lt(b, a),
    decreases a.len(),
{
    if a.len() == 0 && b.len() == 0 {
        assert(a =~= b);
    } else if a.len() > 0 && b.len() > 0 && a[0] == b[0] {
        lemma_bytes_lt_trichotomy(a.drop_first(), b.drop_first());
        if a.drop_first() == b.drop_first() {
            assert forall|i: int| 0 <= i < a.len() implies a[i] == b[i] by {
                if i > 0 {
                    assert(a[i] == a.drop_first()[i - 1]);
                    assert(b[i] == b.drop_first()[i - 1]);
                }
            }
            assert(a =~= b);
        }
        if a == b {
            assert(a.drop_first() =~= b.drop_first());
        }
    } else if a == b {
        assert(a.len() == b.len());
        if a.len() > 0 {
            assert(a[0] == b[0]);
        }
    }
}

/// Lexicographic order on bytes is transitive.
pub proof fn lemma_bytes_lt_trans(a: Seq<u8>, b: Seq<u8>, c: Seq<u8>)
    requires
        bytes_lt(a, b),
        bytes_lt(b, c),
    ensures
        bytes_lt(a, c),
    decreases a.len(),
{
    if a.len() > 0 && b.len() > 0 && c.len() > 0 {
        if a[0] == b[0] && b[0] == c[0] {
            lemma_bytes_lt_trans(a.drop_first(), b.drop_first(), c.drop_first());
        }
    }
}

/// Sequences that agree up to `i` and then differ compare by the byte at
/// `i`.
proof fn lemma_bytes_lt_at(a: Seq<u8>, b: Seq<u8>, i: int)
    requires
        0 <= i < a.len(),
        i < b.len(),
        forall|j: int| 0 <= j < i ==> a[j] == b[j],
        a[i] < b[i],
    ensures
        bytes_lt(a, b),
    decreases i,
{
    if i > 0 {
        lemma_bytes_lt_at(a.drop_first(), b.drop_first(), i - 1);
    }
}

/// A proper prefix comes first.
proof fn lemma_bytes_lt_prefix(a: Seq<u8>, b: Seq<u8>)
    requires
        a.len() < b.len(),
        forall|j: int| 0 <= j < a.len() ==> a[j] == b[j],
    ensures
        bytes_lt(a, b),
    decreases a.len(),
{
    if a.len() > 0 {
        lemma_bytes_lt_prefix(a.drop_first(), b.drop_first());
    }
}

/// Compares two byte strings in the lexicographic order.
pub fn bytes_compare(a: &Vec<u8>, b: &Vec<u8>) -> (r: Ordering)
    ensures
        (r == Ordering::Less) == bytes_lt(a@, b@),
        (r == Ordering::Equal) == (a@ == b@),
        (r == Ordering::Greater) == bytes_lt(b@, a@),
{
    proof {
        lemma_bytes_lt_trichotomy(a@, b@);
    }
    let an = a.len();
    let bn = b.len();
    let m: usize = if an <= bn {
        an
    } else {
        bn
    };
    let mut i: usize = 0;
    while i < m
        invariant
            0 <= i <= m,
            m == (if an <= bn {
                an as int
            } else {
                bn as int
            }),
            an == a@.len(),
            bn == b@.len(),
            forall|j: int| 0 <= j < i ==> a@[j] == b@[j],
        decreases m - i,
    {
        if a[i] < b[i] {
            proof {
                lemma_bytes_lt_at(a@, b@, i as int);
                lemma_bytes_lt_trichotomy(a@, b@);
            }
            return Ordering::Less;
        }
        if a[i] > b[i] {
            proof {
                lemma_bytes_lt_at(b@, a@, i as int);
                lemma_bytes_lt_trichotomy(a@, b@);
            }
            return Ordering::Greater;
        }
        i = i + 1;
    }
    if an == bn {
        proof {
            assert(a@ =~= b@);
            lemma_bytes_lt_trichotomy(a@, b@);
        }
        Ordering::Equal
    } else if an < bn {
        proof {
            lemma_bytes_lt_prefix(a@, b@);
            lemma_bytes_lt_trichotomy(a@, b@);
        }
        Ordering::Less
    } else {
        proof {
            lemma_bytes_lt_prefix(b@, a@);
            lemma_bytes_lt_trichotomy(a@, b@);
        }
        Ordering::Greater
    }
}

} // verus!
