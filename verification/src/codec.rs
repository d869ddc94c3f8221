//! The binary layouts of the store: the fixed 16-byte posting record,
//! little-endian field by field, and the big-endian key encodings whose
//! byte order follows the numeric order, so that ordered key traversal
//! walks documents in id order.

use vstd::prelude::*;
use crate::byte_order::bytes_lt;
use crate::{DocIndex, DocumentId};

verus! {

/// The two little-endian bytes of a 16-bit value.
pub open spec fn u16_le(x: u16) -> Seq<u8> {
    seq![(x & 0xff) as u8, ((x >> 8) & 0xff) as u8]
}

/// The eight little-endian bytes of a 64-bit value.
pub open spec fn u64_le(x: u64) -> Seq<u8> {
    seq![
        (x & 0xff) as u8,
        ((x >> 8) & 0xff) as u8,
        ((x >> 16) & 0xff) as u8,
        ((x >> 24) & 0xff) as u8,
        ((x >> 32) & 0xff) as u8,
        ((x >> 40) & 0xff) as u8,
        ((x >> 48) & 0xff) as u8,
        ((x >> 56) & 0xff) as u8,
    ]
}

/// The 16-byte record of one posting: document id, attribute, word
/// index, char index and char length, each little-endian, in order.
pub open spec fn docindex_bytes(d: DocIndex) -> Seq<u8> {
    u64_le(d.document_id.0) + u16_le(d.attribute) + u16_le(d.word_index) + u16_le(d.char_index)
        + u16_le(d.char_length)
}

fn push_u16_le(out: &mut Vec<u8>, x: u16)
    ensures
        final(out)@ == old(out)@ + u16_le(x),
{
    out.push((x & 0xff) as u8);
    out.push(((x >> 8) & 0xff) as u8);
    proof {
        assert(out@ =~= old(out)@ + u16_le(x));
    }
}

fn push_u64_le(out: &mut Vec<u8>, x: u64)
    ensures
        final(out)@ == old(out)@ + u64_le(x),
{
    out.push((x & 0xff) as u8);
    out.push(((x >> 8) & 0xff) as u8);
    out.push(((x >> 16) & 0xff) as u8);
    out.push(((x >> 24) & 0xff) as u8);
    out.push(((x >> 32) & 0xff) as u8);
    out.push(((x >> 40) & 0xff) as u8);
    out.push(((x >> 48) & 0xff) as u8);
    out.push(((x >> 56) & 0xff) as u8);
    proof {
        assert(out@ =~= old(out)@ + u64_le(x));
    }
}

/// Serializes one posting into its fixed 16-byte record.
pub fn docindex_to_bytes(d: &DocIndex) -> (r: Vec<u8>)
    ensures
        r@ == docindex_bytes(*d),
        r@.len() == 16,
{
    let mut out: Vec<u8> = Vec::new();
    push_u64_le(&mut out, d.document_id.0);
    push_u16_le(&mut out, d.attribute);
    push_u16_le(&mut out, d.word_index);
    push_u16_le(&mut out, d.char_index);
    push_u16_le(&mut out, d.char_length);
    proof {
        assert(out@ =~= docindex_bytes(*d));
    }
    out
}

fn read_u16_le(b: &[u8], at: usize) -> (x: u16)
    requires
        at + 2 <= b@.len(),
    ensures
        u16_le(x) == b@.subrange(at as int, at as int + 2),
{
    let lo = b[at];
    let hi = b[at + 1];
    let x = (lo as u16) | ((hi as u16) << 8);
    proof {
        assert((x & 0xff) as u8 == lo && ((x >> 8) & 0xff) as u8 == hi) by (bit_vector)
            requires
                x == (lo as u16) | ((hi as u16) << 8),
        ;
        assert(u16_le(x) =~= b@.subrange(at as int, at as int + 2));
    }
    x
}

fn read_u64_le(b: &[u8], at: usize) -> (x: u64)
    requires
        at + 8 <= b@.len(),
    ensures
        u64_le(x) == b@.subrange(at as int, at as int + 8),
{
    let b0 = b[at];
    let b1 = b[at + 1];
    let b2 = b[at + 2];
    let b3 = b[at + 3];
    let b4 = b[at + 4];
    let b5 = b[at + 5];
    let b6 = b[at + 6];
    let b7 = b[at + 7];
    let x = (b0 as u64) | ((b1 as u64) << 8) | ((b2 as u64) << 16) | ((b3 as u64) << 24) | ((
    b4 as u64) << 32) | ((b5 as u64) << 40) | ((b6 as u64) << 48) | ((b7 as u64) << 56);
    proof {
        assert((x & 0xff) as u8 == b0 && ((x >> 8) & 0xff) as u8 == b1 && ((x >> 16) & 0xff) as u8
            == b2 && ((x >> 24) & 0xff) as u8 == b3 && ((x >> 32) & 0xff) as u8 == b4 && ((x >> 40)
            & 0xff) as u8 == b5 && ((x >> 48) & 0xff) as u8 == b6 && ((x >> 56) & 0xff) as u8
            == b7) by (bit_vector)
            requires
                x == (b0 as u64) | ((b1 as u64) << 8) | ((b2 as u64) << 16) | ((b3 as u64) << 24)
                    | ((b4 as u64) << 32) | ((b5 as u64) << 40) | ((b6 as u64) << 48) | ((
                b7 as u64) << 56),
        ;
        assert(u64_le(x) =~= b@.subrange(at as int, at as int + 8));
    }
    x
}

/// Reads one posting back from its 16-byte record; any other length is
/// corrupt.
pub fn docindex_from_bytes(b: &[u8]) -> (r: Option<DocIndex>)
    ensures
        b@.len() == 16 ==> {
            &&& r is Some
            &&& docindex_bytes(r->0) == b@
        },
        b@.len() != 16 ==> r is None,
{
    if b.len() != 16 {
        return None;
    }
    let document_id = DocumentId(read_u64_le(b, 0));
    let attribute = read_u16_le(b, 8);
    let word_index = read_u16_le(b, 10);
    let char_index = read_u16_le(b, 12);
    let char_length = read_u16_le(b, 14);
    let d = DocIndex { document_id, attribute, word_index, char_index, char_length };
    proof {
        assert(docindex_bytes(d) =~= b@);
    }
    Some(d)
}

/// Every posting survives the byte round trip: the record determines
/// the posting.
pub proof fn lemma_docindex_round_trip(d: DocIndex, b: Seq<u8>)
    requires
        b == docindex_bytes(d),
    ensures
        b.len() == 16,
        forall|d2: DocIndex| docindex_bytes(d2) == b ==> d2 == d,
{
    assert forall|d2: DocIndex| docindex_bytes(d2) == b implies d2 == d by {
        assert(u64_le(d.document_id.0) =~= b.subrange(0, 8));
        assert(u64_le(d2.document_id.0) =~= b.subrange(0, 8));
        lemma_u64_le_injective(d.document_id.0, d2.document_id.0);
        assert(u16_le(d.attribute) =~= b.subrange(8, 10));
        assert(u16_le(d2.attribute) =~= b.subrange(8, 10));
        lemma_u16_le_injective(d.attribute, d2.attribute);
        assert(u16_le(d.word_index) =~= b.subrange(10, 12));
        assert(u16_le(d2.word_index) =~= b.subrange(10, 12));
        lemma_u16_le_injective(d.word_index, d2.word_index);
        assert(u16_le(d.char_index) =~= b.subrange(12, 14));
        assert(u16_le(d2.char_index) =~= b.subrange(12, 14));
        lemma_u16_le_injective(d.char_index, d2.char_index);
        assert(u16_le(d.char_length) =~= b.subrange(14, 16));
        assert(u16_le(d2.char_length) =~= b.subrange(14, 16));
        lemma_u16_le_injective(d.char_length, d2.char_length);
    }
}

proof fn lemma_u64_le_injective(x: u64, y: u64)
    requires
        u64_le(x) == u64_le(y),
    ensures
        x == y,
{
    assert(u64_le(y)[0] == u64_le(x)[0] && u64_le(y)[1] == u64_le(x)[1] && u64_le(y)[2] == u64_le(
        x,
    )[2] && u64_le(y)[3] == u64_le(x)[3] && u64_le(y)[4] == u64_le(x)[4] && u64_le(y)[5] == u64_le(
        x,
    )[5] && u64_le(y)[6] == u64_le(x)[6] && u64_le(y)[7] == u64_le(x)[7]);
    assert(x == y) by (bit_vector)
        requires
            (x & 0xff) as u8 == (y & 0xff) as u8,
            ((x >> 8) & 0xff) as u8 == ((y >> 8) & 0xff) as u8,
            ((x >> 16) & 0xff) as u8 == ((y >> 16) & 0xff) as u8,
            ((x >> 24) & 0xff) as u8 == ((y >> 24) & 0xff) as u8,
            ((x >> 32) & 0xff) as u8 == ((y >> 32) & 0xff) as u8,
            ((x >> 40) & 0xff) as u8 == ((y >> 40) & 0xff) as u8,
            ((x >> 48) & 0xff) as u8 == ((y >> 48) & 0xff) as u8,
            ((x >> 56) & 0xff) as u8 == ((y >> 56) & 0xff) as u8,
    ;
}

proof fn lemma_u16_le_injective(x: u16, y: u16)
    requires
        u16_le(x) == u16_le(y),
    ensures
        x == y,
{
    assert(u16_le(y)[0] == u16_le(x)[0] && u16_le(y)[1] == u16_le(x)[1]);
    assert(x == y) by (bit_vector)
        requires
            (x & 0xff) as u8 == (y & 0xff) as u8,
            ((x >> 8) & 0xff) as u8 == ((y >> 8) & 0xff) as u8,
    ;
}

/// The stored form of a postings run: the 16-byte records, one after
/// the other.
pub open spec fn postings_bytes(run: Seq<DocIndex>) -> Seq<u8>
    decreases run.len(),
{
    if run.len() == 0 {
        Seq::empty()
    } else {
        docindex_bytes(run[0]) + postings_bytes(run.drop_first())
    }
}

proof fn lemma_postings_bytes_snoc(run: Seq<DocIndex>, d: DocIndex)
    ensures
        postings_bytes(run.push(d)) == postings_bytes(run) + docindex_bytes(d),
    decreases run.len(),
{
    if run.len() == 0 {
        let s = run.push(d);
        assert(s[0] == d);
        assert(s.drop_first() =~= Seq::<DocIndex>::empty());
        assert(postings_bytes(Seq::<DocIndex>::empty()) == Seq::<u8>::empty());
        assert(postings_bytes(s) == docindex_bytes(d) + Seq::<u8>::empty());
        assert(postings_bytes(run.push(d)) =~= postings_bytes(run) + docindex_bytes(d));
    } else {
        assert(run.push(d).drop_first() =~= run.drop_first().push(d));
        assert(run.push(d)[0] == run[0]);
        lemma_postings_bytes_snoc(run.drop_first(), d);
        assert(postings_bytes(run.push(d)) == docindex_bytes(run[0]) + (postings_bytes(
            run.drop_first(),
        ) + docindex_bytes(d)));
        assert(postings_bytes(run.push(d)) =~= postings_bytes(run) + docindex_bytes(d));
    }
}

/// Serializes a postings run into the stored byte form.
pub fn postings_to_bytes(run: &Vec<DocIndex>) -> (r: Vec<u8>)
    requires
        16 * run@.len() <= usize::MAX,
    ensures
        r@ == postings_bytes(run@),
{
    let n = run.len();
    let mut out: Vec<u8> = Vec::new();
    let mut i: usize = 0;
    proof {
        assert(run@.take(0) =~= Seq::<DocIndex>::empty());
    }
    while i < n
        invariant
            0 <= i <= n,
            n == run@.len(),
            16 * n <= usize::MAX,
            out@.len() == 16 * i,
            out@ == postings_bytes(run@.take(i as int)),
        decreases n - i,
    {
        let rec = docindex_to_bytes(&run[i]);
        let ghost before = out@;
        let mut k: usize = 0;
        while k < 16
            invariant
                0 <= k <= 16,
                rec@.len() == 16,
                rec@ == docindex_bytes(run@[i as int]),
                out@ == before + rec@.take(k as int),
            decreases 16 - k,
        {
            out.push(rec[k]);
            proof {
                assert(out@ =~= before + rec@.take(k as int + 1));
            }
            k = k + 1;
        }
        proof {
            assert(rec@.take(16) =~= rec@);
            assert(run@.take(i as int + 1) =~= run@.take(i as int).push(run@[i as int]));
            lemma_postings_bytes_snoc(run@.take(i as int), run@[i as int]);
        }
        i = i + 1;
    }
    proof {
        assert(run@.take(n as int) =~= run@);
    }
    out
}

/// Reads a postings run back from its stored bytes; a length that is not
/// a whole number of records is corrupt.
pub fn postings_from_bytes(b: &[u8]) -> (r: Option<Vec<DocIndex>>)
    ensures
        match r {
            Some(run) => postings_bytes(run@) == b@,
            None => b@.len() % 16 != 0,
        },
{
    let n = b.len();
    if n % 16 != 0 {
        return None;
    }
    let mut run: Vec<DocIndex> = Vec::new();
    let mut at: usize = 0;
    proof {
        assert(run@ =~= Seq::<DocIndex>::empty());
        assert(b@.take(0) =~= Seq::<u8>::empty());
    }
    while at < n
        invariant
            0 <= at <= n,
            n == b@.len(),
            at % 16 == 0,
            n % 16 == 0,
            postings_bytes(run@) == b@.take(at as int),
        decreases n - at,
    {
        let document_id = DocumentId(read_u64_le(b, at));
        let attribute = read_u16_le(b, at + 8);
        let word_index = read_u16_le(b, at + 10);
        let char_index = read_u16_le(b, at + 12);
        let char_length = read_u16_le(b, at + 14);
        let d = DocIndex { document_id, attribute, word_index, char_index, char_length };
        proof {
            assert(docindex_bytes(d) =~= b@.subrange(at as int, at as int + 16));
            lemma_postings_bytes_snoc(run@, d);
            assert(b@.take(at as int) + b@.subrange(at as int, at as int + 16) =~= b@.take(
                at as int + 16,
            ));
        }
        run.push(d);
        at = at + 16;
    }
    proof {
        assert(b@.take(n as int) =~= b@);
    }
    Some(run)
}

/// The eight big-endian bytes of a 64-bit value: the key form under
/// which documents are stored.
pub open spec fn u64_be(x: u64) -> Seq<u8> {
    seq![
        ((x >> 56) & 0xff) as u8,
        ((x >> 48) & 0xff) as u8,
        ((x >> 40) & 0xff) as u8,
        ((x >> 32) & 0xff) as u8,
        ((x >> 24) & 0xff) as u8,
        ((x >> 16) & 0xff) as u8,
        ((x >> 8) & 0xff) as u8,
        (x & 0xff) as u8,
    ]
}

/// The two big-endian bytes of a 16-bit value.
pub open spec fn u16_be(x: u16) -> Seq<u8> {
    seq![((x >> 8) & 0xff) as u8, (x & 0xff) as u8]
}

/// The key of a document in the per-document stores.
pub fn document_id_key(id: DocumentId) -> (r: Vec<u8>)
    ensures
        r@ == u64_be(id.0),
{
    let x = id.0;
    let mut out: Vec<u8> = Vec::new();
    out.push(((x >> 56) & 0xff) as u8);
    out.push(((x >> 48) & 0xff) as u8);
    out.push(((x >> 40) & 0xff) as u8);
    out.push(((x >> 32) & 0xff) as u8);
    out.push(((x >> 24) & 0xff) as u8);
    out.push(((x >> 16) & 0xff) as u8);
    out.push(((x >> 8) & 0xff) as u8);
    out.push((x & 0xff) as u8);
    proof {
        assert(out@ =~= u64_be(x));
    }
    out
}

/// The key of one attribute of one document: the document key followed
/// by the big-endian attribute id.
pub fn document_attr_key(id: DocumentId, attr: u16) -> (r: Vec<u8>)
    ensures
        r@ == u64_be(id.0) + u16_be(attr),
{
    let mut out = document_id_key(id);
    out.push(((attr >> 8) & 0xff) as u8);
    out.push((attr & 0xff) as u8);
    proof {
        assert(out@ =~= u64_be(id.0) + u16_be(attr));
    }
    out
}

/// Big-endian document keys sort exactly as the document ids do, which
/// is what makes ordered key traversal walk documents in id order.
pub proof fn lemma_u64_be_order(x: u64, y: u64)
    ensures
        bytes_lt(u64_be(x), u64_be(y)) == (x < y),
{
    reveal_with_fuel(bytes_lt, 10);
    let a = u64_be(x);
    let b = u64_be(y);
    let e = (if a[0] != b[0] {
        a[0] < b[0]
    } else if a[1] != b[1] {
        a[1] < b[1]
    } else if a[2] != b[2] {
        a[2] < b[2]
    } else if a[3] != b[3] {
        a[3] < b[3]
    } else if a[4] != b[4] {
        a[4] < b[4]
    } else if a[5] != b[5] {
        a[5] < b[5]
    } else if a[6] != b[6] {
        a[6] < b[6]
    } else {
        a[7] < b[7]
    });
    assert(bytes_lt(a, b) == e);
    assert((if (((x >> 56) & 0xff) as u8) != (((y >> 56) & 0xff) as u8) {
        (((x >> 56) & 0xff) as u8) < (((y >> 56) & 0xff) as u8)
    } else if (((x >> 48) & 0xff) as u8) != (((y >> 48) & 0xff) as u8) {
        (((x >> 48) & 0xff) as u8) < (((y >> 48) & 0xff) as u8)
    } else if (((x >> 40) & 0xff) as u8) != (((y >> 40) & 0xff) as u8) {
        (((x >> 40) & 0xff) as u8) < (((y >> 40) & 0xff) as u8)
    } else if (((x >> 32) & 0xff) as u8) != (((y >> 32) & 0xff) as u8) {
        (((x >> 32) & 0xff) as u8) < (((y >> 32) & 0xff) as u8)
    } else if (((x >> 24) & 0xff) as u8) != (((y >> 24) & 0xff) as u8) {
        (((x >> 24) & 0xff) as u8) < (((y >> 24) & 0xff) as u8)
    } else if (((x >> 16) & 0xff) as u8) != (((y >> 16) & 0xff) as u8) {
        (((x >> 16) & 0xff) as u8) < (((y >> 16) & 0xff) as u8)
    } else if (((x >> 8) & 0xff) as u8) != (((y >> 8) & 0xff) as u8) {
        (((x >> 8) & 0xff) as u8) < (((y >> 8) & 0xff) as u8)
    } else {
        ((x & 0xff) as u8) < ((y & 0xff) as u8)
    }) == (x < y)) by (bit_vector);
}

} // verus!
