//! The indexing accumulator: feeds the tokens of document attributes into
//! two maps, word to postings and document to words, and finalizes them
//! into sorted postings runs and per-document word sets.
//!
//! Words are indexed lowercased; a word without CJK characters whose
//! ASCII transliteration differs is indexed a second time, at the same
//! position, under the transliterated form.

use vstd::prelude::*;
use vstd::string::StringSliceAdditionalSpecFns;
use vstd::utf8::encode_utf8;
use crate::byte_order::{bytes_compare, bytes_lt, lemma_bytes_lt_trichotomy, lemma_bytes_lt_trans};
use crate::schema::{str_eq, SchemaAttr};
use crate::tokenizer::{
    char_is_cjk, seq_tokens, texts_budget, text_tokens, SeqTokenizer, Token, TokenModel, Tokenizer,
};
use crate::{DocIndex, DocumentId};
use core::cmp::Ordering;

verus! {

/// The lowercase form of a string, as `str::to_lowercase` computes it.
pub uninterp spec fn lower_of(s: Seq<char>) -> Seq<char>;

/// Relies on str::to_lowercase: the result depends on the characters
/// alone.
#[verifier::external_body]
fn lowercase(s: &str) -> (r: String)
    ensures
        r@ == lower_of(s@),
{
    s.to_lowercase()
}

/// The ASCII transliteration of a string, as `deunicode` computes it
/// with an empty replacement for unknown characters.
pub uninterp spec fn deunicoded_of(s: Seq<char>) -> Seq<char>;

/// Relies on deunicode::deunicode_with_tofu: the result depends on the
/// characters alone.
#[verifier::external_body]
fn deunicode_chars(s: &str) -> (r: String)
    ensures
        r@ == deunicoded_of(s@),
{
    deunicode::deunicode_with_tofu(s, "")
}

#[verifier::external_type_specification]
#[verifier::external_body]
#[verifier::reject_recursive_types(T)]
pub struct ExSetBuf<T>(sdset::SetBuf<T>);

/// The rows a postings run holds, each as the tuple of its fields in
/// order: document id, attribute, word index, char index, char length.
pub uninterp spec fn setbuf_rows(s: sdset::SetBuf<DocIndex>) -> Seq<(u64, u16, u16, u16, u16)>;

/// A posting as the tuple the stored order compares: document id first,
/// then attribute, word index, char index and char length.
pub open spec fn docindex_key(d: DocIndex) -> (u64, u16, u16, u16, u16) {
    (d.document_id.0, d.attribute, d.word_index, d.char_index, d.char_length)
}

/// The strict lexicographic order on posting tuples.
pub open spec fn docindex_key_lt(a: (u64, u16, u16, u16, u16), b: (u64, u16, u16, u16, u16)) -> bool {
    if a.0 != b.0 {
        a.0 < b.0
    } else if a.1 != b.1 {
        a.1 < b.1
    } else if a.2 != b.2 {
        a.2 < b.2
    } else if a.3 != b.3 {
        a.3 < b.3
    } else {
        a.4 < b.4
    }
}

/// Relies on sdset::SetBuf::from_dirty: sorts with the derived order on
/// `DocIndex`, which compares the fields in declaration order, and
/// removes duplicates; the result holds the same postings, strictly
/// sorted.
#[verifier::external_body]
fn setbuf_from_dirty(v: Vec<DocIndex>) -> (r: sdset::SetBuf<DocIndex>)
    ensures
        setbuf_rows(r).to_set() == v@.map_values(|d: DocIndex| docindex_key(d)).to_set(),
        forall|i: int, j: int|
            0 <= i < j < setbuf_rows(r).len() ==> docindex_key_lt(
                #[trigger] setbuf_rows(r)[i],
                #[trigger] setbuf_rows(r)[j],
            ),
{
    sdset::SetBuf::from_dirty(v)
}

#[verifier::external_type_specification]
#[verifier::external_body]
#[verifier::reject_recursive_types(D)]
pub struct ExFstSet<D>(fst::Set<D>);

/// The set of byte words a word set holds.
pub uninterp spec fn fst_set_words(s: fst::Set<Vec<u8>>) -> Set<Seq<u8>>;

/// A sequence of byte vectors, by value.
pub open spec fn bytes_seq_view(v: Seq<Vec<u8>>) -> Seq<Seq<u8>> {
    Seq::new(v.len(), |i: int| v[i]@)
}

/// Relies on fst::Set::from_iter: builds the set of exactly the given
/// keys, and with keys in strictly increasing lexicographic order it
/// cannot fail.
#[verifier::external_body]
fn fst_set_from_words(words: &Vec<Vec<u8>>) -> (r: fst::Set<Vec<u8>>)
    requires
        forall|i: int, j: int|
            0 <= i < j < words@.len() ==> bytes_lt(
                (#[trigger] words@[i])@,
                (#[trigger] words@[j])@,
            ),
    ensures
        fst_set_words(r) == bytes_seq_view(words@).to_set(),
{
    fst::Set::from_iter(words.iter()).unwrap()
}

/// The mathematical content of the accumulator: the word map and the
/// document map, each as an association sequence.
pub struct IndexerModel {
    pub words: Seq<(Seq<u8>, Seq<DocIndex>)>,
    pub docs: Seq<(u64, Seq<Seq<u8>>)>,
}

/// Appends a posting under `w`, keeping the word entries sorted: an
/// existing entry grows at its place, a new word opens an entry at its
/// ordered position.
pub open spec fn insert_word_entry(
    words: Seq<(Seq<u8>, Seq<DocIndex>)>,
    w: Seq<u8>,
    di: DocIndex,
) -> Seq<(Seq<u8>, Seq<DocIndex>)>
    decreases words.len(),
{
    if words.len() == 0 {
        seq![(w, seq![di])]
    } else if w == words[0].0 {
        seq![(words[0].0, words[0].1.push(di))] + words.drop_first()
    } else if bytes_lt(w, words[0].0) {
        seq![(w, seq![di])] + words
    } else {
        seq![words[0]] + insert_word_entry(words.drop_first(), w, di)
    }
}

/// Appends a word under a document id: an existing document grows its
/// list, a new one opens an entry at the end.
pub open spec fn add_doc_word(docs: Seq<(u64, Seq<Seq<u8>>)>, id: u64, w: Seq<u8>) -> Seq<
    (u64, Seq<Seq<u8>>),
>
    decreases docs.len(),
{
    if docs.len() == 0 {
        seq![(id, seq![w])]
    } else if docs[0].0 == id {
        seq![(id, docs[0].1.push(w))] + docs.drop_first()
    } else {
        seq![docs[0]] + add_doc_word(docs.drop_first(), id, w)
    }
}

/// The accumulator: word postings and per-document words gathered over a
/// batch of documents.
pub struct Indexer {
    word_limit: usize,
    words_doc_indexes: Vec<(Vec<u8>, Vec<DocIndex>)>,
    docs_words: Vec<(DocumentId, Vec<Vec<u8>>)>,
}

impl Indexer {
    /// The word map, by value.
    pub closed spec fn words_model(self) -> Seq<(Seq<u8>, Seq<DocIndex>)> {
        Seq::new(
            self.words_doc_indexes@.len(),
            |i: int| (self.words_doc_indexes@[i].0@, self.words_doc_indexes@[i].1@),
        )
    }

    /// The document map, by value.
    pub closed spec fn docs_model(self) -> Seq<(u64, Seq<Seq<u8>>)> {
        Seq::new(
            self.docs_words@.len(),
            |i: int| (self.docs_words@[i].0.0, bytes_seq_view(self.docs_words@[i].1@)),
        )
    }

    /// Both maps at once.
    pub open spec fn model(self) -> IndexerModel {
        IndexerModel { words: self.words_model(), docs: self.docs_model() }
    }

    /// The word limit this accumulator was built with.
    pub closed spec fn limit(self) -> int {
        self.word_limit as int
    }

    /// Word entries are strictly sorted; document entries are unique.
    pub closed spec fn wf(self) -> bool {
        &&& forall|i: int, j: int|
            0 <= i < j < self.words_model().len() ==> bytes_lt(
                (#[trigger] self.words_model()[i]).0,
                (#[trigger] self.words_model()[j]).0,
            )
        &&& forall|i: int, j: int|
            0 <= i < j < self.docs_model().len() ==> (#[trigger] self.docs_model()[i]).0 != (
            #[trigger] self.docs_model()[j]).0
    }

    /// An empty accumulator with the default word limit of 1000.
    pub fn new() -> (r: Indexer)
        ensures
            r.wf(),
            r.model().words == Seq::<(Seq<u8>, Seq<DocIndex>)>::empty(),
            r.model().docs == Seq::<(u64, Seq<Seq<u8>>)>::empty(),
            r.limit() == 1000,
    {
        Indexer::with_word_limit(1000)
    }

    /// An empty accumulator that stops reading an attribute at the given
    /// number of word positions.
    pub fn with_word_limit(limit: usize) -> (r: Indexer)
        ensures
            r.wf(),
            r.model().words == Seq::<(Seq<u8>, Seq<DocIndex>)>::empty(),
            r.model().docs == Seq::<(u64, Seq<Seq<u8>>)>::empty(),
            r.limit() == limit,
    {
        let r = Indexer { word_limit: limit, words_doc_indexes: Vec::new(), docs_words: Vec::new() };
        proof {
            assert(r.words_model() =~= Seq::<(Seq<u8>, Seq<DocIndex>)>::empty());
            assert(r.docs_model() =~= Seq::<(u64, Seq<Seq<u8>>)>::empty());
        }
        r
    }

    /// Adds one posting under a word, keeping the entries sorted.
    fn add_word_posting(&mut self, word: Vec<u8>, di: DocIndex)
        requires
            old(self).wf(),
        ensures
            final(self).wf(),
            final(self).words_model() == insert_word_entry(old(self).words_model(), word@, di),
            final(self).docs_model() == old(self).docs_model(),
            final(self).limit() == old(self).limit(),
    {
        let ghost m = self.words_model();
        let n = self.words_doc_indexes.len();
        let mut idx: usize = 0;
        let mut found = false;
        loop
            invariant
                *self == *old(self),
                old(self).wf(),
                m == self.words_model(),
                0 <= idx <= n,
                n == self.words_doc_indexes@.len(),
                forall|j: int| 0 <= j < idx ==> bytes_lt((#[trigger] m[j]).0, word@),
                found ==> idx < n && m[idx as int].0 == word@,
            ensures
                *self == *old(self),
                0 <= idx <= n,
                forall|j: int| 0 <= j < idx ==> bytes_lt((#[trigger] m[j]).0, word@),
                found ==> idx < n && m[idx as int].0 == word@,
                !found ==> idx == n || bytes_lt(word@, m[idx as int].0),
            decreases n - idx,
        {
            if idx >= n {
                break;
            }
            match bytes_compare(&self.words_doc_indexes[idx].0, &word) {
                Ordering::Less => {
                    idx = idx + 1;
                },
                Ordering::Equal => {
                    found = true;
                    break;
                },
                Ordering::Greater => {
                    break;
                },
            }
        }
        proof {
            if idx < n {
                lemma_bytes_lt_trichotomy(word@, m[idx as int].0);
            }
            lemma_insert_word_at(m, word@, di, idx as int);
        }
        if found {
            self.words_doc_indexes[idx].1.push(di);
            proof {
                let m2 = self.words_model();
                assert(m2 =~= m.update(idx as int, (m[idx as int].0, m[idx as int].1.push(di))));
                assert forall|i: int, j: int| 0 <= i < j < m2.len() implies bytes_lt(
                    (#[trigger] m2[i]).0,
                    (#[trigger] m2[j]).0,
                ) by {
                    assert(bytes_lt(m[i].0, m[j].0));
                }
            }
        } else {
            let mut run: Vec<DocIndex> = Vec::new();
            run.push(di);
            self.words_doc_indexes.insert(idx, (word, run));
            proof {
                let m2 = self.words_model();
                assert(m2 =~= m.insert(idx as int, (word@, seq![di])));
                assert forall|i: int, j: int| 0 <= i < j < m2.len() implies bytes_lt(
                    (#[trigger] m2[i]).0,
                    (#[trigger] m2[j]).0,
                ) by {
                    if i == idx {
                        // the new entry against an entry after the break point
                        assert(bytes_lt(word@, m[idx as int].0));
                        if j - 1 > idx {
                            assert(bytes_lt(m[idx as int].0, m[j - 1].0));
                            lemma_bytes_lt_trans(word@, m[idx as int].0, m[j - 1].0);
                        }
                        assert(m2[j] == m[j - 1]);
                    } else if j == idx {
                        assert(m2[i] == m[i]);
                        assert(bytes_lt(m[i].0, word@));
                    } else if i < idx && j > idx {
                        assert(m2[i] == m[i]);
                        assert(m2[j] == m[j - 1]);
                        assert(bytes_lt(m[i].0, m[j - 1].0));
                    } else if j < idx {
                        assert(bytes_lt(m[i].0, m[j].0));
                    } else {
                        assert(m2[i] == m[i - 1]);
                        assert(m2[j] == m[j - 1]);
                        assert(bytes_lt(m[i - 1].0, m[j - 1].0));
                    }
                }
            }
        }
        proof {
            let d2 = self.docs_model();
            assert(d2 =~= old(self).docs_model());
            assert forall|i: int, j: int| 0 <= i < j < d2.len() implies (#[trigger] d2[i]).0 != (
            #[trigger] d2[j]).0 by {
                assert(d2[i] == old(self).docs_model()[i]);
                assert(d2[j] == old(self).docs_model()[j]);
            }
        }
    }

    /// Adds one word under a document id, keeping one entry per document.
    fn add_doc_word_entry(&mut self, id: DocumentId, word: Vec<u8>)
        requires
            old(self).wf(),
        ensures
            final(self).wf(),
            final(self).docs_model() == add_doc_word(old(self).docs_model(), id.0, word@),
            final(self).words_model() == old(self).words_model(),
            final(self).limit() == old(self).limit(),
    {
        let ghost m = self.docs_model();
        let n = self.docs_words.len();
        let mut idx: usize = 0;
        let mut found = false;
        loop
            invariant
                *self == *old(self),
                old(self).wf(),
                m == self.docs_model(),
                0 <= idx <= n,
                n == self.docs_words@.len(),
                forall|j: int| 0 <= j < idx ==> (#[trigger] m[j]).0 != id.0,
                found ==> idx < n && m[idx as int].0 == id.0,
            ensures
                *self == *old(self),
                0 <= idx <= n,
                forall|j: int| 0 <= j < idx ==> (#[trigger] m[j]).0 != id.0,
                found ==> idx < n && m[idx as int].0 == id.0,
                !found ==> idx == n,
            decreases n - idx,
        {
            if idx >= n {
                break;
            }
            if self.docs_words[idx].0 == id {
                found = true;
                break;
            }
            idx = idx + 1;
        }
        if found {
            proof {
                lemma_add_doc_word_at(m, id.0, word@, idx as int);
            }
            self.docs_words[idx].1.push(word);
            proof {
                let m2 = self.docs_model();
                assert(m2 =~~= m.update(idx as int, (id.0, m[idx as int].1.push(word@))));
                assert forall|i: int, j: int| 0 <= i < j < m2.len() implies (
                #[trigger] m2[i]).0 != (#[trigger] m2[j]).0 by {
                    assert(m2[i].0 == m[i].0);
                    assert(m2[j].0 == m[j].0);
                }
            }
        } else {
            proof {
                lemma_add_doc_word_append(m, id.0, word@);
            }
            let mut ws: Vec<Vec<u8>> = Vec::new();
            ws.push(word);
            self.docs_words.push((id, ws));
            proof {
                let m2 = self.docs_model();
                assert(ws@.len() == 1);
                assert(m2 =~~= m.push((id.0, seq![word@])));
                assert forall|i: int, j: int| 0 <= i < j < m2.len() implies (
                #[trigger] m2[i]).0 != (#[trigger] m2[j]).0 by {
                    if j < m.len() {
                        assert(m2[i].0 == m[i].0);
                        assert(m2[j].0 == m[j].0);
                    } else {
                        assert(m2[i].0 == m[i].0);
                        assert(m[i].0 != id.0);
                    }
                }
            }
        }
        proof {
            let w2 = self.words_model();
            assert(w2 =~= old(self).words_model());
            assert forall|i: int, j: int| 0 <= i < j < w2.len() implies bytes_lt(
                (#[trigger] w2[i]).0,
                (#[trigger] w2[j]).0,
            ) by {
                assert(w2[i] == old(self).words_model()[i]);
                assert(w2[j] == old(self).words_model()[j]);
            }
        }
    }
}

/// The posting for a token: its positions in word units and characters,
/// and the length of the word in bytes, if each fits the 16-bit fields
/// of a `DocIndex`.
pub open spec fn spec_docindex_for(
    id: DocumentId,
    attr: u16,
    wi: int,
    ci: int,
    word: Seq<char>,
) -> Option<DocIndex> {
    if wi <= 0xffff && ci <= 0xffff && encode_utf8(word).len() <= 0xffff {
        Some(
            DocIndex {
                document_id: id,
                attribute: attr,
                word_index: wi as u16,
                char_index: ci as u16,
                char_length: encode_utf8(word).len() as u16,
            },
        )
    } else {
        None
    }
}

/// Turns a token into the posting that records it, unless a position or
/// the word's byte length overflows the 16-bit record fields.
pub fn token_to_docindex(id: DocumentId, attr: SchemaAttr, token: Token<'_>) -> (r: Option<
    DocIndex,
>)
    ensures
        r == spec_docindex_for(
            id,
            attr.0,
            token.word_index as int,
            token.char_index as int,
            token.word@,
        ),
{
    if token.word_index > 0xffff {
        return None;
    }
    if token.char_index > 0xffff {
        return None;
    }
    let byte_length = token.word.as_bytes().len();
    proof {
        assert(token.word.spec_bytes() == encode_utf8(token.word@));
    }
    if byte_length > 0xffff {
        return None;
    }
    Some(
        DocIndex {
            document_id: id,
            attribute: attr.0,
            word_index: token.word_index as u16,
            char_index: token.char_index as u16,
            char_length: byte_length as u16,
        },
    )
}

fn contains_cjk(s: &str) -> (r: bool)
    ensures
        r == exists|i: int| 0 <= i < s@.len() && char_is_cjk(s@[i]),
{
    let n = s.unicode_len();
    let mut i: usize = 0;
    while i < n
        invariant
            0 <= i <= n,
            n == s@.len(),
            forall|j: int| 0 <= j < i ==> !char_is_cjk(s@[j]),
        decreases n - i,
    {
        if crate::tokenizer::is_cjk(s.get_char(i)) {
            proof {
                assert(char_is_cjk(s@[i as int]));
            }
            return true;
        }
        i = i + 1;
    }
    false
}

fn clone_bytes(v: &Vec<u8>) -> (r: Vec<u8>)
    ensures
        r@ == v@,
{
    let n = v.len();
    let mut r: Vec<u8> = Vec::new();
    let mut i: usize = 0;
    while i < n
        invariant
            0 <= i <= n,
            n == v@.len(),
            r@ == v@.take(i as int),
        decreases n - i,
    {
        r.push(v[i]);
        proof {
            assert(r@ =~= v@.take(i as int + 1));
        }
        i = i + 1;
    }
    proof {
        assert(v@.take(n as int) =~= v@);
    }
    r
}

fn clone_postings(v: &Vec<DocIndex>) -> (r: Vec<DocIndex>)
    ensures
        r@ == v@,
{
    let n = v.len();
    let mut r: Vec<DocIndex> = Vec::new();
    let mut i: usize = 0;
    while i < n
        invariant
            0 <= i <= n,
            n == v@.len(),
            r@ == v@.take(i as int),
        decreases n - i,
    {
        r.push(v[i]);
        proof {
            assert(r@ =~= v@.take(i as int + 1));
        }
        i = i + 1;
    }
    proof {
        assert(v@.take(n as int) =~= v@);
    }
    r
}

/// What indexing one token does to the accumulator, and whether indexing
/// goes on afterwards.
///
/// A token at or past the word limit stops the attribute. The lowercase
/// form is recorded; if it holds no CJK character and its ASCII
/// transliteration differs, the transliteration is recorded at the same
/// position. A position or length that overflows a record field stops
/// the attribute as well.
pub open spec fn spec_index_token(
    m: IndexerModel,
    id: DocumentId,
    attr: u16,
    t: TokenModel,
    limit: int,
) -> (IndexerModel, bool) {
    if t.word_index >= limit {
        (m, false)
    } else {
        let lower = lower_of(t.word);
        match spec_docindex_for(id, attr, t.word_index, t.char_index, lower) {
            None => (m, false),
            Some(di) => {
                let w = encode_utf8(lower);
                let m1 = IndexerModel {
                    words: insert_word_entry(m.words, w, di),
                    docs: add_doc_word(m.docs, id.0, w),
                };
                if exists|i: int| 0 <= i < lower.len() && char_is_cjk(lower[i]) {
                    (m1, true)
                } else {
                    let uni = deunicoded_of(lower);
                    if uni == lower {
                        (m1, true)
                    } else {
                        match spec_docindex_for(id, attr, t.word_index, t.char_index, uni) {
                            None => (m1, false),
                            Some(di2) => {
                                let w2 = encode_utf8(uni);
                                let m2 = IndexerModel {
                                    words: insert_word_entry(m1.words, w2, di2),
                                    docs: add_doc_word(m1.docs, id.0, w2),
                                };
                                (m2, true)
                            },
                        }
                    }
                }
            },
        }
    }
}

/// What indexing a stream of tokens does: one token after the other,
/// stopping at the first that asks to stop.
pub open spec fn spec_index_tokens(
    m: IndexerModel,
    id: DocumentId,
    attr: u16,
    toks: Seq<TokenModel>,
    limit: int,
) -> IndexerModel
    decreases toks.len(),
{
    if toks.len() == 0 {
        m
    } else {
        let step = spec_index_token(m, id, attr, toks[0], limit);
        if step.1 {
            spec_index_tokens(step.0, id, attr, toks.drop_first(), limit)
        } else {
            step.0
        }
    }
}

impl Indexer {
    /// Indexes one token: the lowercase form, and where it applies the
    /// transliterated form, at the token's position.
    fn index_token(&mut self, id: DocumentId, attr: SchemaAttr, token: Token<'_>) -> (cont: bool)
        requires
            old(self).wf(),
        ensures
            final(self).wf(),
            final(self).limit() == old(self).limit(),
            final(self).model() == spec_index_token(
                old(self).model(),
                id,
                attr.0,
                token.model(),
                old(self).limit(),
            ).0,
            cont == spec_index_token(
                old(self).model(),
                id,
                attr.0,
                token.model(),
                old(self).limit(),
            ).1,
    {
        if token.word_index >= self.word_limit {
            return false;
        }
        let lower = lowercase(token.word);
        let lower_token = Token {
            word: lower.as_str(),
            word_index: token.word_index,
            char_index: token.char_index,
        };
        let di = match token_to_docindex(id, attr, lower_token) {
            Some(di) => di,
            None => {
                return false;
            },
        };
        let word_bytes = lower.as_str().as_bytes_vec();
        let word_copy = clone_bytes(&word_bytes);
        self.add_word_posting(word_copy, di);
        self.add_doc_word_entry(id, word_bytes);
        if !contains_cjk(lower.as_str()) {
            let unidecoded = deunicode_chars(lower.as_str());
            if !str_eq(unidecoded.as_str(), lower.as_str()) {
                let di2 = match token_to_docindex(
                    id,
                    attr,
                    Token {
                        word: unidecoded.as_str(),
                        word_index: token.word_index,
                        char_index: token.char_index,
                    },
                ) {
                    Some(di2) => di2,
                    None => {
                        return false;
                    },
                };
                let uni_bytes = unidecoded.as_str().as_bytes_vec();
                let uni_copy = clone_bytes(&uni_bytes);
                self.add_word_posting(uni_copy, di2);
                self.add_doc_word_entry(id, uni_bytes);
            }
        }
        true
    }

    /// Indexes every token of one attribute text, up to the word limit.
    pub fn index_text(&mut self, id: DocumentId, attr: SchemaAttr, text: &str)
        requires
            old(self).wf(),
            8 * text@.len() <= usize::MAX,
        ensures
            final(self).wf(),
            final(self).limit() == old(self).limit(),
            final(self).model() == spec_index_tokens(
                old(self).model(),
                id,
                attr.0,
                text_tokens(text@),
                old(self).limit(),
            ),
    {
        let mut tokenizer = Tokenizer::new(text);
        loop
            invariant
                self.wf(),
                tokenizer.wf(),
                self.limit() == old(self).limit(),
                spec_index_tokens(
                    old(self).model(),
                    id,
                    attr.0,
                    text_tokens(text@),
                    old(self).limit(),
                ) == spec_index_tokens(
                    self.model(),
                    id,
                    attr.0,
                    tokenizer.remaining(),
                    self.limit(),
                ),
            decreases tokenizer.remaining().len(),
        {
            match tokenizer.next() {
                Some(token) => {
                    let must_continue = self.index_token(id, attr, token);
                    if !must_continue {
                        return ;
                    }
                },
                None => {
                    return ;
                },
            }
        }
    }

    /// Indexes every token of an ordered list of texts of one attribute,
    /// with cross-text gaps, up to the word limit.
    pub fn index_text_seq(&mut self, id: DocumentId, attr: SchemaAttr, texts: Vec<&str>)
        requires
            old(self).wf(),
            texts_budget(texts.deep_view()) <= usize::MAX,
        ensures
            final(self).wf(),
            final(self).limit() == old(self).limit(),
            final(self).model() == spec_index_tokens(
                old(self).model(),
                id,
                attr.0,
                seq_tokens(texts.deep_view(), 0, 0),
                old(self).limit(),
            ),
    {
        let ghost all = seq_tokens(texts.deep_view(), 0, 0);
        let mut tokenizer = SeqTokenizer::new(texts);
        loop
            invariant
                self.wf(),
                tokenizer.wf(),
                self.limit() == old(self).limit(),
                all == seq_tokens(texts.deep_view(), 0, 0),
                spec_index_tokens(old(self).model(), id, attr.0, all, old(self).limit())
                    == spec_index_tokens(
                    self.model(),
                    id,
                    attr.0,
                    tokenizer.remaining(),
                    self.limit(),
                ),
            decreases tokenizer.remaining().len(),
        {
            match tokenizer.next() {
                Some(token) => {
                    let must_continue = self.index_token(id, attr, token);
                    if !must_continue {
                        return ;
                    }
                },
                None => {
                    return ;
                },
            }
        }
    }
}

/// The finalized batch: per word its postings as a sorted, deduplicated
/// run, and per document the set of its words, ready to merge into the
/// store. Word entries come in increasing byte order.
pub struct Indexed {
    pub words_doc_indexes: Vec<(Vec<u8>, sdset::SetBuf<DocIndex>)>,
    pub docs_words: Vec<(DocumentId, fst::Set<Vec<u8>>)>,
}

/// Inserts a word into a strictly sorted list, keeping it strictly
/// sorted: a word already present is left alone.
fn insert_sorted_word(list: &mut Vec<Vec<u8>>, w: Vec<u8>)
    requires
        forall|i: int, j: int|
            0 <= i < j < old(list)@.len() ==> bytes_lt(
                (#[trigger] old(list)@[i])@,
                (#[trigger] old(list)@[j])@,
            ),
    ensures
        forall|i: int, j: int|
            0 <= i < j < final(list)@.len() ==> bytes_lt(
                (#[trigger] final(list)@[i])@,
                (#[trigger] final(list)@[j])@,
            ),
        bytes_seq_view(final(list)@).to_set() == bytes_seq_view(old(list)@).to_set().insert(w@),
    {
    let ghost a = bytes_seq_view(old(list)@);
    let n = list.len();
    let mut idx: usize = 0;
    let mut found = false;
    loop
        invariant
            *list == *old(list),
            0 <= idx <= n,
            n == list@.len(),
            forall|i: int, j: int|
                0 <= i < j < list@.len() ==> bytes_lt(
                    (#[trigger] list@[i])@,
                    (#[trigger] list@[j])@,
                ),
            forall|j: int| 0 <= j < idx ==> bytes_lt((#[trigger] list@[j])@, w@),
            found ==> idx < n && list@[idx as int]@ == w@,
        ensures
            *list == *old(list),
            0 <= idx <= n,
            forall|j: int| 0 <= j < idx ==> bytes_lt((#[trigger] list@[j])@, w@),
            found ==> idx < n && list@[idx as int]@ == w@,
            !found ==> idx == n || bytes_lt(w@, list@[idx as int]@),
        decreases n - idx,
    {
        if idx >= n {
            break;
        }
        match bytes_compare(&list[idx], &w) {
            Ordering::Less => {
                idx = idx + 1;
            },
            Ordering::Equal => {
                found = true;
                break;
            },
            Ordering::Greater => {
                break;
            },
        }
    }
    if found {
        proof {
            assert(a[idx as int] == w@);
            assert(a.contains(w@));
            assert(a.to_set() =~= a.to_set().insert(w@));
        }
    } else {
        list.insert(idx, w);
        proof {
            let b = bytes_seq_view(list@);
            assert(b =~= a.insert(idx as int, w@));
            assert forall|i: int, j: int| 0 <= i < j < list@.len() implies bytes_lt(
                (#[trigger] list@[i])@,
                (#[trigger] list@[j])@,
            ) by {
                if i == idx {
                    assert(bytes_lt(w@, a[idx as int]));
                    if j - 1 > idx {
                        assert(bytes_lt(a[idx as int], a[j - 1]));
                        lemma_bytes_lt_trans(w@, a[idx as int], a[j - 1]);
                    }
                    assert(list@[j]@ == a[j - 1]);
                } else if j == idx {
                    assert(list@[i]@ == a[i]);
                    assert(bytes_lt(a[i], w@));
                } else if i < idx && j > idx {
                    assert(list@[i]@ == a[i]);
                    assert(list@[j]@ == a[j - 1]);
                    assert(bytes_lt(a[i], a[j - 1]));
                } else if j < idx {
                    assert(list@[i]@ == a[i]);
                    assert(list@[j]@ == a[j]);
                    assert(bytes_lt(a[i], a[j]));
                } else {
                    assert(list@[i]@ == a[i - 1]);
                    assert(list@[j]@ == a[j - 1]);
                    assert(bytes_lt(a[i - 1], a[j - 1]));
                }
            }
            assert forall|x: Seq<u8>| b.to_set().contains(x) implies a.to_set().insert(
                w@,
            ).contains(x) by {
                let t = choose|t: int| 0 <= t < b.len() && b[t] == x;
                if t == idx {
                } else if t < idx {
                    assert(a[t] == x);
                    assert(a.contains(x));
                } else {
                    assert(a[t - 1] == x);
                    assert(a.contains(x));
                }
            }
            assert forall|x: Seq<u8>| a.to_set().insert(w@).contains(x) implies b.to_set().contains(
                x,
            ) by {
                if x == w@ {
                    assert(b[idx as int] == x);
                    assert(b.contains(x));
                } else {
                    let t = choose|t: int| 0 <= t < a.len() && a[t] == x;
                    if t < idx {
                        assert(b[t] == x);
                    } else {
                        assert(b[t + 1] == x);
                    }
                    assert(b.contains(x));
                }
            }
            assert(b.to_set() =~= a.to_set().insert(w@));
        }
    }
}

/// The words of one document, in strictly increasing byte order, each
/// once.
fn sorted_unique_words(ws: &Vec<Vec<u8>>) -> (r: Vec<Vec<u8>>)
    ensures
        forall|i: int, j: int|
            0 <= i < j < r@.len() ==> bytes_lt((#[trigger] r@[i])@, (#[trigger] r@[j])@),
        bytes_seq_view(r@).to_set() == bytes_seq_view(ws@).to_set(),
{
    let n = ws.len();
    let mut r: Vec<Vec<u8>> = Vec::new();
    let mut k: usize = 0;
    while k < n
        invariant
            0 <= k <= n,
            n == ws@.len(),
            forall|i: int, j: int|
                0 <= i < j < r@.len() ==> bytes_lt((#[trigger] r@[i])@, (#[trigger] r@[j])@),
            bytes_seq_view(r@).to_set() == bytes_seq_view(ws@.take(k as int)).to_set(),
        decreases n - k,
    {
        let ghost prefix = bytes_seq_view(ws@.take(k as int));
        let w = clone_bytes(&ws[k]);
        insert_sorted_word(&mut r, w);
        proof {
            let prefix2 = bytes_seq_view(ws@.take(k as int + 1));
            assert(prefix2 =~= prefix.push(ws@[k as int]@));
            assert forall|x: Seq<u8>| prefix2.to_set().contains(x) implies prefix.to_set().insert(
                ws@[k as int]@,
            ).contains(x) by {
                let t = choose|t: int| 0 <= t < prefix2.len() && prefix2[t] == x;
                if t < prefix.len() {
                    assert(prefix[t] == x);
                    assert(prefix.contains(x));
                }
            }
            assert forall|x: Seq<u8>|
                prefix.to_set().insert(ws@[k as int]@).contains(x) implies prefix2.to_set().contains(
                x,
            ) by {
                if x == ws@[k as int]@ {
                    assert(prefix2[prefix2.len() - 1] == x);
                    assert(prefix2.contains(x));
                } else {
                    let t = choose|t: int| 0 <= t < prefix.len() && prefix[t] == x;
                    assert(prefix2[t] == x);
                    assert(prefix2.contains(x));
                }
            }
            assert(prefix2.to_set() =~= prefix.to_set().insert(ws@[k as int]@));
        }
        k = k + 1;
    }
    proof {
        assert(ws@.take(n as int) =~= ws@);
    }
    r
}

impl Indexer {
    /// Finalizes the batch: each word's postings become one sorted,
    /// deduplicated run, and each document's words become a word set.
    pub fn build(self) -> (r: Indexed)
        requires
            self.wf(),
        ensures
            r.words_doc_indexes@.len() == self.model().words.len(),
            forall|i: int|
                0 <= i < r.words_doc_indexes@.len() ==> {
                    &&& (#[trigger] r.words_doc_indexes@[i]).0@ == self.model().words[i].0
                    &&& setbuf_rows(r.words_doc_indexes@[i].1).to_set() == self.model().words[i]
                        .1.map_values(|d: DocIndex| docindex_key(d)).to_set()
                    &&& forall|p: int, q: int|
                        0 <= p < q < setbuf_rows(r.words_doc_indexes@[i].1).len()
                            ==> docindex_key_lt(
                            #[trigger] setbuf_rows(r.words_doc_indexes@[i].1)[p],
                            #[trigger] setbuf_rows(r.words_doc_indexes@[i].1)[q],
                        )
                },
            r.docs_words@.len() == self.model().docs.len(),
            forall|i: int|
                0 <= i < r.docs_words@.len() ==> {
                    &&& (#[trigger] r.docs_words@[i]).0.0 == self.model().docs[i].0
                    &&& fst_set_words(r.docs_words@[i].1) == self.model().docs[i].1.to_set()
                },
    {
        let ghost m = self.model();
        let n = self.words_doc_indexes.len();
        let mut words_out: Vec<(Vec<u8>, sdset::SetBuf<DocIndex>)> = Vec::new();
        let mut i: usize = 0;
        while i < n
            invariant
                0 <= i <= n,
                n == self.words_doc_indexes@.len(),
                m == self.model(),
                words_out@.len() == i,
                forall|k: int|
                    0 <= k < i ==> {
                        &&& (#[trigger] words_out@[k]).0@ == m.words[k].0
                        &&& setbuf_rows(words_out@[k].1).to_set() == m.words[k].1.map_values(
                            |d: DocIndex| docindex_key(d),
                        ).to_set()
                        &&& forall|p: int, q: int|
                            0 <= p < q < setbuf_rows(words_out@[k].1).len() ==> docindex_key_lt(
                                #[trigger] setbuf_rows(words_out@[k].1)[p],
                                #[trigger] setbuf_rows(words_out@[k].1)[q],
                            )
                    },
            decreases n - i,
        {
            let key = clone_bytes(&self.words_doc_indexes[i].0);
            let run = clone_postings(&self.words_doc_indexes[i].1);
            let buf = setbuf_from_dirty(run);
            words_out.push((key, buf));
            i = i + 1;
        }

        let dn = self.docs_words.len();
        let mut docs_out: Vec<(DocumentId, fst::Set<Vec<u8>>)> = Vec::new();
        let mut j: usize = 0;
        while j < dn
            invariant
                0 <= j <= dn,
                dn == self.docs_words@.len(),
                m == self.model(),
                docs_out@.len() == j,
                forall|k: int|
                    0 <= k < j ==> {
                        &&& (#[trigger] docs_out@[k]).0.0 == m.docs[k].0
                        &&& fst_set_words(docs_out@[k].1) == m.docs[k].1.to_set()
                    },
            decreases dn - j,
        {
            let id = self.docs_words[j].0;
            let sorted = sorted_unique_words(&self.docs_words[j].1);
            let set = fst_set_from_words(&sorted);
            docs_out.push((id, set));
            j = j + 1;
        }
        Indexed { words_doc_indexes: words_out, docs_words: docs_out }
    }
}

/// Inserting under a word whose ordered position is `idx` updates the
/// entry there or opens a new one there.
proof fn lemma_insert_word_at(
    words: Seq<(Seq<u8>, Seq<DocIndex>)>,
    w: Seq<u8>,
    di: DocIndex,
    idx: int,
)
    requires
        0 <= idx <= words.len(),
        forall|j: int| 0 <= j < idx ==> bytes_lt((#[trigger] words[j]).0, w),
        idx < words.len() ==> !bytes_lt(words[idx].0, w),
    ensures
        insert_word_entry(words, w, di) == (if idx < words.len() && words[idx].0 == w {
            words.update(idx, (w, words[idx].1.push(di)))
        } else {
            words.insert(idx, (w, seq![di]))
        }),
    decreases idx,
{
    if idx == 0 {
        if words.len() == 0 {
            assert(insert_word_entry(words, w, di) =~= words.insert(0, (w, seq![di])));
        } else if words[0].0 == w {
            assert(insert_word_entry(words, w, di) =~= words.update(
                0,
                (w, words[0].1.push(di)),
            ));
        } else {
            lemma_bytes_lt_trichotomy(w, words[0].0);
            assert(insert_word_entry(words, w, di) =~= words.insert(0, (w, seq![di])));
        }
    } else {
        let tail = words.drop_first();
        assert(bytes_lt(words[0].0, w));
        lemma_bytes_lt_trichotomy(words[0].0, w);
        assert forall|j: int| 0 <= j < idx - 1 implies bytes_lt((#[trigger] tail[j]).0, w) by {
            assert(tail[j] == words[j + 1]);
        }
        lemma_insert_word_at(tail, w, di, idx - 1);
        if idx < words.len() && words[idx].0 == w {
            assert(tail[idx - 1] == words[idx]);
            assert(insert_word_entry(words, w, di) =~= words.update(
                idx,
                (w, words[idx].1.push(di)),
            ));
        } else {
            assert(insert_word_entry(words, w, di) =~= words.insert(idx, (w, seq![di])));
        }
    }
}

/// Adding a word under a document found at `idx` grows the entry there.
proof fn lemma_add_doc_word_at(docs: Seq<(u64, Seq<Seq<u8>>)>, id: u64, w: Seq<u8>, idx: int)
    requires
        0 <= idx < docs.len(),
        forall|j: int| 0 <= j < idx ==> (#[trigger] docs[j]).0 != id,
        docs[idx].0 == id,
    ensures
        add_doc_word(docs, id, w) == docs.update(idx, (id, docs[idx].1.push(w))),
    decreases idx,
{
    if idx == 0 {
        assert(add_doc_word(docs, id, w) =~= docs.update(0, (id, docs[0].1.push(w))));
    } else {
        let tail = docs.drop_first();
        assert forall|j: int| 0 <= j < idx - 1 implies (#[trigger] tail[j]).0 != id by {
            assert(tail[j] == docs[j + 1]);
        }
        assert(tail[idx - 1] == docs[idx]);
        lemma_add_doc_word_at(tail, id, w, idx - 1);
        assert(add_doc_word(docs, id, w) =~= docs.update(idx, (id, docs[idx].1.push(w))));
    }
}

/// Adding a word under a document that has no entry opens one at the
/// end.
proof fn lemma_add_doc_word_append(docs: Seq<(u64, Seq<Seq<u8>>)>, id: u64, w: Seq<u8>)
    requires
        forall|j: int| 0 <= j < docs.len() ==> (#[trigger] docs[j]).0 != id,
    ensures
        add_doc_word(docs, id, w) == docs.push((id, seq![w])),
    decreases docs.len(),
{
    if docs.len() == 0 {
        assert(add_doc_word(docs, id, w) =~= docs.push((id, seq![w])));
    } else {
        let tail = docs.drop_first();
        assert forall|j: int| 0 <= j < tail.len() implies (#[trigger] tail[j]).0 != id by {
            assert(tail[j] == docs[j + 1]);
        }
        lemma_add_doc_word_append(tail, id, w);
        assert(add_doc_word(docs, id, w) =~= docs.push((id, seq![w])));
    }
}

} // verus!
