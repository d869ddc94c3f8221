//! Word segmentation shared, bit for bit, by the index side and the query
//! side of the engine.
//!
//! Characters are classified as soft separators, hard separators, CJK
//! codepoints or plain word characters. Consecutive characters of the same
//! class form a group, except that every CJK codepoint is a group of its
//! own. Word groups are emitted as tokens; separator groups advance the
//! word index by 1 (soft) or 8 (hard). `char_index` counts characters from
//! the start of the input.

use vstd::prelude::*;

verus! {

/// The strength of a separator group: a hard separator marks a sentence
/// boundary and pushes following words eight slots away.
#[derive(Debug, Copy, Clone, PartialEq, Eq, Structural)]
pub enum SeparatorCategory {
    Soft,
    Hard,
}

/// Whether a codepoint lies in one of the CJK ranges that the tokenizer
/// splits into single-character tokens.
pub open spec fn char_is_cjk(c: char) -> bool {
    let u = c as u32;
    (0x2e80 <= u && u <= 0x2eff)
        || (0x2f00 <= u && u <= 0x2fdf)
        || (0x3040 <= u && u <= 0x309f)
        || (0x30a0 <= u && u <= 0x30ff)
        || (0x3100 <= u && u <= 0x312f)
        || (0x3200 <= u && u <= 0x32ff)
        || (0x3400 <= u && u <= 0x4dbf)
        || (0x4e00 <= u && u <= 0x9fff)
        || (0xf900 <= u && u <= 0xfaff)
}

pub fn is_cjk(c: char) -> (r: bool)
    ensures
        r == char_is_cjk(c),
{
    let u = c as u32;
    (u >= 0x2e80 && u <= 0x2eff)
        || (u >= 0x2f00 && u <= 0x2fdf)
        || (u >= 0x3040 && u <= 0x309f)
        || (u >= 0x30a0 && u <= 0x30ff)
        || (u >= 0x3100 && u <= 0x312f)
        || (u >= 0x3200 && u <= 0x32ff)
        || (u >= 0x3400 && u <= 0x4dbf)
        || (u >= 0x4e00 && u <= 0x9fff)
        || (u >= 0xf900 && u <= 0xfaff)
}

impl SeparatorCategory {
    /// The strength of a group is the strongest of its members.
    pub fn merge(self, other: SeparatorCategory) -> (r: SeparatorCategory)
        ensures
            r == (if self == SeparatorCategory::Soft && other == SeparatorCategory::Soft {
                SeparatorCategory::Soft
            } else {
                SeparatorCategory::Hard
            }),
    {
        if let (SeparatorCategory::Soft, SeparatorCategory::Soft) = (self, other) {
            SeparatorCategory::Soft
        } else {
            SeparatorCategory::Hard
        }
    }

    /// How far a separator group of this strength advances the word index.
    pub fn to_usize(self) -> (r: usize)
        ensures
            r == (if self == SeparatorCategory::Soft {
                1usize
            } else {
                8usize
            }),
    {
        match self {
            SeparatorCategory::Soft => 1,
            SeparatorCategory::Hard => 8,
        }
    }
}

/// The separator class of a character, if it is a separator at all.
pub open spec fn spec_classify_separator(c: char) -> Option<SeparatorCategory> {
    if c == ' ' || c == '-' || c == '_' || c == '\'' || c == ':' || c == '"' {
        Some(SeparatorCategory::Soft)
    } else if c == '.' || c == ';' || c == ',' || c == '!' || c == '?' || c == '(' || c == ')' {
        Some(SeparatorCategory::Hard)
    } else {
        None
    }
}

pub open spec fn spec_is_separator(c: char) -> bool {
    spec_classify_separator(c) is Some
}

pub fn classify_separator(c: char) -> (r: Option<SeparatorCategory>)
    ensures
        r == spec_classify_separator(c),
{
    match c {
        ' ' | '-' | '_' | '\'' | ':' | '"' => Some(SeparatorCategory::Soft),
        '.' | ';' | ',' | '!' | '?' | '(' | ')' => Some(SeparatorCategory::Hard),
        _ => None,
    }
}

pub fn is_separator(c: char) -> (r: bool)
    ensures
        r == spec_is_separator(c),
{
    classify_separator(c).is_some()
}

/// The three classes that drive grouping.
#[derive(Debug, Copy, Clone, PartialEq, Eq, Structural)]
pub enum CharCategory {
    Separator(SeparatorCategory),
    Cjk,
    Other,
}

pub open spec fn spec_classify_char(c: char) -> CharCategory {
    if spec_classify_separator(c) is Some {
        CharCategory::Separator(spec_classify_separator(c)->0)
    } else if char_is_cjk(c) {
        CharCategory::Cjk
    } else {
        CharCategory::Other
    }
}

pub fn classify_char(c: char) -> (r: CharCategory)
    ensures
        r == spec_classify_char(c),
{
    if let Some(category) = classify_separator(c) {
        CharCategory::Separator(category)
    } else if is_cjk(c) {
        CharCategory::Cjk
    } else {
        CharCategory::Other
    }
}

/// Two adjacent characters belong to the same group when neither is CJK and
/// they are either both separators or both word characters.
pub open spec fn spec_same_group(a: char, b: char) -> bool {
    !char_is_cjk(a) && !char_is_cjk(b) && (spec_is_separator(a) == spec_is_separator(b))
}

pub fn same_group_category(a: char, b: char) -> (r: bool)
    ensures
        r == spec_same_group(a, b),
{
    match (classify_char(a), classify_char(b)) {
        (CharCategory::Cjk, _) | (_, CharCategory::Cjk) => false,
        (CharCategory::Separator(_), CharCategory::Separator(_)) => true,
        (x, y) => x == y,
    }
}

/// A word contains no separator character.
pub open spec fn spec_is_word(s: Seq<char>) -> bool {
    forall|i: int| 0 <= i < s.len() ==> !spec_is_separator(#[trigger] s[i])
}

pub fn is_str_word(s: &str) -> (r: bool)
    ensures
        r == spec_is_word(s@),
{
    let n = s.unicode_len();
    let mut i: usize = 0;
    while i < n
        invariant
            0 <= i <= n,
            n == s@.len(),
            forall|j: int| 0 <= j < i ==> !spec_is_separator(#[trigger] s@[j]),
        decreases n - i,
    {
        if is_separator(s.get_char(i)) {
            return false;
        }
        i = i + 1;
    }
    true
}

/// The length of the first group of `s`: the longest prefix in which every
/// two adjacent characters belong to the same class.
pub open spec fn group_len(s: Seq<char>) -> nat
    decreases s.len(),
{
    if s.len() == 0 {
        0
    } else if s.len() == 1 {
        1
    } else if spec_same_group(s[0], s[1]) {
        1 + group_len(s.drop_first())
    } else {
        1
    }
}

pub proof fn lemma_group_len_bounds(s: Seq<char>)
    requires
        s.len() > 0,
    ensures
        1 <= group_len(s) <= s.len(),
        forall|j: int| 1 <= j < group_len(s) ==> spec_same_group(s[j - 1], #[trigger] s[j]),
        group_len(s) < s.len() ==> !spec_same_group(
            s[group_len(s) - 1],
            s[group_len(s) as int],
        ),
    decreases s.len(),
{
    if s.len() > 1 && spec_same_group(s[0], s[1]) {
        lemma_group_len_bounds(s.drop_first());
        assert forall|j: int| 1 <= j < group_len(s) implies spec_same_group(
            s[j - 1],
            #[trigger] s[j],
        ) by {
            if j >= 2 {
                assert(spec_same_group(s.drop_first()[j - 2], s.drop_first()[j - 1]));
            }
        }
    }
}

/// A prefix bounded by the same break point as the first group is that group.
pub proof fn lemma_group_len_unique(s: Seq<char>, g: int)
    requires
        s.len() > 0,
        1 <= g <= s.len(),
        forall|j: int| 1 <= j < g ==> spec_same_group(s[j - 1], #[trigger] s[j]),
        g == s.len() || !spec_same_group(s[g - 1], s[g]),
    ensures
        g == group_len(s),
    decreases s.len(),
{
    if s.len() == 1 {
    } else if spec_same_group(s[0], s[1]) {
        assert(g >= 2);
        lemma_group_len_unique(s.drop_first(), g - 1);
    } else {
        assert(g == 1);
    }
}

/// Whether the first `n` characters of `s` contain a hard separator.
pub open spec fn group_has_hard(s: Seq<char>, n: int) -> bool {
    exists|i: int|
        0 <= i < n && spec_classify_separator(#[trigger] s[i]) == Some(SeparatorCategory::Hard)
}

/// How far the first group advances the word index when it is a separator
/// group: 8 when it contains a hard separator, 1 otherwise.
pub open spec fn group_weight(s: Seq<char>) -> int {
    if group_has_hard(s, group_len(s) as int) {
        8
    } else {
        1
    }
}

/// The mathematical form of one token: its characters and its positions.
pub struct TokenModel {
    pub word: Seq<char>,
    pub word_index: int,
    pub char_index: int,
}

/// The token stream of `s`, starting from the given word and character
/// positions. Separator groups advance the positions; word groups are
/// emitted. The word index additionally advances by one between two
/// directly adjacent word groups (which arise around CJK characters).
pub open spec fn tokens_from(s: Seq<char>, wi: int, ci: int) -> Seq<TokenModel>
    decreases s.len(),
    via tokens_from_decreases
{
    if s.len() == 0 {
        Seq::empty()
    } else {
        let g = group_len(s) as int;
        let rest = s.skip(g);
        if spec_is_separator(s[0]) {
            tokens_from(rest, wi + group_weight(s), ci + g)
        } else {
            let t = TokenModel { word: s.take(g), word_index: wi, char_index: ci };
            let wi2 = if rest.len() > 0 && !spec_is_separator(rest[0]) {
                wi + 1
            } else {
                wi
            };
            seq![t] + tokens_from(rest, wi2, ci + g)
        }
    }
}

#[via_fn]
proof fn tokens_from_decreases(s: Seq<char>, wi: int, ci: int) {
    if s.len() > 0 {
        lemma_group_len_bounds(s);
    }
}

/// The number of leading separator characters of `s`.
pub open spec fn leading_separators(s: Seq<char>) -> nat
    decreases s.len(),
{
    if s.len() > 0 && spec_is_separator(s[0]) {
        1 + leading_separators(s.drop_first())
    } else {
        0
    }
}

pub proof fn lemma_leading_separators(s: Seq<char>)
    ensures
        leading_separators(s) <= s.len(),
        forall|j: int| 0 <= j < leading_separators(s) ==> spec_is_separator(#[trigger] s[j]),
        leading_separators(s) < s.len() ==> !spec_is_separator(s[leading_separators(s) as int]),
    decreases s.len(),
{
    if s.len() > 0 && spec_is_separator(s[0]) {
        lemma_leading_separators(s.drop_first());
        assert forall|j: int| 0 <= j < leading_separators(s) implies spec_is_separator(
            #[trigger] s[j],
        ) by {
            if j >= 1 {
                assert(spec_is_separator(s.drop_first()[j - 1]));
            }
        }
    }
}

/// The token stream of a whole text: leading separators are consumed first
/// and only move the character position, as the tokenizer is constructed.
pub open spec fn text_tokens(s: Seq<char>) -> Seq<TokenModel> {
    tokens_from(
        s.skip(leading_separators(s) as int),
        0,
        leading_separators(s) as int,
    )
}

/// A token of the input text: the word itself and its two positions, in
/// word units and in characters.
#[derive(Debug, Copy, Clone, PartialEq, Eq)]
pub struct Token<'a> {
    pub word: &'a str,
    pub word_index: usize,
    pub char_index: usize,
}

impl<'a> Token<'a> {
    /// The mathematical form of this token.
    pub open spec fn model(self) -> TokenModel {
        TokenModel {
            word: self.word@,
            word_index: self.word_index as int,
            char_index: self.char_index as int,
        }
    }
}

/// Streams the tokens of one text.
#[derive(Clone, Copy)]
pub struct Tokenizer<'a> {
    inner: &'a str,
    word_index: usize,
    char_index: usize,
}

impl<'a> Tokenizer<'a> {
    /// An upper bound on the word index any further token can reach,
    /// used to rule out overflow of the position counters.
    pub closed spec fn budget(self) -> int {
        self.word_index + 8 * self.inner@.len()
    }

    /// The same bound for the character position.
    pub closed spec fn cbudget(self) -> int {
        self.char_index + self.inner@.len()
    }

    /// The position counters cannot overflow while the rest of the text
    /// is consumed.
    pub closed spec fn wf(self) -> bool {
        self.budget() <= usize::MAX && self.cbudget() <= usize::MAX
    }

    /// The tokens this tokenizer has still to emit.
    pub closed spec fn remaining(self) -> Seq<TokenModel> {
        tokens_from(self.inner@, self.word_index as int, self.char_index as int)
    }

    /// Starts a tokenizer over `string`. Leading separators are consumed
    /// here: they move the character position but not the word index.
    pub fn new(string: &'a str) -> (t: Tokenizer<'a>)
        requires
            8 * string@.len() <= usize::MAX,
        ensures
            t.wf(),
            t.remaining() == text_tokens(string@),
            t.budget() <= 8 * string@.len(),
            t.cbudget() <= string@.len(),
    {
        proof {
            lemma_leading_separators(string@);
        }
        let n = string.unicode_len();
        let mut i: usize = 0;
        while i < n && is_separator(string.get_char(i))
            invariant
                0 <= i <= n,
                n == string@.len(),
                forall|j: int| 0 <= j < i ==> spec_is_separator(#[trigger] string@[j]),
            decreases n - i,
        {
            i = i + 1;
        }
        proof {
            assert(i == leading_separators(string@)) by {
                lemma_leading_separators(string@);
            }
        }
        Tokenizer { inner: string.substring_char(i, n), word_index: 0, char_index: i }
    }

    /// Whether every remaining character is a separator, which is exactly
    /// when no token is left.
    pub fn is_done(&self) -> (r: bool)
        ensures
            r == (self.remaining().len() == 0),
    {
        proof {
            lemma_tokens_empty_iff_all_separators(
                self.inner@,
                self.word_index as int,
                self.char_index as int,
            );
        }
        let n = self.inner.unicode_len();
        let mut i: usize = 0;
        while i < n
            invariant
                0 <= i <= n,
                n == self.inner@.len(),
                forall|j: int| 0 <= j < i ==> spec_is_separator(#[trigger] self.inner@[j]),
            decreases n - i,
        {
            if !is_separator(self.inner.get_char(i)) {
                proof {
                    lemma_tokens_empty_iff_all_separators(
                        self.inner@,
                        self.word_index as int,
                        self.char_index as int,
                    );
                    assert(!spec_is_separator(self.inner@[i as int]));
                }
                return false;
            }
            i = i + 1;
        }
        true
    }

    /// Emits the next token, if one is left.
    ///
    /// The bounds on the emitted positions let a caller that offsets them
    /// (the sequence tokenizer) stay within the machine word.
    pub fn next(&mut self) -> (r: Option<Token<'a>>)
        requires
            old(self).wf(),
        ensures
            final(self).wf(),
            final(self).budget() <= old(self).budget(),
            final(self).cbudget() <= old(self).cbudget(),
            match r {
                None => old(self).remaining().len() == 0 && final(self).remaining().len() == 0,
                Some(t) => {
                    &&& old(self).remaining().len() > 0
                    &&& t.model() == old(self).remaining()[0]
                    &&& final(self).remaining() == old(self).remaining().drop_first()
                    &&& t.word_index + 8 <= old(self).budget()
                    &&& t.char_index + 1 <= old(self).cbudget()
                },
            },
    {
        loop
            invariant
                self.wf(),
                self.budget() <= old(self).budget(),
                self.cbudget() <= old(self).cbudget(),
                self.remaining() == old(self).remaining(),
            decreases self.inner@.len(),
        {
            let n = self.inner.unicode_len();
            if n == 0 {
                return None;
            }
            let ghost s = self.inner@;
            proof {
                lemma_group_len_bounds(s);
            }
            // scan the first group and record whether it holds a hard separator
            let mut prev = self.inner.get_char(0);
            let mut hard = match classify_separator(prev) {
                Some(SeparatorCategory::Hard) => true,
                _ => false,
            };
            let mut g: usize = 1;
            while g < n
                invariant
                    1 <= g <= n,
                    n == s.len(),
                    s == self.inner@,
                    prev == s[g - 1],
                    forall|j: int| 1 <= j < g ==> spec_same_group(s[j - 1], #[trigger] s[j]),
                    hard == group_has_hard(s, g as int),
                ensures
                    1 <= g <= n,
                    prev == s[g - 1],
                    forall|j: int| 1 <= j < g ==> spec_same_group(s[j - 1], #[trigger] s[j]),
                    g == n || !spec_same_group(s[g - 1], s[g as int]),
                    hard == group_has_hard(s, g as int),
                decreases n - g,
            {
                let cur = self.inner.get_char(g);
                if !same_group_category(prev, cur) {
                    break;
                }
                proof {
                    assert forall|i: int|
                        0 <= i < g + 1 && spec_classify_separator(#[trigger] s[i]) == Some(
                            SeparatorCategory::Hard,
                        ) implies group_has_hard(s, g + 1) by {}
                }
                hard = match classify_separator(cur) {
                    Some(SeparatorCategory::Hard) => true,
                    _ => hard,
                };
                prev = cur;
                g = g + 1;
            }
            proof {
                lemma_group_len_unique(s, g as int);
            }
            let first = self.inner.get_char(0);
            if is_separator(first) {
                let w: usize = if hard {
                    8
                } else {
                    1
                };
                self.word_index = self.word_index + w;
                self.char_index = self.char_index + g;
                let rest = self.inner.substring_char(g, n);
                self.inner = rest;
                proof {
                    assert(self.inner@ =~= s.skip(g as int));
                }
            } else {
                let word = self.inner.substring_char(0, g);
                let token = Token {
                    word,
                    word_index: self.word_index,
                    char_index: self.char_index,
                };
                proof {
                    assert(word@ =~= s.take(g as int));
                }
                if g < n {
                    if !is_separator(self.inner.get_char(g)) {
                        self.word_index = self.word_index + 1;
                    }
                }
                self.char_index = self.char_index + g;
                let rest = self.inner.substring_char(g, n);
                self.inner = rest;
                proof {
                    assert(self.inner@ =~= s.skip(g as int));
                    assert(token.model() == old(self).remaining()[0]);
                }
                return Some(token);
            }
        }
    }
}

/// In a group led by a separator every character is a separator, and a
/// token stream is empty exactly when every character is a separator.
proof fn lemma_tokens_empty_iff_all_separators(s: Seq<char>, wi: int, ci: int)
    ensures
        (tokens_from(s, wi, ci).len() == 0) == (forall|i: int|
            0 <= i < s.len() ==> spec_is_separator(#[trigger] s[i])),
    decreases s.len(),
{
    if s.len() > 0 {
        lemma_group_len_bounds(s);
        let g = group_len(s) as int;
        if spec_is_separator(s[0]) {
            assert forall|i: int| 0 <= i < g implies spec_is_separator(#[trigger] s[i]) by {
                lemma_group_prefix_same_kind(s, i);
            }
            lemma_tokens_empty_iff_all_separators(s.skip(g), wi + group_weight(s), ci + g);
            assert forall|i: int|
                0 <= i < s.len() && (forall|j: int|
                    0 <= j < s.skip(g).len() ==> spec_is_separator(#[trigger] s.skip(g)[j]))
                implies spec_is_separator(#[trigger] s[i]) by {
                if i >= g {
                    assert(spec_is_separator(s.skip(g)[i - g]));
                }
            }
            assert forall|j: int|
                0 <= j < s.skip(g).len() && (forall|i: int|
                    0 <= i < s.len() ==> spec_is_separator(#[trigger] s[i]))
                implies spec_is_separator(#[trigger] s.skip(g)[j]) by {
                assert(spec_is_separator(s[j + g]));
            }
        }
    }
}

/// Every character of the first group is a separator or a word character
/// according to the first character.
proof fn lemma_group_prefix_same_kind(s: Seq<char>, i: int)
    requires
        s.len() > 0,
        0 <= i < group_len(s),
    ensures
        spec_is_separator(s[i]) == spec_is_separator(s[0]),
    decreases i,
{
    lemma_group_len_bounds(s);
    if i > 0 {
        lemma_group_prefix_same_kind(s, i - 1);
        assert(spec_same_group(s[i - 1], s[i]));
    }
}

/// Every token of a stream sits at or after the starting positions.
proof fn lemma_tokens_positions_lower_bound(s: Seq<char>, wi: int, ci: int)
    ensures
        forall|k: int|
            0 <= k < tokens_from(s, wi, ci).len() ==> (#[trigger] tokens_from(s, wi, ci)[k]).char_index
                >= ci && tokens_from(s, wi, ci)[k].word_index >= wi,
    decreases s.len(),
{
    if s.len() > 0 {
        lemma_group_len_bounds(s);
        let g = group_len(s) as int;
        let rest = s.skip(g);
        let toks = tokens_from(s, wi, ci);
        if spec_is_separator(s[0]) {
            let tail = tokens_from(rest, wi + group_weight(s), ci + g);
            lemma_tokens_positions_lower_bound(rest, wi + group_weight(s), ci + g);
            assert forall|k: int|
                0 <= k < toks.len() implies (#[trigger] toks[k]).char_index >= ci
                && toks[k].word_index >= wi by {
                assert(toks[k] == tail[k]);
            }
        } else {
            let wi2 = if rest.len() > 0 && !spec_is_separator(rest[0]) {
                wi + 1
            } else {
                wi
            };
            let tail = tokens_from(rest, wi2, ci + g);
            lemma_tokens_positions_lower_bound(rest, wi2, ci + g);
            assert forall|k: int|
                0 <= k < toks.len() implies (#[trigger] toks[k]).char_index >= ci
                && toks[k].word_index >= wi by {
                if k > 0 {
                    assert(toks[k] == tail[k - 1]);
                }
            }
        }
    }
}

/// Along a token stream the character positions strictly increase and the
/// word positions never decrease.
pub proof fn lemma_token_positions_increase(s: Seq<char>, wi: int, ci: int)
    ensures
        forall|i: int, j: int|
            0 <= i < j < tokens_from(s, wi, ci).len() ==> (#[trigger] tokens_from(s, wi, ci)[i]).char_index
                < (#[trigger] tokens_from(s, wi, ci)[j]).char_index && tokens_from(
                s,
                wi,
                ci,
            )[i].word_index <= tokens_from(s, wi, ci)[j].word_index,
    decreases s.len(),
{
    if s.len() > 0 {
        lemma_group_len_bounds(s);
        let g = group_len(s) as int;
        let rest = s.skip(g);
        let toks = tokens_from(s, wi, ci);
        if spec_is_separator(s[0]) {
            let tail = tokens_from(rest, wi + group_weight(s), ci + g);
            lemma_token_positions_increase(rest, wi + group_weight(s), ci + g);
            assert forall|i: int, j: int|
                0 <= i < j < toks.len() implies (#[trigger] toks[i]).char_index
                < (#[trigger] toks[j]).char_index && toks[i].word_index
                <= toks[j].word_index by {
                assert(toks[i] == tail[i]);
                assert(toks[j] == tail[j]);
            }
        } else {
            let wi2 = if rest.len() > 0 && !spec_is_separator(rest[0]) {
                wi + 1
            } else {
                wi
            };
            let tail = tokens_from(rest, wi2, ci + g);
            lemma_token_positions_increase(rest, wi2, ci + g);
            lemma_tokens_positions_lower_bound(rest, wi2, ci + g);
            assert forall|i: int, j: int|
                0 <= i < j < toks.len() implies (#[trigger] toks[i]).char_index
                < (#[trigger] toks[j]).char_index && toks[i].word_index
                <= toks[j].word_index by {
                assert(toks[j] == tail[j - 1]);
                if i > 0 {
                    assert(toks[i] == tail[i - 1]);
                }
            }
        }
    }
}

/// The tokens of a whole text carry strictly increasing character
/// positions and nondecreasing word positions.
pub proof fn lemma_text_token_positions_increase(s: Seq<char>)
    ensures
        forall|i: int, j: int|
            0 <= i < j < text_tokens(s).len() ==> (#[trigger] text_tokens(s)[i]).char_index
                < (#[trigger] text_tokens(s)[j]).char_index && text_tokens(s)[i].word_index
                <= text_tokens(s)[j].word_index,
{
    let k = leading_separators(s) as int;
    lemma_leading_separators(s);
    lemma_token_positions_increase(s.skip(k), 0, k);
}

/// The tokens shifted by a word and a character offset.
pub open spec fn shift_tokens(ts: Seq<TokenModel>, wo: int, co: int) -> Seq<TokenModel> {
    Seq::new(
        ts.len(),
        |i: int|
            TokenModel {
                word: ts[i].word,
                word_index: ts[i].word_index + wo,
                char_index: ts[i].char_index + co,
            },
    )
}

/// An upper bound on how far the positions can advance over a list of
/// texts: every character moves the word index by at most eight, and each
/// text boundary adds one hard gap.
pub open spec fn texts_budget(ts: Seq<Seq<char>>) -> int
    decreases ts.len(),
{
    if ts.len() == 0 {
        0
    } else {
        8 * ts[0].len() + 8 + texts_budget(ts.drop_first())
    }
}

pub proof fn lemma_texts_budget_nonneg(ts: Seq<Seq<char>>)
    ensures
        texts_budget(ts) >= 0,
    decreases ts.len(),
{
    if ts.len() > 0 {
        lemma_texts_budget_nonneg(ts.drop_first());
    }
}

/// The token stream of an ordered list of texts. Tokens of text `n + 1`
/// resume one hard-separator gap after the last token of text `n`; a text
/// without tokens leaves the offsets unchanged.
pub open spec fn seq_tokens(ts: Seq<Seq<char>>, wo: int, co: int) -> Seq<TokenModel>
    decreases ts.len(),
{
    if ts.len() == 0 {
        Seq::empty()
    } else {
        let toks = text_tokens(ts[0]);
        if toks.len() == 0 {
            seq_tokens(ts.drop_first(), wo, co)
        } else {
            shift_tokens(toks, wo, co) + seq_tokens(
                ts.drop_first(),
                wo + toks.last().word_index + 8,
                co + toks.last().char_index + 8,
            )
        }
    }
}

/// Streams the tokens of an ordered list of texts, with the positions of
/// each text offset one hard gap past the last token of the text before.
pub struct SeqTokenizer<'a> {
    texts: Vec<&'a str>,
    idx: usize,
    current: Option<Tokenizer<'a>>,
    word_offset: usize,
    char_offset: usize,
}

impl<'a> SeqTokenizer<'a> {
    /// The texts not yet started.
    pub closed spec fn rest_texts(self) -> Seq<Seq<char>> {
        self.texts.deep_view().skip(self.idx as int)
    }

    /// The offsets stay within the machine word for everything that is
    /// still to come.
    pub closed spec fn wf(self) -> bool {
        &&& self.idx <= self.texts@.len()
        &&& (self.current is None ==> self.idx == self.texts@.len())
        &&& match self.current {
            None => true,
            Some(tk) => {
                &&& tk.wf()
                &&& self.word_offset + (if tk.remaining().len() > 0 {
                    tk.budget() + 8
                } else {
                    0
                }) + texts_budget(self.rest_texts()) <= usize::MAX
                &&& self.char_offset + (if tk.remaining().len() > 0 {
                    tk.cbudget() + 8
                } else {
                    0
                }) + texts_budget(self.rest_texts()) <= usize::MAX
            },
        }
    }

    /// The tokens this tokenizer has still to emit, with their offsets
    /// applied.
    pub closed spec fn remaining(self) -> Seq<TokenModel> {
        match self.current {
            None => Seq::empty(),
            Some(tk) => {
                let toks = tk.remaining();
                if toks.len() == 0 {
                    seq_tokens(self.rest_texts(), self.word_offset as int, self.char_offset as int)
                } else {
                    shift_tokens(toks, self.word_offset as int, self.char_offset as int)
                        + seq_tokens(
                        self.rest_texts(),
                        self.word_offset + toks.last().word_index + 8,
                        self.char_offset + toks.last().char_index + 8,
                    )
                }
            },
        }
    }

    /// Starts a tokenizer over an ordered list of texts.
    pub fn new(texts: Vec<&'a str>) -> (st: SeqTokenizer<'a>)
        requires
            texts_budget(texts.deep_view()) <= usize::MAX,
        ensures
            st.wf(),
            st.remaining() == seq_tokens(texts.deep_view(), 0, 0),
    {
        let ghost all = texts.deep_view();
        if texts.len() == 0 {
            let st = SeqTokenizer { texts, idx: 0, current: None, word_offset: 0, char_offset: 0 };
            proof {
                assert(st.rest_texts() =~= all.skip(0));
            }
            st
        } else {
            let first: &'a str = texts[0];
            proof {
                assert(all[0] == first@);
                lemma_texts_budget_nonneg(all.drop_first());
            }
            let tk = Tokenizer::new(first);
            let st = SeqTokenizer {
                texts,
                idx: 1,
                current: Some(tk),
                word_offset: 0,
                char_offset: 0,
            };
            proof {
                assert(st.rest_texts() =~= all.drop_first());
                let toks = text_tokens(all[0]);
                if toks.len() > 0 {
                    assert(shift_tokens(toks, 0, 0) =~= toks);
                }
                assert(st.remaining() == seq_tokens(all, 0, 0));
            }
            st
        }
    }

    /// Emits the next token over all texts, if one is left.
    pub fn next(&mut self) -> (r: Option<Token<'a>>)
        requires
            old(self).wf(),
        ensures
            final(self).wf(),
            match r {
                None => old(self).remaining().len() == 0 && final(self).remaining().len() == 0,
                Some(t) => {
                    &&& old(self).remaining().len() > 0
                    &&& t.model() == old(self).remaining()[0]
                    &&& final(self).remaining() == old(self).remaining().drop_first()
                },
            },
    {
        loop
            invariant
                self.wf(),
                self.texts == old(self).texts,
                self.remaining() == old(self).remaining(),
            decreases self.texts@.len() - self.idx, (if self.current is Some {
                1int
            } else {
                0int
            }),
        {
            match self.current {
                None => {
                    return None;
                },
                Some(mut tk) => {
                    let ghost prev = *self;
                    let ghost toks = tk.remaining();
                    match tk.next() {
                        Some(token) => {
                            proof {
                                lemma_texts_budget_nonneg(prev.rest_texts());
                            }
                            let shifted = Token {
                                word: token.word,
                                word_index: token.word_index + self.word_offset,
                                char_index: token.char_index + self.char_offset,
                            };
                            if tk.is_done() {
                                self.word_offset = shifted.word_index + 8;
                                self.char_offset = shifted.char_index + 8;
                            }
                            self.current = Some(tk);
                            proof {
                                let wo = prev.word_offset as int;
                                let co = prev.char_offset as int;
                                let cont = seq_tokens(
                                    prev.rest_texts(),
                                    wo + toks.last().word_index + 8,
                                    co + toks.last().char_index + 8,
                                );
                                if toks.len() == 1 {
                                    assert(prev.remaining().drop_first() =~= cont);
                                    assert(self.remaining() == cont);
                                } else {
                                    assert(tk.remaining().last() == toks.last());
                                    assert(self.remaining() =~= prev.remaining().drop_first());
                                }
                                assert(shifted.model() == prev.remaining()[0]);
                            }
                            return Some(shifted);
                        },
                        None => {
                            if self.idx < self.texts.len() {
                                let ghost all = self.texts.deep_view();
                                let ghost i = self.idx as int;
                                let s: &'a str = self.texts[self.idx];
                                proof {
                                    assert(all[i] == s@);
                                    assert(prev.rest_texts()[0] == s@);
                                    assert(prev.rest_texts().drop_first() =~= all.skip(i + 1));
                                    lemma_texts_budget_nonneg(all.skip(i + 1));
                                }
                                let tk2 = Tokenizer::new(s);
                                self.current = Some(tk2);
                                self.idx = self.idx + 1;
                                proof {
                                    let toks2 = text_tokens(s@);
                                    if toks2.len() > 0 {
                                        assert(shift_tokens(
                                            toks2,
                                            self.word_offset as int,
                                            self.char_offset as int,
                                        ) =~= shift_tokens(
                                            toks2,
                                            prev.word_offset as int,
                                            prev.char_offset as int,
                                        ));
                                    }
                                    assert(self.remaining() == prev.remaining());
                                }
                            } else {
                                self.current = None;
                                return None;
                            }
                        },
                    }
                },
            }
        }
    }
}

/// A text has no more tokens than characters: every token consumes at
/// least one.
pub proof fn lemma_tokens_count_le(s: Seq<char>, wi: int, ci: int)
    ensures
        tokens_from(s, wi, ci).len() <= s.len(),
    decreases s.len(),
{
    if s.len() > 0 {
        lemma_group_len_bounds(s);
        let g = group_len(s) as int;
        let rest = s.skip(g);
        if spec_is_separator(s[0]) {
            lemma_tokens_count_le(rest, wi + group_weight(s), ci + g);
        } else {
            let wi2 = if rest.len() > 0 && !spec_is_separator(rest[0]) {
                wi + 1
            } else {
                wi
            };
            lemma_tokens_count_le(rest, wi2, ci + g);
        }
    }
}

/// A whole text has no more tokens than characters.
pub proof fn lemma_text_tokens_count_le(s: Seq<char>)
    ensures
        text_tokens(s).len() <= s.len(),
{
    lemma_leading_separators(s);
    let k = leading_separators(s) as int;
    lemma_tokens_count_le(s.skip(k), 0, k);
}

/// Splits a query string into its words, in order.
pub fn split_query_string<'a>(query: &'a str) -> (words: Vec<&'a str>)
    requires
        8 * query@.len() <= usize::MAX,
    ensures
        words@.len() == text_tokens(query@).len(),
        forall|i: int|
            0 <= i < words@.len() ==> #[trigger] words@[i]@ == text_tokens(query@)[i].word,
{
    let mut tokenizer = Tokenizer::new(query);
    let mut words: Vec<&'a str> = Vec::new();
    loop
        invariant
            tokenizer.wf(),
            words@.len() + tokenizer.remaining().len() == text_tokens(query@).len(),
            tokenizer.remaining() == text_tokens(query@).skip(words@.len() as int),
            forall|i: int|
                0 <= i < words@.len() ==> #[trigger] words@[i]@ == text_tokens(query@)[i].word,
        decreases tokenizer.remaining().len(),
    {
        match tokenizer.next() {
            Some(token) => {
                proof {
                    assert(tokenizer.remaining() =~= text_tokens(query@).skip(
                        words@.len() as int + 1,
                    ));
                }
                words.push(token.word);
            },
            None => {
                return words;
            },
        }
    }
}

} // verus!
