use meilidb::tokenizer::{split_query_string, SeqTokenizer, Token, Tokenizer};

#[test]
fn easy() {
    let mut tokenizer = Tokenizer::new("salut");

    assert_eq!(
        tokenizer.next(),
        Some(Token {
            word: "salut",
            word_index: 0,
            char_index: 0
        })
    );
    assert_eq!(tokenizer.next(), None);

    let mut tokenizer = Tokenizer::new("yo    ");

    assert_eq!(
        tokenizer.next(),
        Some(Token {
            word: "yo",
            word_index: 0,
            char_index: 0
        })
    );
    assert_eq!(tokenizer.next(), None);
}

#[test]
fn hard() {
    let mut tokenizer = Tokenizer::new(" .? yo lolo. aïe (ouch)");

    assert_eq!(
        tokenizer.next(),
        Some(Token {
            word: "yo",
            word_index: 0,
            char_index: 4
        })
    );
    assert_eq!(
        tokenizer.next(),
        Some(Token {
            word: "lolo",
            word_index: 1,
            char_index: 7
        })
    );
    assert_eq!(
        tokenizer.next(),
        Some(Token {
            word: "aïe",
            word_index: 9,
            char_index: 13
        })
    );
    assert_eq!(
        tokenizer.next(),
        Some(Token {
            word: "ouch",
            word_index: 17,
            char_index: 18
        })
    );
    assert_eq!(tokenizer.next(), None);

    let mut tokenizer = Tokenizer::new("yo ! lolo ? wtf - lol . aïe ,");

    assert_eq!(
        tokenizer.next(),
        Some(Token {
            word: "yo",
            word_index: 0,
            char_index: 0
        })
    );
    assert_eq!(
        tokenizer.next(),
        Some(Token {
            word: "lolo",
            word_index: 8,
            char_index: 5
        })
    );
    assert_eq!(
        tokenizer.next(),
        Some(Token {
            word: "wtf",
            word_index: 16,
            char_index: 12
        })
    );
    assert_eq!(
        tokenizer.next(),
        Some(Token {
            word: "lol",
            word_index: 17,
            char_index: 18
        })
    );
    assert_eq!(
        tokenizer.next(),
        Some(Token {
            word: "aïe",
            word_index: 25,
            char_index: 24
        })
    );
    assert_eq!(tokenizer.next(), None);
}

#[test]
fn hard_long_chars() {
    let mut tokenizer = Tokenizer::new(" .? yo 😂. aïe");

    assert_eq!(
        tokenizer.next(),
        Some(Token {
            word: "yo",
            word_index: 0,
            char_index: 4
        })
    );
    assert_eq!(
        tokenizer.next(),
        Some(Token {
            word: "😂",
            word_index: 1,
            char_index: 7
        })
    );
    assert_eq!(
        tokenizer.next(),
        Some(Token {
            word: "aïe",
            word_index: 9,
            char_index: 10
        })
    );
    assert_eq!(tokenizer.next(), None);

    let mut tokenizer = Tokenizer::new("yo ! lolo ? 😱 - lol . 😣 ,");

    assert_eq!(
        tokenizer.next(),
        Some(Token {
            word: "yo",
            word_index: 0,
            char_index: 0
        })
    );
    assert_eq!(
        tokenizer.next(),
        Some(Token {
            word: "lolo",
            word_index: 8,
            char_index: 5
        })
    );
    assert_eq!(
        tokenizer.next(),
        Some(Token {
            word: "😱",
            word_index: 16,
            char_index: 12
        })
    );
    assert_eq!(
        tokenizer.next(),
        Some(Token {
            word: "lol",
            word_index: 17,
            char_index: 16
        })
    );
    assert_eq!(
        tokenizer.next(),
        Some(Token {
            word: "😣",
            word_index: 25,
            char_index: 22
        })
    );
    assert_eq!(tokenizer.next(), None);
}

#[test]
fn hard_kanjis() {
    let mut tokenizer = Tokenizer::new("\u{2ec4}lolilol\u{2ec7}");

    assert_eq!(
        tokenizer.next(),
        Some(Token {
            word: "\u{2ec4}",
            word_index: 0,
            char_index: 0
        })
    );
    assert_eq!(
        tokenizer.next(),
        Some(Token {
            word: "lolilol",
            word_index: 1,
            char_index: 1
        })
    );
    assert_eq!(
        tokenizer.next(),
        Some(Token {
            word: "\u{2ec7}",
            word_index: 2,
            char_index: 8
        })
    );
    assert_eq!(tokenizer.next(), None);

    let mut tokenizer = Tokenizer::new("\u{2ec4}\u{2ed3}\u{2ef2} lolilol - hello    \u{2ec7}");

    assert_eq!(
        tokenizer.next(),
        Some(Token {
            word: "\u{2ec4}",
            word_index: 0,
            char_index: 0
        })
    );
    assert_eq!(
        tokenizer.next(),
        Some(Token {
            word: "\u{2ed3}",
            word_index: 1,
            char_index: 1
        })
    );
    assert_eq!(
        tokenizer.next(),
        Some(Token {
            word: "\u{2ef2}",
            word_index: 2,
            char_index: 2
        })
    );
    assert_eq!(
        tokenizer.next(),
        Some(Token {
            word: "lolilol",
            word_index: 3,
            char_index: 4
        })
    );
    assert_eq!(
        tokenizer.next(),
        Some(Token {
            word: "hello",
            word_index: 4,
            char_index: 14
        })
    );
    assert_eq!(
        tokenizer.next(),
        Some(Token {
            word: "\u{2ec7}",
            word_index: 5,
            char_index: 23
        })
    );
    assert_eq!(tokenizer.next(), None);
}

#[test]
fn split_query_words() {
    let words = split_query_string("hello world");
    assert_eq!(words, vec!["hello", "world"]);

    let words = split_query_string(" .? yo lolo. aïe (ouch)");
    assert_eq!(words, vec!["yo", "lolo", "aïe", "ouch"]);
}

#[test]
fn seq_tokenizer_offsets() {
    let texts = vec!["hello world", "rust"];
    let mut tokenizer = SeqTokenizer::new(texts);

    assert_eq!(
        tokenizer.next(),
        Some(Token {
            word: "hello",
            word_index: 0,
            char_index: 0
        })
    );
    assert_eq!(
        tokenizer.next(),
        Some(Token {
            word: "world",
            word_index: 1,
            char_index: 6
        })
    );
    // the next text resumes one hard gap past the last token
    assert_eq!(
        tokenizer.next(),
        Some(Token {
            word: "rust",
            word_index: 9,
            char_index: 14
        })
    );
    assert_eq!(tokenizer.next(), None);
}

#[test]
fn seq_tokenizer_skips_empty_texts() {
    let texts = vec!["", "yo"];
    let mut tokenizer = SeqTokenizer::new(texts);

    assert_eq!(
        tokenizer.next(),
        Some(Token {
            word: "yo",
            word_index: 0,
            char_index: 0
        })
    );
    assert_eq!(tokenizer.next(), None);
}
