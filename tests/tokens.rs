use index_bloom::{normalize_folded, BloomFilter, ErrorRate, Tokens};

fn all(text: &str) -> Vec<String> {
    let mut tokens = Tokens::new(text);
    let mut out = Vec::new();
    while let Some(t) = tokens.next() {
        out.push(t);
    }
    out
}

#[test]
fn tokens_white_space() {
    let mut tokens = Tokens::new("word1 word2  word3  word4\nword5\tword6");
    assert_eq!(tokens.next().unwrap(), "word1");
    assert_eq!(tokens.next().unwrap(), "word2");
    assert_eq!(tokens.next().unwrap(), "word3");
    assert_eq!(tokens.next().unwrap(), "word4");
    assert_eq!(tokens.next().unwrap(), "word5");
    assert_eq!(tokens.next().unwrap(), "word6");
    assert_eq!(tokens.next(), None);
}

#[test]
fn punctuation() {
    let sentence = [
        "word1.",
        "word2!",
        "word3?",
        "word4,",
        "word5;",
        "word6:",
        "word7/",
        "word8&",
        "(word9)",
        "[word10]",
        "{word11}",
        "'word12'",
        "\"word13\"",
        "<word14>",
        "`word15`",
        "*word16*",
        "__word17__",
        "?",
        "#",
    ]
    .join(" ");
    let mut tokens = Tokens::new(&sentence);
    assert_eq!(tokens.next().unwrap(), "word1");
    assert_eq!(tokens.next().unwrap(), "word2");
    assert_eq!(tokens.next().unwrap(), "word3");
    assert_eq!(tokens.next().unwrap(), "word4");
    assert_eq!(tokens.next().unwrap(), "word5");
    assert_eq!(tokens.next().unwrap(), "word6");
    assert_eq!(tokens.next().unwrap(), "word7");
    assert_eq!(tokens.next().unwrap(), "word8");
    assert_eq!(tokens.next().unwrap(), "word9");
    assert_eq!(tokens.next().unwrap(), "word10");
    assert_eq!(tokens.next().unwrap(), "word11");
    assert_eq!(tokens.next().unwrap(), "word12");
    assert_eq!(tokens.next().unwrap(), "word13");
    assert_eq!(tokens.next().unwrap(), "word14");
    assert_eq!(tokens.next().unwrap(), "word15");
    assert_eq!(tokens.next().unwrap(), "word16");
    assert_eq!(tokens.next().unwrap(), "word17");
    assert_eq!(tokens.next(), None);
}

#[test]
fn normalize_words() {
    let mut tokens = Tokens::new("WORD1 word2 \u{e9}\u{e8}\u{ea}\u{e0}\u{ef}\u{f9}\u{e7}");
    assert_eq!(tokens.next().unwrap(), "word1");
    assert_eq!(tokens.next().unwrap(), "word2");
    assert_eq!(tokens.next().unwrap(), "eeeaiuc");
    assert_eq!(tokens.next(), None);
}

#[test]
fn tokenizer_examples() {
    assert_eq!(vec!["word1", "word2", "word3"], all("word1 word2  word3"));
    assert_eq!(vec!["word1", "word2"], all("Word1, word2!"));
    assert_eq!(vec!["cafe"], all("caf\u{e9}"));
    assert!(all(" \t\n  \r\n").is_empty());
    assert!(all("").is_empty());
}

#[test]
fn tokenizer_is_deterministic_and_restartable() {
    let text = "The QUICK brown-fox, (jumps) \u{2003}over\u{a0}the lazy dog!";
    assert_eq!(all(text), all(text));
    assert_eq!(
        vec!["the", "quick", "brown-fox", "jumps", "over", "the", "lazy", "dog"],
        all(text)
    );
}

#[test]
fn clean_word_strips_only_punctuation() {
    let tokens = Tokens::new("");
    assert_eq!("Word1", tokens.clean_word("(Word1),"));
    assert_eq!("a-b", tokens.clean_word("a-b"));
    assert_eq!("", tokens.clean_word("?!."));
}

#[test]
fn index_white_space() {
    let mut filter = BloomFilter::new(1000, ErrorRate::new(1, 10).unwrap());
    let mut tokens = Tokens::new("Word1 word2, word3. Word4!");
    while let Some(token) = tokens.next() {
        filter.insert(&token).unwrap();
    }
    assert!(filter.contains("word1").unwrap());
    assert!(filter.contains("word2").unwrap());
    assert!(filter.contains("word3").unwrap());
    assert!(filter.contains("word4").unwrap());
}

#[test]
fn normalize_folded_words() {
    assert_eq!("word1", normalize_folded("(Word1),"));
    assert_eq!("abc", normalize_folded("__ABC__"));
    assert_eq!("a-b", normalize_folded("A-B"));
    assert_eq!("", normalize_folded("?!."));
}

#[test]
fn tokens_are_ascii_and_lowercase() {
    for token in all("\u{5317}\u{4eb0} \u{c6}neid \u{c9}TUDE Stra\u{df}e na\u{ef}ve") {
        assert!(!token.is_empty());
        assert!(token.is_ascii());
        assert_eq!(token, token.to_lowercase());
    }
    assert_eq!(vec!["aeneid", "etude"], all("\u{c6}neid, \u{c9}TUDE!"));
}
