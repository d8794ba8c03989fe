use seroost::index::lexer::Lexer;

fn tokens(text: &str) -> Vec<String> {
    let mut lexer = Lexer::new(text);
    let mut out = Vec::new();
    while let Some(t) = lexer.next() {
        out.push(t);
    }
    out
}

#[test]
fn splits_words_on_whitespace() {
    assert_eq!(tokens("hello  world\n\tagain"), vec!["hello", "world", "again"]);
}

#[test]
fn numbers_and_words_are_separate_tokens() {
    assert_eq!(tokens("123abc 4x2"), vec!["123", "abc", "4", "x2"]);
}

#[test]
fn punctuation_is_one_token_per_character() {
    assert_eq!(tokens("a,b!?"), vec!["a", ",", "b", "!", "?"]);
}

#[test]
fn only_whitespace_gives_no_tokens() {
    assert!(tokens(" \t\r\n\x0c ").is_empty());
    assert!(tokens("").is_empty());
}

#[test]
fn unicode_letters_stay_together() {
    assert_eq!(tokens("héllo wörld ½"), vec!["héllo", "wörld", "½"]);
}

#[test]
fn tokens_cover_the_text_except_whitespace() {
    let text = "The quick, brown fox-2000 jumps.";
    let joined: String = tokens(text).concat();
    let expected: String = text.chars().filter(|c| !c.is_ascii_whitespace()).collect();
    assert_eq!(joined, expected);
    assert!(tokens(text).iter().all(|t| !t.is_empty()));
}
