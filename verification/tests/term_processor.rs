use seroost::command::TermStrategy;
use seroost::index::term_processor::{Lowercase, Processor, Raw, Stemming, TermProcessor, Uppercase};

#[test]
fn raw_keeps_tokens() {
    assert_eq!(Raw.process("HeLLo"), "HeLLo");
}

#[test]
fn lowercase_lowers_only_when_needed() {
    assert_eq!(Lowercase.process("HeLLo"), "hello");
    assert_eq!(Lowercase.process("hello"), "hello");
    assert_eq!(Lowercase.process("ÉCOLE"), "école");
}

#[test]
fn uppercase_raises_only_when_needed() {
    assert_eq!(Uppercase.process("HeLLo"), "HELLO");
    assert_eq!(Uppercase.process("HELLO"), "HELLO");
    assert_eq!(Uppercase.process("123"), "123");
}

#[test]
fn stemming_stems_english_words() {
    let s = Stemming::new();
    assert_eq!(s.process("running"), "run");
    assert_eq!(s.process("Running"), "run");
    assert_eq!(s.process("jumping"), "jump");
    // a titlecase-only word is lowercased before stemming too
    assert_eq!(s.process("ǅ"), s.process("ǆ"));
    assert_eq!(s.process("ǅ"), "ǆ");
}

#[test]
fn strategy_picks_its_processor() {
    assert!(matches!(TermStrategy::Raw.processor(), Processor::Raw(_)));
    assert!(matches!(TermStrategy::Lowercase.processor(), Processor::Lowercase(_)));
    assert!(matches!(TermStrategy::Uppercase.processor(), Processor::Uppercase(_)));
    assert!(matches!(TermStrategy::Stemming.processor(), Processor::Stemming(_)));
    assert_eq!(TermStrategy::Lowercase.processor().process("ABC"), "abc");
    assert_eq!(TermStrategy::Stemming.processor().process("Cats"), "cat");
}
