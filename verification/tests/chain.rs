use brain::linkset::{LinkSet, Token};
use brain::markov::Markov;

fn word(s: &str) -> Vec<u8> {
    s.as_bytes().to_vec()
}

fn ctx(words: &[&str]) -> Vec<Vec<u8>> {
    words.iter().map(|w| word(w)).collect()
}

fn count(m: &Markov, context: &[&str], token: &str) -> usize {
    let c = ctx(context);
    match m.links_for(&c) {
        Some(ls) => ls.count_of(&Token::Word(word(token))),
        None => 0,
    }
}

fn end_count(m: &Markov, context: &[&str]) -> usize {
    let c = ctx(context);
    match m.links_for(&c) {
        Some(ls) => ls.count_of(&Token::End),
        None => 0,
    }
}

#[test]
fn insert_same_token_twice_merges() {
    let mut ls = LinkSet::new();
    ls.insert(Token::Word(word("a")));
    ls.insert(Token::Word(word("a")));
    assert_eq!(ls.len(), 1);
    assert_eq!(ls.count_of(&Token::Word(word("a"))), 2);
}

#[test]
fn insert_distinct_tokens_keeps_both() {
    let mut ls = LinkSet::new();
    ls.insert(Token::Word(word("a")));
    ls.insert(Token::Word(word("b")));
    ls.insert(Token::End);
    assert_eq!(ls.len(), 3);
    assert_eq!(ls.count_of(&Token::Word(word("a"))), 1);
    assert_eq!(ls.count_of(&Token::Word(word("b"))), 1);
    assert_eq!(ls.count_of(&Token::End), 1);
}

#[test]
fn insert_keeps_descending_order() {
    let mut ls = LinkSet::new();
    ls.insert(Token::Word(word("a")));
    ls.insert(Token::Word(word("b")));
    ls.insert(Token::Word(word("b")));
    ls.insert(Token::Word(word("b")));
    assert_eq!(ls.get(0).count, 3);
    assert_eq!(ls.get(1).count, 1);
}

#[test]
fn train_single_sentence_depth_two() {
    let mut m = Markov::new(2, String::from("t"));
    m.train_text("a b c.");

    assert_eq!(count(&m, &["a"], "b"), 1);
    assert_eq!(count(&m, &["b"], "c"), 1);
    assert_eq!(count(&m, &["a", "b"], "c"), 1);
    // end links at every trained width
    assert_eq!(end_count(&m, &["c"]), 1);
    assert_eq!(end_count(&m, &["b", "c"]), 1);
    // "a" is a start
    assert!(m.has_start(&word("a")));
    assert_eq!(m.start_count(), 1);
    // exactly the five contexts above
    assert_eq!(m.context_count(), 5);
}

#[test]
fn train_records_every_width_up_to_depth() {
    let mut m = Markov::new(2, String::from("t"));
    m.train_text("a b c d");
    // width 3 windows must not appear at depth 2
    assert!(m.links_for(&ctx(&["a", "b", "c"])).is_none());
    assert_eq!(count(&m, &["b", "c"], "d"), 1);
    assert_eq!(count(&m, &["c"], "d"), 1);
}

#[test]
fn train_empty_text_changes_nothing() {
    let mut m = Markov::new(3, String::from("t"));
    m.train_text("");
    m.train_text("   .  ! ?\n");
    assert_eq!(m.context_count(), 0);
    assert_eq!(m.start_count(), 0);
}

#[test]
fn train_single_word_records_only_start() {
    let mut m = Markov::new(3, String::from("t"));
    m.train_text("hi.");
    assert_eq!(m.start_count(), 1);
    assert!(m.has_start(&word("hi")));
    assert_eq!(m.context_count(), 0);
}

#[test]
fn train_twice_accumulates_counts() {
    let mut m = Markov::new(2, String::from("t"));
    m.train_text("a b.");
    m.train_text("a b!");
    assert_eq!(count(&m, &["a"], "b"), 2);
    assert_eq!(end_count(&m, &["b"]), 2);
    assert_eq!(m.start_count(), 1);
}

#[test]
fn sentences_split_on_all_delimiters() {
    let mut m = Markov::new(1, String::from("t"));
    m.train_text("a b. c d? e f! g h\ni j");
    for s in ["a", "c", "e", "g", "i"] {
        assert!(m.has_start(&word(s)), "missing start {}", s);
    }
    assert_eq!(m.start_count(), 5);
}

#[test]
fn whitespace_collapses_between_words() {
    let mut m = Markov::new(1, String::from("t"));
    m.train_text("a\t \r b");
    assert_eq!(count(&m, &["a"], "b"), 1);
}

#[test]
fn unicode_whitespace_splits_words() {
    let mut m = Markov::new(1, String::from("t"));
    // no-break space and em space separate words like ASCII whitespace
    m.train_text("a\u{00A0}b\u{2003}c.");
    assert_eq!(count(&m, &["a"], "b"), 1);
    assert_eq!(count(&m, &["b"], "c"), 1);
    assert!(m.has_start(&word("a")));
    assert_eq!(m.start_count(), 1);
}

#[test]
fn name_and_depth_are_kept() {
    let m = Markov::new(4, String::from("poet"));
    assert_eq!(m.depth(), 4);
    assert_eq!(m.name(), "poet");
}
