use brain::linkset::Token;
use brain::markov::Markov;
use brain::persist::{decode, encode, load, save, CodecError};

fn word(s: &str) -> Vec<u8> {
    s.as_bytes().to_vec()
}

fn trained() -> Markov {
    let mut m = Markov::new(3, String::from("memory"));
    m.train_text("the rain in spain stays mainly on the plain. in spain it rains a lot?");
    m.train_text("no rain today!\nplain bread again");
    m
}

fn assert_content_equal(a: &Markov, b: &Markov) {
    // the encoder is a function of the chain's content alone, so equal
    // encodings mean equal content
    assert_eq!(encode(a), encode(b));
}

#[test]
fn save_load_round_trip() {
    let m = trained();
    let bytes = save(&m).expect("save in memory");
    let back = load(&bytes).expect("load what was saved");
    assert_content_equal(&m, &back);
    assert_eq!(back.name(), "memory");
    assert_eq!(back.depth(), 3);
    assert_eq!(back.context_count(), m.context_count());
    assert_eq!(back.start_count(), m.start_count());
    let c = vec![word("the")];
    let before = m.links_for(&c).expect("trained context").count_of(&Token::Word(word("rain")));
    let after = back.links_for(&c).expect("loaded context").count_of(&Token::Word(word("rain")));
    assert_eq!(before, after);
}

#[test]
fn save_load_round_trip_empty_chain() {
    let m = Markov::new(1, String::from("fresh"));
    let bytes = save(&m).expect("save in memory");
    let back = load(&bytes).expect("load what was saved");
    assert_content_equal(&m, &back);
    assert_eq!(back.context_count(), 0);
    assert_eq!(back.start_count(), 0);
    assert_eq!(back.name(), "fresh");
}

#[test]
fn load_rejects_garbage() {
    assert!(matches!(load(&vec![]), Err(CodecError::Deserialize)));
    assert!(matches!(load(&word("not a brain file")), Err(CodecError::Deserialize)));
    assert!(matches!(load(&vec![0xff; 100]), Err(CodecError::Deserialize)));
}

#[test]
fn load_rejects_truncation() {
    let m = trained();
    let bytes = save(&m).expect("save in memory");
    let cut = bytes[..bytes.len() / 2].to_vec();
    assert!(load(&cut).is_err());
}

#[test]
fn save_is_deterministic() {
    let m = trained();
    assert_eq!(save(&m).unwrap(), save(&m).unwrap());
}

#[test]
fn decode_rejects_malformed_image() {
    // a decompressed image that is not a chain
    assert!(decode(&[1, 2, 3]).is_none());
    assert!(decode(&[]).is_none());
}

#[test]
fn encoding_changes_with_content() {
    let mut a = Markov::new(2, String::from("x"));
    let mut b = Markov::new(2, String::from("x"));
    a.train_text("one two.");
    b.train_text("one three.");
    assert_ne!(encode(&a), encode(&b));
}

#[test]
fn compression_actually_happens() {
    // the compressed image of a repetitive chain is smaller than its raw form
    let mut m = Markov::new(2, String::from("rep"));
    for _ in 0..50 {
        m.train_text("aaaaaaaaaa bbbbbbbbbb aaaaaaaaaa bbbbbbbbbb.");
    }
    let raw = encode(&m);
    let packed = save(&m).unwrap();
    assert!(packed.len() < raw.len());
}
