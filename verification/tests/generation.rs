use brain::linkset::{Link, Token};
use brain::markov::Markov;
use brain::rng::Rand;
use brain::sample::weighted_selection;

fn word(s: &str) -> Vec<u8> {
    s.as_bytes().to_vec()
}

fn trained(depth: usize) -> Markov {
    let mut m = Markov::new(depth, String::from("gen"));
    m.train_text(
        "the quick brown fox jumps over the lazy dog. \
         the lazy dog sleeps under the old tree. \
         a quick fox runs over the green hill. \
         the old tree stands on the green hill.",
    );
    m
}

#[test]
fn generate_no_state() {
    let m = Markov::new(3, String::from("empty"));
    let mut rng = Rand::from_seed(7);
    for _ in 0..50 {
        assert!(m.generate_tokens(&mut rng, 5, 30, None).is_none());
        assert!(m.generate(&mut rng, 5, 30, None).is_none());
    }
}

#[test]
fn generate_succeeds_with_state() {
    let m = trained(3);
    let mut rng = Rand::from_seed(1);
    for _ in 0..20 {
        let out = m.generate(&mut rng, 1, 30, None);
        assert!(out.is_some());
        assert!(!out.unwrap().is_empty());
    }
}

#[test]
fn generate_exact_length_at_min_equals_max() {
    let m = trained(3);
    for seed in 0..30u64 {
        let mut rng = Rand::from_seed(seed);
        let out = m.generate_tokens(&mut rng, 5, 5, None).expect("state present");
        assert_eq!(out.len(), 5, "seed {}", seed);
    }
}

#[test]
fn generate_respects_max_without_query() {
    let m = trained(2);
    for seed in 0..30u64 {
        let mut rng = Rand::from_seed(seed);
        let out = m.generate_tokens(&mut rng, 1, 8, None).expect("state present");
        assert!(out.len() >= 1 && out.len() <= 8, "seed {}", seed);
    }
}

#[test]
fn generated_tokens_come_from_the_chain() {
    let m = trained(3);
    let mut rng = Rand::from_seed(11);
    let corpus = "the quick brown fox jumps over lazy dog sleeps under old tree a runs green hill stands on";
    let known: Vec<&str> = corpus.split_whitespace().collect();
    for _ in 0..10 {
        let out = m.generate_tokens(&mut rng, 3, 12, None).expect("state present");
        for t in &out {
            let s = String::from_utf8(t.clone()).expect("tokens are text here");
            assert!(known.contains(&s.as_str()), "unknown token {}", s);
        }
    }
}

#[test]
fn generate_with_query_can_inject_it() {
    let m = trained(3);
    let q = word("pineapple");
    let mut injected = false;
    for seed in 0..80u64 {
        let mut rng = Rand::from_seed(seed);
        if let Some(out) = m.generate_tokens(&mut rng, 5, 30, Some(&q)) {
            if out.iter().any(|t| t == &q) {
                injected = true;
            }
        }
    }
    assert!(injected, "the query was never injected across 80 seeds");
}

#[test]
fn next_word_on_unknown_context_is_end() {
    let m = trained(3);
    let mut rng = Rand::from_seed(3);
    let words = vec![word("zzz")];
    assert!(matches!(m.next_word(&mut rng, &words), Token::End));
}

#[test]
fn next_word_on_known_context_is_trained() {
    let mut m = Markov::new(2, String::from("t"));
    m.train_text("a b.");
    let mut rng = Rand::from_seed(5);
    let words = vec![word("a")];
    // from context [a] only "b" or the end sentinel can follow
    for _ in 0..20 {
        match m.next_word(&mut rng, &words) {
            Token::Word(w) => assert_eq!(w, word("b")),
            Token::End => {}
        }
    }
}

#[test]
fn weighted_selection_returns_valid_index() {
    let mut rng = Rand::from_seed(9);
    let links = vec![
        Link { token: Token::Word(word("a")), count: 3 },
        Link { token: Token::Word(word("b")), count: 1 },
        Link { token: Token::End, count: 2 },
    ];
    for _ in 0..100 {
        let i = weighted_selection(&mut rng, &links);
        assert!(i < links.len());
    }
}

#[test]
fn weighted_selection_single_link() {
    let mut rng = Rand::from_seed(2);
    let links = vec![Link { token: Token::End, count: 1 }];
    assert_eq!(weighted_selection(&mut rng, &links), 0);
}

#[test]
fn rand_below_stays_in_range() {
    let mut rng = Rand::from_seed(123);
    for _ in 0..1000 {
        assert!(rng.below(7) < 7);
    }
    let mut e = Rand::from_entropy().expect("system entropy available");
    for _ in 0..100 {
        assert!(e.below(3) < 3);
    }
}

#[test]
fn join_skips_invalid_tokens() {
    let mut m = Markov::new(1, String::from("t"));
    m.train_text("a b.");
    let mut rng = Rand::from_seed(4);
    let out = m.generate(&mut rng, 1, 5, None).expect("state present");
    for part in out.split(' ') {
        assert!(part == "a" || part == "b");
    }
}

#[test]
fn generate_no_state_with_query() {
    // even a supplied query cannot rescue a chain with no starts
    let m = Markov::new(3, String::from("empty"));
    let q = word("probe");
    for seed in 0..40u64 {
        let mut rng = Rand::from_seed(seed);
        assert!(m.generate_tokens(&mut rng, 1, 1, Some(&q)).is_none());
        assert!(m.generate(&mut rng, 1, 1, Some(&q)).is_none());
    }
}
