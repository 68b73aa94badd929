use brain::brain::{Brain, BrainConfig};
use brain::markov::Markov;
use brain::persist::encode;
use brain::registry::Registry;
use brain::rng::Rand;
use brain::types::{Error, GenerateOptions, TrainData};

fn config(name: &str, file: &str, read_only: bool) -> BrainConfig {
    BrainConfig {
        name: String::from(name),
        brain_file: String::from(file),
        read_only,
    }
}

fn make_brain(name: &str, read_only: bool, state: Option<&str>) -> Brain {
    let mut markov = Markov::new(3, String::from(name));
    if let Some(text) = state {
        markov.train_text(text);
    }
    Brain::new(config(name, &format!("{}.db", name), read_only), markov)
}

fn make_registry(state: Option<&str>) -> Registry {
    let mut reg = Registry::new(String::from("brain.toml"));
    reg.insert_if_absent(make_brain("test1", false, state)).unwrap();
    reg.insert_if_absent(make_brain("test2", true, state)).unwrap();
    reg
}

fn opts() -> GenerateOptions {
    GenerateOptions { context: None, min: None, max: None }
}

const LOREM: &str = "lorem ipsum dolor sit amet consectetur adipiscing elit. \
                     donec ornare mi vitae fermentum aliquet.";

#[test]
fn new_conflict() {
    let mut reg = make_registry(None);
    let before = reg.len();
    let err = reg.insert_if_absent(make_brain("test1", false, None)).unwrap_err();
    match err {
        Error::AlreadyExists { name } => assert_eq!(name, "test1"),
        _ => panic!("expected AlreadyExists"),
    }
    // the state created by the first insert is unaffected
    assert_eq!(reg.len(), before);
    assert!(reg.lookup("test1").is_some());
}

#[test]
fn list_none() {
    let reg = Registry::new(String::from("brain.toml"));
    let list = reg.list();
    assert_eq!(list.brains.len(), 0);
    assert_eq!(list.config_path, "brain.toml");
}

#[test]
fn list_some() {
    let reg = make_registry(None);
    let list = reg.list();
    assert_eq!(list.brains.len(), 2);
    let one = list.brains.iter().find(|b| b.name == "test1").expect("test1 listed");
    assert_eq!(one.brain_file, "test1.db");
    assert!(!one.read_only);
    let two = list.brains.iter().find(|b| b.name == "test2").expect("test2 listed");
    assert_eq!(two.brain_file, "test2.db");
    assert!(two.read_only);
}

#[test]
fn train_readonly() {
    let mut reg = make_registry(None);
    // a save taken before the rejected call...
    let before = encode(&reg.lookup("test2").unwrap().markov);
    let err = reg
        .train("test2", TrainData { data: String::from(LOREM) }, 0)
        .unwrap_err();
    assert!(matches!(err, Error::ReadOnly));
    // ...equals a save taken after it: the chain did not move
    let after = encode(&reg.lookup("test2").unwrap().markov);
    assert_eq!(before, after);
}

#[test]
fn train_success() {
    let mut reg = make_registry(None);
    let out = reg
        .train("test1", TrainData { data: String::from(LOREM) }, 7)
        .unwrap();
    assert_eq!(out.data, LOREM);
    assert_eq!(out.time_ms, 7);
    assert!(reg.lookup("test1").unwrap().markov.start_count() > 0);
}

#[test]
fn train_unknown() {
    let mut reg = make_registry(None);
    let err = reg
        .train("test3", TrainData { data: String::from(LOREM) }, 0)
        .unwrap_err();
    assert!(matches!(err, Error::NotFound));
}

#[test]
fn registry_generate_no_state() {
    let reg = make_registry(None);
    let mut rng = Rand::from_seed(1);
    let err = reg.generate("test1", &mut rng, opts()).unwrap_err();
    assert!(matches!(err, Error::NotEnoughState));
}

#[test]
fn tests_generate() {
    let reg = make_registry(Some(LOREM));
    let mut rng = Rand::from_seed(1);
    let out = reg.generate("test1", &mut rng, opts()).unwrap();
    assert_eq!(out.name, "test1");
    assert!(!out.data.is_empty());
}

#[test]
fn generate_context_no_state() {
    // a query cannot rescue an untrained brain at the default lengths
    let reg = make_registry(None);
    let mut rng = Rand::from_seed(5);
    let with_context = GenerateOptions {
        context: Some(String::from("foo bar")),
        min: None,
        max: None,
    };
    let err = reg.generate("test1", &mut rng, with_context).unwrap_err();
    assert!(matches!(err, Error::NotEnoughState));
}

#[test]
fn generate_context() {
    let reg = make_registry(Some(LOREM));
    let mut rng = Rand::from_seed(6);
    let with_context = GenerateOptions {
        context: Some(String::from("foo bar")),
        min: None,
        max: None,
    };
    let out = reg.generate("test1", &mut rng, with_context).unwrap();
    assert_eq!(out.name, "test1");
}

#[test]
fn generate_readonly() {
    // generating against a read-only brain is allowed
    let reg = make_registry(Some(LOREM));
    let mut rng = Rand::from_seed(2);
    assert!(reg.generate("test2", &mut rng, opts()).is_ok());
}

#[test]
fn generate_unknown() {
    let reg = make_registry(Some(LOREM));
    let mut rng = Rand::from_seed(3);
    let err = reg.generate("test3", &mut rng, opts()).unwrap_err();
    assert!(matches!(err, Error::NotFound));
}

#[test]
fn save_cannot_rotate() {
    let reg = make_registry(None);
    let err = reg
        .save("test1", Some(String::from("permission denied")))
        .unwrap_err();
    match err {
        Error::CannotRotate { file, reason } => {
            assert_eq!(file, "test1.db");
            assert_eq!(reason, "permission denied");
        }
        _ => panic!("expected CannotRotate"),
    }
}

#[test]
fn save_produces_loadable_bytes() {
    let mut reg = make_registry(None);
    reg.train("test1", TrainData { data: String::from(LOREM) }, 0).unwrap();
    let bytes = reg.save("test1", None).unwrap();
    let back = brain::persist::load(&bytes).unwrap();
    assert_eq!(encode(&back), encode(&reg.lookup("test1").unwrap().markov));
}

#[test]
fn save_unknown() {
    let reg = make_registry(None);
    assert!(matches!(reg.save("test3", None), Err(Error::NotFound)));
}

#[test]
fn interleaved_training_keeps_brains_independent() {
    // interleave per-brain operations across two brains
    let mut reg = Registry::new(String::from("brain.toml"));
    reg.insert_if_absent(make_brain("left", false, None)).unwrap();
    reg.insert_if_absent(make_brain("right", false, None)).unwrap();
    let ops = [
        ("left", "a b c."),
        ("right", "x y z."),
        ("left", "c b a."),
        ("right", "z y x."),
        ("left", "a c b."),
    ];
    for (name, text) in ops {
        reg.train(name, TrainData { data: String::from(text) }, 0).unwrap();
    }

    // each brain's chain equals the chain its own operations alone produce
    let mut left_alone = Markov::new(3, String::from("left"));
    left_alone.train_text("a b c.");
    left_alone.train_text("c b a.");
    left_alone.train_text("a c b.");
    let mut right_alone = Markov::new(3, String::from("right"));
    right_alone.train_text("x y z.");
    right_alone.train_text("z y x.");

    assert_eq!(encode(&reg.lookup("left").unwrap().markov), encode(&left_alone));
    assert_eq!(encode(&reg.lookup("right").unwrap().markov), encode(&right_alone));
}
