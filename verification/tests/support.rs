use brain::stats::Stats;
use brain::types::{Max, Min, Saved, Trained};

#[test]
fn stats_counts_and_samples() {
    let mut s = Stats::new(3);
    let mut emitted = 0;
    for _ in 0..10 {
        if s.tick() {
            emitted += 1;
        }
    }
    // due at counts 3, 6 and 9
    assert_eq!(emitted, 3);
    let sample = s.done(250);
    assert_eq!(sample.count, 10);
    assert_eq!(sample.duration_ms, 250);
}

#[test]
fn stats_rate_one_samples_after_first() {
    let mut s = Stats::new(1);
    assert!(!s.tick()); // count 0: rate not reached yet
    assert!(s.tick());
    assert!(s.tick());
}

#[test]
fn stats_disable_stops_sampling() {
    let mut s = Stats::new(1);
    s.disable();
    for _ in 0..5 {
        assert!(!s.tick());
    }
    assert_eq!(s.done(0).count, 5);
}

#[test]
fn min_max_defaults() {
    assert_eq!(Min::default().0, 1);
    assert_eq!(Max::default().0, 30);
}

#[test]
fn saved_compares_by_name_alone() {
    let a = Saved { name: String::from("f.db"), time_ms: 1 };
    let b = Saved { name: String::from("f.db"), time_ms: 999 };
    let c = Saved { name: String::from("g.db"), time_ms: 1 };
    assert_eq!(a, b);
    assert_ne!(a, c);
}

#[test]
fn trained_compares_by_data_alone() {
    let a = Trained { data: String::from("text"), time_ms: 1 };
    let b = Trained { data: String::from("text"), time_ms: 2 };
    let c = Trained { data: String::from("other"), time_ms: 1 };
    assert_eq!(a, b);
    assert_ne!(a, c);
}
