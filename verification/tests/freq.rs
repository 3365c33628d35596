use markov_brain::freq::FrequencyTable;

#[test]
fn record_accumulates_counts() {
    let mut t = FrequencyTable::new();
    let ctx = vec![0usize];
    t.record(&ctx, 1);
    t.record(&ctx, 1);
    t.record(&ctx, 2);
    assert_eq!(t.count_for(&ctx, 1), 2);
    assert_eq!(t.count_for(&ctx, 2), 1);
    assert_eq!(t.count_for(&ctx, 3), 0);
}

#[test]
fn counts_are_kept_per_context() {
    let mut t = FrequencyTable::new();
    t.record(&vec![0usize], 1);
    t.record(&vec![0usize, 1], 2);
    assert_eq!(t.count_for(&vec![0usize], 1), 1);
    assert_eq!(t.count_for(&vec![0usize, 1], 2), 1);
    assert_eq!(t.count_for(&vec![0usize], 2), 0);
    assert_eq!(t.count_for(&vec![1usize], 1), 0);
}

#[test]
fn contains_context_tracks_observations() {
    let mut t = FrequencyTable::new();
    assert!(!t.contains_context(&vec![0usize]));
    t.record(&vec![0usize], 1);
    assert!(t.contains_context(&vec![0usize]));
    assert!(!t.contains_context(&vec![1usize]));
}

#[test]
fn sample_of_unknown_context_is_none() {
    let t = FrequencyTable::new();
    assert_eq!(t.sample(&vec![0usize]), None);
    assert_eq!(t.sample_with(&vec![0usize], 7), None);
}

#[test]
fn sample_returns_a_recorded_candidate() {
    let mut t = FrequencyTable::new();
    let ctx = vec![3usize];
    t.record(&ctx, 10);
    t.record(&ctx, 11);
    for _ in 0..30 {
        let got = t.sample(&ctx).expect("context is recorded");
        assert!(got == 10 || got == 11);
    }
}

#[test]
fn sample_of_single_candidate_is_that_candidate() {
    let mut t = FrequencyTable::new();
    let ctx = vec![5usize];
    t.record(&ctx, 7);
    for _ in 0..10 {
        assert_eq!(t.sample(&ctx), Some(7));
    }
}

#[test]
fn sample_with_is_deterministic_in_the_draw() {
    let mut t = FrequencyTable::new();
    let ctx = vec![1usize, 2];
    t.record(&ctx, 4);
    t.record(&ctx, 5);
    t.record(&ctx, 5);
    for r in 0..9u128 {
        assert_eq!(t.sample_with(&ctx, r), t.sample_with(&ctx, r));
    }
    let got = t.sample_with(&ctx, 0).unwrap();
    assert!(got == 4 || got == 5);
}
