use beamprop::montecarlo::seeded_ensemble;

#[test]
fn results_come_back_in_index_order() {
    let v = seeded_ensemble(64, |i: u64| i * i);
    assert_eq!(v.len(), 64);
    assert!(v.iter().enumerate().all(|(i, &x)| x == (i * i) as u64));
}

#[test]
fn deterministic_across_pool_sizes() {
    let run = |threads: usize| {
        rayon::ThreadPoolBuilder::new()
            .num_threads(threads)
            .build()
            .unwrap()
            .install(|| seeded_ensemble(32, |i: u64| (i as f64 * 0.1).sin()))
    };
    assert_eq!(run(1), run(4));
}

#[test]
fn a_larger_ensemble_starts_with_the_smaller() {
    let small = seeded_ensemble(10, |i: u64| i.wrapping_mul(0x9E37_79B9));
    let large = seeded_ensemble(25, |i: u64| i.wrapping_mul(0x9E37_79B9));
    assert_eq!(small, large[..10].to_vec());
    assert_eq!(seeded_ensemble(0, |i: u64| i), Vec::<u64>::new());
}
