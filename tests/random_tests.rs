use my_library::RandomNumberGenerator;

#[test]
fn random_test_range_bounds() {
    let mut rng = RandomNumberGenerator::new();
    for _ in 0..1000 {
        let num = rng.range(10..20);
        assert!((10..20).contains(&num));
    }
}

#[test]
fn random_test_seeded_reproducibility() {
    let mut rng1 = RandomNumberGenerator::seeded(42);
    let mut rng2 = RandomNumberGenerator::seeded(42);

    for _ in 0..1000 {
        assert_eq!(
            rng1.range(u32::MIN..u32::MAX),
            rng2.range(u32::MIN..u32::MAX)
        );
    }
}

#[test]
fn random_locking_test_range_bounds() {
    let mut rng = RandomNumberGenerator::new();
    for _ in 0..1000 {
        let num = rng.range(10..20);
        assert!((10..20).contains(&num));
    }
}

#[test]
fn random_locking_test_seeded_reproducibility() {
    let mut rng1 = RandomNumberGenerator::seeded(42);
    let mut rng2 = RandomNumberGenerator::seeded(42);

    for _ in 0..1000 {
        assert_eq!(
            rng1.range(u32::MIN..u32::MAX),
            rng2.range(u32::MIN..u32::MAX)
        );
    }
}

#[test]
fn one_value_range_gives_that_value() {
    let mut rng = RandomNumberGenerator::seeded(3);
    for _ in 0..100 {
        assert_eq!(rng.range(41..42), 41);
    }
}

#[test]
fn seeded_next_is_reproducible() {
    let mut a = RandomNumberGenerator::seeded(1);
    let mut b = RandomNumberGenerator::seeded(1);
    let xs: Vec<u32> = (0..50).map(|_| a.next()).collect();
    let ys: Vec<u32> = (0..50).map(|_| b.next()).collect();
    assert_eq!(xs, ys);
    // a draw that never varies would be no generator at all
    assert!(xs.iter().any(|&x| x != xs[0]));
}

#[test]
fn range_draws_spread_over_the_range() {
    let mut rng = RandomNumberGenerator::seeded(11);
    let mut seen = [false; 10];
    for _ in 0..1000 {
        let n = rng.range(0..10);
        seen[n as usize] = true;
    }
    assert!(seen.iter().all(|&s| s));
}
