use panoloom::rng::CvRng;

#[test]
fn next_seed_u64_max() {
    let mut rng = CvRng::new(u64::MAX);
    let expected: [u32; 10] = [
        130063605, 3133359004, 2578348940, 925327173, 1080261831, 2946015512, 94037301, 2298661280,
        300167573, 43921110,
    ];
    for &e in &expected {
        assert_eq!(rng.next(), e);
    }
}

#[test]
fn next_seed_12345() {
    let mut rng = CvRng::new(12345);
    let expected: [u32; 10] = [
        682552634, 3453542663, 967509983, 607624631, 1008657709, 1829188414, 4054305612,
        1704611215, 747419472, 664386699,
    ];
    for &e in &expected {
        assert_eq!(rng.next(), e);
    }
}

#[test]
fn zero_seed_becomes_0xffffffff() {
    let mut rng = CvRng::new(0);
    let expected: [u32; 10] = [
        130063606, 3003295397, 3870020839, 1350273629, 4024955497, 3216027310, 1172977286,
        1125683993, 3469450876, 869437529,
    ];
    for &e in &expected {
        assert_eq!(rng.next(), e);
    }
    assert_eq!(CvRng::new(0), CvRng::new(0xffff_ffff));
}

#[test]
fn state_trace_validates_carry_form() {
    let mut rng = CvRng::new(u64::MAX);
    let expected: [u64; 4] = [
        17888125139669785845,
        541702392564106140,
        13050138477980449676,
        10738575017352060741,
    ];
    for &e in &expected {
        rng.next();
        assert_eq!(rng.state(), e);
    }
}

#[test]
fn uniform_int_0_50() {
    let mut rng = CvRng::new(u64::MAX);
    let expected: [i32; 16] = [5, 4, 40, 23, 31, 12, 1, 30, 23, 10, 35, 44, 46, 49, 18, 3];
    for &e in &expected {
        assert_eq!(rng.uniform_int(0, 50), e);
    }
}

#[test]
fn uniform_int_negative_range() {
    let mut rng = CvRng::new(u64::MAX);
    let expected: [i32; 16] = [-5, -6, -10, 3, 1, 2, -9, -10, 3, 0, -5, 4, -4, -1, 8, -7];
    for &e in &expected {
        assert_eq!(rng.uniform_int(-10, 10), e);
    }
}

#[test]
fn uniform_int_degenerate_range() {
    let mut rng = CvRng::new(u64::MAX);
    for _ in 0..4 {
        assert_eq!(rng.uniform_int(5, 5), 5);
    }
    assert_eq!(rng.state(), u64::MAX);
}

#[test]
fn the_state_stays_alive() {
    let mut rng = CvRng::new(1);
    for _ in 0..1000 {
        rng.next();
        assert_ne!(rng.state(), 0);
    }
}

#[test]
fn a_reversed_range_is_taken_modulo_the_word_size() {
    let mut rng = CvRng::new(12345);
    let mut same = CvRng::new(12345);
    let word = same.next();
    let span = (0i32.wrapping_sub(50)) as u32;
    assert_eq!(rng.uniform_int(50, 0), ((word % span) as i32).wrapping_add(50));
}

#[test]
fn the_widest_range_is_covered() {
    let mut rng = CvRng::new(u64::MAX);
    let mut same = CvRng::new(u64::MAX);
    let word = same.next();
    assert_eq!(
        rng.uniform_int(i32::MIN, i32::MAX),
        ((word % u32::MAX) as i64 + i32::MIN as i64) as i32
    );
}
