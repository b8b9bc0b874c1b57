use panoloom::matcher::{
    best_of_2_nearest_raw, hamming, match_confidence, two_nn, PairMatches, Ratio, RawMatch,
};

#[test]
fn hamming_distance_works() {
    let a = [0u8; 32];
    let mut b = [0u8; 32];
    b[0] = 0xFF;
    b[31] = 0x0F;
    assert_eq!(hamming(&a, &b), 12);
    assert_eq!(hamming(&a, &a), 0);
}

#[test]
fn ratio_test_rejects_ambiguous() {
    let mut t0 = [0u8; 32];
    let mut t1 = [0u8; 32];
    t0[0] = 0b1;
    t1[0] = 0b10;
    let q = [0u8; 32];
    let m = best_of_2_nearest_raw(&[q], &[t0, t1]);
    assert!(m.is_empty());
}

#[test]
fn reverse_direction_adds_swapped() {
    let mut a0 = [0u8; 32];
    a0[0] = 0xF0;
    let far = [0xFFu8; 32];
    let b0 = a0;
    let m = best_of_2_nearest_raw(&[a0, far], &[b0, [0u8; 32]]);
    assert!(m.iter().any(|m| m.query == 0 && m.train == 0));
    // No duplicates.
    let mut pairs: Vec<_> = m.iter().map(|m| (m.query, m.train)).collect();
    pairs.sort_unstable();
    pairs.dedup();
    assert_eq!(pairs.len(), m.len());
}

#[test]
fn confidence_formula() {
    let c = match_confidence(55, 55);
    assert!((c.num as f64 / c.den as f64 - 55.0 / (8.0 + 16.5)).abs() < 1e-12);
    // Too-perfect match is zeroed (near-duplicate rejection).
    let c = match_confidence(100, 10);
    assert_eq!(c.num as f64 / c.den as f64, 0.0);
}

#[test]
fn confidence_is_zero_just_above_three() {
    // 8n > 240 + 9m counts as a near duplicate.
    let c = match_confidence(240, 240);
    assert_eq!(c.num as f64 / c.den as f64, 3.0);
    let c = match_confidence(241, 240);
    assert_eq!(c.num, 0);
    let c = match_confidence(0, 0);
    assert_eq!(c.num, 0);
}

#[test]
fn distance_is_symmetric() {
    let mut a = [3u8; 32];
    a[5] = 0xAA;
    let mut b = [7u8; 32];
    b[9] = 0x55;
    assert_eq!(hamming(&a, &b), hamming(&b, &a));
    assert_eq!(hamming(&[0u8; 32], &[0xFFu8; 32]), 256);
}

#[test]
fn two_neighbours_take_two_candidates() {
    let q = [0u8; 32];
    let mut t1 = [0u8; 32];
    t1[0] = 1;
    let mut t3 = [0u8; 32];
    t3[0] = 7;
    assert!(two_nn(&q, &[]).is_none());
    assert!(two_nn(&q, &[t1]).is_none());
    assert_eq!(two_nn(&q, &[t3, t1]), Some((1, 1, 3)));
    // Of equally near candidates the first is the nearest.
    assert_eq!(two_nn(&q, &[t1, t1, t3]), Some((0, 1, 1)));
}

#[test]
fn the_ratio_is_strict_at_seven_tenths() {
    // 7 against 10 is ambiguous, 6 against 10 is not.
    let q = [0u8; 32];
    let with_bits = |n: usize| {
        let mut d = [0u8; 32];
        for i in 0..n {
            d[i / 8] |= 1 << (i % 8);
        }
        d
    };
    assert!(best_of_2_nearest_raw(&[q], &[with_bits(7), with_bits(10)]).is_empty());
    let m = best_of_2_nearest_raw(&[q], &[with_bits(6), with_bits(10)]);
    assert_eq!(m.len(), 1);
    assert_eq!((m[0].query, m[0].train, m[0].distance), (0, 0, 6));
}

fn raw(n: usize) -> Vec<RawMatch> {
    (0..n)
        .map(|i| RawMatch {
            query: i,
            train: i,
            distance: 1,
        })
        .collect()
}

#[test]
fn a_pair_counts_its_inliers() {
    let p = PairMatches::new(raw(4), Some(vec![true, false, true, true]));
    assert!(p.has_h);
    assert_eq!(p.num_inliers, 3);
    assert_eq!(p.inlier_indices(), vec![0, 2, 3]);
    // 3 / (8 + 0.3 * 4)
    assert_eq!((p.confidence.num, p.confidence.den), (30, 92));
    assert!(!p.wants_refit());
    let p = PairMatches::new(raw(6), Some(vec![true; 6]));
    assert!(p.wants_refit());
    let p = PairMatches::new(raw(6), None);
    assert!(!p.has_h);
    assert_eq!(p.num_inliers, 0);
    assert_eq!(p.confidence.num, 0);
}

#[test]
fn six_matches_are_worth_a_homography() {
    assert!(!PairMatches::wants_homography(5));
    assert!(PairMatches::wants_homography(6));
    let p = PairMatches::empty();
    assert!(p.matches.is_empty() && p.inliers.is_empty() && !p.has_h);
}

#[test]
fn ratios_compare_across_denominators() {
    let third = Ratio { num: 1, den: 3 };
    let half = Ratio { num: 2, den: 4 };
    assert!(third.less(&half));
    assert!(!half.less(&third));
    assert!(!half.less(&Ratio { num: 1, den: 2 }));
    assert!(Ratio::zero().less(&third));
}
