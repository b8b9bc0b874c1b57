use panoloom::bundle::{consistent_pairs, LevMarq, LmState, MAX_COUNT};
use panoloom::cp::{grid_cell, is_candidate, pick_spread};
use panoloom::estimation::MatchGraph;
use panoloom::ids::find_id;
use panoloom::imgproc::GrayImage;
use panoloom::matcher::{PairMatches, Ratio};
use panoloom::optimizer::{
    join_images, layout_params, NextTrial, OptimizeError, OptimizeFlags, Rounds, Trial,
};
use panoloom::pipeline::{
    all_pairs, check_count, check_sources, choose_kept, keep_images, rescue_dropped, show_preview,
    PipelineError,
};
use panoloom::ransac::{approach, count_inliers, Approach, NoSample, Sample, Search};

fn pair(num_inliers: usize, confidence: Ratio) -> PairMatches {
    PairMatches {
        matches: Vec::new(),
        inliers: Vec::new(),
        num_inliers,
        has_h: true,
        confidence,
    }
}

fn graph(n: usize, edges: &[(usize, usize, usize, Ratio)]) -> MatchGraph {
    let mut entries: Vec<PairMatches> = (0..n * n).map(|_| PairMatches::empty()).collect();
    for &(i, j, ni, conf) in edges {
        entries[i * n + j] = pair(ni, conf);
        entries[j * n + i] = pair(ni, conf);
    }
    MatchGraph { n, entries }
}

#[test]
fn ids_are_found_at_their_first_place() {
    assert_eq!(find_id(&[4, 7, 4], 4), Some(0));
    assert_eq!(find_id(&[4, 7, 4], 7), Some(1));
    assert_eq!(find_id(&[4, 7, 4], 9), None);
}

#[test]
fn aligning_takes_two_images_that_overlap() {
    assert_eq!(check_count(1), Err(PipelineError::TooFewImages));
    assert_eq!(check_count(2), Ok(()));
    assert_eq!(check_sources(3, 2), Err(PipelineError::SourcesMismatch));
    assert_eq!(check_sources(2, 2), Ok(()));
    assert_eq!(PipelineError::TooFewImages.message(), "need at least two images");
    assert_eq!(PipelineError::NoOverlap.message(), "images do not overlap enough to align");
    assert_eq!(PipelineError::AdjustmentFailed.message(), "bundle adjustment failed");
    assert_eq!(PipelineError::SourcesMismatch.message(), "sources/alignment mismatch");
    let apart = graph(2, &[(0, 1, 9, Ratio { num: 1, den: 2 })]);
    assert!(matches!(choose_kept(&apart, &[5, 6]), Err(PipelineError::NoOverlap)));
}

#[test]
fn what_does_not_hang_together_is_dropped() {
    let g = graph(4, &[(0, 2, 9, Ratio { num: 2, den: 1 }), (2, 3, 8, Ratio { num: 3, den: 2 })]);
    let (kept, dropped) = choose_kept(&g, &[10, 20, 30, 40]).unwrap();
    assert_eq!(kept, vec![0, 2, 3]);
    assert_eq!(dropped, vec![20]);
    let sub = keep_images(g, &kept);
    assert_eq!(sub.n, 3);
    assert_eq!(sub.at(0, 1).num_inliers, 9);
    assert_eq!(sub.at(2, 1).num_inliers, 8);
    assert!(!sub.at(0, 2).has_h);
}

#[test]
fn dropped_images_with_a_pose_are_rescued() {
    let ids = [10, 20, 30, 40];
    let posed = [true, true, false, true];
    // Image 20 has a pose, image 30 has none.
    let (back, gone) = rescue_dropped(&ids, &posed, &[20, 30], true);
    assert_eq!(back, vec![1]);
    assert_eq!(gone, vec![30]);
    // Without an anchor nobody is rescued.
    let (back, gone) = rescue_dropped(&ids, &posed, &[20, 30], false);
    assert!(back.is_empty());
    assert_eq!(gone, vec![20, 30]);
}

#[test]
fn every_image_ends_in_one_place() {
    let g = graph(5, &[(0, 2, 9, Ratio { num: 2, den: 1 }), (2, 3, 8, Ratio { num: 3, den: 2 })]);
    let ids = [10, 20, 30, 40, 50];
    let posed = [true, true, false, true, false];
    let (kept, dropped) = choose_kept(&g, &ids).unwrap();
    for anchored in [true, false] {
        let (back, gone) = rescue_dropped(&ids, &posed, &dropped, anchored);
        for (i, id) in ids.iter().enumerate() {
            let places = kept.iter().filter(|&&k| k == i).count()
                + back.iter().filter(|&&k| k == i).count()
                + gone.iter().filter(|&l| l == id).count();
            assert_eq!(places, 1);
        }
        assert!(back.iter().all(|&i| posed[i] && anchored));
    }
}

#[test]
fn pairs_are_listed_row_by_row() {
    assert!(all_pairs(0).is_empty());
    assert!(all_pairs(1).is_empty());
    assert_eq!(all_pairs(4), vec![(0, 1), (0, 2), (0, 3), (1, 2), (1, 3), (2, 3)]);
}

#[test]
fn a_preview_wraps_round_its_canvas() {
    // Two pixels, the second uncovered in the lower row; the strip starts in
    // the last column.
    let blended = [1, 2, 3, 4, 5, 6, 7, 8, 9, 10, 11, 12];
    let coverage = GrayImage::new(2, 2, vec![255, 255, 255, 0]);
    let p = show_preview(&blended, &coverage, 13, 1, 10, 4, 3);
    assert_eq!((p.width, p.height), (4, 3));
    let px = |x: usize, y: usize| p.rgba[(y * 4 + x) * 4..(y * 4 + x) * 4 + 4].to_vec();
    assert_eq!(px(3, 1), vec![1, 2, 3, 255]);
    assert_eq!(px(0, 1), vec![4, 5, 6, 255]);
    assert_eq!(px(3, 2), vec![7, 8, 9, 255]);
    assert_eq!(px(0, 2), vec![0, 0, 0, 0]);
    assert_eq!(px(3, 0), vec![0, 0, 0, 0]);
}

#[test]
fn where_a_strip_laps_itself_the_last_column_shows() {
    let blended = [1, 1, 1, 2, 2, 2, 3, 3, 3];
    let coverage = GrayImage::new(3, 1, vec![255, 255, 255]);
    let p = show_preview(&blended, &coverage, 0, 0, 0, 2, 1);
    assert_eq!(p.rgba, vec![3, 3, 3, 255, 2, 2, 2, 255]);
}

#[test]
fn four_points_fix_a_homography() {
    assert_eq!(approach(3, 3), Approach::Hopeless);
    assert_eq!(approach(5, 6), Approach::Hopeless);
    assert_eq!(approach(4, 4), Approach::Direct);
    assert_eq!(approach(5, 5), Approach::Sampling);
}

#[test]
fn a_sample_repeats_no_index() {
    let mut s = Sample::new();
    for i in [3, 5, 3, 1, 5] {
        s.offer(i);
    }
    assert!(!s.is_complete());
    s.offer(0);
    assert!(s.is_complete());
    assert_eq!(s.indices(), &[3, 5, 1, 0]);
}

#[test]
fn a_search_keeps_the_best_model() {
    let mut s = Search::new();
    assert_eq!(s.no_sample(), NoSample::Fail);
    assert!(!s.found());
    assert!(!s.improves(3));
    assert!(s.improves(4));
    s.accept(4, 2);
    s.advance();
    assert_eq!(s.no_sample(), NoSample::Stop);
    assert!(!s.improves(4));
    assert!(s.improves(5));
    assert!(s.goes_on());
    s.advance();
    assert!(!s.goes_on());
    assert!(s.found());
    assert_eq!(count_inliers(&[true, false, true]), 2);
}

#[test]
fn only_pairs_above_one_are_adjusted() {
    let g = graph(
        3,
        &[
            (0, 1, 9, Ratio { num: 2, den: 1 }),
            (0, 2, 9, Ratio { num: 1, den: 1 }),
            (1, 2, 9, Ratio { num: 11, den: 10 }),
        ],
    );
    assert_eq!(consistent_pairs(&g), vec![(0, 1), (1, 2)]);
}

#[test]
fn the_adjustment_damps_when_errors_grow() {
    let mut lm = LevMarq::new();
    let r = lm.update(false, false);
    assert!(r.proceed && r.want_jac && r.want_err && !r.step);
    let r = lm.update(false, false);
    assert!(r.proceed && !r.want_jac && r.form && r.step && r.keep_norm);
    let r = lm.update(true, false);
    assert!(r.step && !r.form);
    assert_eq!(lm.lambda_lg10, -2);
    let r = lm.update(false, false);
    assert!(r.want_jac && r.keep_norm);
    assert_eq!((lm.lambda_lg10, lm.iters), (-3, 1));
    lm.update(false, false);
    let r = lm.update(false, true);
    assert!(r.proceed && !r.want_err);
    assert_eq!(lm.state, LmState::Done);
    assert!(!lm.update(false, false).proceed);
}

#[test]
fn the_adjustment_ends_whatever_comes() {
    let mut lm = LevMarq::new();
    let mut updates = 0;
    while lm.state != LmState::Done {
        lm.update(true, false);
        updates += 1;
        assert!(updates < 100 * 1000 + 100);
    }
    assert_eq!(lm.iters, MAX_COUNT);
}

#[test]
fn control_points_name_their_images() {
    let aligned = [5, 6, 7, 8];
    let (used, ends) = join_images(&aligned, &[(7, 5), (5, 8)], &aligned).unwrap();
    assert_eq!(used, vec![2, 0, 3]);
    assert_eq!(ends, vec![(0, 1), (1, 2)]);
}

#[test]
fn control_points_can_be_refused() {
    let aligned = [5, 6, 7];
    let e = join_images(&aligned, &[], &aligned).unwrap_err();
    assert_eq!(e, OptimizeError::NoControlPoints);
    assert_eq!(e.message(), "no control points");
    let e = join_images(&aligned, &[(5, 6), (6, 40)], &aligned).unwrap_err();
    assert_eq!(e, OptimizeError::UnknownImage(40));
    assert_eq!(e.message(), "control point references unknown image 40");
    let e = join_images(&aligned, &[(5, 5)], &aligned).unwrap_err();
    assert_eq!(e, OptimizeError::TooFewImages);
    assert_eq!(e.message(), "control points must span at least two images");
    let e = join_images(&aligned, &[(5, 6)], &[5]).unwrap_err();
    assert_eq!(e, OptimizeError::MissingDimensions(6));
    assert_eq!(e.message(), "missing dimensions for image 6");
}

#[test]
fn parameters_follow_the_flags() {
    let flags = OptimizeFlags::default();
    assert!(flags.focal && flags.distortion && !flags.shift);
    let l = layout_params(3, 1, &flags);
    assert_eq!(l.rotations, vec![Some(0), None, Some(3)]);
    assert_eq!((l.focal, l.distortion, l.shift), (Some(6), Some(7), None));
    assert_eq!(l.total, 10);
    let all = OptimizeFlags {
        focal: false,
        distortion: false,
        shift: true,
    };
    let l = layout_params(2, 0, &all);
    assert_eq!(l.rotations, vec![None, Some(0)]);
    assert_eq!((l.focal, l.distortion, l.shift, l.total), (None, None, Some(3), 5));
}

#[test]
fn trials_and_rounds_are_bounded() {
    let mut r = Rounds::new();
    for _ in 0..11 {
        assert_eq!(r.trial(Trial::Worse), NextTrial::Retry);
    }
    assert_eq!(r.trial(Trial::Singular), NextTrial::Stop);
    let mut r = Rounds::new();
    for _ in 0..59 {
        assert_eq!(r.trial(Trial::Better { little: false }), NextTrial::NextRound);
    }
    assert_eq!(r.trial(Trial::Better { little: false }), NextTrial::Stop);
    let mut r = Rounds::new();
    assert_eq!(r.trial(Trial::Better { little: true }), NextTrial::Stop);
    assert_eq!(r.reported(false), 1);
    assert_eq!(r.reported(true), 60);
}

#[test]
fn control_points_spread_over_the_image() {
    assert_eq!(grid_cell(0, 0), 0);
    assert_eq!(grid_cell(5, 3), 23);
    assert_eq!(grid_cell(6, 9), 23);
    // Three matches in part 0, one in part 7: one from each part in turn,
    // the closest first.
    let spots = [(0, 30), (0, 10), (7, 99), (0, 10)];
    assert_eq!(pick_spread(&spots, 9), vec![1, 2, 3, 0]);
    assert_eq!(pick_spread(&spots, 2), vec![1, 2]);
    assert!(pick_spread(&[], 5).is_empty());
}

#[test]
fn a_sure_homography_gives_control_points() {
    assert!(is_candidate(&pair(9, Ratio { num: 1, den: 1 })));
    assert!(!is_candidate(&pair(9, Ratio { num: 99, den: 100 })));
    assert!(!is_candidate(&PairMatches::empty()));
}
