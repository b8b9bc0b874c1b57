use panoloom::project::{OptimizerSettings, PROJECT_FORMAT_VERSION};

#[test]
fn defaults_of_a_project() {
    assert_eq!(PROJECT_FORMAT_VERSION, 1);
    let s = OptimizerSettings::default();
    assert!(s.optimize_yaw_pitch_roll);
    assert!(!s.optimize_hfov && !s.optimize_distortion && !s.optimize_shift);
}
