use panoloom::engine::{
    check_lists, check_rotation, drop_alpha, picture_from, Engine, EngineError,
};

type Session = Engine<u8, u16, i32>;

#[test]
fn images_come_and_go() {
    let mut e: Session = Engine::new();
    e.add_image(7, &[1, 2, 3, 255, 4, 5, 6, 0], 2, 1, None).unwrap();
    assert_eq!(e.image_count(), 1);
    assert_eq!(e.find(7), Some(0));
    assert_eq!(e.find(8), None);
    let err = e.add_image(7, &[0; 4], 1, 1, None).unwrap_err();
    assert_eq!(err, EngineError::DuplicateId);
    assert_eq!(err.message(), "duplicate image id");
    let err = e.add_image(8, &[0; 4], 2, 1, None).unwrap_err();
    assert_eq!(err, EngineError::BufferMismatch);
    assert_eq!(err.message(), "rgba buffer does not match dimensions");
    let err = e.add_image(8, &[0; 4], 1, 1, Some(vec![1, 2])).unwrap_err();
    assert_eq!(err, EngineError::PriorLength);
    assert_eq!(err.message(), "pose_prior must have 3 elements");
    e.add_image(8, &[0; 4], 1, 1, Some(vec![1, 2, 3])).unwrap();
    e.remove_image(7);
    assert_eq!(e.image_count(), 1);
    assert_eq!(e.find(8), Some(0));
    e.clear();
    assert_eq!(e.image_count(), 0);
}

#[test]
fn masks_fit_their_images() {
    let mut e: Session = Engine::new();
    e.add_image(7, &[0; 8], 2, 1, None).unwrap();
    let err = e.set_mask(8, &[0; 2], 2, 1).unwrap_err();
    assert_eq!(err.message(), "unknown image id");
    let err = e.set_mask(7, &[0; 2], 1, 2).unwrap_err();
    assert_eq!(err.message(), "mask dimensions must match the image");
    let err = e.set_mask(7, &[0; 3], 2, 1).unwrap_err();
    assert_eq!(err.message(), "mask buffer does not match dimensions");
    e.set_mask(7, &[0, 255], 2, 1).unwrap();
    assert_eq!(e.mask_count(), 1);
    assert_eq!(e.mask_of(7).unwrap().data, vec![0, 255]);
    e.clear_mask(7);
    assert_eq!(e.mask_count(), 0);
    assert!(e.mask_of(7).is_none());
}

#[test]
fn alignments_and_exports_take_turns() {
    let mut e: Session = Engine::new();
    assert_eq!(e.aligned().unwrap_err().message(), "align() has not succeeded yet");
    assert_eq!(e.take_exporter().unwrap_err().message(), "no export in progress");
    e.set_alignment(3);
    assert_eq!(*e.aligned().unwrap(), 3);
    e.set_exporter(12);
    assert_eq!(e.take_exporter().unwrap(), 12);
    assert!(e.take_exporter().is_err());
    e.set_exporter(13);
    e.cancel_export();
    assert!(e.take_exporter().is_err());
}

#[test]
fn a_new_image_undoes_the_alignment() {
    let mut e: Session = Engine::new();
    e.set_alignment(3);
    e.add_image(7, &[0; 4], 1, 1, None).unwrap();
    assert!(e.aligned().is_err());
}

#[test]
fn a_project_needs_its_images() {
    let mut e: Session = Engine::new();
    e.add_image(7, &[0; 4], 1, 1, None).unwrap();
    assert_eq!(e.check_loaded(&[7]), Ok(()));
    let err = e.check_loaded(&[7, 19, 20]).unwrap_err();
    assert_eq!(err, EngineError::NotLoaded(19));
    assert_eq!(err.message(), "project image id 19 has not been loaded");
}

#[test]
fn lists_and_rotations_have_their_lengths() {
    assert_eq!(check_lists(2, 2, 2), Ok(()));
    assert_eq!(
        check_lists(2, 3, 2).unwrap_err().message(),
        "ids/widths/heights length mismatch"
    );
    assert!(check_lists(2, 2, 1).is_err());
    assert_eq!(check_rotation(9), Ok(()));
    assert_eq!(
        check_rotation(8).unwrap_err().message(),
        "rotation must have 9 elements"
    );
}

#[test]
fn alpha_is_dropped() {
    assert_eq!(drop_alpha(&[1, 2, 3, 4, 5, 6, 7, 8]), vec![1, 2, 3, 5, 6, 7]);
    let p = picture_from(&[1, 2, 3, 4], 1, 1).unwrap();
    assert_eq!((p.width, p.height, p.channels), (1, 1, 3));
    assert_eq!(p.data, vec![1, 2, 3]);
    assert!(picture_from(&[1, 2, 3], 1, 1).is_err());
}
