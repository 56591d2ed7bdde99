use std::collections::HashSet;

use image_segmenter::types::{can_segment, region_at, toggle_selection, LengthEntry, Mode, Unit};

#[test]
fn calibration_clicks_record_both_endpoints() {
    let m: Mode<(i32, i32)> = Mode::CalibP1;
    assert!(m.accepts_clicks());
    let (m, msg) = m.after_click((1, 2));
    assert_eq!(m, Mode::CalibP2 { p1: (1, 2) });
    assert_eq!(msg, Some("Now click the second endpoint."));
    let (m, msg) = m.after_click((3, 4));
    assert_eq!(m, Mode::CalibLen { p1: (1, 2), p2: (3, 4) });
    assert_eq!(msg, Some("Enter the length of this line in the toolbar above."));
    assert!(!m.accepts_clicks());
    let (m2, msg) = m.after_click((5, 6));
    assert_eq!(m2, m);
    assert_eq!(msg, None);
}

#[test]
fn clicks_outside_calibration_change_nothing() {
    for m in [Mode::<(i32, i32)>::Idle, Mode::Ready, Mode::Segmented] {
        assert_eq!(m.after_click((9, 9)), (m, None));
    }
    assert!(Mode::<(i32, i32)>::Segmented.accepts_clicks());
    assert!(!Mode::<(i32, i32)>::Ready.accepts_clicks());
}

#[test]
fn segmenting_needs_image_scale_and_no_calibration() {
    let ready: Mode<(i32, i32)> = Mode::Ready;
    assert!(can_segment(true, true, &ready));
    assert!(!can_segment(false, true, &ready));
    assert!(!can_segment(true, false, &ready));
    assert!(!can_segment(true, true, &Mode::<(i32, i32)>::CalibP1));
    assert!(!can_segment(true, true, &Mode::CalibLen { p1: (0, 0), p2: (1, 1) }));
    assert!(can_segment(true, true, &Mode::<(i32, i32)>::Segmented));
    assert!(Mode::CalibP2 { p1: (0, 0) }.is_calibrating());
    assert!(!Mode::<(i32, i32)>::Idle.is_calibrating());
}

#[test]
fn units() {
    assert_eq!(Unit::Cm2.label(), "cm²");
    assert_eq!(Unit::Mm2.label(), "mm²");
    assert_eq!(Unit::Cm2.factor(), 1);
    assert_eq!(Unit::Mm2.factor(), 100);
}

#[test]
fn toggling_a_region_twice_restores_the_selection() {
    let mut sel: HashSet<usize> = [2].into_iter().collect();
    assert!(toggle_selection(&mut sel, 5));
    assert!(sel.contains(&5) && sel.contains(&2));
    assert!(toggle_selection(&mut sel, 5));
    assert_eq!(sel, [2].into_iter().collect());
    assert!(toggle_selection(&mut sel, 2));
    assert!(sel.is_empty());
    assert!(!toggle_selection(&mut sel, -1));
    assert!(sel.is_empty());
}

#[test]
fn region_lookup() {
    let labels = vec![0, 1, -1, 2, 2, 0];
    assert_eq!(region_at(&labels, 3, 1, 0), Some(1));
    assert_eq!(region_at(&labels, 3, 2, 0), Some(-1));
    assert_eq!(region_at(&labels, 3, 0, 1), Some(2));
    assert_eq!(region_at(&labels, 3, 0, 2), None);
}

#[test]
fn set_scale_starts_a_calibration_only_with_an_image() {
    let ready: Mode<(i32, i32)> = Mode::Ready;
    assert_eq!(
        ready.start_calibration(true),
        (Mode::CalibP1, Some("Click the first endpoint of your reference line."))
    );
    assert_eq!(ready.start_calibration(false), (Mode::Ready, None));
    let seg: Mode<(i32, i32)> = Mode::Segmented;
    assert_eq!(seg.start_calibration(true).0, Mode::CalibP1);
    let busy = Mode::CalibP2 { p1: (1, 1) };
    assert_eq!(busy.start_calibration(true), (busy, None));
}

#[test]
fn cancel_abandons_the_calibration() {
    assert_eq!(Mode::<(i32, i32)>::CalibP1.cancel_calibration(), (Mode::Ready, false));
    assert_eq!(Mode::CalibP2 { p1: (1, 2) }.cancel_calibration(), (Mode::Ready, false));
    assert_eq!(Mode::CalibLen { p1: (1, 2), p2: (3, 4) }.cancel_calibration(), (Mode::Ready, true));
    assert_eq!(Mode::<(i32, i32)>::Segmented.cancel_calibration(), (Mode::Segmented, false));
}

#[test]
fn confirm_accepts_only_a_positive_length() {
    let m = Mode::CalibLen { p1: (1, 2), p2: (3, 4) };
    assert_eq!(m.confirm_length(LengthEntry::Positive), (Mode::Ready, None));
    assert_eq!(m.confirm_length(LengthEntry::NotPositive), (m, Some("Length must be > 0.")));
    assert_eq!(m.confirm_length(LengthEntry::NotANumber), (m, Some("Enter a valid decimal number.")));
    let r: Mode<(i32, i32)> = Mode::Ready;
    assert_eq!(r.confirm_length(LengthEntry::Positive), (Mode::Ready, None));
}

#[test]
fn a_whole_calibration_returns_to_ready() {
    let (m, _) = Mode::<(i32, i32)>::Ready.start_calibration(true);
    let (m, _) = m.after_click((0, 0));
    let (m, _) = m.after_click((5, 0));
    let (m, msg) = m.confirm_length(LengthEntry::NotANumber);
    assert_eq!(m, Mode::CalibLen { p1: (0, 0), p2: (5, 0) });
    assert!(msg.is_some());
    let (m, msg) = m.confirm_length(LengthEntry::Positive);
    assert_eq!((m, msg), (Mode::Ready, None));
}
