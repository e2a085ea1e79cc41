use tiri_layout::input::scroll_swipe_gesture::{ScrollSwipeGesture, ScrollSwipeGestureAction};

#[test]
fn starts_on_first_non_zero_event() {
    let mut gesture = ScrollSwipeGesture::new();

    let action = gesture.update(0. == 0., 5. == 0.);
    assert_eq!(action, ScrollSwipeGestureAction::BeginUpdate);
    assert!(gesture.is_vertical());
}

#[test]
fn keeps_updating_until_zero_event() {
    let mut gesture = ScrollSwipeGesture::new();
    let _ = gesture.update(5. == 0., 0. == 0.);

    assert_eq!(gesture.update(4. == 0., 0. == 0.), ScrollSwipeGestureAction::Update);
    assert_eq!(gesture.update(0. == 0., 0. == 0.), ScrollSwipeGestureAction::End);
}

#[test]
fn reset_reports_whether_gesture_was_active() {
    let mut gesture = ScrollSwipeGesture::new();

    assert!(!gesture.reset());
    let _ = gesture.update(1. == 0., 0. == 0.);
    assert!(gesture.reset());
    assert!(!gesture.reset());
}

#[test]
fn horizontal_start_is_not_vertical() {
    let mut gesture = ScrollSwipeGesture::new();
    assert_eq!(gesture.update(false, true), ScrollSwipeGestureAction::BeginUpdate);
    assert!(!gesture.is_vertical());
    assert_eq!(gesture.update(true, false), ScrollSwipeGestureAction::Update);
    assert!(!gesture.is_vertical());
}

#[test]
fn actions_report_begin_and_end() {
    assert!(ScrollSwipeGestureAction::BeginUpdate.begin());
    assert!(!ScrollSwipeGestureAction::Update.begin());
    assert!(!ScrollSwipeGestureAction::End.begin());
    assert!(ScrollSwipeGestureAction::End.end());
    assert!(!ScrollSwipeGestureAction::BeginUpdate.end());
    assert!(!ScrollSwipeGestureAction::Update.end());
}

#[test]
fn default_gesture_is_idle() {
    let mut gesture = ScrollSwipeGesture::default();
    assert!(!gesture.is_vertical());
    assert!(!gesture.reset());
}
