use sphere_patch::session::{Action, InputEvent, Session, Slot, REPORT_FRAME};

#[test]
fn new_session_selects_first_endpoint() {
    let s = Session::new();
    assert_eq!(s.selection, Slot::A);
    assert_eq!(s.frames, 0);
}

#[test]
fn digit_keys_switch_the_endpoint_under_edit() {
    let mut s = Session::new();
    assert_eq!(s.handle(InputEvent::SelectSecond), Action::Nothing);
    assert_eq!(s.selection, Slot::B);
    assert_eq!(s.handle(InputEvent::Other), Action::Nothing);
    assert_eq!(s.selection, Slot::B);
    assert_eq!(s.handle(InputEvent::SelectFirst), Action::Nothing);
    assert_eq!(s.selection, Slot::A);
}

#[test]
fn quit_and_escape_stop_the_loop() {
    let mut s = Session::new();
    assert_eq!(s.handle(InputEvent::Quit), Action::Stop);
    assert_eq!(s.handle(InputEvent::Escape), Action::Stop);
    assert_eq!(s.selection, Slot::A);
}

#[test]
fn scan_and_debug_keys_ask_for_their_actions() {
    let mut s = Session::new();
    s.handle(InputEvent::SelectSecond);
    assert_eq!(s.handle(InputEvent::Scan), Action::FullScan);
    assert_eq!(s.handle(InputEvent::Debug), Action::DebugLine);
    assert_eq!(s.selection, Slot::B);
    assert_eq!(s.frames, 0);
}

#[test]
fn timing_is_reported_once_at_the_report_frame() {
    let mut s = Session::new();
    let mut reports = 0;
    let mut at = 0;
    for _ in 0..(REPORT_FRAME + 50) {
        if s.end_frame() {
            reports += 1;
            at = s.frames;
        }
    }
    assert_eq!(reports, 1);
    assert_eq!(at, 10000);
    assert_eq!(s.frames, 10050);
}

#[test]
fn frame_count_saturates() {
    let mut s = Session { selection: Slot::B, frames: u64::MAX };
    assert!(!s.end_frame());
    assert_eq!(s.frames, u64::MAX);
    assert_eq!(s.selection, Slot::B);
}
