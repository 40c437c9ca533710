use gridis::control::AppState;
use gridis::control::Message;
use gridis::control::Operation;
use gridis::geom::Rect;
use gridis::geom::WindowHandle;
use gridis::geom::rect_to_pos;

#[test]
fn new_state_shows_gui_and_has_no_snapshot() {
    let s = AppState::new(vec![WindowHandle { id: 1 }]);
    assert!(s.show_gui);
    assert!(s.snapshot.is_empty());
    assert_eq!(s.windows, vec![WindowHandle { id: 1 }]);
}

#[test]
fn toggle_flips_visibility_and_runs_nothing() {
    let mut s = AppState::new(Vec::new());
    assert_eq!(s.update(Message::ToggleGui), None);
    assert!(!s.show_gui);
    assert_eq!(s.update(Message::ToggleGui), None);
    assert!(s.show_gui);
}

#[test]
fn layout_selection_is_inert() {
    let mut s = AppState::new(Vec::new());
    assert_eq!(s.update(Message::LayoutSelected(3)), None);
    assert!(s.show_gui);
}

#[test]
fn triggers_map_to_their_operations() {
    let mut s = AppState::new(Vec::new());
    assert_eq!(s.update(Message::ArrangeWindows), Some(Operation::Arrange));
    assert_eq!(s.update(Message::SwapMonitors), Some(Operation::Swap));
    assert_eq!(s.update(Message::Undo), Some(Operation::Undo));
}

#[test]
fn storing_a_snapshot_discards_the_previous_one() {
    let mut s = AppState::new(Vec::new());
    let h = WindowHandle { id: 9 };
    let first = vec![(h, Rect { left: 0, top: 0, right: 10, bottom: 10 })];
    let second = vec![(h, Rect { left: 1, top: 1, right: 11, bottom: 11 })];
    s.store_snapshot(first);
    s.store_snapshot(second.clone());
    assert_eq!(s.snapshot, second);
}

#[test]
fn rect_to_pos_yields_origin_and_size() {
    let r = Rect { left: 10, top: -20, right: 110, bottom: 40 };
    assert_eq!(rect_to_pos(&r), (10, -20, 100, 60));
}
