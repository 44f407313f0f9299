use carved_rust::ffi_types::BadOption;
use carved_rust::mouse::MousePositionController;

#[test]
fn bad_option_flags_presence() {
    let some = BadOption::new(Some(5u32), 0);
    assert_eq!((some.is_some, some.value), (1, 5));
    let none = BadOption::new(None, 7u32);
    assert_eq!((none.is_some, none.value), (0, 7));
}

#[test]
fn mouse_drag_starts_at_current_position() {
    let mut m = MousePositionController::new();
    assert!(!m.is_dragging());
    m.update_position_mut((3, 4));
    m.update_drag_position_mut(true);
    assert!(m.is_dragging());
    assert_eq!(m.drag_start_position, Some((3, 4)));
    m.update_position_mut((10, -2));
    assert_eq!(m.drag_start_position, Some((3, 4)));
    m.update_drag_position_mut(false);
    assert!(!m.is_dragging());
}
