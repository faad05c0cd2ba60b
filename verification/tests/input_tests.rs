use raytracer::input::{CameraMove, Controls, Key};

#[test]
fn new_controls_hold_nothing() {
    let mut c = Controls::new();
    let (moves, refresh) = c.process_camera_movement();
    assert!(moves.is_empty());
    assert!(!refresh);
}

#[test]
fn held_keys_move_in_fixed_order() {
    let mut c = Controls::new();
    c.keyboard_input(Some(Key::E), true);
    c.keyboard_input(Some(Key::D), true);
    c.keyboard_input(Some(Key::W), true);
    let (moves, refresh) = c.process_camera_movement();
    assert_eq!(moves, vec![CameraMove::Forward, CameraMove::Right, CameraMove::Up]);
    assert!(refresh);
    assert!(!c.camera_dirty);
}

#[test]
fn all_six_keys() {
    let mut c = Controls::new();
    for k in [Key::W, Key::A, Key::S, Key::D, Key::Q, Key::E] {
        c.keyboard_input(Some(k), true);
    }
    let (moves, _) = c.process_camera_movement();
    assert_eq!(
        moves,
        vec![
            CameraMove::Forward,
            CameraMove::Backward,
            CameraMove::Left,
            CameraMove::Right,
            CameraMove::Down,
            CameraMove::Up
        ]
    );
}

#[test]
fn released_key_stops_moving() {
    let mut c = Controls::new();
    c.keyboard_input(Some(Key::S), true);
    c.keyboard_input(Some(Key::S), false);
    let (moves, refresh) = c.process_camera_movement();
    assert!(moves.is_empty());
    assert!(!refresh);
}

#[test]
fn other_keys_are_ignored() {
    let mut c = Controls::new();
    c.keyboard_input(Some(Key::Other), true);
    c.keyboard_input(None, true);
    assert_eq!(c, Controls::new());
}

#[test]
fn right_drag_orbits_from_the_second_move() {
    let mut c = Controls::new();
    assert!(!c.cursor_moved());
    c.mouse_input(true, true);
    assert!(!c.cursor_moved());
    assert!(c.cursor_moved());
    let (moves, refresh) = c.process_camera_movement();
    assert!(moves.is_empty());
    assert!(refresh);
    let (_, refresh) = c.process_camera_movement();
    assert!(!refresh);
    c.mouse_input(true, false);
    assert!(!c.tracking);
    assert!(!c.cursor_moved());
}

#[test]
fn left_button_does_nothing() {
    let mut c = Controls::new();
    c.mouse_input(false, true);
    assert!(!c.right_mouse_down);
    assert!(!c.cursor_moved());
}
