use wireframe::controls::{palette, FrameInput, ViewState};

fn input() -> FrameInput {
    FrameInput { zoom_in: false, zoom_out: false, next_background: false, next_object: false, toggle_auto_rotate: false }
}

#[test]
fn initial_view() {
    let v = ViewState::initial();
    assert_eq!(v.distance, 80);
    assert!(v.auto_rotate);
    assert_eq!(v.object_rgb(), 0x000000);
    assert_eq!(v.background_rgb(), 0xFFFFFFFF);
}

#[test]
fn zoom_in_stops_at_minimum() {
    let mut v = ViewState::initial();
    let i = FrameInput { zoom_in: true, ..input() };
    for _ in 0..100 {
        v.update(&i);
    }
    assert_eq!(v.distance, 1);
    v.update(&FrameInput { zoom_out: true, ..input() });
    assert_eq!(v.distance, 2);
}

#[test]
fn colors_cycle_through_palette() {
    let mut v = ViewState::initial();
    let i = FrameInput { next_background: true, next_object: true, ..input() };
    v.update(&i);
    assert_eq!(v.background_rgb(), 0xFF0000);
    assert_eq!(v.object_rgb(), 0xFFFFFFFF);
    for _ in 0..4 {
        v.update(&i);
    }
    assert_eq!(v.background_color, 1);
    assert_eq!(v.object_color, 0);
    assert_eq!(palette(3), 0x00FF00);
    assert_eq!(palette(4), 0x0000FF);
}

#[test]
fn auto_rotate_toggles() {
    let mut v = ViewState::initial();
    let i = FrameInput { toggle_auto_rotate: true, ..input() };
    v.update(&i);
    assert!(!v.auto_rotate);
    v.update(&i);
    assert!(v.auto_rotate);
}
