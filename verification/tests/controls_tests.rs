use scop::controls::{Axis, Controls, Key, RedrawPlan};

#[test]
fn q_switches_the_texture() {
    let mut c = Controls::new();
    assert!(!c.textured);
    assert!(!c.on_key(Key::Q, true, false));
    assert!(c.textured);
    c.on_key(Key::Q, true, true);
    assert!(c.textured);
    c.on_key(Key::Q, false, false);
    assert!(c.textured);
    c.on_key(Key::Q, true, false);
    assert!(!c.textured);
}

#[test]
fn t_switches_cycling_and_resets_colours_when_it_stops() {
    let mut c = Controls::new();
    assert!(!c.on_key(Key::T, true, false));
    assert!(c.cycling);
    assert!(c.on_key(Key::T, true, false));
    assert!(!c.cycling);
    assert!(!c.on_key(Key::T, true, true));
}

#[test]
fn the_last_event_is_remembered() {
    let mut c = Controls::new();
    c.on_key(Key::Other, true, false);
    assert_eq!((c.key, c.pressed, c.repeat), (Key::Other, true, false));
    assert!(c.is_fresh_press(Key::Other));
    c.on_key(Key::W, true, true);
    assert!(!c.is_fresh_press(Key::W));
}

#[test]
fn redraws_start_turns_and_reversal() {
    let mut c = Controls::new();
    assert_eq!(c.on_redraw(), RedrawPlan { reverse: false, turn: None });
    c.on_key(Key::E, true, false);
    assert_eq!(c.on_redraw(), RedrawPlan { reverse: false, turn: Some(Axis::Y) });
    assert_eq!(c.turning, Some(Axis::Y));
    c.on_key(Key::E, false, false);
    assert_eq!(c.on_redraw(), RedrawPlan { reverse: false, turn: None });
    assert_eq!(c.turning, Some(Axis::Y));
    c.finish_turn();
    assert_eq!(c.turning, None);
    c.on_key(Key::Y, true, false);
    assert_eq!(c.on_redraw(), RedrawPlan { reverse: true, turn: None });
    c.on_key(Key::R, true, false);
    assert_eq!(c.on_redraw().turn, Some(Axis::Z));
    c.on_key(Key::W, true, false);
    assert_eq!(c.on_redraw().turn, Some(Axis::X));
    assert_eq!(c.turning, Some(Axis::X));
}
