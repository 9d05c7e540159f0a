use th420_display::config::Config;
use th420_display::editor::Editor;
use th420_display::layout::{LayoutPreset, StartPosition};
use th420_display::single::Single;

fn single(x: f32) -> Single {
    Single { bits: x.to_bits() }
}

fn base() -> Config {
    Config::with_cpu_label("CPU")
}

fn rotated(degrees: u32) -> Config {
    let mut c = base();
    c.rotation = single(degrees as f32);
    c
}

fn rotation(c: &Config) -> f32 {
    f32::from_bits(c.rotation.bits)
}

#[test]
fn changes_are_undone_and_redone() {
    let mut e = Editor::new(base());
    assert!(!e.is_dirty());
    let before = e.working.copy();
    e.working = rotated(90);
    e.capture_history(before, false);
    assert!(e.is_dirty());
    assert_eq!(e.undo.len(), 1);
    e.undo();
    assert_eq!(rotation(&e.working), 180.0);
    assert!(!e.is_dirty());
    assert_eq!((e.undo.len(), e.redo.len()), (0, 1));
    e.redo();
    assert_eq!(rotation(&e.working), 90.0);
    assert_eq!((e.undo.len(), e.redo.len()), (1, 0));
    e.redo();
    assert_eq!(rotation(&e.working), 90.0);
}

#[test]
fn history_skips_the_frame_after_an_undo() {
    let mut e = Editor::new(base());
    e.push_undo(rotated(1));
    e.undo();
    assert!(e.suppress_history_once);
    e.capture_history(base(), false);
    assert!(!e.suppress_history_once);
    assert!(e.undo.is_empty());
}

#[test]
fn drags_are_one_change() {
    let mut e = Editor::new(base());
    for degrees in [1, 2, 3] {
        let before = e.working.copy();
        e.working = rotated(degrees);
        e.capture_history(before, true);
        assert!(e.undo.is_empty());
    }
    let before = e.working.copy();
    e.capture_history(before, false);
    assert_eq!(e.undo.len(), 1);
    assert_eq!(rotation(&e.undo[0]), 180.0);
    assert!(e.pending_undo.is_none());
}

#[test]
fn history_is_bounded() {
    let mut e = Editor::new(base());
    for degrees in 0..100 {
        e.push_undo(rotated(degrees));
    }
    assert_eq!(e.undo.len(), 64);
    assert_eq!(rotation(&e.undo[0]), 36.0);
    assert_eq!(rotation(&e.undo[63]), 99.0);
}

#[test]
fn equal_states_are_not_recorded() {
    let mut e = Editor::new(base());
    e.push_undo(base());
    assert!(e.undo.is_empty());
    e.push_undo(rotated(5));
    e.push_undo(rotated(5));
    assert_eq!(e.undo.len(), 1);
}

#[test]
fn new_changes_drop_what_was_undone() {
    let mut e = Editor::new(base());
    e.push_undo(rotated(5));
    e.undo();
    assert_eq!(e.redo.len(), 1);
    e.push_undo(rotated(7));
    assert!(e.redo.is_empty());
}

#[test]
fn applying_and_reverting() {
    let mut e = Editor::new(base());
    e.push_undo(rotated(5));
    e.working = rotated(90);
    e.apply();
    assert!(!e.is_dirty());
    assert!(e.undo.is_empty() && e.redo.is_empty());
    assert_eq!(rotation(&e.committed), 90.0);
    e.working = rotated(10);
    e.revert();
    assert_eq!(rotation(&e.working), 90.0);
    assert!(e.suppress_history_once);
}

#[test]
fn resetting_and_replacing() {
    let mut e = Editor::new(rotated(90));
    e.select(Some("coolant"));
    e.reset_all("CPU");
    assert_eq!(rotation(&e.working), 180.0);
    assert_eq!(rotation(&e.committed), 90.0);
    assert_eq!(e.selected_sensor, None);
    e.select(Some("coolant"));
    assert_eq!(e.selected_sensor.as_deref(), Some("coolant"));
    e.replace(rotated(7));
    assert_eq!(rotation(&e.working), 7.0);
    assert_eq!(e.selected_sensor, None);
    e.select(Some("coolant"));
    e.select(None);
    assert_eq!(e.selected_sensor, None);
}

#[test]
fn editor_switches_to_a_custom_layout() {
    let mut e = Editor::new(base());
    let start = StartPosition {
        value_cx: single(0.5),
        value_cy: single(0.5),
        label_cx: single(0.5),
        label_cy: single(0.5),
        value_font_size: single(52.0),
        label_font_size: single(24.0),
    };
    e.ensure_custom_layout(&[start; 6]);
    assert_eq!(e.working.layout.preset, LayoutPreset::Custom);
    assert_eq!(e.working.layout.custom_slots.len(), 6);
    assert_eq!(e.committed.layout.preset, LayoutPreset::Classic);
}

#[test]
fn selected_reading_is_moved() {
    let mut e = Editor::new(base());
    let start = StartPosition {
        value_cx: single(0.5),
        value_cy: single(0.5),
        label_cx: single(0.5),
        label_cy: single(0.5),
        value_font_size: single(52.0),
        label_font_size: single(24.0),
    };
    e.move_selected(&[start; 6], single(48.0), single(0.0));
    assert_eq!(e.working.layout.preset, LayoutPreset::Classic);

    let id = e.working.enabled_sensor_ids()[1].clone();
    e.ensure_custom_layout(&[start; 6]);
    let before: Vec<f32> =
        e.working.layout.custom_slots.iter().map(|s| f32::from_bits(s.value_cx_norm.bits)).collect();
    e.select(Some(&id));
    e.move_selected(&[start; 6], single(48.0), single(-9000.0));
    for (i, slot) in e.working.layout.custom_slots.iter().enumerate() {
        let x = f32::from_bits(slot.value_cx_norm.bits);
        if slot.sensor_id == id {
            assert_eq!(x, (before[i] + 48.0 / 480.0).clamp(0.0, 1.0));
            assert_eq!(f32::from_bits(slot.value_cy_norm.bits), 0.0);
            assert_eq!(f32::from_bits(slot.label_cy_norm.bits), 0.0);
        } else {
            assert_eq!(x, before[i]);
        }
    }
}
