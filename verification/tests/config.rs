use f3note::config::{long_line_floor, renderer_to_pin, Editor, ThemePreference};

#[test]
fn absurd_values_are_clamped_rather_than_obeyed() {
    let mut e = Editor::default();
    e.tab_width = 900;
    e.autosave_idle_seconds = 0;
    let c = e.clamped();
    assert_eq!(c.tab_width, 16);
    assert_eq!(c.autosave_idle_seconds, 1);
}

#[test]
fn autosave_ceiling_can_never_fall_below_the_idle_delay() {
    let mut e = Editor::default();
    e.autosave_idle_seconds = 30;
    e.autosave_max_seconds = 5;
    let c = e.clamped();
    assert!(c.autosave_max_seconds >= c.autosave_idle_seconds);
    assert_eq!(c.autosave_max_seconds, 30);
}

#[test]
fn defaults_are_sensible() {
    let e = Editor::default();
    assert_eq!(e.tab_width, 4);
    assert!(!e.insert_spaces);
    assert_eq!(e.autosave_idle_seconds, 2);
    assert_eq!(e.autosave_max_seconds, 7);
    assert_eq!(e.history_versions, 200);
    assert_eq!(e.clamped(), e);
    assert_eq!(ThemePreference::default(), ThemePreference::Auto);
    assert_eq!(long_line_floor(5), 200);
    assert_eq!(long_line_floor(20_000), 20_000);
}

#[test]
fn the_renderer_is_pinned_unless_the_user_chose() {
    assert_eq!(renderer_to_pin(true, Some("vulkan".to_string())), None);
    assert_eq!(renderer_to_pin(false, None), Some("cairo".to_string()));
    assert_eq!(renderer_to_pin(false, Some("ngl".to_string())), Some("ngl".to_string()));
}
