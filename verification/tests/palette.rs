use f3note::theme::palette::{mix, Mode, Palette};

#[test]
fn parses_a_real_omarchy_palette() {
    let p = Palette::parse(
        r##"
mode = "dark"
accent = "#7aa2f7"
background = "#1a1b26"
foreground = "#a9b1d6"
"##,
    );
    assert_eq!(p.mode, Mode::Dark);
    assert_eq!(p.get("accent"), Some("#7aa2f7"));
    // Derived because the theme did not define it.
    assert_eq!(p.get("darker_background"), Some("#0d0e13"));
}

#[test]
fn accepts_a_legacy_ansi_only_theme() {
    let p = Palette::parse(
        r##"
color0 = "#000000"
color7 = "#ffffff"
color1 = "#ff0000"
"##,
    );
    assert_eq!(p.get("background"), Some("#000000"));
    assert_eq!(p.get("foreground"), Some("#ffffff"));
    assert_eq!(p.get("red"), Some("#ff0000"));
    // No `mode` key, so luminance decides: black background is dark.
    assert_eq!(p.mode, Mode::Dark);
}

#[test]
fn guesses_light_mode_from_a_pale_background() {
    let p = Palette::parse(r##"background = "#fafafa""##);
    assert_eq!(p.mode, Mode::Light);
}

#[test]
fn rejects_values_that_could_escape_into_css() {
    let p = Palette::parse(
        r##"
background = "#111111"
accent = "red; } * { background: url(http://evil)"
"##,
    );
    assert_eq!(p.get("background"), Some("#111111"));
    assert_ne!(p.get("accent"), Some("red; } * { background: url(http://evil)"));
}

#[test]
fn mixes_channels_correctly() {
    assert_eq!(mix("#000000", "#ffffff", 1, 2).as_deref(), Some("#808080"));
    assert_eq!(mix("#ff0000", "#0000ff", 1, 1).as_deref(), Some("#0000ff"));
}

#[test]
fn the_built_in_palettes_are_complete() {
    for mode in [Mode::Dark, Mode::Light] {
        let p = Palette::fallback(mode);
        assert_eq!(p.mode, mode);
        assert!(p.get("background").is_some());
        assert!(p.get("accent").is_some());
        assert_eq!(p.get_or("no-such-colour", "#123456"), "#123456");
    }
    assert!(Mode::Dark.is_dark());
    assert!(!Mode::Light.is_dark());
}

#[test]
fn an_empty_value_never_reaches_the_css() {
    let p = Palette::parse("accent = \"\"\nforeground =\n");
    assert!(!p.get_or("accent", "#000000").is_empty());
    assert!(!p.get_or("foreground", "#000000").is_empty());
    assert_eq!(p.get_or("no_such_key", "#123456"), "#123456");
}

#[test]
fn the_mode_reads_back_through_its_getter() {
    let p = Palette::parse("mode = \"light\"\n");
    assert_eq!(p.mode(), Mode::Light);
    assert_eq!(p.mode(), p.mode);
}
