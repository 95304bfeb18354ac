use f3note::config::ThemePreference;
use f3note::theme::palette::{Mode, Palette};
use f3note::theme::{resolve_palette, Source};

fn omarchy() -> Option<(Palette, String)> {
    Some((Palette::parse("background = \"#fafafa\"\n"), "/s/colors.toml".to_string()))
}

#[test]
fn explicit_dark_preference_ignores_the_system_cascade() {
    let (p, source) = resolve_palette(ThemePreference::Dark, omarchy(), None, false);
    assert_eq!(p.mode, Mode::Dark);
    assert_eq!(source, Source::BuiltIn(Mode::Dark));
}

#[test]
fn auto_falls_back_to_the_desktop_preference() {
    assert_eq!(resolve_palette(ThemePreference::Auto, None, None, true).1, Source::BuiltIn(Mode::Dark));
    assert_eq!(resolve_palette(ThemePreference::Auto, None, None, false).1, Source::BuiltIn(Mode::Light));
}

#[test]
fn omarchy_comes_before_the_users_own_palette() {
    let user = Some((Palette::parse("background = \"#000000\"\n"), "/c/theme.toml".to_string()));
    let (p, source) = resolve_palette(ThemePreference::Auto, omarchy(), user, true);
    assert_eq!(source, Source::Omarchy("/s/colors.toml".to_string()));
    assert_eq!(p.mode, Mode::Light);
    let user = Some((Palette::parse("background = \"#000000\"\n"), "/c/theme.toml".to_string()));
    let (_, source) = resolve_palette(ThemePreference::Auto, None, user, false);
    assert_eq!(source.describe(), "user");
    assert_eq!(Source::BuiltIn(Mode::Light).describe(), "built-in light");
    let (p, _) = resolve_palette(ThemePreference::Light, None, None, true);
    assert_eq!(p.mode, Mode::Light);
}
