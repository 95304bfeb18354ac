use f3note::theme::font::{parse_font_spec, Font};

#[test]
fn default_font_tracks_the_fontconfig_alias() {
    assert_eq!(Font::default().family, "monospace");
    assert_eq!(Font::default().pango(), "monospace 11");
}

#[test]
fn reads_base_size_from_the_font_section_only() {
    let text = "[bar]\nbase-size = 99\n\n[font]\nbase-size = 14\n";
    assert_eq!(Font::size_from_omarchy_shell(text), Some(14));
}

#[test]
fn empty_font_section_yields_no_size() {
    assert_eq!(Font::size_from_omarchy_shell("[font]\n"), None);
}

#[test]
fn quoted_keys_and_values_and_out_of_range_sizes() {
    assert_eq!(Font::size_from_omarchy_shell("[font]\n\"base-size\" = '16'\n"), Some(16));
    // Out of range is skipped, a later valid line still counts.
    assert_eq!(Font::size_from_omarchy_shell("[font]\nbase-size = 500\nbase-size = 13\n"), Some(13));
    // A value that is not a number ends the search.
    assert_eq!(Font::size_from_omarchy_shell("[font]\nbase-size = big\nbase-size = 13\n"), None);
    assert_eq!(Font::size_from_omarchy_shell("base-size = 13\n"), None);
}

#[test]
fn parses_pango_font_descriptions() {
    let f = parse_font_spec("JetBrainsMono Nerd Font 12").unwrap();
    assert_eq!(f.family, "JetBrainsMono Nerd Font");
    assert_eq!(f.size, 12);
}

#[test]
fn a_family_without_a_size_keeps_the_default_size() {
    let f = parse_font_spec("Iosevka").unwrap();
    assert_eq!(f.family, "Iosevka");
    assert_eq!(f.size, Font::default().size);
}

#[test]
fn a_family_ending_in_a_word_is_not_mistaken_for_a_size() {
    let f = parse_font_spec("Fira Code").unwrap();
    assert_eq!(f.family, "Fira Code");
    assert_eq!(f.size, Font::default().size);
}

#[test]
fn a_blank_setting_is_no_font_and_sizes_are_bounded() {
    assert!(parse_font_spec("   ").is_none());
    let f = parse_font_spec("  Mono 300 ").unwrap();
    assert_eq!(f.family, "Mono 300");
    assert_eq!(f.size, 11);
    assert_eq!(Font { family: "Mono".into(), size: 9 }.pango(), "Mono 9");
}
