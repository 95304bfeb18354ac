use f3note::paths::XdgEnv;

fn env(home: Option<&str>) -> XdgEnv {
    XdgEnv {
        home: home.map(|h| h.to_string()),
        config_home: None,
        state_home: None,
        data_home: None,
        runtime_dir: None,
    }
}

#[test]
fn honours_xdg_overrides() {
    let mut e = env(Some("/home/u"));
    e.config_home = Some("/tmp/xdgcfg".to_string());
    e.state_home = Some("/tmp/xdgstate".to_string());
    assert_eq!(e.config_dir(), "/tmp/xdgcfg/f3note");
    assert_eq!(e.state_dir(), "/tmp/xdgstate/f3note");
    assert_eq!(e.omarchy_colors(), "/tmp/xdgstate/omarchy/current/theme/colors.toml");
}

#[test]
fn empty_xdg_variables_fall_back_to_home_defaults() {
    let mut e = env(Some("/home/u"));
    e.data_home = Some(String::new());
    assert!(e.data_dir().ends_with(".local/share/f3note"));
    assert_eq!(e.data_dir(), "/home/u/.local/share/f3note");
}

#[test]
fn every_location_has_a_default() {
    let e = env(Some("/home/u"));
    assert_eq!(e.config_dir(), "/home/u/.config/f3note");
    assert_eq!(e.state_dir(), "/home/u/.local/state/f3note");
    assert_eq!(e.runtime_dir(), "/home/u/.local/state/f3note");
    assert_eq!(e.omarchy_theme_name(), "/home/u/.local/state/omarchy/current/theme.name");
    assert_eq!(e.omarchy_shell_toml(), "/home/u/.config/omarchy/shell.toml");
    assert_eq!(e.user_theme(), "/home/u/.config/f3note/theme.toml");
    assert_eq!(env(None).config_dir(), "/tmp/.config/f3note");
    let mut r = env(Some("/home/u"));
    r.runtime_dir = Some("/run/user/1000".to_string());
    assert_eq!(r.runtime_dir(), "/run/user/1000");
}
