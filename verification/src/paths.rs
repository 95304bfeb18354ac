//! Where f3note keeps things.
//!
//! Follows the XDG base directory spec, with the split that matters for this
//! editor: configuration the user writes lives under `XDG_CONFIG_HOME`, while
//! everything f3note generates and must survive a crash lives under
//! `XDG_STATE_HOME`. The environment is read by the caller and handed over as
//! an `XdgEnv`; paths are text.

use vstd::prelude::*;

verus! {

/// What `Path::join` gives for a base path and a component, as text.
pub uninterp spec fn path_joined(base: Seq<char>, component: Seq<char>) -> Seq<char>;

/// `Path::join`: `component` adjoined to `base`. As its documentation says, an
/// absolute component replaces the base, and a relative one is added after a
/// separator (for a base that does not already end in one).
#[verifier::external_body]
pub(crate) fn join(base: &str, component: &str) -> (r: String)
    ensures
        r@ == path_joined(base@, component@),
        component@.len() > 0 && component@[0] == '/' ==> r@ == component@,
        base@.len() > 0 && base@.last() != '/' && !(component@.len() > 0 && component@[0] == '/')
            ==> r@ == base@ + seq!['/'] + component@,
{
    std::path::Path::new(base).join(component).to_string_lossy().into_owned()
}

/// The XDG variables and `HOME`, as the environment had them (`None` when
/// unset).
pub struct XdgEnv {
    pub home: Option<String>,
    pub config_home: Option<String>,
    pub state_home: Option<String>,
    pub data_home: Option<String>,
    pub runtime_dir: Option<String>,
}

/// The home directory: `HOME`, or `/tmp` without one.
pub open spec fn home_spec(env: XdgEnv) -> Seq<char> {
    match env.home {
        Some(h) => h@,
        None => "/tmp"@,
    }
}

/// An XDG base directory: the variable when it is set and not empty, else the
/// default under the home directory.
pub open spec fn xdg_spec(value: Option<String>, home: Seq<char>, suffix: Seq<char>) -> Seq<char> {
    match value {
        Some(v) if v@.len() > 0 => v@,
        _ => path_joined(home, suffix),
    }
}

fn is_set(value: &Option<String>) -> (r: bool)
    ensures
        r == (value matches Some(v) && v@.len() > 0),
{
    match value {
        Some(v) => !v.as_str().is_empty(),
        None => false,
    }
}

impl XdgEnv {
    fn home(&self) -> (r: String)
        ensures
            r@ == home_spec(*self),
    {
        match &self.home {
            Some(h) => h.as_str().to_owned(),
            None => "/tmp".to_owned(),
        }
    }

    fn xdg(&self, value: &Option<String>, suffix: &str) -> (r: String)
        ensures
            r@ == xdg_spec(*value, home_spec(*self), suffix@),
    {
        if is_set(value) {
            match value {
                Some(v) => v.as_str().to_owned(),
                None => "".to_owned(),
            }
        } else {
            let h = self.home();
            join(h.as_str(), suffix)
        }
    }

    /// Where the user's configuration lives.
    pub fn config_dir(&self) -> (r: String)
        ensures
            r@ == path_joined(xdg_spec(self.config_home, home_spec(*self), ".config"@), "f3note"@),
    {
        let base = self.xdg(&self.config_home, ".config");
        join(base.as_str(), "f3note")
    }

    /// Session index, buffer mirrors and the version store.
    pub fn state_dir(&self) -> (r: String)
        ensures
            r@ == path_joined(
                xdg_spec(self.state_home, home_spec(*self), ".local/state"@),
                "f3note"@,
            ),
    {
        let base = self.xdg(&self.state_home, ".local/state");
        join(base.as_str(), "f3note")
    }

    /// Generated style schemes: regenerated from the palette, so disposable.
    pub fn data_dir(&self) -> (r: String)
        ensures
            r@ == path_joined(
                xdg_spec(self.data_home, home_spec(*self), ".local/share"@),
                "f3note"@,
            ),
    {
        let base = self.xdg(&self.data_home, ".local/share");
        join(base.as_str(), "f3note")
    }

    /// Where the single-instance socket belongs: `XDG_RUNTIME_DIR`, cleared on
    /// logout, or the state directory without one.
    pub fn runtime_dir(&self) -> (r: String)
        ensures
            self.runtime_dir matches Some(v) && v@.len() > 0 ==> r@ == self.runtime_dir->0@,
            !(self.runtime_dir matches Some(v) && v@.len() > 0) ==> r@ == path_joined(
                xdg_spec(self.state_home, home_spec(*self), ".local/state"@),
                "f3note"@,
            ),
    {
        if is_set(&self.runtime_dir) {
            match &self.runtime_dir {
                Some(v) => v.as_str().to_owned(),
                None => "".to_owned(),
            }
        } else {
            self.state_dir()
        }
    }

    /// Omarchy's live theme palette, if this system has one.
    pub fn omarchy_colors(&self) -> (r: String)
        ensures
            r@ == path_joined(
                xdg_spec(self.state_home, home_spec(*self), ".local/state"@),
                "omarchy/current/theme/colors.toml"@,
            ),
    {
        let base = self.xdg(&self.state_home, ".local/state");
        join(base.as_str(), "omarchy/current/theme/colors.toml")
    }

    /// The file Omarchy rewrites when the theme changes.
    pub fn omarchy_theme_name(&self) -> (r: String)
        ensures
            r@ == path_joined(
                xdg_spec(self.state_home, home_spec(*self), ".local/state"@),
                "omarchy/current/theme.name"@,
            ),
    {
        let base = self.xdg(&self.state_home, ".local/state");
        join(base.as_str(), "omarchy/current/theme.name")
    }

    /// Omarchy's shell configuration, which may set the font size.
    pub fn omarchy_shell_toml(&self) -> (r: String)
        ensures
            r@ == path_joined(
                xdg_spec(self.config_home, home_spec(*self), ".config"@),
                "omarchy/shell.toml"@,
            ),
    {
        let base = self.xdg(&self.config_home, ".config");
        join(base.as_str(), "omarchy/shell.toml")
    }

    /// The user's own palette, used when Omarchy is not present.
    pub fn user_theme(&self) -> (r: String)
        ensures
            r@ == path_joined(
                path_joined(xdg_spec(self.config_home, home_spec(*self), ".config"@), "f3note"@),
                "theme.toml"@,
            ),
    {
        let dir = self.config_dir();
        join(dir.as_str(), "theme.toml")
    }
}

} // verus!
