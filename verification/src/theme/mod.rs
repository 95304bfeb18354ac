//! Colours and fonts: where the palette comes from.
//!
//! An explicit dark or light preference means "stop following the system";
//! otherwise Omarchy's current theme is used if it is there, then the user's
//! own palette, then a built-in palette matching the desktop's light or dark
//! preference. Reading the palette files is the caller's.

pub mod font;
pub mod palette;

use vstd::prelude::*;

use crate::config::ThemePreference;
use palette::{fallback_spec, mode_spec, parse_spec, Mode, Palette};

verus! {

/// Which file the palette came from, reported in the status bar so a user who
/// wonders why the colours look like that can find out.
#[derive(Debug, Clone, PartialEq, Eq)]
pub enum Source {
    Omarchy(String),
    User(String),
    BuiltIn(Mode),
}

pub open spec fn describe_spec(s: Source) -> Seq<char> {
    match s {
        Source::Omarchy(_) => "omarchy"@,
        Source::User(_) => "user"@,
        Source::BuiltIn(Mode::Dark) => "built-in dark"@,
        Source::BuiltIn(Mode::Light) => "built-in light"@,
    }
}

impl Source {
    pub fn describe(&self) -> (r: String)
        ensures
            r@ == describe_spec(*self),
    {
        match self {
            Source::Omarchy(_) => "omarchy".to_owned(),
            Source::User(_) => "user".to_owned(),
            Source::BuiltIn(Mode::Dark) => "built-in dark".to_owned(),
            Source::BuiltIn(Mode::Light) => "built-in light".to_owned(),
        }
    }
}

/// The built-in palette for a mode.
pub open spec fn is_builtin(p: Palette, mode: Mode) -> bool {
    p.colors() == parse_spec(fallback_spec(mode)) && p.theme_mode() == mode_spec(
        parse_spec(fallback_spec(mode)),
    )
}

/// Works through the cascade, given the palettes that could be read from
/// Omarchy's theme and from the user's own file, with their paths.
pub fn resolve_palette(
    preference: ThemePreference,
    omarchy: Option<(Palette, String)>,
    user: Option<(Palette, String)>,
    prefers_dark: bool,
) -> (r: (Palette, Source))
    ensures
        preference == ThemePreference::Dark ==> r.1 == Source::BuiltIn(Mode::Dark) && is_builtin(
            r.0,
            Mode::Dark,
        ),
        preference == ThemePreference::Light ==> r.1 == Source::BuiltIn(Mode::Light)
            && is_builtin(r.0, Mode::Light),
        preference == ThemePreference::Auto && omarchy is Some ==> r.0 == (omarchy->0).0 && r.1
            == Source::Omarchy((omarchy->0).1),
        preference == ThemePreference::Auto && omarchy is None && user is Some ==> r.0 == (
        user->0).0 && r.1 == Source::User((user->0).1),
        preference == ThemePreference::Auto && omarchy is None && user is None ==> ({
            let mode = if prefers_dark {
                Mode::Dark
            } else {
                Mode::Light
            };
            r.1 == Source::BuiltIn(mode) && is_builtin(r.0, mode)
        }),
{
    match preference {
        ThemePreference::Dark => {
            return (Palette::fallback(Mode::Dark), Source::BuiltIn(Mode::Dark));
        },
        ThemePreference::Light => {
            return (Palette::fallback(Mode::Light), Source::BuiltIn(Mode::Light));
        },
        ThemePreference::Auto => {},
    }
    if let Some((p, path)) = omarchy {
        return (p, Source::Omarchy(path));
    }
    if let Some((p, path)) = user {
        return (p, Source::User(path));
    }
    let mode = if prefers_dark {
        Mode::Dark
    } else {
        Mode::Light
    };
    (Palette::fallback(mode), Source::BuiltIn(mode))
}

} // verus!
