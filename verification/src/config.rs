//! User configuration: the settings and the bounds they are held to.
//!
//! Every field has a working default, so the file is optional. Values that
//! would make the editor misbehave are clamped rather than obeyed. Reading the
//! file, and the settings that are fractions, are the caller's.

use vstd::prelude::*;

verus! {

/// How the palette should be chosen.
#[derive(Debug, Clone, Copy, PartialEq, Eq, Structural)]
pub enum ThemePreference {
    /// Follow the system: Omarchy's current theme if present, else the
    /// desktop light/dark preference.
    Auto,
    Dark,
    Light,
}

impl Default for ThemePreference {
    fn default() -> (r: Self)
        ensures
            r == ThemePreference::Auto,
    {
        ThemePreference::Auto
    }
}

/// Editing and autosave settings.
#[derive(Debug, Clone, Copy, PartialEq, Eq, Structural)]
pub struct Editor {
    pub tab_width: u32,
    pub insert_spaces: bool,
    /// Seconds of idle typing before the buffer is mirrored to disk.
    pub autosave_idle_seconds: u64,
    /// Hard ceiling between mirrors while typing continuously.
    pub autosave_max_seconds: u64,
    /// Above this many bytes, snapshots stop and only the latest mirror is
    /// kept.
    pub history_max_bytes: u64,
    /// Versions retained per document before the oldest are collected.
    pub history_versions: usize,
    /// Ceiling on the total bytes of history kept per document.
    pub history_max_total_bytes: u64,
}

impl Default for Editor {
    fn default() -> (r: Self)
        ensures
            r.tab_width == 4,
            !r.insert_spaces,
            r.autosave_idle_seconds == 2,
            r.autosave_max_seconds == 7,
            r.history_max_bytes == 8 * 1024 * 1024,
            r.history_versions == 200,
            r.history_max_total_bytes == 64 * 1024 * 1024,
    {
        Editor {
            tab_width: 4,
            insert_spaces: false,
            autosave_idle_seconds: 2,
            autosave_max_seconds: 7,
            history_max_bytes: 8 * 1024 * 1024,
            history_versions: 200,
            history_max_total_bytes: 64 * 1024 * 1024,
        }
    }
}

/// `v` held to `lo..=hi`.
pub open spec fn clamp_spec(v: int, lo: int, hi: int) -> int {
    if v < lo {
        lo
    } else if v > hi {
        hi
    } else {
        v
    }
}

fn clamp_u64(v: u64, lo: u64, hi: u64) -> (r: u64)
    requires
        lo <= hi,
    ensures
        r == clamp_spec(v as int, lo as int, hi as int),
{
    if v < lo {
        lo
    } else if v > hi {
        hi
    } else {
        v
    }
}

impl Editor {
    /// The settings with absurd values brought into range: a tab is 1 to 16
    /// columns, the idle delay 1 to 600 seconds, and the autosave ceiling
    /// between the idle delay and an hour.
    pub fn clamped(self) -> (r: Editor)
        ensures
            r.tab_width == clamp_spec(self.tab_width as int, 1, 16),
            r.autosave_idle_seconds == clamp_spec(self.autosave_idle_seconds as int, 1, 600),
            r.autosave_max_seconds == clamp_spec(
                self.autosave_max_seconds as int,
                r.autosave_idle_seconds as int,
                3600,
            ),
            r.insert_spaces == self.insert_spaces,
            r.history_max_bytes == self.history_max_bytes,
            r.history_versions == self.history_versions,
            r.history_max_total_bytes == self.history_max_total_bytes,
    {
        let tab_width = if self.tab_width < 1 {
            1
        } else if self.tab_width > 16 {
            16
        } else {
            self.tab_width
        };
        let idle = clamp_u64(self.autosave_idle_seconds, 1, 600);
        let max = clamp_u64(self.autosave_max_seconds, idle, 3600);
        Editor {
            tab_width,
            insert_spaces: self.insert_spaces,
            autosave_idle_seconds: idle,
            autosave_max_seconds: max,
            history_max_bytes: self.history_max_bytes,
            history_versions: self.history_versions,
            history_max_total_bytes: self.history_max_total_bytes,
        }
    }
}

/// Whatever a configuration file says, the autosave ceiling is never shorter
/// than the idle delay, and both stay within their bounds.
pub proof fn the_ceiling_never_falls_below_the_idle_delay(idle: u64, max: u64)
    ensures
        ({
            let i = clamp_spec(idle as int, 1, 600);
            let m = clamp_spec(max as int, i, 3600);
            1 <= i <= 600 && i <= m <= 3600
        }),
{
}

/// The long-line threshold a configuration may set: no ceiling, but a floor of
/// 200 characters, so that a typo cannot flag every ordinary file.
pub fn long_line_floor(chars: usize) -> (r: usize)
    ensures
        r == if chars < 200 {
            200
        } else {
            chars
        },
{
    if chars < 200 {
        200
    } else {
        chars
    }
}

/// The GSK renderer to pin before the toolkit starts, given whether
/// `GSK_RENDERER` is set and what `F3NOTE_RENDERER` holds. An explicit
/// `GSK_RENDERER` always wins (nothing is pinned); otherwise
/// `F3NOTE_RENDERER` lets a user opt back into acceleration, and cairo is the
/// default.
pub fn renderer_to_pin(gsk_renderer_set: bool, f3note_renderer: Option<String>) -> (r: Option<String>)
    ensures
        gsk_renderer_set ==> r is None,
        !gsk_renderer_set ==> (r matches Some(v) && v@ == match f3note_renderer {
            Some(f) => f@,
            None => "cairo"@,
        }),
{
    if gsk_renderer_set {
        return None;
    }
    match f3note_renderer {
        Some(f) => Some(f),
        None => Some("cairo".to_owned()),
    }
}

} // verus!
