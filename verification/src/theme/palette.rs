//! Parsing and resolution of an Omarchy-style `colors.toml` palette.
//!
//! The file is read with a lenient line parser rather than a TOML parser:
//! themes are third-party content, and a theme that works elsewhere on the
//! desktop should work here. Values are restricted to a small set of
//! characters because they end up in generated CSS. Resolution then fills in
//! every colour the editor uses, through the same alias and fallback cascade
//! other themed applications use, so a theme that only defines ANSI
//! `color0..color15`, or the older short names, still yields a complete
//! palette.

use vstd::prelude::*;
use crate::numbers::{digit_char, parse_unsigned, parse_unsigned_chars};
use crate::strings::{
    chars_of, eq_ignore_ascii_case, eq_ignore_ascii_case_seq, is_ascii_alnum,
    is_ascii_alphanumeric, line_ranges, lines_of, push_char, slice_eq, string_of, trim_range,
    trim_seq,
};

verus! {

#[derive(Debug, Clone, Copy, PartialEq, Eq, Structural)]
pub enum Mode {
    Dark,
    Light,
}

impl Mode {
    pub fn is_dark(self) -> (r: bool)
        ensures
            r == (self == Mode::Dark),
    {
        match self {
            Mode::Dark => true,
            Mode::Light => false,
        }
    }
}

/// Colour names and values; a later entry for a name overrides earlier ones.
pub open spec fn map_of(v: Seq<(String, String)>) -> Map<Seq<char>, Seq<char>>
    decreases v.len(),
{
    if v.len() == 0 {
        Map::empty()
    } else {
        map_of(v.drop_last()).insert(v.last().0@, v.last().1@)
    }
}

pub struct Palette {
    colors: Vec<(String, String)>,
    pub mode: Mode,
}

impl Palette {
    /// The palette's colours, by name.
    pub closed spec fn colors(&self) -> Map<Seq<char>, Seq<char>> {
        map_of(self.colors@)
    }

    /// Whether the palette is dark or light.
    pub closed spec fn theme_mode(&self) -> Mode {
        self.mode
    }
}

/// A character allowed in a value: ASCII letters and digits, and the
/// punctuation real themes use in `rgb()` lists, angles and decimals.
pub open spec fn value_char_ok(c: char) -> bool {
    is_ascii_alnum(c) || c == '#' || c == '(' || c == ')' || c == ',' || c == '.' || c == '_'
        || c == '+' || c == '/' || c == '%' || c == ' ' || c == '-'
}

pub open spec fn value_safe(v: Seq<char>) -> bool {
    forall|i: int| 0 <= i < v.len() ==> value_char_ok(#[trigger] v[i])
}

pub open spec fn key_char_ok(c: char) -> bool {
    is_ascii_alnum(c) || c == '_' || c == '-'
}

pub open spec fn key_safe(k: Seq<char>) -> bool {
    k.len() > 0 && forall|i: int| 0 <= i < k.len() ==> key_char_ok(#[trigger] k[i])
}

fn value_is_safe(value: &[char]) -> (r: bool)
    ensures
        r == value_safe(value@),
{
    let n = value.len();
    let mut i: usize = 0;
    while i < n
        invariant
            n == value@.len(),
            i <= n,
            forall|j: int| 0 <= j < i ==> value_char_ok(#[trigger] value@[j]),
        decreases n - i,
    {
        let c = value[i];
        if !(is_ascii_alphanumeric(c) || c == '#' || c == '(' || c == ')' || c == ',' || c == '.'
            || c == '_' || c == '+' || c == '/' || c == '%' || c == ' ' || c == '-') {
            return false;
        }
        i += 1;
    }
    true
}

fn key_is_safe(key: &[char]) -> (r: bool)
    ensures
        r == key_safe(key@),
{
    let n = key.len();
    if n == 0 {
        return false;
    }
    let mut i: usize = 0;
    while i < n
        invariant
            n == key@.len(),
            i <= n,
            forall|j: int| 0 <= j < i ==> key_char_ok(#[trigger] key@[j]),
        decreases n - i,
    {
        let c = key[i];
        if !(is_ascii_alphanumeric(c) || c == '_' || c == '-') {
            return false;
        }
        i += 1;
    }
    true
}

proof fn lemma_map_of_tail(v: Seq<(String, String)>, key: Seq<char>, i: int)
    requires
        0 <= i <= v.len(),
        forall|j: int| i <= j < v.len() ==> (#[trigger] v[j]).0@ != key,
    ensures
        map_of(v).contains_key(key) == map_of(v.take(i)).contains_key(key),
        map_of(v).contains_key(key) ==> map_of(v)[key] == map_of(v.take(i))[key],
    decreases v.len() - i,
{
    if i < v.len() {
        let t = v.drop_last();
        assert(v.last() == v[v.len() - 1]);
        lemma_map_of_tail(t, key, i);
        assert(t.take(i) == v.take(i));
    } else {
        assert(v.take(i) == v);
    }
}

/// The index of the entry that gives `key` its value, if any.
fn find(v: &Vec<(String, String)>, key: &[char]) -> (r: Option<usize>)
    ensures
        match r {
            Some(i) => i < v@.len() && v@[i as int].0@ == key@ && map_of(v@).contains_key(key@)
                && map_of(v@)[key@] == v@[i as int].1@,
            None => !map_of(v@).contains_key(key@),
        },
{
    let mut i = v.len();
    while i > 0
        invariant
            i <= v@.len(),
            forall|j: int| i <= j < v@.len() ==> (#[trigger] v@[j]).0@ != key@,
        decreases i,
    {
        let k = chars_of(v[i - 1].0.as_str());
        if slice_eq(k.as_slice(), key) {
            proof {
                lemma_map_of_tail(v@, key@, i as int);
                let t = v@.take(i as int);
                assert(t.last() == v@[i - 1]);
                assert(t.drop_last() == v@.take(i - 1));
            }
            return Some(i - 1);
        }
        i -= 1;
    }
    proof {
        lemma_map_of_tail(v@, key@, 0);
        assert(v@.take(0).len() == 0);
    }
    None
}

/// The value `key` has, cloned.
fn lookup(v: &Vec<(String, String)>, key: &str) -> (r: Option<String>)
    ensures
        match r {
            Some(s) => map_of(v@).contains_key(key@) && map_of(v@)[key@] == s@,
            None => !map_of(v@).contains_key(key@),
        },
{
    let k = chars_of(key);
    match find(v, k.as_slice()) {
        Some(i) => Some(v[i].1.clone()),
        None => None,
    }
}

fn put(v: &mut Vec<(String, String)>, key: &str, value: String)
    ensures
        map_of(final(v)@) == map_of(old(v)@).insert(key@, value@),
{
    let k = key.to_owned();
    v.push((k, value));
    assert(final(v)@.drop_last() == old(v)@);
}

/// Fills `key` from `from` when `key` is absent and `from` is present.
pub open spec fn alias_spec(c: Map<Seq<char>, Seq<char>>, key: Seq<char>, from: Seq<char>) -> Map<
    Seq<char>,
    Seq<char>,
> {
    if !c.contains_key(key) && c.contains_key(from) {
        c.insert(key, c[from])
    } else {
        c
    }
}

/// Sets `key` from `from` whenever `from` is present.
pub open spec fn copy_spec(c: Map<Seq<char>, Seq<char>>, key: Seq<char>, from: Seq<char>) -> Map<
    Seq<char>,
    Seq<char>,
> {
    if c.contains_key(from) {
        c.insert(key, c[from])
    } else {
        c
    }
}

/// Sets `key` to `value` when `key` is absent.
pub open spec fn default_spec(c: Map<Seq<char>, Seq<char>>, key: Seq<char>, value: Seq<char>) -> Map<
    Seq<char>,
    Seq<char>,
> {
    if c.contains_key(key) {
        c
    } else {
        c.insert(key, value)
    }
}

fn alias(v: &mut Vec<(String, String)>, key: &str, from: &str)
    ensures
        map_of(final(v)@) == alias_spec(map_of(old(v)@), key@, from@),
{
    let k = chars_of(key);
    if find(v, k.as_slice()).is_none() {
        if let Some(value) = lookup(v, from) {
            put(v, key, value);
        }
    }
}

fn copy(v: &mut Vec<(String, String)>, key: &str, from: &str)
    ensures
        map_of(final(v)@) == copy_spec(map_of(old(v)@), key@, from@),
{
    if let Some(value) = lookup(v, from) {
        put(v, key, value);
    }
}

fn set_default(v: &mut Vec<(String, String)>, key: &str, value: String)
    ensures
        map_of(final(v)@) == default_spec(map_of(old(v)@), key@, value@),
{
    let k = chars_of(key);
    if find(v, k.as_slice()).is_none() {
        put(v, key, value);
    }
}

/// The three channels of a `#rrggbb` colour, each read as
/// `u8::from_str_radix` reads two hexadecimal characters.
pub open spec fn parse_rgb(s: Seq<char>) -> Option<(nat, nat, nat)> {
    if s.len() == 7 && s[0] == '#' {
        let h = s.drop_first();
        match (
            parse_unsigned(h.subrange(0, 2), 16, 255),
            parse_unsigned(h.subrange(2, 4), 16, 255),
            parse_unsigned(h.subrange(4, 6), 16, 255),
        ) {
            (Some(r), Some(g), Some(b)) => Some((r, g, b)),
            _ => None,
        }
    } else {
        None
    }
}

/// One channel blended `num/den` of the way from `a` to `b`, rounded to the
/// nearest integer, halves up.
pub open spec fn blend(a: nat, b: nat, num: nat, den: nat) -> nat {
    let total: int = a * (den - num) + b * num;
    ((2 * total + den) / (2 * den as int)) as nat
}

/// Two lower-case hexadecimal digits.
pub open spec fn hex2(n: nat) -> Seq<char> {
    seq![digit_char(n / 16), digit_char(n % 16)]
}

/// Two `#rrggbb` colours blended `num/den` of the way from the first to the
/// second, as `#rrggbb`; `None` when either is not such a colour.
pub open spec fn mix_spec(start: Seq<char>, end: Seq<char>, num: nat, den: nat) -> Option<Seq<char>> {
    match (parse_rgb(start), parse_rgb(end)) {
        (Some(a), Some(b)) => Some(
            seq!['#'] + hex2(blend(a.0, b.0, num, den)) + hex2(blend(a.1, b.1, num, den)) + hex2(
                blend(a.2, b.2, num, den),
            ),
        ),
        _ => None,
    }
}

fn push_hex2(out: &mut String, n: u32)
    requires
        n <= 255,
    ensures
        final(out)@ == old(out)@ + hex2(n as nat),
{
    let hi = n / 16;
    let lo = n % 16;
    let hc = if hi < 10 { ((hi + 48) as u8) as char } else { ((hi - 10 + 97) as u8) as char };
    let lc = if lo < 10 { ((lo + 48) as u8) as char } else { ((lo - 10 + 97) as u8) as char };
    push_char(out, hc);
    push_char(out, lc);
    assert(old(out)@.push(hc).push(lc) == old(out)@ + hex2(n as nat));
}

fn parse_channels(s: &[char]) -> (r: Option<(u32, u32, u32)>)
    ensures
        match r {
            Some((a, b, c)) => parse_rgb(s@) == Some((a as nat, b as nat, c as nat)),
            None => parse_rgb(s@) is None,
        },
        r matches Some((a, b, c)) ==> a <= 255 && b <= 255 && c <= 255,
{
    if s.len() != 7 || s[0] != '#' {
        return None;
    }
    let ghost h = s@.drop_first();
    let a = parse_unsigned_chars(&s[1..3], 16, 255);
    let b = parse_unsigned_chars(&s[3..5], 16, 255);
    let c = parse_unsigned_chars(&s[5..7], 16, 255);
    assert(s@.subrange(1, 3) == h.subrange(0, 2));
    assert(s@.subrange(3, 5) == h.subrange(2, 4));
    assert(s@.subrange(5, 7) == h.subrange(4, 6));
    match (a, b, c) {
        (Some(x), Some(y), Some(z)) => Some((x as u32, y as u32, z as u32)),
        _ => None,
    }
}

fn blend_channel(a: u32, b: u32, num: u32, den: u32) -> (r: u32)
    requires
        a <= 255,
        b <= 255,
        0 < den <= 8,
        num <= den,
    ensures
        r == blend(a as nat, b as nat, num as nat, den as nat),
        r <= 255,
{
    assert(a * (den - num) + b * num <= 255 * den) by (nonlinear_arith)
        requires
            a <= 255,
            b <= 255,
            num <= den,
    ;
    let total = a * (den - num) + b * num;
    let r = (2 * total + den) / (2 * den);
    assert(r <= 255) by (nonlinear_arith)
        requires
            r == (2 * total + den) / (2 * den),
            total <= 255 * den,
            den > 0,
    ;
    r
}

/// Blend two `#rrggbb` colours. The amount is `num/den`, where 0 is all
/// `start`; the ratios the palette uses (a fifth, a quarter, a half) never
/// land a channel exactly halfway between two integers, except for a half,
/// which rounds up.
pub fn mix(start: &str, end: &str, num: u32, den: u32) -> (r: Option<String>)
    requires
        0 < den <= 8,
        num <= den,
    ensures
        match r {
            Some(m) => mix_spec(start@, end@, num as nat, den as nat) == Some(m@),
            None => mix_spec(start@, end@, num as nat, den as nat) is None,
        },
{
    let sv = chars_of(start);
    let ev = chars_of(end);
    let a = parse_channels(sv.as_slice());
    let b = parse_channels(ev.as_slice());
    match (a, b) {
        (Some((a0, a1, a2)), Some((b0, b1, b2))) => {
            let mut out = String::new();
            push_char(&mut out, '#');
            push_hex2(&mut out, blend_channel(a0, b0, num, den));
            push_hex2(&mut out, blend_channel(a1, b1, num, den));
            push_hex2(&mut out, blend_channel(a2, b2, num, den));
            Some(out)
        },
        _ => None,
    }
}

/// The crude sum-of-channels test for a light background: above 382 is light.
/// Channels that do not parse count as nothing.
pub open spec fn looks_light_spec(s: Seq<char>) -> Option<bool> {
    if s.len() == 7 && s[0] == '#' {
        let h = s.drop_first();
        let ch = |i: int| match parse_unsigned(h.subrange(2 * i, 2 * i + 2), 16, u32::MAX as nat) {
            Some(v) => v,
            None => 0,
        };
        Some(ch(0) + ch(1) + ch(2) > 382)
    } else {
        None
    }
}

/// `u32::from_str_radix` of two hexadecimal characters at `lo`, or 0.
fn channel_or_zero(hex: &[char], lo: usize) -> (r: u64)
    requires
        lo + 2 <= hex@.len(),
        lo <= 5,
    ensures
        r == match parse_unsigned(hex@.subrange(lo as int, lo + 2), 16, u32::MAX as nat) {
            Some(v) => v,
            None => 0,
        },
        r <= u32::MAX,
{
    match parse_unsigned_chars(&hex[lo..lo + 2], 16, 0xFFFF_FFFF) {
        Some(v) => v,
        None => 0,
    }
}

fn looks_light(hex: &[char]) -> (r: Option<bool>)
    ensures
        r == looks_light_spec(hex@),
{
    if hex.len() != 7 || hex[0] != '#' {
        return None;
    }
    let ghost h = hex@.drop_first();
    let a = channel_or_zero(hex, 1);
    let b = channel_or_zero(hex, 3);
    let c = channel_or_zero(hex, 5);
    assert(hex@.subrange(1, 3) == h.subrange(0, 2));
    assert(hex@.subrange(3, 5) == h.subrange(2, 4));
    assert(hex@.subrange(5, 7) == h.subrange(4, 6));
    let sum: u64 = a + b + c;
    Some(sum > 382)
}

/// Legacy short names, then the ANSI names, fill the semantic names.
#[verifier::opaque]
pub open spec fn stage_names(c: Map<Seq<char>, Seq<char>>) -> Map<Seq<char>, Seq<char>> {
    let c = alias_spec(c, "background"@, "bg"@);
    let c = alias_spec(c, "dark_background"@, "dark_bg"@);
    let c = alias_spec(c, "darker_background"@, "darker_bg"@);
    let c = alias_spec(c, "lighter_background"@, "lighter_bg"@);
    let c = alias_spec(c, "foreground"@, "fg"@);
    let c = alias_spec(c, "dark_foreground"@, "dark_fg"@);
    let c = alias_spec(c, "light_foreground"@, "light_fg"@);
    let c = alias_spec(c, "bright_foreground"@, "bright_fg"@);
    let c = alias_spec(c, "background"@, "color0"@);
    let c = alias_spec(c, "foreground"@, "color7"@);
    let c = copy_spec(c, "color0"@, "background"@);
    let c = copy_spec(c, "color7"@, "foreground"@);
    let c = alias_spec(c, "red"@, "color1"@);
    let c = alias_spec(c, "green"@, "color2"@);
    let c = alias_spec(c, "yellow"@, "color3"@);
    let c = alias_spec(c, "blue"@, "color4"@);
    let c = alias_spec(c, "magenta"@, "color5"@);
    let c = alias_spec(c, "cyan"@, "color6"@);
    let c = alias_spec(c, "bright_red"@, "color9"@);
    let c = alias_spec(c, "bright_green"@, "color10"@);
    let c = alias_spec(c, "bright_yellow"@, "color11"@);
    let c = alias_spec(c, "bright_blue"@, "color12"@);
    let c = alias_spec(c, "bright_magenta"@, "color13"@);
    let c = alias_spec(c, "bright_cyan"@, "color14"@);
    let c = alias_spec(c, "magenta"@, "purple"@);
    let c = alias_spec(c, "bright_magenta"@, "bright_purple"@);
    c
}

fn fill_names(c: &mut Vec<(String, String)>)
    ensures
        map_of(final(c)@) == stage_names(map_of(old(c)@)),
{
    proof {
        reveal(stage_names);
    }
    alias(c, "background", "bg");
    alias(c, "dark_background", "dark_bg");
    alias(c, "darker_background", "darker_bg");
    alias(c, "lighter_background", "lighter_bg");
    alias(c, "foreground", "fg");
    alias(c, "dark_foreground", "dark_fg");
    alias(c, "light_foreground", "light_fg");
    alias(c, "bright_foreground", "bright_fg");
    alias(c, "background", "color0");
    alias(c, "foreground", "color7");
    copy(c, "color0", "background");
    copy(c, "color7", "foreground");
    alias(c, "red", "color1");
    alias(c, "green", "color2");
    alias(c, "yellow", "color3");
    alias(c, "blue", "color4");
    alias(c, "magenta", "color5");
    alias(c, "cyan", "color6");
    alias(c, "bright_red", "color9");
    alias(c, "bright_green", "color10");
    alias(c, "bright_yellow", "color11");
    alias(c, "bright_blue", "color12");
    alias(c, "bright_magenta", "color13");
    alias(c, "bright_cyan", "color14");
    alias(c, "magenta", "purple");
    alias(c, "bright_magenta", "bright_purple");
}

/// What the background and foreground fall back to when a theme has neither.
pub open spec fn value_or(c: Map<Seq<char>, Seq<char>>, key: Seq<char>, d: Seq<char>) -> Seq<char> {
    if c.contains_key(key) {
        c[key]
    } else {
        d
    }
}

/// Everything the editor draws with ends up defined, each through a chain
/// that bottoms out in the background or the foreground.
#[verifier::opaque]
pub open spec fn stage_defaults(c: Map<Seq<char>, Seq<char>>) -> Map<Seq<char>, Seq<char>> {
    let bg = value_or(c, "background"@, "#1e1e1e"@);
    let fg = value_or(c, "foreground"@, "#d0d0d0"@);
    let c = default_spec(c, "background"@, bg);
    let c = default_spec(c, "foreground"@, fg);
    let c = alias_spec(c, "light_foreground"@, "color7"@);
    let c = default_spec(c, "light_foreground"@, fg);
    let c = alias_spec(c, "bright_foreground"@, "color15"@);
    let c = default_spec(c, "bright_foreground"@, fg);
    let c = copy_spec(c, "cursor"@, "bright_foreground"@);
    let c = alias_spec(c, "lighter_background"@, "color0"@);
    let c = default_spec(c, "lighter_background"@, bg);
    let c = alias_spec(c, "dark_foreground"@, "color8"@);
    let c = default_spec(c, "dark_foreground"@, fg);
    let c = alias_spec(c, "muted"@, "color8"@);
    let c = alias_spec(c, "muted"@, "dark_foreground"@);
    let c = alias_spec(c, "selection"@, "selection_background"@);
    let c = alias_spec(c, "selection"@, "color8"@);
    let c = alias_spec(c, "selection"@, "color0"@);
    let c = default_spec(c, "selection"@, bg);
    let c = alias_spec(c, "selection_background"@, "selection"@);
    let c = alias_spec(c, "selection_foreground"@, "bright_foreground"@);
    c
}

fn fill_defaults(c: &mut Vec<(String, String)>)
    ensures
        map_of(final(c)@) == stage_defaults(map_of(old(c)@)),
{
    proof {
        reveal(stage_defaults);
    }
    let bg = match lookup(c, "background") {
        Some(v) => v,
        None => "#1e1e1e".to_owned(),
    };
    let fg = match lookup(c, "foreground") {
        Some(v) => v,
        None => "#d0d0d0".to_owned(),
    };
    set_default(c, "background", bg.clone());
    set_default(c, "foreground", fg.clone());
    alias(c, "light_foreground", "color7");
    set_default(c, "light_foreground", fg.clone());
    alias(c, "bright_foreground", "color15");
    set_default(c, "bright_foreground", fg.clone());
    copy(c, "cursor", "bright_foreground");
    alias(c, "lighter_background", "color0");
    set_default(c, "lighter_background", bg.clone());
    alias(c, "dark_foreground", "color8");
    set_default(c, "dark_foreground", fg.clone());
    alias(c, "muted", "color8");
    alias(c, "muted", "dark_foreground");
    alias(c, "selection", "selection_background");
    alias(c, "selection", "color8");
    alias(c, "selection", "color0");
    set_default(c, "selection", bg.clone());
    alias(c, "selection_background", "selection");
    alias(c, "selection_foreground", "bright_foreground");
}

/// Fills `key` with `base` blended `num/den` of the way toward `toward`, when
/// `key` is absent and the blend can be made.
pub open spec fn derive_spec(
    c: Map<Seq<char>, Seq<char>>,
    key: Seq<char>,
    base: Seq<char>,
    toward: Seq<char>,
    num: nat,
    den: nat,
) -> Map<Seq<char>, Seq<char>> {
    if !c.contains_key(key) && c.contains_key(base) && mix_spec(c[base], toward, num, den) is Some {
        c.insert(key, mix_spec(c[base], toward, num, den)->0)
    } else {
        c
    }
}

/// Shades the theme did not supply, derived from the colours it did.
#[verifier::opaque]
pub open spec fn stage_shades(c: Map<Seq<char>, Seq<char>>) -> Map<Seq<char>, Seq<char>> {
    let c = alias_spec(c, "orange"@, "yellow"@);
    let c = derive_spec(c, "brown"@, "orange"@, "#000000"@, 1, 2);
    let c = derive_spec(c, "dark_background"@, "background"@, "#000000"@, 1, 4);
    let c = derive_spec(c, "darker_background"@, "background"@, "#000000"@, 1, 2);
    let c = derive_spec(c, "bright_red"@, "red"@, "#ffffff"@, 1, 5);
    let c = derive_spec(c, "bright_yellow"@, "yellow"@, "#ffffff"@, 1, 5);
    let c = derive_spec(c, "bright_green"@, "green"@, "#ffffff"@, 1, 5);
    let c = derive_spec(c, "bright_cyan"@, "cyan"@, "#ffffff"@, 1, 5);
    let c = derive_spec(c, "bright_blue"@, "blue"@, "#ffffff"@, 1, 5);
    let c = derive_spec(c, "bright_magenta"@, "magenta"@, "#ffffff"@, 1, 5);
    let c = alias_spec(c, "purple"@, "magenta"@);
    let c = alias_spec(c, "bright_purple"@, "bright_magenta"@);
    let c = alias_spec(c, "accent"@, "blue"@);
    let c = alias_spec(c, "accent"@, "bright_foreground"@);
    c
}

fn derive(c: &mut Vec<(String, String)>, key: &str, base: &str, toward: &str, num: u32, den: u32)
    requires
        0 < den <= 8,
        num <= den,
    ensures
        map_of(final(c)@) == derive_spec(map_of(old(c)@), key@, base@, toward@, num as nat, den as nat),
{
    let k = chars_of(key);
    if find(c, k.as_slice()).is_none() {
        if let Some(b) = lookup(c, base) {
            if let Some(m) = mix(b.as_str(), toward, num, den) {
                put(c, key, m);
            }
        }
    }
}

fn fill_shades(c: &mut Vec<(String, String)>)
    ensures
        map_of(final(c)@) == stage_shades(map_of(old(c)@)),
{
    proof {
        reveal(stage_shades);
    }
    alias(c, "orange", "yellow");
    derive(c, "brown", "orange", "#000000", 1, 2);
    derive(c, "dark_background", "background", "#000000", 1, 4);
    derive(c, "darker_background", "background", "#000000", 1, 2);
    derive(c, "bright_red", "red", "#ffffff", 1, 5);
    derive(c, "bright_yellow", "yellow", "#ffffff", 1, 5);
    derive(c, "bright_green", "green", "#ffffff", 1, 5);
    derive(c, "bright_cyan", "cyan", "#ffffff", 1, 5);
    derive(c, "bright_blue", "blue", "#ffffff", 1, 5);
    derive(c, "bright_magenta", "magenta", "#ffffff", 1, 5);
    alias(c, "purple", "magenta");
    alias(c, "bright_purple", "bright_magenta");
    alias(c, "accent", "blue");
    alias(c, "accent", "bright_foreground");
}

/// The ANSI and short names, mapped back from the semantic ones.
#[verifier::opaque]
pub open spec fn stage_back(c: Map<Seq<char>, Seq<char>>) -> Map<Seq<char>, Seq<char>> {
    let c = alias_spec(c, "color0"@, "background"@);
    let c = alias_spec(c, "color1"@, "red"@);
    let c = alias_spec(c, "color2"@, "green"@);
    let c = alias_spec(c, "color3"@, "yellow"@);
    let c = alias_spec(c, "color4"@, "blue"@);
    let c = alias_spec(c, "color5"@, "magenta"@);
    let c = alias_spec(c, "color6"@, "cyan"@);
    let c = alias_spec(c, "color7"@, "foreground"@);
    let c = alias_spec(c, "color8"@, "muted"@);
    let c = alias_spec(c, "color9"@, "bright_red"@);
    let c = alias_spec(c, "color10"@, "bright_green"@);
    let c = alias_spec(c, "color11"@, "bright_yellow"@);
    let c = alias_spec(c, "color12"@, "bright_blue"@);
    let c = alias_spec(c, "color13"@, "bright_magenta"@);
    let c = alias_spec(c, "color14"@, "bright_cyan"@);
    let c = alias_spec(c, "color15"@, "bright_foreground"@);
    let c = copy_spec(c, "bg"@, "background"@);
    let c = copy_spec(c, "dark_bg"@, "dark_background"@);
    let c = copy_spec(c, "darker_bg"@, "darker_background"@);
    let c = copy_spec(c, "lighter_bg"@, "lighter_background"@);
    let c = copy_spec(c, "fg"@, "foreground"@);
    let c = copy_spec(c, "dark_fg"@, "dark_foreground"@);
    let c = copy_spec(c, "light_fg"@, "light_foreground"@);
    let c = copy_spec(c, "bright_fg"@, "bright_foreground"@);
    c
}

fn fill_back(c: &mut Vec<(String, String)>)
    ensures
        map_of(final(c)@) == stage_back(map_of(old(c)@)),
{
    proof {
        reveal(stage_back);
    }
    alias(c, "color0", "background");
    alias(c, "color1", "red");
    alias(c, "color2", "green");
    alias(c, "color3", "yellow");
    alias(c, "color4", "blue");
    alias(c, "color5", "magenta");
    alias(c, "color6", "cyan");
    alias(c, "color7", "foreground");
    alias(c, "color8", "muted");
    alias(c, "color9", "bright_red");
    alias(c, "color10", "bright_green");
    alias(c, "color11", "bright_yellow");
    alias(c, "color12", "bright_blue");
    alias(c, "color13", "bright_magenta");
    alias(c, "color14", "bright_cyan");
    alias(c, "color15", "bright_foreground");
    copy(c, "bg", "background");
    copy(c, "dark_bg", "dark_background");
    copy(c, "darker_bg", "darker_background");
    copy(c, "lighter_bg", "lighter_background");
    copy(c, "fg", "foreground");
    copy(c, "dark_fg", "dark_foreground");
    copy(c, "light_fg", "light_foreground");
    copy(c, "bright_fg", "bright_foreground");
}

/// The complete palette resolved from what a theme defines.
pub open spec fn resolve_spec(c: Map<Seq<char>, Seq<char>>) -> Map<Seq<char>, Seq<char>> {
    stage_back(stage_shades(stage_defaults(stage_names(c))))
}

/// Light when the theme says so (`mode`, or else `theme_type`, compared
/// without regard to ASCII case); dark for any other stated mode; otherwise
/// guessed from the background.
pub open spec fn mode_spec(c: Map<Seq<char>, Seq<char>>) -> Mode {
    let stated = if c.contains_key("mode"@) {
        Some(c["mode"@])
    } else if c.contains_key("theme_type"@) {
        Some(c["theme_type"@])
    } else {
        None
    };
    match stated {
        Some(m) => if eq_ignore_ascii_case_seq(m, "light"@) {
            Mode::Light
        } else {
            Mode::Dark
        },
        None => if c.contains_key("background"@) && looks_light_spec(c["background"@]) == Some(
            true,
        ) {
            Mode::Light
        } else {
            Mode::Dark
        },
    }
}

fn mode_of(c: &Vec<(String, String)>) -> (r: Mode)
    ensures
        r == mode_spec(map_of(c@)),
{
    let stated = match lookup(c, "mode") {
        Some(m) => Some(m),
        None => lookup(c, "theme_type"),
    };
    match stated {
        Some(m) => {
            let mv = chars_of(m.as_str());
            let light = chars_of("light");
            if eq_ignore_ascii_case(mv.as_slice(), light.as_slice()) {
                Mode::Light
            } else {
                Mode::Dark
            }
        },
        None => match lookup(c, "background") {
            Some(b) => {
                let bv = chars_of(b.as_str());
                match looks_light(bv.as_slice()) {
                    Some(true) => Mode::Light,
                    _ => Mode::Dark,
                }
            },
            None => Mode::Dark,
        },
    }
}

fn resolve(c: Vec<(String, String)>) -> (r: Palette)
    ensures
        r.colors() == resolve_spec(map_of(c@)),
        r.theme_mode() == mode_spec(resolve_spec(map_of(c@))),
{
    let mut c = c;
    fill_names(&mut c);
    fill_defaults(&mut c);
    fill_shades(&mut c);
    fill_back(&mut c);
    let mode = mode_of(&c);
    Palette { colors: c, mode }
}

pub open spec fn is_quote(c: char) -> bool {
    c == '"' || c == '\''
}

/// The index of the first character satisfying `f`, if any.
pub open spec fn first_where(s: Seq<char>, f: spec_fn(char) -> bool) -> Option<nat>
    decreases s.len(),
{
    if s.len() == 0 {
        None
    } else if f(s[0]) {
        Some(0)
    } else {
        match first_where(s.drop_first(), f) {
            Some(i) => Some(i + 1),
            None => None,
        }
    }
}

/// The characters of a key, without quotes, spaces and tabs.
pub open spec fn key_chars(s: Seq<char>) -> Seq<char>
    decreases s.len(),
{
    if s.len() == 0 {
        seq![]
    } else {
        let rest = key_chars(s.drop_last());
        let c = s.last();
        if c == '"' || c == '\'' || c == ' ' || c == '\t' {
            rest
        } else {
            rest.push(c)
        }
    }
}

/// The value part of `key = value`: what stands between the first quote and
/// the next one (which also drops a trailing comment), or, unquoted, the rest
/// of the line trimmed. `None` for an unterminated quote.
pub open spec fn value_part(raw: Seq<char>) -> Option<Seq<char>> {
    match first_where(raw, |c: char| is_quote(c)) {
        Some(st) => {
            let rest = raw.skip(st + 1int);
            match first_where(rest, |c: char| is_quote(c)) {
                Some(en) => Some(rest.take(en as int)),
                None => None,
            }
        },
        None => Some(trim_seq(raw)),
    }
}

/// The colour a line defines, if it defines one: blank lines, comments and
/// section headers define none, and neither do unsafe keys or values.
pub open spec fn entry_of(line: Seq<char>) -> Option<(Seq<char>, Seq<char>)> {
    let l = trim_seq(line);
    if l.len() == 0 || l[0] == '#' || l[0] == '[' {
        None
    } else {
        match first_where(l, |c: char| c == '=') {
            None => None,
            Some(eq) => {
                let key = key_chars(l.take(eq as int));
                if !key_safe(key) {
                    None
                } else {
                    match value_part(l.skip(eq + 1int)) {
                        Some(v) => if v.len() == 0 || !value_safe(v) {
                            None
                        } else {
                            Some((key, v))
                        },
                        None => None,
                    }
                }
            },
        }
    }
}

/// The colours a theme file defines, a later line overriding an earlier one.
pub open spec fn entries_map(lines: Seq<Seq<char>>) -> Map<Seq<char>, Seq<char>>
    decreases lines.len(),
{
    if lines.len() == 0 {
        Map::empty()
    } else {
        let before = entries_map(lines.drop_last());
        match entry_of(lines.last()) {
            Some((k, v)) => before.insert(k, v),
            None => before,
        }
    }
}

/// The palette a theme file resolves to.
pub open spec fn parse_spec(text: Seq<char>) -> Map<Seq<char>, Seq<char>> {
    resolve_spec(entries_map(lines_of(text)))
}

pub open spec fn opt_nat(r: Option<usize>) -> Option<nat> {
    match r {
        Some(k) => Some(k as nat),
        None => None,
    }
}

/// The first index in `s[lo..hi]` whose character is a quote (or, with
/// `equals`, an `=`), as an offset from `lo`.
fn find_char(s: &[char], lo: usize, hi: usize, equals: bool) -> (r: Option<usize>)
    requires
        lo <= hi <= s@.len(),
    ensures
        opt_nat(r) == (if equals {
            first_where(s@.subrange(lo as int, hi as int), |c: char| c == '=')
        } else {
            first_where(s@.subrange(lo as int, hi as int), |c: char| is_quote(c))
        }),
        r matches Some(k) ==> lo + k < hi,
    decreases hi - lo,
{
    let ghost f = if equals { |c: char| c == '=' } else { |c: char| is_quote(c) };
    let ghost t = s@.subrange(lo as int, hi as int);
    if lo == hi {
        return None;
    }
    let c = s[lo];
    let hit = if equals { c == '=' } else { c == '"' || c == '\'' };
    assert(t[0] == c);
    assert(t.drop_first() == s@.subrange(lo + 1, hi as int));
    if hit {
        Some(0)
    } else {
        match find_char(s, lo + 1, hi, equals) {
            Some(k) => Some(k + 1),
            None => None,
        }
    }
}

fn key_of(s: &[char], lo: usize, hi: usize) -> (r: Vec<char>)
    requires
        lo <= hi <= s@.len(),
    ensures
        r@ == key_chars(s@.subrange(lo as int, hi as int)),
{
    let mut out: Vec<char> = Vec::new();
    let mut i = lo;
    while i < hi
        invariant
            lo <= i <= hi <= s@.len(),
            out@ == key_chars(s@.subrange(lo as int, i as int)),
        decreases hi - i,
    {
        let c = s[i];
        assert(s@.subrange(lo as int, i + 1).drop_last() == s@.subrange(lo as int, i as int));
        if !(c == '"' || c == '\'' || c == ' ' || c == '\t') {
            out.push(c);
        }
        i += 1;
    }
    out
}

/// The colour that the line `s[lo..hi]` defines.
fn parse_line(s: &[char], lo: usize, hi: usize) -> (r: Option<(String, String)>)
    requires
        lo <= hi <= s@.len(),
    ensures
        match r {
            Some((k, v)) => entry_of(s@.subrange(lo as int, hi as int)) == Some((k@, v@)),
            None => entry_of(s@.subrange(lo as int, hi as int)) is None,
        },
{
    let (a, b) = trim_range(s, lo, hi);
    let ghost l = s@.subrange(a as int, b as int);
    if a == b || s[a] == '#' || s[a] == '[' {
        return None;
    }
    assert(l[0] == s@[a as int]);
    let eq = match find_char(s, a, b, true) {
        Some(k) => k,
        None => return None,
    };
    assert(s@.subrange(a as int, a + eq) == l.take(eq as int));
    let key = key_of(s, a, a + eq);
    if !key_is_safe(key.as_slice()) {
        return None;
    }
    let vlo = a + eq + 1;
    assert(s@.subrange(vlo as int, b as int) == l.skip(eq + 1));
    let value: String = match find_char(s, vlo, b, false) {
        Some(st) => {
            let rlo = vlo + st + 1;
            assert(s@.subrange(rlo as int, b as int) == s@.subrange(vlo as int, b as int).skip(
                st + 1,
            ));
            match find_char(s, rlo, b, false) {
                Some(en) => {
                    assert(s@.subrange(rlo as int, rlo + en) == s@.subrange(rlo as int, b as int).take(
                        en as int,
                    ));
                    string_of(s, rlo, rlo + en)
                },
                None => return None,
            }
        },
        None => {
            let (x, y) = trim_range(s, vlo, b);
            string_of(s, x, y)
        },
    };
    let vv = chars_of(value.as_str());
    if vv.len() == 0 || !value_is_safe(vv.as_slice()) {
        return None;
    }
    let k = crate::strings::string_from(key.as_slice());
    Some((k, value))
}

impl Palette {
    /// The colour named `key`, if the palette has it.
    pub fn get(&self, key: &str) -> (r: Option<&str>)
        ensures
            match r {
                Some(v) => self.colors().contains_key(key@) && self.colors()[key@] == v@,
                None => !self.colors().contains_key(key@),
            },
    {
        let k = chars_of(key);
        match find(&self.colors, k.as_slice()) {
            Some(i) => Some(self.colors[i].1.as_str()),
            None => None,
        }
    }

    /// Whether the palette is dark or light: the `mode` field, with what
    /// `parse`, `fallback` and resolving say of it.
    pub fn mode(&self) -> (r: Mode)
        ensures
            r == self.theme_mode(),
    {
        self.mode
    }

    /// Look up `key`, falling back to `fallback`, so a missing key can never
    /// produce an empty CSS value.
    pub fn get_or(&self, key: &str, fallback: &str) -> (r: String)
        ensures
            r@ == if self.colors().contains_key(key@) {
                self.colors()[key@]
            } else {
                fallback@
            },
    {
        match self.get(key) {
            Some(v) => v.to_owned(),
            None => fallback.to_owned(),
        }
    }

    /// Parse and resolve a theme file's text.
    pub fn parse(text: &str) -> (r: Palette)
        ensures
            r.colors() == parse_spec(text@),
            r.theme_mode() == mode_spec(parse_spec(text@)),
    {
        let s = chars_of(text);
        let lines = line_ranges(s.as_slice());
        let mut colors: Vec<(String, String)> = Vec::new();
        let n = lines.len();
        let mut i: usize = 0;
        while i < n
            invariant
                n == lines@.len(),
                s@ == text@,
                i <= n,
                lines@.len() == lines_of(s@).len(),
                forall|k: int|
                    0 <= k < lines@.len() ==> {
                        &&& (#[trigger] lines@[k]).0 <= lines@[k].1 <= s@.len()
                        &&& s@.subrange(lines@[k].0 as int, lines@[k].1 as int) == lines_of(s@)[k]
                    },
                map_of(colors@) == entries_map(lines_of(s@).take(i as int)),
            decreases n - i,
        {
            let (lo, hi) = lines[i];
            let ghost before = colors@;
            assert(lines_of(s@).take(i + 1).drop_last() == lines_of(s@).take(i as int));
            assert(lines_of(s@).take(i + 1).last() == lines_of(s@)[i as int]);
            match parse_line(s.as_slice(), lo, hi) {
                Some((k, v)) => {
                    colors.push((k, v));
                    assert(colors@.drop_last() == before);
                },
                None => {},
            }
            i += 1;
        }
        assert(lines_of(s@).take(n as int) == lines_of(s@));
        resolve(colors)
    }

    /// A neutral palette used when nothing else resolves, so the editor always
    /// has a complete, readable set of colours.
    pub fn fallback(mode: Mode) -> (r: Palette)
        ensures
            r.colors() == parse_spec(fallback_spec(mode)),
            r.theme_mode() == mode_spec(parse_spec(fallback_spec(mode))),
    {
        Palette::parse(fallback_text(mode))
    }
}

/// The built-in palette text for a mode.
pub open spec fn fallback_spec(mode: Mode) -> Seq<char> {
    match mode {
        Mode::Dark => "mode = \"dark\"\nbackground = \"#1e1e1e\"\nforeground = \"#d0d0d0\"\n"@,
        Mode::Light => "mode = \"light\"\nbackground = \"#fafafa\"\nforeground = \"#383a42\"\n"@,
    }
}

fn fallback_text(mode: Mode) -> (r: &'static str)
    ensures
        r@ == fallback_spec(mode),
{
    match mode {
        Mode::Dark => "mode = \"dark\"\nbackground = \"#1e1e1e\"\nforeground = \"#d0d0d0\"\n",
        Mode::Light => "mode = \"light\"\nbackground = \"#fafafa\"\nforeground = \"#383a42\"\n",
    }
}

/// Every colour the editor draws with: a resolved palette always has these,
/// whatever the theme defined.
pub open spec fn drawn_keys() -> Seq<Seq<char>> {
    seq![
        "background"@,
        "foreground"@,
        "light_foreground"@,
        "bright_foreground"@,
        "lighter_background"@,
        "dark_foreground"@,
        "muted"@,
        "cursor"@,
        "selection"@,
        "selection_background"@,
        "selection_foreground"@,
        "accent"@,
        "color0"@,
        "color7"@,
        "color8"@,
        "color15"@,
        "bg"@,
        "fg"@,
    ]
}

#[verifier::spinoff_prover]
#[verifier::rlimit(50)]
proof fn lemma_shades_keep(c: Map<Seq<char>, Seq<char>>, k: Seq<char>)
    requires
        c.contains_key(k),
    ensures
        stage_shades(c).contains_key(k),
{
    reveal(stage_shades);
}

#[verifier::spinoff_prover]
#[verifier::rlimit(50)]
proof fn lemma_back_keep(c: Map<Seq<char>, Seq<char>>, k: Seq<char>)
    requires
        c.contains_key(k),
    ensures
        stage_back(c).contains_key(k),
{
    reveal(stage_back);
}

proof fn lemma_defaults_fill(c: Map<Seq<char>, Seq<char>>)
    ensures
        ({
            let d = stage_defaults(c);
            &&& d.contains_key("background"@)
            &&& d.contains_key("foreground"@)
            &&& d.contains_key("light_foreground"@)
            &&& d.contains_key("bright_foreground"@)
            &&& d.contains_key("lighter_background"@)
            &&& d.contains_key("dark_foreground"@)
            &&& d.contains_key("muted"@)
            &&& d.contains_key("cursor"@)
            &&& d.contains_key("selection"@)
            &&& d.contains_key("selection_background"@)
            &&& d.contains_key("selection_foreground"@)
        }),
{
    reveal(stage_defaults);
}

proof fn lemma_shades_accent(c: Map<Seq<char>, Seq<char>>)
    requires
        c.contains_key("bright_foreground"@),
    ensures
        stage_shades(c).contains_key("accent"@),
{
    reveal(stage_shades);
}

#[verifier::spinoff_prover]
#[verifier::rlimit(50)]
proof fn lemma_back_fill(c: Map<Seq<char>, Seq<char>>)
    requires
        c.contains_key("background"@),
        c.contains_key("foreground"@),
        c.contains_key("muted"@),
        c.contains_key("bright_foreground"@),
    ensures
        ({
            let b = stage_back(c);
            &&& b.contains_key("color0"@)
            &&& b.contains_key("color7"@)
            &&& b.contains_key("color8"@)
            &&& b.contains_key("color15"@)
            &&& b.contains_key("bg"@)
            &&& b.contains_key("fg"@)
        }),
{
    reveal(stage_back);
}

/// A resolved palette is complete: every colour the editor draws with is
/// defined, so a stylesheet never gets an empty value.
pub proof fn resolved_palette_is_complete(c: Map<Seq<char>, Seq<char>>)
    ensures
        forall|i: int|
            0 <= i < drawn_keys().len() ==> resolve_spec(c).contains_key(#[trigger] drawn_keys()[i]),
{
    let d = stage_defaults(stage_names(c));
    lemma_defaults_fill(stage_names(c));
    let sh = stage_shades(d);
    lemma_shades_accent(d);
    let keys = drawn_keys();
    assert forall|i: int| 0 <= i < 11 implies #[trigger] sh.contains_key(keys[i]) by {
        lemma_shades_keep(d, keys[i]);
    }
    lemma_back_fill(sh);
    let r = resolve_spec(c);
    assert forall|i: int| 0 <= i < keys.len() implies r.contains_key(#[trigger] keys[i]) by {
        if i < 11 || i == 11 {
            lemma_back_keep(sh, keys[i]);
        }
    }
}

pub open spec fn all_values_safe(c: Map<Seq<char>, Seq<char>>) -> bool {
    forall|k: Seq<char>| #[trigger] c.contains_key(k) ==> value_safe(c[k]) && c[k].len() > 0
}

proof fn lemma_hex2_safe(n: nat)
    requires
        n <= 255,
    ensures
        value_char_ok(hex2(n)[0]),
        value_char_ok(hex2(n)[1]),
{
    assert(n / 16 < 16);
    assert(n % 16 < 16);
}

proof fn lemma_mix_safe(a: Seq<char>, b: Seq<char>, num: nat, den: nat)
    requires
        0 < den,
        num <= den,
        mix_spec(a, b, num, den) is Some,
    ensures
        value_safe(mix_spec(a, b, num, den)->0),
        mix_spec(a, b, num, den)->0.len() > 0,
{
    let (x, y) = (parse_rgb(a)->0, parse_rgb(b)->0);
    let m = mix_spec(a, b, num, den)->0;
    let r = blend(x.0, y.0, num, den);
    let g = blend(x.1, y.1, num, den);
    let bl = blend(x.2, y.2, num, den);
    assert(x.0 <= 255 && x.1 <= 255 && x.2 <= 255 && y.0 <= 255 && y.1 <= 255 && y.2 <= 255);
    assert forall|p: nat, q: nat| p <= 255 && q <= 255 implies #[trigger] blend(p, q, num, den)
        <= 255 by {
        let t: int = p * (den - num) + q * num;
        assert(t <= 255 * den) by (nonlinear_arith)
            requires
                p <= 255,
                q <= 255,
                num <= den,
                t == p * (den - num) + q * num,
        ;
        assert((2 * t + den) / (2 * den as int) <= 255) by (nonlinear_arith)
            requires
                t <= 255 * den,
                den > 0,
        ;
    }
    lemma_hex2_safe(r);
    lemma_hex2_safe(g);
    lemma_hex2_safe(bl);
    assert forall|i: int| 0 <= i < m.len() implies value_char_ok(#[trigger] m[i]) by {
        if i == 0 {
        } else if i < 3 {
            assert(m[i] == hex2(r)[i - 1]);
        } else if i < 5 {
            assert(m[i] == hex2(g)[i - 3]);
        } else {
            assert(m[i] == hex2(bl)[i - 5]);
        }
    }
}





proof fn lemma_alias_safe(c: Map<Seq<char>, Seq<char>>, key: Seq<char>, from: Seq<char>)
    requires
        all_values_safe(c),
    ensures
        all_values_safe(alias_spec(c, key, from)),
{
}

proof fn lemma_copy_safe(c: Map<Seq<char>, Seq<char>>, key: Seq<char>, from: Seq<char>)
    requires
        all_values_safe(c),
    ensures
        all_values_safe(copy_spec(c, key, from)),
{
}

proof fn lemma_default_safe(c: Map<Seq<char>, Seq<char>>, key: Seq<char>, value: Seq<char>)
    requires
        all_values_safe(c),
        value_safe(value),
        value.len() > 0,
    ensures
        all_values_safe(default_spec(c, key, value)),
{
}

proof fn lemma_derive_safe(
    c: Map<Seq<char>, Seq<char>>,
    key: Seq<char>,
    base: Seq<char>,
    toward: Seq<char>,
    num: nat,
    den: nat,
)
    requires
        all_values_safe(c),
        0 < den,
        num <= den,
    ensures
        all_values_safe(derive_spec(c, key, base, toward, num, den)),
{
    if !c.contains_key(key) && c.contains_key(base) && mix_spec(c[base], toward, num, den) is Some {
        lemma_mix_safe(c[base], toward, num, den);
    }
}

#[verifier::spinoff_prover]
proof fn lemma_names_safe(c: Map<Seq<char>, Seq<char>>)
    requires
        all_values_safe(c),
    ensures
        all_values_safe(stage_names(c)),
{
    reveal(stage_names);

    let c1 = alias_spec(c, "background"@, "bg"@);
    lemma_alias_safe(c, "background"@, "bg"@);
    let c2 = alias_spec(c1, "dark_background"@, "dark_bg"@);
    lemma_alias_safe(c1, "dark_background"@, "dark_bg"@);
    let c3 = alias_spec(c2, "darker_background"@, "darker_bg"@);
    lemma_alias_safe(c2, "darker_background"@, "darker_bg"@);
    let c4 = alias_spec(c3, "lighter_background"@, "lighter_bg"@);
    lemma_alias_safe(c3, "lighter_background"@, "lighter_bg"@);
    let c5 = alias_spec(c4, "foreground"@, "fg"@);
    lemma_alias_safe(c4, "foreground"@, "fg"@);
    let c6 = alias_spec(c5, "dark_foreground"@, "dark_fg"@);
    lemma_alias_safe(c5, "dark_foreground"@, "dark_fg"@);
    let c7 = alias_spec(c6, "light_foreground"@, "light_fg"@);
    lemma_alias_safe(c6, "light_foreground"@, "light_fg"@);
    let c8 = alias_spec(c7, "bright_foreground"@, "bright_fg"@);
    lemma_alias_safe(c7, "bright_foreground"@, "bright_fg"@);
    let c9 = alias_spec(c8, "background"@, "color0"@);
    lemma_alias_safe(c8, "background"@, "color0"@);
    let c10 = alias_spec(c9, "foreground"@, "color7"@);
    lemma_alias_safe(c9, "foreground"@, "color7"@);
    let c11 = copy_spec(c10, "color0"@, "background"@);
    lemma_copy_safe(c10, "color0"@, "background"@);
    let c12 = copy_spec(c11, "color7"@, "foreground"@);
    lemma_copy_safe(c11, "color7"@, "foreground"@);
    let c13 = alias_spec(c12, "red"@, "color1"@);
    lemma_alias_safe(c12, "red"@, "color1"@);
    let c14 = alias_spec(c13, "green"@, "color2"@);
    lemma_alias_safe(c13, "green"@, "color2"@);
    let c15 = alias_spec(c14, "yellow"@, "color3"@);
    lemma_alias_safe(c14, "yellow"@, "color3"@);
    let c16 = alias_spec(c15, "blue"@, "color4"@);
    lemma_alias_safe(c15, "blue"@, "color4"@);
    let c17 = alias_spec(c16, "magenta"@, "color5"@);
    lemma_alias_safe(c16, "magenta"@, "color5"@);
    let c18 = alias_spec(c17, "cyan"@, "color6"@);
    lemma_alias_safe(c17, "cyan"@, "color6"@);
    let c19 = alias_spec(c18, "bright_red"@, "color9"@);
    lemma_alias_safe(c18, "bright_red"@, "color9"@);
    let c20 = alias_spec(c19, "bright_green"@, "color10"@);
    lemma_alias_safe(c19, "bright_green"@, "color10"@);
    let c21 = alias_spec(c20, "bright_yellow"@, "color11"@);
    lemma_alias_safe(c20, "bright_yellow"@, "color11"@);
    let c22 = alias_spec(c21, "bright_blue"@, "color12"@);
    lemma_alias_safe(c21, "bright_blue"@, "color12"@);
    let c23 = alias_spec(c22, "bright_magenta"@, "color13"@);
    lemma_alias_safe(c22, "bright_magenta"@, "color13"@);
    let c24 = alias_spec(c23, "bright_cyan"@, "color14"@);
    lemma_alias_safe(c23, "bright_cyan"@, "color14"@);
    let c25 = alias_spec(c24, "magenta"@, "purple"@);
    lemma_alias_safe(c24, "magenta"@, "purple"@);
    let c26 = alias_spec(c25, "bright_magenta"@, "bright_purple"@);
    lemma_alias_safe(c25, "bright_magenta"@, "bright_purple"@);
    assert(stage_names(c) == c26);
}

#[verifier::spinoff_prover]
proof fn lemma_defaults_safe(c: Map<Seq<char>, Seq<char>>)
    requires
        all_values_safe(c),
    ensures
        all_values_safe(stage_defaults(c)),
{
    reveal(stage_defaults);
    reveal_strlit("#1e1e1e");
    reveal_strlit("#d0d0d0");
    assert(value_safe("#1e1e1e"@));
    assert(value_safe("#d0d0d0"@));
    let bg = value_or(c, "background"@, "#1e1e1e"@);
    let fg = value_or(c, "foreground"@, "#d0d0d0"@);

    let c1 = default_spec(c, "background"@, bg);
    lemma_default_safe(c, "background"@, bg);
    let c2 = default_spec(c1, "foreground"@, fg);
    lemma_default_safe(c1, "foreground"@, fg);
    let c3 = alias_spec(c2, "light_foreground"@, "color7"@);
    lemma_alias_safe(c2, "light_foreground"@, "color7"@);
    let c4 = default_spec(c3, "light_foreground"@, fg);
    lemma_default_safe(c3, "light_foreground"@, fg);
    let c5 = alias_spec(c4, "bright_foreground"@, "color15"@);
    lemma_alias_safe(c4, "bright_foreground"@, "color15"@);
    let c6 = default_spec(c5, "bright_foreground"@, fg);
    lemma_default_safe(c5, "bright_foreground"@, fg);
    let c7 = copy_spec(c6, "cursor"@, "bright_foreground"@);
    lemma_copy_safe(c6, "cursor"@, "bright_foreground"@);
    let c8 = alias_spec(c7, "lighter_background"@, "color0"@);
    lemma_alias_safe(c7, "lighter_background"@, "color0"@);
    let c9 = default_spec(c8, "lighter_background"@, bg);
    lemma_default_safe(c8, "lighter_background"@, bg);
    let c10 = alias_spec(c9, "dark_foreground"@, "color8"@);
    lemma_alias_safe(c9, "dark_foreground"@, "color8"@);
    let c11 = default_spec(c10, "dark_foreground"@, fg);
    lemma_default_safe(c10, "dark_foreground"@, fg);
    let c12 = alias_spec(c11, "muted"@, "color8"@);
    lemma_alias_safe(c11, "muted"@, "color8"@);
    let c13 = alias_spec(c12, "muted"@, "dark_foreground"@);
    lemma_alias_safe(c12, "muted"@, "dark_foreground"@);
    let c14 = alias_spec(c13, "selection"@, "selection_background"@);
    lemma_alias_safe(c13, "selection"@, "selection_background"@);
    let c15 = alias_spec(c14, "selection"@, "color8"@);
    lemma_alias_safe(c14, "selection"@, "color8"@);
    let c16 = alias_spec(c15, "selection"@, "color0"@);
    lemma_alias_safe(c15, "selection"@, "color0"@);
    let c17 = default_spec(c16, "selection"@, bg);
    lemma_default_safe(c16, "selection"@, bg);
    let c18 = alias_spec(c17, "selection_background"@, "selection"@);
    lemma_alias_safe(c17, "selection_background"@, "selection"@);
    let c19 = alias_spec(c18, "selection_foreground"@, "bright_foreground"@);
    lemma_alias_safe(c18, "selection_foreground"@, "bright_foreground"@);
    assert(stage_defaults(c) == c19);
}

#[verifier::spinoff_prover]
proof fn lemma_shades_safe(c: Map<Seq<char>, Seq<char>>)
    requires
        all_values_safe(c),
    ensures
        all_values_safe(stage_shades(c)),
{
    reveal(stage_shades);

    let c1 = alias_spec(c, "orange"@, "yellow"@);
    lemma_alias_safe(c, "orange"@, "yellow"@);
    let c2 = derive_spec(c1, "brown"@, "orange"@, "#000000"@, 1, 2);
    lemma_derive_safe(c1, "brown"@, "orange"@, "#000000"@, 1, 2);
    let c3 = derive_spec(c2, "dark_background"@, "background"@, "#000000"@, 1, 4);
    lemma_derive_safe(c2, "dark_background"@, "background"@, "#000000"@, 1, 4);
    let c4 = derive_spec(c3, "darker_background"@, "background"@, "#000000"@, 1, 2);
    lemma_derive_safe(c3, "darker_background"@, "background"@, "#000000"@, 1, 2);
    let c5 = derive_spec(c4, "bright_red"@, "red"@, "#ffffff"@, 1, 5);
    lemma_derive_safe(c4, "bright_red"@, "red"@, "#ffffff"@, 1, 5);
    let c6 = derive_spec(c5, "bright_yellow"@, "yellow"@, "#ffffff"@, 1, 5);
    lemma_derive_safe(c5, "bright_yellow"@, "yellow"@, "#ffffff"@, 1, 5);
    let c7 = derive_spec(c6, "bright_green"@, "green"@, "#ffffff"@, 1, 5);
    lemma_derive_safe(c6, "bright_green"@, "green"@, "#ffffff"@, 1, 5);
    let c8 = derive_spec(c7, "bright_cyan"@, "cyan"@, "#ffffff"@, 1, 5);
    lemma_derive_safe(c7, "bright_cyan"@, "cyan"@, "#ffffff"@, 1, 5);
    let c9 = derive_spec(c8, "bright_blue"@, "blue"@, "#ffffff"@, 1, 5);
    lemma_derive_safe(c8, "bright_blue"@, "blue"@, "#ffffff"@, 1, 5);
    let c10 = derive_spec(c9, "bright_magenta"@, "magenta"@, "#ffffff"@, 1, 5);
    lemma_derive_safe(c9, "bright_magenta"@, "magenta"@, "#ffffff"@, 1, 5);
    let c11 = alias_spec(c10, "purple"@, "magenta"@);
    lemma_alias_safe(c10, "purple"@, "magenta"@);
    let c12 = alias_spec(c11, "bright_purple"@, "bright_magenta"@);
    lemma_alias_safe(c11, "bright_purple"@, "bright_magenta"@);
    let c13 = alias_spec(c12, "accent"@, "blue"@);
    lemma_alias_safe(c12, "accent"@, "blue"@);
    let c14 = alias_spec(c13, "accent"@, "bright_foreground"@);
    lemma_alias_safe(c13, "accent"@, "bright_foreground"@);
    assert(stage_shades(c) == c14);
}

#[verifier::spinoff_prover]
proof fn lemma_back_safe(c: Map<Seq<char>, Seq<char>>)
    requires
        all_values_safe(c),
    ensures
        all_values_safe(stage_back(c)),
{
    reveal(stage_back);

    let c1 = alias_spec(c, "color0"@, "background"@);
    lemma_alias_safe(c, "color0"@, "background"@);
    let c2 = alias_spec(c1, "color1"@, "red"@);
    lemma_alias_safe(c1, "color1"@, "red"@);
    let c3 = alias_spec(c2, "color2"@, "green"@);
    lemma_alias_safe(c2, "color2"@, "green"@);
    let c4 = alias_spec(c3, "color3"@, "yellow"@);
    lemma_alias_safe(c3, "color3"@, "yellow"@);
    let c5 = alias_spec(c4, "color4"@, "blue"@);
    lemma_alias_safe(c4, "color4"@, "blue"@);
    let c6 = alias_spec(c5, "color5"@, "magenta"@);
    lemma_alias_safe(c5, "color5"@, "magenta"@);
    let c7 = alias_spec(c6, "color6"@, "cyan"@);
    lemma_alias_safe(c6, "color6"@, "cyan"@);
    let c8 = alias_spec(c7, "color7"@, "foreground"@);
    lemma_alias_safe(c7, "color7"@, "foreground"@);
    let c9 = alias_spec(c8, "color8"@, "muted"@);
    lemma_alias_safe(c8, "color8"@, "muted"@);
    let c10 = alias_spec(c9, "color9"@, "bright_red"@);
    lemma_alias_safe(c9, "color9"@, "bright_red"@);
    let c11 = alias_spec(c10, "color10"@, "bright_green"@);
    lemma_alias_safe(c10, "color10"@, "bright_green"@);
    let c12 = alias_spec(c11, "color11"@, "bright_yellow"@);
    lemma_alias_safe(c11, "color11"@, "bright_yellow"@);
    let c13 = alias_spec(c12, "color12"@, "bright_blue"@);
    lemma_alias_safe(c12, "color12"@, "bright_blue"@);
    let c14 = alias_spec(c13, "color13"@, "bright_magenta"@);
    lemma_alias_safe(c13, "color13"@, "bright_magenta"@);
    let c15 = alias_spec(c14, "color14"@, "bright_cyan"@);
    lemma_alias_safe(c14, "color14"@, "bright_cyan"@);
    let c16 = alias_spec(c15, "color15"@, "bright_foreground"@);
    lemma_alias_safe(c15, "color15"@, "bright_foreground"@);
    let c17 = copy_spec(c16, "bg"@, "background"@);
    lemma_copy_safe(c16, "bg"@, "background"@);
    let c18 = copy_spec(c17, "dark_bg"@, "dark_background"@);
    lemma_copy_safe(c17, "dark_bg"@, "dark_background"@);
    let c19 = copy_spec(c18, "darker_bg"@, "darker_background"@);
    lemma_copy_safe(c18, "darker_bg"@, "darker_background"@);
    let c20 = copy_spec(c19, "lighter_bg"@, "lighter_background"@);
    lemma_copy_safe(c19, "lighter_bg"@, "lighter_background"@);
    let c21 = copy_spec(c20, "fg"@, "foreground"@);
    lemma_copy_safe(c20, "fg"@, "foreground"@);
    let c22 = copy_spec(c21, "dark_fg"@, "dark_foreground"@);
    lemma_copy_safe(c21, "dark_fg"@, "dark_foreground"@);
    let c23 = copy_spec(c22, "light_fg"@, "light_foreground"@);
    lemma_copy_safe(c22, "light_fg"@, "light_foreground"@);
    let c24 = copy_spec(c23, "bright_fg"@, "bright_foreground"@);
    lemma_copy_safe(c23, "bright_fg"@, "bright_foreground"@);
    assert(stage_back(c) == c24);
}

proof fn lemma_entries_safe(lines: Seq<Seq<char>>)
    ensures
        all_values_safe(entries_map(lines)),
    decreases lines.len(),
{
    if lines.len() > 0 {
        lemma_entries_safe(lines.drop_last());
    }
}

/// Every value in a parsed palette is non-empty and made only of the
/// characters a value may hold, so nothing from a theme file can escape into
/// the generated CSS.
pub proof fn palette_values_cannot_escape_into_css(text: Seq<char>)
    ensures
        all_values_safe(parse_spec(text)),
{
    let c = entries_map(lines_of(text));
    lemma_entries_safe(lines_of(text));
    lemma_names_safe(c);
    lemma_defaults_safe(stage_names(c));
    lemma_shades_safe(stage_defaults(stage_names(c)));
    lemma_back_safe(stage_shades(stage_defaults(stage_names(c))));
}

/// A palette read from a theme file never hands CSS an empty value: every
/// key it holds has a non-empty value, so looking a key up with a non-empty
/// fallback gives a non-empty value.
pub proof fn missing_keys_never_give_empty_css_values(text: Seq<char>, key: Seq<char>, fallback: Seq<char>)
    requires
        fallback.len() > 0,
    ensures
        (if parse_spec(text).contains_key(key) {
            parse_spec(text)[key]
        } else {
            fallback
        }).len() > 0,
{
    palette_values_cannot_escape_into_css(text);
}

/// Every key is a name a CSS rule can carry.
pub open spec fn all_keys_safe(c: Map<Seq<char>, Seq<char>>) -> bool {
    forall|k: Seq<char>| #[trigger] c.contains_key(k) ==> key_safe(k)
}

#[verifier::spinoff_prover]
proof fn lemma_names_keys(c: Map<Seq<char>, Seq<char>>)
    requires
        all_keys_safe(c),
    ensures
        all_keys_safe(stage_names(c)),
{
    reveal(stage_names);
    assert(key_safe("background"@)) by {
        reveal_strlit("background");
    }
    assert(key_safe("dark_background"@)) by {
        reveal_strlit("dark_background");
    }
    assert(key_safe("darker_background"@)) by {
        reveal_strlit("darker_background");
    }
    assert(key_safe("lighter_background"@)) by {
        reveal_strlit("lighter_background");
    }
    assert(key_safe("foreground"@)) by {
        reveal_strlit("foreground");
    }
    assert(key_safe("dark_foreground"@)) by {
        reveal_strlit("dark_foreground");
    }
    assert(key_safe("light_foreground"@)) by {
        reveal_strlit("light_foreground");
    }
    assert(key_safe("bright_foreground"@)) by {
        reveal_strlit("bright_foreground");
    }
    assert(key_safe("color0"@)) by {
        reveal_strlit("color0");
    }
    assert(key_safe("color7"@)) by {
        reveal_strlit("color7");
    }
    assert(key_safe("red"@)) by {
        reveal_strlit("red");
    }
    assert(key_safe("green"@)) by {
        reveal_strlit("green");
    }
    assert(key_safe("yellow"@)) by {
        reveal_strlit("yellow");
    }
    assert(key_safe("blue"@)) by {
        reveal_strlit("blue");
    }
    assert(key_safe("magenta"@)) by {
        reveal_strlit("magenta");
    }
    assert(key_safe("cyan"@)) by {
        reveal_strlit("cyan");
    }
    assert(key_safe("bright_red"@)) by {
        reveal_strlit("bright_red");
    }
    assert(key_safe("bright_green"@)) by {
        reveal_strlit("bright_green");
    }
    assert(key_safe("bright_yellow"@)) by {
        reveal_strlit("bright_yellow");
    }
    assert(key_safe("bright_blue"@)) by {
        reveal_strlit("bright_blue");
    }
    assert(key_safe("bright_magenta"@)) by {
        reveal_strlit("bright_magenta");
    }
    assert(key_safe("bright_cyan"@)) by {
        reveal_strlit("bright_cyan");
    }
}

#[verifier::spinoff_prover]
proof fn lemma_defaults_keys(c: Map<Seq<char>, Seq<char>>)
    requires
        all_keys_safe(c),
    ensures
        all_keys_safe(stage_defaults(c)),
{
    reveal(stage_defaults);
    assert(key_safe("background"@)) by {
        reveal_strlit("background");
    }
    assert(key_safe("foreground"@)) by {
        reveal_strlit("foreground");
    }
    assert(key_safe("light_foreground"@)) by {
        reveal_strlit("light_foreground");
    }
    assert(key_safe("bright_foreground"@)) by {
        reveal_strlit("bright_foreground");
    }
    assert(key_safe("cursor"@)) by {
        reveal_strlit("cursor");
    }
    assert(key_safe("lighter_background"@)) by {
        reveal_strlit("lighter_background");
    }
    assert(key_safe("dark_foreground"@)) by {
        reveal_strlit("dark_foreground");
    }
    assert(key_safe("muted"@)) by {
        reveal_strlit("muted");
    }
    assert(key_safe("selection"@)) by {
        reveal_strlit("selection");
    }
    assert(key_safe("selection_background"@)) by {
        reveal_strlit("selection_background");
    }
    assert(key_safe("selection_foreground"@)) by {
        reveal_strlit("selection_foreground");
    }
}

proof fn lemma_alias_keys(c: Map<Seq<char>, Seq<char>>, key: Seq<char>, from: Seq<char>)
    requires
        all_keys_safe(c),
        key_safe(key),
    ensures
        all_keys_safe(alias_spec(c, key, from)),
{
}

proof fn lemma_derive_keys(
    c: Map<Seq<char>, Seq<char>>,
    key: Seq<char>,
    base: Seq<char>,
    toward: Seq<char>,
    num: nat,
    den: nat,
)
    requires
        all_keys_safe(c),
        key_safe(key),
    ensures
        all_keys_safe(derive_spec(c, key, base, toward, num, den)),
{
}

proof fn lemma_shade_key_names()
    ensures
        key_safe("orange"@),
        key_safe("brown"@),
        key_safe("dark_background"@),
        key_safe("darker_background"@),
        key_safe("bright_red"@),
        key_safe("bright_yellow"@),
        key_safe("bright_green"@),
        key_safe("bright_cyan"@),
        key_safe("bright_blue"@),
        key_safe("bright_magenta"@),
        key_safe("purple"@),
        key_safe("bright_purple"@),
        key_safe("accent"@),
{
    reveal_strlit("orange");
    reveal_strlit("brown");
    reveal_strlit("dark_background");
    reveal_strlit("darker_background");
    reveal_strlit("bright_red");
    reveal_strlit("bright_yellow");
    reveal_strlit("bright_green");
    reveal_strlit("bright_cyan");
    reveal_strlit("bright_blue");
    reveal_strlit("bright_magenta");
    reveal_strlit("purple");
    reveal_strlit("bright_purple");
    reveal_strlit("accent");
}

#[verifier::spinoff_prover]
#[verifier::rlimit(80)]
proof fn lemma_shades_keys(c: Map<Seq<char>, Seq<char>>)
    requires
        all_keys_safe(c),
    ensures
        all_keys_safe(stage_shades(c)),
{
    lemma_shade_key_names();
    reveal(stage_shades);
    let c0 = c;
    lemma_alias_keys(c0, "orange"@, "yellow"@);
    let c1 = alias_spec(c0, "orange"@, "yellow"@);
    lemma_derive_keys(c1, "brown"@, "orange"@, "#000000"@, 1, 2);
    let c2 = derive_spec(c1, "brown"@, "orange"@, "#000000"@, 1, 2);
    lemma_derive_keys(c2, "dark_background"@, "background"@, "#000000"@, 1, 4);
    let c3 = derive_spec(c2, "dark_background"@, "background"@, "#000000"@, 1, 4);
    lemma_derive_keys(c3, "darker_background"@, "background"@, "#000000"@, 1, 2);
    let c4 = derive_spec(c3, "darker_background"@, "background"@, "#000000"@, 1, 2);
    lemma_derive_keys(c4, "bright_red"@, "red"@, "#ffffff"@, 1, 5);
    let c5 = derive_spec(c4, "bright_red"@, "red"@, "#ffffff"@, 1, 5);
    lemma_derive_keys(c5, "bright_yellow"@, "yellow"@, "#ffffff"@, 1, 5);
    let c6 = derive_spec(c5, "bright_yellow"@, "yellow"@, "#ffffff"@, 1, 5);
    lemma_derive_keys(c6, "bright_green"@, "green"@, "#ffffff"@, 1, 5);
    let c7 = derive_spec(c6, "bright_green"@, "green"@, "#ffffff"@, 1, 5);
    lemma_derive_keys(c7, "bright_cyan"@, "cyan"@, "#ffffff"@, 1, 5);
    let c8 = derive_spec(c7, "bright_cyan"@, "cyan"@, "#ffffff"@, 1, 5);
    lemma_derive_keys(c8, "bright_blue"@, "blue"@, "#ffffff"@, 1, 5);
    let c9 = derive_spec(c8, "bright_blue"@, "blue"@, "#ffffff"@, 1, 5);
    lemma_derive_keys(c9, "bright_magenta"@, "magenta"@, "#ffffff"@, 1, 5);
    let c10 = derive_spec(c9, "bright_magenta"@, "magenta"@, "#ffffff"@, 1, 5);
    lemma_alias_keys(c10, "purple"@, "magenta"@);
    let c11 = alias_spec(c10, "purple"@, "magenta"@);
    lemma_alias_keys(c11, "bright_purple"@, "bright_magenta"@);
    let c12 = alias_spec(c11, "bright_purple"@, "bright_magenta"@);
    lemma_alias_keys(c12, "accent"@, "blue"@);
    let c13 = alias_spec(c12, "accent"@, "blue"@);
    lemma_alias_keys(c13, "accent"@, "bright_foreground"@);
    let c14 = alias_spec(c13, "accent"@, "bright_foreground"@);
    assert(stage_shades(c) == c14);
}

#[verifier::spinoff_prover]
proof fn lemma_back_keys(c: Map<Seq<char>, Seq<char>>)
    requires
        all_keys_safe(c),
    ensures
        all_keys_safe(stage_back(c)),
{
    reveal(stage_back);
    assert(key_safe("color0"@)) by {
        reveal_strlit("color0");
    }
    assert(key_safe("color1"@)) by {
        reveal_strlit("color1");
    }
    assert(key_safe("color2"@)) by {
        reveal_strlit("color2");
    }
    assert(key_safe("color3"@)) by {
        reveal_strlit("color3");
    }
    assert(key_safe("color4"@)) by {
        reveal_strlit("color4");
    }
    assert(key_safe("color5"@)) by {
        reveal_strlit("color5");
    }
    assert(key_safe("color6"@)) by {
        reveal_strlit("color6");
    }
    assert(key_safe("color7"@)) by {
        reveal_strlit("color7");
    }
    assert(key_safe("color8"@)) by {
        reveal_strlit("color8");
    }
    assert(key_safe("color9"@)) by {
        reveal_strlit("color9");
    }
    assert(key_safe("color10"@)) by {
        reveal_strlit("color10");
    }
    assert(key_safe("color11"@)) by {
        reveal_strlit("color11");
    }
    assert(key_safe("color12"@)) by {
        reveal_strlit("color12");
    }
    assert(key_safe("color13"@)) by {
        reveal_strlit("color13");
    }
    assert(key_safe("color14"@)) by {
        reveal_strlit("color14");
    }
    assert(key_safe("color15"@)) by {
        reveal_strlit("color15");
    }
    assert(key_safe("bg"@)) by {
        reveal_strlit("bg");
    }
    assert(key_safe("dark_bg"@)) by {
        reveal_strlit("dark_bg");
    }
    assert(key_safe("darker_bg"@)) by {
        reveal_strlit("darker_bg");
    }
    assert(key_safe("lighter_bg"@)) by {
        reveal_strlit("lighter_bg");
    }
    assert(key_safe("fg"@)) by {
        reveal_strlit("fg");
    }
    assert(key_safe("dark_fg"@)) by {
        reveal_strlit("dark_fg");
    }
    assert(key_safe("light_fg"@)) by {
        reveal_strlit("light_fg");
    }
    assert(key_safe("bright_fg"@)) by {
        reveal_strlit("bright_fg");
    }
}

/// Every key of a parsed palette is made only of the characters a key may
/// hold, so a colour's name, too, is safe to write into the generated CSS.
pub proof fn palette_keys_are_css_safe(text: Seq<char>)
    ensures
        all_keys_safe(parse_spec(text)),
{
    let c = entries_map(lines_of(text));
    lemma_entries_keys(lines_of(text));
    lemma_names_keys(c);
    lemma_defaults_keys(stage_names(c));
    lemma_shades_keys(stage_defaults(stage_names(c)));
    lemma_back_keys(stage_shades(stage_defaults(stage_names(c))));
}

proof fn lemma_entries_keys(lines: Seq<Seq<char>>)
    ensures
        all_keys_safe(entries_map(lines)),
    decreases lines.len(),
{
    if lines.len() > 0 {
        lemma_entries_keys(lines.drop_last());
    }
}

} // verus!
