//! Which font the editor draws with.
//!
//! The family is left as the fontconfig alias `monospace` rather than being
//! resolved at startup: Pango resolves the alias itself, so the editor follows
//! the system font with no process spawned on the startup path. Only the size
//! may come from Omarchy's shell configuration; an explicit font setting
//! outranks both.

use vstd::prelude::*;

use crate::numbers::{parse_signed, push_i32, signed_decimal};
use crate::strings::{chars_of, line_ranges, lines_of, push_char, push_str, string_of, trim_range, trim_seq};

verus! {

/// Point size used when nothing configures one.
pub const DEFAULT_SIZE: i32 = 11;

#[derive(Debug, Clone, PartialEq, Eq)]
pub struct Font {
    pub family: String,
    pub size: i32,
}

impl Default for Font {
    fn default() -> (r: Self)
        ensures
            r.family@ == "monospace"@,
            r.size == DEFAULT_SIZE,
    {
        Font { family: "monospace".to_owned(), size: DEFAULT_SIZE }
    }
}

/// A Pango font description: the family, a space, the size.
pub open spec fn pango_spec(family: Seq<char>, size: i32) -> Seq<char> {
    family + seq![' '] + signed_decimal(size as int)
}

impl Font {
    /// A Pango font description string, e.g. `monospace 11`.
    pub fn pango(&self) -> (r: String)
        ensures
            r@ == pango_spec(self.family@, self.size),
    {
        let mut out = String::new();
        push_str(&mut out, self.family.as_str());
        push_char(&mut out, ' ');
        push_i32(&mut out, self.size);
        out
    }
}

pub open spec fn is_quote(c: char) -> bool {
    c == '"' || c == '\''
}

/// `s` with quote characters removed from both ends (`trim_matches` on the
/// two quote characters).
pub open spec fn trim_quotes(s: Seq<char>) -> Seq<char>
    decreases s.len(),
{
    if s.len() > 0 && is_quote(s[0]) {
        trim_quotes(s.drop_first())
    } else if s.len() > 0 && is_quote(s.last()) {
        trim_quotes(s.drop_last())
    } else {
        s
    }
}

/// The range of `s[lo..hi]` left once quotes are trimmed from both ends.
fn trim_quotes_range(s: &[char], lo: usize, hi: usize) -> (r: (usize, usize))
    requires
        lo <= hi <= s@.len(),
    ensures
        lo <= r.0 <= r.1 <= hi,
        trim_quotes(s@.subrange(lo as int, hi as int)) == s@.subrange(r.0 as int, r.1 as int),
    decreases hi - lo,
{
    let ghost t = s@.subrange(lo as int, hi as int);
    if lo < hi && (s[lo] == '"' || s[lo] == '\'') {
        assert(t[0] == s@[lo as int]);
        assert(t.drop_first() == s@.subrange(lo + 1, hi as int));
        trim_quotes_range(s, lo + 1, hi)
    } else if lo < hi && (s[hi - 1] == '"' || s[hi - 1] == '\'') {
        assert(t.last() == s@[hi - 1]);
        assert(t.drop_last() == s@.subrange(lo as int, hi - 1));
        if lo < hi {
            assert(t[0] == s@[lo as int]);
        }
        trim_quotes_range(s, lo, hi - 1)
    } else {
        proof {
            if lo < hi {
                assert(t[0] == s@[lo as int]);
                assert(t.last() == s@[hi - 1]);
            }
        }
        (lo, hi)
    }
}

/// `s[k]` is the first `c` in `s`.
pub open spec fn first_at(s: Seq<char>, c: char, k: int) -> bool {
    0 <= k < s.len() && s[k] == c && forall|j: int| 0 <= j < k ==> s[j] != c
}

/// `s[k]` is the last `c` in `s`.
pub open spec fn last_at(s: Seq<char>, c: char, k: int) -> bool {
    0 <= k < s.len() && s[k] == c && forall|j: int| k < j < s.len() ==> s[j] != c
}

/// Where the first `c` of `s[lo..hi]` is, as an index into `s`.
fn find_first(s: &[char], lo: usize, hi: usize, c: char) -> (r: Option<usize>)
    requires
        lo <= hi <= s@.len(),
    ensures
        r matches Some(k) ==> lo <= k < hi && first_at(s@.subrange(lo as int, hi as int), c, k - lo),
        r is None ==> forall|j: int| lo <= j < hi ==> s@[j] != c,
{
    let mut k = lo;
    while k < hi
        invariant
            lo <= k <= hi <= s@.len(),
            forall|j: int| lo <= j < k ==> s@[j] != c,
        decreases hi - k,
    {
        if s[k] == c {
            let ghost t = s@.subrange(lo as int, hi as int);
            assert forall|j: int| 0 <= j < k - lo implies t[j] != c by {
                assert(t[j] == s@[lo + j]);
            }
            return Some(k);
        }
        k += 1;
    }
    None
}

/// Where the last `c` of `s[lo..hi]` is, as an index into `s`.
fn find_last(s: &[char], lo: usize, hi: usize, c: char) -> (r: Option<usize>)
    requires
        lo <= hi <= s@.len(),
    ensures
        r matches Some(k) ==> lo <= k < hi && last_at(s@.subrange(lo as int, hi as int), c, k - lo),
        r is None ==> forall|j: int| lo <= j < hi ==> s@[j] != c,
{
    let mut k = hi;
    while k > lo
        invariant
            lo <= k <= hi <= s@.len(),
            forall|j: int| k <= j < hi ==> s@[j] != c,
        decreases k - lo,
    {
        if s[k - 1] == c {
            let ghost t = s@.subrange(lo as int, hi as int);
            assert forall|j: int| k - 1 - lo < j < t.len() implies t[j] != c by {
                assert(t[j] == s@[lo + j]);
            }
            return Some(k - 1);
        }
        k -= 1;
    }
    None
}

/// The size Omarchy's shell configuration asks for, reading its lines from
/// `i` on with `in_font` telling whether the `[font]` section is open: the
/// first `base-size = N` in that section with `N` in `1..=199`. A value that
/// is not a number at all ends the search with nothing.
pub open spec fn shell_size_from(lines: Seq<Seq<char>>, i: int, in_font: bool) -> Option<i32>
    decreases lines.len() - i,
{
    if i < 0 || i >= lines.len() {
        None
    } else {
        let l = trim_seq(lines[i]);
        if l.len() > 0 && l[0] == '[' {
            shell_size_from(lines, i + 1, l == "[font]"@)
        } else if !in_font || !(exists|k: int| first_at(l, '=', k)) {
            shell_size_from(lines, i + 1, in_font)
        } else {
            let k = choose|k: int| first_at(l, '=', k);
            if trim_quotes(trim_seq(l.take(k))) != "base-size"@ {
                shell_size_from(lines, i + 1, in_font)
            } else {
                match parse_signed(
                    trim_quotes(trim_seq(l.skip(k + 1))),
                    10,
                    i32::MIN as int,
                    i32::MAX as int,
                ) {
                    None => None,
                    Some(n) => if 0 < n < 200 {
                        Some(n as i32)
                    } else {
                        shell_size_from(lines, i + 1, in_font)
                    },
                }
            }
        }
    }
}

fn is_chars(v: &[char], lit: &str) -> (r: bool)
    ensures
        r == (v@ == lit@),
{
    let l = chars_of(lit);
    crate::strings::slice_eq(v, l.as_slice())
}

impl Font {
    /// The size `[font] base-size` asks for in the text of Omarchy's shell
    /// configuration, if the user set one. Only the size is taken from there:
    /// the family stays on the fontconfig alias.
    pub fn size_from_omarchy_shell(text: &str) -> (r: Option<i32>)
        ensures
            r == shell_size_from(lines_of(text@), 0, false),
    {
        let s = chars_of(text);
        let lines = line_ranges(s.as_slice());
        let ghost ls = lines_of(text@);
        let mut in_font = false;
        let mut i: usize = 0;
        while i < lines.len()
            invariant
                s@ == text@,
                ls == lines_of(text@),
                lines@.len() == ls.len(),
                forall|k: int|
                    0 <= k < lines@.len() ==> {
                        &&& (#[trigger] lines@[k]).0 <= lines@[k].1 <= s@.len()
                        &&& s@.subrange(lines@[k].0 as int, lines@[k].1 as int) == ls[k]
                    },
                i <= lines@.len(),
                shell_size_from(ls, 0, false) == shell_size_from(ls, i as int, in_font),
            decreases lines@.len() - i,
        {
            let (lo0, hi0) = lines[i];
            let (lo, hi) = trim_range(s.as_slice(), lo0, hi0);
            let ghost l = trim_seq(ls[i as int]);
            assert(l == s@.subrange(lo as int, hi as int));
            if lo < hi && s[lo] == '[' {
                assert(l[0] == s@[lo as int]);
                let section = string_of(s.as_slice(), lo, hi);
                let sv = chars_of(section.as_str());
                in_font = is_chars(sv.as_slice(), "[font]");
                i += 1;
                continue;
            }
            proof {
                if l.len() > 0 {
                    assert(l[0] == s@[lo as int]);
                }
            }
            if !in_font {
                i += 1;
                continue;
            }
            let eq = match find_first(s.as_slice(), lo, hi, '=') {
                Some(k) => k,
                None => {
                    assert forall|k: int| !first_at(l, '=', k) by {
                        if 0 <= k < l.len() {
                            assert(l[k] == s@[lo + k]);
                        }
                    }
                    i += 1;
                    continue;
                },
            };
            proof {
                let k = choose|k: int| first_at(l, '=', k);
                if k < eq - lo {
                    assert(l[k] == '=');
                } else if k > eq - lo {
                    assert(l[eq - lo] == '=');
                }
                assert(k == eq - lo);
                assert(l.take(k) == s@.subrange(lo as int, eq as int));
                assert(l.skip(k + 1) == s@.subrange(eq + 1, hi as int));
            }
            let (klo, khi) = trim_range(s.as_slice(), lo, eq);
            let (qlo, qhi) = trim_quotes_range(s.as_slice(), klo, khi);
            let key = string_of(s.as_slice(), qlo, qhi);
            let kv = chars_of(key.as_str());
            if !is_chars(kv.as_slice(), "base-size") {
                i += 1;
                continue;
            }
            let (vlo, vhi) = trim_range(s.as_slice(), eq + 1, hi);
            let (wlo, whi) = trim_quotes_range(s.as_slice(), vlo, vhi);
            let value = string_of(s.as_slice(), wlo, whi);
            let vv = chars_of(value.as_str());
            match crate::numbers::parse_i32_chars(vv.as_slice()) {
                None => {
                    return None;
                },
                Some(n) => {
                    if n > 0 && n < 200 {
                        return Some(n);
                    }
                },
            }
            i += 1;
        }
        None
    }
}

/// What an explicit font setting gives: the last word as the size when it is
/// a number in `1..=199`, the rest (trimmed) as the family; otherwise the whole
/// setting as the family at the default size. Nothing for a blank setting.
pub open spec fn font_spec(spec: Seq<char>) -> Option<(Seq<char>, i32)> {
    let s = trim_seq(spec);
    if s.len() == 0 {
        None
    } else if exists|k: int| last_at(s, ' ', k) {
        let k = choose|k: int| last_at(s, ' ', k);
        match parse_signed(s.skip(k + 1), 10, i32::MIN as int, i32::MAX as int) {
            Some(n) => if 0 < n < 200 {
                Some((trim_seq(s.take(k)), n as i32))
            } else {
                Some((s, DEFAULT_SIZE))
            },
            None => Some((s, DEFAULT_SIZE)),
        }
    } else {
        Some((s, DEFAULT_SIZE))
    }
}

/// Parses a Pango-style description such as `"JetBrainsMono Nerd Font 12"`.
pub fn parse_font_spec(spec: &str) -> (r: Option<Font>)
    ensures
        r is Some <==> font_spec(spec@) is Some,
        r matches Some(f) ==> f.family@ == (font_spec(spec@)->0).0 && f.size == (font_spec(
            spec@,
        )->0).1,
{
    let v = chars_of(spec);
    let (lo, hi) = trim_range(v.as_slice(), 0, v.len());
    assert(v@.subrange(0, v@.len() as int) == v@);
    let ghost s = trim_seq(spec@);
    assert(s == v@.subrange(lo as int, hi as int));
    if lo == hi {
        return None;
    }
    let whole = string_of(v.as_slice(), lo, hi);
    match find_last(v.as_slice(), lo, hi, ' ') {
        None => {
            assert forall|k: int| !last_at(s, ' ', k) by {
                if 0 <= k < s.len() {
                    assert(s[k] == v@[lo + k]);
                }
            }
            Some(Font { family: whole, size: DEFAULT_SIZE })
        },
        Some(sp) => {
            proof {
                let k = choose|k: int| last_at(s, ' ', k);
                if k < sp - lo {
                    assert(s[sp - lo] == ' ');
                } else if k > sp - lo {
                    assert(s[k] == ' ');
                }
                assert(k == sp - lo);
                assert(s.skip(k + 1) == v@.subrange(sp + 1, hi as int));
                assert(s.take(k) == v@.subrange(lo as int, sp as int));
            }
            let tail = string_of(v.as_slice(), sp + 1, hi);
            let tv = chars_of(tail.as_str());
            match crate::numbers::parse_i32_chars(tv.as_slice()) {
                Some(n) => {
                    if n > 0 && n < 200 {
                        let (flo, fhi) = trim_range(v.as_slice(), lo, sp);
                        let family = string_of(v.as_slice(), flo, fhi);
                        Some(Font { family, size: n })
                    } else {
                        Some(Font { family: whole, size: DEFAULT_SIZE })
                    }
                },
                None => Some(Font { family: whole, size: DEFAULT_SIZE }),
            }
        },
    }
}

} // verus!
