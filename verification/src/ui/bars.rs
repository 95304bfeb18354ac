//! What the status bar and the find bar say.

use vstd::prelude::*;

use crate::numbers::{decimal, push_decimal, push_i32, signed_decimal};
use crate::strings::{push_char, push_str};
use crate::text::LargeFileReason;

verus! {

/// How many tabs hold changes that are not on disk: nothing for none.
pub open spec fn unsaved_spec(count: nat) -> Seq<char> {
    if count == 0 {
        Seq::empty()
    } else {
        decimal(count) + " unsaved"@
    }
}

pub fn unsaved_text(count: usize) -> (r: String)
    ensures
        r@ == unsaved_spec(count as nat),
{
    let mut out = String::new();
    if count > 0 {
        push_decimal(&mut out, count as u64);
        push_str(&mut out, " unsaved");
    }
    out
}

/// Line and column, both shown 1-based, as every editor shows them.
pub fn position_text(line: i32, column: i32) -> (r: String)
    requires
        line < i32::MAX,
        column < i32::MAX,
    ensures
        r@ == "Ln "@ + signed_decimal(line + 1) + ", Col "@ + signed_decimal(column + 1),
{
    let mut out = String::new();
    push_str(&mut out, "Ln ");
    push_i32(&mut out, line + 1);
    push_str(&mut out, ", Col ");
    push_i32(&mut out, column + 1);
    out
}

/// The encoding as the status bar shows it: a byte-order mark and a lossy
/// decoding are called out, since saving a lossy file would write replacement
/// characters over whatever was really there.
pub open spec fn encoding_spec(encoding: Seq<char>, had_bom: bool, lossy: bool) -> Seq<char> {
    encoding + (if had_bom {
        " BOM"@
    } else {
        Seq::empty()
    }) + (if lossy {
        " (lossy)"@
    } else {
        Seq::empty()
    })
}

pub fn encoding_text(encoding: &str, had_bom: bool, lossy: bool) -> (r: String)
    ensures
        r@ == encoding_spec(encoding@, had_bom, lossy),
{
    let mut out = String::new();
    push_str(&mut out, encoding);
    if had_bom {
        push_str(&mut out, " BOM");
    }
    if lossy {
        push_str(&mut out, " (lossy)");
    }
    out
}

/// The reduced-mode notice, or nothing.
pub fn notice_text(large_file: Option<LargeFileReason>) -> (r: String)
    ensures
        large_file is None ==> r@.len() == 0,
        large_file matches Some(reason) ==> r@ == "reduced mode: "@ + (match reason {
            LargeFileReason::LongLines { .. } => "long lines"@,
            LargeFileReason::BigFile { .. } => "large file"@,
        }),
{
    let mut out = String::new();
    if let Some(reason) = large_file {
        push_str(&mut out, "reduced mode: ");
        push_str(&mut out, reason.short());
    }
    out
}

/// The find bar's count: nothing without a query, "No results", the
/// position of the match the caret is on, or how many were found when it is
/// on none (the search reports a position of 0 or less then).
pub open spec fn match_count_spec(query_empty: bool, current: i32, total: i32) -> Seq<char> {
    if query_empty {
        Seq::empty()
    } else if total == 0 {
        "No results"@
    } else if current > 0 {
        signed_decimal(current as int) + " of "@ + signed_decimal(total as int)
    } else {
        signed_decimal(total as int) + " found"@
    }
}

pub fn match_count_text(query_empty: bool, current: i32, total: i32) -> (r: String)
    ensures
        r@ == match_count_spec(query_empty, current, total),
{
    let mut out = String::new();
    if query_empty {
        return out;
    }
    if total == 0 {
        push_str(&mut out, "No results");
    } else if current > 0 {
        push_i32(&mut out, current);
        push_str(&mut out, " of ");
        push_i32(&mut out, total);
    } else {
        push_i32(&mut out, total);
        push_str(&mut out, " found");
    }
    out
}

/// The window title: the document's title, marked when it has unsaved
/// changes.
pub fn window_title(modified: bool, title: &str) -> (r: String)
    ensures
        r@ == (if modified {
            seq!['*']
        } else {
            Seq::empty()
        }) + title@ + " — f3note"@,
{
    let mut out = String::new();
    if modified {
        push_char(&mut out, '*');
    }
    push_str(&mut out, title);
    push_str(&mut out, " — f3note");
    out
}

/// How many matches a search across files found.
pub open spec fn matches_spec(n: nat) -> Seq<char> {
    if n == 0 {
        "No matches"@
    } else if n == 1 {
        "1 match"@
    } else {
        decimal(n) + " matches"@
    }
}

pub fn matches_summary(n: usize) -> (r: String)
    ensures
        r@ == matches_spec(n as nat),
{
    if n == 0 {
        "No matches".to_owned()
    } else if n == 1 {
        "1 match".to_owned()
    } else {
        let mut out = String::new();
        push_decimal(&mut out, n as u64);
        push_str(&mut out, " matches");
        out
    }
}

/// Fewer characters than this match nearly everything, which makes the list
/// useless while costing the most to build: such a query searches nothing.
pub const MIN_SEARCH_CHARS: usize = 2;

/// At most this many results are listed; the summary still counts them all.
pub const MAX_LISTED_RESULTS: usize = 500;

/// Whether a search across files runs for this query: only from
/// `MIN_SEARCH_CHARS` characters on.
pub fn worth_searching(query: &str) -> (r: bool)
    ensures
        r == (query@.len() >= 2),
{
    query.unicode_len() >= MIN_SEARCH_CHARS
}

/// How many of `found` results are listed.
pub fn listed_results(found: usize) -> (r: usize)
    ensures
        r == if found <= 500 { found } else { 500 },
{
    if found <= MAX_LISTED_RESULTS {
        found
    } else {
        MAX_LISTED_RESULTS
    }
}

/// What the session name box asks for, by how many tabs are open.
pub open spec fn name_prompt_spec(open: nat) -> Seq<char> {
    if open == 1 {
        "Name for this tab, then Enter"@
    } else {
        "Name for these "@ + decimal(open) + " tabs, then Enter"@
    }
}

pub fn name_prompt(open: usize) -> (r: String)
    ensures
        r@ == name_prompt_spec(open as nat),
{
    if open == 1 {
        "Name for this tab, then Enter".to_owned()
    } else {
        let mut out = "Name for these ".to_owned();
        push_decimal(&mut out, open as u64);
        push_str(&mut out, " tabs, then Enter");
        out
    }
}

/// The sessions list's heading: with none saved yet there is nothing to pick.
pub fn sessions_heading(any_saved: bool) -> (r: &'static str)
    ensures
        r@ == if any_saved {
            "Sessions — pick one to switch, or name these tabs below"@
        } else {
            "Sessions"@
        },
{
    if any_saved {
        "Sessions — pick one to switch, or name these tabs below"
    } else {
        "Sessions"
    }
}

/// What the banner says once a saved session is forgotten.
pub fn forgot_session_message(name: &str) -> (r: String)
    ensures
        r@ == "Forgot the session \""@ + name@ + "\"."@,
{
    let mut out = "Forgot the session \"".to_owned();
    push_str(&mut out, name);
    push_str(&mut out, "\".");
    out
}

/// What a document's view shows and does. Reduced mode turns off what costs
/// the most on a pathological file: wrapping, highlighting, bracket matching.
#[derive(Debug, Clone, Copy, PartialEq, Eq, Structural)]
pub struct Capabilities {
    pub line_numbers: bool,
    pub highlight_current_line: bool,
    pub wrap: bool,
    pub match_brackets: bool,
    pub highlight_syntax: bool,
}

pub fn capabilities(
    line_numbers: bool,
    highlight_current_line: bool,
    wrap: bool,
    syntax_highlighting: bool,
    reduced: bool,
) -> (r: Capabilities)
    ensures
        r.line_numbers == line_numbers,
        r.highlight_current_line == (highlight_current_line && !reduced),
        r.wrap == (wrap && !reduced),
        r.match_brackets == !reduced,
        r.highlight_syntax == (syntax_highlighting && !reduced),
{
    Capabilities {
        line_numbers,
        highlight_current_line: highlight_current_line && !reduced,
        wrap: wrap && !reduced,
        match_brackets: !reduced,
        highlight_syntax: syntax_highlighting && !reduced,
    }
}

} // verus!
