//! A document: what one tab knows that is not a widget.
//!
//! A document can exist without a buffer, holding only its path and a
//! remembered cursor position until its tab is first shown. What is decided
//! about it without a display is here: how it is titled, and whether the file
//! on disk changed underneath it.

use vstd::prelude::*;

use crate::numbers::{decimal, push_decimal};
use crate::strings::{push_char, push_str};
use crate::text::{LargeFileReason, LineEnding};

verus! {

pub type DocumentId = u64;

/// What the document knows about the file on disk when it was last read or
/// written: its modification time (nanoseconds from the Unix epoch) and size,
/// each absent when it could not be read.
#[derive(Debug, Clone, Copy, PartialEq, Eq, Structural)]
pub struct DiskStamp {
    pub mtime: Option<i128>,
    pub size: Option<u64>,
}

impl Default for DiskStamp {
    fn default() -> (r: Self)
        ensures
            r.mtime is None,
            r.size is None,
    {
        DiskStamp { mtime: None, size: None }
    }
}

impl DiskStamp {
    /// True when the file on disk no longer matches what was last seen. A
    /// stamp with no modification time (an unreadable or absent file) is not
    /// treated as a change: that would fire constantly on network mounts and
    /// during another program's atomic replace.
    pub fn differs_from(&self, other: &DiskStamp) -> (r: bool)
        ensures
            r == (self.mtime is Some && other.mtime is Some && (self.mtime != other.mtime
                || self.size != other.size)),
    {
        match (self.mtime, other.mtime) {
            (Some(a), Some(b)) => a != b || !same_size(self.size, other.size),
            _ => false,
        }
    }
}

fn same_size(a: Option<u64>, b: Option<u64>) -> (r: bool)
    ensures
        r == (a == b),
{
    match (a, b) {
        (Some(x), Some(y)) => x == y,
        (None, None) => true,
        _ => false,
    }
}

/// Everything about a document that is not a widget.
#[derive(Debug, Clone)]
pub struct Meta {
    pub path: Option<String>,
    /// Number shown for a document that has never been saved: "Untitled 3".
    pub untitled_number: u32,
    pub encoding: String,
    pub line_ending: LineEnding,
    pub had_bom: bool,
    pub large_file: Option<LargeFileReason>,
    pub disk: DiskStamp,
    /// Byte offset of the caret, remembered for a document whose buffer has
    /// not been built yet.
    pub cursor_offset: i32,
    /// Decoding produced replacement characters; saving would lose data.
    pub lossy: bool,
}

/// What `Path::file_name` gives for a path, as text.
pub uninterp spec fn file_name_spec(path: Seq<char>) -> Option<Seq<char>>;

/// `Path::file_name`: the final component of a path, if there is one.
#[verifier::external_body]
fn file_name_of(path: &str) -> (r: Option<String>)
    ensures
        r is Some <==> file_name_spec(path@) is Some,
        r is Some ==> file_name_spec(path@) == Some(r->0@),
{
    match std::path::Path::new(path).file_name() {
        Some(n) => Some(n.to_string_lossy().into_owned()),
        None => None,
    }
}

/// The name shown for a document: its file name, the whole path when it has
/// none, or "Untitled N" for a document never saved.
pub open spec fn title_spec(path: Option<Seq<char>>, untitled_number: u32) -> Seq<char> {
    match path {
        Some(p) => match file_name_spec(p) {
            Some(n) => n,
            None => p,
        },
        None => "Untitled "@ + decimal(untitled_number as nat),
    }
}

pub open spec fn path_text(path: Option<String>) -> Option<Seq<char>> {
    match path {
        Some(p) => Some(p@),
        None => None,
    }
}

impl Meta {
    /// The name shown on the tab, without the modified marker.
    pub fn title(&self) -> (r: String)
        ensures
            r@ == title_spec(path_text(self.path), self.untitled_number),
    {
        match &self.path {
            Some(p) => match file_name_of(p.as_str()) {
                Some(n) => n,
                None => p.as_str().to_owned(),
            },
            None => {
                let mut out = String::new();
                push_str(&mut out, "Untitled ");
                push_decimal(&mut out, self.untitled_number as u64);
                out
            },
        }
    }

    /// The tab label: the title, after a leading asterisk when there are
    /// unsaved changes.
    pub fn tab_label(&self, modified: bool) -> (r: String)
        ensures
            modified ==> r@ == seq!['*'] + title_spec(path_text(self.path), self.untitled_number),
            !modified ==> r@ == title_spec(path_text(self.path), self.untitled_number),
    {
        let title = self.title();
        if modified {
            let mut out = String::new();
            push_char(&mut out, '*');
            push_str(&mut out, title.as_str());
            out
        } else {
            title
        }
    }

    /// The full path, for the window title and the tab tooltip; the title
    /// for a document never saved.
    pub fn describe(&self) -> (r: String)
        ensures
            self.path matches Some(p) ==> r@ == p@,
            self.path is None ==> r@ == title_spec(None, self.untitled_number),
    {
        match &self.path {
            Some(p) => p.as_str().to_owned(),
            None => self.title(),
        }
    }
}

/// Whether the file changed underneath a document: never for one without a
/// path; otherwise when the stamp read now differs from the one recorded.
pub fn changed_on_disk(has_path: bool, now: &DiskStamp, recorded: &DiskStamp) -> (r: bool)
    ensures
        r == (has_path && now.mtime is Some && recorded.mtime is Some && (now.mtime
            != recorded.mtime || now.size != recorded.size)),
{
    has_path && now.differs_from(recorded)
}

} // verus!
