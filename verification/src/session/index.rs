//! The session file: which tabs were open, and where to find their contents.
//!
//! The file is kept in two copies, and recovery is forgiving by design: a
//! primary that will not parse falls back to the backup, an entry that cannot
//! mean anything is dropped rather than failing the whole restore, and with
//! neither copy usable the editor starts with an empty session. Reading and
//! writing the files is the caller's; what is decided about their contents is
//! here.

use vstd::prelude::*;

use crate::strings::{
    chars_of, char_is_alphanumeric, is_ascii_alnum, string_from, string_of, unicode_alphanumeric,
};
use crate::text::LineEnding;

verus! {

/// Bumped when the on-disk shape changes incompatibly. An older or newer
/// version is ignored rather than guessed at.
pub const VERSION: u32 = 1;

pub open spec fn ending_name(e: LineEnding) -> Seq<char> {
    match e {
        LineEnding::Lf => "lf"@,
        LineEnding::CrLf => "crlf"@,
        LineEnding::Cr => "cr"@,
    }
}

/// The name a line ending is stored under.
pub fn line_ending_name(e: LineEnding) -> (r: &'static str)
    ensures
        r@ == ending_name(e),
{
    match e {
        LineEnding::Lf => "lf",
        LineEnding::CrLf => "crlf",
        LineEnding::Cr => "cr",
    }
}

/// The line ending a stored name stands for; anything unknown is LF.
pub open spec fn ending_from(name: Seq<char>) -> LineEnding {
    if name == "crlf"@ {
        LineEnding::CrLf
    } else if name == "cr"@ {
        LineEnding::Cr
    } else {
        LineEnding::Lf
    }
}

fn is_text(v: &[char], lit: &str) -> (r: bool)
    ensures
        r == (v@ == lit@),
{
    let l = chars_of(lit);
    crate::strings::slice_eq(v, l.as_slice())
}

/// Reads a stored line-ending name.
pub fn line_ending_from(name: &str) -> (r: LineEnding)
    ensures
        r == ending_from(name@),
{
    let v = chars_of(name);
    if is_text(v.as_slice(), "crlf") {
        LineEnding::CrLf
    } else if is_text(v.as_slice(), "cr") {
        LineEnding::Cr
    } else {
        LineEnding::Lf
    }
}

/// Storing a line ending and reading it back gives the same line ending.
pub proof fn stored_line_endings_read_back(e: LineEnding)
    ensures
        ending_from(ending_name(e)) == e,
{
    reveal_strlit("lf");
    reveal_strlit("crlf");
    reveal_strlit("cr");
    assert("lf"@.len() != "crlf"@.len());
    assert("lf"@[0] != "cr"@[0]);
    assert("cr"@.len() != "crlf"@.len());
}

/// One tab of a session.
#[derive(Debug, Clone)]
pub struct Entry {
    /// Directory name holding this document's mirror.
    pub key: String,
    /// Absent for a document that has never been saved.
    pub path: Option<String>,
    pub untitled_number: u32,
    pub cursor: i32,
    /// True when the mirror differs from what is on disk: the tab had unsaved
    /// changes.
    pub modified: bool,
    pub encoding: String,
    pub line_ending: String,
    pub had_bom: bool,
    /// Size and modification time of the file when it was last read or
    /// written, to notice that something else changed it meanwhile.
    pub disk_size: Option<u64>,
    pub disk_mtime_secs: Option<u64>,
}

/// The encoding an entry without one is taken to have.
pub fn default_encoding() -> (r: String)
    ensures
        r@ == "UTF-8"@,
{
    "UTF-8".to_owned()
}

impl Entry {
    pub fn line_ending(&self) -> (r: LineEnding)
        ensures
            r == ending_from(self.line_ending@),
    {
        line_ending_from(self.line_ending.as_str())
    }

    pub fn set_line_ending(&mut self, e: LineEnding)
        ensures
            final(self).line_ending@ == ending_name(e),
            final(self).key == old(self).key,
            final(self).path == old(self).path,
            final(self).untitled_number == old(self).untitled_number,
            final(self).cursor == old(self).cursor,
            final(self).modified == old(self).modified,
            final(self).encoding == old(self).encoding,
            final(self).had_bom == old(self).had_bom,
            final(self).disk_size == old(self).disk_size,
            final(self).disk_mtime_secs == old(self).disk_mtime_secs,
    {
        self.line_ending = line_ending_name(e).to_owned();
    }

    /// A tab worth restoring: it points at a file, or it has unsaved contents
    /// of its own. An untitled tab never typed into is not.
    pub fn is_worth_restoring(&self) -> (r: bool)
        ensures
            r == (self.path is Some || self.modified),
    {
        self.path.is_some() || self.modified
    }
}

/// The open tabs, and which was in front.
#[derive(Debug, Clone)]
pub struct Session {
    pub version: u32,
    pub documents: Vec<Entry>,
    /// Index into `documents` of the tab that was in front.
    pub active: usize,
    pub next_untitled: u32,
}

impl Default for Session {
    fn default() -> (r: Self)
        ensures
            r.version == VERSION,
            r.documents@.len() == 0,
            r.active == 0,
            r.next_untitled == 1,
    {
        Session { version: VERSION, documents: Vec::new(), active: 0, next_untitled: 1 }
    }
}

/// An entry that can mean something: it names a mirror.
pub open spec fn has_key() -> spec_fn(Entry) -> bool {
    |e: Entry| e.key@.len() > 0
}

/// `r` is `s` with the entries that cannot mean anything dropped, the active
/// index pointing at one that exists, and untitled numbering starting at 1.
pub open spec fn sanitised_from(r: Session, s: Session) -> bool {
    let docs = s.documents@.filter(has_key());
    &&& r.version == s.version
    &&& r.documents@ == docs
    &&& r.active == if docs.len() == 0 {
        0
    } else if s.active >= docs.len() {
        (docs.len() - 1) as usize
    } else {
        s.active
    }
    &&& r.next_untitled == if s.next_untitled >= 1 {
        s.next_untitled
    } else {
        1
    }
}

impl Session {
    /// Drops entries that cannot mean anything, and makes the active index
    /// point at something that exists.
    pub fn sanitised(self) -> (r: Session)
        ensures
            sanitised_from(r, self),
    {
        let ghost orig = self;
        let Session { version, documents, active, next_untitled } = self;
        let mut docs = documents;
        let n = docs.len();
        // Take the entries off the end, then put back those worth keeping in
        // their original order.
        let mut rev: Vec<Entry> = Vec::new();
        while docs.len() > 0
            invariant
                n == orig.documents@.len(),
                docs@ == orig.documents@.take(docs@.len() as int),
                rev@.len() + docs@.len() == n,
                forall|k: int| 0 <= k < rev@.len() ==> #[trigger] rev@[k] == orig.documents@[n - 1 - k],
            decreases docs@.len(),
        {
            let e = docs.pop().unwrap();
            proof {
                assert(e == orig.documents@[docs@.len() as int]);
            }
            rev.push(e);
        }
        let mut kept: Vec<Entry> = Vec::new();
        let ghost mut j: int = 0;
        while rev.len() > 0
            invariant
                n == orig.documents@.len(),
                0 <= j <= n,
                rev@.len() == n - j,
                forall|k: int| 0 <= k < rev@.len() ==> #[trigger] rev@[k] == orig.documents@[n - 1 - k],
                kept@ == orig.documents@.take(j).filter(has_key()),
            decreases rev@.len(),
        {
            let e = rev.pop().unwrap();
            proof {
                assert(e == orig.documents@[j]);
                let t = orig.documents@.take(j + 1);
                assert(t.drop_last() == orig.documents@.take(j));
                assert(t.last() == e);
                reveal_with_fuel(Seq::filter, 1);
            }
            if !e.key.as_str().is_empty() {
                kept.push(e);
            }
            proof {
                j = j + 1;
            }
        }
        proof {
            assert(orig.documents@.take(n as int) == orig.documents@);
        }
        let len = kept.len();
        let active = if len == 0 {
            0
        } else if active >= len {
            len - 1
        } else {
            active
        };
        let next_untitled = if next_untitled >= 1 {
            next_untitled
        } else {
            1
        };
        Session { version, documents: kept, active, next_untitled }
    }
}

/// A copy that was read, parsed, and written by this version.
pub open spec fn usable(copy: Option<Session>) -> bool {
    copy is Some && copy->0.version == VERSION
}

/// The session recovery settles on, given what could be read from the
/// primary and the backup copies (`None` where a copy is missing or does not
/// parse): the first copy written by this version, sanitised, or else an
/// empty session.
pub fn recover(primary: Option<Session>, backup: Option<Session>) -> (r: Session)
    ensures
        usable(primary) ==> sanitised_from(r, primary->0),
        !usable(primary) && usable(backup) ==> sanitised_from(r, backup->0),
        !usable(primary) && !usable(backup) ==> r.version == VERSION && r.documents@.len() == 0
            && r.active == 0 && r.next_untitled == 1,
{
    if let Some(p) = primary {
        if p.version == VERSION {
            return p.sanitised();
        }
    }
    if let Some(b) = backup {
        if b.version == VERSION {
            return b.sanitised();
        }
    }
    Session::default()
}

/// A named session as read back: used only when written by this version.
pub fn accept_named(s: Session) -> (r: Option<Session>)
    ensures
        s.version == VERSION ==> r is Some && sanitised_from(r->0, s),
        s.version != VERSION ==> r is None,
{
    if s.version == VERSION {
        Some(s.sanitised())
    } else {
        None
    }
}

/// The characters kept in a session name as they are; any other becomes a
/// hyphen.
pub open spec fn kept_in_name(c: char) -> bool {
    name_alnum(c) || c == '-' || c == '_' || c == ' '
}

/// `char::is_alphanumeric`, which for ASCII is exactly the letters and digits.
pub open spec fn name_alnum(c: char) -> bool {
    if (c as u32) < 128 {
        is_ascii_alnum(c)
    } else {
        unicode_alphanumeric(c)
    }
}

pub open spec fn clean_char(c: char) -> char {
    if kept_in_name(c) {
        c
    } else {
        '-'
    }
}

pub open spec fn is_name_sep(c: char) -> bool {
    c == '-' || c == ' '
}

/// The words of `s` (runs of characters other than hyphens and spaces),
/// joined by single hyphens: each character starts a new word after a
/// separator, and words after the first are preceded by one hyphen.
pub open spec fn collapse(s: Seq<char>) -> Seq<char>
    decreases s.len(),
{
    if s.len() == 0 {
        Seq::empty()
    } else {
        let prev = collapse(s.drop_last());
        let c = s.last();
        if is_name_sep(c) {
            prev
        } else if s.len() >= 2 && is_name_sep(s[s.len() - 2]) && prev.len() > 0 {
            prev + seq!['-', c]
        } else {
            prev.push(c)
        }
    }
}

/// The longest a session name gets, in characters.
pub const NAME_MAX: usize = 64;

/// What a session name becomes on disk.
pub open spec fn sanitised_name(name: Seq<char>) -> Seq<char> {
    let words = collapse(name.map_values(|c: char| clean_char(c)));
    if words.len() == 0 {
        "session"@
    } else if words.len() > 64 {
        words.take(64)
    } else {
        words
    }
}

/// Reduces a session name to something safe as a file name: no path
/// separators or dots survive, so a name cannot climb out of the sessions
/// directory, and runs of punctuation and spaces become single hyphens.
pub fn sanitise_name(name: &str) -> (r: String)
    ensures
        r@ == sanitised_name(name@),
{
    let v = chars_of(name);
    let ghost cleaned = name@.map_values(|c: char| clean_char(c));
    let mut out: Vec<char> = Vec::new();
    let mut prev_sep = false;
    let mut i: usize = 0;
    while i < v.len()
        invariant
            v@ == name@,
            cleaned == name@.map_values(|c: char| clean_char(c)),
            i <= v@.len(),
            out@ == collapse(cleaned.take(i as int)),
            prev_sep == (i > 0 && is_name_sep(cleaned[i - 1])),
        decreases v@.len() - i,
    {
        let c = v[i];
        let keep = char_is_alphanumeric(c) || c == '-' || c == '_' || c == ' ';
        let cc = if keep {
            c
        } else {
            '-'
        };
        proof {
            assert(cc == cleaned[i as int]);
            let t = cleaned.take(i + 1);
            assert(t.drop_last() == cleaned.take(i as int));
            assert(t.last() == cc);
            if i > 0 {
                assert(t[t.len() - 2] == cleaned[i - 1]);
            }
        }
        if cc == '-' || cc == ' ' {
            prev_sep = true;
        } else {
            if prev_sep && out.len() > 0 {
                out.push('-');
            }
            out.push(cc);
            prev_sep = false;
        }
        i += 1;
    }
    proof {
        assert(cleaned.take(v@.len() as int) == cleaned);
    }
    if out.len() == 0 {
        "session".to_owned()
    } else if out.len() > NAME_MAX {
        string_of(out.as_slice(), 0, NAME_MAX)
    } else {
        string_from(out.as_slice())
    }
}

/// The file a named session is kept in: its sanitised name with `.json`.
pub fn named_file_name(name: &str) -> (r: String)
    ensures
        r@ == sanitised_name(name@) + ".json"@,
{
    let mut out = sanitise_name(name);
    crate::strings::push_str(&mut out, ".json");
    out
}

/// What `collapse` produces holds no space, never two hyphens in a row, and
/// neither starts nor ends with a hyphen.
proof fn lemma_collapse_shape(s: Seq<char>)
    ensures
        forall|j: int| 0 <= j < collapse(s).len() ==> #[trigger] collapse(s)[j] != ' ',
        forall|j: int| 0 <= j < collapse(s).len() ==> (#[trigger] collapse(s)[j] == '-' || s.contains(collapse(s)[j])),
        collapse(s).len() > 0 ==> collapse(s)[0] != '-' && collapse(s).last() != '-',
    decreases s.len(),
{
    if s.len() > 0 {
        let t = s.drop_last();
        lemma_collapse_shape(t);
        let prev = collapse(t);
        let c = s.last();
        assert(s.contains(c)) by {
            assert(s[s.len() - 1] == c);
        }
        assert forall|e: char| t.contains(e) implies s.contains(e) by {
            let i = choose|i: int| 0 <= i < t.len() && t[i] == e;
            assert(s[i] == e);
        }
        if !is_name_sep(c) && s.len() >= 2 && is_name_sep(s[s.len() - 2]) && prev.len() > 0 {
            let r = prev + seq!['-', c];
            assert forall|j: int| 0 <= j < r.len() implies (#[trigger] r[j] == '-' || s.contains(r[j])) by {
                if j < prev.len() {
                    assert(r[j] == prev[j]);
                }
            }
            assert(r[0] == prev[0]);
        } else if !is_name_sep(c) {
            let r = prev.push(c);
            assert forall|j: int| 0 <= j < r.len() implies (#[trigger] r[j] == '-' || s.contains(r[j])) by {
                if j < prev.len() {
                    assert(r[j] == prev[j]);
                }
            }
            if prev.len() > 0 {
                assert(r[0] == prev[0]);
            }
        }
    }
}

/// A sanitised session name is safe as a file name: it is never empty, at
/// most 64 characters long, does not start with a hyphen, and holds only
/// letters and digits, hyphens and underscores; in particular no `/` and no
/// `.`, so it cannot climb out of the directory it is put in.
pub proof fn sanitised_names_are_safe(name: Seq<char>)
    ensures
        ({
            let r = sanitised_name(name);
            &&& 0 < r.len() <= 64
            &&& r[0] != '-'
            &&& forall|j: int|
                0 <= j < r.len() ==> name_alnum(#[trigger] r[j]) || r[j] == '-' || r[j] == '_'
            &&& forall|j: int| 0 <= j < r.len() ==> #[trigger] r[j] != '/' && r[j] != '.'
        }),
{
    let cleaned = name.map_values(|c: char| clean_char(c));
    let w = collapse(cleaned);
    lemma_collapse_shape(cleaned);
    let r = sanitised_name(name);
    if w.len() == 0 {
        reveal_strlit("session");
        assert forall|j: int| 0 <= j < r.len() implies name_alnum(#[trigger] r[j]) || r[j] == '-'
            || r[j] == '_' by {
            assert(is_ascii_alnum(r[j]));
        }
    } else {
        assert forall|j: int| 0 <= j < r.len() implies name_alnum(#[trigger] r[j]) || r[j] == '-'
            || r[j] == '_' by {
            assert(r[j] == w[j]);
            if w[j] != '-' {
                assert(cleaned.contains(w[j]));
                let k = choose|k: int| 0 <= k < cleaned.len() && cleaned[k] == w[j];
                assert(cleaned[k] == clean_char(name[k]));
            }
        }
    }
    assert forall|j: int| 0 <= j < r.len() implies #[trigger] r[j] != '/' && r[j] != '.' by {
        if name_alnum(r[j]) {
            assert((r[j] as u32) < 128 ==> is_ascii_alnum(r[j]));
        }
    }
}

} // verus!
