//! Recently opened files.
//!
//! A plain list of paths, newest first, one per line in the state directory.
//! Deliberately not a database: it must survive being edited by hand, and a
//! corrupt entry should cost one line rather than the list. Reading and
//! writing the file is the caller's; the list itself is decided here.

use vstd::prelude::*;

use crate::paths::{join, path_joined};
use crate::strings::{chars_of, line_ranges, lines_of, push_char, push_str, string_of, trim_range, trim_seq};

verus! {

/// How many paths to remember.
pub const LIMIT: usize = 50;

/// Whether two path texts name the same path, as `Path`'s `==` compares them
/// (component by component).
pub uninterp spec fn same_path_spec(a: Seq<char>, b: Seq<char>) -> bool;

/// `Path == Path` on two path texts. Equal texts are equal paths.
#[verifier::external_body]
pub(crate) fn same_path(a: &str, b: &str) -> (r: bool)
    ensures
        r == same_path_spec(a@, b@),
        a@ == b@ ==> r,
{
    std::path::Path::new(a) == std::path::Path::new(b)
}

/// The texts of a list of strings.
pub open spec fn texts(v: Seq<String>) -> Seq<Seq<char>> {
    v.map_values(|s: String| s@)
}

/// Whether `list` holds a path equal to `p`.
pub open spec fn holds_path(list: Seq<Seq<char>>, p: Seq<char>) -> bool {
    exists|i: int| 0 <= i < list.len() && same_path_spec(#[trigger] list[i], p)
}

/// The list read from the first `n` lines: each line trimmed, blank lines
/// skipped, a path seen before skipped (the first is the most recent), and at
/// most `LIMIT` kept.
pub open spec fn parsed_from(lines: Seq<Seq<char>>, n: int) -> Seq<Seq<char>>
    decreases n,
{
    if n <= 0 {
        Seq::empty()
    } else {
        let prev = parsed_from(lines, n - 1);
        let t = trim_seq(lines[n - 1]);
        if t.len() == 0 || holds_path(prev, t) || prev.len() >= 50 {
            prev
        } else {
            prev.push(t)
        }
    }
}

/// The first `LIMIT` entries of a list.
pub open spec fn capped(ps: Seq<Seq<char>>) -> Seq<Seq<char>> {
    if ps.len() > 50 {
        ps.take(50)
    } else {
        ps
    }
}

/// One line per path, each ended by a line break.
pub open spec fn lines_text(ps: Seq<Seq<char>>) -> Seq<char>
    decreases ps.len(),
{
    if ps.len() == 0 {
        Seq::empty()
    } else {
        lines_text(ps.drop_last()) + ps.last() + seq!['\n']
    }
}

pub open spec fn has_newline(p: Seq<char>) -> bool {
    p.contains('\n')
}

/// What the file holds for a list: the paths that fit on a line, at most
/// `LIMIT` of them, one per line; a single line break for none.
pub open spec fn render_spec(ps: Seq<Seq<char>>) -> Seq<char> {
    let kept = capped(ps.filter(|p: Seq<char>| !has_newline(p)));
    if kept.len() == 0 {
        seq!['\n']
    } else {
        lines_text(kept)
    }
}

/// The list after opening `path`: it moves to the front, any other entry
/// naming it goes, and the list is cut at `LIMIT`.
pub open spec fn record_spec(ps: Seq<Seq<char>>, path: Seq<char>) -> Seq<Seq<char>> {
    let moved = seq![path] + ps.filter(|p: Seq<char>| !same_path_spec(p, path));
    if moved.len() > 50 {
        moved.take(50)
    } else {
        moved
    }
}

/// The entries of `ps` whose flag in `present` is set; an entry without a
/// flag counts as gone.
pub open spec fn present_only(ps: Seq<Seq<char>>, present: Seq<bool>) -> Seq<Seq<char>>
    decreases ps.len(),
{
    if ps.len() == 0 {
        Seq::empty()
    } else {
        let prev = present_only(ps.drop_last(), present);
        let i = ps.len() - 1;
        if i < present.len() && present[i] {
            prev.push(ps.last())
        } else {
            prev
        }
    }
}

/// The list of recently opened files, kept in a file of its own.
pub struct Recent {
    path: String,
}

/// Whether `p` is in `list`, as a path.
pub(crate) fn holds(list: &Vec<String>, p: &str) -> (r: bool)
    ensures
        r == holds_path(texts(list@), p@),
{
    let mut i: usize = 0;
    while i < list.len()
        invariant
            i <= list@.len(),
            forall|j: int| 0 <= j < i ==> !same_path_spec(#[trigger] texts(list@)[j], p@),
        decreases list@.len() - i,
    {
        if same_path(list[i].as_str(), p) {
            assert(same_path_spec(texts(list@)[i as int], p@));
            return true;
        }
        i += 1;
    }
    false
}

fn has_newline_in(p: &str) -> (r: bool)
    ensures
        r == has_newline(p@),
{
    let v = chars_of(p);
    let mut i: usize = 0;
    while i < v.len()
        invariant
            v@ == p@,
            i <= v@.len(),
            forall|j: int| 0 <= j < i ==> v@[j] != '\n',
        decreases v@.len() - i,
    {
        if v[i] == '\n' {
            assert(v@[i as int] == '\n');
            return true;
        }
        i += 1;
    }
    false
}

impl Recent {
    /// The file the list is kept in.
    pub closed spec fn file(&self) -> Seq<char> {
        self.path@
    }

    /// The list kept in `state_dir`.
    pub fn new(state_dir: &str) -> (r: Recent)
        ensures
            r.file() == path_joined(state_dir@, "recent"@),
    {
        Recent { path: join(state_dir, "recent") }
    }

    /// Where the list is kept.
    pub fn path(&self) -> (r: &str)
        ensures
            r@ == self.file(),
    {
        self.path.as_str()
    }

    /// Reads the list from the file's text.
    pub fn parse(text: &str) -> (r: Vec<String>)
        ensures
            texts(r@) == parsed_from(lines_of(text@), lines_of(text@).len() as int),
    {
        let s = chars_of(text);
        let lines = line_ranges(s.as_slice());
        let ghost ls = lines_of(text@);
        let mut out: Vec<String> = Vec::new();
        let mut i: usize = 0;
        while i < lines.len()
            invariant
                s@ == text@,
                ls == lines_of(text@),
                lines@.len() == ls.len(),
                forall|k: int|
                    0 <= k < lines@.len() ==> {
                        &&& (#[trigger] lines@[k]).0 <= lines@[k].1 <= s@.len()
                        &&& s@.subrange(lines@[k].0 as int, lines@[k].1 as int) == ls[k]
                    },
                i <= lines@.len(),
                texts(out@) == parsed_from(ls, i as int),
            decreases lines@.len() - i,
        {
            let (lo0, hi0) = lines[i];
            let (lo, hi) = trim_range(s.as_slice(), lo0, hi0);
            let t = string_of(s.as_slice(), lo, hi);
            assert(t@ == trim_seq(ls[i as int]));
            if lo < hi && out.len() < LIMIT && !holds(&out, t.as_str()) {
                let ghost before = out@;
                out.push(t);
                assert(texts(out@) == texts(before).push(t@));
            }
            i += 1;
        }
        out
    }

    /// What the file holds for a list of paths.
    pub fn render(paths: &[String]) -> (r: String)
        ensures
            r@ == render_spec(texts(paths@)),
    {
        let ghost ps = texts(paths@);
        let ghost keep = |p: Seq<char>| !has_newline(p);
        let mut out = String::new();
        let mut count: usize = 0;
        let mut i: usize = 0;
        proof {
            assert(ps.take(0).len() == 0);
            reveal_with_fuel(Seq::filter, 1);
        }
        while i < paths.len()
            invariant
                ps == texts(paths@),
                keep == (|p: Seq<char>| !has_newline(p)),
                i <= paths@.len(),
                count <= 50,
                count == capped(ps.take(i as int).filter(keep)).len(),
                out@ == lines_text(capped(ps.take(i as int).filter(keep))),
            decreases paths@.len() - i,
        {
            let p = paths[i].as_str();
            proof {
                let t = ps.take(i + 1);
                assert(t.drop_last() == ps.take(i as int));
                assert(t.last() == ps[i as int]);
                reveal_with_fuel(Seq::filter, 1);
            }
            if !has_newline_in(p) {
                if count < LIMIT {
                    let ghost f = ps.take(i as int).filter(keep);
                    let ghost g = ps.take(i + 1).filter(keep);
                    assert(g == f.push(p@));
                    assert(capped(f) == f);
                    assert(capped(g) == g);
                    assert(g.drop_last() == f);
                    push_str(&mut out, p);
                    push_char(&mut out, '\n');
                    count += 1;
                } else {
                    let ghost f = ps.take(i as int).filter(keep);
                    let ghost g = ps.take(i + 1).filter(keep);
                    assert(g == f.push(p@));
                    assert(capped(g) == capped(f));
                }
            }
            i += 1;
        }
        proof {
            assert(ps.take(paths@.len() as int) == ps);
        }
        if count == 0 {
            push_char(&mut out, '\n');
        }
        out
    }

    /// The list with the files that no longer exist dropped, in order.
    /// `present[i]` says whether the file of `paths[i]` exists; the caller
    /// looks, at read time, so that a file on a drive that happens to be
    /// unmounted comes back when it is mounted again.
    pub fn existing(paths: &Vec<String>, present: &Vec<bool>) -> (r: Vec<String>)
        ensures
            texts(r@) == present_only(texts(paths@), present@),
    {
        let ghost ps = texts(paths@);
        let mut out: Vec<String> = Vec::new();
        let mut i: usize = 0;
        while i < paths.len()
            invariant
                i <= paths@.len(),
                ps == texts(paths@),
                texts(out@) == present_only(ps.take(i as int), present@),
            decreases paths@.len() - i,
        {
            proof {
                let t = ps.take(i + 1);
                assert(t.drop_last() == ps.take(i as int));
                assert(t.last() == paths@[i as int]@);
            }
            if i < present.len() && present[i] {
                let ghost before = out@;
                out.push(paths[i].clone());
                assert(texts(out@) == texts(before).push(paths@[i as int]@));
            }
            i = i + 1;
        }
        proof {
            assert(ps.take(paths@.len() as int) == ps);
        }
        out
    }

    /// The list after opening `path`, as it is written back.
    pub fn recorded(paths: Vec<String>, path: &str) -> (r: Vec<String>)
        ensures
            texts(r@) == record_spec(texts(paths@), path@),
    {
        let ghost ps = texts(paths@);
        let ghost other = |p: Seq<char>| !same_path_spec(p, path@);
        let mut out: Vec<String> = Vec::new();
        out.push(path.to_owned());
        let mut rest = paths;
        let mut rev: Vec<String> = Vec::new();
        let n = rest.len();
        while rest.len() > 0
            invariant
                rest@ == paths@.take(rest@.len() as int),
                rev@.len() + rest@.len() == n,
                n == paths@.len(),
                forall|k: int| 0 <= k < rev@.len() ==> #[trigger] rev@[k] == paths@[n - 1 - k],
            decreases rest@.len(),
        {
            let e = rest.pop().unwrap();
            assert(e == paths@[rest@.len() as int]);
            rev.push(e);
        }
        let ghost mut j: int = 0;
        while rev.len() > 0
            invariant
                n == paths@.len(),
                ps == texts(paths@),
                other == (|p: Seq<char>| !same_path_spec(p, path@)),
                0 <= j <= n,
                rev@.len() == n - j,
                forall|k: int| 0 <= k < rev@.len() ==> #[trigger] rev@[k] == paths@[n - 1 - k],
                out@.len() >= 1,
                texts(out@) == seq![path@] + ps.take(j).filter(other),
            decreases rev@.len(),
        {
            let e = rev.pop().unwrap();
            proof {
                assert(e == paths@[j]);
                let t = ps.take(j + 1);
                assert(t.drop_last() == ps.take(j));
                assert(t.last() == e@);
                reveal_with_fuel(Seq::filter, 1);
            }
            if !same_path(e.as_str(), path) {
                let ghost before = out@;
                out.push(e);
                assert(texts(out@) == texts(before).push(e@));
            }
            proof {
                j = j + 1;
            }
        }
        proof {
            assert(ps.take(n as int) == ps);
        }
        if out.len() > LIMIT {
            out.truncate(LIMIT);
        }
        out
    }
}

/// After opening a path, it is the first entry and no other entry names it;
/// the list never grows past `LIMIT`.
pub proof fn the_opened_path_comes_first_once(ps: Seq<Seq<char>>, path: Seq<char>)
    ensures
        record_spec(ps, path).len() >= 1,
        record_spec(ps, path)[0] == path,
        record_spec(ps, path).len() <= 50,
        forall|i: int|
            1 <= i < record_spec(ps, path).len() ==> !same_path_spec(
                #[trigger] record_spec(ps, path)[i],
                path,
            ),
{
    let f = ps.filter(|p: Seq<char>| !same_path_spec(p, path));
    broadcast use vstd::seq_lib::group_filter_ensures;
    let moved = seq![path] + f;
    assert forall|i: int| 1 <= i < record_spec(ps, path).len() implies !same_path_spec(
        #[trigger] record_spec(ps, path)[i],
        path,
    ) by {
        assert(record_spec(ps, path)[i] == moved[i]);
        assert(moved[i] == f[i - 1]);
    }
}

/// A list read from a file names each path once (a path seen again later in
/// the file is the older entry and is dropped), holds no blank entries, and
/// never more than `LIMIT`.
pub proof fn parsed_lists_hold_each_path_once(lines: Seq<Seq<char>>, n: int)
    ensures
        parsed_from(lines, n).len() <= 50,
        forall|i: int| 0 <= i < parsed_from(lines, n).len() ==> (#[trigger] parsed_from(lines, n)[i]).len() > 0,
        forall|i: int, j: int|
            0 <= i < j < parsed_from(lines, n).len() ==> !same_path_spec(
                #[trigger] parsed_from(lines, n)[i],
                #[trigger] parsed_from(lines, n)[j],
            ),
    decreases n,
{
    if n > 0 {
        parsed_lists_hold_each_path_once(lines, n - 1);
        let prev = parsed_from(lines, n - 1);
        let t = trim_seq(lines[n - 1]);
        let cur = parsed_from(lines, n);
        if !(t.len() == 0 || holds_path(prev, t) || prev.len() >= 50) {
            assert(cur == prev.push(t));
            assert forall|i: int| 0 <= i < cur.len() implies (#[trigger] cur[i]).len() > 0 by {
                if i < prev.len() {
                    assert(cur[i] == prev[i]);
                }
            }
            assert forall|i: int, j: int| 0 <= i < j < cur.len() implies !same_path_spec(
                #[trigger] cur[i],
                #[trigger] cur[j],
            ) by {
                assert(cur[i] == prev[i]);
                if j < prev.len() {
                    assert(cur[j] == prev[j]);
                } else {
                    assert(cur[j] == t);
                    if same_path_spec(prev[i], t) {
                        assert(holds_path(prev, t));
                    }
                }
            }
        }
    }
}

} // verus!

