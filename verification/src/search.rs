//! Searching across files.
//!
//! Matching inside a piece of text, and the rules that decide which files a
//! folder search looks at: which directories are never worth entering, which
//! contents are not text, and the limits that make every walk finish.

use vstd::prelude::*;

use crate::strings::{
    chars_of, line_ranges, lines_of, matches_at, occurs_at, slice_eq, str_to_lowercase, string_of,
    unicode_str_lower,
};

verus! {

/// Where a match was found.
#[derive(Debug, Clone, PartialEq, Eq)]
pub struct Match {
    /// Zero-based, as the editor counts lines.
    pub line: i32,
    /// Character offset of the match within its line.
    pub column: i32,
    /// The whole line, for showing in the results.
    pub text: String,
}

impl View for Match {
    type V = (i32, i32, Seq<char>);

    open spec fn view(&self) -> (i32, i32, Seq<char>) {
        (self.line, self.column, self.text@)
    }
}

/// The columns at which `needle` is found in `hay` scanning from `at`: after
/// each match the scan goes on past its end, so matches never overlap.
pub open spec fn scan_from(hay: Seq<char>, needle: Seq<char>, at: int) -> Seq<int>
    decreases hay.len() - at,
{
    if needle.len() == 0 || at < 0 || at + needle.len() > hay.len() {
        Seq::empty()
    } else if occurs_at(hay, needle, at) {
        seq![at] + scan_from(hay, needle, at + needle.len())
    } else {
        scan_from(hay, needle, at + 1)
    }
}

/// A line as it is compared: lowercased unless the search is case sensitive.
pub open spec fn folded(s: Seq<char>, case_sensitive: bool) -> Seq<char> {
    if case_sensitive {
        s
    } else {
        unicode_str_lower(s)
    }
}

/// The matches in one line, numbered `index`.
pub open spec fn line_matches(index: int, line: Seq<char>, needle: Seq<char>, case_sensitive: bool)
    -> Seq<(i32, i32, Seq<char>)> {
    scan_from(folded(line, case_sensitive), needle, 0).map_values(|c: int| found_at(index, c, line))
}

/// The view of a match at line `index`, column `c`, as the editor's `i32`
/// positions hold them.
pub open spec fn found_at(index: int, c: int, line: Seq<char>) -> (i32, i32, Seq<char>) {
    (index as i32, c as i32, line)
}

/// The matches in a run of lines, in line order.
pub open spec fn text_matches(lines: Seq<Seq<char>>, needle: Seq<char>, case_sensitive: bool) -> Seq<
    (i32, i32, Seq<char>),
>
    decreases lines.len(),
{
    if lines.len() == 0 {
        Seq::empty()
    } else {
        text_matches(lines.drop_last(), needle, case_sensitive) + line_matches(
            lines.len() - 1,
            lines.last(),
            needle,
            case_sensitive,
        )
    }
}

/// Every occurrence of `query` in `haystack`, line by line; nothing for an
/// empty query.
pub open spec fn find_spec(haystack: Seq<char>, query: Seq<char>, case_sensitive: bool) -> Seq<
    (i32, i32, Seq<char>),
> {
    if query.len() == 0 {
        Seq::empty()
    } else {
        text_matches(lines_of(haystack), folded(query, case_sensitive), case_sensitive)
    }
}

/// The views of a run of matches.
pub open spec fn match_views(ms: Seq<Match>) -> Seq<(i32, i32, Seq<char>)> {
    ms.map_values(|m: Match| m@)
}

/// A string's characters, lowercased when the search is case insensitive.
fn fold_chars(s: &str, case_sensitive: bool) -> (r: Vec<char>)
    ensures
        r@ == folded(s@, case_sensitive),
{
    if case_sensitive {
        chars_of(s)
    } else {
        let low = str_to_lowercase(s);
        chars_of(low.as_str())
    }
}

/// Appends the matches in one line to `found`.
fn scan_line(
    found: &mut Vec<Match>,
    index: usize,
    line: &String,
    needle: &[char],
    case_sensitive: bool,
)
    ensures
        match_views(final(found)@) == match_views(old(found)@) + line_matches(
            index as int,
            line@,
            needle@,
            case_sensitive,
        ),
{
    let hay = fold_chars(line.as_str(), case_sensitive);
    let ghost all = scan_from(hay@, needle@, 0);
    let ghost start = match_views(found@);
    let ghost mk = |c: int| found_at(index as int, c, line@);
    if needle.len() == 0 {
        assert(all == Seq::<int>::empty());
        assert(match_views(found@) == start + all.map_values(mk));
        return;
    }
    let mut at: usize = 0;
    let ghost mut seen: Seq<int> = Seq::empty();
    while at <= hay.len() && needle.len() <= hay.len() - at
        invariant
            needle@.len() > 0,
            at <= hay@.len(),
            all == scan_from(hay@, needle@, 0),
            seen + scan_from(hay@, needle@, at as int) == all,
            match_views(found@) == start + seen.map_values(mk),
            mk == (|c: int| found_at(index as int, c, line@)),
        decreases hay@.len() - at,
    {
        if matches_at(hay.as_slice(), needle, at) {
            let m = Match {
                line: #[verifier::truncate] (index as i32),
                column: #[verifier::truncate] (at as i32),
                text: line.clone(),
            };
            assert(m@ == found_at(index as int, at as int, line@));
            let ghost before = found@;
            found.push(m);
            proof {
                assert(match_views(found@) == match_views(before).push(m@));
                assert(scan_from(hay@, needle@, at as int) == seq![at as int] + scan_from(
                    hay@,
                    needle@,
                    at + needle@.len(),
                ));
                assert(seen.push(at as int) + scan_from(hay@, needle@, at + needle@.len()) == seen
                    + scan_from(hay@, needle@, at as int));
                assert(seen.push(at as int).map_values(mk) == seen.map_values(mk).push(
                    mk(at as int),
                ));
                seen = seen.push(at as int);
            }
            at = at + needle.len();
        } else {
            at = at + 1;
        }
    }
    proof {
        assert(scan_from(hay@, needle@, at as int) == Seq::<int>::empty());
        assert(seen == all);
    }
}

/// Finds every occurrence of `query` in `haystack`.
///
/// Overlapping matches are not reported twice: the search goes on after the
/// end of each match. Columns count characters of the line as it is
/// compared, so lowercasing cannot skew them by bytes.
pub fn find_in_text(haystack: &str, query: &str, case_sensitive: bool) -> (r: Vec<Match>)
    ensures
        match_views(r@) == find_spec(haystack@, query@, case_sensitive),
{
    let mut found: Vec<Match> = Vec::new();
    if query.is_empty() {
        assert(match_views(found@) == Seq::<(i32, i32, Seq<char>)>::empty());
        return found;
    }
    let needle = fold_chars(query, case_sensitive);
    let s = chars_of(haystack);
    let lines = line_ranges(s.as_slice());
    let ghost ls = lines_of(haystack@);
    let mut i: usize = 0;
    while i < lines.len()
        invariant
            s@ == haystack@,
            ls == lines_of(haystack@),
            lines@.len() == ls.len(),
            forall|k: int|
                0 <= k < lines@.len() ==> {
                    &&& (#[trigger] lines@[k]).0 <= lines@[k].1 <= s@.len()
                    &&& s@.subrange(lines@[k].0 as int, lines@[k].1 as int) == ls[k]
                },
            needle@ == folded(query@, case_sensitive),
            i <= lines@.len(),
            match_views(found@) == text_matches(ls.take(i as int), needle@, case_sensitive),
        decreases lines@.len() - i,
    {
        let (lo, hi) = lines[i];
        let line = string_of(s.as_slice(), lo, hi);
        scan_line(&mut found, i, &line, needle.as_slice(), case_sensitive);
        proof {
            let t = ls.take(i + 1);
            assert(t.drop_last() == ls.take(i as int));
            assert(t.last() == ls[i as int]);
        }
        i += 1;
    }
    assert(ls.take(lines@.len() as int) == ls);
    found
}

/// Limits on a folder search, so it always finishes.
#[derive(Debug, Clone)]
pub struct Limits {
    pub max_files: usize,
    pub max_file_bytes: u64,
    pub max_depth: usize,
}

impl Default for Limits {
    fn default() -> (r: Self)
        ensures
            r.max_files == 2000,
            r.max_file_bytes == 2 * 1024 * 1024,
            r.max_depth == 8,
    {
        Limits { max_files: 2_000, max_file_bytes: 2 * 1024 * 1024, max_depth: 8 }
    }
}

/// Directories never worth walking into for a text search: the handful that
/// turn a fast search into a slow one on almost every real project.
pub open spec fn is_noisy_dir(name: Seq<char>) -> bool {
    ||| name == ".git"@
    ||| name == ".hg"@
    ||| name == ".svn"@
    ||| name == "node_modules"@
    ||| name == "target"@
    ||| name == "build"@
    ||| name == "dist"@
    ||| name == ".venv"@
    ||| name == "venv"@
    ||| name == "__pycache__"@
    ||| name == ".cache"@
    ||| name == ".next"@
    ||| name == "vendor"@
}

fn is_name(n: &[char], lit: &str) -> (r: bool)
    ensures
        r == (n@ == lit@),
{
    let l = chars_of(lit);
    slice_eq(n, l.as_slice())
}

/// Whether a directory of this name is left out of a folder search.
pub fn should_skip_dir(name: &str) -> (r: bool)
    ensures
        r == is_noisy_dir(name@),
{
    let v = chars_of(name);
    let n = v.as_slice();
    is_name(n, ".git") || is_name(n, ".hg") || is_name(n, ".svn") || is_name(n, "node_modules")
        || is_name(n, "target") || is_name(n, "build") || is_name(n, "dist") || is_name(n, ".venv")
        || is_name(n, "venv") || is_name(n, "__pycache__") || is_name(n, ".cache") || is_name(
        n,
        ".next",
    ) || is_name(n, "vendor")
}

/// Whether a file's first bytes look like text: they hold no NUL byte.
pub fn looks_like_text(head: &[u8]) -> (r: bool)
    ensures
        r == !head@.contains(0u8),
{
    let mut i: usize = 0;
    while i < head.len()
        invariant
            i <= head@.len(),
            forall|j: int| 0 <= j < i ==> head@[j] != 0u8,
        decreases head@.len() - i,
    {
        if head[i] == 0 {
            assert(head@[i as int] == 0u8);
            return false;
        }
        i += 1;
    }
    true
}

/// What a folder walk does with one directory entry.
#[derive(Debug, Clone, Copy, PartialEq, Eq)]
pub enum Step {
    /// Leave it alone.
    Skip,
    /// Walk into it, one level deeper.
    Descend,
    /// Search it.
    Take,
}

/// Whether a directory at `depth` is still read, with `found` files already
/// collected.
pub fn worth_walking(depth: usize, found: usize, limits: &Limits) -> (r: bool)
    ensures
        r == (depth <= limits.max_depth && found < limits.max_files),
{
    depth <= limits.max_depth && found < limits.max_files
}

/// What the walk does with an entry. Symbolic links are never followed, which
/// is what stops a link to a parent directory from walking forever; noisy
/// directories are skipped; files over the size limit are left out.
pub fn step_for(is_symlink: bool, is_dir: bool, name: &str, len: u64, limits: &Limits) -> (r: Step)
    ensures
        is_symlink ==> r == Step::Skip,
        !is_symlink && is_dir ==> r == (if is_noisy_dir(name@) {
            Step::Skip
        } else {
            Step::Descend
        }),
        !is_symlink && !is_dir ==> r == (if len <= limits.max_file_bytes {
            Step::Take
        } else {
            Step::Skip
        }),
{
    if is_symlink {
        Step::Skip
    } else if is_dir {
        if should_skip_dir(name) {
            Step::Skip
        } else {
            Step::Descend
        }
    } else if len <= limits.max_file_bytes {
        Step::Take
    } else {
        Step::Skip
    }
}

/// Some reported match `s[i]..s[i] + w` contains position `p`.
pub open spec fn covered(s: Seq<int>, p: int, w: int) -> bool {
    exists|i: int| 0 <= i < s.len() && #[trigger] s[i] <= p < s[i] + w
}

/// The scan reports each occurrence it finds, never two that overlap, and
/// misses none: every occurrence from `at` on starts a reported match or lies
/// inside one (the scan moves past each match before looking again).
#[verifier::spinoff_prover]
#[verifier::rlimit(40)]
pub proof fn matches_are_every_occurrence_without_overlap(hay: Seq<char>, needle: Seq<char>, at: int)
    requires
        0 <= at,
        needle.len() > 0,
    ensures
        forall|i: int|
            0 <= i < scan_from(hay, needle, at).len() ==> at <= #[trigger] scan_from(hay, needle, at)[i]
                && occurs_at(hay, needle, scan_from(hay, needle, at)[i]),
        forall|i: int|
            0 <= i < scan_from(hay, needle, at).len() - 1 ==> #[trigger] scan_from(hay, needle, at)[i]
                + needle.len() <= scan_from(hay, needle, at)[i + 1],
        forall|p: int|
            at <= p && #[trigger] occurs_at(hay, needle, p) ==> covered(
                scan_from(hay, needle, at),
                p,
                needle.len() as int,
            ),
    decreases hay.len() - at,
{
    let s = scan_from(hay, needle, at);
    if at + needle.len() > hay.len() {
        assert(s.len() == 0);
    } else if occurs_at(hay, needle, at) {
        let next = at + needle.len();
        matches_are_every_occurrence_without_overlap(hay, needle, next);
        let rest = scan_from(hay, needle, next);
        assert(s == seq![at] + rest);
        assert forall|i: int| 0 <= i < s.len() implies at <= #[trigger] s[i] && occurs_at(hay, needle, s[i]) by {
            if i > 0 {
                assert(s[i] == rest[i - 1]);
            }
        }
        assert forall|i: int| 0 <= i < s.len() - 1 implies #[trigger] s[i] + needle.len() <= s[i + 1] by {
            if i > 0 {
                assert(s[i] == rest[i - 1]);
                assert(s[i + 1] == rest[i]);
            } else {
                assert(s[1] == rest[0]);
            }
        }
        assert forall|p: int| at <= p && #[trigger] occurs_at(hay, needle, p) implies covered(
            s,
            p,
            needle.len() as int,
        ) by {
            if p < next {
                assert(s[0] == at);
            } else {
                assert(covered(rest, p, needle.len() as int));
                let j = choose|j: int| 0 <= j < rest.len() && #[trigger] rest[j] <= p < rest[j] + needle.len();
                assert(s[j + 1] == rest[j]);
            }
        }
    } else {
        matches_are_every_occurrence_without_overlap(hay, needle, at + 1);
        assert(s == scan_from(hay, needle, at + 1));
        assert forall|p: int| at <= p && #[trigger] occurs_at(hay, needle, p) implies covered(
            s,
            p,
            needle.len() as int,
        ) by {
            assert(p != at);
        }
    }
}

/// Ignoring case is comparing Unicode lowercase: a line searched without
/// regard to case has its matches exactly where a case-sensitive search of
/// the line's Unicode lowercasing finds them (the reported text stays the
/// line as written), and a case-insensitive search looks for the query's
/// Unicode lowercasing.
pub proof fn ignoring_case_compares_unicode_lowercase(
    haystack: Seq<char>,
    query: Seq<char>,
    index: int,
    line: Seq<char>,
    needle: Seq<char>,
)
    ensures
        query.len() > 0 ==> find_spec(haystack, query, false) == text_matches(
            lines_of(haystack),
            unicode_str_lower(query),
            false,
        ),
        line_matches(index, line, needle, false).len() == line_matches(
            index,
            unicode_str_lower(line),
            needle,
            true,
        ).len(),
        forall|k: int|
            0 <= k < line_matches(index, line, needle, false).len() ==> (#[trigger] line_matches(
                index,
                line,
                needle,
                false,
            )[k]).1 == line_matches(index, unicode_str_lower(line), needle, true)[k].1,
{
}

} // verus!

