//! Line operations, as pure text.
//!
//! The decisions behind the editor's line commands: which lines a selection
//! covers, whether a comment command adds or removes markers, and where a
//! marker goes. Lines are strings; their views are character sequences, and
//! columns are byte offsets, as the text buffer counts them.

use vstd::prelude::*;

use crate::strings::{
    ascii_lower_seq, ascii_lowercase_all, byte_len, chars_of, char_len_utf8, is_ws,
    lemma_trim_start_at, lemma_trim_start_shape, lemma_utf8_len_take_mono,
    lemma_utf8_len_take_step, matches_at, occurs_at, push_char, push_range, push_str,
    skip_ws, slice_eq, string_from, string_of, trim_start_seq, utf8_len, utf8_offset,
};

verus! {

/// The lines a command applies to, given a selection.
///
/// A selection that ends exactly at the start of a line does not include that
/// line, unless it is the only line.
pub fn affected_lines(start_line: i32, end_line: i32, end_at_line_start: bool) -> (r: (i32, i32))
    ensures
        r.0 == if start_line <= end_line { start_line } else { end_line },
        ({
            let first = if start_line <= end_line { start_line } else { end_line };
            let last = if start_line <= end_line { end_line } else { start_line };
            r.1 == if end_at_line_start && last > first { last - 1 } else { last as int }
        }),
{
    let (first, last) = if start_line <= end_line {
        (start_line, end_line)
    } else {
        (end_line, start_line)
    };
    if end_at_line_start && last > first {
        (first, last - 1)
    } else {
        (first, last)
    }
}

/// `s` begins with `p`.
pub open spec fn starts_with(s: Seq<char>, p: Seq<char>) -> bool {
    p.len() <= s.len() && s.take(p.len() as int) == p
}

/// A line with nothing but white space on it.
pub open spec fn is_blank(l: Seq<char>) -> bool {
    trim_start_seq(l).len() == 0
}

/// How many characters of leading white space a line has.
pub open spec fn indent_len(l: Seq<char>) -> int {
    l.len() - trim_start_seq(l).len()
}

/// The width of a line's leading white space, in bytes.
pub open spec fn indent_width(l: Seq<char>) -> nat {
    utf8_len(l.take(indent_len(l)))
}

/// The views of a slice of string slices.
pub open spec fn line_views(lines: Seq<&str>) -> Seq<Seq<char>> {
    lines.map_values(|l: &str| l@)
}

/// Every non-blank line starts, after its indentation, with the marker, and
/// there is at least one non-blank line.
pub open spec fn all_commented(lines: Seq<Seq<char>>, prefix: Seq<char>) -> bool {
    &&& exists|i: int| 0 <= i < lines.len() && !is_blank(#[trigger] lines[i])
    &&& forall|i: int|
        0 <= i < lines.len() && !is_blank(#[trigger] lines[i]) ==> starts_with(
            trim_start_seq(lines[i]),
            prefix,
        )
}

/// `s[at..]` begins with `p`, in the two ways the proofs meet it.
proof fn lemma_occurs_at_start(s: Seq<char>, p: Seq<char>, at: int)
    requires
        0 <= at <= s.len(),
    ensures
        occurs_at(s, p, at) == starts_with(s.skip(at), p),
{
    if p.len() <= s.len() - at {
        assert(s.skip(at).take(p.len() as int) == s.subrange(at, at + p.len()));
    }
}

/// Whether a comment command should comment or uncomment.
///
/// Uncomments only when every non-blank line is already commented; blank
/// lines count neither way, and a selection of blank lines only is not
/// "all commented".
pub fn should_uncomment(lines: &[&str], prefix: &str) -> (r: bool)
    ensures
        r == all_commented(line_views(lines@), prefix@),
{
    let ghost views = line_views(lines@);
    let p = chars_of(prefix);
    let mut saw_content = false;
    let mut i: usize = 0;
    while i < lines.len()
        invariant
            i <= lines@.len(),
            views == line_views(lines@),
            p@ == prefix@,
            saw_content == exists|j: int| 0 <= j < i && !is_blank(#[trigger] views[j]),
            forall|j: int|
                0 <= j < i && !is_blank(#[trigger] views[j]) ==> starts_with(
                    trim_start_seq(views[j]),
                    prefix@,
                ),
        decreases lines@.len() - i,
    {
        let v = chars_of(lines[i]);
        let a = skip_ws(v.as_slice(), 0, v.len());
        proof {
            assert(views[i as int] == v@);
            assert(v@.subrange(0, v@.len() as int) == v@);
            assert(v@.subrange(a as int, v@.len() as int) == v@.skip(a as int));
            lemma_occurs_at_start(v@, p@, a as int);
        }
        if a < v.len() {
            saw_content = true;
            assert(!is_blank(views[i as int]));
            if !matches_at(v.as_slice(), p.as_slice(), a) {
                assert(!all_commented(views, prefix@));
                return false;
            }
        }
        i += 1;
    }
    saw_content
}

/// The shallowest indentation, in bytes, among the non-blank lines of a
/// block, or 0 when every line is blank.
pub open spec fn block_column(ls: Seq<Seq<char>>) -> nat
    decreases ls.len(),
{
    if ls.len() == 0 {
        0
    } else {
        let rest = block_column(ls.drop_last());
        let l = ls.last();
        if is_blank(l) {
            rest
        } else if has_content(ls.drop_last()) && rest <= indent_width(l) {
            rest
        } else {
            indent_width(l)
        }
    }
}

/// Some line of the block is not blank.
pub open spec fn has_content(ls: Seq<Seq<char>>) -> bool {
    exists|i: int| 0 <= i < ls.len() && !is_blank(#[trigger] ls[i])
}

/// The column where a comment marker goes for a block: the shallowest
/// indentation, in bytes, among its non-blank lines, or 0 when all are blank.
pub fn comment_column(lines: &[&str]) -> (r: usize)
    ensures
        ({
            let views = line_views(lines@);
            &&& (forall|i: int| 0 <= i < views.len() ==> is_blank(#[trigger] views[i])) ==> r == 0
            &&& (exists|i: int| 0 <= i < views.len() && !is_blank(#[trigger] views[i])) ==> (
            exists|i: int|
                0 <= i < views.len() && !is_blank(#[trigger] views[i]) && r == indent_width(
                    views[i],
                ))
            &&& forall|i: int|
                0 <= i < views.len() && !is_blank(#[trigger] views[i]) ==> r <= indent_width(
                    views[i],
                )
            &&& r == block_column(views)
        }),
{
    let ghost views = line_views(lines@);
    let mut best: usize = 0;
    let mut found = false;
    let mut i: usize = 0;
    while i < lines.len()
        invariant
            i <= lines@.len(),
            views == line_views(lines@),
            found == exists|j: int| 0 <= j < i && !is_blank(#[trigger] views[j]),
            !found ==> best == 0,
            found ==> exists|j: int|
                0 <= j < i && !is_blank(#[trigger] views[j]) && best == indent_width(views[j]),
            forall|j: int|
                0 <= j < i && !is_blank(#[trigger] views[j]) ==> best <= indent_width(views[j]),
            best == block_column(views.take(i as int)),
            found == has_content(views.take(i as int)),
        decreases lines@.len() - i,
    {
        let line = lines[i];
        let n = byte_len(line);
        let v = chars_of(line);
        let a = skip_ws(v.as_slice(), 0, v.len());
        proof {
            assert(views[i as int] == v@);
            assert(v@.subrange(0, v@.len() as int) == v@);
            assert(indent_len(v@) == a);
            let t = views.take(i + 1);
            assert(t.drop_last() == views.take(i as int));
            assert(t.last() == views[i as int]);
            assert(has_content(views.take(i as int)) == exists|j: int| 0 <= j < i && !is_blank(#[trigger] views[j])) by {
                if has_content(views.take(i as int)) {
                    let j = choose|j: int| 0 <= j < i && !is_blank(#[trigger] views.take(i as int)[j]);
                    assert(views.take(i as int)[j] == views[j]);
                }
                if exists|j: int| 0 <= j < i && !is_blank(#[trigger] views[j]) {
                    let j = choose|j: int| 0 <= j < i && !is_blank(#[trigger] views[j]);
                    assert(views.take(i as int)[j] == views[j]);
                }
            }
            assert(has_content(t) == (has_content(views.take(i as int)) || !is_blank(views[i as int]))) by {
                if has_content(t) {
                    let j = choose|j: int| 0 <= j < t.len() && !is_blank(#[trigger] t[j]);
                    if j < i {
                        assert(views.take(i as int)[j] == t[j]);
                    }
                }
                if has_content(views.take(i as int)) {
                    let j = choose|j: int| 0 <= j < i && !is_blank(#[trigger] views.take(i as int)[j]);
                    assert(t[j] == views.take(i as int)[j]);
                }
                if !is_blank(views[i as int]) {
                    assert(t[i as int] == views[i as int]);
                }
            }
        }
        if a < v.len() {
            let w = utf8_offset(v.as_slice(), a);
            assert(!is_blank(views[i as int]));
            assert(w == indent_width(views[i as int]));
            if !found || w < best {
                best = w;
            }
            found = true;
        }
        i += 1;
    }
    assert(views.take(lines@.len() as int) == views);
    best
}

/// The smaller of two byte counts.
pub open spec fn min_nat(a: int, b: int) -> int {
    if a <= b {
        a
    } else {
        b
    }
}

/// `s` with `prefix` and a space inserted before character `k`.
pub open spec fn commented(s: Seq<char>, prefix: Seq<char>, k: int) -> Seq<char> {
    s.take(k) + prefix + seq![' '] + s.skip(k)
}

/// Byte offset `b` falls on a character boundary of `s`.
pub open spec fn is_boundary(s: Seq<char>, b: int) -> bool {
    exists|k: int| 0 <= k <= s.len() && utf8_len(s.take(k)) == b
}

/// The character index that starts at byte `b` of `s`.
pub open spec fn char_at_byte(s: Seq<char>, b: int) -> int {
    choose|k: int| 0 <= k <= s.len() && utf8_len(s.take(k)) == b
}

/// Adds a comment marker to a line at the given byte column (or at its end,
/// if the column lies past it), followed by one space. A blank line is left
/// as it is.
pub fn comment_line(line: &str, prefix: &str, column: usize) -> (r: String)
    requires
        !is_blank(line@) ==> column >= utf8_len(line@) || is_boundary(line@, column as int),
    ensures
        is_blank(line@) ==> r@ == line@,
        !is_blank(line@) ==> ({
            let b = min_nat(column as int, utf8_len(line@) as int);
            &&& 0 <= char_at_byte(line@, b) <= line@.len()
            &&& utf8_len(line@.take(char_at_byte(line@, b))) == b
            &&& r@ == commented(line@, prefix@, char_at_byte(line@, b))
        }),
{
    let v = chars_of(line);
    let a = skip_ws(v.as_slice(), 0, v.len());
    proof {
        assert(v@.subrange(0, v@.len() as int) == v@);
    }
    if a == v.len() {
        return string_from(v.as_slice());
    }
    let n = byte_len(line);
    let col = if column < n {
        column
    } else {
        n
    };
    // Walk to the character that starts at byte `col`.
    let mut k: usize = 0;
    let mut at: usize = 0;
    while k < v.len() && at < col
        invariant
            k <= v@.len(),
            v@ == line@,
            n == utf8_len(line@),
            col <= n,
            at == utf8_len(v@.take(k as int)),
            at <= col,
            col == n || is_boundary(v@, col as int),
        decreases v@.len() - k,
    {
        proof {
            lemma_utf8_len_take_step(v@, k as int);
            if col < n {
                let j = choose|j: int| 0 <= j <= v@.len() && utf8_len(v@.take(j)) == col;
                if j <= k {
                    lemma_utf8_len_take_mono(v@, j, k as int);
                }
                lemma_utf8_len_take_mono(v@, k + 1, j);
            } else {
                lemma_utf8_len_take_mono(v@, k + 1, v@.len() as int);
                assert(v@.take(v@.len() as int) == v@);
            }
        }
        at = at + char_len_utf8(v[k]);
        k += 1;
    }
    proof {
        if at < col {
            assert(k == v@.len());
            assert(v@.take(v@.len() as int) == v@);
            if col < n {
                let j = choose|j: int| 0 <= j <= v@.len() && utf8_len(v@.take(j)) == col;
                lemma_utf8_len_take_mono(v@, j, k as int);
            }
        }
        assert(at == col);
        let b = min_nat(column as int, utf8_len(line@) as int);
        assert(b == col);
        let c = char_at_byte(line@, b);
        assert(is_boundary(line@, b));
        if c < k {
            lemma_utf8_len_take_mono(line@, c + 1, k as int);
            lemma_utf8_len_take_mono(line@, c, c + 1);
        } else if c > k {
            lemma_utf8_len_take_mono(line@, k + 1, c);
            lemma_utf8_len_take_mono(line@, k as int, k + 1);
        }
        assert(c == k);
    }
    let mut out = string_of(v.as_slice(), 0, k);
    push_str(&mut out, prefix);
    push_char(&mut out, ' ');
    push_range(&mut out, v.as_slice(), k, v.len());
    proof {
        assert(v@.subrange(0, k as int) == v@.take(k as int));
        assert(v@.subrange(k as int, v@.len() as int) == v@.skip(k as int));
    }
    out
}

/// What removing a comment marker leaves: the indentation, then what follows
/// the marker less one space; the line itself when it has no marker.
pub open spec fn uncommented(l: Seq<char>, prefix: Seq<char>) -> Seq<char> {
    let a = indent_len(l);
    let rest = l.skip(a);
    if starts_with(rest, prefix) {
        let after = rest.skip(prefix.len() as int);
        let kept = if after.len() > 0 && after[0] == ' ' {
            after.drop_first()
        } else {
            after
        };
        l.take(a) + kept
    } else {
        l
    }
}

/// Removes a comment marker from a line, if it has one, with the single space
/// after it. Anything else after it is the user's and stays.
pub fn uncomment_line(line: &str, prefix: &str) -> (r: String)
    ensures
        r@ == uncommented(line@, prefix@),
{
    let v = chars_of(line);
    let p = chars_of(prefix);
    let a = skip_ws(v.as_slice(), 0, v.len());
    proof {
        assert(v@.subrange(0, v@.len() as int) == v@);
        assert(v@.subrange(a as int, v@.len() as int) == v@.skip(a as int));
        assert(indent_len(line@) == a);
        lemma_occurs_at_start(v@, p@, a as int);
    }
    if !matches_at(v.as_slice(), p.as_slice(), a) {
        return string_from(v.as_slice());
    }
    let mut from = a + p.len();
    proof {
        let rest = v@.skip(a as int);
        let after = rest.skip(p@.len() as int);
        assert(after == v@.skip(from as int));
        if from < v@.len() {
            assert(after[0] == v@[from as int]);
        }
    }
    if from < v.len() && v[from] == ' ' {
        proof {
            assert(v@.skip(from as int).drop_first() == v@.skip(from + 1));
        }
        from = from + 1;
    }
    let mut out = string_of(v.as_slice(), 0, a);
    push_range(&mut out, v.as_slice(), from, v.len());
    proof {
        assert(v@.subrange(0, a as int) == v@.take(a as int));
        assert(v@.subrange(from as int, v@.len() as int) == v@.skip(from as int));
    }
    out
}

/// A comment marker cannot be mistaken for indentation: it is not empty and
/// does not begin with white space.
pub open spec fn is_marker(prefix: Seq<char>) -> bool {
    prefix.len() > 0 && !is_ws(prefix[0])
}

/// What the comment command does to one line: blank lines stay.
pub open spec fn comment_spec(l: Seq<char>, prefix: Seq<char>, k: int) -> Seq<char> {
    if is_blank(l) {
        l
    } else {
        commented(l, prefix, k)
    }
}

/// Commenting a line at a column no deeper than its indentation, then
/// uncommenting it, gives the line back. Since a block's comment column is
/// no deeper than any of its lines' indentation, commenting a block and
/// uncommenting it restores every line.
pub proof fn uncommenting_undoes_commenting(l: Seq<char>, prefix: Seq<char>, k: int)
    requires
        is_marker(prefix),
        0 <= k <= l.len(),
        utf8_len(l.take(k)) <= indent_width(l),
    ensures
        uncommented(comment_spec(l, prefix, k), prefix) == l,
{
    lemma_trim_start_shape(l);
    let ind = indent_len(l);
    if is_blank(l) {
        assert(l.skip(ind).len() == 0);
    } else {
        if k > ind {
            lemma_utf8_len_take_mono(l, ind, k);
        }
        assert(k <= ind);
        let c = commented(l, prefix, k);
        assert(forall|j: int| 0 <= j < k ==> c[j] == l[j]);
        assert(c[k] == prefix[0]);
        lemma_trim_start_at(c, k);
        assert(indent_len(c) == k);
        let rest = c.skip(k);
        assert(rest.take(prefix.len() as int) == prefix);
        let after = rest.skip(prefix.len() as int);
        assert(after == seq![' '] + l.skip(k));
        assert(after.drop_first() == l.skip(k));
        assert(c.take(k) == l.take(k));
        assert(l.take(k) + l.skip(k) == l);
    }
}

/// The line comment marker for a file extension, compared without regard to
/// ASCII case; `#` when the extension is not one of those listed.
pub open spec fn marker_for(ext: Seq<char>) -> Seq<char> {
    let e = ascii_lower_seq(ext);
    if e == "rs"@ || e == "c"@ || e == "h"@ || e == "cpp"@ || e == "hpp"@ || e == "cc"@ || e
        == "js"@ || e == "ts"@ || e == "jsx"@ || e == "tsx"@ || e == "go"@ || e == "java"@ || e
        == "kt"@ || e == "swift"@ || e == "cs"@ || e == "php"@ || e == "scala"@ || e == "dart"@
        || e == "zig"@ || e == "qml"@ || e == "proto"@ {
        "//"@
    } else if e == "lua"@ || e == "sql"@ || e == "hs"@ || e == "elm"@ || e == "ada"@ {
        "--"@
    } else if e == "vim"@ {
        "\""@
    } else if e == "lisp"@ || e == "clj"@ || e == "el"@ || e == "scm"@ {
        ";"@
    } else if e == "tex"@ || e == "erl"@ {
        "%"@
    } else if e == "bat"@ || e == "cmd"@ {
        "REM"@
    } else {
        "#"@
    }
}

/// What `Path::extension` returns for a path, as text.
pub uninterp spec fn file_extension(path: Seq<char>) -> Option<Seq<char>>;

/// `Path::extension` on a path given as text. The text is UTF-8, so its
/// extension is too.
#[verifier::external_body]
fn extension_of(path: &str) -> (r: Option<String>)
    ensures
        r is Some <==> file_extension(path@) is Some,
        r is Some ==> file_extension(path@) == Some(r->0@),
{
    match std::path::Path::new(path).extension() {
        Some(e) => match e.to_str() {
            Some(t) => Some(t.to_string()),
            None => None,
        },
        None => None,
    }
}

fn is_lit(e: &[char], lit: &str) -> (r: bool)
    ensures
        r == (e@ == lit@),
{
    let l = chars_of(lit);
    slice_eq(e, l.as_slice())
}

/// The comment marker for an extension; see `marker_for`.
pub fn marker_for_extension(ext: &str) -> (r: &'static str)
    ensures
        r@ == marker_for(ext@),
{
    let low = ascii_lowercase_all(chars_of(ext).as_slice());
    let e = low.as_slice();
    if is_lit(e, "rs") || is_lit(e, "c") || is_lit(e, "h") || is_lit(e, "cpp") || is_lit(e, "hpp")
        || is_lit(e, "cc") || is_lit(e, "js") || is_lit(e, "ts") || is_lit(e, "jsx") || is_lit(
        e,
        "tsx",
    ) || is_lit(e, "go") || is_lit(e, "java") || is_lit(e, "kt") || is_lit(e, "swift") || is_lit(
        e,
        "cs",
    ) || is_lit(e, "php") || is_lit(e, "scala") || is_lit(e, "dart") || is_lit(e, "zig")
        || is_lit(e, "qml") || is_lit(e, "proto") {
        "//"
    } else if is_lit(e, "lua") || is_lit(e, "sql") || is_lit(e, "hs") || is_lit(e, "elm")
        || is_lit(e, "ada") {
        "--"
    } else if is_lit(e, "vim") {
        "\""
    } else if is_lit(e, "lisp") || is_lit(e, "clj") || is_lit(e, "el") || is_lit(e, "scm") {
        ";"
    } else if is_lit(e, "tex") || is_lit(e, "erl") {
        "%"
    } else if is_lit(e, "bat") || is_lit(e, "cmd") {
        "REM"
    } else {
        "#"
    }
}

/// The extension a comment marker is chosen by: none without a path.
pub open spec fn extension_text(path: Option<Seq<char>>) -> Seq<char> {
    match path {
        Some(p) => match file_extension(p) {
            Some(e) => e,
            None => Seq::empty(),
        },
        None => Seq::empty(),
    }
}

/// A path's text, when there is a path.
pub open spec fn path_text(path: Option<&str>) -> Option<Seq<char>> {
    match path {
        Some(p) => Some(p@),
        None => None,
    }
}

/// The line comment marker for a file, by its extension.
///
/// A fallback for when the syntax engine has nothing to say, so the table is
/// small on purpose.
pub fn comment_prefix_for(path: Option<&str>) -> (r: &'static str)
    ensures
        r@ == marker_for(extension_text(path_text(path))),
{
    let ext = match path {
        Some(p) => extension_of(p),
        None => None,
    };
    match ext {
        Some(e) => marker_for_extension(e.as_str()),
        None => {
            proof {
                reveal_strlit("");
                assert(""@ == Seq::<char>::empty());
            }
            marker_for_extension("")
        },
    }
}

/// The comment marker table: each listed extension, in any ASCII case, gets
/// the line comment marker of its language.
pub proof fn the_comment_marker_table(ext: Seq<char>)
    ensures
        ascii_lower_seq(ext) == "rs"@ ==> marker_for(ext) == "//"@,
        ascii_lower_seq(ext) == "c"@ ==> marker_for(ext) == "//"@,
        ascii_lower_seq(ext) == "h"@ ==> marker_for(ext) == "//"@,
        ascii_lower_seq(ext) == "cpp"@ ==> marker_for(ext) == "//"@,
        ascii_lower_seq(ext) == "hpp"@ ==> marker_for(ext) == "//"@,
        ascii_lower_seq(ext) == "cc"@ ==> marker_for(ext) == "//"@,
        ascii_lower_seq(ext) == "js"@ ==> marker_for(ext) == "//"@,
        ascii_lower_seq(ext) == "ts"@ ==> marker_for(ext) == "//"@,
        ascii_lower_seq(ext) == "jsx"@ ==> marker_for(ext) == "//"@,
        ascii_lower_seq(ext) == "tsx"@ ==> marker_for(ext) == "//"@,
        ascii_lower_seq(ext) == "go"@ ==> marker_for(ext) == "//"@,
        ascii_lower_seq(ext) == "java"@ ==> marker_for(ext) == "//"@,
        ascii_lower_seq(ext) == "kt"@ ==> marker_for(ext) == "//"@,
        ascii_lower_seq(ext) == "swift"@ ==> marker_for(ext) == "//"@,
        ascii_lower_seq(ext) == "cs"@ ==> marker_for(ext) == "//"@,
        ascii_lower_seq(ext) == "php"@ ==> marker_for(ext) == "//"@,
        ascii_lower_seq(ext) == "scala"@ ==> marker_for(ext) == "//"@,
        ascii_lower_seq(ext) == "dart"@ ==> marker_for(ext) == "//"@,
        ascii_lower_seq(ext) == "zig"@ ==> marker_for(ext) == "//"@,
        ascii_lower_seq(ext) == "qml"@ ==> marker_for(ext) == "//"@,
        ascii_lower_seq(ext) == "proto"@ ==> marker_for(ext) == "//"@,
        ascii_lower_seq(ext) == "lua"@ ==> marker_for(ext) == "--"@,
        ascii_lower_seq(ext) == "sql"@ ==> marker_for(ext) == "--"@,
        ascii_lower_seq(ext) == "hs"@ ==> marker_for(ext) == "--"@,
        ascii_lower_seq(ext) == "elm"@ ==> marker_for(ext) == "--"@,
        ascii_lower_seq(ext) == "ada"@ ==> marker_for(ext) == "--"@,
        ascii_lower_seq(ext) == "vim"@ ==> marker_for(ext) == "\""@,
        ascii_lower_seq(ext) == "lisp"@ ==> marker_for(ext) == ";"@,
        ascii_lower_seq(ext) == "clj"@ ==> marker_for(ext) == ";"@,
        ascii_lower_seq(ext) == "el"@ ==> marker_for(ext) == ";"@,
        ascii_lower_seq(ext) == "scm"@ ==> marker_for(ext) == ";"@,
        ascii_lower_seq(ext) == "tex"@ ==> marker_for(ext) == "%"@,
        ascii_lower_seq(ext) == "erl"@ ==> marker_for(ext) == "%"@,
        ascii_lower_seq(ext) == "bat"@ ==> marker_for(ext) == "REM"@,
        ascii_lower_seq(ext) == "cmd"@ ==> marker_for(ext) == "REM"@,
{
    reveal_strlit("rs");
    reveal_strlit("c");
    reveal_strlit("h");
    reveal_strlit("cpp");
    reveal_strlit("hpp");
    reveal_strlit("cc");
    reveal_strlit("js");
    reveal_strlit("ts");
    reveal_strlit("jsx");
    reveal_strlit("tsx");
    reveal_strlit("go");
    reveal_strlit("java");
    reveal_strlit("kt");
    reveal_strlit("swift");
    reveal_strlit("cs");
    reveal_strlit("php");
    reveal_strlit("scala");
    reveal_strlit("dart");
    reveal_strlit("zig");
    reveal_strlit("qml");
    reveal_strlit("proto");
    reveal_strlit("lua");
    reveal_strlit("sql");
    reveal_strlit("hs");
    reveal_strlit("elm");
    reveal_strlit("ada");
    reveal_strlit("vim");
    reveal_strlit("lisp");
    reveal_strlit("clj");
    reveal_strlit("el");
    reveal_strlit("scm");
    reveal_strlit("tex");
    reveal_strlit("erl");
    reveal_strlit("bat");
    reveal_strlit("cmd");
    if ascii_lower_seq(ext) == "lua"@ {
        assert(ascii_lower_seq(ext).len() == 3 && ascii_lower_seq(ext)[0] == 'l' && ascii_lower_seq(ext)[1] == 'u');
    }
    if ascii_lower_seq(ext) == "sql"@ {
        assert(ascii_lower_seq(ext).len() == 3 && ascii_lower_seq(ext)[0] == 's' && ascii_lower_seq(ext)[1] == 'q');
    }
    if ascii_lower_seq(ext) == "hs"@ {
        assert(ascii_lower_seq(ext).len() == 2 && ascii_lower_seq(ext)[0] == 'h' && ascii_lower_seq(ext)[1] == 's');
    }
    if ascii_lower_seq(ext) == "elm"@ {
        assert(ascii_lower_seq(ext).len() == 3 && ascii_lower_seq(ext)[0] == 'e' && ascii_lower_seq(ext)[1] == 'l');
    }
    if ascii_lower_seq(ext) == "ada"@ {
        assert(ascii_lower_seq(ext).len() == 3 && ascii_lower_seq(ext)[0] == 'a' && ascii_lower_seq(ext)[1] == 'd');
    }
    if ascii_lower_seq(ext) == "vim"@ {
        assert(ascii_lower_seq(ext).len() == 3 && ascii_lower_seq(ext)[0] == 'v' && ascii_lower_seq(ext)[1] == 'i');
    }
    if ascii_lower_seq(ext) == "lisp"@ {
        assert(ascii_lower_seq(ext).len() == 4 && ascii_lower_seq(ext)[0] == 'l' && ascii_lower_seq(ext)[1] == 'i');
    }
    if ascii_lower_seq(ext) == "clj"@ {
        assert(ascii_lower_seq(ext).len() == 3 && ascii_lower_seq(ext)[0] == 'c' && ascii_lower_seq(ext)[1] == 'l');
    }
    if ascii_lower_seq(ext) == "el"@ {
        assert(ascii_lower_seq(ext).len() == 2 && ascii_lower_seq(ext)[0] == 'e' && ascii_lower_seq(ext)[1] == 'l');
    }
    if ascii_lower_seq(ext) == "scm"@ {
        assert(ascii_lower_seq(ext).len() == 3 && ascii_lower_seq(ext)[0] == 's' && ascii_lower_seq(ext)[1] == 'c');
    }
    if ascii_lower_seq(ext) == "tex"@ {
        assert(ascii_lower_seq(ext).len() == 3 && ascii_lower_seq(ext)[0] == 't' && ascii_lower_seq(ext)[1] == 'e');
    }
    if ascii_lower_seq(ext) == "erl"@ {
        assert(ascii_lower_seq(ext).len() == 3 && ascii_lower_seq(ext)[0] == 'e' && ascii_lower_seq(ext)[1] == 'r');
    }
    if ascii_lower_seq(ext) == "bat"@ {
        assert(ascii_lower_seq(ext).len() == 3 && ascii_lower_seq(ext)[0] == 'b' && ascii_lower_seq(ext)[1] == 'a');
    }
    if ascii_lower_seq(ext) == "cmd"@ {
        assert(ascii_lower_seq(ext).len() == 3 && ascii_lower_seq(ext)[0] == 'c' && ascii_lower_seq(ext)[1] == 'm');
    }
}

} // verus!
