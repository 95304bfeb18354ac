//! What the editor window decides, apart from the widgets that show it.
//!
//! The window's commands are buffer calls wrapped around a decision: which
//! lines a comment command rewrites and into what, where a block of lines
//! moves, which tab a keystroke lands on, what a restored session opens and
//! what the banner says about it. The decisions are here; the buffer and the
//! widgets are the toolkit's.

use vstd::prelude::*;

use crate::edit::{
    all_commented, block_column, char_at_byte, comment_column, comment_line, comment_spec,
    commented, has_content, indent_len, indent_width, is_blank, is_boundary, is_marker,
    line_views, min_nat, should_uncomment, starts_with, uncomment_line, uncommented,
    uncommenting_undoes_commenting,
};
use crate::strings::{
    chars_of, lemma_trim_start_at, lemma_trim_start_shape, lemma_utf8_len_take_mono,
    push_char, push_range, push_str, trim_start_seq, utf8_len,
};

use crate::codec::convertible_len;
use crate::document::Meta;
use crate::session::store::{age_spec, size_spec, HistoryEntry};
use crate::recent::{holds, holds_path, same_path, same_path_spec, texts};
use crate::text::{decode_result, decode_with_limit, encode, encode_result, LoadedText, LoadedTextModel};

verus! {

/// The pieces of `s[start..]` between line breaks, scanning from `i`, where
/// `s[start..i]` holds no line break.
pub open spec fn split_from(s: Seq<char>, start: int, i: int) -> Seq<Seq<char>>
    decreases s.len() - i,
{
    if i < start || start < 0 || i >= s.len() {
        seq![s.subrange(start, s.len() as int)]
    } else if s[i] == '\n' {
        seq![s.subrange(start, i)] + split_from(s, i + 1, i + 1)
    } else {
        split_from(s, start, i + 1)
    }
}

/// `str::split('\n')`: the pieces between line breaks, empty ones included.
pub open spec fn split_nl(s: Seq<char>) -> Seq<Seq<char>> {
    split_from(s, 0, 0)
}

/// The pieces joined by line breaks (`join("\n")`).
pub open spec fn join_nl(ls: Seq<Seq<char>>) -> Seq<char>
    decreases ls.len(),
{
    if ls.len() == 0 {
        Seq::empty()
    } else if ls.len() == 1 {
        ls[0]
    } else {
        ls[0] + seq!['\n'] + join_nl(ls.drop_first())
    }
}

pub open spec fn no_nl(s: Seq<char>) -> bool {
    forall|j: int| 0 <= j < s.len() ==> s[j] != '\n'
}

/// A block ending in a line break.
pub open spec fn ends_in_nl(block: Seq<char>) -> bool {
    block.len() > 0 && block.last() == '\n'
}

/// A block less one final line break: its lines, as the comment command sees
/// them.
pub open spec fn block_body(block: Seq<char>) -> Seq<char> {
    if ends_in_nl(block) {
        block.drop_last()
    } else {
        block
    }
}

/// What the comment command makes of one line of a block.
pub open spec fn toggle_line(l: Seq<char>, prefix: Seq<char>, uncomment: bool, column: nat) -> Seq<
    char,
> {
    if uncomment {
        uncommented(l, prefix)
    } else {
        comment_spec(l, prefix, char_at_byte(l, min_nat(column as int, utf8_len(l) as int)))
    }
}

/// What the comment command makes of the lines of a block: uncommented when
/// every non-blank line is commented, otherwise commented at the block's
/// shallowest indentation.
pub open spec fn toggled_lines(lines: Seq<Seq<char>>, prefix: Seq<char>) -> Seq<Seq<char>> {
    let unc = all_commented(lines, prefix);
    let c = block_column(lines);
    Seq::new(lines.len(), |i: int| toggle_line(lines[i], prefix, unc, c))
}

/// What the comment command makes of a block of text.
pub open spec fn toggle_spec(block: Seq<char>, prefix: Seq<char>) -> Seq<char> {
    let new = toggled_lines(split_nl(block_body(block)), prefix);
    if ends_in_nl(block) {
        join_nl(new.push(Seq::empty()))
    } else {
        join_nl(new)
    }
}

/// The comment column falls on a character boundary of every line it is
/// inserted into (the command cannot split a character).
pub open spec fn column_fits(lines: Seq<Seq<char>>, prefix: Seq<char>) -> bool {
    !all_commented(lines, prefix) ==> forall|i: int|
        0 <= i < lines.len() && !is_blank(#[trigger] lines[i]) ==> block_column(lines)
            >= utf8_len(lines[i]) || is_boundary(lines[i], block_column(lines) as int)
}

proof fn lemma_join_push(ls: Seq<Seq<char>>, x: Seq<char>)
    requires
        ls.len() >= 1,
    ensures
        join_nl(ls.push(x)) == join_nl(ls) + seq!['\n'] + x,
    decreases ls.len(),
{
    if ls.len() == 1 {
        assert(ls.push(x).drop_first() == seq![x]);
        assert(join_nl(seq![x]) == x);
    } else {
        lemma_join_push(ls.drop_first(), x);
        assert(ls.push(x).drop_first() == ls.drop_first().push(x));
    }
}

/// Splitting `s[start..]` gives at least one piece, none holding a line
/// break, and joining them back gives `s[start..]`.
proof fn lemma_split_from(s: Seq<char>, start: int, i: int)
    requires
        0 <= start <= i <= s.len(),
        forall|j: int| start <= j < i ==> s[j] != '\n',
    ensures
        split_from(s, start, i).len() >= 1,
        forall|k: int| 0 <= k < split_from(s, start, i).len() ==> no_nl(#[trigger] split_from(s, start, i)[k]),
        join_nl(split_from(s, start, i)) == s.subrange(start, s.len() as int),
    decreases s.len() - i,
{
    let p = split_from(s, start, i);
    if i >= s.len() {
        assert(p == seq![s.subrange(start, s.len() as int)]);
        assert forall|k: int| 0 <= k < p.len() implies no_nl(#[trigger] p[k]) by {
            assert forall|j: int| 0 <= j < p[k].len() implies p[k][j] != '\n' by {
                assert(p[k][j] == s[start + j]);
            }
        }
    } else if s[i] == '\n' {
        lemma_split_from(s, i + 1, i + 1);
        let rest = split_from(s, i + 1, i + 1);
        let head = s.subrange(start, i);
        assert(p == seq![head] + rest);
        assert forall|k: int| 0 <= k < p.len() implies no_nl(#[trigger] p[k]) by {
            if k == 0 {
                assert forall|j: int| 0 <= j < head.len() implies head[j] != '\n' by {
                    assert(head[j] == s[start + j]);
                }
            } else {
                assert(p[k] == rest[k - 1]);
            }
        }
        assert(p.drop_first() == rest);
        assert(join_nl(p) == head + seq!['\n'] + join_nl(rest));
        assert(head + seq!['\n'] + s.subrange(i + 1, s.len() as int) == s.subrange(
            start,
            s.len() as int,
        ));
    } else {
        lemma_split_from(s, start, i + 1);
    }
}

/// Splitting `x + rest`, from inside `x`, is splitting `rest` with the
/// positions shifted.
proof fn lemma_split_shift(x: Seq<char>, b: Seq<char>, start: int, i: int)
    requires
        0 <= start <= i <= b.len(),
    ensures
        split_from(x + b, x.len() + start, x.len() + i) == split_from(b, start, i),
    decreases b.len() - i,
{
    let s = x + b;
    if i < b.len() {
        assert(s[x.len() + i] == b[i]);
        if b[i] == '\n' {
            lemma_split_shift(x, b, i + 1, i + 1);
            assert(s.subrange(x.len() + start, x.len() + i) == b.subrange(start, i));
        } else {
            lemma_split_shift(x, b, start, i + 1);
        }
    } else {
        assert(s.subrange(x.len() + start, s.len() as int) == b.subrange(start, b.len() as int));
    }
}

/// A line followed by a line break and more: the line is the first piece.
proof fn lemma_split_cons(a: Seq<char>, b: Seq<char>, i: int)
    requires
        no_nl(a),
        0 <= i <= a.len(),
    ensures
        split_from(a + seq!['\n'] + b, 0, i) == seq![a] + split_nl(b),
    decreases a.len() - i,
{
    let s = a + seq!['\n'] + b;
    if i < a.len() {
        assert(s[i] == a[i]);
        lemma_split_cons(a, b, i + 1);
    } else {
        assert(s[i] == '\n');
        assert(s.subrange(0, i) == a);
        lemma_split_shift(a + seq!['\n'], b, 0, 0);
    }
}

/// Joining lines without line breaks and splitting again gives the lines.
proof fn lemma_split_join(ls: Seq<Seq<char>>)
    requires
        ls.len() >= 1,
        forall|k: int| 0 <= k < ls.len() ==> no_nl(#[trigger] ls[k]),
    ensures
        split_nl(join_nl(ls)) == ls,
    decreases ls.len(),
{
    if ls.len() == 1 {
        lemma_split_single(ls[0], 0);
    } else {
        let rest = ls.drop_first();
        assert forall|k: int| 0 <= k < rest.len() implies no_nl(#[trigger] rest[k]) by {
            assert(rest[k] == ls[k + 1]);
        }
        lemma_split_join(rest);
        assert(no_nl(ls[0]));
        lemma_split_cons(ls[0], join_nl(rest), 0);
        assert(seq![ls[0]] + rest == ls);
    }
}

proof fn lemma_split_single(a: Seq<char>, i: int)
    requires
        no_nl(a),
        0 <= i <= a.len(),
    ensures
        split_from(a, 0, i) == seq![a],
    decreases a.len() - i,
{
    if i < a.len() {
        lemma_split_single(a, i + 1);
    } else {
        assert(a.subrange(0, a.len() as int) == a);
    }
}

/// Joined lines without line breaks end in one exactly when there are two or
/// more and the last is empty.
proof fn lemma_join_ends(ls: Seq<Seq<char>>)
    requires
        ls.len() >= 1,
        forall|k: int| 0 <= k < ls.len() ==> no_nl(#[trigger] ls[k]),
    ensures
        ends_in_nl(join_nl(ls)) <==> (ls.len() >= 2 && ls.last().len() == 0),
    decreases ls.len(),
{
    if ls.len() == 1 {
        let a = ls[0];
        if a.len() > 0 {
            assert(a[a.len() - 1] != '\n');
        }
    } else {
        let rest = ls.drop_first();
        assert forall|k: int| 0 <= k < rest.len() implies no_nl(#[trigger] rest[k]) by {
            assert(rest[k] == ls[k + 1]);
        }
        lemma_join_ends(rest);
        let j = ls[0] + seq!['\n'] + join_nl(rest);
        assert(rest.last() == ls.last());
        if join_nl(rest).len() > 0 {
            assert(j.last() == join_nl(rest).last());
        } else {
            assert(j.last() == '\n');
            if rest.len() >= 2 {
                lemma_join_len(rest);
            }
            assert(rest.len() == 1 && rest[0].len() == 0) by {
                if rest.len() >= 2 {
                    lemma_join_len(rest);
                }
            }
        }
    }
}

proof fn lemma_join_len(ls: Seq<Seq<char>>)
    requires
        ls.len() >= 2,
    ensures
        join_nl(ls).len() > 0,
{
    assert(join_nl(ls) == ls[0] + seq!['\n'] + join_nl(ls.drop_first()));
}

/// A commented line keeps no blank-ness secret: it is not blank, its text
/// after the indentation starts with the marker, it holds no line break if
/// neither the line nor the marker does, and uncommenting gives the line
/// back.
proof fn lemma_commented_line(l: Seq<char>, prefix: Seq<char>, k: int)
    requires
        is_marker(prefix),
        !is_blank(l),
        0 <= k <= l.len(),
        utf8_len(l.take(k)) <= indent_width(l),
    ensures
        !is_blank(commented(l, prefix, k)),
        starts_with(trim_start_seq(commented(l, prefix, k)), prefix),
        no_nl(l) && no_nl(prefix) ==> no_nl(commented(l, prefix, k)),
        commented(l, prefix, k).len() > 0,
        uncommented(commented(l, prefix, k), prefix) == l,
{
    lemma_trim_start_shape(l);
    let ind = indent_len(l);
    if k > ind {
        lemma_utf8_len_take_mono(l, ind, k);
    }
    let c = commented(l, prefix, k);
    assert(forall|j: int| 0 <= j < k ==> c[j] == l[j]);
    assert(c[k] == prefix[0]);
    lemma_trim_start_at(c, k);
    assert(c.skip(k).take(prefix.len() as int) == prefix);
    if no_nl(l) && no_nl(prefix) {
        assert forall|j: int| 0 <= j < c.len() implies c[j] != '\n' by {
            if j < k {
                assert(c[j] == l[j]);
            } else if j < k + prefix.len() {
                assert(c[j] == prefix[j - k]);
            } else if j == k + prefix.len() {
                assert(c[j] == ' ');
            } else {
                assert(c[j] == l[j - prefix.len() - 1]);
            }
        }
    }
    uncommenting_undoes_commenting(l, prefix, k);
}

/// The block column is no deeper than any non-blank line's indentation.
proof fn lemma_block_column_lower(ls: Seq<Seq<char>>)
    ensures
        forall|i: int| 0 <= i < ls.len() && !is_blank(#[trigger] ls[i]) ==> block_column(ls)
            <= indent_width(ls[i]),
    decreases ls.len(),
{
    if ls.len() > 0 {
        let t = ls.drop_last();
        lemma_block_column_lower(t);
        lemma_block_column_member(t);
        assert forall|i: int| 0 <= i < ls.len() && !is_blank(#[trigger] ls[i]) implies block_column(
            ls,
        ) <= indent_width(ls[i]) by {
            if i < ls.len() - 1 {
                assert(t[i] == ls[i]);
                assert(has_content(t));
            }
        }
    }
}

/// With some non-blank line, the block column is the indentation of one.
proof fn lemma_block_column_member(ls: Seq<Seq<char>>)
    ensures
        has_content(ls) ==> exists|i: int|
            0 <= i < ls.len() && !is_blank(#[trigger] ls[i]) && block_column(ls) == indent_width(
                ls[i],
            ),
    decreases ls.len(),
{
    if ls.len() > 0 {
        let t = ls.drop_last();
        lemma_block_column_member(t);
        if has_content(ls) {
            if has_content(t) {
                let i = choose|i: int|
                    0 <= i < t.len() && !is_blank(#[trigger] t[i]) && block_column(t)
                        == indent_width(t[i]);
                assert(ls[i] == t[i]);
                assert(!is_blank(ls[ls.len() - 1]) ==> ls[ls.len() - 1] == ls.last());
            } else {
                let i = choose|i: int| 0 <= i < ls.len() && !is_blank(#[trigger] ls[i]);
                if i < ls.len() - 1 {
                    assert(t[i] == ls[i]);
                }
                assert(!is_blank(ls.last()));
                assert(ls[ls.len() - 1] == ls.last());
            }
        }
    }
}

/// A line's indentation is no wider than the line.
proof fn lemma_indent_within(l: Seq<char>)
    ensures
        indent_width(l) <= utf8_len(l),
        0 <= indent_len(l) <= l.len(),
{
    lemma_trim_start_shape(l);
    lemma_utf8_len_take_mono(l, indent_len(l), l.len() as int);
    assert(l.take(l.len() as int) == l);
}

/// Pressing the comment command twice on a block that was not entirely
/// commented gives the block back: once comments every non-blank line, and
/// then everything is commented, so the second press uncomments.
pub proof fn commenting_twice_restores_a_block(block: Seq<char>, prefix: Seq<char>)
    requires
        is_marker(prefix),
        no_nl(prefix),
        !all_commented(split_nl(block_body(block)), prefix),
        column_fits(split_nl(block_body(block)), prefix),
    ensures
        toggle_spec(toggle_spec(block, prefix), prefix) == block,
{
    let body = block_body(block);
    let lines = split_nl(body);
    lemma_split_from(body, 0, 0);
    assert(body.subrange(0, body.len() as int) == body);
    let c = block_column(lines);
    lemma_block_column_lower(lines);
    let new = toggled_lines(lines, prefix);
    assert(new.len() == lines.len());
    // Each line: what the first press makes of it, and what the second
    // press makes of that.
    assert forall|i: int| 0 <= i < lines.len() implies {
        &&& no_nl(#[trigger] new[i])
        &&& is_blank(new[i]) == is_blank(lines[i])
        &&& (new[i].len() == 0) == (lines[i].len() == 0)
        &&& uncommented(new[i], prefix) == lines[i]
        &&& !is_blank(new[i]) ==> starts_with(trim_start_seq(new[i]), prefix)
        &&& is_blank(lines[i]) ==> new[i] == lines[i]
    } by {
        let l = lines[i];
        assert(new[i] == toggle_line(l, prefix, false, c));
        if is_blank(l) {
            assert(new[i] == l);
            lemma_trim_start_shape(l);
            if starts_with(l.skip(indent_len(l)), prefix) {
                assert(l.skip(indent_len(l)).len() == 0);
            }
        } else {
            lemma_indent_within(l);
            let b = min_nat(c as int, utf8_len(l) as int);
            assert(b == c);
            assert(is_boundary(l, b)) by {
                if c >= utf8_len(l) {
                    assert(l.take(l.len() as int) == l);
                }
            }
            let k = char_at_byte(l, b);
            lemma_commented_line(l, prefix, k);
        }
    }
    // The first press: the joined lines, with the final line break kept.
    let r1 = toggle_spec(block, prefix);
    lemma_join_ends(new);
    lemma_join_ends(lines);
    if ends_in_nl(block) {
        lemma_join_push(new, Seq::empty());
        assert(r1 == join_nl(new) + seq!['\n']);
        assert(ends_in_nl(r1));
        assert(block_body(r1) == join_nl(new));
    } else {
        assert(r1 == join_nl(new));
        assert(!ends_in_nl(r1)) by {
            if new.len() >= 2 && new.last().len() == 0 {
                assert(new.last() == new[new.len() - 1]);
                assert(lines.last() == lines[lines.len() - 1]);
            }
        }
        assert(block_body(r1) == join_nl(new));
    }
    lemma_split_join(new);
    assert(split_nl(block_body(r1)) == new);
    // The second press: everything that is not blank is commented, so it
    // uncomments, or nothing is and it leaves every line as it is.
    let new2 = toggled_lines(new, prefix);
    if has_content(lines) {
        let j = choose|j: int| 0 <= j < lines.len() && !is_blank(#[trigger] lines[j]);
        assert(!is_blank(new[j]));
        assert(all_commented(new, prefix));
        assert(new2 =~= lines);
    } else {
        assert(!all_commented(new, prefix));
        assert forall|i: int| 0 <= i < new.len() implies #[trigger] new2[i] == lines[i] by {
            assert(is_blank(lines[i]));
            assert(new[i] == lines[i]);
            assert(new2[i] == toggle_line(new[i], prefix, false, block_column(new)));
        }
        assert(new2 =~= lines);
    }
    if ends_in_nl(block) {
        lemma_join_push(lines, Seq::empty());
        assert(join_nl(lines) + seq!['\n'] == block);
    }
}

/// The lines of `v[..n]`, split at line breaks.
fn split_lines(v: &[char], n: usize) -> (r: Vec<String>)
    requires
        n <= v@.len(),
    ensures
        r@.map_values(|s: String| s@) == split_nl(v@.take(n as int)),
{
    let ghost s = v@.take(n as int);
    let mut pieces: Vec<String> = Vec::new();
    let mut start: usize = 0;
    let mut i: usize = 0;
    while i < n
        invariant
            n <= v@.len(),
            s == v@.take(n as int),
            start <= i <= n,
            pieces@.map_values(|t: String| t@) + split_from(s, start as int, i as int) == split_nl(s),
        decreases n - i,
    {
        assert(s[i as int] == v@[i as int]);
        if v[i] == '\n' {
            let piece = crate::strings::string_of(v, start, i);
            assert(piece@ == s.subrange(start as int, i as int));
            let ghost before = pieces@;
            pieces.push(piece);
            assert(pieces@.map_values(|t: String| t@) == before.map_values(|t: String| t@).push(
                piece@,
            ));
            start = i + 1;
        }
        i += 1;
    }
    let piece = crate::strings::string_of(v, start, n);
    assert(piece@ == s.subrange(start as int, s.len() as int));
    let ghost before = pieces@;
    pieces.push(piece);
    assert(pieces@.map_values(|t: String| t@) == before.map_values(|t: String| t@).push(piece@));
    pieces
}

/// What the comment command writes over a block of whole lines: each line
/// commented at the block's shallowest indentation, or, when every non-blank
/// line is already commented, each uncommented. A final line break stays.
pub fn toggle_comment_block(block: &str, prefix: &str) -> (r: String)
    requires
        column_fits(split_nl(block_body(block@)), prefix@),
    ensures
        r@ == toggle_spec(block@, prefix@),
{
    let v = chars_of(block);
    let n = v.len();
    let trailing = n > 0 && v[n - 1] == '\n';
    let body_len = if trailing {
        n - 1
    } else {
        n
    };
    proof {
        if trailing {
            assert(v@.take(body_len as int) == block@.drop_last());
        } else {
            assert(v@.take(body_len as int) == block@);
        }
    }
    let pieces = split_lines(v.as_slice(), body_len);
    let ghost lines = split_nl(block_body(block@));
    let mut refs: Vec<&str> = Vec::new();
    let mut j: usize = 0;
    while j < pieces.len()
        invariant
            j <= pieces@.len(),
            line_views(refs@) == pieces@.map_values(|s: String| s@).take(j as int),
        decreases pieces@.len() - j,
    {
        let ghost before = refs@;
        refs.push(pieces[j].as_str());
        assert(line_views(refs@) == line_views(before).push(pieces@[j as int]@));
        assert(pieces@.map_values(|s: String| s@).take(j + 1) == pieces@.map_values(
            |s: String| s@,
        ).take(j as int).push(pieces@[j as int]@));
        j += 1;
    }
    assert(pieces@.map_values(|s: String| s@).take(pieces@.len() as int) == pieces@.map_values(
        |s: String| s@,
    ));
    assert(line_views(refs@) == lines);
    let uncomment = should_uncomment(refs.as_slice(), prefix);
    let column = comment_column(refs.as_slice());
    let ghost new = toggled_lines(lines, prefix@);
    proof {
        lemma_split_from(block_body(block@), 0, 0);
    }
    let mut out = String::new();
    let mut k: usize = 0;
    while k < refs.len()
        invariant
            line_views(refs@) == lines,
            lines.len() >= 1,
            uncomment == all_commented(lines, prefix@),
            column == block_column(lines),
            column_fits(lines, prefix@),
            new == toggled_lines(lines, prefix@),
            k <= lines.len(),
            out@ == join_nl(new.take(k as int)),
        decreases lines.len() - k,
    {
        let line = refs[k];
        assert(line@ == lines[k as int]);
        let piece = if uncomment {
            uncomment_line(line, prefix)
        } else {
            comment_line(line, prefix, column)
        };
        assert(piece@ == new[k as int]);
        proof {
            if k > 0 {
                lemma_join_push(new.take(k as int), new[k as int]);
            }
            assert(new.take(k + 1) == new.take(k as int).push(new[k as int]));
        }
        if k > 0 {
            push_char(&mut out, '\n');
        }
        push_str(&mut out, piece.as_str());
        proof {
            if k == 0 {
                assert(new.take(1) == seq![new[0]]);
            }
        }
        k += 1;
    }
    assert(new.take(lines.len() as int) == new);
    if trailing {
        proof {
            lemma_join_push(new, Seq::empty());
        }
        push_char(&mut out, '\n');
        assert(out@ == join_nl(new) + seq!['\n'] + Seq::<char>::empty());
    }
    out
}

/// Where a block of lines `first..=last` lands when moved by `delta` lines in
/// a buffer of `line_count` lines: nowhere when it would leave the buffer.
pub fn moved_range(first: i32, last: i32, delta: i32, line_count: i32) -> (r: Option<(i32, i32)>)
    requires
        i32::MIN <= first + delta <= i32::MAX,
        i32::MIN <= last + delta <= i32::MAX,
        line_count > i32::MIN,
    ensures
        (first + delta < 0 || last + delta > line_count - 1) ==> r is None,
        !(first + delta < 0 || last + delta > line_count - 1) ==> r == Some(
            ((first + delta) as i32, (last + delta) as i32),
        ),
{
    let target = first + delta;
    if target < 0 || last + delta > line_count - 1 {
        None
    } else {
        Some((target, last + delta))
    }
}

/// What duplicating a block inserts after it: the block again, after a line
/// break when the block is the last line and has none.
pub open spec fn duplicate_spec(block: Seq<char>) -> Seq<char> {
    if ends_in_nl(block) {
        block
    } else {
        seq!['\n'] + block
    }
}

pub fn duplicate_insert(block: &str) -> (r: String)
    ensures
        r@ == duplicate_spec(block@),
{
    let v = chars_of(block);
    let n = v.len();
    let mut out = String::new();
    if !(n > 0 && v[n - 1] == '\n') {
        push_char(&mut out, '\n');
    }
    push_range(&mut out, v.as_slice(), 0, n);
    assert(v@.subrange(0, n as int) == v@);
    out
}

/// `s` without its trailing line breaks (`trim_end_matches('\n')`).
pub open spec fn trim_nl_end(s: Seq<char>) -> Seq<char>
    decreases s.len(),
{
    if ends_in_nl(s) {
        trim_nl_end(s.drop_last())
    } else {
        s
    }
}

/// What a moved block is re-inserted as: its lines with one line break after
/// them, or before them when it lands at the very end of a buffer whose last
/// line it was.
pub open spec fn moved_spec(block: Seq<char>, at_end_of_buffer: bool) -> Seq<char> {
    let body = trim_nl_end(block);
    if at_end_of_buffer && !ends_in_nl(block) {
        seq!['\n'] + body
    } else {
        body + seq!['\n']
    }
}

pub fn moved_block_text(block: &str, at_end_of_buffer: bool) -> (r: String)
    ensures
        r@ == moved_spec(block@, at_end_of_buffer),
{
    let v = chars_of(block);
    let n = v.len();
    let had_newline = n > 0 && v[n - 1] == '\n';
    let mut end = n;
    assert(v@.take(n as int) == v@);
    while end > 0 && v[end - 1] == '\n'
        invariant
            end <= v@.len(),
            trim_nl_end(v@) == trim_nl_end(v@.take(end as int)),
        decreases end,
    {
        assert(v@.take(end as int).drop_last() == v@.take(end - 1));
        end -= 1;
    }
    assert(v@.take(v@.len() as int) == v@);
    assert(trim_nl_end(v@.take(end as int)) == v@.take(end as int));
    let mut out = String::new();
    if at_end_of_buffer && !had_newline {
        push_char(&mut out, '\n');
        push_range(&mut out, v.as_slice(), 0, end);
    } else {
        push_range(&mut out, v.as_slice(), 0, end);
        push_char(&mut out, '\n');
    }
    assert(v@.subrange(0, end as int) == v@.take(end as int));
    out
}

/// How far the text can be zoomed out and in, in points from the theme's size.
pub const ZOOM_MIN: i32 = -6;
pub const ZOOM_MAX: i32 = 24;

/// The zoom after a step, or nothing when the step changes nothing.
pub fn zoom_step(zoom: i32, delta: i32) -> (r: Option<i32>)
    requires
        i32::MIN <= zoom + delta <= i32::MAX,
    ensures
        ({
            let next = crate::config::clamp_spec(zoom + delta, ZOOM_MIN as int, ZOOM_MAX as int);
            &&& next == zoom ==> r is None
            &&& next != zoom ==> r == Some(next as i32)
        }),
{
    let sum = zoom + delta;
    let next = if sum < ZOOM_MIN {
        ZOOM_MIN
    } else if sum > ZOOM_MAX {
        ZOOM_MAX
    } else {
        sum
    };
    if next == zoom {
        None
    } else {
        Some(next)
    }
}

/// The point size text is drawn at: the theme's size plus the zoom, never
/// below 4.
pub open spec fn zoomed_size(font_size: i32, zoom: i32) -> int {
    if font_size + zoom >= 4 {
        font_size + zoom
    } else {
        4
    }
}

/// The stylesheet rule that draws the text at the zoomed size.
pub open spec fn zoom_css_spec(family: Seq<char>, size: int) -> Seq<char> {
    "window.f3note textview { font-family: "@ + family + "; font-size: "@
        + crate::numbers::signed_decimal(size) + "pt; }"@
}

pub fn zoom_css(family: &str, font_size: i32, zoom: i32) -> (r: String)
    requires
        i32::MIN <= font_size + zoom <= i32::MAX,
    ensures
        r@ == zoom_css_spec(family@, zoomed_size(font_size, zoom)),
{
    let sum = font_size + zoom;
    let size = if sum >= 4 {
        sum
    } else {
        4
    };
    let mut out = String::new();
    push_str(&mut out, "window.f3note textview { font-family: ");
    push_str(&mut out, family);
    push_str(&mut out, "; font-size: ");
    crate::numbers::push_i32(&mut out, size);
    push_str(&mut out, "pt; }");
    out
}

/// Which tab Ctrl+Tab lands on: one step back in recency, the previously used
/// tab; backwards, the least recently used. Nothing with fewer than two.
pub fn cycle_target(mru: &crate::mru::Mru<u64>, direction: i32) -> (r: Option<u64>)
    ensures
        mru@.len() < 2 ==> r is None,
        mru@.len() >= 2 && direction > 0 ==> r == Some(mru@[1]),
        mru@.len() >= 2 && direction <= 0 ==> r == Some(mru@[mru@.len() - 1]),
{
    let n = mru.len();
    if n < 2 {
        return None;
    }
    proof {
        vstd::arithmetic::div_mod::lemma_small_mod(1, n as nat);
        vstd::arithmetic::div_mod::lemma_small_mod((n - 1) as nat, n as nat);
    }
    if direction > 0 {
        mru.nth(1)
    } else {
        mru.nth(n - 1)
    }
}

/// The line a jump lands on: clamped into the buffer.
pub fn jump_line(line: i32, line_count: i32) -> (r: i32)
    requires
        line_count > i32::MIN,
    ensures
        r == crate::config::clamp_spec(
            line as int,
            0,
            if line_count - 1 >= 0 {
                line_count - 1
            } else {
                0
            },
        ),
{
    let last = if line_count - 1 >= 0 {
        line_count - 1
    } else {
        0
    };
    if line < 0 {
        0
    } else if line > last {
        last
    } else {
        line
    }
}

/// What the banner says after restoring documents with unsaved changes.
pub open spec fn restored_spec(unsaved: nat) -> Option<Seq<char>> {
    if unsaved == 0 {
        None
    } else if unsaved == 1 {
        Some("Restored 1 document with unsaved changes"@)
    } else {
        Some("Restored "@ + crate::numbers::decimal(unsaved) + " documents with unsaved changes"@)
    }
}

pub fn restored_message(unsaved: usize) -> (r: Option<String>)
    ensures
        r is Some <==> restored_spec(unsaved as nat) is Some,
        r is Some ==> r->0@ == restored_spec(unsaved as nat)->0,
{
    if unsaved == 0 {
        None
    } else if unsaved == 1 {
        Some("Restored 1 document with unsaved changes".to_owned())
    } else {
        let mut out = String::new();
        push_str(&mut out, "Restored ");
        crate::numbers::push_decimal(&mut out, unsaved as u64);
        push_str(&mut out, " documents with unsaved changes");
        Some(out)
    }
}

/// What the banner says after a replace-all.
pub open spec fn replaced_spec(n: nat) -> Seq<char> {
    if n == 0 {
        "Nothing to replace"@
    } else if n == 1 {
        "1 occurrence replaced"@
    } else {
        crate::numbers::decimal(n) + " occurrences replaced"@
    }
}

pub fn replaced_message(n: u32) -> (r: String)
    ensures
        r@ == replaced_spec(n as nat),
{
    if n == 0 {
        "Nothing to replace".to_owned()
    } else if n == 1 {
        "1 occurrence replaced".to_owned()
    } else {
        let mut out = String::new();
        crate::numbers::push_decimal(&mut out, n as u64);
        push_str(&mut out, " occurrences replaced");
        out
    }
}

/// What the banner says when autosave fails: said plainly, because a failing
/// autosave has stopped protecting the user's work.
pub fn autosave_failure_message(error: &str) -> (r: String)
    ensures
        r@ == "Autosave failed: "@ + error@ + ". Your work is not being protected."@,
{
    let mut out = String::new();
    push_str(&mut out, "Autosave failed: ");
    push_str(&mut out, error);
    push_str(&mut out, ". Your work is not being protected.");
    out
}

/// A file's modification time in whole seconds from the Unix epoch, as the
/// session records it: none for a time before the epoch or beyond `u64`.
pub open spec fn mtime_secs(mtime: Option<i128>) -> Option<u64> {
    match mtime {
        Some(t) => if t >= 0 && t / 1_000_000_000 <= u64::MAX {
            Some((t / 1_000_000_000) as u64)
        } else {
            None
        },
        None => None,
    }
}

fn clone_path(p: &Option<String>) -> (r: Option<String>)
    ensures
        r == *p,
{
    match p {
        Some(s) => Some(s.clone()),
        None => None,
    }
}

/// The session entry for an open document.
pub fn entry_for(key: String, meta: &crate::document::Meta, modified: bool) -> (r: crate::session::index::Entry)
    ensures
        r.key == key,
        r.path == meta.path,
        r.untitled_number == meta.untitled_number,
        r.cursor == meta.cursor_offset,
        r.modified == modified,
        r.encoding == meta.encoding,
        r.line_ending@ == crate::session::index::ending_name(meta.line_ending),
        r.had_bom == meta.had_bom,
        r.disk_size == meta.disk.size,
        r.disk_mtime_secs == mtime_secs(meta.disk.mtime),
{
    let secs = match meta.disk.mtime {
        Some(t) => if t >= 0 && t / 1_000_000_000 <= u64::MAX as i128 {
            Some((t / 1_000_000_000) as u64)
        } else {
            None
        },
        None => None,
    };
    crate::session::index::Entry {
        key,
        path: clone_path(&meta.path),
        untitled_number: meta.untitled_number,
        cursor: meta.cursor_offset,
        modified,
        encoding: meta.encoding.clone(),
        line_ending: crate::session::index::line_ending_name(meta.line_ending).to_owned(),
        had_bom: meta.had_bom,
        disk_size: meta.disk.size,
        disk_mtime_secs: secs,
    }
}

/// The document state a restored session entry describes. A recorded
/// modification time is seconds, so it comes back as whole seconds.
pub fn meta_for(entry: &crate::session::index::Entry) -> (r: crate::document::Meta)
    requires
        entry.disk_mtime_secs matches Some(s) ==> s <= i64::MAX,
    ensures
        r.path == entry.path,
        r.untitled_number == entry.untitled_number,
        r.encoding == entry.encoding,
        r.line_ending == crate::session::index::ending_from(entry.line_ending@),
        r.had_bom == entry.had_bom,
        r.large_file is None,
        r.disk.size == entry.disk_size,
        r.disk.mtime == (match entry.disk_mtime_secs {
            Some(s) => Some((s * 1_000_000_000) as i128),
            None => None,
        }),
        r.cursor_offset == entry.cursor,
        !r.lossy,
{
    let mtime = match entry.disk_mtime_secs {
        Some(s) => Some((s as i128) * 1_000_000_000),
        None => None,
    };
    crate::document::Meta {
        path: clone_path(&entry.path),
        untitled_number: entry.untitled_number,
        encoding: entry.encoding.clone(),
        line_ending: entry.line_ending(),
        had_bom: entry.had_bom,
        large_file: None,
        disk: crate::document::DiskStamp { mtime, size: entry.disk_size },
        cursor_offset: entry.cursor,
        lossy: false,
    }
}

/// A tab worth recording: it points at a file, or it has unsaved contents.
pub open spec fn worth_restoring() -> spec_fn(crate::session::index::Entry) -> bool {
    |e: crate::session::index::Entry| e.path is Some || e.modified
}

/// The session describing the open tabs: the ones worth restoring, in order.
pub fn session_of(entries: Vec<crate::session::index::Entry>, active: usize, next_untitled: u32) -> (r: crate::session::index::Session)
    ensures
        r.version == crate::session::index::VERSION,
        r.documents@ == entries@.filter(worth_restoring()),
        r.active == active,
        r.next_untitled == next_untitled,
{
    let ghost orig = entries@;
    let n = entries.len();
    let mut rest = entries;
    let mut rev: Vec<crate::session::index::Entry> = Vec::new();
    while rest.len() > 0
        invariant
            n == orig.len(),
            rest@ == orig.take(rest@.len() as int),
            rev@.len() + rest@.len() == n,
            forall|k: int| 0 <= k < rev@.len() ==> #[trigger] rev@[k] == orig[n - 1 - k],
        decreases rest@.len(),
    {
        let e = rest.pop().unwrap();
        assert(e == orig[rest@.len() as int]);
        rev.push(e);
    }
    let mut kept: Vec<crate::session::index::Entry> = Vec::new();
    let ghost mut j: int = 0;
    while rev.len() > 0
        invariant
            n == orig.len(),
            0 <= j <= n,
            rev@.len() == n - j,
            forall|k: int| 0 <= k < rev@.len() ==> #[trigger] rev@[k] == orig[n - 1 - k],
            kept@ == orig.take(j).filter(worth_restoring()),
        decreases rev@.len(),
    {
        let e = rev.pop().unwrap();
        proof {
            assert(e == orig[j]);
            let t = orig.take(j + 1);
            assert(t.drop_last() == orig.take(j));
            assert(t.last() == e);
            reveal_with_fuel(Seq::filter, 1);
        }
        if e.is_worth_restoring() {
            kept.push(e);
        }
        proof {
            j = j + 1;
        }
    }
    assert(orig.take(n as int) == orig);
    crate::session::index::Session {
        version: crate::session::index::VERSION,
        documents: kept,
        active,
        next_untitled,
    }
}

/// `acc` followed by each id of `docs` it does not hold yet, in order.
pub open spec fn append_missing(acc: Seq<u64>, docs: Seq<u64>) -> Seq<u64>
    decreases docs.len(),
{
    if docs.len() == 0 {
        acc
    } else {
        let a = append_missing(acc, docs.drop_last());
        if a.contains(docs.last()) {
            a
        } else {
            a.push(docs.last())
        }
    }
}

/// Open tabs in recency order, then any open tab the recency list does not
/// know, in tab order.
pub open spec fn recency_spec(mru: Seq<u64>, docs: Seq<u64>) -> Seq<u64> {
    append_missing(mru.filter(|id: u64| docs.contains(id)), docs)
}

/// The order the tab switcher offers open tabs in: recency order, except that
/// the current tab (the most recent) goes after the one used before it, so
/// that `Enter` on an empty query goes where `Ctrl+Tab` would.
pub open spec fn switcher_spec(mru: Seq<u64>, docs: Seq<u64>) -> Seq<u64> {
    let base = recency_spec(mru, docs);
    if base.len() >= 2 && mru.len() > 0 && base[0] == mru[0] {
        base.update(0, base[1]).update(1, base[0])
    } else {
        base
    }
}

proof fn lemma_append_missing_prefix(acc: Seq<u64>, docs: Seq<u64>)
    ensures
        append_missing(acc, docs).len() >= acc.len(),
        forall|i: int| 0 <= i < acc.len() ==> #[trigger] append_missing(acc, docs)[i] == acc[i],
    decreases docs.len(),
{
    if docs.len() > 0 {
        lemma_append_missing_prefix(acc, docs.drop_last());
    }
}

/// With the current and the previous tab both open, the switcher lists the
/// previous tab first and the current one second.
proof fn lemma_switcher_front(mru: Seq<u64>, docs: Seq<u64>)
    requires
        mru.len() >= 2,
        mru[0] != mru[1],
        docs.contains(mru[0]),
        docs.contains(mru[1]),
    ensures
        switcher_spec(mru, docs)[0] == mru[1],
        switcher_spec(mru, docs)[1] == mru[0],
        switcher_spec(mru, docs).len() >= 2,
{
    let open = |id: u64| docs.contains(id);
    let f = mru.filter(open);
    assert(mru == mru.take(2) + mru.skip(2));
    Seq::filter_distributes_over_add(mru.take(2), mru.skip(2), open);
    assert(mru.take(2) == seq![mru[0]] + seq![mru[1]]);
    seq![mru[1]].lemma_filter_prepend(mru[0], open);
    Seq::<u64>::empty().lemma_filter_prepend(mru[1], open);
    assert(seq![mru[1]] == seq![mru[1]] + Seq::<u64>::empty());
    reveal_with_fuel(Seq::filter, 1);
    assert(mru.take(2).filter(open) == seq![mru[0], mru[1]]);
    assert(f[0] == mru[0] && f[1] == mru[1]);
    lemma_append_missing_prefix(f, docs);
}

fn holds_id(v: &Vec<u64>, id: u64) -> (r: bool)
    ensures
        r == v@.contains(id),
{
    let mut i: usize = 0;
    while i < v.len()
        invariant
            i <= v@.len(),
            forall|j: int| 0 <= j < i ==> v@[j] != id,
        decreases v@.len() - i,
    {
        if v[i] == id {
            assert(v@[i as int] == id);
            return true;
        }
        i += 1;
    }
    false
}

pub fn switcher_order(mru: &[u64], docs: &[u64]) -> (r: Vec<u64>)
    ensures
        r@ == switcher_spec(mru@, docs@),
        mru@.len() >= 2 && mru@[0] != mru@[1] && docs@.contains(mru@[0]) && docs@.contains(mru@[1])
            ==> r@[0] == mru@[1] && r@[1] == mru@[0],
{
    let ghost open = |id: u64| docs@.contains(id);
    let mut docs_v: Vec<u64> = Vec::new();
    let mut d: usize = 0;
    while d < docs.len()
        invariant
            d <= docs@.len(),
            docs_v@ == docs@.take(d as int),
        decreases docs@.len() - d,
    {
        docs_v.push(docs[d]);
        assert(docs@.take(d + 1) == docs@.take(d as int).push(docs@[d as int]));
        d += 1;
    }
    assert(docs@.take(docs@.len() as int) == docs@);
    let mut out: Vec<u64> = Vec::new();
    let mut i: usize = 0;
    while i < mru.len()
        invariant
            i <= mru@.len(),
            docs_v@ == docs@,
            open == (|id: u64| docs@.contains(id)),
            out@ == mru@.take(i as int).filter(open),
        decreases mru@.len() - i,
    {
        proof {
            let t = mru@.take(i + 1);
            assert(t.drop_last() == mru@.take(i as int));
            assert(t.last() == mru@[i as int]);
            reveal_with_fuel(Seq::filter, 1);
        }
        if holds_id(&docs_v, mru[i]) {
            out.push(mru[i]);
        }
        i += 1;
    }
    assert(mru@.take(mru@.len() as int) == mru@);
    let ghost first = out@;
    let mut k: usize = 0;
    while k < docs.len()
        invariant
            k <= docs@.len(),
            out@ == append_missing(first, docs@.take(k as int)),
        decreases docs@.len() - k,
    {
        proof {
            let t = docs@.take(k + 1);
            assert(t.drop_last() == docs@.take(k as int));
            assert(t.last() == docs@[k as int]);
        }
        if !holds_id(&out, docs[k]) {
            out.push(docs[k]);
        }
        k += 1;
    }
    assert(docs@.take(docs@.len() as int) == docs@);
    if out.len() >= 2 && mru.len() > 0 && out[0] == mru[0] {
        let a = out[0];
        let b = out[1];
        out.set(0, b);
        out.set(1, a);
    }
    proof {
        if mru@.len() >= 2 && mru@[0] != mru@[1] && docs@.contains(mru@[0]) && docs@.contains(mru@[1]) {
            lemma_switcher_front(mru@, docs@);
        }
    }
    out
}

/// The recently opened files the switcher offers after the open tabs, so
/// that the same keystroke reopens something closed: those not open in a tab,
/// in recency order.
pub open spec fn reopen_spec(recent: Seq<Seq<char>>, open: Seq<Seq<char>>) -> Seq<Seq<char>> {
    recent.filter(|p: Seq<char>| !holds_path(open, p))
}

pub fn reopen_candidates(recent: &Vec<String>, open: &Vec<String>) -> (r: Vec<String>)
    ensures
        texts(r@) == reopen_spec(texts(recent@), texts(open@)),
{
    let ghost rs = texts(recent@);
    let ghost keep = |p: Seq<char>| !holds_path(texts(open@), p);
    let mut out: Vec<String> = Vec::new();
    let mut i: usize = 0;
    while i < recent.len()
        invariant
            i <= recent@.len(),
            rs == texts(recent@),
            keep == (|p: Seq<char>| !holds_path(texts(open@), p)),
            texts(out@) == rs.take(i as int).filter(keep),
        decreases recent@.len() - i,
    {
        proof {
            let t = rs.take(i + 1);
            assert(t.drop_last() == rs.take(i as int));
            assert(t.last() == recent@[i as int]@);
            reveal_with_fuel(Seq::filter, 1);
        }
        if !holds(open, recent[i].as_str()) {
            let ghost before = out@;
            out.push(recent[i].clone());
            assert(texts(out@) == texts(before).push(recent@[i as int]@));
        }
        i += 1;
    }
    assert(rs.take(recent@.len() as int) == rs);
    out
}

/// The disk work for mirroring one document: history is kept only for
/// documents no larger than the configured limit.
pub fn job_for(key: String, contents: Vec<u8>, editor: &crate::config::Editor) -> (r: crate::session::autosave::Job)
    ensures
        r.key == key,
        r.contents@ == contents@,
        r.keep_history == (contents@.len() <= editor.history_max_bytes),
        r.history_limit == editor.history_versions,
{
    let keep_history = (contents.len() as u64) <= editor.history_max_bytes;
    crate::session::autosave::Job { key, contents, keep_history, history_limit: editor.history_versions }
}


/// A recovered document's text keeps the disk load's reduced-capability
/// reason when its own has none: a pathological file does not become safe
/// because it came back from a mirror.
pub open spec fn with_disk_limits(m: LoadedTextModel, disk: Option<LoadedText>) -> LoadedTextModel {
    match disk {
        Some(d) => LoadedTextModel {
            large_file: if m.large_file is Some { m.large_file } else { d@.large_file },
            ..m
        },
        None => m,
    }
}

/// What a tab opens with. A document recovered after a crash whose mirror
/// can be read gets the mirror's contents, decoded with the line limit, since
/// the mirror is newer than the file; otherwise it gets what was read from
/// disk. The second value is whether the tab starts out modified: exactly
/// when recovered contents were loaded, which are by definition not what is
/// on disk.
pub fn recovered_load(
    disk: Option<LoadedText>,
    mirror: Option<&[u8]>,
    recovered: bool,
    long_line_chars: usize,
) -> (r: (Option<LoadedText>, bool))
    requires
        mirror matches Some(m) ==> convertible_len(m@.len()),
    ensures
        recovered && mirror is Some ==> (r.0 matches Some(t) && t@ == with_disk_limits(
            decode_result(mirror->0@, long_line_chars as nat),
            disk,
        )),
        !(recovered && mirror is Some) ==> r.0 == disk,
        r.1 == (recovered && r.0 is Some),
{
    if recovered {
        if let Some(bytes) = mirror {
            let mut from_mirror = decode_with_limit(bytes, long_line_chars);
            if let Some(d) = &disk {
                if from_mirror.large_file.is_none() {
                    from_mirror.large_file = d.large_file;
                }
            }
            return (Some(from_mirror), true);
        }
    }
    let modified = recovered && disk.is_some();
    (disk, modified)
}

/// What the banner says when saving is refused for a file that could not be
/// decoded cleanly.
pub open spec fn lossy_save_message() -> Seq<char> {
    "This file could not be decoded cleanly; saving would lose data. Use Save As."@
}

/// The bytes a save writes for a document. A document that could not be
/// decoded cleanly holds replacement characters, and writing that back would
/// destroy whatever those bytes really were, so its save is refused.
pub fn bytes_to_save(meta: &Meta, text: &str) -> (r: Result<Vec<u8>, String>)
    requires
        meta.lossy || convertible_len(2 * text@.len()),
    ensures
        meta.lossy ==> (r matches Err(e) && e@ == lossy_save_message()),
        !meta.lossy ==> (r matches Ok(b) && b@ == encode_result(
            text@,
            meta.line_ending,
            meta.encoding@,
            meta.had_bom,
        )),
{
    if meta.lossy {
        return Err("This file could not be decoded cleanly; saving would lose data. Use Save As.".to_owned());
    }
    Ok(encode(text, meta.line_ending, meta.encoding.as_str(), meta.had_bom))
}

/// Whether saving to `target` would write over the file a document was read
/// from.
pub open spec fn over_original(meta: Meta, target: Seq<char>) -> bool {
    meta.path matches Some(p) && same_path_spec(p@, target)
}

/// The bytes Save As writes to `target`. A document that could not be
/// decoded cleanly is refused only where that would write over the file it
/// came from; saving it under another name loses nothing.
pub fn bytes_to_save_as(meta: &Meta, text: &str, target: &str) -> (r: Result<Vec<u8>, String>)
    requires
        (meta.lossy && over_original(*meta, target@)) || convertible_len(2 * text@.len()),
    ensures
        meta.lossy && over_original(*meta, target@) ==> (r matches Err(e) && e@
            == lossy_save_message()),
        !(meta.lossy && over_original(*meta, target@)) ==> (r matches Ok(b) && b@ == encode_result(
            text@,
            meta.line_ending,
            meta.encoding@,
            meta.had_bom,
        )),
{
    if meta.lossy {
        if let Some(p) = &meta.path {
            if same_path(p.as_str(), target) {
                return Err(
                    "This file could not be decoded cleanly; saving would lose data. Use Save As.".to_owned(),
                );
            }
        }
    }
    Ok(encode(text, meta.line_ending, meta.encoding.as_str(), meta.had_bom))
}

/// `i` is the first position of `x` in `s`.
pub open spec fn first_at(s: Seq<u64>, x: u64, i: int) -> bool {
    0 <= i < s.len() && s[i] == x && forall|j: int| 0 <= j < i ==> s[j] != x
}

/// The tabs left after closing `id`.
pub open spec fn tabs_after_close(docs: Seq<u64>, id: u64) -> Seq<u64> {
    docs.remove(choose|i: int| first_at(docs, id, i))
}

/// `k` is the first entry of the recency list other than `id`, the one that
/// leads the list once `id` is gone from it.
pub open spec fn next_recent_at(mru: Seq<u64>, id: u64, k: int) -> bool {
    0 <= k < mru.len() && mru[k] != id && forall|j: int| 0 <= j < k ==> mru[j] == id
}

/// What the window does after a tab is asked to close.
#[derive(Debug, Clone, Copy, PartialEq, Eq, Structural)]
pub enum CloseAction {
    /// No tab holds that document; nothing happens.
    NotOpen,
    /// It was the last tab: an empty one takes its place rather than the
    /// window closing.
    OpenEmpty,
    /// Go to the tab at this position among those left: the most recently
    /// used one, not whatever happens to sit at the same index.
    Select(usize),
    /// The most recently used document has no tab; the selection stays.
    KeepSelection,
}

proof fn lemma_first_at_unique(s: Seq<u64>, x: u64, i: int, j: int)
    requires
        first_at(s, x, i),
        first_at(s, x, j),
    ensures
        i == j,
{
    if i < j {
        assert(s[i] != x);
    } else if j < i {
        assert(s[j] != x);
    }
}

fn first_position(s: &[u64], x: u64) -> (r: Option<usize>)
    ensures
        match r {
            Some(i) => first_at(s@, x, i as int),
            None => !s@.contains(x),
        },
{
    let mut i: usize = 0;
    while i < s.len()
        invariant
            i <= s@.len(),
            forall|j: int| 0 <= j < i ==> s@[j] != x,
        decreases s@.len() - i,
    {
        if s[i] == x {
            return Some(i);
        }
        i += 1;
    }
    None
}

fn without_at(docs: &[u64], p: usize) -> (r: Vec<u64>)
    requires
        p < docs@.len(),
    ensures
        r@ == docs@.remove(p as int),
{
    let mut left: Vec<u64> = Vec::new();
    let mut i: usize = 0;
    while i < docs.len()
        invariant
            i <= docs@.len(),
            p < docs@.len(),
            left@ == (if i <= p {
                docs@.take(i as int)
            } else {
                docs@.take(p as int) + docs@.subrange(p + 1, i as int)
            }),
        decreases docs@.len() - i,
    {
        if i != p {
            left.push(docs[i]);
        }
        proof {
            if i < p {
                assert(docs@.take(i + 1) == docs@.take(i as int).push(docs@[i as int]));
            } else if i > p {
                assert(docs@.subrange(p + 1, i + 1) == docs@.subrange(p + 1, i as int).push(
                    docs@[i as int],
                ));
            } else {
                assert(docs@.subrange(p + 1, i + 1) =~= Seq::<u64>::empty());
            }
        }
        i += 1;
    }
    assert(left@ =~= docs@.remove(p as int));
    left
}

fn next_recent(mru: &[u64], id: u64) -> (r: Option<usize>)
    ensures
        match r {
            Some(k) => next_recent_at(mru@, id, k as int),
            None => forall|k: int| 0 <= k < mru@.len() ==> mru@[k] == id,
        },
{
    let mut k: usize = 0;
    while k < mru.len() && mru[k] == id
        invariant
            k <= mru@.len(),
            forall|j: int| 0 <= j < k ==> mru@[j] == id,
        decreases mru@.len() - k,
    {
        k += 1;
    }
    if k == mru.len() {
        None
    } else {
        Some(k)
    }
}

proof fn lemma_next_recent_unique(mru: Seq<u64>, id: u64, k: int, k2: int)
    requires
        next_recent_at(mru, id, k),
        next_recent_at(mru, id, k2),
    ensures
        k == k2,
{
    if k2 < k {
        assert(mru[k2] == id);
    } else if k < k2 {
        assert(mru[k] == id);
    }
}

/// What closing the tab of document `id` leads to, given the open tabs in
/// order and the recency list (most recent first).
pub fn after_close(docs: &[u64], mru: &[u64], id: u64) -> (r: CloseAction)
    ensures
        !docs@.contains(id) <==> r == CloseAction::NotOpen,
        docs@.contains(id) ==> (tabs_after_close(docs@, id).len() == 0 <==> r
            == CloseAction::OpenEmpty),
        r matches CloseAction::Select(i) ==> exists|k: int|
            next_recent_at(mru@, id, k) && first_at(tabs_after_close(docs@, id), mru@[k], i as int),
        r == CloseAction::KeepSelection ==> forall|k: int|
            next_recent_at(mru@, id, k) ==> !tabs_after_close(docs@, id).contains(mru@[k]),
{
    let p = match first_position(docs, id) {
        Some(p) => p,
        None => return CloseAction::NotOpen,
    };
    proof {
        let c = choose|i: int| first_at(docs@, id, i);
        lemma_first_at_unique(docs@, id, p as int, c);
    }
    let left = without_at(docs, p);
    assert(left@ == tabs_after_close(docs@, id));
    if left.len() == 0 {
        return CloseAction::OpenEmpty;
    }
    let k = match next_recent(mru, id) {
        Some(k) => k,
        None => return CloseAction::KeepSelection,
    };
    match first_position(left.as_slice(), mru[k]) {
        Some(i) => CloseAction::Select(i),
        None => {
            assert forall|k2: int| next_recent_at(mru@, id, k2) implies !tabs_after_close(
                docs@,
                id,
            ).contains(mru@[k2]) by {
                lemma_next_recent_unique(mru@, id, k as int, k2);
            }
            CloseAction::KeepSelection
        },
    }
}

/// Position `i` holds a tab whose file is `path`.
pub open spec fn holds_path_at(paths: Seq<Option<String>>, path: Seq<char>, i: int) -> bool {
    paths[i] matches Some(p) && same_path_spec(p@, path)
}

/// The tab already showing the file at `canonical`, if any: opening a file
/// that is already open just focuses its tab.
pub fn open_index(paths: &[Option<String>], canonical: &str) -> (r: Option<usize>)
    ensures
        match r {
            Some(i) => i < paths@.len() && holds_path_at(paths@, canonical@, i as int) && forall|j: int|
                0 <= j < i ==> !holds_path_at(paths@, canonical@, j),
            None => forall|j: int| 0 <= j < paths@.len() ==> !holds_path_at(paths@, canonical@, j),
        },
{
    let mut i: usize = 0;
    while i < paths.len()
        invariant
            i <= paths@.len(),
            forall|j: int| 0 <= j < i ==> !holds_path_at(paths@, canonical@, j),
        decreases paths@.len() - i,
    {
        if let Some(p) = &paths[i] {
            if same_path(p.as_str(), canonical) {
                return Some(i);
            }
        }
        i += 1;
    }
    None
}

/// The tab `Alt+n` goes to, for `n` from 1 to 9: the `n`th tab, except that
/// `Alt+9` is the last tab rather than the ninth, as in browsers.
pub fn alt_digit_tab(n: usize, tabs: usize) -> (r: usize)
    requires
        1 <= n <= 9,
    ensures
        r == if n == 9 {
            if tabs > 0 { tabs - 1 } else { 0 }
        } else {
            n - 1
        },
{
    if n == 9 {
        if tabs > 0 {
            tabs - 1
        } else {
            0
        }
    } else {
        n - 1
    }
}

/// What the banner says when a document has no earlier versions.
pub open spec fn no_history_message() -> Seq<char> {
    "No earlier versions of this document yet. They are kept as you work."@
}

/// One row of the history panel.
#[derive(Debug)]
pub struct HistoryRow {
    /// The snapshot a click restores.
    pub sequence: u64,
    /// How long ago it was written.
    pub age: String,
    /// Its stored size, "… compressed".
    pub size: String,
}

/// The history panel's rows, newest first (the version someone wants back is
/// almost always a recent one), from the entries oldest first; or, with no
/// entries, the message that says so.
pub fn history_rows(entries: &Vec<HistoryEntry>, now: u128) -> (r: Result<Vec<HistoryRow>, String>)
    ensures
        entries@.len() == 0 <==> r is Err,
        r matches Err(m) ==> m@ == no_history_message(),
        r matches Ok(rows) ==> {
            &&& rows@.len() == entries@.len()
            &&& forall|k: int|
                0 <= k < rows@.len() ==> {
                    let e = #[trigger] entries@[entries@.len() - 1 - k];
                    &&& rows@[k].sequence == e.sequence
                    &&& rows@[k].age@ == age_spec(e.written_at, now)
                    &&& rows@[k].size@ == size_spec(e.stored_bytes as nat) + " compressed"@
                }
        },
{
    if entries.len() == 0 {
        return Err("No earlier versions of this document yet. They are kept as you work.".to_owned());
    }
    let n = entries.len();
    let mut rows: Vec<HistoryRow> = Vec::new();
    let mut k: usize = 0;
    while k < n
        invariant
            n == entries@.len(),
            k <= n,
            rows@.len() == k,
            forall|j: int|
                0 <= j < k ==> {
                    let e = #[trigger] entries@[n - 1 - j];
                    &&& rows@[j].sequence == e.sequence
                    &&& rows@[j].age@ == age_spec(e.written_at, now)
                    &&& rows@[j].size@ == size_spec(e.stored_bytes as nat) + " compressed"@
                },
        decreases n - k,
    {
        let e = &entries[n - 1 - k];
        let mut size = e.size();
        push_str(&mut size, " compressed");
        rows.push(HistoryRow { sequence: e.sequence, age: e.age(now), size });
        k += 1;
    }
    Ok(rows)
}

/// The history panel's heading.
pub fn history_heading(title: &str) -> (r: String)
    ensures
        r@ == title@ + " — earlier versions"@,
{
    let mut out = title.to_owned();
    push_str(&mut out, " — earlier versions");
    out
}

} // verus!


