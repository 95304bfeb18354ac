//! Single-instance hand-over: what passes between a second `f3note` and the
//! one already running.
//!
//! The socket lives in Linux's abstract namespace, named after the state
//! directory: two processes are the same instance exactly when they would
//! write the same crash-recovery state. A second process sends its paths one
//! per line; the first reads them back. The sockets themselves are the
//! caller's.

use vstd::prelude::*;

use crate::session::store::{hash_of, hash_spec};
use crate::strings::{
    chars_of, is_ws, line_len, line_ranges, lines_of, push_char, push_str, strip_cr,
    string_of, trim_end_seq, trim_range, trim_seq, trim_start_seq,
};

verus! {

/// The abstract socket name for a state directory.
pub open spec fn address_spec(state_dir: Seq<char>) -> Seq<char> {
    "f3note-"@ + hash_spec(vstd::utf8::encode_utf8(state_dir)).take(16)
}

pub fn address_name(state_dir: &str) -> (r: String)
    ensures
        r@ == address_spec(state_dir@),
{
    let digest = hash_of(state_dir.as_bytes());
    let d = chars_of(digest.as_str());
    let mut out = String::new();
    push_str(&mut out, "f3note-");
    let head = string_of(d.as_slice(), 0, 16);
    push_str(&mut out, head.as_str());
    out
}

/// Paths one per line, each followed by a line break.
pub open spec fn framed(ps: Seq<Seq<char>>) -> Seq<char>
    decreases ps.len(),
{
    if ps.len() == 0 {
        Seq::empty()
    } else {
        ps[0] + seq!['\n'] + framed(ps.drop_first())
    }
}

pub open spec fn no_newline(p: Seq<char>) -> bool {
    !p.contains('\n')
}

/// What a second instance sends: its paths, one per line. A path holding a
/// line break would corrupt the framing, so it is left out.
pub open spec fn handover_spec(ps: Seq<Seq<char>>) -> Seq<char> {
    framed(ps.filter(|p: Seq<char>| no_newline(p)))
}

/// What the running instance takes from what it received: each line trimmed,
/// blank lines skipped.
pub open spec fn received_spec(text: Seq<char>) -> Seq<Seq<char>> {
    lines_of(text).map_values(|l: Seq<char>| trim_seq(l)).filter(|l: Seq<char>| l.len() > 0)
}

pub open spec fn texts(v: Seq<String>) -> Seq<Seq<char>> {
    v.map_values(|s: String| s@)
}

proof fn lemma_framed_push(ps: Seq<Seq<char>>, x: Seq<char>)
    ensures
        framed(ps.push(x)) == framed(ps) + x + seq!['\n'],
    decreases ps.len(),
{
    if ps.len() == 0 {
        assert(ps.push(x).drop_first() == Seq::<Seq<char>>::empty());
        assert(framed(Seq::<Seq<char>>::empty()) == Seq::<char>::empty());
    } else {
        lemma_framed_push(ps.drop_first(), x);
        assert(ps.push(x).drop_first() == ps.drop_first().push(x));
        assert(ps.push(x)[0] == ps[0]);
    }
}

fn contains_newline(p: &str) -> (r: bool)
    ensures
        r == !no_newline(p@),
{
    let v = chars_of(p);
    let mut i: usize = 0;
    while i < v.len()
        invariant
            v@ == p@,
            i <= v@.len(),
            forall|j: int| 0 <= j < i ==> v@[j] != '\n',
        decreases v@.len() - i,
    {
        if v[i] == '\n' {
            assert(v@[i as int] == '\n');
            return true;
        }
        i += 1;
    }
    false
}

/// The text a second instance sends for its paths.
pub fn handover_text(paths: &[String]) -> (r: String)
    ensures
        r@ == handover_spec(texts(paths@)),
{
    let ghost ps = texts(paths@);
    let ghost keep = |p: Seq<char>| no_newline(p);
    let mut out = String::new();
    let mut i: usize = 0;
    proof {
        assert(ps.take(0).len() == 0);
        reveal_with_fuel(Seq::filter, 1);
    }
    while i < paths.len()
        invariant
            ps == texts(paths@),
            keep == (|p: Seq<char>| no_newline(p)),
            i <= paths@.len(),
            out@ == framed(ps.take(i as int).filter(keep)),
        decreases paths@.len() - i,
    {
        let p = paths[i].as_str();
        proof {
            let t = ps.take(i + 1);
            assert(t.drop_last() == ps.take(i as int));
            assert(t.last() == ps[i as int]);
            reveal_with_fuel(Seq::filter, 1);
        }
        if !contains_newline(p) {
            proof {
                lemma_framed_push(ps.take(i as int).filter(keep), p@);
            }
            push_str(&mut out, p);
            push_char(&mut out, '\n');
        }
        i += 1;
    }
    proof {
        assert(ps.take(paths@.len() as int) == ps);
    }
    out
}

/// The paths the running instance takes from what it received.
pub fn received_paths(text: &str) -> (r: Vec<String>)
    ensures
        texts(r@) == received_spec(text@),
{
    let s = chars_of(text);
    let lines = line_ranges(s.as_slice());
    let ghost ls = lines_of(text@);
    let ghost tr = ls.map_values(|l: Seq<char>| trim_seq(l));
    let ghost nonblank = |l: Seq<char>| l.len() > 0;
    let mut out: Vec<String> = Vec::new();
    let mut i: usize = 0;
    proof {
        assert(tr.take(0).len() == 0);
        reveal_with_fuel(Seq::filter, 1);
    }
    while i < lines.len()
        invariant
            s@ == text@,
            ls == lines_of(text@),
            tr == ls.map_values(|l: Seq<char>| trim_seq(l)),
            nonblank == (|l: Seq<char>| l.len() > 0),
            lines@.len() == ls.len(),
            forall|k: int|
                0 <= k < lines@.len() ==> {
                    &&& (#[trigger] lines@[k]).0 <= lines@[k].1 <= s@.len()
                    &&& s@.subrange(lines@[k].0 as int, lines@[k].1 as int) == ls[k]
                },
            i <= lines@.len(),
            texts(out@) == tr.take(i as int).filter(nonblank),
        decreases lines@.len() - i,
    {
        let (lo0, hi0) = lines[i];
        let (lo, hi) = trim_range(s.as_slice(), lo0, hi0);
        proof {
            let t = tr.take(i + 1);
            assert(t.drop_last() == tr.take(i as int));
            assert(t.last() == trim_seq(ls[i as int]));
            reveal_with_fuel(Seq::filter, 1);
        }
        if lo < hi {
            let line = string_of(s.as_slice(), lo, hi);
            let ghost before = out@;
            out.push(line);
            assert(texts(out@) == texts(before).push(line@));
        }
        i += 1;
    }
    proof {
        assert(tr.take(lines@.len() as int) == tr);
    }
    out
}

/// A line without a break in it, followed by one, is the first line.
proof fn lemma_lines_of_framed_line(p: Seq<char>, rest: Seq<char>)
    requires
        no_newline(p),
    ensures
        lines_of(p + seq!['\n'] + rest) == seq![strip_cr(p)] + lines_of(rest),
{
    let s = p + seq!['\n'] + rest;
    lemma_line_len_stops(p, rest);
    assert(line_len(s) == p.len());
    assert(s.take(p.len() as int) == p);
    assert(s.skip(p.len() + 1int) == rest);
}

proof fn lemma_line_len_stops(p: Seq<char>, rest: Seq<char>)
    requires
        no_newline(p),
    ensures
        line_len(p + seq!['\n'] + rest) == p.len(),
    decreases p.len(),
{
    let s = p + seq!['\n'] + rest;
    if p.len() == 0 {
        assert(s[0] == '\n');
    } else {
        assert(s[0] == p[0]);
        assert(p[0] != '\n') by {
            if p[0] == '\n' {
                assert(p.contains(p[0]));
            }
        }
        assert(!p.drop_first().contains('\n')) by {
            if p.drop_first().contains('\n') {
                let j = choose|j: int| 0 <= j < p.drop_first().len() && p.drop_first()[j] == '\n';
                assert(p[j + 1] == '\n');
            }
        }
        lemma_line_len_stops(p.drop_first(), rest);
        assert(s.drop_first() == p.drop_first() + seq!['\n'] + rest);
    }
}

/// A path that is already trimmed and not empty ends in no white space, so
/// no carriage return is taken off it.
proof fn lemma_trimmed_keeps_its_end(p: Seq<char>)
    requires
        trim_seq(p) == p,
        p.len() > 0,
    ensures
        strip_cr(p) == p,
        !is_ws(p.last()),
{
    lemma_trim_end_last(trim_start_seq(p));
}

proof fn lemma_trim_end_last(s: Seq<char>)
    ensures
        trim_end_seq(s).len() > 0 ==> !is_ws(trim_end_seq(s).last()),
    decreases s.len(),
{
    if s.len() > 0 && is_ws(s.last()) {
        lemma_trim_end_last(s.drop_last());
    }
}

/// Paths sent by a second instance arrive as sent, in order, when each is
/// already trimmed, not empty and free of line breaks: the hand-over loses
/// nothing and adds nothing.
pub proof fn handed_over_paths_arrive_unchanged(ps: Seq<Seq<char>>)
    requires
        forall|i: int|
            0 <= i < ps.len() ==> no_newline(#[trigger] ps[i]) && trim_seq(ps[i]) == ps[i]
                && ps[i].len() > 0,
    ensures
        received_spec(handover_spec(ps)) == ps,
    decreases ps.len(),
{
    lemma_filter_all(ps);
    if ps.len() == 0 {
        assert(framed(ps) == Seq::<char>::empty());
        assert(lines_of(Seq::<char>::empty()) == Seq::<Seq<char>>::empty());
        reveal_with_fuel(Seq::filter, 1);
        assert(received_spec(Seq::<char>::empty()) == Seq::<Seq<char>>::empty());
    } else {
        let p = ps[0];
        let tail = ps.drop_first();
        assert forall|i: int| 0 <= i < tail.len() implies no_newline(#[trigger] tail[i]) && trim_seq(
            tail[i],
        ) == tail[i] && tail[i].len() > 0 by {
            assert(tail[i] == ps[i + 1]);
        }
        handed_over_paths_arrive_unchanged(tail);
        lemma_filter_all(tail);
        assert(no_newline(ps[0]));
        lemma_lines_of_framed_line(p, framed(tail));
        lemma_trimmed_keeps_its_end(p);
        assert(framed(ps) == p + seq!['\n'] + framed(tail));
        let rest_lines = lines_of(framed(tail));
        let lines = seq![p] + rest_lines;
        assert(lines_of(framed(ps)) == lines);
        let f = |l: Seq<char>| trim_seq(l);
        let nb = |l: Seq<char>| l.len() > 0;
        assert(lines.map_values(f) == seq![p] + rest_lines.map_values(f));
        broadcast use Seq::filter_distributes_over_add;
        assert((seq![p] + rest_lines.map_values(f)).filter(nb) == seq![p].filter(nb)
            + rest_lines.map_values(f).filter(nb));
        reveal_with_fuel(Seq::filter, 2);
        assert(seq![p].drop_last() == Seq::<Seq<char>>::empty());
        assert(seq![p].filter(nb) == seq![p]);
        assert(received_spec(framed(tail)) == tail);
        assert(seq![p] + tail == ps);
    }
}

/// A filter that keeps everything changes nothing.
proof fn lemma_filter_all(ps: Seq<Seq<char>>)
    requires
        forall|i: int| 0 <= i < ps.len() ==> no_newline(#[trigger] ps[i]),
    ensures
        ps.filter(|p: Seq<char>| no_newline(p)) == ps,
    decreases ps.len(),
{
    reveal_with_fuel(Seq::filter, 1);
    if ps.len() > 0 {
        let t = ps.drop_last();
        assert forall|i: int| 0 <= i < t.len() implies no_newline(#[trigger] t[i]) by {
            assert(t[i] == ps[i]);
        }
        lemma_filter_all(t);
        assert(no_newline(ps[ps.len() - 1]));
        assert(t.push(ps.last()) == ps);
    }
}

} // verus!
