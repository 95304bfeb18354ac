//! Reading bytes into text the editor can hold, and writing it back.
//!
//! Decoding detects the encoding (a byte-order mark, then well-formed UTF-8,
//! then a statistical guess), normalises every line ending to `\n`, and
//! measures what the editor needs to protect itself: the dominant line ending,
//! the longest line in characters, and the size. Encoding restores the line
//! ending and the byte-order mark.

use vstd::prelude::*;
use vstd::utf8::{valid_utf8, decode_utf8, encode_utf8};
use crate::codec::{
    chardet_guess, convertible_len, decode_labelled, decoded_spec, encode_labelled,
    encoded_spec, encoding_for_label, guess_encoding, is_utf8, label_lookup, starts_with_bom,
};
use crate::numbers::{
    decimal, f64_value, f64_value_of, push_decimal, push_decimal_u128, round_div_even,
    round_div_even_u128,
};
use crate::strings::{chars_of, push_char, push_seq, push_str, str_eq, string_from};

verus! {

/// Longest line, in characters, before the editor drops wrapping and
/// highlighting and says so.
pub const LONG_LINE_CHARS: usize = 5_000;

/// File size, in bytes, before wrapping and highlighting are dropped.
pub const BIG_FILE_BYTES: u64 = 50 * 1024 * 1024;

#[derive(Debug, Clone, Copy, PartialEq, Eq, Structural)]
pub enum LineEnding {
    Lf,
    CrLf,
    Cr,
}

/// The characters a line ending stands for.
pub open spec fn ending_chars(e: LineEnding) -> Seq<char> {
    match e {
        LineEnding::Lf => seq!['\n'],
        LineEnding::CrLf => seq!['\r', '\n'],
        LineEnding::Cr => seq!['\r'],
    }
}

pub open spec fn ending_label(e: LineEnding) -> Seq<char> {
    match e {
        LineEnding::Lf => "LF"@,
        LineEnding::CrLf => "CRLF"@,
        LineEnding::Cr => "CR"@,
    }
}

impl LineEnding {
    /// The name shown in the status bar.
    pub fn label(self) -> (r: &'static str)
        ensures
            r@ == ending_label(self),
    {
        match self {
            LineEnding::Lf => "LF",
            LineEnding::CrLf => "CRLF",
            LineEnding::Cr => "CR",
        }
    }

    /// The characters written for a line break.
    pub fn as_str(self) -> (r: &'static str)
        ensures
            r@ == ending_chars(self),
    {
        proof {
            reveal_strlit("\n");
            reveal_strlit("\r\n");
            reveal_strlit("\r");
        }
        match self {
            LineEnding::Lf => "\n",
            LineEnding::CrLf => "\r\n",
            LineEnding::Cr => "\r",
        }
    }
}

/// Why the editor put a document into reduced-capability mode.
#[derive(Debug, Clone, Copy, PartialEq, Eq, Structural)]
pub enum LargeFileReason {
    /// At least one line is long enough to make layout pathological.
    LongLines { longest: usize },
    /// The file as a whole is big enough that highlighting it is not worth it.
    BigFile { bytes: u64 },
}

/// What the banner says when a document opens in reduced-capability mode.
/// A large file's size is in megabytes, rounded as `{:.0}` rounds the `f64`
/// quotient.
pub open spec fn message_spec(reason: LargeFileReason) -> Seq<char> {
    match reason {
        LargeFileReason::LongLines { longest } => "Lines up to "@ + decimal(longest as nat)
            + " characters — moving the cursor in this file will stutter. Highlighting and wrapping are off to help."@,
        LargeFileReason::BigFile { bytes } => "Large file ("@ + decimal(
            round_div_even(f64_value(bytes as nat), 1048576),
        ) + " MB) — highlighting and wrapping are off"@,
    }
}

impl LargeFileReason {
    /// What the banner says about the reason. It does not promise that the
    /// problem is solved: moving the cursor will still stutter.
    pub fn message(self) -> (r: String)
        ensures
            r@ == message_spec(self),
    {
        let mut out = String::new();
        match self {
            LargeFileReason::LongLines { longest } => {
                push_str(&mut out, "Lines up to ");
                push_decimal(&mut out, longest as u64);
                push_str(
                    &mut out,
                    " characters — moving the cursor in this file will stutter. Highlighting and wrapping are off to help.",
                );
            },
            LargeFileReason::BigFile { bytes } => {
                let mb = round_div_even_u128(f64_value_of(bytes), 1048576);
                push_str(&mut out, "Large file (");
                push_decimal_u128(&mut out, mb);
                push_str(&mut out, " MB) — highlighting and wrapping are off");
            },
        }
        out
    }

    /// A short name for the reason, for the status bar.
    pub fn short(self) -> (r: &'static str)
        ensures
            r@ == (match self {
                LargeFileReason::LongLines { .. } => "long lines"@,
                LargeFileReason::BigFile { .. } => "large file"@,
            }),
    {
        match self {
            LargeFileReason::LongLines { .. } => "long lines",
            LargeFileReason::BigFile { .. } => "large file",
        }
    }
}

pub open spec fn is_break(c: char) -> bool {
    c == '\r' || c == '\n'
}

/// Characters since the last line break: the length of the line in progress.
pub open spec fn tail_run(s: Seq<char>) -> nat
    decreases s.len(),
{
    if s.len() == 0 {
        0
    } else if is_break(s.last()) {
        0
    } else {
        tail_run(s.drop_last()) + 1
    }
}

/// The longest line, in characters. A CR, an LF and a CRLF pair each end a
/// line.
pub open spec fn longest_line_of(s: Seq<char>) -> nat
    decreases s.len(),
{
    if s.len() == 0 {
        0
    } else {
        let before = longest_line_of(s.drop_last());
        let here = tail_run(s);
        if before >= here { before } else { here }
    }
}

/// Line feeds that are not the second half of a CRLF pair.
pub open spec fn count_lf(s: Seq<char>) -> nat
    decreases s.len(),
{
    if s.len() == 0 {
        0
    } else {
        count_lf(s.drop_last()) + if s.last() == '\n' && !(s.len() >= 2 && s[s.len() - 2]
            == '\r') {
            1nat
        } else {
            0nat
        }
    }
}

/// CRLF pairs.
pub open spec fn count_crlf(s: Seq<char>) -> nat
    decreases s.len(),
{
    if s.len() == 0 {
        0
    } else {
        count_crlf(s.drop_last()) + if s.last() == '\n' && s.len() >= 2 && s[s.len() - 2]
            == '\r' {
            1nat
        } else {
            0nat
        }
    }
}

/// Carriage returns, paired or not.
pub open spec fn count_cr_all(s: Seq<char>) -> nat
    decreases s.len(),
{
    if s.len() == 0 {
        0
    } else {
        count_cr_all(s.drop_last()) + if s.last() == '\r' {
            1nat
        } else {
            0nat
        }
    }
}

/// Carriage returns that are not followed by a line feed.
pub open spec fn count_cr(s: Seq<char>) -> int {
    count_cr_all(s) - count_crlf(s)
}

/// The dominant line ending. Ties go to LF, and so does text with no breaks.
pub open spec fn ending_of(s: Seq<char>) -> LineEnding {
    let lf = count_lf(s) as int;
    let crlf = count_crlf(s) as int;
    let cr = count_cr(s);
    if crlf > lf && crlf >= cr {
        LineEnding::CrLf
    } else if cr > lf && cr > crlf {
        LineEnding::Cr
    } else {
        LineEnding::Lf
    }
}

/// The text with every CRLF, CR and LF written as a single LF.
pub open spec fn normalise_seq(s: Seq<char>) -> Seq<char>
    decreases s.len(),
{
    if s.len() == 0 {
        s
    } else if s[0] == '\r' {
        if s.len() >= 2 && s[1] == '\n' {
            seq!['\n'] + normalise_seq(s.skip(2))
        } else {
            seq!['\n'] + normalise_seq(s.drop_first())
        }
    } else {
        seq![s[0]] + normalise_seq(s.drop_first())
    }
}

/// The text with each LF written as the given line ending.
pub open spec fn expand_seq(s: Seq<char>, e: LineEnding) -> Seq<char>
    decreases s.len(),
{
    if s.len() == 0 {
        s
    } else if s[0] == '\n' {
        ending_chars(e) + expand_seq(s.drop_first(), e)
    } else {
        seq![s[0]] + expand_seq(s.drop_first(), e)
    }
}

proof fn lemma_tail_run_le(s: Seq<char>)
    ensures
        tail_run(s) <= s.len(),
        longest_line_of(s) <= s.len(),
    decreases s.len(),
{
    if s.len() > 0 {
        lemma_tail_run_le(s.drop_last());
    }
}

proof fn lemma_counts_le(s: Seq<char>)
    ensures
        count_lf(s) <= s.len(),
        count_crlf(s) <= count_cr_all(s),
        count_cr_all(s) <= s.len(),
        s.len() > 0 && s.last() == '\r' ==> count_cr_all(s) >= count_crlf(s) + 1,
    decreases s.len(),
{
    if s.len() > 0 {
        let t = s.drop_last();
        lemma_counts_le(t);
        if s.last() == '\n' && s.len() >= 2 && s[s.len() - 2] == '\r' {
            assert(t.last() == '\r');
        }
    }
}

/// The dominant line ending and the longest line, in one pass.
fn scan(text: &[char]) -> (r: (LineEnding, usize))
    ensures
        r.0 == ending_of(text@),
        r.1 == longest_line_of(text@),
{
    let (mut lf, mut crlf, mut cr) = (0usize, 0usize, 0usize);
    let mut longest = 0usize;
    let mut current = 0usize;
    let mut prev_was_cr = false;
    let n = text.len();
    let mut i: usize = 0;
    while i < n
        invariant
            n == text@.len(),
            i <= n,
            lf == count_lf(text@.take(i as int)),
            crlf == count_crlf(text@.take(i as int)),
            cr == count_cr(text@.take(i as int)),
            current == tail_run(text@.take(i as int)),
            longest <= longest_line_of(text@.take(i as int)),
            (if longest >= current { longest } else { current }) == longest_line_of(
                text@.take(i as int),
            ),
            prev_was_cr == (i > 0 && text@[i - 1] == '\r'),
            prev_was_cr ==> cr >= 1,
        decreases n - i,
    {
        let ch = text[i];
        let ghost p = text@.take(i as int);
        let ghost q = text@.take(i + 1);
        proof {
            assert(q.drop_last() == p);
            assert(q.last() == ch);
            if i > 0 {
                assert(q[q.len() - 2] == text@[i - 1]);
            }
            lemma_counts_le(q);
            lemma_tail_run_le(q);
        }
        if ch == '\n' {
            if prev_was_cr {
                crlf += 1;
                cr -= 1;
            } else {
                lf += 1;
            }
            longest = if longest >= current { longest } else { current };
            current = 0;
            prev_was_cr = false;
        } else if ch == '\r' {
            cr += 1;
            longest = if longest >= current { longest } else { current };
            current = 0;
            prev_was_cr = true;
        } else {
            current += 1;
            prev_was_cr = false;
        }
        i += 1;
    }
    longest = if longest >= current { longest } else { current };
    assert(text@.take(n as int) == text@);
    let ending = if crlf > lf && crlf >= cr {
        LineEnding::CrLf
    } else if cr > lf && cr > crlf {
        LineEnding::Cr
    } else {
        LineEnding::Lf
    };
    (ending, longest)
}

proof fn lemma_normalise_step(s: Seq<char>, i: int)
    requires
        0 <= i < s.len(),
    ensures
        normalise_seq(s.skip(i)) == if s[i] == '\r' {
            if i + 1 < s.len() && s[i + 1] == '\n' {
                seq!['\n'] + normalise_seq(s.skip(i + 2))
            } else {
                seq!['\n'] + normalise_seq(s.skip(i + 1))
            }
        } else {
            seq![s[i]] + normalise_seq(s.skip(i + 1))
        },
{
    let t = s.skip(i);
    assert(t[0] == s[i]);
    assert(t.drop_first() == s.skip(i + 1));
    if t.len() >= 2 {
        assert(t[1] == s[i + 1]);
        assert(t.skip(2) == s.skip(i + 2));
    }
}

/// Text without a carriage return is already normalised.
proof fn lemma_normalise_no_cr(s: Seq<char>)
    requires
        !s.contains('\r'),
    ensures
        normalise_seq(s) == s,
    decreases s.len(),
{
    if s.len() > 0 {
        assert(s[0] != '\r');
        assert(!s.drop_first().contains('\r')) by {
            if s.drop_first().contains('\r') {
                let k = choose|k: int| 0 <= k < s.drop_first().len() && s.drop_first()[k] == '\r';
                assert(s[k + 1] == '\r');
            }
        }
        lemma_normalise_no_cr(s.drop_first());
        assert(seq![s[0]] + s.drop_first() == s);
    }
}

/// Any mixture of line endings, written as `\n`.
fn normalise(text: &[char]) -> (r: String)
    ensures
        r@ == normalise_seq(text@),
{
    let n = text.len();
    let mut has_cr = false;
    let mut k: usize = 0;
    while k < n
        invariant
            n == text@.len(),
            k <= n,
            !has_cr ==> forall|j: int| 0 <= j < k ==> text@[j] != '\r',
        decreases n - k,
    {
        if text[k] == '\r' {
            has_cr = true;
        }
        k += 1;
    }
    if !has_cr {
        proof {
            lemma_normalise_no_cr(text@);
        }
        return string_from(text);
    }
    let mut out = String::new();
    let mut i: usize = 0;
    assert(text@.skip(0) == text@);
    while i < n
        invariant
            n == text@.len(),
            i <= n,
            out@ + normalise_seq(text@.skip(i as int)) == normalise_seq(text@),
        decreases n - i,
    {
        let c = text[i];
        proof {
            lemma_normalise_step(text@, i as int);
        }
        if c == '\r' {
            if i + 1 < n && text[i + 1] == '\n' {
                push_char(&mut out, '\n');
                proof {
                    assert(out@ + normalise_seq(text@.skip(i + 2)) == normalise_seq(text@));
                }
                i += 2;
            } else {
                push_char(&mut out, '\n');
                proof {
                    assert(out@ + normalise_seq(text@.skip(i + 1)) == normalise_seq(text@));
                }
                i += 1;
            }
        } else {
            push_char(&mut out, c);
            proof {
                assert(out@ + normalise_seq(text@.skip(i + 1)) == normalise_seq(text@));
            }
            i += 1;
        }
    }
    proof {
        assert(text@.skip(n as int).len() == 0);
        assert(out@ + seq![] == out@);
    }
    out
}

#[derive(Debug, Clone)]
pub struct LoadedText {
    /// Contents with line endings normalised to `\n`. The original ending is
    /// remembered separately and restored on save.
    pub text: String,
    pub encoding: &'static str,
    pub had_bom: bool,
    pub line_ending: LineEnding,
    pub longest_line: usize,
    pub byte_len: u64,
    /// Set when the document must open with reduced capabilities.
    pub large_file: Option<LargeFileReason>,
    /// True when the bytes could not be decoded cleanly and replacement
    /// characters were substituted.
    pub had_errors: bool,
}

/// What a `LoadedText` holds, as mathematical values.
pub struct LoadedTextModel {
    pub text: Seq<char>,
    pub encoding: Seq<char>,
    pub had_bom: bool,
    pub line_ending: LineEnding,
    pub longest_line: nat,
    pub byte_len: nat,
    pub large_file: Option<LargeFileReason>,
    pub had_errors: bool,
}

impl View for LoadedText {
    type V = LoadedTextModel;

    open spec fn view(&self) -> LoadedTextModel {
        LoadedTextModel {
            text: self.text@,
            encoding: self.encoding@,
            had_bom: self.had_bom,
            line_ending: self.line_ending,
            longest_line: self.longest_line as nat,
            byte_len: self.byte_len as nat,
            large_file: self.large_file,
            had_errors: self.had_errors,
        }
    }
}

/// The encoding a byte-order mark announces, and the mark's length.
pub open spec fn bom_sniff(b: Seq<u8>) -> Option<(Seq<char>, nat)> {
    if b.len() >= 3 && b[0] == 0xEF && b[1] == 0xBB && b[2] == 0xBF {
        Some(("UTF-8"@, 3))
    } else if b.len() >= 2 && b[0] == 0xFF && b[1] == 0xFE {
        Some(("UTF-16LE"@, 2))
    } else if b.len() >= 2 && b[0] == 0xFE && b[1] == 0xFF {
        Some(("UTF-16BE"@, 2))
    } else {
        None
    }
}

/// The encoding used to read a file, whether it had a byte-order mark, and the
/// mark's length: a mark decides; otherwise well-formed UTF-8 is UTF-8;
/// otherwise the detector's guess.
pub open spec fn detect_spec(b: Seq<u8>) -> (Seq<char>, bool, nat) {
    match bom_sniff(b) {
        Some((name, len)) => (name, true, len),
        None => if valid_utf8(b) {
            ("UTF-8"@, false, 0)
        } else {
            (chardet_guess(b), false, 0)
        },
    }
}

/// Whether a document opens in reduced mode, and why. Line length is checked
/// first.
pub open spec fn large_file_reason(longest: nat, byte_len: nat, limit: nat) -> Option<
    LargeFileReason,
> {
    if longest > limit {
        Some(LargeFileReason::LongLines { longest: longest as usize })
    } else if byte_len > BIG_FILE_BYTES {
        Some(LargeFileReason::BigFile { bytes: byte_len as u64 })
    } else {
        None
    }
}

/// Everything `decode_with_limit` learns from a file's bytes.
pub open spec fn decode_result(b: Seq<u8>, limit: nat) -> LoadedTextModel {
    let (name, had_bom, bom_len) = detect_spec(b);
    let (decoded, had_errors) = decoded_spec(name, b.skip(bom_len as int));
    LoadedTextModel {
        text: normalise_seq(decoded),
        encoding: name,
        had_bom,
        line_ending: ending_of(decoded),
        longest_line: longest_line_of(decoded),
        byte_len: b.len(),
        large_file: large_file_reason(longest_line_of(decoded), b.len(), limit),
        had_errors,
    }
}

/// Inspect a byte-order mark. Returns the encoding's name and the mark's length.
fn sniff_bom(bytes: &[u8]) -> (r: Option<(&'static str, usize)>)
    ensures
        match r {
            Some((n, l)) => bom_sniff(bytes@) == Some((n@, l as nat)),
            None => bom_sniff(bytes@) is None,
        },
{
    let n = bytes.len();
    if n >= 3 && bytes[0] == 0xEF && bytes[1] == 0xBB && bytes[2] == 0xBF {
        Some(("UTF-8", 3))
    } else if n >= 2 && bytes[0] == 0xFF && bytes[1] == 0xFE {
        Some(("UTF-16LE", 2))
    } else if n >= 2 && bytes[0] == 0xFE && bytes[1] == 0xFF {
        Some(("UTF-16BE", 2))
    } else {
        None
    }
}

fn detect_encoding(bytes: &[u8]) -> (r: (&'static str, bool, usize))
    ensures
        (r.0@, r.1, r.2 as nat) == detect_spec(bytes@),
        label_lookup(r.0@) == Some(r.0@),
        r.2 <= bytes@.len(),
{
    if let Some((enc, len)) = sniff_bom(bytes) {
        return (enc, true, len);
    }
    // Valid UTF-8 is taken as UTF-8 without consulting the detector: a
    // statistical guess can mistake short UTF-8 text for a legacy encoding.
    if is_utf8(bytes) {
        return ("UTF-8", false, 0);
    }
    (guess_encoding(bytes), false, 0)
}

/// Decode a file's bytes with the built-in long-line limit.
pub fn decode(bytes: &[u8]) -> (r: LoadedText)
    requires
        convertible_len(bytes@.len()),
    ensures
        r@ == decode_result(bytes@, LONG_LINE_CHARS as nat),
{
    decode_with_limit(bytes, LONG_LINE_CHARS)
}

/// Decode with an explicit long-line limit, so the user's configured value is
/// what decides.
pub fn decode_with_limit(bytes: &[u8], long_line_chars: usize) -> (r: LoadedText)
    requires
        convertible_len(bytes@.len()),
    ensures
        r@ == decode_result(bytes@, long_line_chars as nat),
{
    let byte_len = bytes.len() as u64;
    let (encoding, had_bom, bom_len) = detect_encoding(bytes);
    let start = if bom_len < bytes.len() { bom_len } else { bytes.len() };
    let body = &bytes[start..bytes.len()];
    assert(body@ == bytes@.skip(bom_len as int));
    let (decoded, had_errors) = decode_labelled(encoding, body);
    let chars = chars_of(decoded.as_str());
    let (line_ending, longest_line) = scan(chars.as_slice());
    let text = normalise(chars.as_slice());

    let large_file = if longest_line > long_line_chars {
        Some(LargeFileReason::LongLines { longest: longest_line })
    } else if byte_len > BIG_FILE_BYTES {
        Some(LargeFileReason::BigFile { bytes: byte_len })
    } else {
        None
    };

    LoadedText {
        text,
        encoding,
        had_bom,
        line_ending,
        longest_line,
        byte_len,
        large_file,
        had_errors,
    }
}

/// The byte-order mark written for an encoding, when one is wanted.
pub open spec fn bom_bytes(name: Seq<char>, bom: bool) -> Seq<u8> {
    if !bom {
        seq![]
    } else if name == "UTF-8"@ {
        seq![0xEFu8, 0xBBu8, 0xBFu8]
    } else if name == "UTF-16LE"@ {
        seq![0xFFu8, 0xFEu8]
    } else if name == "UTF-16BE"@ {
        seq![0xFEu8, 0xFFu8]
    } else {
        seq![]
    }
}

/// The bytes saved for editor text: line endings restored, encoded in the
/// encoding the name labels (UTF-8 when it labels none), behind the encoding's
/// byte-order mark when one is wanted.
pub open spec fn encode_result(text: Seq<char>, e: LineEnding, name: Seq<char>, bom: bool) -> Seq<
    u8,
> {
    let body = expand_seq(text, e);
    match label_lookup(name) {
        Some(n) => bom_bytes(n, bom) + encoded_spec(name, body),
        None => bom_bytes("UTF-8"@, bom) + encode_utf8(body),
    }
}

proof fn lemma_expand_step(s: Seq<char>, i: int, e: LineEnding)
    requires
        0 <= i < s.len(),
    ensures
        expand_seq(s.skip(i), e) == if s[i] == '\n' {
            ending_chars(e) + expand_seq(s.skip(i + 1), e)
        } else {
            seq![s[i]] + expand_seq(s.skip(i + 1), e)
        },
{
    let t = s.skip(i);
    assert(t[0] == s[i]);
    assert(t.drop_first() == s.skip(i + 1));
}

proof fn lemma_expand_len(s: Seq<char>, e: LineEnding)
    ensures
        expand_seq(s, e).len() <= 2 * s.len(),
    decreases s.len(),
{
    if s.len() > 0 {
        lemma_expand_len(s.drop_first(), e);
    }
}

/// Text with each `\n` written as the given line ending.
fn expand(text: &[char], e: LineEnding) -> (r: String)
    ensures
        r@ == expand_seq(text@, e),
{
    let ending = chars_of(e.as_str());
    let n = text.len();
    let mut out = String::new();
    let mut i: usize = 0;
    assert(text@.skip(0) == text@);
    while i < n
        invariant
            n == text@.len(),
            i <= n,
            ending@ == ending_chars(e),
            out@ + expand_seq(text@.skip(i as int), e) == expand_seq(text@, e),
        decreases n - i,
    {
        proof {
            lemma_expand_step(text@, i as int, e);
        }
        let c = text[i];
        if c == '\n' {
            push_seq(&mut out, ending.as_slice());
            assert(out@ + expand_seq(text@.skip(i + 1), e) == expand_seq(text@, e));
        } else {
            push_char(&mut out, c);
            assert(out@ + expand_seq(text@.skip(i + 1), e) == expand_seq(text@, e));
        }
        i += 1;
    }
    assert(out@ + seq![] == out@);
    out
}

/// Whether editor contents are short enough for `encode`.
pub fn encodable(text: &str) -> (r: bool)
    ensures
        r == convertible_len(2 * text@.len()),
{
    let n = text.unicode_len();
    n <= usize::MAX / 32
}

/// Turn editor contents back into bytes for saving, restoring the document's
/// original line ending and byte-order mark.
pub fn encode(text: &str, line_ending: LineEnding, encoding_name: &str, bom: bool) -> (r: Vec<u8>)
    requires
        convertible_len(2 * text@.len()),
    ensures
        r@ == encode_result(text@, line_ending, encoding_name@, bom),
{
    let chars = chars_of(text);
    let bodied = expand(chars.as_slice(), line_ending);
    proof {
        lemma_expand_len(text@, line_ending);
    }
    let (label, name) = match encoding_for_label(encoding_name) {
        Some(n) => (encoding_name, n),
        None => ("UTF-8", "UTF-8"),
    };
    let bytes = encode_labelled(label, bodied.as_str());

    let mut out: Vec<u8> = Vec::new();
    if bom {
        if str_eq(name, "UTF-8") {
            out.push(0xEF);
            out.push(0xBB);
            out.push(0xBF);
        } else if str_eq(name, "UTF-16LE") {
            out.push(0xFF);
            out.push(0xFE);
        } else if str_eq(name, "UTF-16BE") {
            out.push(0xFE);
            out.push(0xFF);
        }
    }
    let ghost prefix = out@;
    assert(prefix == bom_bytes(name@, bom));
    let m = bytes.len();
    let mut i: usize = 0;
    while i < m
        invariant
            m == bytes@.len(),
            i <= m,
            out@ == prefix + bytes@.take(i as int),
        decreases m - i,
    {
        out.push(bytes[i]);
        assert(bytes@.take(i + 1) == bytes@.take(i as int).push(bytes@[i as int]));
        i += 1;
    }
    assert(bytes@.take(m as int) == bytes@);
    out
}

/// Whether every line break in the text is written as the given ending.
pub open spec fn uniform_endings(s: Seq<char>, e: LineEnding) -> bool {
    match e {
        LineEnding::Lf => forall|i: int| 0 <= i < s.len() ==> s[i] != '\r',
        LineEnding::Cr => forall|i: int| 0 <= i < s.len() ==> s[i] != '\n',
        LineEnding::CrLf => forall|i: int|
            0 <= i < s.len() ==> (#[trigger] s[i] == '\r' ==> i + 1 < s.len() && s[i + 1] == '\n')
                && (s[i] == '\n' ==> i > 0 && s[i - 1] == '\r'),
    }
}

pub open spec fn has_break(s: Seq<char>) -> bool {
    exists|i: int| 0 <= i < s.len() && is_break(s[i])
}

/// Normalised text has no carriage returns: every line break is a single
/// `\n`, which is what the text buffer stores.
pub proof fn normalised_text_has_no_carriage_return(s: Seq<char>)
    ensures
        !normalise_seq(s).contains('\r'),
    decreases s.len(),
{
    if s.len() > 0 {
        let rest = if s[0] == '\r' && s.len() >= 2 && s[1] == '\n' {
            s.skip(2)
        } else {
            s.drop_first()
        };
        normalised_text_has_no_carriage_return(rest);
        let head = if s[0] == '\r' { '\n' } else { s[0] };
        assert(normalise_seq(s) == seq![head] + normalise_seq(rest));
        if normalise_seq(s).contains('\r') {
            let k = choose|k: int| 0 <= k < normalise_seq(s).len() && normalise_seq(s)[k] == '\r';
            if k > 0 {
                assert(normalise_seq(rest)[k - 1] == '\r');
            }
        }
    }
}

/// Writing normalised text back with the ending a file used throughout gives
/// the file's text again: line endings are preserved.
pub proof fn line_endings_survive_normalising(s: Seq<char>, e: LineEnding)
    requires
        uniform_endings(s, e),
    ensures
        expand_seq(normalise_seq(s), e) == s,
    decreases s.len(),
{
    if s.len() > 0 {
        if s[0] == '\r' && s.len() >= 2 && s[1] == '\n' {
            let rest = s.skip(2);
            assert(e == LineEnding::CrLf);
            assert(uniform_endings(rest, e)) by {
                assert forall|i: int| #![trigger rest[i]] 0 <= i < rest.len() implies (rest[i] == '\r' ==> i + 1
                    < rest.len() && rest[i + 1] == '\n') && (rest[i] == '\n' ==> i > 0 && rest[i
                    - 1] == '\r') by {
                    assert(rest[i] == s[i + 2]);
                    if i + 1 < rest.len() {
                        assert(rest[i + 1] == s[i + 3]);
                    }
                    if i > 0 {
                        assert(rest[i - 1] == s[i + 1]);
                    } else {
                        assert(s[1] == '\n');
                    }
                }
            }
            line_endings_survive_normalising(rest, e);
            let n = normalise_seq(rest);
            assert(normalise_seq(s) == seq!['\n'] + n);
            let t = seq!['\n'] + n;
            assert(t[0] == '\n');
            assert(t.drop_first() == n);
            assert(expand_seq(t, e) == ending_chars(e) + expand_seq(n, e));
            assert(seq!['\r', '\n'] + rest == s);
        } else {
            let rest = s.drop_first();
            assert(uniform_endings(rest, e)) by {
                assert forall|i: int| #![trigger rest[i]] 0 <= i < rest.len() implies (match e {
                    LineEnding::Lf => rest[i] != '\r',
                    LineEnding::Cr => rest[i] != '\n',
                    LineEnding::CrLf => (rest[i] == '\r' ==> i + 1 < rest.len() && rest[i + 1]
                        == '\n') && (rest[i] == '\n' ==> i > 0 && rest[i - 1] == '\r'),
                }) by {
                    assert(rest[i] == s[i + 1]);
                    if i + 1 < rest.len() {
                        assert(rest[i + 1] == s[i + 2]);
                    }
                    if i > 0 {
                        assert(rest[i - 1] == s[i]);
                    }
                    if e == LineEnding::CrLf && i == 0 && rest[0] == '\n' {
                        assert(s[1] == '\n');
                        assert(s[0] == '\r');
                    }
                }
            }
            line_endings_survive_normalising(rest, e);
            let n = normalise_seq(rest);
            let head = if s[0] == '\r' { '\n' } else { s[0] };
            assert(normalise_seq(s) == seq![head] + n);
            let t = seq![head] + n;
            assert(t[0] == head);
            assert(t.drop_first() == n);
            if s[0] == '\r' {
                assert(e == LineEnding::Cr || e == LineEnding::CrLf);
                if e == LineEnding::CrLf {
                    assert(s[1] == '\n');
                }
                assert(e == LineEnding::Cr);
                assert(expand_seq(t, e) == ending_chars(e) + expand_seq(n, e));
            } else if s[0] == '\n' {
                assert(e == LineEnding::Lf);
                assert(expand_seq(t, e) == ending_chars(e) + expand_seq(n, e));
            } else {
                assert(expand_seq(t, e) == seq![s[0]] + expand_seq(n, e));
            }
            assert(seq![s[0]] + rest == s);
        }
    }
}

/// Text without line breaks is left as it is by normalising and by writing
/// endings back.
proof fn lemma_no_break(s: Seq<char>, e: LineEnding)
    requires
        !has_break(s),
    ensures
        normalise_seq(s) == s,
        expand_seq(s, e) == s,
        ending_of(s) == LineEnding::Lf,
    decreases s.len(),
{
    if s.len() > 0 {
        let rest = s.drop_first();
        assert(!has_break(rest)) by {
            if has_break(rest) {
                let k = choose|k: int| 0 <= k < rest.len() && is_break(rest[k]);
                assert(is_break(s[k + 1]));
            }
        }
        assert(!has_break(s.drop_last())) by {
            if has_break(s.drop_last()) {
                let k = choose|k: int| 0 <= k < s.drop_last().len() && is_break(s.drop_last()[k]);
                assert(is_break(s[k]));
            }
        }
        assert(!is_break(s[0]));
        assert(!is_break(s.last()));
        lemma_no_break(rest, e);
        lemma_no_break(s.drop_last(), e);
        assert(seq![s[0]] + rest == s);
    }
}

/// Every `\n` follows a `\r`, and every `\r` that is not last is followed by
/// `\n`: the prefixes of text written with CRLF throughout.
spec fn crlf_prefix(p: Seq<char>) -> bool {
    forall|i: int|
        0 <= i < p.len() ==> (#[trigger] p[i] == '\r' ==> i + 1 == p.len() || p[i + 1] == '\n')
            && (p[i] == '\n' ==> i > 0 && p[i - 1] == '\r')
}

proof fn lemma_crlf_counts(p: Seq<char>)
    requires
        crlf_prefix(p),
    ensures
        count_lf(p) == 0,
        count_cr_all(p) == count_crlf(p) + if p.len() > 0 && p.last() == '\r' {
            1nat
        } else {
            0nat
        },
        p.contains('\n') ==> count_crlf(p) >= 1,
    decreases p.len(),
{
    if p.len() > 0 {
        let q = p.drop_last();
        assert(crlf_prefix(q)) by {
            assert forall|i: int| #![trigger q[i]] 0 <= i < q.len() implies (q[i] == '\r' ==> i + 1
                == q.len() || q[i + 1] == '\n') && (q[i] == '\n' ==> i > 0 && q[i - 1] == '\r') by {
                assert(q[i] == p[i]);
                if i + 1 < q.len() {
                    assert(q[i + 1] == p[i + 1]);
                }
                if i > 0 {
                    assert(q[i - 1] == p[i - 1]);
                }
            }
        }
        lemma_crlf_counts(q);
        let last = p[p.len() - 1];
        if last == '\n' {
            assert(p[p.len() - 2] == '\r');
            assert(q.last() == '\r');
        }
        if q.len() > 0 && q.last() == '\r' {
            assert(p[q.len() - 1] == '\r');
            assert(last == '\n');
        }
        if p.contains('\n') && last != '\n' {
            let k = choose|k: int| 0 <= k < p.len() && p[k] == '\n';
            assert(q[k] == '\n');
        }
    }
}

proof fn lemma_lf_counts(p: Seq<char>)
    requires
        forall|i: int| 0 <= i < p.len() ==> p[i] != '\r',
    ensures
        count_crlf(p) == 0,
        count_cr_all(p) == 0,
        p.contains('\n') ==> count_lf(p) >= 1,
    decreases p.len(),
{
    if p.len() > 0 {
        let q = p.drop_last();
        assert forall|i: int| 0 <= i < q.len() implies q[i] != '\r' by {
            assert(q[i] == p[i]);
        }
        lemma_lf_counts(q);
        if p.len() >= 2 {
            assert(p[p.len() - 2] != '\r');
        }
        assert(p.last() != '\r');
        if p.contains('\n') && p.last() != '\n' {
            let k = choose|k: int| 0 <= k < p.len() && p[k] == '\n';
            assert(q[k] == '\n');
        }
    }
}

proof fn lemma_cr_counts(p: Seq<char>)
    requires
        forall|i: int| 0 <= i < p.len() ==> p[i] != '\n',
    ensures
        count_crlf(p) == 0,
        count_lf(p) == 0,
        p.contains('\r') ==> count_cr_all(p) >= 1,
    decreases p.len(),
{
    if p.len() > 0 {
        let q = p.drop_last();
        assert forall|i: int| 0 <= i < q.len() implies q[i] != '\n' by {
            assert(q[i] == p[i]);
        }
        lemma_cr_counts(q);
        assert(p.last() != '\n');
        if p.contains('\r') && p.last() != '\r' {
            let k = choose|k: int| 0 <= k < p.len() && p[k] == '\r';
            assert(q[k] == '\r');
        }
    }
}

/// Text that has line breaks, all written the same way, is reported with that
/// ending.
pub proof fn uniform_text_reports_its_ending(s: Seq<char>, e: LineEnding)
    requires
        uniform_endings(s, e),
        has_break(s),
    ensures
        ending_of(s) == e,
{
    let k = choose|k: int| 0 <= k < s.len() && is_break(s[k]);
    match e {
        LineEnding::Lf => {
            assert(s[k] == '\n');
            assert(s.contains('\n'));
            lemma_lf_counts(s);
        },
        LineEnding::Cr => {
            assert(s[k] == '\r');
            assert(s.contains('\r'));
            lemma_cr_counts(s);
        },
        LineEnding::CrLf => {
            assert(crlf_prefix(s));
            let j = if s[k] == '\n' { k } else { k + 1 };
            assert(s[j] == '\n');
            assert(s.contains('\n'));
            assert(s.last() != '\r');
            lemma_crlf_counts(s);
        },
    }
}

/// Bytes that are well-formed UTF-8, with or without a UTF-8 byte-order mark,
/// and with no other mark after it.
pub open spec fn plain_utf8_file(b: Seq<u8>) -> bool {
    let body_start: int = if bom_sniff(b) is Some { 3 } else { 0 };
    &&& (bom_sniff(b) is None || bom_sniff(b) == Some(("UTF-8"@, 3nat)))
    &&& valid_utf8(b.skip(body_start))
    &&& !starts_with_bom(b.skip(body_start))
}

/// A UTF-8 file whose lines all end the same way is saved back byte for byte:
/// reading it and writing the text back with what was learned (encoding,
/// byte-order mark, line ending) reproduces the file.
pub proof fn utf8_file_round_trips(b: Seq<u8>, e: LineEnding, limit: nat)
    requires
        plain_utf8_file(b),
        uniform_endings(decode_utf8(b.skip(if bom_sniff(b) is Some { 3int } else { 0int })), e),
    ensures
        ({
            let m = decode_result(b, limit);
            encode_result(m.text, m.line_ending, m.encoding, m.had_bom) == b
        }),
{
    let start: int = if bom_sniff(b) is Some { 3 } else { 0 };
    let body = b.skip(start);
    let d = decode_utf8(body);
    if bom_sniff(b) is None {
        assert(b.skip(0) == b);
    }
    assert(detect_spec(b) == ("UTF-8"@, bom_sniff(b) is Some, start as nat));
    assert(decoded_spec("UTF-8"@, body) == (d, false));
    let m = decode_result(b, limit);
    assert(m.text == normalise_seq(d));
    assert(m.line_ending == ending_of(d));
    if has_break(d) {
        uniform_text_reports_its_ending(d, e);
        line_endings_survive_normalising(d, e);
    } else {
        lemma_no_break(d, e);
        lemma_no_break(d, LineEnding::Lf);
    }
    assert(expand_seq(m.text, m.line_ending) == d);
    vstd::utf8::decode_utf8_encode_utf8(body);
    assert(encode_utf8(d) == body);
    assert(encoded_spec("UTF-8"@, d) == body);
    if bom_sniff(b) is Some {
        assert(bom_bytes("UTF-8"@, true) == b.take(3));
        assert(b.take(3) + b.skip(3) == b);
    } else {
        assert(bom_bytes("UTF-8"@, false) + body == body);
    }
}

/// The reported line ending is the most common one. CRLF is reported only
/// when CRLF pairs outnumber lone LFs (and are at least as many as lone CRs),
/// CR only when lone CRs outnumber both others; otherwise LF, which then
/// occurs at least as often as either of the others.
pub proof fn the_most_common_line_ending_is_reported(s: Seq<char>)
    ensures
        ending_of(s) == LineEnding::CrLf ==> count_crlf(s) > count_lf(s) && count_crlf(s) >= count_cr(s),
        ending_of(s) == LineEnding::Cr ==> count_cr(s) > count_lf(s) && count_cr(s) > count_crlf(s),
        ending_of(s) == LineEnding::Lf ==> count_lf(s) >= count_crlf(s) && count_lf(s) >= count_cr(s),
        count_crlf(s) <= count_lf(s) ==> ending_of(s) != LineEnding::CrLf,
{
}

} // verus!
