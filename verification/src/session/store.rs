//! Per-document crash storage: what is decided about the latest mirror and the
//! version history.
//!
//! Each document has a directory keyed by a content hash of its path (or an
//! opaque key when it has no path), holding a mirror of the latest contents
//! and a history of compressed snapshots named `NNNNNNNN-<hash>.zst`, oldest
//! first. Two rules keep the store from growing without bound: a snapshot is
//! only written when the content actually changed, and history is capped
//! both by count and by total size, oldest first.

use vstd::prelude::*;

use crate::numbers::{
    decimal, f64_value, f64_value_of, parse_unsigned, parse_unsigned_chars, push_decimal,
    push_decimal_u128, push_zero_padded, round_div_even, round_div_even_u128, zero_padded,
};
use crate::paths::{join, path_joined};
use crate::strings::{chars_of, push_char, push_str, string_of};

verus! {

/// What `blake3::hash(..).to_hex()` gives for some bytes.
pub uninterp spec fn blake3_hex_of(bytes: Seq<u8>) -> Seq<char>;

pub open spec fn is_lower_hex(c: char) -> bool {
    ('0' <= c <= '9') || ('a' <= c <= 'f')
}

/// `blake3::hash`, written out by `Hash::to_hex`: 64 lower-case hexadecimal
/// digits, two for each byte of the 32-byte hash.
#[verifier::external_body]
fn blake3_hex(bytes: &[u8]) -> (r: String)
    ensures
        r@ == blake3_hex_of(bytes@),
        r@.len() == 64,
        forall|i: int| 0 <= i < 64 ==> is_lower_hex(#[trigger] r@[i]),
{
    blake3::hash(bytes).to_hex().to_string()
}

/// A content hash: the first 32 hexadecimal digits of the BLAKE3 hash. This is
/// deduplication, not security, and 128 bits never collide in one user's
/// edit history.
pub open spec fn hash_spec(bytes: Seq<u8>) -> Seq<char> {
    blake3_hex_of(bytes).take(32)
}

pub fn hash_of(bytes: &[u8]) -> (r: String)
    ensures
        r@ == hash_spec(bytes@),
        r@.len() == 32,
        forall|i: int| 0 <= i < 32 ==> is_lower_hex(#[trigger] r@[i]),
{
    let full = blake3_hex(bytes);
    let v = chars_of(full.as_str());
    string_of(v.as_slice(), 0, 32)
}

/// The store key of a file-backed document: stable for a path, so its
/// history survives the file being closed and reopened.
pub open spec fn path_key(path: Seq<char>) -> Seq<char> {
    "f-"@ + hash_spec(vstd::utf8::encode_utf8(path))
}

pub fn key_for_path(path: &str) -> (r: String)
    ensures
        r@ == path_key(path@),
{
    let h = hash_of(path.as_bytes());
    let mut out = String::new();
    push_str(&mut out, "f-");
    push_str(&mut out, h.as_str());
    out
}

/// The store key of an untitled document, from the process id and the time
/// in nanoseconds: enough to never collide within a session.
pub open spec fn untitled_key(pid: nat, nanos: nat) -> Seq<char> {
    "u-"@ + hash_spec(vstd::utf8::encode_utf8(decimal(pid) + seq!['-'] + decimal(nanos)))
}

pub fn untitled_key_from(pid: u32, nanos: u128) -> (r: String)
    ensures
        r@ == untitled_key(pid as nat, nanos as nat),
{
    let mut seed = String::new();
    push_decimal(&mut seed, pid as u64);
    push_char(&mut seed, '-');
    push_decimal_u128(&mut seed, nanos);
    assert(seed@ == decimal(pid as nat) + seq!['-'] + decimal(nanos as nat));
    let h = hash_of(seed.as_str().as_bytes());
    let mut out = String::new();
    push_str(&mut out, "u-");
    push_str(&mut out, h.as_str());
    out
}

/// What the mirror is, and what it came from.
#[derive(Debug, Clone)]
pub struct MirrorMeta {
    /// Hash of the mirror's contents, so an unchanged buffer is not rewritten.
    pub hash: String,
    /// Unix seconds when the mirror was written.
    pub written_at: u64,
    /// The highest history sequence number used so far.
    pub sequence: u64,
}

impl Default for MirrorMeta {
    fn default() -> (r: Self)
        ensures
            r.hash@.len() == 0,
            r.written_at == 0,
            r.sequence == 0,
    {
        MirrorMeta { hash: String::new(), written_at: 0, sequence: 0 }
    }
}

/// Whether the mirror must be written for these contents, given the hash the
/// metadata records and whether a mirror exists: `None` when it already holds
/// them, otherwise the contents' hash. An idle editor writes nothing.
pub fn mirror_update(recorded: &str, contents: &[u8], has_mirror: bool) -> (r: Option<String>)
    ensures
        (recorded@ == hash_spec(contents@) && has_mirror) ==> r is None,
        !(recorded@ == hash_spec(contents@) && has_mirror) ==> r is Some && r->0@ == hash_spec(
            contents@,
        ),
{
    let hash = hash_of(contents);
    if crate::strings::str_eq(recorded, hash.as_str()) && has_mirror {
        None
    } else {
        Some(hash)
    }
}

/// The file name of history snapshot number `sequence` of content `hash`.
pub open spec fn history_name(sequence: nat, hash: Seq<char>) -> Seq<char> {
    zero_padded(sequence, 8) + seq!['-'] + hash + ".zst"@
}

pub fn history_file_name(sequence: u64, hash: &str) -> (r: String)
    ensures
        r@ == history_name(sequence as nat, hash@),
{
    let mut out = String::new();
    push_zero_padded(&mut out, sequence, 8);
    push_char(&mut out, '-');
    push_str(&mut out, hash);
    push_str(&mut out, ".zst");
    out
}

/// `s[k]` is the first `-` in `s`.
pub open spec fn first_dash(s: Seq<char>, k: int) -> bool {
    0 <= k < s.len() && s[k] == '-' && forall|j: int| 0 <= j < k ==> s[j] != '-'
}

/// The sequence number and hash a history file name holds: the name less its
/// `.zst` suffix, split at the first `-` into a decimal number and the rest.
pub open spec fn parse_history_spec(name: Seq<char>) -> Option<(u64, Seq<char>)> {
    let n = name.len();
    if n >= 4 && name.skip(n - 4) == ".zst"@ {
        let stem = name.take(n - 4);
        if exists|k: int| first_dash(stem, k) {
            let k = choose|k: int| first_dash(stem, k);
            match parse_unsigned(stem.take(k), 10, u64::MAX as nat) {
                Some(v) => Some((v as u64, stem.skip(k + 1))),
                None => None,
            }
        } else {
            None
        }
    } else {
        None
    }
}

/// Reads a history file name back; `None` for anything else in the
/// directory.
pub fn parse_history_name(name: &str) -> (r: Option<(u64, String)>)
    ensures
        r is Some <==> parse_history_spec(name@) is Some,
        r matches Some(p) ==> p.0 == (parse_history_spec(name@)->0).0 && p.1@ == (
        parse_history_spec(name@)->0).1,
{
    let v = chars_of(name);
    let n = v.len();
    proof {
        reveal_strlit(".zst");
    }
    if n < 4 || v[n - 4] != '.' || v[n - 3] != 'z' || v[n - 2] != 's' || v[n - 1] != 't' {
        proof {
            if n >= 4 {
                assert(v@.skip(n - 4)[0] == v@[n - 4]);
                assert(v@.skip(n - 4)[1] == v@[n - 3]);
                assert(v@.skip(n - 4)[2] == v@[n - 2]);
                assert(v@.skip(n - 4)[3] == v@[n - 1]);
            }
        }
        return None;
    }
    assert(v@.skip(n - 4) == ".zst"@);
    let stem_len = n - 4;
    let ghost stem = v@.take(stem_len as int);
    let mut k: usize = 0;
    while k < stem_len && v[k] != '-'
        invariant
            n == v@.len(),
            stem_len == n - 4,
            k <= stem_len,
            stem == v@.take(stem_len as int),
            forall|j: int| 0 <= j < k ==> stem[j] != '-',
        decreases stem_len - k,
    {
        k += 1;
    }
    if k == stem_len {
        assert(!exists|d: int| first_dash(stem, d));
        return None;
    }
    assert(first_dash(stem, k as int));
    proof {
        let d = choose|d: int| first_dash(stem, d);
        if d < k {
            assert(stem[d] == '-');
        } else if d > k {
            assert(stem[k as int] == '-');
        }
        assert(d == k);
    }
    let head = string_of(v.as_slice(), 0, k);
    let digits = chars_of(head.as_str());
    assert(digits@ == stem.take(k as int));
    match parse_unsigned_chars(digits.as_slice(), 10, u64::MAX) {
        Some(seq) => {
            let hash = string_of(v.as_slice(), k + 1, stem_len);
            assert(hash@ == stem.skip(k + 1));
            Some((seq, hash))
        },
        None => None,
    }
}

/// The total size of `sizes[i..]`.
pub open spec fn suffix_sum(sizes: Seq<u64>, i: int) -> int
    decreases sizes.len() - i,
{
    if i < 0 || i >= sizes.len() {
        0
    } else {
        sizes[i] + suffix_sum(sizes, i + 1)
    }
}

/// Walking from the newest snapshot back, how many of the oldest must go so
/// that what remains fits in `max_total`: one past the newest position at
/// which the total from there on exceeds it, or none.
pub open spec fn size_cut(sizes: Seq<u64>, max_total: u64, i: int) -> int
    decreases i,
{
    if i <= 0 {
        0
    } else if suffix_sum(sizes, i - 1) > max_total {
        i
    } else {
        size_cut(sizes, max_total, i - 1)
    }
}

/// How many of the oldest snapshots to delete: enough that at most `keep`
/// remain, and enough that the rest fit in `max_total` bytes.
pub open spec fn drop_spec(sizes: Seq<u64>, keep: nat, max_total: u64) -> int {
    let by_count: int = if sizes.len() > keep {
        sizes.len() - keep
    } else {
        0
    };
    let by_size = size_cut(sizes, max_total, sizes.len() as int);
    if by_count >= by_size {
        by_count
    } else {
        by_size
    }
}

proof fn lemma_suffix_sum_step(sizes: Seq<u64>, i: int)
    requires
        0 <= i < sizes.len(),
    ensures
        suffix_sum(sizes, i) == sizes[i] + suffix_sum(sizes, i + 1),
{
}

/// Totals only grow towards the old end.
proof fn lemma_suffix_sum_mono(sizes: Seq<u64>, i: int, j: int)
    requires
        0 <= i <= j <= sizes.len(),
    ensures
        suffix_sum(sizes, i) >= suffix_sum(sizes, j),
        suffix_sum(sizes, j) >= 0,
    decreases j - i,
{
    if i < j {
        lemma_suffix_sum_mono(sizes, i + 1, j);
    } else {
        lemma_suffix_sum_nonneg(sizes, j);
    }
}

proof fn lemma_suffix_sum_nonneg(sizes: Seq<u64>, i: int)
    ensures
        suffix_sum(sizes, i) >= 0,
    decreases sizes.len() - i,
{
    if 0 <= i < sizes.len() {
        lemma_suffix_sum_nonneg(sizes, i + 1);
    }
}

/// Drops the oldest snapshots beyond either limit. `sizes` are the stored
/// sizes of the snapshots, oldest first. Whichever limit is reached first
/// wins, and the newest are always what survive.
pub fn drop_count(sizes: &[u64], keep: usize, max_total_bytes: u64) -> (r: usize)
    requires
        suffix_sum(sizes@, 0) <= u64::MAX,
    ensures
        r == drop_spec(sizes@, keep as nat, max_total_bytes),
        r <= sizes@.len(),
{
    let n = sizes.len();
    let by_count: usize = if n > keep {
        n - keep
    } else {
        0
    };
    let mut by_size: usize = 0;
    let mut running: u64 = 0;
    let mut i: usize = n;
    proof {
        lemma_suffix_sum_mono(sizes@, 0, n as int);
    }
    while i > 0
        invariant_except_break
            i <= n == sizes@.len(),
            running == suffix_sum(sizes@, i as int),
            running <= max_total_bytes,
            suffix_sum(sizes@, 0) <= u64::MAX,
            size_cut(sizes@, max_total_bytes, n as int) == size_cut(sizes@, max_total_bytes, i as int),
            by_size == 0,
        ensures
            by_size == size_cut(sizes@, max_total_bytes, n as int),
            by_size <= n,
        decreases i,
    {
        proof {
            lemma_suffix_sum_step(sizes@, i - 1);
            lemma_suffix_sum_mono(sizes@, 0, i - 1);
        }
        running = running + sizes[i - 1];
        if running > max_total_bytes {
            by_size = i;
            break;
        }
        i -= 1;
    }
    if by_count >= by_size {
        by_count
    } else {
        by_size
    }
}

/// What `drop_count` leaves is the newest snapshots, at most `keep` of them,
/// fitting in `max_total` bytes; and it deletes no more than that takes: with
/// one fewer deleted, one of the two limits would be broken.
pub proof fn history_keeps_the_newest_within_both_limits(sizes: Seq<u64>, keep: nat, max_total: u64)
    ensures
        ({
            let d = drop_spec(sizes, keep, max_total);
            &&& 0 <= d <= sizes.len()
            &&& sizes.len() - d <= keep
            &&& suffix_sum(sizes, d) <= max_total
            &&& d > 0 ==> (sizes.len() - (d - 1) > keep || suffix_sum(sizes, d - 1) > max_total)
        }),
{
    lemma_size_cut(sizes, max_total, sizes.len() as int);
    let d = drop_spec(sizes, keep, max_total);
    let c = size_cut(sizes, max_total, sizes.len() as int);
    lemma_suffix_sum_mono(sizes, c, d);
}

/// The size cut lies within the history, what follows it fits, and it is
/// either nothing or a position whose total from one before overflows.
proof fn lemma_size_cut(sizes: Seq<u64>, max_total: u64, i: int)
    requires
        0 <= i <= sizes.len(),
        suffix_sum(sizes, i) <= max_total,
    ensures
        0 <= size_cut(sizes, max_total, i) <= i,
        suffix_sum(sizes, size_cut(sizes, max_total, i)) <= max_total,
        size_cut(sizes, max_total, i) > 0 ==> suffix_sum(
            sizes,
            size_cut(sizes, max_total, i) - 1,
        ) > max_total,
    decreases i,
{
    if i > 0 && suffix_sum(sizes, i - 1) <= max_total {
        lemma_size_cut(sizes, max_total, i - 1);
    }
}

/// With room for at least one snapshot and a newest snapshot that fits on its
/// own, the newest always survives.
pub proof fn the_newest_snapshot_survives(sizes: Seq<u64>, keep: nat, max_total: u64)
    requires
        sizes.len() > 0,
        keep >= 1,
        sizes.last() <= max_total,
    ensures
        drop_spec(sizes, keep, max_total) < sizes.len(),
{
    let n = sizes.len() as int;
    assert(suffix_sum(sizes, n) == 0);
    assert(suffix_sum(sizes, n - 1) == sizes[n - 1] + suffix_sum(sizes, n));
    assert(suffix_sum(sizes, n - 1) <= max_total);
    lemma_size_cut(sizes, max_total, n - 1);
    assert(size_cut(sizes, max_total, n) == size_cut(sizes, max_total, n - 1));
}

/// One entry in the version history.
#[derive(Debug, Clone)]
pub struct HistoryEntry {
    pub sequence: u64,
    pub hash: String,
    /// Where the snapshot file is.
    pub path: String,
    /// When the snapshot was written, in nanoseconds since the Unix epoch,
    /// from the file's own timestamp.
    pub written_at: Option<u128>,
    /// Size on disk, compressed.
    pub stored_bytes: u64,
}

/// How long ago something was, in words people use. Rough on purpose.
pub open spec fn age_words(seconds: nat) -> Seq<char> {
    if seconds <= 9 {
        "just now"@
    } else if seconds <= 59 {
        decimal(seconds) + " seconds ago"@
    } else if seconds <= 119 {
        "a minute ago"@
    } else if seconds <= 3599 {
        decimal(seconds / 60) + " minutes ago"@
    } else if seconds <= 7199 {
        "an hour ago"@
    } else if seconds <= 86399 {
        decimal(seconds / 3600) + " hours ago"@
    } else if seconds <= 172799 {
        "yesterday"@
    } else {
        decimal(seconds / 86400) + " days ago"@
    }
}

/// The age of something written at `written` (nanoseconds), seen at `now`:
/// "unknown" without a time, "just now" for a time in the future.
pub open spec fn age_spec(written: Option<u128>, now: u128) -> Seq<char> {
    match written {
        None => "unknown"@,
        Some(w) => if now < w {
            "just now"@
        } else {
            age_words(((now - w) / 1_000_000_000) as nat)
        },
    }
}

/// The stored size in units that are not silly: bytes below a kilobyte
/// ("0.0 KB" would read like an empty file), whole kilobytes below a
/// megabyte, and megabytes to one decimal above, each rounded as `format!`
/// rounds the `f64` quotient (to nearest, a tie to even).
pub open spec fn size_spec(n: nat) -> Seq<char> {
    if n == 0 {
        "empty"@
    } else if n < 1024 {
        decimal(n) + " bytes"@
    } else if n < 1048576 {
        decimal(round_div_even(n, 1024)) + " KB"@
    } else {
        let tenths = round_div_even(f64_value(n) * 10, 1048576);
        decimal(tenths / 10) + seq!['.'] + decimal(tenths % 10) + " MB"@
    }
}

impl HistoryEntry {
    /// The stored size, in units that are not silly.
    pub fn size(&self) -> (r: String)
        ensures
            r@ == size_spec(self.stored_bytes as nat),
    {
        let n = self.stored_bytes;
        let mut out = String::new();
        if n == 0 {
            return "empty".to_owned();
        } else if n < 1024 {
            push_decimal(&mut out, n);
            push_str(&mut out, " bytes");
        } else if n < 1048576 {
            let kb = round_div_even_u128(n as u128, 1024);
            push_decimal_u128(&mut out, kb);
            push_str(&mut out, " KB");
        } else {
            let v = f64_value_of(n);
            let tenths = round_div_even_u128(v * 10, 1048576);
            push_decimal_u128(&mut out, tenths / 10);
            push_char(&mut out, '.');
            push_decimal_u128(&mut out, tenths % 10);
            push_str(&mut out, " MB");
        }
        out
    }

    /// How long ago this was written, in words, at `now` (nanoseconds since
    /// the Unix epoch).
    pub fn age(&self, now: u128) -> (r: String)
        ensures
            r@ == age_spec(self.written_at, now),
    {
        let written = match self.written_at {
            None => return "unknown".to_owned(),
            Some(w) => w,
        };
        if now < written {
            return "just now".to_owned();
        }
        let seconds: u128 = (now - written) / 1_000_000_000;
        let mut out = String::new();
        if seconds <= 9 {
            return "just now".to_owned();
        } else if seconds <= 59 {
            push_decimal_u128(&mut out, seconds);
            push_str(&mut out, " seconds ago");
        } else if seconds <= 119 {
            return "a minute ago".to_owned();
        } else if seconds <= 3599 {
            push_decimal_u128(&mut out, seconds / 60);
            push_str(&mut out, " minutes ago");
        } else if seconds <= 7199 {
            return "an hour ago".to_owned();
        } else if seconds <= 86399 {
            push_decimal_u128(&mut out, seconds / 3600);
            push_str(&mut out, " hours ago");
        } else if seconds <= 172799 {
            return "yesterday".to_owned();
        } else {
            push_decimal_u128(&mut out, seconds / 86400);
            push_str(&mut out, " days ago");
        }
        out
    }
}

/// What `zstd::encode_all(.., 3)` gives for some bytes: the compressed
/// frame, or `None` where it returns an error.
pub uninterp spec fn zstd_encoded(bytes: Seq<u8>) -> Option<Seq<u8>>;

/// What `zstd::decode_all` gives for some bytes: what the frames in them hold,
/// or `None` where it returns an error (data that is not a complete zstd
/// stream).
pub uninterp spec fn zstd_decoded(bytes: Seq<u8>) -> Option<Seq<u8>>;

/// The bytes an outcome holds, if any.
pub open spec fn bytes_of(r: Option<Vec<u8>>) -> Option<Seq<u8>> {
    match r {
        Some(v) => Some(v@),
        None => None,
    }
}

/// `zstd::encode_all` at level 3.
#[verifier::external_body]
fn zstd_compress(bytes: &[u8]) -> (r: Option<Vec<u8>>)
    ensures
        bytes_of(r) == zstd_encoded(bytes@),
{
    zstd::encode_all(bytes, 3).ok()
}

/// `zstd::decode_all`. zstd is lossless: a frame that `encode_all` made
/// decodes to what was compressed (its level-3 window is well inside the
/// decoder's default limit).
#[verifier::external_body]
fn zstd_decompress(bytes: &[u8]) -> (r: Option<Vec<u8>>)
    ensures
        bytes_of(r) == zstd_decoded(bytes@),
        forall|x: Seq<u8>| zstd_encoded(x) == Some(bytes@) ==> bytes_of(r) == Some(x),
{
    zstd::decode_all(bytes).ok()
}

/// A snapshot ready to be written to the history directory.
pub struct Snapshot {
    pub sequence: u64,
    pub name: String,
    pub compressed: Vec<u8>,
}

/// What adding a snapshot comes to.
pub enum SnapshotPlan {
    /// The newest snapshot already holds these contents: nothing is added.
    Unchanged,
    /// This snapshot is to be written.
    Add(Snapshot),
    /// zstd returned an error for these contents.
    CompressionFailed,
}

/// Whether a snapshot of these contents is added, given the hash of the newest
/// one and the highest sequence number used so far: nothing when the newest
/// already holds this content; otherwise the next number, its file name and
/// the compressed bytes.
pub fn plan_snapshot(contents: &[u8], newest_hash: Option<&str>, sequence: u64) -> (r: SnapshotPlan)
    requires
        sequence < u64::MAX,
    ensures
        (newest_hash matches Some(h) && h@ == hash_spec(contents@)) <==> r is Unchanged,
        r is CompressionFailed <==> !(newest_hash matches Some(h) && h@ == hash_spec(contents@))
            && zstd_encoded(contents@) is None,
        r matches SnapshotPlan::Add(s) ==> {
            &&& s.sequence == sequence + 1
            &&& s.name@ == history_name(s.sequence as nat, hash_spec(contents@))
            &&& zstd_encoded(contents@) == Some(s.compressed@)
        },
{
    let hash = hash_of(contents);
    if let Some(h) = newest_hash {
        if crate::strings::str_eq(h, hash.as_str()) {
            return SnapshotPlan::Unchanged;
        }
    }
    let next = sequence + 1;
    let name = history_file_name(next, hash.as_str());
    match zstd_compress(contents) {
        Some(compressed) => SnapshotPlan::Add(Snapshot { sequence: next, name, compressed }),
        None => SnapshotPlan::CompressionFailed,
    }
}

/// The contents a snapshot file holds, or `None` if it is not a complete
/// compressed stream.
pub fn snapshot_contents(stored: &[u8]) -> (r: Option<Vec<u8>>)
    ensures
        bytes_of(r) == zstd_decoded(stored@),
        forall|x: Seq<u8>| zstd_encoded(x) == Some(stored@) ==> bytes_of(r) == Some(x),
{
    zstd_decompress(stored)
}

/// Where one document's mirror, metadata and history live:
/// `docs/<key>` under the state directory.
pub struct DocStore {
    dir: String,
}

impl DocStore {
    /// The document's directory.
    pub closed spec fn dir_text(&self) -> Seq<char> {
        self.dir@
    }

    pub fn new(root: &str, key: &str) -> (r: DocStore)
        ensures
            r.dir_text() == path_joined(path_joined(root@, "docs"@), key@),
    {
        let docs = join(root, "docs");
        DocStore { dir: join(docs.as_str(), key) }
    }

    pub fn dir(&self) -> (r: &str)
        ensures
            r@ == self.dir_text(),
    {
        self.dir.as_str()
    }

    /// The latest buffer contents, verbatim.
    pub fn mirror_path(&self) -> (r: String)
        ensures
            r@ == path_joined(self.dir_text(), "mirror"@),
    {
        join(self.dir.as_str(), "mirror")
    }

    /// What the mirror is, and what it came from.
    pub fn meta_path(&self) -> (r: String)
        ensures
            r@ == path_joined(self.dir_text(), "meta.json"@),
    {
        join(self.dir.as_str(), "meta.json")
    }

    /// Older versions, newest last.
    pub fn history_dir(&self) -> (r: String)
        ensures
            r@ == path_joined(self.dir_text(), "history"@),
    {
        join(self.dir.as_str(), "history")
    }
}

} // verus!

