//! Which write failures are final, and how temporary files are named.
//!
//! Files are replaced atomically: the new contents go to a temporary file in
//! the same directory, are flushed, and are renamed over the target. The
//! filesystem work is the caller's; what is decided about it is here.

use vstd::prelude::*;

use crate::numbers::{decimal, push_decimal};
use crate::strings::{push_char, push_str};

verus! {

/// The kinds of I/O error the editor tells apart.
#[derive(Debug, Clone, Copy, PartialEq, Eq, Structural)]
pub enum IoErrorKind {
    StorageFull,
    PermissionDenied,
    ReadOnlyFilesystem,
    Other,
}

/// The operating system's code for an I/O error (`EIO`).
pub fn libc_eio() -> (r: i32)
    ensures
        r == 5,
{
    5
}

/// True when retrying is pointless and the error must be surfaced rather than
/// silently losing writes: a full disk, a permission or read-only failure, or
/// an I/O error from the device. Linux reports a writeback error once and
/// then forgets it, so a second `fsync` may succeed while the data is gone.
pub fn is_fatal(kind: IoErrorKind, raw_os_error: Option<i32>) -> (r: bool)
    ensures
        r == (kind == IoErrorKind::StorageFull || kind == IoErrorKind::PermissionDenied || kind
            == IoErrorKind::ReadOnlyFilesystem || raw_os_error == Some(5i32)),
{
    let kind_is_fatal = match kind {
        IoErrorKind::StorageFull => true,
        IoErrorKind::PermissionDenied => true,
        IoErrorKind::ReadOnlyFilesystem => true,
        IoErrorKind::Other => false,
    };
    kind_is_fatal || match raw_os_error {
        Some(code) => code == libc_eio(),
        None => false,
    }
}

/// The name of the temporary file written before a rename: hidden, naming the
/// target (or `f3note` when it has no file name), the process and a counter,
/// so that no other process, thread or attempt can collide with it.
pub open spec fn temp_name_spec(stem: Option<Seq<char>>, pid: u32, n: u64) -> Seq<char> {
    let s = match stem {
        Some(t) => t,
        None => "f3note"@,
    };
    seq!['.'] + s + seq!['.'] + decimal(pid as nat) + seq!['.'] + decimal(n as nat) + ".tmp"@
}

pub fn temp_name(stem: Option<&str>, pid: u32, n: u64) -> (r: String)
    ensures
        r@ == temp_name_spec(
            match stem {
                Some(t) => Some(t@),
                None => None,
            },
            pid,
            n,
        ),
{
    let mut out = String::new();
    push_char(&mut out, '.');
    match stem {
        Some(t) => push_str(&mut out, t),
        None => push_str(&mut out, "f3note"),
    }
    push_char(&mut out, '.');
    push_decimal(&mut out, pid as u64);
    push_char(&mut out, '.');
    push_decimal(&mut out, n);
    push_str(&mut out, ".tmp");
    out
}

} // verus!
