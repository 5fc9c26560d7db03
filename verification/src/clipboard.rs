//! When a copy to the system clipboard has to be kept alive.
//!
//! Under X11 and Wayland the clipboard is emptied once the process that
//! filled it has gone. On the systems that use them a process of its own
//! holds the copy until another program puts something else there.

use vstd::prelude::*;
use vstd::string::StringSliceAdditionalSpecFns;
use vstd::utf8::encode_utf8_decode_utf8;

verus! {

/// Whether `platform` names a system on which the clipboard is emptied when
/// the process that filled it ends.
pub open spec fn loses_clipboard_on_exit(platform: Seq<char>) -> bool {
    ||| platform == "linux"@
    ||| platform == "freebsd"@
    ||| platform == "netbsd"@
    ||| platform == "dragonfly"@
    ||| platform == "mac osx"@
    ||| platform == "openbsd"@
    ||| platform == "solaris"@
}

/// Whether two strings hold the same text.
pub fn same_text(a: &str, b: &str) -> (same: bool)
    ensures
        same == (a@ == b@),
{
    let left = a.as_bytes();
    let right = b.as_bytes();
    proof {
        encode_utf8_decode_utf8(a@);
        encode_utf8_decode_utf8(b@);
    }
    if left.len() != right.len() {
        return false;
    }
    for i in 0..left.len()
        invariant
            left@.len() == right@.len(),
            forall|p: int| 0 <= p < i ==> left@[p] == right@[p],
            left@ == a.spec_bytes(),
            right@ == b.spec_bytes(),
            left@ == right@ ==> a@ == b@,
    {
        if left[i] != right[i] {
            return false;
        }
    }
    assert(left@ =~= right@);
    true
}

/// Whether a copy made on `platform` needs a process that stays behind to
/// hold it.
pub fn needs_holder(platform: &str) -> (needed: bool)
    ensures
        needed == loses_clipboard_on_exit(platform@),
{
    same_text(platform, "linux") || same_text(platform, "freebsd") || same_text(
        platform,
        "netbsd",
    ) || same_text(platform, "dragonfly") || same_text(platform, "mac osx") || same_text(
        platform,
        "openbsd",
    ) || same_text(platform, "solaris")
}

/// Whether the process that holds a copy of `held` may end: the clipboard
/// now holds something else.
pub fn holder_is_done(held: &str, clipboard: &str) -> (done: bool)
    ensures
        done == (clipboard@ != held@),
{
    !same_text(clipboard, held)
}

} // verus!
