use vstd::prelude::*;

verus! {

/// Above this many bytes, copying the output to the clipboard may be slow.
pub const CLIPBOARD_WARN_BYTES: u64 = 500 * 1024;

/// Whether copying `size` bytes to the clipboard deserves a warning.
pub fn clipboard_may_be_slow(size: u64) -> (r: bool)
    ensures
        r == (size > CLIPBOARD_WARN_BYTES),
{
    size > CLIPBOARD_WARN_BYTES
}

} // verus!
