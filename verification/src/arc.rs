//! The counting rules of a pointer that shares one value among its clones.

use vstd::prelude::*;

verus! {

/// Whether a clone must stop the process: it found the count at `old_rc`
/// before it added one, and a count of `isize::MAX` or more is not allowed
/// to grow.
pub fn clone_must_abort(old_rc: usize) -> (abort: bool)
    ensures
        abort == (old_rc >= isize::MAX),
{
    old_rc >= isize::MAX as usize
}

/// Whether a pointer that goes away must release the shared value: it found
/// the count at `old_rc` before it took one off, so it was the last owner
/// exactly if that count was 1.
pub fn drop_must_release(old_rc: usize) -> (release: bool)
    ensures
        release == (old_rc == 1),
{
    old_rc == 1
}

} // verus!
