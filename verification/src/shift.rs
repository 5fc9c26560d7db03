//! In-place insertion into a list whose length must not change.

use vstd::prelude::*;

verus! {

/// What `list` holds after `element` was put at `index` and the last entry dropped.
///
/// An `index` past the last entry leaves the list as it is.
pub open spec fn shifted<T>(list: Seq<T>, index: int, element: T) -> Seq<T> {
    if 0 <= index < list.len() {
        list.insert(index, element).drop_last()
    } else {
        list
    }
}

/// Insert `element` at `index`, moving the entries from `index` on one place
/// to the right and dropping the last one, so that the length is preserved.
///
/// Nothing happens when `index` is not a position of `list`.
pub fn insert_and_shift<T: Copy>(list: &mut Vec<T>, index: usize, element: T)
    ensures
        final(list)@ == shifted(old(list)@, index as int, element),
        final(list)@.len() == old(list)@.len(),
{
    if index >= list.len() {
        return;
    }
    list.insert(index, element);
    let keep: usize = list.len() - 1;
    list.truncate(keep);
}

} // verus!
