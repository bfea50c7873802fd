//! Moving the selection in the list of serial ports, with wrap-around.
use vstd::prelude::*;

verus! {

/// The entry above `selected` in a list of `count`; the last from the first.
pub fn select_previous(selected: usize, count: usize) -> (r: usize)
    requires
        selected < count,
    ensures
        r < count,
        r == (if selected > 0 {
            selected - 1
        } else {
            count - 1
        }),
{
    if selected > 0 {
        selected - 1
    } else {
        count - 1
    }
}

/// The entry below `selected` in a list of `count`; the first from the last.
pub fn select_next(selected: usize, count: usize) -> (r: usize)
    requires
        selected < count,
    ensures
        r < count,
        r == (if selected + 1 == count {
            0
        } else {
            selected + 1
        }),
{
    if selected >= count - 1 {
        0
    } else {
        selected + 1
    }
}

} // verus!
