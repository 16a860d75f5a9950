//! Socket options that the client negotiates with the system.

use vstd::prelude::*;

verus! {

/// Sizes of socket buffer to try, from the requested one down: after a
/// refused size the next one is half of it, and none is left once that
/// reaches zero.
pub fn next_buffer_size(size: usize) -> (r: Option<usize>)
    ensures
        r == (if size / 2 > 0 {
            Some(size / 2)
        } else {
            None::<usize>
        }),
{
    let next = size / 2;
    if next > 0 {
        Some(next)
    } else {
        None
    }
}

} // verus!
