//! Tuning trouble: the first run of distinct characters in a stream.

use vstd::prelude::*;
use vstd::slice::slice_subrange;
use crate::trusted::all_unique;

verus! {

/// The `n` bytes of `bytes` from position `i` on are all different.
pub open spec fn distinct_at(bytes: Seq<u8>, n: int, i: int) -> bool {
    0 <= i && i + n <= bytes.len() && bytes.subrange(i, i + n).no_duplicates()
}

/// The end of the first run of `n` different bytes that begins at position `from` or
/// later; 0 where there is no such run.
pub open spec fn marker_from(bytes: Seq<u8>, n: int, from: int) -> int
    decreases bytes.len() - from,
{
    if from < 0 || from + n > bytes.len() || from >= bytes.len() {
        0
    } else if distinct_at(bytes, n, from) {
        from + n
    } else {
        marker_from(bytes, n, from + 1)
    }
}

/// The number of bytes read when the first run of `n` different bytes ends; 0 where the
/// stream holds no such run.
pub fn unique_marker(bytes: &[u8], n: usize) -> (end: usize)
    requires
        n > 0,
    ensures
        end == marker_from(bytes@, n as int, 0),
{
    let mut i: usize = 0;
    while bytes.len() - i >= n
        invariant
            n > 0,
            i <= bytes.len(),
            marker_from(bytes@, n as int, 0) == marker_from(bytes@, n as int, i as int),
        decreases bytes.len() - i,
    {
        let window = slice_subrange(bytes, i, i + n);
        if all_unique(window) {
            return i + n;
        }
        i += 1;
    }
    0
}

} // verus!
