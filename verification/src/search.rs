//! Binary search over an ascending sequence of `u32`.

use vstd::prelude::*;

verus! {

/// Every element is strictly smaller than the next one.
pub open spec fn strictly_ascending(s: Seq<u32>) -> bool {
    forall|i: int, j: int| 0 <= i < j < s.len() ==> s[i] < s[j]
}

/// Searches an ascending vector for `x`: `Ok(i)` when `v[i] == x`, otherwise
/// `Err(i)` where `i` is the position at which `x` would have to be inserted
/// to keep the vector ascending.
pub(crate) fn binary_search(v: &Vec<u32>, x: u32) -> (r: Result<usize, usize>)
    requires
        strictly_ascending(v@),
    ensures
        r matches Ok(i) ==> i < v@.len() && v@[i as int] == x,
        r matches Err(i) ==> i <= v@.len()
            && (forall|j: int| 0 <= j < i ==> v@[j] < x)
            && (forall|j: int| i <= j < v@.len() ==> v@[j] > x),
{
    let mut lo: usize = 0;
    let mut hi: usize = v.len();
    while lo < hi
        invariant
            lo <= hi <= v@.len(),
            strictly_ascending(v@),
            forall|j: int| 0 <= j < lo ==> v@[j] < x,
            forall|j: int| hi <= j < v@.len() ==> v@[j] > x,
        decreases hi - lo,
    {
        let mid = lo + (hi - lo) / 2;
        let m = v[mid];
        if m == x {
            return Ok(mid);
        } else if m < x {
            lo = mid + 1;
        } else {
            hi = mid;
        }
    }
    Err(lo)
}

} // verus!
