//! The library's single source of randomness: one trusted wrapper
//! around the rand crate, used by mine placement and name drawing.
use vstd::prelude::*;

verus! {

/// Relies on rand::random_range over `0..bound`: the function returns
/// a value drawn from that range, so the result always lies below
/// `bound`. Nothing further is assumed of the draw.
#[verifier::external_body]
pub(crate) fn random_below(bound: usize) -> (r: usize)
    requires
        bound >= 1,
    ensures
        r < bound,
{
    rand::random_range(0..bound)
}

} // verus!
