use vstd::prelude::*;

verus! {

/// Draws a number from `lo..=hi` with `rand::random_range`, which samples the
/// thread-local generator over the range it is given. Nothing is claimed but
/// that the result lies in the range; the range is never empty here, as
/// `random_range` would panic on one.
#[verifier::external_body]
pub(crate) fn random_in(lo: u32, hi: u32) -> (r: u32)
    requires
        lo <= hi,
    ensures
        lo <= r <= hi,
{
    rand::random_range(lo..=hi)
}

} // verus!
