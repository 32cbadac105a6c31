use vstd::prelude::*;

verus! {

/// `rand::Rng::gen_range` on the thread-local generator of `rand::thread_rng`:
/// a number drawn from `lo..hi`. The contract states only the range; which
/// number comes back depends on the generator. The range must not be empty,
/// where `gen_range` panics.
#[verifier::external_body]
pub(crate) fn random_in(lo: u32, hi: u32) -> (r: u32)
    requires
        lo < hi,
    ensures
        lo <= r < hi,
{
    rand::Rng::gen_range(&mut rand::thread_rng(), lo..hi)
}

} // verus!
