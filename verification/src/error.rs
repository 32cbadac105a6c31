use vstd::prelude::*;

verus! {

/// A step whose integer arithmetic would leave the range of its type: the
/// computation that would overflow is not carried out.
#[derive(Clone, Copy, Debug, PartialEq, Eq, Structural)]
pub struct Overflow;

pub open spec fn in_i32(v: int) -> bool {
    i32::MIN <= v <= i32::MAX
}

} // verus!
