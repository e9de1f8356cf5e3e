use vstd::prelude::*;

verus! {

/// Where a box stands with respect to the view frustum.
pub enum FrustumCheck {
    Outside,
    Intersect,
    Inside,
}

} // verus!
