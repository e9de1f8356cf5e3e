use vstd::prelude::*;

verus! {

/// How a model is drawn: filled, or only its edges.
pub enum DrawMode {
    FULL,
    EDGES,
}

} // verus!
