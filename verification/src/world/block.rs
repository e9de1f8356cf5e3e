use vstd::prelude::*;

verus! {

/// A block at integer world coordinates.
#[derive(Debug, Clone, Copy)]
pub struct Block {
    x: i16,
    y: i16,
    z: i16,
}

impl Block {
    /// The coordinates of the block.
    pub closed spec fn position(self) -> (i16, i16, i16) {
        (self.x, self.y, self.z)
    }

    pub fn new(x: i16, y: i16, z: i16) -> (r: Self)
        ensures
            r.position() == (x, y, z),
    {
        Self { x, y, z }
    }

    /// The coordinates of the block.
    pub fn coordinates(&self) -> (r: (i16, i16, i16))
        ensures
            r == self.position(),
    {
        (self.x, self.y, self.z)
    }
}

} // verus!
