use vstd::prelude::*;

verus! {

/// Places the ores of the box from `from` to `to`; no ore is placed yet, so
/// the world stays as it was.
pub fn generate_ores<W>(world_holder: &mut W, from: (u32, u32, u32), to: (u32, u32, u32))
    ensures
        *final(world_holder) == *old(world_holder),
{
}

/// The ores of the world.
pub enum Ore {
    Coal,
}

impl Ore {
    /// Places this ore in the box from `from` to `to`; coal is not placed yet,
    /// so the world stays as it was.
    pub fn generate<W>(&self, world_holder: &mut W, from: (u32, u32, u32), to: (u32, u32, u32))
        ensures
            *final(world_holder) == *old(world_holder),
    {
        match self {
            Ore::Coal => {},
        }
    }
}

} // verus!
