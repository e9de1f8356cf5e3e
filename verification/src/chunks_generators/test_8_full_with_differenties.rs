use vstd::prelude::*;

verus! {

/// Generates chunks filled in every cell, each cell in a pastel color
/// of its own out of `colors_count`.
pub struct GeneratorOfTest8FullWithDifferenties {
    colors_count: u16,
}

impl GeneratorOfTest8FullWithDifferenties {
    /// Number of pastel colors the generator picks from.
    pub closed spec fn colors(self) -> u16 {
        self.colors_count
    }

    pub fn new(_seed: u32) -> (r: Self)
        ensures
            r.colors() == 1000,
    {
        Self { colors_count: 1000 }
    }
}

} // verus!
