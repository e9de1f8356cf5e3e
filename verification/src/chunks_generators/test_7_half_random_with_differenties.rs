use vstd::prelude::*;

verus! {

/// Generates chunks half filled at random cells, each cell in a pastel color
/// of its own out of `colors_count`.
pub struct GeneratorOfTest7HalfRanfomWithDifferenties {
    colors_count: u16,
}

impl GeneratorOfTest7HalfRanfomWithDifferenties {
    /// Number of pastel colors the generator picks from.
    pub closed spec fn colors(self) -> u16 {
        self.colors_count
    }

    pub fn new(_seed: u32) -> (r: Self)
        ensures
            r.colors() == 1000,
    {
        Self { colors_count: 1000 }
    }
}

} // verus!
