//! Generators that fill the chunks of a world, and their helpers.

pub mod create_voxel;
pub mod test_1_empty;
pub mod test_2_single;
pub mod test_4_half_random;
pub mod test_7_half_random_with_differenties;
pub mod test_8_full_with_differenties;
pub mod test_13_plains_with_floatings;
pub mod utilities;
