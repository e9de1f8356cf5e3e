use vstd::prelude::*;
use std::rc::Rc;

use crate::world::registry::Registry;

verus! {

/// The shared voxel data of a world, each kind under its name.
pub struct VoxelDataset {
    pub materials: Registry<Rc<Material>>,
    pub colors: Registry<Rc<Color>>,
    pub common_voxel_dataset: Registry<Rc<CommonVoxelData>>,
    pub voxels: Registry<Rc<Voxel>>,
}

impl VoxelDataset {
    /// A dataset without any entry.
    pub fn new() -> (r: Self)
        ensures
            r.materials@ == Map::<Seq<char>, Rc<Material>>::empty(),
            r.colors@ == Map::<Seq<char>, Rc<Color>>::empty(),
            r.common_voxel_dataset@ == Map::<Seq<char>, Rc<CommonVoxelData>>::empty(),
            r.voxels@ == Map::<Seq<char>, Rc<Voxel>>::empty(),
    {
        Self {
            colors: Registry::new(),
            materials: Registry::new(),
            common_voxel_dataset: Registry::new(),
            voxels: Registry::new(),
        }
    }

    /// Adds every entry of `dataset`; names that both hold take the entry of
    /// `dataset`.
    pub fn expand(&mut self, dataset: Self)
        ensures
            final(self).materials@ == old(self).materials@.union_prefer_right(dataset.materials@),
            final(self).colors@ == old(self).colors@.union_prefer_right(dataset.colors@),
            final(self).common_voxel_dataset@ == old(self).common_voxel_dataset@.union_prefer_right(
                dataset.common_voxel_dataset@,
            ),
            final(self).voxels@ == old(self).voxels@.union_prefer_right(dataset.voxels@),
    {
        self.materials.extend(dataset.materials);
        self.colors.extend(dataset.colors);
        self.common_voxel_dataset.extend(dataset.common_voxel_dataset);
        self.voxels.extend(dataset.voxels);
    }
}

/// What a voxel is made of.
#[derive(Debug)]
pub struct Material {
    pub _density: u32,
}

/// A color in red, green and blue.
#[derive(Debug, Clone, Copy)]
pub struct Color {
    pub red: u8,
    pub green: u8,
    pub blue: u8,
}

/// The material and color that voxels share.
#[derive(Debug)]
pub struct CommonVoxelData {
    pub _material: Rc<Material>,
    pub _color: Rc<Color>,
}

/// A voxel: its own data and the data it shares with others.
#[derive(Debug)]
pub struct Voxel {
    pub _individual_data: Vec<String>,
    pub _common_data: Rc<CommonVoxelData>,
}

/// A visible side of a voxel: the voxel's cell in the world, its color and
/// the direction (1 to 6) the side faces.
#[derive(Debug, Clone, Copy)]
pub struct VoxelSide {
    pos: (i64, i64, i64),
    color: Color,
    direction: u8,
}

impl VoxelSide {
    /// The side of the cell `pos` in `color` facing `direction`.
    pub closed spec fn made(pos: (i64, i64, i64), color: Color, direction: u8) -> VoxelSide {
        VoxelSide { pos, color, direction }
    }

    /// The cell of the side.
    pub closed spec fn position(self) -> (i64, i64, i64) {
        self.pos
    }

    /// The color of the side.
    pub closed spec fn side_color(self) -> Color {
        self.color
    }

    /// The direction the side faces.
    pub closed spec fn facing(self) -> u8 {
        self.direction
    }

    /// What a side is made of is what it reads back.
    pub proof fn lemma_made(pos: (i64, i64, i64), color: Color, direction: u8)
        ensures
            Self::made(pos, color, direction).position() == pos,
            Self::made(pos, color, direction).side_color() == color,
            Self::made(pos, color, direction).facing() == direction,
    {
    }

    /// A side is the one made of its cell, color and direction.
    pub proof fn lemma_fields(s: VoxelSide)
        ensures
            s == Self::made(s.position(), s.side_color(), s.facing()),
    {
    }

    pub fn new(pos: (i64, i64, i64), color: Color, direction: u8) -> (r: Self)
        ensures
            r == Self::made(pos, color, direction),
    {
        Self { pos, color, direction }
    }

    /// The side of the cell `(x, y, z)` facing `direction`, in the color of
    /// `voxel`.
    pub fn from_voxel_rc(x: i64, y: i64, z: i64, direction: u8, voxel: &Rc<Voxel>) -> (r: Self)
        ensures
            r == Self::made((x, y, z), *voxel._common_data._color, direction),
    {
        Self { pos: (x, y, z), direction, color: *voxel._common_data._color }
    }

    pub fn get_color(&self) -> (r: Color)
        ensures
            r == self.side_color(),
    {
        self.color
    }

    pub fn get_direction(&self) -> (r: u8)
        ensures
            r == self.facing(),
    {
        self.direction
    }

    pub fn get_position(&self) -> (r: (i64, i64, i64))
        ensures
            r == self.position(),
    {
        self.pos
    }
}

} // verus!
