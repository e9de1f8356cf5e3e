use vstd::prelude::*;

use crate::world::block::Block;

verus! {

/// A column of 384 layers of 16 by 16 blocks.
pub struct Chunk {
    pub blocks: [[[Block; 16]; 16]; 384],
}

impl Chunk {
    /// The chunk at chunk coordinates `(x, z)`: the block at layer `cy`, row
    /// `cx` and column `cz` stands at `(16 x + cx, cy, 16 z + cz)`.
    pub fn new(x: i16, z: i16) -> (r: Chunk)
        requires
            -2048 <= x <= 2047,
            -2048 <= z <= 2047,
        ensures
            forall|cy: int, cx: int, cz: int| 0 <= cy < 384 && 0 <= cx < 16 && 0 <= cz < 16
                ==> (#[trigger] r.blocks@[cy]@[cx]@[cz]).position() == ((x * 16 + cx) as i16, cy as i16, (z * 16 + cz) as i16),
    {
        let mut blocks = [[[Block::new(0, 0, 0); 16]; 16]; 384];
        let mut cy: i16 = 0;
        while cy < 384
            invariant
                0 <= cy <= 384,
                -2048 <= x <= 2047,
                -2048 <= z <= 2047,
                forall|ly: int, lx: int, lz: int| 0 <= ly < cy && 0 <= lx < 16 && 0 <= lz < 16
                    ==> (#[trigger] blocks@[ly]@[lx]@[lz]).position() == ((x * 16 + lx) as i16, ly as i16, (z * 16 + lz) as i16),
            decreases 384 - cy,
        {
            let mut layer = [[Block::new(0, 0, 0); 16]; 16];
            let mut cx: i16 = 0;
            while cx < 16
                invariant
                    0 <= cx <= 16,
                    0 <= cy < 384,
                    -2048 <= x <= 2047,
                    -2048 <= z <= 2047,
                    forall|lx: int, lz: int| 0 <= lx < cx && 0 <= lz < 16
                        ==> (#[trigger] layer@[lx]@[lz]).position() == ((x * 16 + lx) as i16, cy as i16, (z * 16 + lz) as i16),
                decreases 16 - cx,
            {
                let mut row = [Block::new(0, 0, 0); 16];
                let mut cz: i16 = 0;
                while cz < 16
                    invariant
                        0 <= cz <= 16,
                        0 <= cx < 16,
                        0 <= cy < 384,
                        -2048 <= x <= 2047,
                        -2048 <= z <= 2047,
                        forall|lz: int| 0 <= lz < cz
                            ==> (#[trigger] row@[lz]).position() == ((x * 16 + cx) as i16, cy as i16, (z * 16 + lz) as i16),
                    decreases 16 - cz,
                {
                    row[cz as usize] = Block::new(x * 16 + cx, cy, z * 16 + cz);
                    cz = cz + 1;
                }
                layer[cx as usize] = row;
                cx = cx + 1;
            }
            blocks[cy as usize] = layer;
            cy = cy + 1;
        }
        Chunk { blocks }
    }
}

} // verus!
