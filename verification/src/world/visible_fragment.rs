use vstd::prelude::*;

use crate::world::chunk::Chunk;

verus! {

/// The chunks around the viewer: 64 rows of 64 chunks.
pub struct VisibleFragment {
    pub chunks: Vec<Vec<Chunk>>,
}

impl VisibleFragment {
    /// The fragment whose row `cx` holds the chunks `(cx, cz)` for `cz` below 64.
    pub fn new() -> (r: Self)
        ensures
            r.chunks@.len() == 64,
            forall|cx: int| 0 <= cx < 64 ==> (#[trigger] r.chunks@[cx])@.len() == 64,
            forall|cx: int, cz: int, cy: int, bx: int, bz: int|
                0 <= cx < 64 && 0 <= cz < 64 && 0 <= cy < 384 && 0 <= bx < 16 && 0 <= bz < 16
                ==> (#[trigger] r.chunks@[cx]@[cz].blocks@[cy]@[bx]@[bz]).position()
                    == ((cx * 16 + bx) as i16, cy as i16, (cz * 16 + bz) as i16),
    {
        let radius: i16 = 32;
        let edge_len = radius * 2;
        let mut chunks: Vec<Vec<Chunk>> = Vec::with_capacity(edge_len as usize);

        let mut cx: i16 = 0;
        while cx < edge_len
            invariant
                edge_len == 64,
                0 <= cx <= 64,
                chunks@.len() == cx,
                forall|i: int| 0 <= i < cx ==> (#[trigger] chunks@[i])@.len() == 64,
                forall|i: int, j: int, cy: int, bx: int, bz: int|
                    0 <= i < cx && 0 <= j < 64 && 0 <= cy < 384 && 0 <= bx < 16 && 0 <= bz < 16
                    ==> (#[trigger] chunks@[i]@[j].blocks@[cy]@[bx]@[bz]).position()
                        == ((i * 16 + bx) as i16, cy as i16, (j * 16 + bz) as i16),
            decreases 64 - cx,
        {
            let mut row: Vec<Chunk> = Vec::with_capacity(edge_len as usize);
            let mut cz: i16 = 0;
            while cz < edge_len
                invariant
                    edge_len == 64,
                    0 <= cx < 64,
                    0 <= cz <= 64,
                    row@.len() == cz,
                    forall|j: int, cy: int, bx: int, bz: int|
                        0 <= j < cz && 0 <= cy < 384 && 0 <= bx < 16 && 0 <= bz < 16
                        ==> (#[trigger] row@[j].blocks@[cy]@[bx]@[bz]).position()
                            == ((cx * 16 + bx) as i16, cy as i16, (j * 16 + bz) as i16),
                decreases 64 - cz,
            {
                row.push(Chunk::new(cx, cz));
                cz = cz + 1;
            }
            chunks.push(row);
            cx = cx + 1;
        }

        VisibleFragment { chunks }
    }
}

} // verus!
