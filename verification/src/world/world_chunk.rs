use vstd::prelude::*;
use std::rc::Rc;

use crate::structure_tests::octree::Octree;
use crate::world::world_chunk_worker::GridPosition;
use crate::world::world_holder::{Color, Voxel, VoxelSide};

verus! {

/// Where a chunk stands in its life: its voxels are being worked out, it can
/// be simulated, or its mesh is stale.
pub enum WorldChunkState {
    Calculable,
    FullySimulable,
    Dirty,
}

/// Solid cells of a chunk, one bit per cell, one `u64` per column.
pub struct ChunkBitmask {
    pub data: Vec<u64>,
}

impl ChunkBitmask {
    /// A mask of `size` empty columns.
    pub fn new(size: usize) -> (r: Self)
        ensures
            r.data@.len() == size,
            forall|i: int| 0 <= i < size ==> #[trigger] r.data@[i] == 0,
    {
        let mut data: Vec<u64> = Vec::new();
        let mut i: usize = 0;
        while i < size
            invariant
                i <= size,
                data@.len() == i,
                forall|j: int| 0 <= j < i ==> #[trigger] data@[j] == 0,
            decreases size - i,
        {
            data.push(0);
            i = i + 1;
        }
        Self { data }
    }
}

/// Edge of a chunk in cells; a column of cells fits the bits of a `u64`.
pub const CHUNK_SIZE: usize = 64;
/// Cells of a chunk layer.
pub const CHUNK_SIZE_X2: usize = CHUNK_SIZE * CHUNK_SIZE;
/// Cells of a chunk.
pub const CHUNK_SIZE_X3: usize = CHUNK_SIZE * CHUNK_SIZE * CHUNK_SIZE;

/// The set bits of `num`, lowest first.
pub open spec fn lowest_bits(num: u64) -> Seq<u32>
    decreases num,
{
    if num == 0 {
        Seq::empty()
    } else {
        proof {
            assert(num & ((num - 1) as u64) < num) by (bit_vector)
                requires
                    num != 0,
            ;
        }
        seq![num.trailing_zeros()] + lowest_bits(num & ((num - 1) as u64))
    }
}

/// Clearing the lowest set bit of `num` leaves every other bit as it was;
/// below the lowest set bit there is none.
proof fn lemma_clear_lowest(num: u64, z: u64)
    requires
        num != 0,
        z < 64,
    ensures
        ((num & ((num - 1) as u64)) >> z) & 1u64 == if z == num.trailing_zeros() as u64 {
            0u64
        } else {
            (num >> z) & 1u64
        },
        z < num.trailing_zeros() ==> (num >> z) & 1u64 == 0u64,
        num.trailing_zeros() < 64,
        (num >> (num.trailing_zeros() as u64)) & 1u64 == 1u64,
{
    vstd::std_specs::bits::axiom_u64_trailing_zeros(num);
    let tz = num.trailing_zeros() as u64;
    let s = (64 - tz) as u64;
    assert(num << s == 0u64);
    assert(((num & ((num - 1) as u64)) >> z) & 1u64 == if z == tz { 0u64 } else { (num >> z) & 1u64 })
        by (bit_vector)
        requires
            num != 0,
            tz < 64,
            s == 64 - tz,
            num << s == 0u64,
            (num >> tz) & 1u64 == 1u64,
            z < 64,
    ;
    assert(z < tz ==> (num >> z) & 1u64 == 0u64) by (bit_vector)
        requires
            tz < 64,
            s == 64 - tz,
            num << s == 0u64,
            z < 64,
    ;
}

/// Law: `lowest_bits(num)` lists exactly the set bits of `num`, each once,
/// from the lowest up.
pub proof fn law_lowest_bits_lists_set_bits(num: u64)
    ensures
        forall|i: int| #![trigger lowest_bits(num)[i]] 0 <= i < lowest_bits(num).len()
            ==> lowest_bits(num)[i] < 64 && (num >> (lowest_bits(num)[i] as u64)) & 1u64 == 1u64,
        forall|i: int, j: int| 0 <= i < j < lowest_bits(num).len()
            ==> #[trigger] lowest_bits(num)[i] < #[trigger] lowest_bits(num)[j],
        forall|z: u64| z < 64 && #[trigger] ((num >> z) & 1u64) == 1u64 ==> lowest_bits(num).contains(z as u32),
    decreases num,
{
    if num == 0 {
        assert forall|z: u64| z < 64 implies #[trigger] ((num >> z) & 1u64) == 0u64 by {
            assert((0u64 >> z) & 1u64 == 0u64) by (bit_vector);
        }
    } else {
        let tz = num.trailing_zeros();
        let rest = num & ((num - 1) as u64);
        assert(rest < num) by (bit_vector)
            requires
                num != 0,
                rest == num & ((num - 1) as u64),
        ;
        law_lowest_bits_lists_set_bits(rest);
        let lb = lowest_bits(num);
        let lr = lowest_bits(rest);
        assert(lb == seq![tz] + lr);
        lemma_clear_lowest(num, 0);
        assert forall|i: int| #![trigger lb[i]] 0 <= i < lb.len() implies lb[i] < 64 && (num >> (lb[i] as u64)) & 1u64
            == 1u64 by {
            if i > 0 {
                assert(lb[i] == lr[i - 1]);
                lemma_clear_lowest(num, lr[i - 1] as u64);
            }
        }
        assert forall|i: int, j: int| 0 <= i < j < lb.len() implies #[trigger] lb[i] < #[trigger] lb[j] by {
            assert(lb[j] == lr[j - 1]);
            lemma_clear_lowest(num, lr[j - 1] as u64);
            if i > 0 {
                assert(lb[i] == lr[i - 1]);
            }
        }
        assert forall|z: u64| z < 64 && #[trigger] ((num >> z) & 1u64) == 1u64 implies lb.contains(z as u32) by {
            lemma_clear_lowest(num, z);
            if z == tz as u64 {
                assert(lb[0] == tz);
            } else {
                assert(lr.contains(z as u32));
                let k = choose|k: int| 0 <= k < lr.len() && lr[k] == z as u32;
                assert(lb[k + 1] == z as u32);
            }
        }
    }
}

/// The faces of column `i` of the chunk whose solid-cell masks are `own`,
/// for turn `t` (0 to 5) along axis `t / 2`: the solid cells whose neighbour
/// toward the column's start (even `t`) or end (odd `t`) is empty. The
/// neighbour past the column's end is the first cell of the same column in
/// `nbrs[13]`, `nbrs[21]` or `nbrs[15]`, and before its start the last one of
/// `nbrs[12]`, `nbrs[4]` or `nbrs[10]`, for the axes 0, 1 and 2.
pub open spec fn turn_face_mask(own: Seq<u64>, nbrs: Seq<Seq<u64>>, t: int, i: int) -> u64 {
    let axis = t / 2;
    let idx = CHUNK_SIZE_X2 * axis + i;
    let column = own[idx];
    let ahead = if axis == 0 { nbrs[13][idx] } else if axis == 1 { nbrs[21][idx] } else { nbrs[15][idx] };
    let behind = if axis == 0 { nbrs[12][idx] } else if axis == 1 { nbrs[4][idx] } else { nbrs[10][idx] };
    if t % 2 == 0 {
        column & !(column << 1u64 | ((behind >> 63u64) & 1u64))
    } else {
        column & !(column >> 1u64 | ((ahead & 1u64) << 63u64))
    }
}

/// The solid-cell masks of the neighbouring chunks.
pub open spec fn masks_of(neighbours: [&WorldChunk; 26]) -> Seq<Seq<u64>> {
    Seq::new(26, |k: int| neighbours@[k].solids_mask.data@)
}

/// The cell of bit `z` of column `(x, y)` for turn `t`: the bit runs along x
/// for turns 0 and 1, along y for 2 and 3, along z for 4 and 5.
pub open spec fn side_cell(t: int, x: u32, y: u32, z: u32) -> (u32, u32, u32) {
    if t < 2 {
        (z, x, y)
    } else if t < 4 {
        (x, z, y)
    } else {
        (x, y, z)
    }
}

/// The sides of column `(x, y)` for turn `t` at the bits `bits`, in their
/// order: one facing `t + 1` for each bit whose cell of `data` holds a voxel,
/// placed at `origin` plus the cell.
pub open spec fn column_sides(
    data: Octree<Voxel>,
    origin: (int, int, int),
    t: int,
    x: int,
    y: int,
    bits: Seq<u32>,
) -> Seq<VoxelSide>
    decreases bits.len(),
{
    if bits.len() == 0 {
        Seq::empty()
    } else {
        let prev = column_sides(data, origin, t, x, y, bits.drop_last());
        let c = side_cell(t, x as u32, y as u32, bits.last());
        match data.at(c.0, c.1, c.2) {
            Some(v) => prev.push(
                VoxelSide::made(
                    ((origin.0 + c.0) as i64, (origin.1 + c.1) as i64, (origin.2 + c.2) as i64),
                    *v._common_data._color,
                    (t + 1) as u8,
                ),
            ),
            None => prev,
        }
    }
}

/// The sides of the first `j` columns, taken turn by turn, then by x, then
/// by y.
pub open spec fn remesh_sides(
    data: Octree<Voxel>,
    origin: (int, int, int),
    own: Seq<u64>,
    nbrs: Seq<Seq<u64>>,
    j: nat,
) -> Seq<VoxelSide>
    decreases j,
{
    if j == 0 {
        Seq::empty()
    } else {
        let k = j - 1;
        let t = k / 4096;
        let x = (k / 64) % 64;
        let y = k % 64;
        remesh_sides(data, origin, own, nbrs, (j - 1) as nat) + column_sides(
            data,
            origin,
            t,
            x,
            y,
            lowest_bits(turn_face_mask(own, nbrs, t, x + 64 * y)),
        )
    }
}

/// Cell `z` of column `i` along axis `axis` is solid in the masks `own`.
pub open spec fn solid_cell(own: Seq<u64>, axis: int, i: int, z: int) -> bool {
    (own[CHUNK_SIZE_X2 * axis + i] >> (z as u64)) & 1u64 == 1u64
}

/// The neighbour of cell `z` of column `i` across the face of turn `t` is
/// solid: toward the column's start (even `t`) the cell `z - 1`, or before the
/// first cell the last one of the column in `nbrs[12]`, `nbrs[4]` or
/// `nbrs[10]`; toward its end (odd `t`) the cell `z + 1`, or past the last
/// cell the first one of the column in `nbrs[13]`, `nbrs[21]` or `nbrs[15]`
/// (for the axes 0, 1 and 2).
pub open spec fn neighbour_solid(own: Seq<u64>, nbrs: Seq<Seq<u64>>, t: int, i: int, z: int) -> bool {
    let axis = t / 2;
    let idx = CHUNK_SIZE_X2 * axis + i;
    let ahead = if axis == 0 { nbrs[13][idx] } else if axis == 1 { nbrs[21][idx] } else { nbrs[15][idx] };
    let behind = if axis == 0 { nbrs[12][idx] } else if axis == 1 { nbrs[4][idx] } else { nbrs[10][idx] };
    if t % 2 == 0 {
        if z == 0 { (behind >> 63u64) & 1u64 == 1u64 } else { solid_cell(own, axis, i, z - 1) }
    } else {
        if z == 63 { ahead & 1u64 == 1u64 } else { solid_cell(own, axis, i, z + 1) }
    }
}

/// Cell `z` of column `i` shows its face of turn `t`: it is solid and its
/// neighbour across that face is not.
pub open spec fn open_face(own: Seq<u64>, nbrs: Seq<Seq<u64>>, t: int, i: int, z: int) -> bool {
    solid_cell(own, t / 2, i, z) && !neighbour_solid(own, nbrs, t, i, z)
}

/// Bit `z` of the face mask of turn `t` is set exactly for an open face.
proof fn lemma_face_mask_bit(own: Seq<u64>, nbrs: Seq<Seq<u64>>, t: int, i: int, z: int)
    requires
        0 <= t < 6,
        0 <= z < 64,
    ensures
        ((turn_face_mask(own, nbrs, t, i) >> (z as u64)) & 1u64 == 1u64) == open_face(own, nbrs, t, i, z),
{
    let axis = t / 2;
    let idx = CHUNK_SIZE_X2 * axis + i;
    let column = own[idx];
    let ahead = if axis == 0 { nbrs[13][idx] } else if axis == 1 { nbrs[21][idx] } else { nbrs[15][idx] };
    let behind = if axis == 0 { nbrs[12][idx] } else if axis == 1 { nbrs[4][idx] } else { nbrs[10][idx] };
    let zz = z as u64;
    if t % 2 == 0 {
        let m = column & !(column << 1u64 | ((behind >> 63u64) & 1u64));
        assert(((m >> zz) & 1u64 == 1u64) == (((column >> zz) & 1u64 == 1u64) && !(if zz == 0 {
            (behind >> 63u64) & 1u64 == 1u64
        } else {
            (column >> ((zz - 1) as u64)) & 1u64 == 1u64
        }))) by (bit_vector)
            requires
                m == column & !(column << 1u64 | ((behind >> 63u64) & 1u64)),
                zz < 64,
        ;
        if z != 0 {
            assert(((z - 1) as u64) == ((zz - 1) as u64));
        }
    } else {
        let m = column & !(column >> 1u64 | ((ahead & 1u64) << 63u64));
        assert(((m >> zz) & 1u64 == 1u64) == (((column >> zz) & 1u64 == 1u64) && !(if zz == 63 {
            ahead & 1u64 == 1u64
        } else {
            (column >> ((zz + 1) as u64)) & 1u64 == 1u64
        }))) by (bit_vector)
            requires
                m == column & !(column >> 1u64 | ((ahead & 1u64) << 63u64)),
                zz < 64,
        ;
    }
}

/// `s` is the side that cell `z` of column `(x, y)` shows for turn `t`: the
/// cell holds a voxel of `data`, and `s` faces `t + 1` in the voxel's color at
/// `origin` plus the cell.
pub open spec fn side_shown(
    data: Octree<Voxel>,
    origin: (int, int, int),
    t: int,
    x: int,
    y: int,
    z: u32,
    s: VoxelSide,
) -> bool {
    let c = side_cell(t, x as u32, y as u32, z);
    match data.at(c.0, c.1, c.2) {
        Some(v) => s == VoxelSide::made(
            ((origin.0 + c.0) as i64, (origin.1 + c.1) as i64, (origin.2 + c.2) as i64),
            *v._common_data._color,
            (t + 1) as u8,
        ),
        None => false,
    }
}

/// The sides that column `k` of the mesher's order adds: turn `k / 4096`,
/// column x `(k / 64) % 64` and column y `k % 64`.
pub open spec fn column_k_sides(
    data: Octree<Voxel>,
    origin: (int, int, int),
    own: Seq<u64>,
    nbrs: Seq<Seq<u64>>,
    k: int,
) -> Seq<VoxelSide> {
    let t = k / 4096;
    let x = (k / 64) % 64;
    let y = k % 64;
    column_sides(data, origin, t, x, y, lowest_bits(turn_face_mask(own, nbrs, t, x + 64 * y)))
}

/// A column lists a side exactly when one of its bits shows it.
proof fn lemma_column_sides_members(
    data: Octree<Voxel>,
    origin: (int, int, int),
    t: int,
    x: int,
    y: int,
    bits: Seq<u32>,
    s: VoxelSide,
)
    ensures
        column_sides(data, origin, t, x, y, bits).contains(s) <==> exists|m: int|
            0 <= m < bits.len() && side_shown(data, origin, t, x, y, #[trigger] bits[m], s),
    decreases bits.len(),
{
    if bits.len() > 0 {
        let pb = bits.drop_last();
        lemma_column_sides_members(data, origin, t, x, y, pb, s);
        let prev = column_sides(data, origin, t, x, y, pb);
        let cur = column_sides(data, origin, t, x, y, bits);
        let last = bits.len() - 1;
        assert(bits.last() == bits[last]);
        if cur.contains(s) {
            let i = choose|i: int| 0 <= i < cur.len() && cur[i] == s;
            if i < prev.len() {
                assert(cur[i] == prev[i]);
                assert(prev.contains(s));
                let m = choose|m: int| 0 <= m < pb.len() && side_shown(data, origin, t, x, y, #[trigger] pb[m], s);
                assert(bits[m] == pb[m]);
            } else {
                assert(side_shown(data, origin, t, x, y, bits[last], s));
            }
        }
        if exists|m: int| 0 <= m < bits.len() && side_shown(data, origin, t, x, y, #[trigger] bits[m], s) {
            let m = choose|m: int| 0 <= m < bits.len() && side_shown(data, origin, t, x, y, #[trigger] bits[m], s);
            if m < last {
                assert(pb[m] == bits[m]);
                assert(prev.contains(s));
                let i = choose|i: int| 0 <= i < prev.len() && prev[i] == s;
                assert(cur[i] == prev[i]);
            } else {
                assert(cur[prev.len() as int] == s);
            }
        }
    }
}

/// The first `j` columns list a side exactly when one of them lists it.
proof fn lemma_remesh_sides_members(
    data: Octree<Voxel>,
    origin: (int, int, int),
    own: Seq<u64>,
    nbrs: Seq<Seq<u64>>,
    j: nat,
    s: VoxelSide,
)
    ensures
        remesh_sides(data, origin, own, nbrs, j).contains(s) <==> exists|k: int|
            0 <= k < j && #[trigger] column_k_sides(data, origin, own, nbrs, k).contains(s),
    decreases j,
{
    if j > 0 {
        let k0 = j - 1;
        lemma_remesh_sides_members(data, origin, own, nbrs, (j - 1) as nat, s);
        let a = remesh_sides(data, origin, own, nbrs, (j - 1) as nat);
        let b = column_k_sides(data, origin, own, nbrs, k0);
        let c = remesh_sides(data, origin, own, nbrs, j);
        assert(c == a + b);
        if c.contains(s) {
            let i = choose|i: int| 0 <= i < c.len() && c[i] == s;
            if i < a.len() {
                assert(c[i] == a[i]);
                assert(a.contains(s));
            } else {
                assert(c[i] == b[i - a.len()]);
                assert(b.contains(s));
            }
        }
        if exists|k: int| 0 <= k < j && #[trigger] column_k_sides(data, origin, own, nbrs, k).contains(s) {
            let k = choose|k: int| 0 <= k < j && #[trigger] column_k_sides(data, origin, own, nbrs, k).contains(s);
            if k < k0 {
                let i = choose|i: int| 0 <= i < a.len() && a[i] == s;
                assert(c[i] == a[i]);
            } else {
                let i = choose|i: int| 0 <= i < b.len() && b[i] == s;
                assert(c[a.len() + i] == b[i]);
            }
        }
    }
}

/// Law: the mesher lists a side exactly when it is the side that a cell of a
/// column shows for a turn: the cell is solid in the masks, its neighbour
/// across the face of the turn is not, and it holds a voxel of the chunk.
pub proof fn law_remesh_lists_open_faces(
    data: Octree<Voxel>,
    origin: (int, int, int),
    own: Seq<u64>,
    nbrs: Seq<Seq<u64>>,
    s: VoxelSide,
)
    ensures
        remesh_sides(data, origin, own, nbrs, 6 * CHUNK_SIZE_X2 as nat).contains(s) <==> exists|t: int, x: int, y: int, z: int|
            0 <= t < 6 && 0 <= x < 64 && 0 <= y < 64 && 0 <= z < 64 && #[trigger] open_face(own, nbrs, t, x + 64 * y, z)
                && side_shown(data, origin, t, x, y, z as u32, s),
{
    lemma_remesh_sides_members(data, origin, own, nbrs, 6 * CHUNK_SIZE_X2 as nat, s);
    if remesh_sides(data, origin, own, nbrs, 6 * CHUNK_SIZE_X2 as nat).contains(s) {
        let k = choose|k: int| 0 <= k < 6 * CHUNK_SIZE_X2 && #[trigger] column_k_sides(data, origin, own, nbrs, k).contains(s);
        let t = k / 4096;
        let x = (k / 64) % 64;
        let y = k % 64;
        let mask = turn_face_mask(own, nbrs, t, x + 64 * y);
        let bits = lowest_bits(mask);
        lemma_column_sides_members(data, origin, t, x, y, bits, s);
        let m = choose|m: int| 0 <= m < bits.len() && side_shown(data, origin, t, x, y, #[trigger] bits[m], s);
        law_lowest_bits_lists_set_bits(mask);
        let z = bits[m] as int;
        assert(bits[m] < 64 && (mask >> (bits[m] as u64)) & 1u64 == 1u64);
        lemma_face_mask_bit(own, nbrs, t, x + 64 * y, z);
        assert(open_face(own, nbrs, t, x + 64 * y, z) && side_shown(data, origin, t, x, y, z as u32, s));
    }
    if exists|t: int, x: int, y: int, z: int|
        0 <= t < 6 && 0 <= x < 64 && 0 <= y < 64 && 0 <= z < 64 && #[trigger] open_face(own, nbrs, t, x + 64 * y, z)
            && side_shown(data, origin, t, x, y, z as u32, s) {
        let (t, x, y, z) = choose|t: int, x: int, y: int, z: int|
            0 <= t < 6 && 0 <= x < 64 && 0 <= y < 64 && 0 <= z < 64 && #[trigger] open_face(own, nbrs, t, x + 64 * y, z)
                && side_shown(data, origin, t, x, y, z as u32, s);
        let k = 4096 * t + 64 * x + y;
        assert(k / 4096 == t && (k / 64) % 64 == x && k % 64 == y) by (nonlinear_arith)
            requires
                k == 4096 * t + 64 * x + y,
                0 <= t < 6,
                0 <= x < 64,
                0 <= y < 64,
        ;
        let mask = turn_face_mask(own, nbrs, t, x + 64 * y);
        let bits = lowest_bits(mask);
        lemma_face_mask_bit(own, nbrs, t, x + 64 * y, z);
        law_lowest_bits_lists_set_bits(mask);
        assert((mask >> (z as u64)) & 1u64 == 1u64);
        assert(bits.contains(z as u32));
        let m = choose|m: int| 0 <= m < bits.len() && bits[m] == z as u32;
        lemma_column_sides_members(data, origin, t, x, y, bits, s);
        assert(side_shown(data, origin, t, x, y, bits[m], s));
        assert(column_k_sides(data, origin, own, nbrs, k).contains(s));
    }
}

/// Law: each side the mesher lists is the face of turn `t` of a solid cell
/// whose neighbour toward the column's start (even `t`) or end (odd `t`) along
/// axis `t / 2` is empty, and it faces direction `t + 1`: turns 0 to 5 give
/// the directions 1 to 6. It sits at `origin` plus the cell and has the color
/// of the cell's voxel; every such face of a cell holding a voxel is listed.
pub proof fn law_remesh_side_facing(
    data: Octree<Voxel>,
    origin: (int, int, int),
    own: Seq<u64>,
    nbrs: Seq<Seq<u64>>,
    s: VoxelSide,
)
    ensures
        remesh_sides(data, origin, own, nbrs, 6 * CHUNK_SIZE_X2 as nat).contains(s) <==> exists|t: int, x: int, y: int, z: int|
            0 <= t < 6 && 0 <= x < 64 && 0 <= y < 64 && 0 <= z < 64 && #[trigger] open_face(own, nbrs, t, x + 64 * y, z)
                && ({
                    let c = side_cell(t, x as u32, y as u32, z as u32);
                    &&& data.at(c.0, c.1, c.2) is Some
                    &&& s.facing() == t + 1
                    &&& s.position() == ((origin.0 + c.0) as i64, (origin.1 + c.1) as i64, (origin.2 + c.2) as i64)
                    &&& s.side_color() == *data.at(c.0, c.1, c.2)->0._common_data._color
                }),
{
    law_remesh_lists_open_faces(data, origin, own, nbrs, s);
    VoxelSide::lemma_fields(s);
    if remesh_sides(data, origin, own, nbrs, 6 * CHUNK_SIZE_X2 as nat).contains(s) {
        let (t, x, y, z) = choose|t: int, x: int, y: int, z: int|
            0 <= t < 6 && 0 <= x < 64 && 0 <= y < 64 && 0 <= z < 64 && #[trigger] open_face(own, nbrs, t, x + 64 * y, z)
                && side_shown(data, origin, t, x, y, z as u32, s);
        let c = side_cell(t, x as u32, y as u32, z as u32);
        let v = data.at(c.0, c.1, c.2)->0;
        VoxelSide::lemma_made(((origin.0 + c.0) as i64, (origin.1 + c.1) as i64, (origin.2 + c.2) as i64),
            *v._common_data._color, (t + 1) as u8);
        assert(open_face(own, nbrs, t, x + 64 * y, z));
    }
    if exists|t: int, x: int, y: int, z: int|
        0 <= t < 6 && 0 <= x < 64 && 0 <= y < 64 && 0 <= z < 64 && #[trigger] open_face(own, nbrs, t, x + 64 * y, z)
            && ({
                let c = side_cell(t, x as u32, y as u32, z as u32);
                &&& data.at(c.0, c.1, c.2) is Some
                &&& s.facing() == t + 1
                &&& s.position() == ((origin.0 + c.0) as i64, (origin.1 + c.1) as i64, (origin.2 + c.2) as i64)
                &&& s.side_color() == *data.at(c.0, c.1, c.2)->0._common_data._color
            }) {
        let (t, x, y, z) = choose|t: int, x: int, y: int, z: int|
            0 <= t < 6 && 0 <= x < 64 && 0 <= y < 64 && 0 <= z < 64 && #[trigger] open_face(own, nbrs, t, x + 64 * y, z)
                && ({
                    let c = side_cell(t, x as u32, y as u32, z as u32);
                    &&& data.at(c.0, c.1, c.2) is Some
                    &&& s.facing() == t + 1
                    &&& s.position() == ((origin.0 + c.0) as i64, (origin.1 + c.1) as i64, (origin.2 + c.2) as i64)
                    &&& s.side_color() == *data.at(c.0, c.1, c.2)->0._common_data._color
                });
        assert(side_shown(data, origin, t, x, y, z as u32, s));
    }
}

/// A chunk of the world: its voxels, its solid cells and the sides it shows.
pub struct WorldChunk {
    pub state: WorldChunkState,
    pub data: Octree<Voxel>,
    pub renderables: Vec<VoxelSide>,
    pub solids_mask: ChunkBitmask,
}

impl WorldChunk {
    /// Lists the sides the chunk shows, for the chunk at grid position
    /// `offset` among its 26 `neighbours`: for each turn, column x and column
    /// y, the cells of the face mask (`turn_face_mask`) from the lowest up that
    /// hold a voxel, at `64 offset` plus the cell. The chunk is then fully
    /// simulable; one that was already is left as it is and `false` returned.
    pub fn remesh(&mut self, offset: GridPosition, neighbours: [&WorldChunk; 26]) -> (r: bool)
        requires
            !(old(self).state is FullySimulable) ==> ({
                &&& old(self).data.max_depth() <= 32
                &&& old(self).solids_mask.data@.len() >= 3 * CHUNK_SIZE_X2
                &&& forall|k: int| 0 <= k < 26 ==> #[trigger] neighbours@[k].solids_mask.data@.len() >= 3
                    * CHUNK_SIZE_X2
                &&& i64::MIN <= offset.0 * 64 && offset.0 * 64 + 63 <= i64::MAX
                &&& i64::MIN <= offset.1 * 64 && offset.1 * 64 + 63 <= i64::MAX
                &&& i64::MIN <= offset.2 * 64 && offset.2 * 64 + 63 <= i64::MAX
            }),
        ensures
            old(self).state is FullySimulable ==> !r && *final(self) == *old(self),
            !(old(self).state is FullySimulable) ==> ({
                &&& r
                &&& final(self).state is FullySimulable
                &&& final(self).data == old(self).data
                &&& final(self).solids_mask == old(self).solids_mask
                &&& final(self).renderables@ == remesh_sides(
                    old(self).data,
                    (offset.0 * 64, offset.1 * 64, offset.2 * 64),
                    old(self).solids_mask.data@,
                    masks_of(neighbours),
                    6 * CHUNK_SIZE_X2 as nat,
                )
            }),
    {
        if matches!(self.state, WorldChunkState::Calculable) {
            let center_x = offset.0 + CHUNK_SIZE as i64 / 2;
            let center_y = offset.0 + CHUNK_SIZE as i64 / 2;
            let center_z = offset.0 + CHUNK_SIZE as i64 / 2;
            let red = Color { red: 255, green: 0, blue: 0 };

            self.renderables = vec![
                VoxelSide::new((center_x, center_y, center_z), red, 4),
                VoxelSide::new((center_x, center_y + 10, center_z), red, 4),
                VoxelSide::new((center_x, center_y + 20, center_z), red, 4),
                VoxelSide::new((center_x, center_y + 30, center_z), red, 4),
                VoxelSide::new((center_x, center_y + 40, center_z), red, 4),
                VoxelSide::new((center_x, center_y + 50, center_z), red, 4),
                VoxelSide::new((center_x, center_y + 60, center_z), red, 4),
            ];
        }
        if matches!(self.state, WorldChunkState::FullySimulable) {
            return false;
        }
        let ghost own = self.solids_mask.data@;
        let ghost nbrs = masks_of(neighbours);
        let ghost origin = (offset.0 * 64, offset.1 * 64, offset.2 * 64);

        let mut offset = offset;
        offset.0 = offset.0 * CHUNK_SIZE as i64;
        offset.1 = offset.1 * CHUNK_SIZE as i64;
        offset.2 = offset.2 * CHUNK_SIZE as i64;

        let mut renderables: Vec<VoxelSide> = Vec::new();
        let mut col_face_masks: Vec<u64> = vec![0; CHUNK_SIZE_X3 * 2];
        let neighbour_shift = (CHUNK_SIZE - 1) as u64;
        let axies_neighbours = [
            (neighbours[13], neighbours[12]),
            (neighbours[21], neighbours[4]),
            (neighbours[15], neighbours[10]),
        ];

        let mut axis: usize = 0;
        while axis < 3
            invariant
                axis <= 3,
                own == self.solids_mask.data@,
                nbrs == masks_of(neighbours),
                own.len() >= 3 * CHUNK_SIZE_X2,
                forall|k: int| 0 <= k < 26 ==> #[trigger] neighbours@[k].solids_mask.data@.len() >= 3 * CHUNK_SIZE_X2,
                neighbour_shift == 63,
                axies_neighbours@ == seq![
                    (neighbours@[13], neighbours@[12]),
                    (neighbours@[21], neighbours@[4]),
                    (neighbours@[15], neighbours@[10]),
                ],
                col_face_masks@.len() == 2 * CHUNK_SIZE_X3,
                forall|t: int, c: int| 0 <= t < 6 && 0 <= c < CHUNK_SIZE_X2 && t / 2 < axis
                    ==> #[trigger] col_face_masks@[CHUNK_SIZE_X2 * t + c] == turn_face_mask(own, nbrs, t, c),
            decreases 3 - axis,
        {
            let mut i: usize = 0;
            while i < CHUNK_SIZE_X2
                invariant
                    axis < 3,
                    i <= CHUNK_SIZE_X2,
                    own == self.solids_mask.data@,
                    nbrs == masks_of(neighbours),
                    own.len() >= 3 * CHUNK_SIZE_X2,
                    forall|k: int| 0 <= k < 26 ==> #[trigger] neighbours@[k].solids_mask.data@.len() >= 3 * CHUNK_SIZE_X2,
                    neighbour_shift == 63,
                    axies_neighbours@ == seq![
                        (neighbours@[13], neighbours@[12]),
                        (neighbours@[21], neighbours@[4]),
                        (neighbours@[15], neighbours@[10]),
                    ],
                    col_face_masks@.len() == 2 * CHUNK_SIZE_X3,
                    forall|t: int, c: int| 0 <= t < 6 && 0 <= c < CHUNK_SIZE_X2 && (t / 2 < axis || (t / 2 == axis && c < i))
                        ==> #[trigger] col_face_masks@[CHUNK_SIZE_X2 * t + c] == turn_face_mask(own, nbrs, t, c),
                decreases CHUNK_SIZE_X2 - i,
            {
                let index = CHUNK_SIZE_X2 * axis + i;
                let column = self.solids_mask.data[index];

                let neighbour_a_shift = (axies_neighbours[axis].0.solids_mask.data[index] & 1) << neighbour_shift;
                let neighbour_b_shift = (axies_neighbours[axis].1.solids_mask.data[index] >> neighbour_shift) & 1;

                col_face_masks.set(CHUNK_SIZE_X2 * (axis * 2) + i, column & !(column << 1u64 | neighbour_b_shift));
                col_face_masks.set(CHUNK_SIZE_X2 * (axis * 2 + 1) + i, column & !(column >> 1u64 | neighbour_a_shift));
                proof {
                    assert(turn_face_mask(own, nbrs, 2 * axis, i as int) == column & !(column << 1u64 | neighbour_b_shift));
                    assert(turn_face_mask(own, nbrs, 2 * axis + 1, i as int) == column & !(column >> 1u64 | neighbour_a_shift));
                }
                i = i + 1;
            }
            axis = axis + 1;
        }
        let mut axis_turn: usize = 0;
        while axis_turn < 6
            invariant
                axis_turn <= 6,
                own == old(self).solids_mask.data@,
                self.data == old(self).data,
                self.data.max_depth() <= 32,
                origin == (offset.0 as int, offset.1 as int, offset.2 as int),
                i64::MIN <= offset.0 && offset.0 + 63 <= i64::MAX,
                i64::MIN <= offset.1 && offset.1 + 63 <= i64::MAX,
                i64::MIN <= offset.2 && offset.2 + 63 <= i64::MAX,
                col_face_masks@.len() == 2 * CHUNK_SIZE_X3,
                forall|t: int, c: int| 0 <= t < 6 && 0 <= c < CHUNK_SIZE_X2
                    ==> #[trigger] col_face_masks@[CHUNK_SIZE_X2 * t + c] == turn_face_mask(own, nbrs, t, c),
                renderables@ == remesh_sides(self.data, origin, own, nbrs, (CHUNK_SIZE_X2 * axis_turn) as nat),
            decreases 6 - axis_turn,
        {
            let mut x: usize = 0;
            while x < CHUNK_SIZE
                invariant
                    axis_turn < 6,
                    x <= CHUNK_SIZE,
                    own == old(self).solids_mask.data@,
                    self.data == old(self).data,
                    self.data.max_depth() <= 32,
                    origin == (offset.0 as int, offset.1 as int, offset.2 as int),
                    i64::MIN <= offset.0 && offset.0 + 63 <= i64::MAX,
                    i64::MIN <= offset.1 && offset.1 + 63 <= i64::MAX,
                    i64::MIN <= offset.2 && offset.2 + 63 <= i64::MAX,
                    col_face_masks@.len() == 2 * CHUNK_SIZE_X3,
                    forall|t: int, c: int| 0 <= t < 6 && 0 <= c < CHUNK_SIZE_X2
                        ==> #[trigger] col_face_masks@[CHUNK_SIZE_X2 * t + c] == turn_face_mask(own, nbrs, t, c),
                    renderables@ == remesh_sides(self.data, origin, own, nbrs, (CHUNK_SIZE_X2 * axis_turn + CHUNK_SIZE * x) as nat),
                decreases CHUNK_SIZE - x,
            {
                let mut y: usize = 0;
                while y < CHUNK_SIZE
                    invariant
                        axis_turn < 6,
                        x < CHUNK_SIZE,
                        y <= CHUNK_SIZE,
                        own == old(self).solids_mask.data@,
                        self.data == old(self).data,
                        self.data.max_depth() <= 32,
                        origin == (offset.0 as int, offset.1 as int, offset.2 as int),
                        i64::MIN <= offset.0 && offset.0 + 63 <= i64::MAX,
                        i64::MIN <= offset.1 && offset.1 + 63 <= i64::MAX,
                        i64::MIN <= offset.2 && offset.2 + 63 <= i64::MAX,
                        col_face_masks@.len() == 2 * CHUNK_SIZE_X3,
                        forall|t: int, c: int| 0 <= t < 6 && 0 <= c < CHUNK_SIZE_X2
                            ==> #[trigger] col_face_masks@[CHUNK_SIZE_X2 * t + c] == turn_face_mask(own, nbrs, t, c),
                        renderables@ == remesh_sides(self.data, origin, own, nbrs, (CHUNK_SIZE_X2 * axis_turn + CHUNK_SIZE * x + y) as nat),
                    decreases CHUNK_SIZE - y,
                {
                    proof {
                        assert(y * CHUNK_SIZE == 64 * y && CHUNK_SIZE_X2 * axis_turn == 4096 * axis_turn);
                    }
                    let column_index = x + y * CHUNK_SIZE + CHUNK_SIZE_X2 * axis_turn;
                    let mut num = col_face_masks[column_index];
                    let ghost t = axis_turn as int;
                    let ghost j = (CHUNK_SIZE_X2 * axis_turn + CHUNK_SIZE * x + y) as nat;
                    let ghost before = renderables@;
                    let ghost bits = lowest_bits(num);
                    let ghost mut done: Seq<u32> = Seq::empty();
                    proof {
                        assert(column_index == CHUNK_SIZE_X2 * t + (x + 64 * y));
                        assert(num == turn_face_mask(own, nbrs, t, x + 64 * y));
                        assert(done + lowest_bits(num) =~= bits);
                    }

                    while num != 0
                        invariant
                            axis_turn < 6,
                            x < CHUNK_SIZE,
                            y < CHUNK_SIZE,
                            t == axis_turn,
                            self.data == old(self).data,
                            self.data.max_depth() <= 32,
                            origin == (offset.0 as int, offset.1 as int, offset.2 as int),
                            i64::MIN <= offset.0 && offset.0 + 63 <= i64::MAX,
                            i64::MIN <= offset.1 && offset.1 + 63 <= i64::MAX,
                            i64::MIN <= offset.2 && offset.2 + 63 <= i64::MAX,
                            bits == done + lowest_bits(num),
                            renderables@ == before + column_sides(self.data, origin, t, x as int, y as int, done),
                        decreases num,
                    {
                        let z = num.trailing_zeros();
                        proof {
                            vstd::std_specs::bits::axiom_u64_trailing_zeros(num);
                        }

                        let voxel_pos = match axis_turn {
                            0 | 1 => (z, x as u32, y as u32),
                            2 | 3 => (x as u32, z, y as u32),
                            _ => (x as u32, y as u32, z),
                        };
                        let ghost done_before = done;

                        if let Some(voxel) = self.data.get(voxel_pos.0, voxel_pos.1, voxel_pos.2) {
                            renderables.push(VoxelSide::from_voxel_rc(
                                offset.0 + voxel_pos.0 as i64,
                                offset.1 + voxel_pos.1 as i64,
                                offset.2 + voxel_pos.2 as i64,
                                axis_turn as u8 + 1,
                                &voxel,
                            ));
                        }
                        proof {
                            done = done.push(z);
                            assert(done.drop_last() =~= done_before);
                            assert(lowest_bits(num) == seq![z] + lowest_bits(num & ((num - 1) as u64)));
                            assert(bits =~= done + lowest_bits(num & ((num - 1) as u64)));
                            assert(num & ((num - 1) as u64) < num) by (bit_vector)
                                requires
                                    num != 0,
                            ;
                        }
                        num &= num - 1;
                    }
                    proof {
                        assert(done =~= bits);
                        lemma_column_order(t, x as int, y as int);
                    }
                    y = y + 1;
                }
                x = x + 1;
            }
            assert(CHUNK_SIZE_X2 * axis_turn + CHUNK_SIZE * x == CHUNK_SIZE_X2 * (axis_turn + 1)) by {
                assert(CHUNK_SIZE == 64 && CHUNK_SIZE_X2 == 4096 && x == 64);
            }
            axis_turn = axis_turn + 1;
        }
        self.renderables = renderables;
        self.state = WorldChunkState::FullySimulable;

        true
    }
}

/// The quotient of the Euclidean division of `v` by a positive `d`, the one
/// that leaves a remainder from 0 up to `d`.
fn div_euclid_i64(v: i64, d: i64) -> (r: i64)
    requires
        d > 0,
    ensures
        r == v as int / d as int,
{
    proof {
        if v >= 0 {
            vstd::arithmetic::div_mod::lemma_div_is_ordered_by_denominator(v as int, 1, d as int);
            vstd::arithmetic::div_mod::lemma_div_pos_is_pos(v as int, d as int);
        } else {
            vstd::arithmetic::div_mod::lemma_fundamental_div_mod(v as int, d as int);
            assert(v as int / d as int >= v as int) by (nonlinear_arith)
                requires
                    v < 0,
                    d > 0,
                    v == d * (v / d) + v % d,
                    0 <= v % d < d,
            ;
            assert(v as int / d as int <= 0) by (nonlinear_arith)
                requires
                    v < 0,
                    d > 0,
                    v == d * (v / d) + v % d,
                    0 <= v % d < d,
            ;
        }
    }
    v.checked_div_euclid(d).unwrap()
}

impl WorldChunk {
    /// The grid position of the chunk that holds the cell `world_position`:
    /// each coordinate divided by the chunk edge, rounded down.
    pub fn get_chunk_position_from_world_position(world_position: (i64, i64, i64)) -> (r: GridPosition)
        ensures
            r.0 == world_position.0 as int / 64,
            r.1 == world_position.1 as int / 64,
            r.2 == world_position.2 as int / 64,
    {
        let chunk_size = CHUNK_SIZE as i64;

        (
            div_euclid_i64(world_position.0, chunk_size),
            div_euclid_i64(world_position.1, chunk_size),
            div_euclid_i64(world_position.2, chunk_size),
        )
    }
}

/// Column `(x, y)` of turn `t` is the column `4096 t + 64 x + y` in the
/// order turn, x, y.
proof fn lemma_column_order(t: int, x: int, y: int)
    requires
        0 <= t,
        0 <= x < 64,
        0 <= y < 64,
    ensures
        (4096 * t + 64 * x + y) / 4096 == t,
        ((4096 * t + 64 * x + y) / 64) % 64 == x,
        (4096 * t + 64 * x + y) % 64 == y,
{
    let k = 4096 * t + 64 * x + y;
    vstd::arithmetic::div_mod::lemma_fundamental_div_mod_converse(k, 4096, t, 64 * x + y);
    vstd::arithmetic::div_mod::lemma_fundamental_div_mod_converse(k, 64, 64 * t + x, y);
    vstd::arithmetic::div_mod::lemma_fundamental_div_mod_converse(64 * t + x, 64, t, x);
}

} // verus!
