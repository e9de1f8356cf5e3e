use std::collections::{HashSet, VecDeque};
use std::rc::Rc;
use vstd::prelude::*;
use vstd::arithmetic::power2::pow2;

use super::{bit, child_index_of, contains_point, lemma_half_bit, get_child_index, get_child_offset, Direction, Octree, OctreeNode};
use crate::rc_util::clone_value;
use crate::structure_tests::voxel_hasher::{key_of, position_key};
use crate::world::world_holder::{Color, Voxel, VoxelSide};

verus! {

broadcast use vstd::std_specs::hash::group_hash_axioms;

/// A cell that the flood still has to look at: the cell, the depth (from the
/// root) of the cube it was reached from, the direction it was reached in
/// (0 for the starting cell) and the edge of that cube.
#[derive(Clone, Copy)]
struct FloodPoint {
    coords: (u32, u32, u32),
    depth: u8,
    check_dir: u8,
    source_size: u32,
}

/// `5^n`.
spec fn five_pow(n: nat) -> nat
    decreases n,
{
    if n == 0 {
        1
    } else {
        5 * five_pow((n - 1) as nat)
    }
}

proof fn lemma_five_pow_pos(n: nat)
    ensures
        five_pow(n) >= 1,
    decreases n,
{
    if n > 0 {
        lemma_five_pow_pos((n - 1) as nat);
    }
}

/// What a point weighs in a tree of reversed depth `d`: splitting it gives
/// four points that weigh less together.
spec fn point_weight(p: FloodPoint, d: nat) -> nat {
    five_pow((d + 1 - p.depth) as nat)
}

/// What the points still to look at weigh together.
spec fn queue_weight(s: Seq<FloodPoint>, d: nat) -> nat
    decreases s.len(),
{
    if s.len() == 0 {
        0
    } else {
        point_weight(s[0], d) + queue_weight(s.drop_first(), d)
    }
}

proof fn lemma_queue_weight_push_front(s: Seq<FloodPoint>, p: FloodPoint, d: nat)
    ensures
        queue_weight(seq![p] + s, d) == queue_weight(s, d) + point_weight(p, d),
{
    assert((seq![p] + s).drop_first() =~= s);
}

/// A point the flood can hold: its cube lies above the bottom of the tree, it
/// was reached in a direction 0 to 6 (0 only at the starting depth), and its
/// cell and edge are small.
spec fn point_ok(p: FloodPoint, d: nat) -> bool {
    &&& p.depth <= d
    &&& p.check_dir <= 6
    &&& p.check_dir == 0 ==> p.depth == d
    &&& p.source_size <= 0x2000_0000
    &&& p.coords.0 < 0x4000_0000
    &&& p.coords.1 < 0x4000_0000
    &&& p.coords.2 < 0x4000_0000
}

/// The color a voxel shows.
pub open spec fn voxel_color(v: Rc<Voxel>) -> Color {
    *v._common_data._color
}

/// The key under which a side is remembered: its cell, 32 bits per axis, and
/// the direction it faces above them.
spec fn side_key(s: VoxelSide) -> u128 {
    (s.position().0 + s.position().1 * 0x1_0000_0000 + s.position().2 * 0x1_0000_0000_0000_0000 + s.facing()
        * 0x1_0000_0000_0000_0000_0000_0000) as u128
}

/// The cell of `s` lies within 32 bits per axis.
spec fn side_in_range(s: VoxelSide) -> bool {
    &&& 0 <= s.position().0 < 0x1_0000_0000
    &&& 0 <= s.position().1 < 0x1_0000_0000
    &&& 0 <= s.position().2 < 0x1_0000_0000
}

/// Sides found so far: each one shows a voxel of `t` and has its cell within
/// 32 bits per axis, the remembered keys are those of the sides, and no two
/// sides share a key.
spec fn sides_ok(t: Octree<Voxel>, sides: Seq<VoxelSide>, keys: Set<u128>) -> bool {
    &&& forall|i: int| 0 <= i < sides.len() ==> t.shows_side(#[trigger] sides[i])
    &&& forall|i: int| 0 <= i < sides.len() ==> side_in_range(#[trigger] sides[i])
    &&& forall|i: int| 0 <= i < sides.len() ==> keys.contains(side_key(#[trigger] sides[i]))
    &&& forall|k: u128| keys.contains(k) ==> exists|i: int| 0 <= i < sides.len() && side_key(#[trigger] sides[i]) == k
    &&& forall|i: int, j: int| 0 <= i < j < sides.len() ==> side_key(#[trigger] sides[i]) != side_key(#[trigger] sides[j])
}

/// Equal sums of four parts below `2^32`, weighted by powers of `2^32`, have
/// equal parts.
proof fn lemma_key_parts(a0: int, a1: int, a2: int, a3: int, b0: int, b1: int, b2: int, b3: int)
    requires
        0 <= a0 < 0x1_0000_0000,
        0 <= a1 < 0x1_0000_0000,
        0 <= a2 < 0x1_0000_0000,
        0 <= a3 < 0x1_0000_0000,
        0 <= b0 < 0x1_0000_0000,
        0 <= b1 < 0x1_0000_0000,
        0 <= b2 < 0x1_0000_0000,
        0 <= b3 < 0x1_0000_0000,
        a0 + a1 * 0x1_0000_0000 + a2 * 0x1_0000_0000_0000_0000 + a3 * 0x1_0000_0000_0000_0000_0000_0000 == b0 + b1
            * 0x1_0000_0000 + b2 * 0x1_0000_0000_0000_0000 + b3 * 0x1_0000_0000_0000_0000_0000_0000,
    ensures
        a0 == b0 && a1 == b1 && a2 == b2 && a3 == b3,
{
    let w = 0x1_0000_0000int;
    let ta = a1 + a2 * w + a3 * w * w;
    let tb = b1 + b2 * w + b3 * w * w;
    assert(a0 + ta * w == b0 + tb * w);
    vstd::arithmetic::div_mod::lemma_fundamental_div_mod_converse(a0 + ta * w, w, ta, a0);
    vstd::arithmetic::div_mod::lemma_fundamental_div_mod_converse(b0 + tb * w, w, tb, b0);
    let ua = a2 + a3 * w;
    let ub = b2 + b3 * w;
    vstd::arithmetic::div_mod::lemma_fundamental_div_mod_converse(ta, w, ua, a1);
    vstd::arithmetic::div_mod::lemma_fundamental_div_mod_converse(tb, w, ub, b1);
    vstd::arithmetic::div_mod::lemma_fundamental_div_mod_converse(ua, w, a3, a2);
    vstd::arithmetic::div_mod::lemma_fundamental_div_mod_converse(ub, w, b3, b2);
}

impl Octree<Voxel> {
    /// `s` faces one of the six directions and has the color of a voxel that
    /// the tree holds.
    pub open spec fn shows_side(self, s: VoxelSide) -> bool {
        &&& 1 <= s.facing() <= 6
        &&& exists|q: (u32, u32, u32)| #[trigger] self.at(q.0, q.1, q.2) is Some && s.side_color() == voxel_color(self.at(q.0, q.1, q.2)->0)
    }
}

/// The key of the side of `cell` facing `facing`.
spec fn cell_side_key(cell: (u32, u32, u32), facing: u8) -> u128 {
    (cell.0 + cell.1 * 0x1_0000_0000 + cell.2 * 0x1_0000_0000_0000_0000 + facing * 0x1_0000_0000_0000_0000_0000_0000) as u128
}

/// The side of `cell` facing `facing` in the color of `data`.
spec fn cell_side(cell: (u32, u32, u32), facing: u8, data: Rc<Voxel>) -> VoxelSide {
    VoxelSide::made((cell.0 as i64, cell.1 as i64, cell.2 as i64), voxel_color(data), facing)
}

/// Records the side of `cell` facing `facing` in the color of `data`, unless a
/// side with that cell and facing is recorded already.
fn add_side(
    t: &Octree<Voxel>,
    result: &mut Vec<VoxelSide>,
    keys: &mut HashSet<u128>,
    cell: (u32, u32, u32),
    facing: u8,
    data: &Rc<Voxel>,
    Ghost(source): Ghost<(u32, u32, u32)>,
)
    requires
        sides_ok(*t, old(result)@, old(keys)@),
        1 <= facing <= 6,
        t.at(source.0, source.1, source.2) == Some(*data),
    ensures
        sides_ok(*t, final(result)@, final(keys)@),
        final(keys)@ == old(keys)@.insert(cell_side_key(cell, facing)),
        old(keys)@.contains(cell_side_key(cell, facing)) ==> final(result)@ == old(result)@,
        !old(keys)@.contains(cell_side_key(cell, facing)) ==> final(result)@ == old(result)@.push(
            cell_side(cell, facing, *data),
        ),
{
    let key = key_of(cell.0, cell.1, cell.2) + (facing as u128) * 0x1_0000_0000_0000_0000_0000_0000;
    assert(key == cell_side_key(cell, facing));
    if !keys.contains(&key) {
        let side = VoxelSide::from_voxel_rc(cell.0 as i64, cell.1 as i64, cell.2 as i64, facing, data);
        proof {
            VoxelSide::lemma_made((cell.0 as i64, cell.1 as i64, cell.2 as i64), voxel_color(*data), facing);
            assert(side_key(side) == key);
            assert(t.at(source.0, source.1, source.2) is Some);
        }
        keys.insert(key);
        result.push(side);
        proof {
            let r = result@;
            assert forall|i: int| 0 <= i < r.len() implies t.shows_side(#[trigger] r[i]) && side_in_range(r[i]) by {
                if i == r.len() - 1 {
                    assert(r[i] == side);
                } else {
                    assert(r[i] == old(result)@[i]);
                }
            }
            assert forall|k: u128| keys@.contains(k) implies exists|i: int| 0 <= i < r.len() && side_key(#[trigger] r[i]) == k by {
                if k == key {
                    assert(side_key(r[r.len() - 1]) == k);
                } else {
                    let i = choose|i: int| 0 <= i < old(result)@.len() && side_key(#[trigger] old(result)@[i]) == k;
                    assert(r[i] == old(result)@[i]);
                }
            }
            assert forall|i: int, j: int| 0 <= i < j < r.len() implies side_key(#[trigger] r[i]) != side_key(#[trigger] r[j]) by {
                if j == r.len() - 1 {
                    assert(r[i] == old(result)@[i]);
                } else {
                    assert(r[i] == old(result)@[i]);
                    assert(r[j] == old(result)@[j]);
                }
            }
        }
    } else {
        assert(keys@ =~= old(keys)@.insert(key));
    }
}

/// Cell `(i, j)` of the square at `fixed` on `axis` that starts at `a0` and
/// `b0` on the other two axes.
spec fn square_cell(axis: u8, fixed: u32, a0: u32, b0: u32, i: u32, j: u32) -> (u32, u32, u32) {
    if axis == 0 {
        (fixed, (a0 + i) as u32, (b0 + j) as u32)
    } else if axis == 1 {
        ((a0 + i) as u32, fixed, (b0 + j) as u32)
    } else {
        ((a0 + i) as u32, (b0 + j) as u32, fixed)
    }
}

/// The key of the side of cell `(i, j)` of a square.
spec fn square_key(axis: u8, fixed: u32, a0: u32, b0: u32, facing: u8, i: u32, j: u32) -> u128 {
    cell_side_key(square_cell(axis, fixed, a0, b0, i, j), facing)
}

/// `keys` are `before` with the keys of the square cells `(i', j')` with
/// `i' < i` (all rows of width `size`) or `i' == i` and `j' < j`.
spec fn square_keys_so_far(
    keys: Set<u128>,
    before: Set<u128>,
    axis: u8,
    fixed: u32,
    a0: u32,
    b0: u32,
    facing: u8,
    size: u32,
    i: u32,
    j: u32,
) -> bool {
    forall|k: u128|
        keys.contains(k) <==> before.contains(k) || exists|i2: u32, j2: u32|
            (i2 < i && j2 < size || i2 == i && j2 < j) && k == #[trigger] square_key(axis, fixed, a0, b0, facing, i2, j2)
}

/// `sides` are `before` followed by sides of cells of the square, in `data`'s
/// color and facing `facing`.
spec fn square_sides_so_far(
    sides: Seq<VoxelSide>,
    before: Seq<VoxelSide>,
    axis: u8,
    fixed: u32,
    a0: u32,
    b0: u32,
    facing: u8,
    size: u32,
    data: Rc<Voxel>,
) -> bool {
    &&& before.len() <= sides.len()
    &&& forall|n: int| 0 <= n < before.len() ==> #[trigger] sides[n] == before[n]
    &&& forall|n: int|
        before.len() <= n < sides.len() ==> exists|i2: u32, j2: u32|
            i2 < size && j2 < size && #[trigger] sides[n] == cell_side(
                square_cell(axis, fixed, a0, b0, i2, j2),
                facing,
                data,
            )
}

/// Records the sides of the square of cells that starts at `a0` and `b0` on
/// the two axes other than `axis` (0 for x, 1 for y, 2 for z), is `size`
/// cells wide and lies at `fixed` on `axis`; the first of the two axes
/// changes slowest. A side whose cell and facing are recorded already is not
/// recorded again.
fn add_square(
    t: &Octree<Voxel>,
    result: &mut Vec<VoxelSide>,
    keys: &mut HashSet<u128>,
    axis: u8,
    fixed: u32,
    a0: u32,
    b0: u32,
    size: u32,
    facing: u8,
    data: &Rc<Voxel>,
    Ghost(source): Ghost<(u32, u32, u32)>,
)
    requires
        sides_ok(*t, old(result)@, old(keys)@),
        1 <= facing <= 6,
        t.at(source.0, source.1, source.2) == Some(*data),
        a0 < 0x4000_0000,
        b0 < 0x4000_0000,
        size <= 0x2000_0000,
    ensures
        sides_ok(*t, final(result)@, final(keys)@),
        square_keys_so_far(final(keys)@, old(keys)@, axis, fixed, a0, b0, facing, size, size, 0),
        square_sides_so_far(final(result)@, old(result)@, axis, fixed, a0, b0, facing, size, *data),
{
    let mut i: u32 = 0;
    while i < size
        invariant
            sides_ok(*t, result@, keys@),
            1 <= facing <= 6,
            t.at(source.0, source.1, source.2) == Some(*data),
            a0 < 0x4000_0000,
            b0 < 0x4000_0000,
            size <= 0x2000_0000,
            i <= size,
            square_keys_so_far(keys@, old(keys)@, axis, fixed, a0, b0, facing, size, i, 0),
            square_sides_so_far(result@, old(result)@, axis, fixed, a0, b0, facing, size, *data),
        decreases size - i,
    {
        let mut j: u32 = 0;
        while j < size
            invariant
                sides_ok(*t, result@, keys@),
                1 <= facing <= 6,
                t.at(source.0, source.1, source.2) == Some(*data),
                a0 < 0x4000_0000,
                b0 < 0x4000_0000,
                size <= 0x2000_0000,
                i < size,
                j <= size,
                square_keys_so_far(keys@, old(keys)@, axis, fixed, a0, b0, facing, size, i, j),
                square_sides_so_far(result@, old(result)@, axis, fixed, a0, b0, facing, size, *data),
            decreases size - j,
        {
            let cell = if axis == 0 {
                (fixed, a0 + i, b0 + j)
            } else if axis == 1 {
                (a0 + i, fixed, b0 + j)
            } else {
                (a0 + i, b0 + j, fixed)
            };
            assert(cell == square_cell(axis, fixed, a0, b0, i, j));
            let ghost keys_before = keys@;
            let ghost sides_before = result@;
            add_side(t, result, keys, cell, facing, data, Ghost(source));
            proof {
                let kn = square_key(axis, fixed, a0, b0, facing, i, j);
                assert forall|k: u128|
                    keys@.contains(k) <==> old(keys)@.contains(k) || exists|i2: u32, j2: u32|
                        (i2 < i && j2 < size || i2 == i && j2 < j + 1) && k == #[trigger] square_key(
                            axis,
                            fixed,
                            a0,
                            b0,
                            facing,
                            i2,
                            j2,
                        ) by {
                    if k == kn {
                        assert((i < i && j < size || i == i && j < j + 1) && k == square_key(axis, fixed, a0, b0, facing, i, j));
                    } else if keys_before.contains(k) {
                    } else {
                        assert(!keys@.contains(k));
                        if exists|i2: u32, j2: u32|
                            (i2 < i && j2 < size || i2 == i && j2 < j + 1) && k == #[trigger] square_key(axis, fixed, a0, b0, facing, i2, j2) {
                            let (i2, j2) = choose|i2: u32, j2: u32|
                                (i2 < i && j2 < size || i2 == i && j2 < j + 1) && k == #[trigger] square_key(axis, fixed, a0, b0, facing, i2, j2);
                            assert(i2 < i && j2 < size || i2 == i && j2 < j);
                        }
                    }
                }
                assert forall|n: int| old(result)@.len() <= n < result@.len() implies exists|i2: u32, j2: u32|
                    i2 < size && j2 < size && #[trigger] result@[n] == cell_side(square_cell(axis, fixed, a0, b0, i2, j2), facing, *data) by {
                    if n < sides_before.len() {
                        assert(result@[n] == sides_before[n]);
                    } else {
                        assert(result@[n] == cell_side(square_cell(axis, fixed, a0, b0, i, j), facing, *data));
                    }
                }
                assert forall|n: int| 0 <= n < old(result)@.len() implies #[trigger] result@[n] == old(result)@[n] by {
                    assert(result@[n] == sides_before[n]);
                }
            }
            j = j + 1;
        }
        proof {
            assert forall|k: u128|
                keys@.contains(k) <==> old(keys)@.contains(k) || exists|i2: u32, j2: u32|
                    (i2 < i + 1 && j2 < size || i2 == i + 1 && j2 < 0) && k == #[trigger] square_key(axis, fixed, a0, b0, facing, i2, j2) by {
                if exists|i2: u32, j2: u32|
                    (i2 < i + 1 && j2 < size || i2 == i + 1 && j2 < 0) && k == #[trigger] square_key(axis, fixed, a0, b0, facing, i2, j2) {
                    let (i2, j2) = choose|i2: u32, j2: u32|
                        (i2 < i + 1 && j2 < size || i2 == i + 1 && j2 < 0) && k == #[trigger] square_key(axis, fixed, a0, b0, facing, i2, j2);
                    assert(i2 < i && j2 < size || i2 == i && j2 < size);
                }
                if exists|i2: u32, j2: u32|
                    (i2 < i && j2 < size || i2 == i && j2 < size) && k == #[trigger] square_key(axis, fixed, a0, b0, facing, i2, j2) {
                    let (i2, j2) = choose|i2: u32, j2: u32|
                        (i2 < i && j2 < size || i2 == i && j2 < size) && k == #[trigger] square_key(axis, fixed, a0, b0, facing, i2, j2);
                    assert(i2 < i + 1 && j2 < size || i2 == i + 1 && j2 < 0);
                }
            }
        }
        i = i + 1;
    }
}

/// Remembers the cell `cell`.
fn remember(memory: &mut HashSet<u128>, cell: (u32, u32, u32))
    requires
        old(memory)@.finite(),
    ensures
        final(memory)@ == old(memory)@.insert(position_key(cell)),
        final(memory)@.finite(),
        old(memory)@.len() <= final(memory)@.len(),
{
    proof {
        vstd::set::axiom_set_insert_len(old(memory)@, position_key(cell));
    }
    memory.insert(key_of(cell.0, cell.1, cell.2));
}

/// `after` holds what `before` holds and the keys of the cells for which
/// `cells` holds, and nothing else.
spec fn adds_cells(after: Set<u128>, before: Set<u128>, cells: spec_fn((u32, u32, u32)) -> bool) -> bool {
    forall|k: u128|
        after.contains(k) <==> before.contains(k) || exists|p: (u32, u32, u32)| cells(p) && k == #[trigger] position_key(p)
}

/// Adding the cells of `more` to what added `done` adds the cells of `both`,
/// which are those of `done` and those of `more`.
proof fn lemma_adds_cells_step(
    s0: Set<u128>,
    s1: Set<u128>,
    s2: Set<u128>,
    done: spec_fn((u32, u32, u32)) -> bool,
    more: spec_fn((u32, u32, u32)) -> bool,
    both: spec_fn((u32, u32, u32)) -> bool,
)
    requires
        adds_cells(s1, s0, done),
        adds_cells(s2, s1, more),
        forall|p: (u32, u32, u32)| #[trigger] both(p) <==> done(p) || more(p),
    ensures
        adds_cells(s2, s0, both),
{
    assert forall|k: u128| s2.contains(k) <==> s0.contains(k) || exists|p: (u32, u32, u32)| both(p) && k == #[trigger] position_key(p) by {
        if exists|p: (u32, u32, u32)| both(p) && k == #[trigger] position_key(p) {
            let p = choose|p: (u32, u32, u32)| both(p) && k == #[trigger] position_key(p);
            if done(p) {
                assert(s1.contains(k));
            } else {
                assert(more(p));
            }
        }
        if s2.contains(k) && !s1.contains(k) {
            let p = choose|p: (u32, u32, u32)| more(p) && k == #[trigger] position_key(p);
            assert(both(p));
        }
        if s1.contains(k) && !s0.contains(k) {
            let p = choose|p: (u32, u32, u32)| done(p) && k == #[trigger] position_key(p);
            assert(both(p));
        }
    }
}

/// What added the cells of `done` added those of `same` when both pick the
/// same cells.
proof fn lemma_adds_cells_same(
    s0: Set<u128>,
    s1: Set<u128>,
    done: spec_fn((u32, u32, u32)) -> bool,
    same: spec_fn((u32, u32, u32)) -> bool,
)
    requires
        adds_cells(s1, s0, done),
        forall|p: (u32, u32, u32)| #[trigger] same(p) <==> done(p),
    ensures
        adds_cells(s1, s0, same),
{
    assert forall|k: u128| s1.contains(k) <==> s0.contains(k) || exists|p: (u32, u32, u32)| same(p) && k == #[trigger] position_key(p) by {
        if exists|p: (u32, u32, u32)| same(p) && k == #[trigger] position_key(p) {
            let p = choose|p: (u32, u32, u32)| same(p) && k == #[trigger] position_key(p);
            assert(done(p));
        }
        if s1.contains(k) && !s0.contains(k) {
            let p = choose|p: (u32, u32, u32)| done(p) && k == #[trigger] position_key(p);
            assert(same(p));
        }
    }
}

/// `p` lies in the box from `lo` up to, not including, `hi`.
pub open spec fn in_cells(p: (u32, u32, u32), lo: (u32, u32, u32), hi: (u32, u32, u32)) -> bool {
    lo.0 <= p.0 < hi.0 && lo.1 <= p.1 < hi.1 && lo.2 <= p.2 < hi.2
}

/// `p` lies in the box and comes before `(x, y, z)`, x changing slowest.
spec fn in_cells_before(p: (u32, u32, u32), lo: (u32, u32, u32), hi: (u32, u32, u32), x: u32, y: u32, z: u32) -> bool {
    in_cells(p, lo, hi) && (p.0 < x || p.0 == x && (p.1 < y || p.1 == y && p.2 < z))
}

/// Remembers every cell from `lo` up to, not including, `hi`.
fn remember_box(memory: &mut HashSet<u128>, lo: (u32, u32, u32), hi: (u32, u32, u32))
    requires
        old(memory)@.finite(),
        hi.0 <= 0x2000_0000,
        hi.1 <= 0x2000_0000,
        hi.2 <= 0x2000_0000,
    ensures
        final(memory)@.finite(),
        old(memory)@.len() <= final(memory)@.len(),
        adds_cells(final(memory)@, old(memory)@, |p: (u32, u32, u32)| in_cells(p, lo, hi)),
{
    let mut x = lo.0;
    while x < hi.0
        invariant
            memory@.finite(),
            old(memory)@.len() <= memory@.len(),
            hi.0 <= 0x2000_0000,
            hi.1 <= 0x2000_0000,
            hi.2 <= 0x2000_0000,
            lo.0 <= x,
            x <= hi.0 || lo.0 >= hi.0,
            adds_cells(memory@, old(memory)@, |p: (u32, u32, u32)| in_cells_before(p, lo, hi, x, lo.1, lo.2)),
        decreases hi.0 - x,
    {
        let mut y = lo.1;
        while y < hi.1
            invariant
                memory@.finite(),
                old(memory)@.len() <= memory@.len(),
                x < hi.0,
                lo.0 <= x,
                hi.0 <= 0x2000_0000,
                hi.1 <= 0x2000_0000,
                hi.2 <= 0x2000_0000,
                lo.1 <= y,
                y <= hi.1 || lo.1 >= hi.1,
                adds_cells(memory@, old(memory)@, |p: (u32, u32, u32)| in_cells_before(p, lo, hi, x, y, lo.2)),
            decreases hi.1 - y,
        {
            let mut z = lo.2;
            while z < hi.2
                invariant
                    memory@.finite(),
                    old(memory)@.len() <= memory@.len(),
                    x < hi.0,
                    y < hi.1,
                    lo.0 <= x,
                    lo.1 <= y,
                    hi.0 <= 0x2000_0000,
                    hi.1 <= 0x2000_0000,
                    hi.2 <= 0x2000_0000,
                    lo.2 <= z,
                    z <= hi.2 || lo.2 >= hi.2,
                    adds_cells(memory@, old(memory)@, |p: (u32, u32, u32)| in_cells_before(p, lo, hi, x, y, z)),
                decreases hi.2 - z,
            {
                let ghost before = memory@;
                remember(memory, (x, y, z));
                proof {
                    let c = (x, y, z);
                    assert(adds_cells(memory@, before, |p: (u32, u32, u32)| p == c)) by {
                        assert forall|k: u128| memory@.contains(k) <==> before.contains(k) || exists|p: (u32, u32, u32)| p == c && k == #[trigger] position_key(p) by {
                            if k == position_key(c) {
                                assert(c == c && k == position_key(c));
                            }
                        }
                    }
                    lemma_adds_cells_step(
                        old(memory)@,
                        before,
                        memory@,
                        |p: (u32, u32, u32)| in_cells_before(p, lo, hi, x, y, z),
                        |p: (u32, u32, u32)| p == c,
                        |p: (u32, u32, u32)| in_cells_before(p, lo, hi, x, y, (z + 1) as u32),
                    );
                }
                z = z + 1;
            }
            proof {
                lemma_adds_cells_same(
                    old(memory)@,
                    memory@,
                    |p: (u32, u32, u32)| in_cells_before(p, lo, hi, x, y, z),
                    |p: (u32, u32, u32)| in_cells_before(p, lo, hi, x, (y + 1) as u32, lo.2),
                );
            }
            y = y + 1;
        }
        proof {
            lemma_adds_cells_same(
                old(memory)@,
                memory@,
                |p: (u32, u32, u32)| in_cells_before(p, lo, hi, x, y, lo.2),
                |p: (u32, u32, u32)| in_cells_before(p, lo, hi, (x + 1) as u32, lo.1, lo.2),
            );
        }
        x = x + 1;
    }
    proof {
        lemma_adds_cells_same(
            old(memory)@,
            memory@,
            |p: (u32, u32, u32)| in_cells_before(p, lo, hi, x, lo.1, lo.2),
            |p: (u32, u32, u32)| in_cells(p, lo, hi),
        );
    }
}

/// Where a walk down the tree stopped: at a leaf, with its value, or at a
/// branch that the walk was told not to enter.
enum Reach<T> {
    Leaf(Option<Rc<T>>),
    Branch,
}

/// `1 << e` is `2^e`, at most `2^29` for `e <= 29`.
proof fn lemma_edge(e: u8)
    requires
        e <= 29,
    ensures
        (1u32 << e) as nat == pow2(e as nat),
        pow2(e as nat) <= 0x2000_0000,
        e <= 10 ==> pow2(e as nat) <= 1024,
        e >= 1 ==> pow2(e as nat) == 2 * pow2((e - 1) as nat),
{
    vstd::bits::lemma_u32_pow2_no_overflow(e as nat);
    vstd::bits::lemma_u32_shl_is_mul(1, e as u32);
    vstd::arithmetic::power2::lemma2_to64();
    if e < 29 {
        vstd::arithmetic::power2::lemma_pow2_strictly_increases(e as nat, 29);
    }
    if e < 10 {
        vstd::arithmetic::power2::lemma_pow2_strictly_increases(e as nat, 10);
    }
    if e >= 1 {
        vstd::arithmetic::power2::lemma_pow2_unfold(e as nat);
    }
}

/// Walks from `node` (corner `offset`, a multiple of its edge `size == 2^rev`)
/// towards `coords`, which its cube holds, and stops at the first leaf, or at
/// the first branch whose reversed depth is at most `stop_rev`; returns where
/// it stopped, with that node's corner and reversed depth. A leaf found holds
/// its value for every cell of its cube.
fn reach<T>(node: &OctreeNode<T>, rev: u8, offset: (u32, u32, u32), size: u32, coords: &(u32, u32, u32), stop_rev: u8) -> (r: (
    Reach<T>,
    (u32, u32, u32),
    u8,
))
    requires
        node.wf(rev as nat),
        rev <= 29,
        size as nat == pow2(rev as nat),
        offset.0 + size <= 0x2000_0000,
        offset.1 + size <= 0x2000_0000,
        offset.2 + size <= 0x2000_0000,
        offset.0 as nat % pow2(rev as nat) == 0,
        offset.1 as nat % pow2(rev as nat) == 0,
        offset.2 as nat % pow2(rev as nat) == 0,
        in_cells(*coords, offset, ((offset.0 + size) as u32, (offset.1 + size) as u32, (offset.2 + size) as u32)),
    ensures
        r.2 <= rev,
        offset.0 <= r.1.0,
        offset.1 <= r.1.1,
        offset.2 <= r.1.2,
        r.1.0 + pow2(r.2 as nat) <= offset.0 + size,
        r.1.1 + pow2(r.2 as nat) <= offset.1 + size,
        r.1.2 + pow2(r.2 as nat) <= offset.2 + size,
        in_cells(*coords, r.1, ((r.1.0 + pow2(r.2 as nat)) as u32, (r.1.1 + pow2(r.2 as nat)) as u32, (r.1.2 + pow2(r.2 as nat)) as u32)),
        r.0 matches Reach::Leaf(v) ==> v == node.lookup(rev as nat, *coords),
        r.0 is Leaf ==> r.2 == node.leaf_level(rev as nat, *coords),
        r.0 matches Reach::Leaf(v) ==> forall|q: (u32, u32, u32)|
            in_cells(q, r.1, ((r.1.0 + pow2(r.2 as nat)) as u32, (r.1.1 + pow2(r.2 as nat)) as u32, (r.1.2 + pow2(r.2 as nat)) as u32))
                ==> #[trigger] node.lookup(rev as nat, q) == v,
        r.0 is Branch ==> 1 <= r.2 <= stop_rev,
    decreases rev,
{
    match node {
        OctreeNode::Leaf(value) => (Reach::Leaf(clone_value(value)), offset, rev),
        OctreeNode::Branch(branch) => {
            if rev <= stop_rev {
                (Reach::Branch, offset, rev)
            } else {
                proof {
                    lemma_edge(rev);
                }
                let child_index = get_child_index(rev, coords);
                let child_offset = get_child_offset(offset, size, child_index);
                let half = size / 2;
                let ghost h = pow2((rev - 1) as nat);
                proof {
                    assert((child_index % 2) * half <= half && ((child_index / 2) % 2) * half <= half
                        && (child_index / 4) * half <= half) by (nonlinear_arith)
                        requires
                            child_index < 8,
                    ;
                    lemma_half_bit(offset.0, coords.0, rev as nat);
                    lemma_half_bit(offset.1, coords.1, rev as nat);
                    lemma_half_bit(offset.2, coords.2, rev as nat);
                    let b0 = bit(coords.0, (rev - 1) as nat);
                    let b1 = bit(coords.1, (rev - 1) as nat);
                    let b2 = bit(coords.2, (rev - 1) as nat);
                    assert(child_index == b0 + 2 * b1 + 4 * b2);
                    assert(child_index % 2 == b0 && (child_index / 2) % 2 == b1 && child_index / 4 == b2);
                    assert(half == h);
                    assert(child_offset.0 == offset.0 + b0 * h) by (nonlinear_arith)
                        requires child_offset.0 == offset.0 + (child_index % 2) * half, child_index % 2 == b0, half == h;
                    assert(child_offset.1 == offset.1 + b1 * h) by (nonlinear_arith)
                        requires child_offset.1 == offset.1 + ((child_index / 2) % 2) * half, (child_index / 2) % 2 == b1, half == h;
                    assert(child_offset.2 == offset.2 + b2 * h) by (nonlinear_arith)
                        requires child_offset.2 == offset.2 + (child_index / 4) * half, child_index / 4 == b2, half == h;
                    assert(b0 <= 1 && b1 <= 1 && b2 <= 1);
                    assert(b0 * h == if b0 == 1 { h } else { 0 }) by (nonlinear_arith) requires b0 <= 1;
                    assert(b1 * h == if b1 == 1 { h } else { 0 }) by (nonlinear_arith) requires b1 <= 1;
                    assert(b2 * h == if b2 == 1 { h } else { 0 }) by (nonlinear_arith) requires b2 <= 1;
                }
                let r = reach(&branch.children[child_index], rev - 1, child_offset, half, coords, stop_rev);
                proof {
                    let child = branch.children@[child_index as int];
                    let b0 = bit(coords.0, (rev - 1) as nat);
                    let b1 = bit(coords.1, (rev - 1) as nat);
                    let b2 = bit(coords.2, (rev - 1) as nat);
                    if r.0 is Leaf {
                        let v = r.0->Leaf_0;
                        let hi = ((r.1.0 + pow2(r.2 as nat)) as u32, (r.1.1 + pow2(r.2 as nat)) as u32, (r.1.2 + pow2(r.2 as nat)) as u32);
                        assert forall|q: (u32, u32, u32)| in_cells(q, r.1, hi) implies #[trigger] node.lookup(rev as nat, q) == v by {
                            lemma_half_bit(offset.0, q.0, rev as nat);
                            lemma_half_bit(offset.1, q.1, rev as nat);
                            lemma_half_bit(offset.2, q.2, rev as nat);
                            assert(bit(q.0, (rev - 1) as nat) == b0);
                            assert(bit(q.1, (rev - 1) as nat) == b1);
                            assert(bit(q.2, (rev - 1) as nat) == b2);
                            assert(child_index_of(rev as nat, q) == child_index);
                            assert(child.lookup((rev - 1) as nat, q) == v);
                        }
                    }
                }
                r
            }
        },
    }
}

/// `v` is strictly between `base` and `base + m`.
spec fn inside(v: u32, base: u32, m: int) -> bool {
    base < v < base + m
}

/// Face `f` (0 to 5) of the cube at `o` with last cell `o + m`, without its
/// rim, as the shell walks them: low x, high x, low y, high y, high z, low z;
/// a face that lies on the outside of a tree of edge `root` is left out.
spec fn shell_face(p: (u32, u32, u32), o: (u32, u32, u32), m: int, root: int, f: int) -> bool {
    let edge = root - m - 1;
    if f == 0 {
        p.0 == o.0 && inside(p.1, o.1, m) && inside(p.2, o.2, m) && o.0 != 0
    } else if f == 1 {
        p.0 == o.0 + m && inside(p.1, o.1, m) && inside(p.2, o.2, m) && o.0 != edge
    } else if f == 2 {
        p.1 == o.1 && inside(p.0, o.0, m) && inside(p.2, o.2, m) && o.1 != 0
    } else if f == 3 {
        p.1 == o.1 + m && inside(p.0, o.0, m) && inside(p.2, o.2, m) && o.1 != edge
    } else if f == 4 {
        p.2 == o.2 + m && inside(p.0, o.0, m) && inside(p.1, o.1, m) && o.2 != edge
    } else {
        p.2 == o.2 && inside(p.0, o.0, m) && inside(p.1, o.1, m) && o.2 != 0
    }
}

/// `p` lies on one of the first `n` faces.
spec fn shell_faces_upto(p: (u32, u32, u32), o: (u32, u32, u32), m: int, root: int, n: int) -> bool {
    exists|f: int| 0 <= f < n && #[trigger] shell_face(p, o, m, root, f)
}

/// `p` lies on one of the three edges of the cube at `o` picked by the ends
/// `a` and `b` (each 0 or 1) of the other two axes, without the corners.
spec fn shell_edge(p: (u32, u32, u32), o: (u32, u32, u32), m: int, a: int, b: int) -> bool {
    ||| p.0 == o.0 + a * m && p.1 == o.1 + b * m && inside(p.2, o.2, m)
    ||| p.0 == o.0 + a * m && inside(p.1, o.1, m) && p.2 == o.2 + b * m
    ||| inside(p.0, o.0, m) && p.1 == o.1 + a * m && p.2 == o.2 + b * m
}

/// `p` lies on an edge picked by ends `(a, b)` that come before `(i, j)`.
spec fn shell_edges_upto(p: (u32, u32, u32), o: (u32, u32, u32), m: int, i: int, j: int) -> bool {
    exists|a: int, b: int|
        0 <= a <= 1 && 0 <= b <= 1 && (a < i || a == i && b < j) && #[trigger] shell_edge(p, o, m, a, b)
}

/// `p` is a corner of the cube at `o` whose ends `(a, b, c)` come before
/// `(i, j, k)`.
spec fn shell_corners_upto(p: (u32, u32, u32), o: (u32, u32, u32), m: int, i: int, j: int, k: int) -> bool {
    exists|a: int, b: int, c: int|
        0 <= a <= 1 && 0 <= b <= 1 && 0 <= c <= 1 && (a < i || a == i && (b < j || b == j && c < k))
            && p == #[trigger] corner_of(o, m, a, b, c)
}

/// Corner `(a, b, c)` of the cube at `o` with last cell `o + m`.
spec fn corner_of(o: (u32, u32, u32), m: int, a: int, b: int, c: int) -> (u32, u32, u32) {
    ((o.0 + a * m) as u32, (o.1 + b * m) as u32, (o.2 + c * m) as u32)
}

/// The cells that remembering the shell of the cube at `o` of edge `size` in a
/// tree of edge `root` adds: its edges and corners, and the inner part of each
/// face that does not lie on the outside of the tree.
spec fn shell_cell(p: (u32, u32, u32), o: (u32, u32, u32), size: int, root: int) -> bool {
    shell_faces_upto(p, o, size - 1, root, 6) || shell_edges_upto(p, o, size - 1, 2, 0) || shell_corners_upto(
        p,
        o,
        size - 1,
        2,
        0,
        0,
    )
}

/// Remembering one cell adds that cell.
proof fn lemma_adds_one(before: Set<u128>, after: Set<u128>, c: (u32, u32, u32))
    requires
        after == before.insert(position_key(c)),
    ensures
        adds_cells(after, before, |p: (u32, u32, u32)| p == c),
{
    assert forall|k: u128| after.contains(k) <==> before.contains(k) || exists|p: (u32, u32, u32)| p == c && k == #[trigger] position_key(p) by {
        if k == position_key(c) {
            assert(c == c && k == position_key(c));
        }
    }
}

/// One face of the shell: remembered when it does not lie on the outside of
/// the tree.
fn remember_face(
    memory: &mut HashSet<u128>,
    lo: (u32, u32, u32),
    hi: (u32, u32, u32),
    remembered: bool,
    Ghost(o): Ghost<(u32, u32, u32)>,
    Ghost(m): Ghost<int>,
    Ghost(root): Ghost<int>,
    Ghost(f): Ghost<int>,
    Ghost(start): Ghost<Set<u128>>,
)
    requires
        old(memory)@.finite(),
        hi.0 <= 0x2000_0000,
        hi.1 <= 0x2000_0000,
        hi.2 <= 0x2000_0000,
        0 <= f < 6,
        adds_cells(old(memory)@, start, |p: (u32, u32, u32)| shell_faces_upto(p, o, m, root, f)),
        forall|p: (u32, u32, u32)| #[trigger] shell_face(p, o, m, root, f) <==> remembered && in_cells(p, lo, hi),
    ensures
        final(memory)@.finite(),
        old(memory)@.len() <= final(memory)@.len(),
        adds_cells(final(memory)@, start, |p: (u32, u32, u32)| shell_faces_upto(p, o, m, root, f + 1)),
{
    let ghost before = memory@;
    if remembered {
        remember_box(memory, lo, hi);
        proof {
            assert forall|p: (u32, u32, u32)| #[trigger] shell_faces_upto(p, o, m, root, f + 1) <==> shell_faces_upto(
                p,
                o,
                m,
                root,
                f,
            ) || in_cells(p, lo, hi) by {
                if shell_faces_upto(p, o, m, root, f + 1) && !shell_faces_upto(p, o, m, root, f) {
                    let g = choose|g: int| 0 <= g < f + 1 && #[trigger] shell_face(p, o, m, root, g);
                    assert(g == f);
                }
                if in_cells(p, lo, hi) {
                    assert(shell_face(p, o, m, root, f));
                }
            }
            lemma_adds_cells_step(
                start,
                before,
                memory@,
                |p: (u32, u32, u32)| shell_faces_upto(p, o, m, root, f),
                |p: (u32, u32, u32)| in_cells(p, lo, hi),
                |p: (u32, u32, u32)| shell_faces_upto(p, o, m, root, f + 1),
            );
        }
    } else {
        proof {
            assert forall|p: (u32, u32, u32)| #[trigger] shell_faces_upto(p, o, m, root, f + 1) <==> shell_faces_upto(
                p,
                o,
                m,
                root,
                f,
            ) by {
                if shell_faces_upto(p, o, m, root, f + 1) {
                    let g = choose|g: int| 0 <= g < f + 1 && #[trigger] shell_face(p, o, m, root, g);
                    assert(g != f);
                }
            }
            lemma_adds_cells_same(
                start,
                memory@,
                |p: (u32, u32, u32)| shell_faces_upto(p, o, m, root, f),
                |p: (u32, u32, u32)| shell_faces_upto(p, o, m, root, f + 1),
            );
        }
    }
}

/// Remembers the cells on the outside of the cube at `o` of edge `size` (at
/// least 3) in a tree of edge `root_size`, without the inner part of each face
/// that lies on the outside of the tree (see `shell_cell`).
fn remember_shell(memory: &mut HashSet<u128>, o: (u32, u32, u32), size: u32, root_size: u32)
    requires
        old(memory)@.finite(),
        3 <= size <= 1024,
        o.0 + size <= root_size,
        o.1 + size <= root_size,
        o.2 + size <= root_size,
        root_size <= 0x2000_0000,
    ensures
        final(memory)@.finite(),
        old(memory)@.len() <= final(memory)@.len(),
        adds_cells(final(memory)@, old(memory)@, |p: (u32, u32, u32)| shell_cell(p, o, size as int, root_size as int)),
{
    let boundary_size = root_size - size;
    let max_leaf_offset = size - 1;
    let boundaries: [u32; 2] = [0, max_leaf_offset];
    let ghost m = max_leaf_offset as int;
    let ghost root = root_size as int;
    let ghost start = memory@;

    let internal_size = size - 2;
    proof {
        assert(size * size <= 1024 * 1024 && size * size * size <= 1024 * 1024 * 1024 && internal_size * internal_size
            <= size * size && internal_size * internal_size * internal_size <= size * size * size) by (nonlinear_arith)
            requires
                internal_size <= size,
                size <= 1024,
        ;
    }
    memory.reserve((size * size * size) as usize - (internal_size * internal_size * internal_size) as usize);

    proof {
        assert forall|k: u128| memory@.contains(k) <==> start.contains(k) || exists|p: (u32, u32, u32)|
            shell_faces_upto(p, o, m, root, 0) && k == #[trigger] position_key(p) by {
            if exists|p: (u32, u32, u32)| shell_faces_upto(p, o, m, root, 0) && k == #[trigger] position_key(p) {
                let p = choose|p: (u32, u32, u32)| shell_faces_upto(p, o, m, root, 0) && k == #[trigger] position_key(p);
                let g = choose|g: int| 0 <= g < 0 && #[trigger] shell_face(p, o, m, root, g);
            }
        }
    }
    remember_face(
        memory,
        (o.0, o.1 + 1, o.2 + 1),
        (o.0 + 1, o.1 + max_leaf_offset, o.2 + max_leaf_offset),
        o.0 != 0,
        Ghost(o), Ghost(m), Ghost(root), Ghost(0), Ghost(start),
    );
    remember_face(
        memory,
        (o.0 + max_leaf_offset, o.1 + 1, o.2 + 1),
        (o.0 + max_leaf_offset + 1, o.1 + max_leaf_offset, o.2 + max_leaf_offset),
        o.0 != boundary_size,
        Ghost(o), Ghost(m), Ghost(root), Ghost(1), Ghost(start),
    );
    remember_face(
        memory,
        (o.0 + 1, o.1, o.2 + 1),
        (o.0 + max_leaf_offset, o.1 + 1, o.2 + max_leaf_offset),
        o.1 != 0,
        Ghost(o), Ghost(m), Ghost(root), Ghost(2), Ghost(start),
    );
    remember_face(
        memory,
        (o.0 + 1, o.1 + max_leaf_offset, o.2 + 1),
        (o.0 + max_leaf_offset, o.1 + max_leaf_offset + 1, o.2 + max_leaf_offset),
        o.1 != boundary_size,
        Ghost(o), Ghost(m), Ghost(root), Ghost(3), Ghost(start),
    );
    remember_face(
        memory,
        (o.0 + 1, o.1 + 1, o.2 + max_leaf_offset),
        (o.0 + max_leaf_offset, o.1 + max_leaf_offset, o.2 + max_leaf_offset + 1),
        o.2 != boundary_size,
        Ghost(o), Ghost(m), Ghost(root), Ghost(4), Ghost(start),
    );
    remember_face(
        memory,
        (o.0 + 1, o.1 + 1, o.2),
        (o.0 + max_leaf_offset, o.1 + max_leaf_offset, o.2 + 1),
        o.2 != 0,
        Ghost(o), Ghost(m), Ghost(root), Ghost(5), Ghost(start),
    );

    // The twelve edges, without their corners: along z, along y, along x.
    let mut i: usize = 0;
    while i < 2
        invariant
            memory@.finite(),
            old(memory)@.len() <= memory@.len(),
            boundaries@ == seq![0u32, max_leaf_offset],
            max_leaf_offset + 1 == size,
            m == max_leaf_offset,
            o.0 + size <= 0x2000_0000,
            o.1 + size <= 0x2000_0000,
            o.2 + size <= 0x2000_0000,
            i <= 2,
            adds_cells(memory@, start, |p: (u32, u32, u32)| shell_faces_upto(p, o, m, root, 6) || shell_edges_upto(p, o, m, i as int, 0)),
        decreases 2 - i,
    {
        let mut j: usize = 0;
        while j < 2
            invariant
                memory@.finite(),
                old(memory)@.len() <= memory@.len(),
                boundaries@ == seq![0u32, max_leaf_offset],
                max_leaf_offset + 1 == size,
                m == max_leaf_offset,
                o.0 + size <= 0x2000_0000,
                o.1 + size <= 0x2000_0000,
                o.2 + size <= 0x2000_0000,
                i < 2,
                j <= 2,
                adds_cells(memory@, start, |p: (u32, u32, u32)| shell_faces_upto(p, o, m, root, 6) || shell_edges_upto(p, o, m, i as int, j as int)),
            decreases 2 - j,
        {
            let a = boundaries[i];
            let b = boundaries[j];
            let ghost s0 = memory@;
            let (z_lo, z_hi) = ((o.0 + a, o.1 + b, o.2 + 1), (o.0 + a + 1, o.1 + b + 1, o.2 + max_leaf_offset));
            remember_box(memory, z_lo, z_hi);
            let ghost s1 = memory@;
            let (y_lo, y_hi) = ((o.0 + a, o.1 + 1, o.2 + b), (o.0 + a + 1, o.1 + max_leaf_offset, o.2 + b + 1));
            remember_box(memory, y_lo, y_hi);
            let ghost s2 = memory@;
            let (x_lo, x_hi) = ((o.0 + 1, o.1 + a, o.2 + b), (o.0 + max_leaf_offset, o.1 + a + 1, o.2 + b + 1));
            remember_box(memory, x_lo, x_hi);
            proof {
                assert(a == i * m && b == j * m) by (nonlinear_arith)
                    requires
                        i < 2,
                        j < 2,
                        a == (if i == 0 { 0 } else { m }),
                        b == (if j == 0 { 0 } else { m }),
                ;
                let z_line = |p: (u32, u32, u32)| in_cells(p, z_lo, z_hi);
                let y_line = |p: (u32, u32, u32)| in_cells(p, y_lo, y_hi);
                let x_line = |p: (u32, u32, u32)| in_cells(p, x_lo, x_hi);
                let done = |p: (u32, u32, u32)| shell_faces_upto(p, o, m, root, 6) || shell_edges_upto(p, o, m, i as int, j as int);
                let d1 = |p: (u32, u32, u32)| done(p) || z_line(p);
                let d2 = |p: (u32, u32, u32)| d1(p) || y_line(p);
                let d3 = |p: (u32, u32, u32)| d2(p) || x_line(p);
                lemma_adds_cells_step(start, s0, s1, done, z_line, d1);
                lemma_adds_cells_step(start, s1, s2, d1, y_line, d2);
                lemma_adds_cells_step(start, s2, memory@, d2, x_line, d3);
                assert forall|p: (u32, u32, u32)| (shell_faces_upto(p, o, m, root, 6) || #[trigger] shell_edges_upto(p, o, m, i as int, j + 1)) <==> d3(p) by {
                    if shell_edges_upto(p, o, m, i as int, j + 1) && !shell_edges_upto(p, o, m, i as int, j as int) {
                        let (a2, b2) = choose|a2: int, b2: int|
                            0 <= a2 <= 1 && 0 <= b2 <= 1 && (a2 < i || a2 == i && b2 < j + 1) && #[trigger] shell_edge(p, o, m, a2, b2);
                        assert(a2 == i && b2 == j);
                    }
                    if z_line(p) || y_line(p) || x_line(p) {
                        assert(shell_edge(p, o, m, i as int, j as int));
                    }
                }
                lemma_adds_cells_same(start, memory@, d3, |p: (u32, u32, u32)| shell_faces_upto(p, o, m, root, 6) || shell_edges_upto(p, o, m, i as int, j + 1));
            }
            j = j + 1;
        }
        proof {
            assert forall|p: (u32, u32, u32)| #[trigger] shell_edges_upto(p, o, m, i + 1, 0) <==> shell_edges_upto(p, o, m, i as int, 2) by {
                if shell_edges_upto(p, o, m, i + 1, 0) {
                    let (a2, b2) = choose|a2: int, b2: int|
                        0 <= a2 <= 1 && 0 <= b2 <= 1 && (a2 < i + 1 || a2 == i + 1 && b2 < 0) && #[trigger] shell_edge(p, o, m, a2, b2);
                }
                if shell_edges_upto(p, o, m, i as int, 2) {
                    let (a2, b2) = choose|a2: int, b2: int|
                        0 <= a2 <= 1 && 0 <= b2 <= 1 && (a2 < i || a2 == i && b2 < 2) && #[trigger] shell_edge(p, o, m, a2, b2);
                }
            }
            lemma_adds_cells_same(start, memory@, |p: (u32, u32, u32)| shell_faces_upto(p, o, m, root, 6) || shell_edges_upto(p, o, m, i as int, 2),
                |p: (u32, u32, u32)| shell_faces_upto(p, o, m, root, 6) || shell_edges_upto(p, o, m, i + 1, 0));
        }
        i = i + 1;
    }

    // The eight corners.
    let mut i: usize = 0;
    while i < 2
        invariant
            memory@.finite(),
            old(memory)@.len() <= memory@.len(),
            boundaries@ == seq![0u32, max_leaf_offset],
            max_leaf_offset + 1 == size,
            m == max_leaf_offset,
            o.0 + size <= 0x2000_0000,
            o.1 + size <= 0x2000_0000,
            o.2 + size <= 0x2000_0000,
            i <= 2,
            adds_cells(memory@, start, |p: (u32, u32, u32)| shell_faces_upto(p, o, m, root, 6) || shell_edges_upto(p, o, m, 2, 0) || shell_corners_upto(p, o, m, i as int, 0, 0)),
        decreases 2 - i,
    {
        let mut j: usize = 0;
        while j < 2
            invariant
                memory@.finite(),
                old(memory)@.len() <= memory@.len(),
                boundaries@ == seq![0u32, max_leaf_offset],
                max_leaf_offset + 1 == size,
                m == max_leaf_offset,
                o.0 + size <= 0x2000_0000,
                o.1 + size <= 0x2000_0000,
                o.2 + size <= 0x2000_0000,
                i < 2,
                j <= 2,
                adds_cells(memory@, start, |p: (u32, u32, u32)| shell_faces_upto(p, o, m, root, 6) || shell_edges_upto(p, o, m, 2, 0) || shell_corners_upto(p, o, m, i as int, j as int, 0)),
            decreases 2 - j,
        {
            let mut k: usize = 0;
            while k < 2
                invariant
                    memory@.finite(),
                    old(memory)@.len() <= memory@.len(),
                    boundaries@ == seq![0u32, max_leaf_offset],
                    max_leaf_offset + 1 == size,
                    m == max_leaf_offset,
                    o.0 + size <= 0x2000_0000,
                    o.1 + size <= 0x2000_0000,
                    o.2 + size <= 0x2000_0000,
                    i < 2,
                    j < 2,
                    k <= 2,
                    adds_cells(memory@, start, |p: (u32, u32, u32)| shell_faces_upto(p, o, m, root, 6) || shell_edges_upto(p, o, m, 2, 0) || shell_corners_upto(p, o, m, i as int, j as int, k as int)),
                decreases 2 - k,
            {
                let ghost s0 = memory@;
                let c = (o.0 + boundaries[i], o.1 + boundaries[j], o.2 + boundaries[k]);
                remember(memory, c);
                proof {
                    assert(boundaries[i as int] == i * m && boundaries[j as int] == j * m && boundaries[k as int] == k * m) by (nonlinear_arith)
                        requires
                            i < 2,
                            j < 2,
                            k < 2,
                            boundaries[i as int] == (if i == 0 { 0 } else { m }),
                            boundaries[j as int] == (if j == 0 { 0 } else { m }),
                            boundaries[k as int] == (if k == 0 { 0 } else { m }),
                    ;
                    assert(c == corner_of(o, m, i as int, j as int, k as int));
                    lemma_adds_one(s0, memory@, c);
                    let done = |p: (u32, u32, u32)| shell_faces_upto(p, o, m, root, 6) || shell_edges_upto(p, o, m, 2, 0) || shell_corners_upto(p, o, m, i as int, j as int, k as int);
                    let next = |p: (u32, u32, u32)| shell_faces_upto(p, o, m, root, 6) || shell_edges_upto(p, o, m, 2, 0) || shell_corners_upto(p, o, m, i as int, j as int, k + 1);
                    assert forall|p: (u32, u32, u32)| #[trigger] next(p) <==> done(p) || p == c by {
                        if shell_corners_upto(p, o, m, i as int, j as int, k + 1) && !shell_corners_upto(p, o, m, i as int, j as int, k as int) {
                            let (a2, b2, c2) = choose|a2: int, b2: int, c2: int|
                                0 <= a2 <= 1 && 0 <= b2 <= 1 && 0 <= c2 <= 1 && (a2 < i || a2 == i && (b2 < j || b2 == j && c2 < k + 1))
                                    && p == #[trigger] corner_of(o, m, a2, b2, c2);
                            assert(a2 == i && b2 == j && c2 == k);
                        }
                    }
                    lemma_adds_cells_step(start, s0, memory@, done, |p: (u32, u32, u32)| p == c, next);
                }
                k = k + 1;
            }
            proof {
                assert forall|p: (u32, u32, u32)| #[trigger] shell_corners_upto(p, o, m, i as int, j + 1, 0) <==> shell_corners_upto(p, o, m, i as int, j as int, 2) by {
                    if shell_corners_upto(p, o, m, i as int, j + 1, 0) {
                        let (a2, b2, c2) = choose|a2: int, b2: int, c2: int|
                            0 <= a2 <= 1 && 0 <= b2 <= 1 && 0 <= c2 <= 1 && (a2 < i || a2 == i && (b2 < j + 1 || b2 == j + 1 && c2 < 0))
                                && p == #[trigger] corner_of(o, m, a2, b2, c2);
                    }
                    if shell_corners_upto(p, o, m, i as int, j as int, 2) {
                        let (a2, b2, c2) = choose|a2: int, b2: int, c2: int|
                            0 <= a2 <= 1 && 0 <= b2 <= 1 && 0 <= c2 <= 1 && (a2 < i || a2 == i && (b2 < j || b2 == j && c2 < 2))
                                && p == #[trigger] corner_of(o, m, a2, b2, c2);
                    }
                }
                lemma_adds_cells_same(start, memory@,
                    |p: (u32, u32, u32)| shell_faces_upto(p, o, m, root, 6) || shell_edges_upto(p, o, m, 2, 0) || shell_corners_upto(p, o, m, i as int, j as int, 2),
                    |p: (u32, u32, u32)| shell_faces_upto(p, o, m, root, 6) || shell_edges_upto(p, o, m, 2, 0) || shell_corners_upto(p, o, m, i as int, j + 1, 0));
            }
            j = j + 1;
        }
        proof {
            assert forall|p: (u32, u32, u32)| #[trigger] shell_corners_upto(p, o, m, i + 1, 0, 0) <==> shell_corners_upto(p, o, m, i as int, 2, 0) by {
                if shell_corners_upto(p, o, m, i + 1, 0, 0) {
                    let (a2, b2, c2) = choose|a2: int, b2: int, c2: int|
                        0 <= a2 <= 1 && 0 <= b2 <= 1 && 0 <= c2 <= 1 && (a2 < i + 1 || a2 == i + 1 && (b2 < 0 || b2 == 0 && c2 < 0))
                            && p == #[trigger] corner_of(o, m, a2, b2, c2);
                }
                if shell_corners_upto(p, o, m, i as int, 2, 0) {
                    let (a2, b2, c2) = choose|a2: int, b2: int, c2: int|
                        0 <= a2 <= 1 && 0 <= b2 <= 1 && 0 <= c2 <= 1 && (a2 < i || a2 == i && (b2 < 2 || b2 == 2 && c2 < 0))
                            && p == #[trigger] corner_of(o, m, a2, b2, c2);
                }
            }
            lemma_adds_cells_same(start, memory@,
                |p: (u32, u32, u32)| shell_faces_upto(p, o, m, root, 6) || shell_edges_upto(p, o, m, 2, 0) || shell_corners_upto(p, o, m, i as int, 2, 0),
                |p: (u32, u32, u32)| shell_faces_upto(p, o, m, root, 6) || shell_edges_upto(p, o, m, 2, 0) || shell_corners_upto(p, o, m, i + 1, 0, 0));
        }
        i = i + 1;
    }
    proof {
        lemma_adds_cells_same(start, memory@,
            |p: (u32, u32, u32)| shell_faces_upto(p, o, m, root, 6) || shell_edges_upto(p, o, m, 2, 0) || shell_corners_upto(p, o, m, 2, 0, 0),
            |p: (u32, u32, u32)| shell_cell(p, o, size as int, root_size as int));
    }
}

/// Puts the four points of a split in front of the queue, one after the
/// other: each at one of `children`, reached in `check_dir` from a cube of
/// edge `source_size` at depth `depth`.
fn push_split(
    points: &mut VecDeque<FloodPoint>,
    children: [(u32, u32, u32); 4],
    check_dir: u8,
    depth: u8,
    source_size: u32,
    Ghost(d): Ghost<nat>,
)
    requires
        forall|j: int| 0 <= j < old(points)@.len() ==> point_ok(#[trigger] old(points)@[j], d),
        1 <= check_dir <= 6,
        depth <= d,
        source_size <= 0x2000_0000,
        forall|k: int| 0 <= k < 4 ==> (#[trigger] children@[k]).0 < 0x4000_0000 && children@[k].1 < 0x4000_0000 && children@[k].2 < 0x4000_0000,
    ensures
        forall|j: int| 0 <= j < final(points)@.len() ==> point_ok(#[trigger] final(points)@[j], d),
        queue_weight(final(points)@, d) == queue_weight(old(points)@, d) + 4 * five_pow((d + 1 - depth) as nat),
        final(points)@.len() == old(points)@.len() + 4,
        forall|j: int| 0 <= j < old(points)@.len() ==> final(points)@[j + 4] == #[trigger] old(points)@[j],
{
    let ghost w = five_pow((d + 1 - depth) as nat);
    let mut i: usize = 0;
    while i < 4
        invariant
            forall|j: int| 0 <= j < points@.len() ==> point_ok(#[trigger] points@[j], d),
            1 <= check_dir <= 6,
            depth <= d,
            source_size <= 0x2000_0000,
            forall|k: int| 0 <= k < 4 ==> (#[trigger] children@[k]).0 < 0x4000_0000 && children@[k].1 < 0x4000_0000 && children@[k].2 < 0x4000_0000,
            i <= 4,
            w == five_pow((d + 1 - depth) as nat),
            queue_weight(points@, d) == queue_weight(old(points)@, d) + i * w,
            points@.len() == old(points)@.len() + i,
            forall|j: int| 0 <= j < old(points)@.len() ==> points@[j + i] == #[trigger] old(points)@[j],
        decreases 4 - i,
    {
        let p = FloodPoint { coords: children[i], check_dir, depth, source_size };
        proof {
            lemma_queue_weight_push_front(points@, p, d);
            assert(children@[i as int].0 < 0x4000_0000);
            assert((i + 1) * w == i * w + w) by (nonlinear_arith);
        }
        let ghost before = points@;
        points.push_front(p);
        proof {
            assert forall|j: int| 0 <= j < points@.len() implies point_ok(#[trigger] points@[j], d) by {
                if j > 0 {
                    assert(points@[j] == before[j - 1]);
                }
            }
            assert forall|j: int| 0 <= j < old(points)@.len() implies points@[j + i + 1] == #[trigger] old(points)@[j] by {
                assert(points@[j + i + 1] == before[j + i]);
            }
        }
        i = i + 1;
    }
}

/// `v` grows by one point that is fine in a tree of reversed depth `d`.
fn push_point(v: &mut Vec<FloodPoint>, p: FloodPoint, Ghost(d): Ghost<nat>)
    requires
        forall|j: int| 0 <= j < old(v)@.len() ==> point_ok(#[trigger] old(v)@[j], d),
        point_ok(p, d),
    ensures
        final(v)@ == old(v)@.push(p),
        forall|j: int| 0 <= j < final(v)@.len() ==> point_ok(#[trigger] final(v)@[j], d),
{
    v.push(p);
    proof {
        assert forall|j: int| 0 <= j < v@.len() implies point_ok(#[trigger] v@[j], d) by {
            if j < v@.len() - 1 {
                assert(v@[j] == old(v)@[j]);
            }
        }
    }
}

/// The cell next to `s` across direction `dir` (1 to 6): one lower in x for
/// 1, higher in x for 2, higher in y for 3, lower in y for 4, higher in z for
/// 5, lower in z for 6.
pub open spec fn next_cell(s: (u32, u32, u32), dir: u8) -> (u32, u32, u32) {
    if dir == 1 {
        ((s.0 - 1) as u32, s.1, s.2)
    } else if dir == 2 {
        ((s.0 + 1) as u32, s.1, s.2)
    } else if dir == 3 {
        (s.0, (s.1 + 1) as u32, s.2)
    } else if dir == 4 {
        (s.0, (s.1 - 1) as u32, s.2)
    } else if dir == 5 {
        (s.0, s.1, (s.2 + 1) as u32)
    } else {
        (s.0, s.1, (s.2 - 1) as u32)
    }
}

/// The cell next to `s` across `dir` lies in a tree of edge `edge`.
pub open spec fn next_in_tree(s: (u32, u32, u32), dir: u8, edge: nat) -> bool {
    if dir == 1 {
        s.0 > 0
    } else if dir == 2 {
        s.0 + 1 < edge
    } else if dir == 3 {
        s.1 + 1 < edge
    } else if dir == 4 {
        s.1 > 0
    } else if dir == 5 {
        s.2 + 1 < edge
    } else {
        s.2 > 0
    }
}

/// The direction back across `dir` (1 to 6).
pub open spec fn facing_back(dir: u8) -> u8 {
    if dir % 2 == 1 {
        (dir + 1) as u8
    } else {
        (dir - 1) as u8
    }
}

/// The position of a side of `c`.
pub open spec fn cell_position(c: (u32, u32, u32)) -> (i64, i64, i64) {
    (c.0 as i64, c.1 as i64, c.2 as i64)
}

impl Octree<Voxel> {
    /// The cell next to `s` across `dir` (1 to 6) lies in the tree and holds
    /// a voxel.
    pub open spec fn filled_next_to(self, s: (u32, u32, u32), dir: u8) -> bool {
        &&& 1 <= dir <= 6
        &&& next_in_tree(s, dir, pow2(self.max_depth()))
        &&& self.at(next_cell(s, dir).0, next_cell(s, dir).1, next_cell(s, dir).2) is Some
    }

    /// `s` is an empty cell that is a leaf of its own.
    pub open spec fn empty_unit_cell(self, s: (u32, u32, u32)) -> bool {
        self.at(s.0, s.1, s.2) is None && self.leaf_level(s.0, s.1, s.2) == 0
    }
}

/// The first point of a flood from `s` in a tree of reversed depth `d`.
spec fn start_point(s: (u32, u32, u32), d: u8) -> FloodPoint {
    FloodPoint { coords: s, depth: d, check_dir: 0, source_size: 0 }
}

/// The point that a flood from the empty unit cell `s` sends across `dir`.
spec fn start_target(s: (u32, u32, u32), dir: u8, d: u8) -> FloodPoint {
    FloodPoint { coords: next_cell(s, dir), depth: d, check_dir: dir, source_size: 1 }
}

/// The side of the cell next to `s` across `dir` that faces `s` is recorded.
spec fn next_side_found(s: (u32, u32, u32), dir: u8, keys: Set<u128>) -> bool {
    keys.contains(cell_side_key(next_cell(s, dir), facing_back(dir)))
}

/// `p` waits in `queue`.
spec fn queued(queue: Seq<FloodPoint>, p: FloodPoint) -> bool {
    exists|j: int| 0 <= j < queue.len() && queue[j] == p
}

/// For a flood from an empty unit cell `s`, each filled cell next to `s` has
/// its side facing `s` recorded, or the point that records it waits in
/// `queue`, or it is `current`.
#[verifier::opaque]
spec fn next_sides_pending(
    t: Octree<Voxel>,
    s: (u32, u32, u32),
    keys: Set<u128>,
    queue: Seq<FloodPoint>,
    current: Option<FloodPoint>,
) -> bool {
    forall|dir: u8|
        t.empty_unit_cell(s) && #[trigger] t.filled_next_to(s, dir) ==> next_side_found(s, dir, keys) || queued(
            queue,
            start_target(s, dir, t.max_depth() as u8),
        ) || current == Some(start_target(s, dir, t.max_depth() as u8))
}

/// Taking `point` from the front of the queue makes it the current point.
proof fn lemma_pending_pop(
    t: Octree<Voxel>,
    s: (u32, u32, u32),
    keys: Set<u128>,
    waiting: Seq<FloodPoint>,
    rest: Seq<FloodPoint>,
    point: FloodPoint,
)
    requires
        next_sides_pending(t, s, keys, waiting, None),
        waiting == seq![point] + rest,
    ensures
        next_sides_pending(t, s, keys, rest, Some(point)),
{
    reveal(next_sides_pending);
    assert forall|dir: u8| t.empty_unit_cell(s) && #[trigger] t.filled_next_to(s, dir) implies next_side_found(s, dir, keys)
        || queued(rest, start_target(s, dir, t.max_depth() as u8)) || Some(point) == Some(
        start_target(s, dir, t.max_depth() as u8),
    ) by {
        let p = start_target(s, dir, t.max_depth() as u8);
        if queued(waiting, p) && p != point {
            let j = choose|j: int| 0 <= j < waiting.len() && waiting[j] == p;
            assert(j != 0);
            assert(rest[j - 1] == p);
        }
    }
}

/// After the first leaf, every point it sent out waits in `queue`.
proof fn lemma_pending_first(
    t: Octree<Voxel>,
    s: (u32, u32, u32),
    keys: Set<u128>,
    sent: Seq<FloodPoint>,
    queue: Seq<FloodPoint>,
    base: int,
)
    requires
        t.empty_unit_cell(s) ==> forall|dir: u8| #[trigger] t.filled_next_to(s, dir) ==> queued(sent, start_target(s, dir, t.max_depth() as u8)),
        0 <= base,
        base + sent.len() <= queue.len(),
        forall|j: int| 0 <= j < sent.len() ==> queue[base + j] == #[trigger] sent[j],
    ensures
        next_sides_pending(t, s, keys, queue, None),
{
    reveal(next_sides_pending);
    assert forall|dir: u8| t.empty_unit_cell(s) && #[trigger] t.filled_next_to(s, dir) implies next_side_found(s, dir, keys)
        || queued(queue, start_target(s, dir, t.max_depth() as u8)) || None::<FloodPoint> == Some(
        start_target(s, dir, t.max_depth() as u8),
    ) by {
        let p = start_target(s, dir, t.max_depth() as u8);
        let j = choose|j: int| 0 <= j < sent.len() && sent[j] == p;
        assert(queue[base + j] == sent[j]);
    }
}

/// Nothing is pending for a start cell that is not an empty unit cell.
proof fn lemma_pending_vacuous(t: Octree<Voxel>, s: (u32, u32, u32), keys: Set<u128>, q: Seq<FloodPoint>)
    requires
        !t.empty_unit_cell(s),
    ensures
        next_sides_pending(t, s, keys, q, None),
{
    reveal(next_sides_pending);
}

/// With nothing left in the queue, every side that was pending is found.
proof fn lemma_pending_done(t: Octree<Voxel>, s: (u32, u32, u32), keys: Set<u128>, dir: u8)
    requires
        next_sides_pending(t, s, keys, Seq::<FloodPoint>::empty(), None),
        t.empty_unit_cell(s),
        t.filled_next_to(s, dir),
    ensures
        next_side_found(s, dir, keys),
{
    reveal(next_sides_pending);
    assert(t.filled_next_to(s, dir));
}

/// The `k`-th direction (from 0) in which the first leaf sends its points.
spec fn send_order(k: nat) -> u8 {
    if k == 0 {
        1
    } else if k == 1 {
        2
    } else if k == 2 {
        4
    } else if k == 3 {
        3
    } else if k == 4 {
        6
    } else {
        5
    }
}

/// The points that a flood from the empty unit cell `s` sends out in the
/// first `k` directions, in a tree of edge `edge` and reversed depth `d`.
spec fn sends_upto(s: (u32, u32, u32), d: u8, edge: nat, k: nat) -> Seq<FloodPoint>
    decreases k,
{
    if k == 0 {
        Seq::empty()
    } else {
        let prev = sends_upto(s, d, edge, (k - 1) as nat);
        let dir = send_order((k - 1) as nat);
        if next_in_tree(s, dir, edge) {
            prev.push(start_target(s, dir, d))
        } else {
            prev
        }
    }
}

/// The first leaf sends a point to each neighbour in the tree.
proof fn lemma_sends(s: (u32, u32, u32), d: u8, edge: nat)
    ensures
        forall|dir: u8|
            1 <= dir <= 6 && next_in_tree(s, dir, edge) ==> #[trigger] queued(sends_upto(s, d, edge, 6), start_target(s, dir, d)),
{
    let q0 = sends_upto(s, d, edge, 0);
    let q1 = sends_upto(s, d, edge, 1);
    let q2 = sends_upto(s, d, edge, 2);
    let q3 = sends_upto(s, d, edge, 3);
    let q4 = sends_upto(s, d, edge, 4);
    let q5 = sends_upto(s, d, edge, 5);
    let q6 = sends_upto(s, d, edge, 6);
    if next_in_tree(s, 1, edge) {
        lemma_queued_push(q0, start_target(s, 1, d));
    }
    if next_in_tree(s, 2, edge) {
        lemma_queued_push(q1, start_target(s, 2, d));
    }
    if next_in_tree(s, 4, edge) {
        lemma_queued_push(q2, start_target(s, 4, d));
    }
    if next_in_tree(s, 3, edge) {
        lemma_queued_push(q3, start_target(s, 3, d));
    }
    if next_in_tree(s, 6, edge) {
        lemma_queued_push(q4, start_target(s, 6, d));
    }
    if next_in_tree(s, 5, edge) {
        lemma_queued_push(q5, start_target(s, 5, d));
    }
    let all = sends_upto(s, d, edge, 6);
    assert(queued(all, start_target(s, send_order(0), d)) || !next_in_tree(s, 1, edge));
    assert(queued(all, start_target(s, send_order(1), d)) || !next_in_tree(s, 2, edge));
    assert(queued(all, start_target(s, send_order(2), d)) || !next_in_tree(s, 4, edge));
    assert(queued(all, start_target(s, send_order(3), d)) || !next_in_tree(s, 3, edge));
    assert(queued(all, start_target(s, send_order(4), d)) || !next_in_tree(s, 6, edge));
    assert(queued(all, start_target(s, send_order(5), d)) || !next_in_tree(s, 5, edge));
}

/// Pushing `x` queues `x` and keeps what was queued.
proof fn lemma_queued_push(q: Seq<FloodPoint>, x: FloodPoint)
    ensures
        queued(q.push(x), x),
        forall|p: FloodPoint| queued(q, p) ==> #[trigger] queued(q.push(x), p),
{
    assert(q.push(x)[q.len() as int] == x);
    assert forall|p: FloodPoint| queued(q, p) implies #[trigger] queued(q.push(x), p) by {
        let j = choose|j: int| 0 <= j < q.len() && q[j] == p;
        assert(q.push(x)[j] == p);
    }
}

/// A leaf that holds `v` in its whole cube and holds the cell next to the
/// empty cell `s` across `dir` has that cell on its side that faces `s`.
proof fn lemma_entry_face(
    t: Octree<Voxel>,
    s: (u32, u32, u32),
    dir: u8,
    o: (u32, u32, u32),
    size: nat,
    v: Rc<Voxel>,
)
    requires
        t.empty_unit_cell(s),
        t.filled_next_to(s, dir),
        pow2(t.max_depth()) <= 0x2000_0000,
        size >= 1,
        in_cells(next_cell(s, dir), o, ((o.0 + size) as u32, (o.1 + size) as u32, (o.2 + size) as u32)),
        o.0 + size <= 0x2000_0000,
        o.1 + size <= 0x2000_0000,
        o.2 + size <= 0x2000_0000,
        forall|q: (u32, u32, u32)|
            in_cells(q, o, ((o.0 + size) as u32, (o.1 + size) as u32, (o.2 + size) as u32)) ==> #[trigger] t.at(q.0, q.1, q.2) == Some(v),
    ensures
        dir == 1 ==> o.0 + size - 1 == next_cell(s, dir).0,
        dir == 2 ==> o.0 == next_cell(s, dir).0,
        dir == 3 ==> o.1 == next_cell(s, dir).1,
        dir == 4 ==> o.1 + size - 1 == next_cell(s, dir).1,
        dir == 5 ==> o.2 == next_cell(s, dir).2,
        dir == 6 ==> o.2 + size - 1 == next_cell(s, dir).2,
{
    let hi = ((o.0 + size) as u32, (o.1 + size) as u32, (o.2 + size) as u32);
    if in_cells(s, o, hi) {
        assert(t.at(s.0, s.1, s.2) == Some(v));
    }
}

/// What is pending stays pending when keys only grow and the queue keeps its
/// points, shifted by `shift`, and the current point is done or not a target.
proof fn lemma_pending_kept(
    t: Octree<Voxel>,
    s: (u32, u32, u32),
    k0: Set<u128>,
    k1: Set<u128>,
    q0: Seq<FloodPoint>,
    q1: Seq<FloodPoint>,
    shift: int,
    current: Option<FloodPoint>,
)
    requires
        next_sides_pending(t, s, k0, q0, current),
        k0.subset_of(k1),
        0 <= shift,
        q0.len() + shift <= q1.len(),
        forall|j: int| 0 <= j < q0.len() ==> q1[j + shift] == #[trigger] q0[j],
        forall|dir: u8|
            t.empty_unit_cell(s) && #[trigger] t.filled_next_to(s, dir) && current == Some(start_target(s, dir, t.max_depth() as u8))
                ==> next_side_found(s, dir, k1),
    ensures
        next_sides_pending(t, s, k1, q1, None),
{
    reveal(next_sides_pending);
    assert forall|dir: u8| t.empty_unit_cell(s) && #[trigger] t.filled_next_to(s, dir) implies next_side_found(s, dir, k1)
        || queued(q1, start_target(s, dir, t.max_depth() as u8)) || None::<FloodPoint> == Some(start_target(s, dir, t.max_depth() as u8)) by {
        let p = start_target(s, dir, t.max_depth() as u8);
        if queued(q0, p) {
            let j = choose|j: int| 0 <= j < q0.len() && q0[j] == p;
            assert(q1[j + shift] == q0[j]);
        }
    }
}

impl Octree<Voxel> {
    /// Every empty leaf of the tree is a single cell.
    pub open spec fn empty_leaves_are_cells(self) -> bool {
        forall|q: (u32, u32, u32)| #[trigger] self.at(q.0, q.1, q.2) is None ==> self.leaf_level(q.0, q.1, q.2) == 0
    }

    /// `c` is a cell of the tree that holds no voxel.
    pub open spec fn empty_cell_in_tree(self, c: (u32, u32, u32)) -> bool {
        &&& c.0 < pow2(self.max_depth())
        &&& c.1 < pow2(self.max_depth())
        &&& c.2 < pow2(self.max_depth())
        &&& self.at(c.0, c.1, c.2) is None
    }

    /// `path` runs through empty cells of the tree, each next to the one
    /// before it across a face.
    pub open spec fn empty_path(self, path: Seq<(u32, u32, u32)>) -> bool {
        &&& path.len() >= 1
        &&& forall|i: int| 0 <= i < path.len() ==> self.empty_cell_in_tree(#[trigger] path[i])
        &&& forall|i: int| 0 <= i < path.len() - 1 ==> self.next_to(#[trigger] path[i], path[i + 1])
    }

    /// `b` is the cell of the tree next to `a` across one of its faces.
    pub open spec fn next_to(self, a: (u32, u32, u32), b: (u32, u32, u32)) -> bool {
        exists|dir: u8| 1 <= dir <= 6 && #[trigger] next_in_tree(a, dir, pow2(self.max_depth())) && next_cell(a, dir) == b
    }

    /// An empty path of the tree leads from `s` to `c`.
    pub open spec fn reaches(self, s: (u32, u32, u32), c: (u32, u32, u32)) -> bool {
        exists|path: Seq<(u32, u32, u32)>| #[trigger] self.empty_path(path) && path[0] == s && path.last() == c
    }

    /// `s` is the side, in its own voxel's color, of a filled cell of the tree
    /// whose neighbour across the side is an empty cell that an empty path
    /// leads to from `start`.
    pub open spec fn side_seen_from(self, start: (u32, u32, u32), s: VoxelSide) -> bool {
        let n = (s.position().0 as u32, s.position().1 as u32, s.position().2 as u32);
        &&& 0 <= s.position().0 < pow2(self.max_depth())
        &&& 0 <= s.position().1 < pow2(self.max_depth())
        &&& 0 <= s.position().2 < pow2(self.max_depth())
        &&& 1 <= s.facing() <= 6
        &&& self.at(n.0, n.1, n.2) is Some
        &&& s.side_color() == voxel_color(self.at(n.0, n.1, n.2)->0)
        &&& next_in_tree(n, s.facing(), pow2(self.max_depth()))
        &&& self.reaches(start, next_cell(n, s.facing()))
    }
}

/// The flood of a tree whose empty leaves are single cells, started in an
/// empty cell of the tree: the case in which it visits cells one by one.
spec fn cellwise(t: Octree<Voxel>, init: (u32, u32, u32)) -> bool {
    t.empty_leaves_are_cells() && t.empty_cell_in_tree(init)
}

/// The cell that point `p` was sent from.
spec fn sender(p: FloodPoint) -> (u32, u32, u32) {
    next_cell(p.coords, facing_back(p.check_dir))
}

/// `p` was sent across its direction by a visited cell of the tree.
spec fn sent_ok(t: Octree<Voxel>, visited: Set<(u32, u32, u32)>, p: FloodPoint) -> bool {
    &&& 1 <= p.check_dir <= 6
    &&& visited.contains(sender(p))
    &&& next_in_tree(sender(p), p.check_dir, pow2(t.max_depth()))
    &&& p == start_target(sender(p), p.check_dir, t.max_depth() as u8)
}

/// What a cell-by-cell flood from `init` keeps: the visited cells are empty,
/// reached from `init` and remembered, and nothing else is remembered; each
/// waiting point (and the current one) was sent by a visited cell; each side
/// found is seen from `init`; and from each visited cell, each neighbour in
/// the tree is visited (when empty), has its side recorded (when filled), or
/// has its point waiting or current.
#[verifier::opaque]
spec fn flood_ok(
    t: Octree<Voxel>,
    init: (u32, u32, u32),
    visited: Set<(u32, u32, u32)>,
    memory: Set<u128>,
    sides: Seq<VoxelSide>,
    keys: Set<u128>,
    queue: Seq<FloodPoint>,
    current: Option<FloodPoint>,
) -> bool {
    cellwise(t, init) ==> {
        &&& forall|v: (u32, u32, u32)| #[trigger] visited.contains(v) ==> t.empty_cell_in_tree(v) && t.reaches(init, v)
            && memory.contains(position_key(v))
        &&& forall|k: u128| #[trigger] memory.contains(k) ==> exists|v: (u32, u32, u32)| visited.contains(v) && position_key(v) == k
        &&& forall|j: int| 0 <= j < queue.len() ==> sent_ok(t, visited, #[trigger] queue[j])
        &&& current matches Some(p) ==> sent_ok(t, visited, p)
        &&& forall|i: int| 0 <= i < sides.len() ==> t.side_seen_from(init, #[trigger] sides[i])
        &&& forall|v: (u32, u32, u32), dir: u8|
            #![trigger visited.contains(v), next_cell(v, dir)]
            visited.contains(v) && 1 <= dir <= 6 && next_in_tree(v, dir, pow2(t.max_depth())) ==> {
                let n = next_cell(v, dir);
                ||| t.at(n.0, n.1, n.2) is None && visited.contains(n)
                ||| t.at(n.0, n.1, n.2) is Some && keys.contains(cell_side_key(n, facing_back(dir)))
                ||| queued(queue, start_target(v, dir, t.max_depth() as u8))
                ||| current == Some(start_target(v, dir, t.max_depth() as u8))
            }
    }
}

/// The cell next to `v` across `dir` lies in the tree, and `v` is next to it
/// across the way back.
proof fn lemma_step_back(v: (u32, u32, u32), dir: u8, edge: nat)
    requires
        1 <= dir <= 6,
        v.0 < edge && v.1 < edge && v.2 < edge,
        edge <= 0x1_0000_0000,
        next_in_tree(v, dir, edge),
    ensures
        ({
            let n = next_cell(v, dir);
            &&& n.0 < edge && n.1 < edge && n.2 < edge
            &&& 1 <= facing_back(dir) <= 6
            &&& next_in_tree(n, facing_back(dir), edge)
            &&& next_cell(n, facing_back(dir)) == v
        }),
{
}

/// An empty path to `v` goes on to an empty cell next to `v`.
proof fn lemma_reaches_step(t: Octree<Voxel>, s: (u32, u32, u32), v: (u32, u32, u32), dir: u8)
    requires
        t.reaches(s, v),
        1 <= dir <= 6,
        next_in_tree(v, dir, pow2(t.max_depth())),
        t.empty_cell_in_tree(next_cell(v, dir)),
    ensures
        t.reaches(s, next_cell(v, dir)),
{
    let path = choose|path: Seq<(u32, u32, u32)>| #[trigger] t.empty_path(path) && path[0] == s && path.last() == v;
    let n = next_cell(v, dir);
    let p2 = path.push(n);
    assert forall|i: int| 0 <= i < p2.len() implies t.empty_cell_in_tree(#[trigger] p2[i]) by {
        if i < path.len() {
            assert(p2[i] == path[i]);
        }
    }
    assert forall|i: int| 0 <= i < p2.len() - 1 implies t.next_to(#[trigger] p2[i], p2[i + 1]) by {
        assert(p2[i] == path[i]);
        if i < path.len() - 1 {
            assert(p2[i + 1] == path[i + 1]);
            assert(t.next_to(path[i], path[i + 1]));
        } else {
            assert(p2[i] == v);
            assert(p2[i + 1] == n);
            assert(next_in_tree(p2[i], dir, pow2(t.max_depth())) && next_cell(p2[i], dir) == p2[i + 1]);
        }
    }
    assert(t.empty_path(p2));
    assert(p2[0] == s);
}

/// An empty cell reaches itself.
proof fn lemma_reaches_self(t: Octree<Voxel>, s: (u32, u32, u32))
    requires
        t.empty_cell_in_tree(s),
    ensures
        t.reaches(s, s),
{
    let path = seq![s];
    assert(t.empty_path(path));
}

/// Every cell on an empty path from a visited cell is visited, when each
/// visited cell's empty neighbours in the tree are visited.
proof fn lemma_path_visited(t: Octree<Voxel>, visited: Set<(u32, u32, u32)>, path: Seq<(u32, u32, u32)>, k: int)
    requires
        t.empty_path(path),
        visited.contains(path[0]),
        0 <= k < path.len(),
        forall|v: (u32, u32, u32), dir: u8|
            #![trigger visited.contains(v), next_cell(v, dir)]
            visited.contains(v) && 1 <= dir <= 6 && next_in_tree(v, dir, pow2(t.max_depth()))
                && t.at(next_cell(v, dir).0, next_cell(v, dir).1, next_cell(v, dir).2) is None ==> visited.contains(next_cell(v, dir)),
    ensures
        visited.contains(path[k]),
    decreases k,
{
    if k > 0 {
        lemma_path_visited(t, visited, path, k - 1);
        assert(t.next_to(path[k - 1], path[k - 1 + 1]));
        let dir = choose|dir: u8| 1 <= dir <= 6 && #[trigger] next_in_tree(path[k - 1], dir, pow2(t.max_depth())) && next_cell(path[k - 1], dir) == path[k - 1 + 1];
        assert(t.empty_cell_in_tree(path[k]));
        assert(visited.contains(path[k - 1]));
        assert(next_cell(path[k - 1], dir) == path[k]);
    }
}

/// The points that an empty leaf with corner `offset`, edge `node_size` and
/// depth `depth`, entered in direction `check_dir`, sends to the cells past
/// its faces: none back across `check_dir` and none out of the tree.
fn send_points(offset: (u32, u32, u32), node_size: u32, depth: u8, check_dir: u8, root_size: u32, Ghost(d): Ghost<nat>) -> (r: Vec<FloodPoint>)
    requires
        d <= 29,
        depth <= d,
        check_dir <= 6,
        1 <= node_size <= 0x2000_0000,
        root_size <= 0x2000_0000,
        root_size as nat == pow2(d),
        offset.0 + node_size <= root_size,
        offset.1 + node_size <= root_size,
        offset.2 + node_size <= root_size,
    ensures
        forall|j: int| 0 <= j < r@.len() ==> point_ok(#[trigger] r@[j], d),
        node_size == 1 && depth == d ==> r@ == sends_from(offset, depth, root_size as nat, check_dir, 6),
        node_size == 1 && depth == d && check_dir == 0 ==> r@ == sends_upto(offset, depth, root_size as nat, 6),
{
    let mut next_points: Vec<FloodPoint> = Vec::with_capacity(6);
    let ghost unit = node_size == 1 && depth == d;
    let ghost edge = root_size as nat;
    proof {
        assert(next_points@ == sends_from(offset, depth, edge, check_dir, 0));
        assert(next_points@ == sends_upto(offset, depth, edge, 0));
    }
    if check_dir != Direction::RIGHT && offset.0 > 0 {
        push_point(
            &mut next_points,
            FloodPoint { depth, source_size: node_size, coords: (offset.0 - 1, offset.1, offset.2), check_dir: Direction::LEFT },
            Ghost(d),
        );
    }
    proof {
        assert(unit ==> next_points@ == sends_from(offset, depth, edge, check_dir, 1));
        assert(unit && check_dir == 0 ==> next_points@ == sends_upto(offset, depth, edge, 1));
    }
    if check_dir != Direction::LEFT && offset.0 < root_size - node_size {
        push_point(
            &mut next_points,
            FloodPoint { depth, source_size: node_size, coords: (offset.0 + node_size, offset.1, offset.2), check_dir: Direction::RIGHT },
            Ghost(d),
        );
    }
    proof {
        assert(unit ==> next_points@ == sends_from(offset, depth, edge, check_dir, 2));
        assert(unit && check_dir == 0 ==> next_points@ == sends_upto(offset, depth, edge, 2));
    }
    if check_dir != Direction::TOP && offset.1 > 0 {
        push_point(
            &mut next_points,
            FloodPoint { depth, source_size: node_size, coords: (offset.0, offset.1 - 1, offset.2), check_dir: Direction::BOTTOM },
            Ghost(d),
        );
    }
    proof {
        assert(unit ==> next_points@ == sends_from(offset, depth, edge, check_dir, 3));
        assert(unit && check_dir == 0 ==> next_points@ == sends_upto(offset, depth, edge, 3));
    }
    if check_dir != Direction::BOTTOM && offset.1 < root_size - node_size {
        push_point(
            &mut next_points,
            FloodPoint { depth, source_size: node_size, coords: (offset.0, offset.1 + node_size, offset.2), check_dir: Direction::TOP },
            Ghost(d),
        );
    }
    proof {
        assert(unit ==> next_points@ == sends_from(offset, depth, edge, check_dir, 4));
        assert(unit && check_dir == 0 ==> next_points@ == sends_upto(offset, depth, edge, 4));
    }
    if check_dir != Direction::FRONT && offset.2 > 0 {
        push_point(
            &mut next_points,
            FloodPoint { depth, source_size: node_size, coords: (offset.0, offset.1, offset.2 - 1), check_dir: Direction::BACK },
            Ghost(d),
        );
    }
    proof {
        assert(unit ==> next_points@ == sends_from(offset, depth, edge, check_dir, 5));
        assert(unit && check_dir == 0 ==> next_points@ == sends_upto(offset, depth, edge, 5));
    }
    if check_dir != Direction::BACK && offset.2 < root_size - node_size {
        push_point(
            &mut next_points,
            FloodPoint { depth, source_size: node_size, coords: (offset.0, offset.1, offset.2 + node_size), check_dir: Direction::FRONT },
            Ghost(d),
        );
    }
    proof {
        assert(unit ==> next_points@ == sends_from(offset, depth, edge, check_dir, 6));
        assert(unit && check_dir == 0 ==> next_points@ == sends_upto(offset, depth, edge, 6));
    }
    next_points
}

/// The points that an empty unit cell `s`, entered in direction `cd` (0 for
/// the start), sends out in the first `k` directions: none back across `cd`.
spec fn sends_from(s: (u32, u32, u32), d: u8, edge: nat, cd: u8, k: nat) -> Seq<FloodPoint>
    decreases k,
{
    if k == 0 {
        Seq::empty()
    } else {
        let prev = sends_from(s, d, edge, cd, (k - 1) as nat);
        let dir = send_order((k - 1) as nat);
        if next_in_tree(s, dir, edge) && !(1 <= cd <= 6 && facing_back(cd) == dir) {
            prev.push(start_target(s, dir, d))
        } else {
            prev
        }
    }
}

/// What the sent points are: one across each direction but the way back,
/// where the tree goes on.
proof fn lemma_sends_from(s: (u32, u32, u32), d: u8, edge: nat, cd: u8, k: nat)
    requires
        k <= 6,
    ensures
        forall|j: int| 0 <= j < sends_from(s, d, edge, cd, k).len() ==> {
            let p = #[trigger] sends_from(s, d, edge, cd, k)[j];
            1 <= p.check_dir <= 6 && next_in_tree(s, p.check_dir, edge) && p == start_target(s, p.check_dir, d)
        },
        forall|m: nat| m < k && next_in_tree(s, #[trigger] send_order(m), edge) && !(1 <= cd <= 6 && facing_back(cd) == send_order(m))
            ==> queued(sends_from(s, d, edge, cd, k), start_target(s, send_order(m), d)),
    decreases k,
{
    if k > 0 {
        lemma_sends_from(s, d, edge, cd, (k - 1) as nat);
        let prev = sends_from(s, d, edge, cd, (k - 1) as nat);
        let dir = send_order((k - 1) as nat);
        if next_in_tree(s, dir, edge) && !(1 <= cd <= 6 && facing_back(cd) == dir) {
            lemma_queued_push(prev, start_target(s, dir, d));
            let cur = prev.push(start_target(s, dir, d));
            assert forall|j: int| 0 <= j < cur.len() implies {
                let p = #[trigger] cur[j];
                1 <= p.check_dir <= 6 && next_in_tree(s, p.check_dir, edge) && p == start_target(s, p.check_dir, d)
            } by {
                if j < prev.len() {
                    assert(cur[j] == prev[j]);
                }
            }
        }
    }
}

/// Every direction but the way back is sent.
proof fn lemma_sends_all(s: (u32, u32, u32), d: u8, edge: nat, cd: u8)
    ensures
        forall|dir: u8| 1 <= dir <= 6 && next_in_tree(s, dir, edge) && !(1 <= cd <= 6 && facing_back(cd) == dir)
            ==> #[trigger] queued(sends_from(s, d, edge, cd, 6), start_target(s, dir, d)),
{
    lemma_sends_from(s, d, edge, cd, 6);
    assert(send_order(0) == 1 && send_order(1) == 2 && send_order(2) == 4 && send_order(3) == 3 && send_order(4) == 6
        && send_order(5) == 5);
}

/// For a flood that does not go cell by cell, nothing is claimed.
proof fn lemma_flood_vacuous(
    t: Octree<Voxel>,
    init: (u32, u32, u32),
    visited: Set<(u32, u32, u32)>,
    memory: Set<u128>,
    sides: Seq<VoxelSide>,
    keys: Set<u128>,
    queue: Seq<FloodPoint>,
    current: Option<FloodPoint>,
)
    requires
        !cellwise(t, init),
    ensures
        flood_ok(t, init, visited, memory, sides, keys, queue, current),
{
    reveal(flood_ok);
}

/// Taking `point` from the front of the queue makes it the current point.
proof fn lemma_flood_pop(
    t: Octree<Voxel>,
    init: (u32, u32, u32),
    visited: Set<(u32, u32, u32)>,
    memory: Set<u128>,
    sides: Seq<VoxelSide>,
    keys: Set<u128>,
    waiting: Seq<FloodPoint>,
    rest: Seq<FloodPoint>,
    point: FloodPoint,
)
    requires
        flood_ok(t, init, visited, memory, sides, keys, waiting, None),
        waiting == seq![point] + rest,
    ensures
        flood_ok(t, init, visited, memory, sides, keys, rest, Some(point)),
{
    reveal(flood_ok);
    if cellwise(t, init) {
        assert(waiting[0] == point);
        assert forall|j: int| 0 <= j < rest.len() implies sent_ok(t, visited, #[trigger] rest[j]) by {
            assert(rest[j] == waiting[j + 1]);
        }
        assert forall|v: (u32, u32, u32), dir: u8|
            #![trigger visited.contains(v), next_cell(v, dir)]
            visited.contains(v) && 1 <= dir <= 6 && next_in_tree(v, dir, pow2(t.max_depth())) implies {
                let n = next_cell(v, dir);
                ||| t.at(n.0, n.1, n.2) is None && visited.contains(n)
                ||| t.at(n.0, n.1, n.2) is Some && keys.contains(cell_side_key(n, facing_back(dir)))
                ||| queued(rest, start_target(v, dir, t.max_depth() as u8))
                ||| Some(point) == Some(start_target(v, dir, t.max_depth() as u8))
            } by {
            let x = start_target(v, dir, t.max_depth() as u8);
            if queued(waiting, x) && x != point {
                let j = choose|j: int| 0 <= j < waiting.len() && waiting[j] == x;
                assert(j != 0);
                assert(rest[j - 1] == x);
            }
        }
    }
}

/// The start cell, once walked, is the one visited cell, and the points it
/// sent wait in the queue.
proof fn lemma_flood_first(t: Octree<Voxel>, init: (u32, u32, u32), queue: Seq<FloodPoint>)
    requires
        cellwise(t, init) ==> queue == sends_from(init, t.max_depth() as u8, pow2(t.max_depth()), 0, 6),
        t.max_depth() <= 29,
    ensures
        flood_ok(
            t,
            init,
            Set::empty().insert(init),
            Set::empty().insert(position_key(init)),
            Seq::empty(),
            Set::empty(),
            queue,
            None,
        ),
{
    reveal(flood_ok);
    if cellwise(t, init) {
        let visited = Set::<(u32, u32, u32)>::empty().insert(init);
        let memory = Set::<u128>::empty().insert(position_key(init));
        let edge = pow2(t.max_depth());
        let d = t.max_depth() as u8;
        lemma_reaches_self(t, init);
        lemma_sends_from(init, d, edge, 0, 6);
        lemma_sends_all(init, d, edge, 0);
        vstd::arithmetic::power2::lemma2_to64();
        if t.max_depth() < 29 {
            vstd::arithmetic::power2::lemma_pow2_strictly_increases(t.max_depth(), 29);
        }
        assert forall|k: u128| #[trigger] memory.contains(k) implies exists|v: (u32, u32, u32)| visited.contains(v) && position_key(v) == k by {
            assert(visited.contains(init));
        }
        assert forall|j: int| 0 <= j < queue.len() implies sent_ok(t, visited, #[trigger] queue[j]) by {
            let p = queue[j];
            lemma_step_back(init, p.check_dir, edge);
        }
    }
}

/// A point that enters an empty cell that is not visited yet: the cell is
/// visited and remembered, and the points it sends wait behind the queue.
proof fn lemma_flood_visit(
    t: Octree<Voxel>,
    init: (u32, u32, u32),
    visited: Set<(u32, u32, u32)>,
    memory: Set<u128>,
    sides: Seq<VoxelSide>,
    keys: Set<u128>,
    rest: Seq<FloodPoint>,
    point: FloodPoint,
    queue: Seq<FloodPoint>,
)
    requires
        flood_ok(t, init, visited, memory, sides, keys, rest, Some(point)),
        t.max_depth() <= 29,
        cellwise(t, init) ==> {
            &&& t.at(point.coords.0, point.coords.1, point.coords.2) is None
            &&& !memory.contains(position_key(point.coords))
            &&& queue == rest + sends_from(point.coords, t.max_depth() as u8, pow2(t.max_depth()), point.check_dir, 6)
        },
    ensures
        flood_ok(t, init, visited.insert(point.coords), memory.insert(position_key(point.coords)), sides, keys, queue, None),
{
    reveal(flood_ok);
    if cellwise(t, init) {
        let c = point.coords;
        let v2 = visited.insert(c);
        let m2 = memory.insert(position_key(c));
        let edge = pow2(t.max_depth());
        let d = t.max_depth() as u8;
        let src = sender(point);
        let sent = sends_from(c, d, edge, point.check_dir, 6);
        vstd::arithmetic::power2::lemma2_to64();
        if t.max_depth() < 29 {
            vstd::arithmetic::power2::lemma_pow2_strictly_increases(t.max_depth(), 29);
        }
        assert(sent_ok(t, visited, point));
        assert(visited.contains(src));
        assert(t.empty_cell_in_tree(src));
        lemma_step_back(src, point.check_dir, edge);
        assert(next_cell(src, point.check_dir) == c);
        lemma_reaches_step(t, init, src, point.check_dir);
        lemma_sends_from(c, d, edge, point.check_dir, 6);
        lemma_sends_all(c, d, edge, point.check_dir);
        assert forall|v: (u32, u32, u32)| #[trigger] v2.contains(v) implies t.empty_cell_in_tree(v) && t.reaches(init, v)
            && m2.contains(position_key(v)) by {
        }
        assert forall|k: u128| #[trigger] m2.contains(k) implies exists|v: (u32, u32, u32)| v2.contains(v) && position_key(v) == k by {
            if k != position_key(c) {
                let v = choose|v: (u32, u32, u32)| visited.contains(v) && position_key(v) == k;
                assert(v2.contains(v));
            } else {
                assert(v2.contains(c));
            }
        }
        assert forall|j: int| 0 <= j < queue.len() implies sent_ok(t, v2, #[trigger] queue[j]) by {
            if j < rest.len() {
                assert(queue[j] == rest[j]);
                assert(sent_ok(t, visited, rest[j]));
            } else {
                let p = sent[j - rest.len()];
                assert(queue[j] == p);
                lemma_step_back(c, p.check_dir, edge);
            }
        }
        assert forall|v: (u32, u32, u32), dir: u8|
            #![trigger v2.contains(v), next_cell(v, dir)]
            v2.contains(v) && 1 <= dir <= 6 && next_in_tree(v, dir, edge) implies {
                let n = next_cell(v, dir);
                ||| t.at(n.0, n.1, n.2) is None && v2.contains(n)
                ||| t.at(n.0, n.1, n.2) is Some && keys.contains(cell_side_key(n, facing_back(dir)))
                ||| queued(queue, start_target(v, dir, d))
                ||| None::<FloodPoint> == Some(start_target(v, dir, d))
            } by {
            let n = next_cell(v, dir);
            let x = start_target(v, dir, d);
            if v == c {
                if 1 <= point.check_dir <= 6 && facing_back(point.check_dir) == dir {
                    assert(n == src);
                } else {
                    assert(queued(sent, x));
                    let j = choose|j: int| 0 <= j < sent.len() && sent[j] == x;
                    assert(queue[rest.len() + j] == sent[j]);
                }
            } else {
                assert(visited.contains(v));
                if queued(rest, x) {
                    let j = choose|j: int| 0 <= j < rest.len() && rest[j] == x;
                    assert(queue[j] == rest[j]);
                } else if Some(point) == Some(x) {
                    assert(n == c);
                }
            }
        }
    }
}

/// A point that enters an empty cell already visited changes nothing.
proof fn lemma_flood_seen(
    t: Octree<Voxel>,
    init: (u32, u32, u32),
    visited: Set<(u32, u32, u32)>,
    memory: Set<u128>,
    sides: Seq<VoxelSide>,
    keys: Set<u128>,
    rest: Seq<FloodPoint>,
    point: FloodPoint,
)
    requires
        flood_ok(t, init, visited, memory, sides, keys, rest, Some(point)),
        cellwise(t, init) ==> t.at(point.coords.0, point.coords.1, point.coords.2) is None && memory.contains(
            position_key(point.coords),
        ),
    ensures
        flood_ok(t, init, visited, memory, sides, keys, rest, None),
{
    reveal(flood_ok);
    if cellwise(t, init) {
        let c = point.coords;
        let v = choose|v: (u32, u32, u32)| visited.contains(v) && position_key(v) == position_key(c);
        crate::structure_tests::voxel_hasher::lemma_position_key_injective(v, c);
        assert(visited.contains(c));
        assert forall|w: (u32, u32, u32), dir: u8|
            #![trigger visited.contains(w), next_cell(w, dir)]
            visited.contains(w) && 1 <= dir <= 6 && next_in_tree(w, dir, pow2(t.max_depth())) implies {
                let n = next_cell(w, dir);
                ||| t.at(n.0, n.1, n.2) is None && visited.contains(n)
                ||| t.at(n.0, n.1, n.2) is Some && keys.contains(cell_side_key(n, facing_back(dir)))
                ||| queued(rest, start_target(w, dir, t.max_depth() as u8))
                ||| None::<FloodPoint> == Some(start_target(w, dir, t.max_depth() as u8))
            } by {
            if Some(point) == Some(start_target(w, dir, t.max_depth() as u8)) {
                assert(next_cell(w, dir) == c);
            }
        }
    }
}

/// In a cell-by-cell flood a point never enters an empty cell whose side it
/// would face is recorded: recorded sides are of filled cells.
proof fn lemma_flood_no_side_on_empty(
    t: Octree<Voxel>,
    init: (u32, u32, u32),
    visited: Set<(u32, u32, u32)>,
    memory: Set<u128>,
    sides: Seq<VoxelSide>,
    keys: Set<u128>,
    rest: Seq<FloodPoint>,
    point: FloodPoint,
    facing: u8,
)
    requires
        flood_ok(t, init, visited, memory, sides, keys, rest, Some(point)),
        sides_ok(t, sides, keys),
        cellwise(t, init),
        t.at(point.coords.0, point.coords.1, point.coords.2) is None,
        1 <= facing <= 6,
    ensures
        !keys.contains(cell_side_key(point.coords, facing)),
{
    reveal(flood_ok);
    let c = point.coords;
    if keys.contains(cell_side_key(c, facing)) {
    let i = choose|i: int| 0 <= i < sides.len() && side_key(#[trigger] sides[i]) == cell_side_key(c, facing);
    let s = sides[i];
    assert(side_in_range(s));
    assert(t.side_seen_from(init, s));
    assert(1 <= s.facing() <= 6);
    lemma_key_parts(
        s.position().0 as int,
        s.position().1 as int,
        s.position().2 as int,
        s.facing() as int,
        c.0 as int,
        c.1 as int,
        c.2 as int,
        facing as int,
    );
    assert((s.position().0 as u32, s.position().1 as u32, s.position().2 as u32) == c);
    }
}

/// A point that enters a filled cell records the cell's side facing the cell
/// it came from: that side is seen from the start.
proof fn lemma_flood_filled(
    t: Octree<Voxel>,
    init: (u32, u32, u32),
    visited: Set<(u32, u32, u32)>,
    memory: Set<u128>,
    sides0: Seq<VoxelSide>,
    keys0: Set<u128>,
    sides1: Seq<VoxelSide>,
    keys1: Set<u128>,
    rest: Seq<FloodPoint>,
    point: FloodPoint,
    data: Rc<Voxel>,
)
    requires
        flood_ok(t, init, visited, memory, sides0, keys0, rest, Some(point)),
        t.max_depth() <= 29,
        cellwise(t, init) ==> {
            &&& t.at(point.coords.0, point.coords.1, point.coords.2) == Some(data)
            &&& keys1 == keys0.insert(cell_side_key(point.coords, facing_back(point.check_dir)))
            &&& sides0.len() <= sides1.len()
            &&& forall|n: int| 0 <= n < sides0.len() ==> #[trigger] sides1[n] == sides0[n]
            &&& forall|n: int| sides0.len() <= n < sides1.len() ==> #[trigger] sides1[n] == cell_side(
                point.coords,
                facing_back(point.check_dir),
                data,
            )
        },
    ensures
        flood_ok(t, init, visited, memory, sides1, keys1, rest, None),
{
    reveal(flood_ok);
    if cellwise(t, init) {
        let c = point.coords;
        let edge = pow2(t.max_depth());
        let f = facing_back(point.check_dir);
        let src = sender(point);
        vstd::arithmetic::power2::lemma2_to64();
        if t.max_depth() < 29 {
            vstd::arithmetic::power2::lemma_pow2_strictly_increases(t.max_depth(), 29);
        }
        assert(sent_ok(t, visited, point));
        lemma_step_back(src, point.check_dir, edge);
        assert(next_cell(src, point.check_dir) == c);
        let side = cell_side(c, f, data);
        VoxelSide::lemma_made((c.0 as i64, c.1 as i64, c.2 as i64), voxel_color(data), f);
        assert(t.side_seen_from(init, side)) by {
            assert((side.position().0 as u32, side.position().1 as u32, side.position().2 as u32) == c);
            assert(next_cell(c, f) == src);
        }
        assert forall|i: int| 0 <= i < sides1.len() implies t.side_seen_from(init, #[trigger] sides1[i]) by {
            if i < sides0.len() {
                assert(sides1[i] == sides0[i]);
            }
        }
        assert forall|v: (u32, u32, u32), dir: u8|
            #![trigger visited.contains(v), next_cell(v, dir)]
            visited.contains(v) && 1 <= dir <= 6 && next_in_tree(v, dir, edge) implies {
                let n = next_cell(v, dir);
                ||| t.at(n.0, n.1, n.2) is None && visited.contains(n)
                ||| t.at(n.0, n.1, n.2) is Some && keys1.contains(cell_side_key(n, facing_back(dir)))
                ||| queued(rest, start_target(v, dir, t.max_depth() as u8))
                ||| None::<FloodPoint> == Some(start_target(v, dir, t.max_depth() as u8))
            } by {
            if Some(point) == Some(start_target(v, dir, t.max_depth() as u8)) {
                assert(next_cell(v, dir) == c);
                assert(point.check_dir == dir);
            }
        }
    }
}

/// With nothing left to look at, a cell-by-cell flood has found exactly the
/// sides seen from the start: every side it found is one, and every filled
/// cell next to a cell reached from the start has its side facing that cell.
proof fn lemma_flood_done(
    t: Octree<Voxel>,
    init: (u32, u32, u32),
    visited: Set<(u32, u32, u32)>,
    memory: Set<u128>,
    sides: Seq<VoxelSide>,
    keys: Set<u128>,
)
    requires
        flood_ok(t, init, visited, memory, sides, keys, Seq::empty(), None),
        sides_ok(t, sides, keys),
        cellwise(t, init),
        visited.contains(init),
    ensures
        forall|i: int| 0 <= i < sides.len() ==> t.side_seen_from(init, #[trigger] sides[i]),
        forall|e: (u32, u32, u32), dir: u8| t.reaches(init, e) && #[trigger] t.filled_next_to(e, dir) ==> exists|i: int|
            0 <= i < sides.len() && #[trigger] sides[i].position() == cell_position(next_cell(e, dir)) && sides[i].facing()
                == facing_back(dir),
{
    reveal(flood_ok);
    let edge = pow2(t.max_depth());
    assert forall|e: (u32, u32, u32), dir: u8| t.reaches(init, e) && #[trigger] t.filled_next_to(e, dir) implies exists|i: int|
        0 <= i < sides.len() && #[trigger] sides[i].position() == cell_position(next_cell(e, dir)) && sides[i].facing()
            == facing_back(dir) by {
        let path = choose|path: Seq<(u32, u32, u32)>| #[trigger] t.empty_path(path) && path[0] == init && path.last() == e;
        assert forall|v: (u32, u32, u32), d2: u8|
            #![trigger visited.contains(v), next_cell(v, d2)]
            visited.contains(v) && 1 <= d2 <= 6 && next_in_tree(v, d2, edge)
                && t.at(next_cell(v, d2).0, next_cell(v, d2).1, next_cell(v, d2).2) is None implies visited.contains(next_cell(v, d2)) by {
            assert(!queued(Seq::<FloodPoint>::empty(), start_target(v, d2, t.max_depth() as u8)));
        }
        lemma_path_visited(t, visited, path, path.len() - 1);
        assert(visited.contains(e));
        let n = next_cell(e, dir);
        assert(!queued(Seq::<FloodPoint>::empty(), start_target(e, dir, t.max_depth() as u8)));
        let k = cell_side_key(n, facing_back(dir));
        assert(keys.contains(k));
        let i = choose|i: int| 0 <= i < sides.len() && side_key(#[trigger] sides[i]) == k;
        let side = sides[i];
        assert(side_in_range(side));
        assert(1 <= side.facing() <= 6);
        lemma_key_parts(
            side.position().0 as int,
            side.position().1 as int,
            side.position().2 as int,
            side.facing() as int,
            n.0 as int,
            n.1 as int,
            n.2 as int,
            facing_back(dir) as int,
        );
    }
}

/// The current point of a cell-by-cell flood was sent across its direction
/// from a visited empty unit cell, and its cell lies in the tree.
proof fn lemma_flood_current(
    t: Octree<Voxel>,
    init: (u32, u32, u32),
    visited: Set<(u32, u32, u32)>,
    memory: Set<u128>,
    sides: Seq<VoxelSide>,
    keys: Set<u128>,
    rest: Seq<FloodPoint>,
    point: FloodPoint,
)
    requires
        flood_ok(t, init, visited, memory, sides, keys, rest, Some(point)),
        t.max_depth() <= 29,
    ensures
        cellwise(t, init) ==> {
            &&& 1 <= point.check_dir <= 6
            &&& point.depth == t.max_depth()
            &&& point.source_size == 1
            &&& point.coords.0 < pow2(t.max_depth()) && point.coords.1 < pow2(t.max_depth()) && point.coords.2 < pow2(t.max_depth())
            &&& t.empty_unit_cell(sender(point))
            &&& next_in_tree(sender(point), point.check_dir, pow2(t.max_depth()))
            &&& next_cell(sender(point), point.check_dir) == point.coords
        },
{
    reveal(flood_ok);
    if cellwise(t, init) {
        let src = sender(point);
        vstd::arithmetic::power2::lemma2_to64();
        if t.max_depth() < 29 {
            vstd::arithmetic::power2::lemma_pow2_strictly_increases(t.max_depth(), 29);
        }
        assert(sent_ok(t, visited, point));
        assert(t.empty_cell_in_tree(src));
        assert(t.at(src.0, src.1, src.2) is None);
        lemma_step_back(src, point.check_dir, pow2(t.max_depth()));
    }
}

/// A one-cell square adds the key of its cell, and any side it adds is that
/// cell's.
proof fn lemma_unit_square(
    keys1: Set<u128>,
    keys0: Set<u128>,
    sides1: Seq<VoxelSide>,
    sides0: Seq<VoxelSide>,
    axis: u8,
    fixed: u32,
    a0: u32,
    b0: u32,
    facing: u8,
    data: Rc<Voxel>,
    c: (u32, u32, u32),
)
    requires
        square_keys_so_far(keys1, keys0, axis, fixed, a0, b0, facing, 1, 1, 0),
        square_sides_so_far(sides1, sides0, axis, fixed, a0, b0, facing, 1, data),
        square_cell(axis, fixed, a0, b0, 0, 0) == c,
    ensures
        keys1 == keys0.insert(cell_side_key(c, facing)),
        sides0.len() <= sides1.len(),
        forall|n: int| 0 <= n < sides0.len() ==> #[trigger] sides1[n] == sides0[n],
        forall|n: int| sides0.len() <= n < sides1.len() ==> #[trigger] sides1[n] == cell_side(c, facing, data),
{
    assert forall|k: u128| keys1.contains(k) <==> keys0.insert(cell_side_key(c, facing)).contains(k) by {
        if k == cell_side_key(c, facing) {
            assert(k == square_key(axis, fixed, a0, b0, facing, 0, 0));
        }
    }
    assert(keys1 =~= keys0.insert(cell_side_key(c, facing)));
    assert forall|n: int| sides0.len() <= n < sides1.len() implies #[trigger] sides1[n] == cell_side(c, facing, data) by {
        let (i2, j2) = choose|i2: u32, j2: u32| i2 < 1 && j2 < 1 && #[trigger] sides1[n] == cell_side(square_cell(axis, fixed, a0, b0, i2, j2), facing, data);
        assert(i2 == 0 && j2 == 0);
    }
}

impl Octree<Voxel> {
    /// The sides of voxels that a flood through the empty leaves, started at
    /// `initial_point`, runs into. The flood takes each empty leaf as a whole
    /// and, where it runs into a filled leaf, records a square of sides as wide
    /// as the leaf it came from, each side once. What is stated of every tree:
    /// each side faces one of the six directions in the color of a voxel of the
    /// tree, no side is recorded twice, a start in a filled cell gives nothing,
    /// and a start in an empty unit cell gets the sides of its filled
    /// neighbours. Where every empty leaf is a single cell and the start is
    /// empty, the result is exact: the sides of filled cells, in their own
    /// voxel's color, whose neighbour across the side is an empty cell that an
    /// empty path leads to from the start, each such side once. With larger
    /// empty leaves the flood may record sides on cells that are not filled and
    /// miss some faces, as the walk of the original does.
    ///
    /// The walk computes the cube of every empty leaf it enters in `u32` and
    /// asks for a queue of `4^max_depth` points: it fails on an empty leaf 2048
    /// or more cells wide that it enters, on a depth above 29 (the queue would
    /// pass `isize::MAX` bytes) and where `4^max_depth` does not fit a `usize`.
    /// From an empty start it is asked here that no empty leaf of the tree is
    /// that wide, reached or not.
    #[verifier::spinoff_prover]
    #[verifier::rlimit(100)]
    pub fn get_visible_with_flood(&self, initial_point: (u32, u32, u32)) -> (r: Vec<VoxelSide>)
        requires
            self.max_depth() <= 29,
            pow2(self.max_depth()) * pow2(self.max_depth()) <= usize::MAX,
            self.at(initial_point.0, initial_point.1, initial_point.2) is None ==> forall|q: (u32, u32, u32)|
                #[trigger] self.at(q.0, q.1, q.2) is None ==> self.leaf_level(q.0, q.1, q.2) <= 10,
            initial_point.0 < pow2(self.max_depth()),
            initial_point.1 < pow2(self.max_depth()),
            initial_point.2 < pow2(self.max_depth()),
        ensures
            forall|i: int| 0 <= i < r.len() ==> self.shows_side(#[trigger] r[i]),
            forall|i: int, j: int|
                0 <= i < j < r.len() ==> (#[trigger] r[i]).position() != (#[trigger] r[j]).position()
                    || r[i].facing() != r[j].facing(),
            self.at(initial_point.0, initial_point.1, initial_point.2) is Some ==> r.len() == 0,
            self.empty_leaves_are_cells() && self.empty_cell_in_tree(initial_point) ==> forall|i: int|
                0 <= i < r.len() ==> self.side_seen_from(initial_point, #[trigger] r[i]),
            self.empty_leaves_are_cells() && self.empty_cell_in_tree(initial_point) ==> forall|e: (u32, u32, u32), dir: u8|
                self.reaches(initial_point, e) && #[trigger] self.filled_next_to(e, dir) ==> exists|i: int|
                    0 <= i < r.len() && #[trigger] r[i].position() == cell_position(next_cell(e, dir)) && r[i].facing()
                        == facing_back(dir),
            forall|dir: u8|
                self.empty_unit_cell(initial_point) && #[trigger] self.filled_next_to(initial_point, dir) ==> exists|i: int|
                    0 <= i < r.len() && r[i].position() == cell_position(next_cell(initial_point, dir)) && r[i].facing()
                        == facing_back(dir),
    {
        proof {
            use_type_invariant(self);
            lemma_edge(self.max_depth);
            if self.at(initial_point.0, initial_point.1, initial_point.2) is None {
                assert forall|q: (u32, u32, u32)| #[trigger] self.root.lookup(self.max_depth as nat, q) is None implies self.root.leaf_level(
                    self.max_depth as nat,
                    q,
                ) <= 10 by {
                    assert(self.at(q.0, q.1, q.2) == self.root.lookup(self.max_depth as nat, q));
                    assert(self.leaf_level(q.0, q.1, q.2) == self.root.leaf_level(self.max_depth as nat, q));
                }
            }
        }
        let max_depth = self.max_depth;
        let ghost d = max_depth as nat;
        let root_size: u32 = 1u32 << max_depth;

        let mut result: Vec<VoxelSide> = Vec::new();
        let mut result_keys: HashSet<u128> = HashSet::new();
        let mut points_memory: HashSet<u128> = HashSet::new();
        let mut points: VecDeque<FloodPoint> = VecDeque::with_capacity((root_size as usize) * (root_size as usize));
        // The node where the previous walk down the tree stopped.
        let mut last_offset: (u32, u32, u32) = (0, 0, 0);
        let mut last_depth: u8 = 0;

        points.push_front(
            FloodPoint { coords: initial_point, depth: max_depth, check_dir: Direction::UNSPECIFIED, source_size: 0 },
        );
        let ghost mut first = true;
        let ghost init = initial_point;
        let ghost mut visited: Set<(u32, u32, u32)> = Set::empty();
        proof {
            assert(points@ =~= seq![start_point(init, max_depth)]);
        }

        loop
            invariant
                max_depth == self.max_depth,
                d == max_depth,
                max_depth <= 29,
                root_size as nat == pow2(d),
                root_size <= 0x2000_0000,
                self.root.wf(d),
                self.at(init.0, init.1, init.2) is None ==> forall|q: (u32, u32, u32)| #[trigger] self.root.lookup(d, q) is None
                    ==> self.root.leaf_level(d, q) <= 10,
                last_depth <= max_depth,
                last_offset.0 < 0x2000_0000,
                last_offset.1 < 0x2000_0000,
                last_offset.2 < 0x2000_0000,
                forall|j: int| 0 <= j < points@.len() ==> point_ok(#[trigger] points@[j], d),
                points_memory@.finite(),
                points_memory@.len() <= usize::MAX,
                sides_ok(*self, result@, result_keys@),
                init == initial_point,
                init.0 < root_size,
                init.1 < root_size,
                init.2 < root_size,
                first ==> points@ == seq![start_point(init, max_depth)] && last_depth == 0 && result_keys@ == Set::<
                    u128,
                >::empty() && points_memory@ == Set::<u128>::empty(),
                !first ==> next_sides_pending(*self, init, result_keys@, points@, None),
                first ==> result@.len() == 0,
                self.at(init.0, init.1, init.2) is Some ==> first || points@.len() == 0 && result@.len() == 0,
                !first ==> flood_ok(*self, init, visited, points_memory@, result@, result_keys@, points@, None),
                !first && cellwise(*self, init) ==> visited.contains(init),
            ensures
                sides_ok(*self, result@, result_keys@),
                !first,
                points@.len() == 0,
                flood_ok(*self, init, visited, points_memory@, result@, result_keys@, points@, None),
                cellwise(*self, init) ==> visited.contains(init),
                self.at(init.0, init.1, init.2) is Some ==> result@.len() == 0,
            decreases usize::MAX - points_memory@.len(), queue_weight(points@, d),
        {
            let ghost waiting = points@;
            let popped = points.pop_front();
            let point = match popped {
                Some(point) => point,
                None => {
                    break ;
                },
            };
            let ghost was_first = first;
            let ghost keys0 = result_keys@;
            let ghost rest = points@;
            proof {
                first = false;
                assert(waiting =~= seq![point] + points@);
                if was_first {
                    assert(point == start_point(init, max_depth));
                    assert(points@.len() == 0);
                } else {
                    lemma_pending_pop(*self, init, keys0, waiting, rest, point);
                    lemma_flood_pop(*self, init, visited, points_memory@, result@, keys0, waiting, rest, point);
                    lemma_flood_current(*self, init, visited, points_memory@, result@, keys0, rest, point);
                }
                lemma_queue_weight_push_front(points@, point, d);
                lemma_five_pow_pos((d + 1 - point.depth) as nat);
                assert(point_ok(waiting[0], d));
                assert forall|j: int| 0 <= j < points@.len() implies point_ok(#[trigger] points@[j], d) by {
                    assert(points@[j] == waiting[j + 1]);
                }
            }
            // A point outside the tree has no cube to enter.
            if !(point.coords.0 < root_size && point.coords.1 < root_size && point.coords.2 < root_size) {
                proof {
                    assert(!was_first);
                    lemma_pending_kept(*self, init, keys0, result_keys@, rest, points@, 0, Some(point));
                    lemma_flood_vacuous(*self, init, visited, points_memory@, result@, result_keys@, points@, None);
                }
                continue ;
            }

            // Going up from the previous node to the first one that holds the point.
            let mut up_depth: u8 = last_depth;
            while up_depth > 0
                invariant
                    up_depth <= last_depth,
                    last_depth <= max_depth,
                    max_depth <= 29,
                    last_offset.0 < 0x2000_0000,
                    last_offset.1 < 0x2000_0000,
                    last_offset.2 < 0x2000_0000,
                    point.coords.0 < 0x2000_0000,
                    point.coords.1 < 0x2000_0000,
                    point.coords.2 < 0x2000_0000,
                decreases up_depth,
            {
                proof {
                    lemma_edge((max_depth - up_depth) as u8);
                    vstd::arithmetic::power2::lemma_pow2_pos((max_depth - up_depth) as nat);
                }
                let up_size: u32 = 1u32 << (max_depth - up_depth);
                let mask: u32 = !(up_size - 1);
                let up_offset = (last_offset.0 & mask, last_offset.1 & mask, last_offset.2 & mask);
                proof {
                    let (a, b, c) = (last_offset.0, last_offset.1, last_offset.2);
                    assert(a & mask <= a && b & mask <= b && c & mask <= c) by (bit_vector);
                }
                if contains_point(&up_offset, up_size, &point.coords) {
                    break ;
                }
                up_depth = up_depth - 1;
            }

            // Going down from there, as far as the point's own depth.
            let stop_depth: u8 = if up_depth > point.depth {
                up_depth
            } else {
                point.depth
            };
            let reached = reach(&self.root, max_depth, (0, 0, 0), root_size, &point.coords, max_depth - stop_depth);
            let (reach_kind, node_offset, reversed_depth) = reached;
            proof {
                lemma_edge(reversed_depth);
                vstd::arithmetic::power2::lemma_pow2_pos(reversed_depth as nat);
            }
            let depth: u8 = max_depth - reversed_depth;
            let node_size: u32 = 1u32 << reversed_depth;
            last_offset = node_offset;
            last_depth = depth;
            proof {
                assert(was_first ==> up_depth == 0);
                assert(point.depth == max_depth ==> max_depth - stop_depth == 0);
                assert(forall|q: (u32, u32, u32)| #[trigger] self.at(q.0, q.1, q.2) == self.root.lookup(d, q));
            }

            match reach_kind {
                Reach::Branch => {
                    // The point enters a branch: it goes on as four points, one
                    // for each child on the side it comes from.
                    let deeper_leaf_size: u32 = 1u32 << (reversed_depth - 1);
                    proof {
                        lemma_edge((reversed_depth - 1) as u8);
                    }
                    let children = Direction::split_branch_point_into_chilren_by_direction(
                        point.check_dir,
                        point.coords,
                        deeper_leaf_size,
                    );
                    push_split(&mut points, children, point.check_dir, point.depth + 1, deeper_leaf_size, Ghost(d));
                    proof {
                        assert(!was_first);
                        lemma_pending_kept(*self, init, keys0, result_keys@, rest, points@, 4, Some(point));
                        lemma_flood_vacuous(*self, init, visited, points_memory@, result@, result_keys@, points@, None);
                        let n = (d - point.depth) as nat;
                        assert((d + 1 - point.depth) as nat == n + 1);
                        assert(five_pow(n + 1) == 5 * five_pow(n));
                    }
                    continue ;
                },
                Reach::Leaf(Some(data)) => {
                    // A filled leaf: the sides that the point's cube faces.
                    proof {
                        assert(self.at(point.coords.0, point.coords.1, point.coords.2) == Some(data));
                    }
                    let ghost sides0 = result@;
                    let ghost cw_step = !was_first && cellwise(*self, init);
                    proof {
                        if cw_step {
                            let v = data;
                            let hi = ((node_offset.0 + pow2(reversed_depth as nat)) as u32, (node_offset.1 + pow2(reversed_depth as nat)) as u32, (node_offset.2 + pow2(reversed_depth as nat)) as u32);
                            assert forall|q: (u32, u32, u32)| in_cells(q, node_offset, hi) implies #[trigger] self.at(q.0, q.1, q.2) == Some(v) by {
                                assert(self.root.lookup(d, q) == Some(v));
                            }
                            lemma_entry_face(*self, sender(point), point.check_dir, node_offset, pow2(reversed_depth as nat), v);
                        }
                    }
                    let ghost target_dir: u8 = point.check_dir;
                    let ghost is_target = !was_first && self.empty_unit_cell(init) && self.filled_next_to(init, target_dir)
                        && point == start_target(init, target_dir, max_depth);
                    proof {
                        if is_target {
                            let v = data;
                            let hi = ((node_offset.0 + pow2(reversed_depth as nat)) as u32, (node_offset.1 + pow2(reversed_depth as nat)) as u32, (node_offset.2 + pow2(reversed_depth as nat)) as u32);
                            assert forall|q: (u32, u32, u32)| in_cells(q, node_offset, hi) implies #[trigger] self.at(q.0, q.1, q.2) == Some(v) by {
                                assert(self.root.lookup(d, q) == Some(v));
                            }
                            lemma_entry_face(*self, init, target_dir, node_offset, pow2(reversed_depth as nat), v);
                        }
                    }
                    match point.check_dir {
                        1 | 2 => {
                            let x = node_offset.0 + if point.check_dir == 2 {
                                0
                            } else {
                                node_size - 1
                            };
                            add_square(
                                self,
                                &mut result,
                                &mut result_keys,
                                0,
                                x,
                                point.coords.1,
                                point.coords.2,
                                point.source_size,
                                Direction::get_opposite(point.check_dir),
                                &data,
                                Ghost(point.coords),
                            );
                        },
                        3 | 4 => {
                            let y = node_offset.1 + if point.check_dir == 3 {
                                0
                            } else {
                                node_size - 1
                            };
                            add_square(
                                self,
                                &mut result,
                                &mut result_keys,
                                1,
                                y,
                                point.coords.0,
                                point.coords.2,
                                point.source_size,
                                Direction::get_opposite(point.check_dir),
                                &data,
                                Ghost(point.coords),
                            );
                        },
                        5 | 6 => {
                            let z = node_offset.2 + if point.check_dir == 5 {
                                0
                            } else {
                                node_size - 1
                            };
                            add_square(
                                self,
                                &mut result,
                                &mut result_keys,
                                2,
                                z,
                                point.coords.0,
                                point.coords.1,
                                point.source_size,
                                Direction::get_opposite(point.check_dir),
                                &data,
                                Ghost(point.coords),
                            );
                        },
                        _ => {},
                    }
                    proof {
                        assert(keys0.subset_of(result_keys@));
                        if is_target {
                            let n = next_cell(init, target_dir);
                            let f = facing_back(target_dir);
                            let axis: u8 = if target_dir <= 2 { 0 } else if target_dir <= 4 { 1 } else { 2 };
                            let fixed: u32 = if axis == 0 { n.0 } else if axis == 1 { n.1 } else { n.2 };
                            let a0: u32 = if axis == 0 { n.1 } else { n.0 };
                            let b0: u32 = if axis == 2 { n.1 } else { n.2 };
                            assert(square_cell(axis, fixed, a0, b0, 0, 0) == n);
                            let k = square_key(axis, fixed, a0, b0, f, 0, 0);
                            assert(result_keys@.contains(k));
                            assert(next_side_found(init, target_dir, result_keys@));
                        }
                        if was_first {
                            lemma_pending_vacuous(*self, init, result_keys@, points@);
                            lemma_flood_vacuous(*self, init, visited, points_memory@, result@, result_keys@, points@, None);
                        } else {
                            lemma_pending_kept(*self, init, keys0, result_keys@, rest, points@, 0, Some(point));
                            if cw_step {
                                let n = point.coords;
                                let dir = point.check_dir;
                                let f = facing_back(dir);
                                let axis: u8 = if dir <= 2 { 0 } else if dir <= 4 { 1 } else { 2 };
                                let fixed: u32 = if axis == 0 { n.0 } else if axis == 1 { n.1 } else { n.2 };
                                let a0: u32 = if axis == 0 { n.1 } else { n.0 };
                                let b0: u32 = if axis == 2 { n.1 } else { n.2 };
                                assert(square_cell(axis, fixed, a0, b0, 0, 0) == n);
                                lemma_unit_square(result_keys@, keys0, result@, sides0, axis, fixed, a0, b0, f, data, n);
                            }
                            lemma_flood_filled(*self, init, visited, points_memory@, sides0, keys0, result@, result_keys@, points@, point, data);
                        }
                    }
                    continue ;
                },
                Reach::Leaf(None) => {},
            }

            // An empty leaf: walked once, from the first point that enters it.
            let cell_key = key_of(point.coords.0, point.coords.1, point.coords.2);
            proof {
                assert(forall|dir: u8| self.empty_unit_cell(init) && #[trigger] self.filled_next_to(init, dir)
                    ==> point != start_target(init, dir, max_depth));
            }
            proof {
                if !was_first {
                    lemma_flood_current(*self, init, visited, points_memory@, result@, result_keys@, points@, point);
                }
                if cellwise(*self, init) {
                    assert(self.at(point.coords.0, point.coords.1, point.coords.2) is None);
                    assert(reversed_depth == 0);
                    vstd::arithmetic::power2::lemma2_to64();
                    assert(node_offset == point.coords && node_size == 1 && depth == max_depth);
                }
            }
            if points_memory.contains(&cell_key) {
                proof {
                    assert(!was_first);
                    lemma_pending_kept(*self, init, keys0, result_keys@, rest, points@, 0, Some(point));
                    lemma_flood_seen(*self, init, visited, points_memory@, result@, result_keys@, points@, point);
                }
                continue ;
            }
            if point.check_dir != Direction::UNSPECIFIED {
                let side = cell_key + (Direction::get_opposite(point.check_dir) as u128)
                    * 0x1_0000_0000_0000_0000_0000_0000;
                if result_keys.contains(&side) {
                    proof {
                        assert(!was_first);
                        lemma_pending_kept(*self, init, keys0, result_keys@, rest, points@, 0, Some(point));
                        assert(side == cell_side_key(point.coords, facing_back(point.check_dir)));
                        if cellwise(*self, init) {
                            lemma_flood_no_side_on_empty(*self, init, visited, points_memory@, result@, result_keys@, points@, point, facing_back(point.check_dir));
                        }
                        lemma_flood_vacuous(*self, init, visited, points_memory@, result@, result_keys@, points@, None);
                    }
                    continue ;
                }
            }
            // The entry cell is remembered too, so no later point walks this leaf again.
            let ghost memory_before = points_memory@;
            proof {
                vstd::set::axiom_set_insert_len(points_memory@, cell_key);
            }
            points_memory.insert(cell_key);

            // Generate siblings for the empty leaf
            let next_points = send_points(node_offset, node_size, depth, point.check_dir, root_size, Ghost(d));
            let ghost fresh = was_first && self.empty_unit_cell(init);
            proof {
                if fresh {
                    assert(reversed_depth == 0);
                    vstd::arithmetic::power2::lemma2_to64();
                    assert(node_offset == init && node_size == 1 && depth == max_depth);
                }
            }

            // Memoize outer children
            if node_size == 1 {
                remember(&mut points_memory, node_offset);
            } else if node_size == 2 {
                remember(&mut points_memory, node_offset);
                remember(&mut points_memory, (node_offset.0 + 1, node_offset.1, node_offset.2));
                remember(&mut points_memory, (node_offset.0, node_offset.1 + 1, node_offset.2));
                remember(&mut points_memory, (node_offset.0 + 1, node_offset.1 + 1, node_offset.2));
                remember(&mut points_memory, (node_offset.0, node_offset.1, node_offset.2 + 1));
                remember(&mut points_memory, (node_offset.0 + 1, node_offset.1, node_offset.2 + 1));
                remember(&mut points_memory, (node_offset.0, node_offset.1 + 1, node_offset.2 + 1));
                remember(&mut points_memory, (node_offset.0 + 1, node_offset.1 + 1, node_offset.2 + 1));
            } else {
                assert(self.at(init.0, init.1, init.2) is None) by {
                    if !was_first {
                        assert(waiting.len() > 0);
                    }
                }
                assert(reversed_depth <= 10);
                remember_shell(&mut points_memory, node_offset, node_size, root_size);
            }
            proof {
                assert(points_memory@.len() == points_memory.len());
            }

            proof {
                if fresh {
                    lemma_sends(init, max_depth, root_size as nat);
                }
            }
            // Process siblings
            let ghost before_siblings = points@;
            points.reserve(next_points.len());
            let mut i: usize = 0;
            while i < next_points.len()
                invariant
                    forall|j: int| 0 <= j < points@.len() ==> point_ok(#[trigger] points@[j], d),
                    forall|j: int| 0 <= j < next_points@.len() ==> point_ok(#[trigger] next_points@[j], d),
                    i <= next_points@.len(),
                    points@.len() == before_siblings.len() + i,
                    forall|j: int| 0 <= j < before_siblings.len() ==> points@[j] == #[trigger] before_siblings[j],
                    forall|j: int| 0 <= j < i ==> points@[before_siblings.len() + j] == #[trigger] next_points@[j],
                decreases next_points@.len() - i,
            {
                let ghost before = points@;
                points.push_back(next_points[i]);
                proof {
                    assert forall|j: int| 0 <= j < points@.len() implies point_ok(#[trigger] points@[j], d) by {
                        if j < before.len() {
                            assert(points@[j] == before[j]);
                        } else {
                            assert(points@[j] == next_points@[i as int]);
                        }
                    }
                    assert forall|j: int| 0 <= j < before_siblings.len() implies points@[j] == #[trigger] before_siblings[j] by {
                        assert(points@[j] == before[j]);
                    }
                    assert forall|j: int| 0 <= j < i + 1 implies points@[before_siblings.len() + j] == #[trigger] next_points@[j] by {
                        if j < i {
                            assert(points@[before_siblings.len() + j] == before[before_siblings.len() + j]);
                        }
                    }
                }
                i = i + 1;
            }
            proof {
                assert(points@ =~= before_siblings + next_points@);
                if was_first {
                    lemma_pending_first(*self, init, result_keys@, next_points@, points@, before_siblings.len() as int);
                    assert(before_siblings.len() == 0);
                    assert(points@ =~= next_points@);
                    if cellwise(*self, init) {
                        assert(point.coords == init);
                        assert(points_memory@ =~= Set::<u128>::empty().insert(position_key(init)));
                    }
                    lemma_flood_first(*self, init, points@);
                    if cellwise(*self, init) {
                        assert(result@ =~= Seq::<VoxelSide>::empty());
                        assert(result_keys@ =~= Set::<u128>::empty());
                        visited = Set::empty().insert(init);
                    } else {
                        lemma_flood_vacuous(*self, init, visited, points_memory@, result@, result_keys@, points@, None);
                    }
                } else {
                    lemma_pending_kept(*self, init, keys0, result_keys@, rest, points@, 0, Some(point));
                    if cellwise(*self, init) {
                        assert(points_memory@ =~= memory_before.insert(position_key(point.coords)));
                    }
                    lemma_flood_visit(*self, init, visited, memory_before, result@, result_keys@, rest, point, points@);
                    if cellwise(*self, init) {
                        visited = visited.insert(point.coords);
                    } else {
                        lemma_flood_vacuous(*self, init, visited, points_memory@, result@, result_keys@, points@, None);
                    }
                }
            }
        }
        proof {
            if cellwise(*self, init) {
                assert(points@ =~= Seq::<FloodPoint>::empty());
                lemma_flood_done(*self, init, visited, points_memory@, result@, result_keys@);
            }
            assert forall|i: int, j: int| 0 <= i < j < result@.len() implies (#[trigger] result@[i]).position()
                != (#[trigger] result@[j]).position() || result@[i].facing() != result@[j].facing() by {
                assert(side_key(result@[i]) != side_key(result@[j]));
            }
            assert forall|dir: u8| self.empty_unit_cell(initial_point) && #[trigger] self.filled_next_to(initial_point, dir) implies exists|i: int|
                0 <= i < result@.len() && result@[i].position() == cell_position(next_cell(initial_point, dir)) && result@[i].facing()
                    == facing_back(dir) by {
                let n = next_cell(init, dir);
                let k = cell_side_key(n, facing_back(dir));
                assert(points@ =~= Seq::<FloodPoint>::empty());
                lemma_pending_done(*self, init, result_keys@, dir);
                let i = choose|i: int| 0 <= i < result@.len() && side_key(#[trigger] result@[i]) == k;
                let side = result@[i];
                assert(side_in_range(side));
                assert(1 <= side.facing() <= 6);
                lemma_key_parts(
                    side.position().0 as int,
                    side.position().1 as int,
                    side.position().2 as int,
                    side.facing() as int,
                    n.0 as int,
                    n.1 as int,
                    n.2 as int,
                    facing_back(dir) as int,
                );
            }
        }
        result
    }
}

} // verus!
