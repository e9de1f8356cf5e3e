use vstd::prelude::*;
use std::sync::Arc;

use crate::rc_util::{clone_arc, clone_arc_value};
use crate::structure_tests::tester::{WORLD_X, WORLD_Y, WORLD_Z};

verus! {

/// Number of filled cells among `s`.
pub open spec fn filled_count<T>(s: Seq<Option<Arc<T>>>) -> nat
    decreases s.len(),
{
    if s.len() == 0 {
        0
    } else {
        filled_count(s.drop_last()) + if s.last() is Some { 1nat } else { 0nat }
    }
}

proof fn lemma_filled_count_bound<T>(s: Seq<Option<Arc<T>>>)
    ensures
        filled_count(s) <= s.len(),
    decreases s.len(),
{
    if s.len() > 0 {
        lemma_filled_count_bound(s.drop_last());
    }
}

proof fn lemma_filled_count_update<T>(s: Seq<Option<Arc<T>>>, i: int, v: Option<Arc<T>>)
    requires
        0 <= i < s.len(),
    ensures
        filled_count(s.update(i, v)) + (if s[i] is Some { 1int } else { 0int })
            == filled_count(s) + (if v is Some { 1int } else { 0int }),
    decreases s.len(),
{
    let t = s.update(i, v);
    if i < s.len() - 1 {
        lemma_filled_count_update(s.drop_last(), i, v);
        assert(t.drop_last() =~= s.drop_last().update(i, v));
    } else {
        assert(t.drop_last() =~= s.drop_last());
    }
}

/// The cell `p` lies in the box `lo..=hi`.
pub open spec fn in_range_box(p: (int, int, int), lo: (int, int, int), hi: (int, int, int)) -> bool {
    lo.0 <= p.0 <= hi.0 && lo.1 <= p.1 <= hi.1 && lo.2 <= p.2 <= hi.2
}

/// The cell `p` of the box `lo..=hi` comes before `(cx, cy, cz)` when the box
/// is walked z-major, then y, then x.
pub open spec fn walked_before(p: (int, int, int), lo: (int, int, int), hi: (int, int, int), cx: int, cy: int, cz: int) -> bool {
    &&& in_range_box(p, lo, hi)
    &&& (p.2 < cz || (p.2 == cz && (p.1 < cy || (p.1 == cy && p.0 < cx))))
}

/// A dense box of cells, stored z-major, then y, then x.
pub struct VoxelMap<T> {
    pub data: Vec<Option<Arc<T>>>,
    pub size_x: usize,
    pub size_y: usize,
    pub size_z: usize,
    pub filled_cells: u32,
}

impl<T> VoxelMap<T> {
    /// The cells are `size_x * size_y * size_z` (at most `u32::MAX`), and
    /// `filled_cells` counts those that hold a value.
    pub open spec fn wf(self) -> bool {
        &&& self.data@.len() == self.size_x * self.size_y * self.size_z
        &&& self.data@.len() <= u32::MAX
        &&& self.filled_cells == filled_count(self.data@)
    }

    /// Position of the cell `(x, y, z)` in `data`.
    pub open spec fn index_of(self, x: int, y: int, z: int) -> int {
        z * self.size_y * self.size_x + y * self.size_x + x
    }

    /// A map of the size of the world, `WORLD_X` by `WORLD_Y` by `WORLD_Z`.
    pub fn new() -> (r: Self)
        ensures
            r.wf(),
            r.size_x == WORLD_X && r.size_y == WORLD_Y && r.size_z == WORLD_Z,
            forall|i: int| 0 <= i < r.data@.len() ==> #[trigger] r.data@[i] is None,
    {
        Self::from_max_sizes(WORLD_X, WORLD_Y, WORLD_Z)
    }

    /// An empty cube of edge `size`.
    pub fn from_max_size(size: u32) -> (r: Self)
        requires
            size * size * size <= u32::MAX,
        ensures
            r.wf(),
            r.size_x == size && r.size_y == size && r.size_z == size,
            forall|i: int| 0 <= i < r.data@.len() ==> #[trigger] r.data@[i] is None,
    {
        proof {
            assert(size * size <= u32::MAX) by (nonlinear_arith)
                requires size * size * size <= u32::MAX;
        }
        Self::from_max_sizes(size, size, size)
    }

    /// An empty box of `size_x` by `size_y` by `size_z` cells.
    pub fn from_max_sizes(size_x: u32, size_y: u32, size_z: u32) -> (r: Self)
        requires
            size_x * size_y <= u32::MAX,
            size_x * size_y * size_z <= u32::MAX,
        ensures
            r.wf(),
            r.size_x == size_x && r.size_y == size_y && r.size_z == size_z,
            forall|i: int| 0 <= i < r.data@.len() ==> #[trigger] r.data@[i] is None,
    {
        let total = size_x * size_y * size_z;
        let mut data: Vec<Option<Arc<T>>> = Vec::new();
        let mut i: u32 = 0;
        while i < total
            invariant
                i <= total,
                data@.len() == i,
                forall|j: int| 0 <= j < i ==> #[trigger] data@[j] is None,
                filled_count(data@) == 0,
            decreases total - i,
        {
            let ghost before = data@;
            data.push(None);
            assert(data@.drop_last() =~= before);
            i = i + 1;
        }
        proof {
            assert(size_x as usize * size_y as usize * size_z as usize == total) by (nonlinear_arith)
                requires total == size_x * size_y * size_z;
        }
        Self {
            data,
            size_x: size_x as usize,
            size_y: size_y as usize,
            size_z: size_z as usize,
            filled_cells: 0,
        }
    }

    fn index(&self, x: usize, y: usize, z: usize) -> (r: usize)
        requires
            self.wf(),
            self.index_of(x as int, y as int, z as int) < self.data@.len(),
        ensures
            r == self.index_of(x as int, y as int, z as int),
    {
        proof {
            let (sx, sy) = (self.size_x as int, self.size_y as int);
            assert(0 <= z * sy * sx && 0 <= y * sx && z * sy <= z * sy * sx + y * sx + x) by (nonlinear_arith)
                requires 0 <= z, 0 <= y, 0 <= x, 0 <= sx, 0 <= sy, z * sy * sx + y * sx + x < self.data@.len(),
                    self.data@.len() == sx * sy * self.size_z;
        }
        z * self.size_y * self.size_x + y * self.size_x + x
    }

    fn set_data(&mut self, x: usize, y: usize, z: usize, voxel: Option<Arc<T>>)
        requires
            old(self).wf(),
            old(self).index_of(x as int, y as int, z as int) < old(self).data@.len(),
        ensures
            final(self).wf(),
            final(self).size_x == old(self).size_x && final(self).size_y == old(self).size_y
                && final(self).size_z == old(self).size_z,
            final(self).data@ == old(self).data@.update(old(self).index_of(x as int, y as int, z as int), voxel),
    {
        let index = self.index(x, y, z);
        proof {
            lemma_filled_count_update(self.data@, index as int, voxel);
            lemma_filled_count_bound(self.data@);
            lemma_filled_count_bound(self.data@.update(index as int, voxel));
        }
        if self.data[index].is_none() {
            if !voxel.is_none() {
                self.filled_cells += 1;
            }
        } else {
            if voxel.is_none() {
                self.filled_cells -= 1;
            }
        }
        self.data.set(index, voxel);
    }

    /// The value of the cell `(x, y, z)`.
    pub fn get_voxel(&self, x: u32, y: u32, z: u32) -> (r: Option<Arc<T>>)
        requires
            self.wf(),
            self.index_of(x as int, y as int, z as int) < self.data@.len(),
        ensures
            r == self.data@[self.index_of(x as int, y as int, z as int)],
    {
        let index = self.index(x as usize, y as usize, z as usize);
        match &self.data[index] {
            Some(v) => Some(clone_arc(v)),
            None => None,
        }
    }

    /// Sets `voxel` on every cell of the box spanned by `from` and `to` (either
    /// corner may be the lower one).
    pub fn fill_voxels(&mut self, from: (u32, u32, u32), to: (u32, u32, u32), voxel: Option<Arc<T>>)
        requires
            old(self).wf(),
            old(self).index_of(
                if from.0 < to.0 { to.0 as int } else { from.0 as int },
                if from.1 < to.1 { to.1 as int } else { from.1 as int },
                if from.2 < to.2 { to.2 as int } else { from.2 as int },
            ) < old(self).data@.len(),
        ensures
            final(self).wf(),
            final(self).size_x == old(self).size_x && final(self).size_y == old(self).size_y
                && final(self).size_z == old(self).size_z,
            ({
                let lo = (
                    if from.0 < to.0 { from.0 as int } else { to.0 as int },
                    if from.1 < to.1 { from.1 as int } else { to.1 as int },
                    if from.2 < to.2 { from.2 as int } else { to.2 as int },
                );
                let hi = (
                    if from.0 < to.0 { to.0 as int } else { from.0 as int },
                    if from.1 < to.1 { to.1 as int } else { from.1 as int },
                    if from.2 < to.2 { to.2 as int } else { from.2 as int },
                );
                &&& forall|p: (int, int, int)| in_range_box(p, lo, hi)
                    ==> #[trigger] final(self).data@[old(self).index_of(p.0, p.1, p.2)] == voxel
                &&& forall|i: int| 0 <= i < old(self).data@.len()
                    && (forall|p: (int, int, int)| in_range_box(p, lo, hi) ==> #[trigger] old(self).index_of(p.0, p.1, p.2) != i)
                    ==> #[trigger] final(self).data@[i] == old(self).data@[i]
            }),
    {
        let (x_min, x_max) = if from.0 < to.0 { (from.0 as usize, to.0 as usize) } else { (to.0 as usize, from.0 as usize) };
        let (y_min, y_max) = if from.1 < to.1 { (from.1 as usize, to.1 as usize) } else { (to.1 as usize, from.1 as usize) };
        let (z_min, z_max) = if from.2 < to.2 { (from.2 as usize, to.2 as usize) } else { (to.2 as usize, from.2 as usize) };
        let ghost lo = (x_min as int, y_min as int, z_min as int);
        let ghost hi = (x_max as int, y_max as int, z_max as int);
        let ghost start = *self;
        let ghost (sx, sy) = (self.size_x as int, self.size_y as int);
        proof {
            assert(forall|p: (int, int, int)| #[trigger] in_range_box(p, lo, hi) ==> start.index_of(p.0, p.1, p.2) <= start.index_of(hi.0, hi.1, hi.2)) by {
                assert forall|p: (int, int, int)| #[trigger] in_range_box(p, lo, hi) implies start.index_of(p.0, p.1, p.2) <= start.index_of(hi.0, hi.1, hi.2) by {
                    assert(p.2 * sy * sx + p.1 * sx + p.0 <= hi.2 * sy * sx + hi.1 * sx + hi.0) by (nonlinear_arith)
                        requires p.2 <= hi.2, p.1 <= hi.1, p.0 <= hi.0, 0 <= sx, 0 <= sy;
                }
            }
        }
        proof {
            let l = start.data@.len() as int;
            assert(sx >= 1 && sy >= 1 && hi.2 < l && hi.1 < l && hi.0 < l) by (nonlinear_arith)
                requires hi.2 * sy * sx + hi.1 * sx + hi.0 < l, l == sx * sy * start.size_z, 0 <= sx, 0 <= sy,
                    0 <= hi.0, 0 <= hi.1, 0 <= hi.2;
        }
        let mut z = z_min;
        while z <= z_max
            invariant
                self.wf(),
                self.size_x == start.size_x && self.size_y == start.size_y && self.size_z == start.size_z,
                self.data@.len() == start.data@.len(),
                z_min <= z <= z_max + 1,
                z_max < u32::MAX && y_max < u32::MAX && x_max < u32::MAX,
                start.index_of(hi.0, hi.1, hi.2) < start.data@.len(),
                lo == (x_min as int, y_min as int, z_min as int),
                hi == (x_max as int, y_max as int, z_max as int),
                x_min <= x_max && y_min <= y_max,
                forall|p: (int, int, int)| #[trigger] in_range_box(p, lo, hi) ==> start.index_of(p.0, p.1, p.2) <= start.index_of(hi.0, hi.1, hi.2),
                forall|p: (int, int, int)| walked_before(p, lo, hi, x_min as int, y_min as int, z as int)
                    ==> #[trigger] self.data@[start.index_of(p.0, p.1, p.2)] == voxel,
                forall|i: int| 0 <= i < start.data@.len()
                    && (forall|p: (int, int, int)| walked_before(p, lo, hi, x_min as int, y_min as int, z as int) ==> #[trigger] start.index_of(p.0, p.1, p.2) != i)
                    ==> #[trigger] self.data@[i] == start.data@[i],
            decreases z_max + 1 - z,
        {
            let mut y = y_min;
            while y <= y_max
                invariant
                    self.wf(),
                    self.size_x == start.size_x && self.size_y == start.size_y && self.size_z == start.size_z,
                    self.data@.len() == start.data@.len(),
                    z_min <= z <= z_max,
                    y_min <= y <= y_max + 1,
                    z_max < u32::MAX && y_max < u32::MAX && x_max < u32::MAX,
                    start.index_of(hi.0, hi.1, hi.2) < start.data@.len(),
                    lo == (x_min as int, y_min as int, z_min as int),
                    hi == (x_max as int, y_max as int, z_max as int),
                    x_min <= x_max && y_min <= y_max,
                lo == (x_min as int, y_min as int, z_min as int),
                hi == (x_max as int, y_max as int, z_max as int),
                x_min <= x_max && y_min <= y_max,
                    forall|p: (int, int, int)| #[trigger] in_range_box(p, lo, hi) ==> start.index_of(p.0, p.1, p.2) <= start.index_of(hi.0, hi.1, hi.2),
                    forall|p: (int, int, int)| walked_before(p, lo, hi, x_min as int, y as int, z as int)
                        ==> #[trigger] self.data@[start.index_of(p.0, p.1, p.2)] == voxel,
                    forall|i: int| 0 <= i < start.data@.len()
                        && (forall|p: (int, int, int)| walked_before(p, lo, hi, x_min as int, y as int, z as int) ==> #[trigger] start.index_of(p.0, p.1, p.2) != i)
                        ==> #[trigger] self.data@[i] == start.data@[i],
                decreases y_max + 1 - y,
            {
                let mut x = x_min;
                while x <= x_max
                    invariant
                        self.wf(),
                        self.size_x == start.size_x && self.size_y == start.size_y && self.size_z == start.size_z,
                        self.data@.len() == start.data@.len(),
                        z_min <= z <= z_max,
                        y_min <= y <= y_max,
                        x_min <= x <= x_max + 1,
                        x_max < u32::MAX,
                        start.index_of(hi.0, hi.1, hi.2) < start.data@.len(),
                        lo == (x_min as int, y_min as int, z_min as int),
                        hi == (x_max as int, y_max as int, z_max as int),
                        x_min <= x_max && y_min <= y_max,
                    lo == (x_min as int, y_min as int, z_min as int),
                    hi == (x_max as int, y_max as int, z_max as int),
                    x_min <= x_max && y_min <= y_max,
                lo == (x_min as int, y_min as int, z_min as int),
                hi == (x_max as int, y_max as int, z_max as int),
                x_min <= x_max && y_min <= y_max,
                        forall|p: (int, int, int)| #[trigger] in_range_box(p, lo, hi) ==> start.index_of(p.0, p.1, p.2) <= start.index_of(hi.0, hi.1, hi.2),
                        forall|p: (int, int, int)| walked_before(p, lo, hi, x as int, y as int, z as int)
                            ==> #[trigger] self.data@[start.index_of(p.0, p.1, p.2)] == voxel,
                        forall|i: int| 0 <= i < start.data@.len()
                            && (forall|p: (int, int, int)| walked_before(p, lo, hi, x as int, y as int, z as int) ==> #[trigger] start.index_of(p.0, p.1, p.2) != i)
                            ==> #[trigger] self.data@[i] == start.data@[i],
                    decreases x_max + 1 - x,
                {
                    let ghost p0 = (x as int, y as int, z as int);
                    assert(in_range_box(p0, lo, hi));
                    self.set_data(x, y, z, clone_arc_value(&voxel));
                    proof {
                        assert forall|p: (int, int, int)| walked_before(p, lo, hi, x + 1, y as int, z as int)
                            implies #[trigger] self.data@[start.index_of(p.0, p.1, p.2)] == voxel by {
                            if p != p0 {
                                assert(walked_before(p, lo, hi, x as int, y as int, z as int));
                            }
                        }
                    }
                    x = x + 1;
                }
                proof {
                    assert forall|p: (int, int, int)| walked_before(p, lo, hi, x_min as int, y + 1, z as int)
                        <==> #[trigger] walked_before(p, lo, hi, x as int, y as int, z as int) by {}
                }
                y = y + 1;
            }
            proof {
                assert forall|p: (int, int, int)| walked_before(p, lo, hi, x_min as int, y_min as int, z + 1)
                    <==> #[trigger] walked_before(p, lo, hi, x_min as int, y as int, z as int) by {}
            }
            z = z + 1;
        }
        proof {
            assert forall|p: (int, int, int)| walked_before(p, lo, hi, x_min as int, y_min as int, z as int)
                <==> #[trigger] in_range_box(p, lo, hi) by {}
        }
    }

    /// Sets the cell `(x, y, z)` to `voxel`.
    pub fn set_voxel(&mut self, x: u32, y: u32, z: u32, voxel: Option<Arc<T>>)
        requires
            old(self).wf(),
            old(self).index_of(x as int, y as int, z as int) < old(self).data@.len(),
        ensures
            final(self).wf(),
            final(self).size_x == old(self).size_x && final(self).size_y == old(self).size_y
                && final(self).size_z == old(self).size_z,
            final(self).data@ == old(self).data@.update(old(self).index_of(x as int, y as int, z as int), voxel),
    {
        self.set_data(x as usize, y as usize, z as usize, voxel)
    }
}

/// Law: the cells of the box have slots of their own: distinct cells within
/// the sizes sit at distinct positions of `data`, all within it.
pub proof fn law_cells_have_distinct_slots<T>(m: VoxelMap<T>, p: (int, int, int), q: (int, int, int))
    requires
        m.wf(),
        0 <= p.0 < m.size_x && 0 <= p.1 < m.size_y && 0 <= p.2 < m.size_z,
        0 <= q.0 < m.size_x && 0 <= q.1 < m.size_y && 0 <= q.2 < m.size_z,
    ensures
        0 <= m.index_of(p.0, p.1, p.2) < m.data@.len(),
        p != q ==> m.index_of(p.0, p.1, p.2) != m.index_of(q.0, q.1, q.2),
{
    let sx = m.size_x as int;
    let sy = m.size_y as int;
    let sz = m.size_z as int;
    assert(0 <= p.2 * sy * sx + p.1 * sx + p.0 < sz * sy * sx) by (nonlinear_arith)
        requires
            0 <= p.0 < sx,
            0 <= p.1 < sy,
            0 <= p.2 < sz,
    ;
    assert(sz * sy * sx == sx * sy * sz) by (nonlinear_arith);
    if p != q {
        let ip = p.2 * sy * sx + p.1 * sx + p.0;
        let iq = q.2 * sy * sx + q.1 * sx + q.0;
        assert(ip == (p.2 * sy + p.1) * sx + p.0 && iq == (q.2 * sy + q.1) * sx + q.0) by (nonlinear_arith)
            requires
                ip == p.2 * sy * sx + p.1 * sx + p.0,
                iq == q.2 * sy * sx + q.1 * sx + q.0,
        ;
        assert(0 <= p.2 * sy + p.1 && 0 <= q.2 * sy + q.1) by (nonlinear_arith)
            requires
                0 <= p.1,
                0 <= p.2,
                0 <= q.1,
                0 <= q.2,
                sy > 0,
        ;
        vstd::arithmetic::div_mod::lemma_fundamental_div_mod_converse(ip, sx, p.2 * sy + p.1, p.0);
        vstd::arithmetic::div_mod::lemma_fundamental_div_mod_converse(iq, sx, q.2 * sy + q.1, q.0);
        vstd::arithmetic::div_mod::lemma_fundamental_div_mod_converse(p.2 * sy + p.1, sy, p.2, p.1);
        vstd::arithmetic::div_mod::lemma_fundamental_div_mod_converse(q.2 * sy + q.1, sy, q.2, q.1);
    }
}

/// Law: after `set_voxel` at the cell `p` of a map, the cell `p` reads what
/// was set and every other cell within the sizes reads as before.
pub proof fn law_get_after_set<T>(before: VoxelMap<T>, after: VoxelMap<T>, p: (int, int, int), voxel: Option<Arc<T>>, q: (int, int, int))
    requires
        before.wf(),
        0 <= p.0 < before.size_x && 0 <= p.1 < before.size_y && 0 <= p.2 < before.size_z,
        0 <= q.0 < before.size_x && 0 <= q.1 < before.size_y && 0 <= q.2 < before.size_z,
        after.size_x == before.size_x && after.size_y == before.size_y && after.size_z == before.size_z,
        after.data@ == before.data@.update(before.index_of(p.0, p.1, p.2), voxel),
    ensures
        after.data@[after.index_of(p.0, p.1, p.2)] == voxel,
        q != p ==> after.data@[after.index_of(q.0, q.1, q.2)] == before.data@[before.index_of(q.0, q.1, q.2)],
{
    law_cells_have_distinct_slots(before, p, q);
    law_cells_have_distinct_slots(before, q, p);
}

} // verus!
