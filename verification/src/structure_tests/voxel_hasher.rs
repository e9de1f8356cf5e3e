use std::collections::HashMap;
use std::rc::Rc;
use vstd::prelude::*;

use crate::rc_util::clone_rc;
use crate::structure_tests::voxel_list::{in_cell_box, pushed_before};

verus! {

broadcast use vstd::std_specs::hash::group_hash_axioms;

/// The key under which the cell `p` is stored: its coordinates side by side,
/// 32 bits each.
pub open spec fn position_key(p: (u32, u32, u32)) -> u128 {
    (p.0 as int + p.1 as int * 0x1_0000_0000 + p.2 as int * 0x1_0000_0000_0000_0000) as u128
}

/// Two cells share a key only when they are the same cell.
pub proof fn lemma_position_key_injective(p: (u32, u32, u32), q: (u32, u32, u32))
    ensures
        position_key(p) == position_key(q) <==> p == q,
{
    let kp = p.0 as int + p.1 as int * 0x1_0000_0000 + p.2 as int * 0x1_0000_0000_0000_0000;
    let kq = q.0 as int + q.1 as int * 0x1_0000_0000 + q.2 as int * 0x1_0000_0000_0000_0000;
    assert(0 <= kp < 0x1_0000_0000_0000_0000_0000_0000 && 0 <= kq < 0x1_0000_0000_0000_0000_0000_0000);
    if position_key(p) == position_key(q) {
        assert(kp == kq);
        let lo = 0x1_0000_0000int;
        vstd::arithmetic::div_mod::lemma_fundamental_div_mod_converse(
            kp,
            lo,
            p.1 as int + p.2 as int * lo,
            p.0 as int,
        );
        vstd::arithmetic::div_mod::lemma_fundamental_div_mod_converse(
            kq,
            lo,
            q.1 as int + q.2 as int * lo,
            q.0 as int,
        );
        vstd::arithmetic::div_mod::lemma_fundamental_div_mod_converse(
            p.1 as int + p.2 as int * lo,
            lo,
            p.2 as int,
            p.1 as int,
        );
        vstd::arithmetic::div_mod::lemma_fundamental_div_mod_converse(
            q.1 as int + q.2 as int * lo,
            lo,
            q.2 as int,
            q.1 as int,
        );
    }
}

/// The key of the cell `(x, y, z)`.
pub(crate) fn key_of(x: u32, y: u32, z: u32) -> (r: u128)
    ensures
        r == position_key((x, y, z)),
{
    x as u128 + (y as u128) * 0x1_0000_0000 + (z as u128) * 0x1_0000_0000_0000_0000
}

/// Voxels kept in a hash map from each cell's key to its voxel.
pub struct VoxelHashMap<T> {
    voxels: HashMap<u128, Rc<T>>,
}

impl<T> VoxelHashMap<T> {
    /// The cells that hold a voxel, with their voxels.
    pub closed spec fn view(self) -> Map<(u32, u32, u32), Rc<T>> {
        Map::new(
            |p: (u32, u32, u32)| self.voxels@.contains_key(position_key(p)),
            |p: (u32, u32, u32)| self.voxels@[position_key(p)],
        )
    }

    /// An empty map.
    pub fn new() -> (r: Self)
        ensures
            r@ == Map::<(u32, u32, u32), Rc<T>>::empty(),
    {
        let r = Self { voxels: HashMap::new() };
        assert(r@ =~= Map::<(u32, u32, u32), Rc<T>>::empty());
        r
    }

    /// An empty map with room for `capacity` voxels.
    pub fn new_with_capacity(capacity: usize) -> (r: Self)
        ensures
            r@ == Map::<(u32, u32, u32), Rc<T>>::empty(),
    {
        let r = Self { voxels: HashMap::with_capacity(capacity) };
        assert(r@ =~= Map::<(u32, u32, u32), Rc<T>>::empty());
        r
    }

    /// The voxel of the cell `(x, y, z)`.
    pub fn get_voxel(&self, x: u32, y: u32, z: u32) -> (r: Option<Rc<T>>)
        ensures
            match r {
                Some(v) => self@.contains_key((x, y, z)) && self@[(x, y, z)] == v,
                None => !self@.contains_key((x, y, z)),
            },
    {
        let pos = key_of(x, y, z);

        if let Some(data) = self.voxels.get(&pos) {
            Some(clone_rc(data))
        } else {
            None
        }
    }

    /// Stores `voxel` at `(x, y, z)`, or with `None` takes the cell out.
    pub fn set_voxel(&mut self, x: u32, y: u32, z: u32, voxel: Option<Rc<T>>)
        ensures
            final(self)@ == match voxel {
                Some(v) => old(self)@.insert((x, y, z), v),
                None => old(self)@.remove((x, y, z)),
            },
    {
        let pos = key_of(x, y, z);
        let ghost given = voxel;

        if let Some(voxel) = voxel {
            self.voxels.insert(pos, voxel);
        } else {
            self.voxels.remove(&pos);
        }
        proof {
            assert forall|p: (u32, u32, u32)| #![trigger self.voxels@.contains_key(position_key(p))]
                p != (x, y, z) implies position_key(p) != pos by {
                lemma_position_key_injective(p, (x, y, z));
            }
        }
        assert(self@ =~= match given {
            Some(v) => old(self)@.insert((x, y, z), v),
            None => old(self)@.remove((x, y, z)),
        });
    }

    /// Sets `voxel` on every cell of the box spanned by `from` and `to` (either
    /// corner may be the lower one), or with `None` takes those cells out.
    /// Filling needs the box's cell count to fit a `u32`.
    pub fn fill_voxels(&mut self, from: (u32, u32, u32), to: (u32, u32, u32), voxel: Option<Rc<T>>)
        requires
            voxel is Some ==> ({
                let dx = if from.0 < to.0 { to.0 - from.0 } else { from.0 - to.0 };
                let dy = if from.1 < to.1 { to.1 - from.1 } else { from.1 - to.1 };
                let dz = if from.2 < to.2 { to.2 - from.2 } else { from.2 - to.2 };
                (dx + 1) * (dy + 1) * (dz + 1) <= u32::MAX
            }),
        ensures
            ({
                let lo = (
                    if from.0 < to.0 { from.0 } else { to.0 },
                    if from.1 < to.1 { from.1 } else { to.1 },
                    if from.2 < to.2 { from.2 } else { to.2 },
                );
                let hi = (
                    if from.0 < to.0 { to.0 } else { from.0 },
                    if from.1 < to.1 { to.1 } else { from.1 },
                    if from.2 < to.2 { to.2 } else { from.2 },
                );
                &&& forall|c: (u32, u32, u32)| #[trigger] final(self)@.contains_key(c)
                    <==> if in_cell_box(c, lo, hi) { voxel is Some } else { old(self)@.contains_key(c) }
                &&& forall|c: (u32, u32, u32)| #[trigger] final(self)@.contains_key(c)
                    ==> final(self)@[c] == if in_cell_box(c, lo, hi) { voxel->0 } else { old(self)@[c] }
            }),
    {
        let (min_x, max_x) = if from.0 < to.0 { (from.0, to.0) } else { (to.0, from.0) };
        let (min_y, max_y) = if from.1 < to.1 { (from.1, to.1) } else { (to.1, from.1) };
        let (min_z, max_z) = if from.2 < to.2 { (from.2, to.2) } else { (to.2, from.2) };
        let ghost lo = (min_x, min_y, min_z);
        let ghost hi = (max_x, max_y, max_z);
        let ghost old_map = self@;

        if voxel.is_some() {
            proof {
                let dx = if from.0 < to.0 { to.0 - from.0 } else { from.0 - to.0 };
                let dy = if from.1 < to.1 { to.1 - from.1 } else { from.1 - to.1 };
                let dz = if from.2 < to.2 { to.2 - from.2 } else { from.2 - to.2 };
                assert((max_x - min_x + 1) * (max_y - min_y + 1) * (max_z - min_z + 1) <= u32::MAX)
                    by (nonlinear_arith)
                    requires
                        dx == max_x - min_x,
                        dy == max_y - min_y,
                        dz == max_z - min_z,
                        (dx + 1) * (dy + 1) * (dz + 1) <= u32::MAX,
                ;
                assert((max_x - min_x + 1) * (max_y - min_y + 1) <= (max_x - min_x + 1) * (max_y - min_y
                    + 1) * (max_z - min_z + 1)) by (nonlinear_arith)
                    requires
                        min_z <= max_z,
                        0 <= (max_x - min_x + 1) * (max_y - min_y + 1),
                ;
                assert(max_x - min_x + 1 <= (max_x - min_x + 1) * (max_y - min_y + 1) && max_y - min_y
                    + 1 <= (max_x - min_x + 1) * (max_y - min_y + 1) && max_z - min_z + 1 <= (max_x
                    - min_x + 1) * (max_y - min_y + 1) * (max_z - min_z + 1)) by (nonlinear_arith)
                    requires
                        min_x <= max_x,
                        min_y <= max_y,
                        min_z <= max_z,
                ;
                assert(0 <= (max_x - min_x + 1) * (max_y - min_y + 1)) by (nonlinear_arith)
                    requires
                        min_x <= max_x,
                        min_y <= max_y,
                ;
            }
            let total_voxels = ((max_x - min_x + 1) * (max_y - min_y + 1) * (max_z - min_z + 1)) as usize;
            self.voxels.reserve(total_voxels);
        }
        let mut x: u64 = min_x as u64;
        while x <= max_x as u64
            invariant
                lo == (min_x, min_y, min_z),
                hi == (max_x, max_y, max_z),
                min_x <= max_x && min_y <= max_y && min_z <= max_z,
                min_x <= x <= max_x + 1,
                forall|c: (u32, u32, u32)| #[trigger] self@.contains_key(c)
                    <==> if pushed_before(c, lo, hi, x as int, min_y as int, min_z as int) { voxel is Some } else { old_map.contains_key(c) },
                forall|c: (u32, u32, u32)| #[trigger] self@.contains_key(c)
                    ==> self@[c] == if pushed_before(c, lo, hi, x as int, min_y as int, min_z as int) { voxel->0 } else { old_map[c] },
            decreases max_x + 1 - x,
        {
            let mut y: u64 = min_y as u64;
            while y <= max_y as u64
                invariant
                    lo == (min_x, min_y, min_z),
                    hi == (max_x, max_y, max_z),
                    min_x <= max_x && min_y <= max_y && min_z <= max_z,
                    min_x <= x <= max_x,
                    min_y <= y <= max_y + 1,
                    forall|c: (u32, u32, u32)| #[trigger] self@.contains_key(c)
                        <==> if pushed_before(c, lo, hi, x as int, y as int, min_z as int) { voxel is Some } else { old_map.contains_key(c) },
                    forall|c: (u32, u32, u32)| #[trigger] self@.contains_key(c)
                        ==> self@[c] == if pushed_before(c, lo, hi, x as int, y as int, min_z as int) { voxel->0 } else { old_map[c] },
                decreases max_y + 1 - y,
            {
                let mut z: u64 = min_z as u64;
                while z <= max_z as u64
                    invariant
                        lo == (min_x, min_y, min_z),
                        hi == (max_x, max_y, max_z),
                        min_x <= max_x && min_y <= max_y && min_z <= max_z,
                        min_x <= x <= max_x,
                        min_y <= y <= max_y,
                        min_z <= z <= max_z + 1,
                        forall|c: (u32, u32, u32)| #[trigger] self@.contains_key(c)
                            <==> if pushed_before(c, lo, hi, x as int, y as int, z as int) { voxel is Some } else { old_map.contains_key(c) },
                        forall|c: (u32, u32, u32)| #[trigger] self@.contains_key(c)
                            ==> self@[c] == if pushed_before(c, lo, hi, x as int, y as int, z as int) { voxel->0 } else { old_map[c] },
                    decreases max_z + 1 - z,
                {
                    let cell = match &voxel {
                        Some(v) => Some(clone_rc(v)),
                        None => None,
                    };
                    self.set_voxel(x as u32, y as u32, z as u32, cell);
                    z = z + 1;
                }
                y = y + 1;
            }
            x = x + 1;
        }
    }

}

/// Law: after `set_voxel` at the cell `c`, the cell `c` reads what was set
/// (nothing for `None`) and every other cell reads as before.
pub proof fn law_get_after_set<T>(
    before: VoxelHashMap<T>,
    after: VoxelHashMap<T>,
    c: (u32, u32, u32),
    voxel: Option<Rc<T>>,
    d: (u32, u32, u32),
)
    requires
        after@ == match voxel {
            Some(v) => before@.insert(c, v),
            None => before@.remove(c),
        },
    ensures
        after@.contains_key(c) == (voxel is Some),
        voxel matches Some(v) ==> after@[c] == v,
        d != c ==> after@.contains_key(d) == before@.contains_key(d) && after@[d] == before@[d],
{
}

} // verus!
