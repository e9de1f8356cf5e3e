use vstd::prelude::*;
use std::rc::Rc;

use crate::rc_util::clone_rc;
use crate::world::world_holder::Voxel;

verus! {

/// A voxel together with its cell.
pub struct VoxelInWorld {
    x: u32,
    y: u32,
    z: u32,
    voxel: Rc<Voxel>,
}

impl VoxelInWorld {
    /// The cell of the entry.
    pub closed spec fn cell(self) -> (u32, u32, u32) {
        (self.x, self.y, self.z)
    }

    /// The voxel of the entry.
    pub closed spec fn value(self) -> Rc<Voxel> {
        self.voxel
    }
}

/// The cells and voxels held by the entries `s`, later entries winning.
pub closed spec fn cells_of(s: Seq<VoxelInWorld>) -> Map<(u32, u32, u32), Rc<Voxel>>
    decreases s.len(),
{
    if s.len() == 0 {
        Map::empty()
    } else {
        cells_of(s.drop_last()).insert(s.last().cell(), s.last().value())
    }
}

/// Some entry of `s` is of the cell `c`.
pub open spec fn lists_cell(s: Seq<VoxelInWorld>, c: (u32, u32, u32)) -> bool {
    exists|i: int| 0 <= i < s.len() && #[trigger] s[i].cell() == c
}

/// No cell occurs twice among the entries `s`.
pub open spec fn distinct_cells(s: Seq<VoxelInWorld>) -> bool {
    forall|i: int, j: int| 0 <= i < j < s.len() ==> #[trigger] s[i].cell() != #[trigger] s[j].cell()
}

proof fn lemma_cells_of_domain(s: Seq<VoxelInWorld>, c: (u32, u32, u32))
    ensures
        cells_of(s).contains_key(c) <==> exists|i: int| 0 <= i < s.len() && #[trigger] s[i].cell() == c,
    decreases s.len(),
{
    if s.len() > 0 {
        lemma_cells_of_domain(s.drop_last(), c);
        if cells_of(s).contains_key(c) {
            if c == s.last().cell() {
                assert(s[s.len() - 1].cell() == c);
            } else {
                let i = choose|i: int| 0 <= i < s.drop_last().len() && #[trigger] s.drop_last()[i].cell() == c;
                assert(s[i].cell() == c);
            }
        }
        if exists|i: int| 0 <= i < s.len() && #[trigger] s[i].cell() == c {
            let i = choose|i: int| 0 <= i < s.len() && #[trigger] s[i].cell() == c;
            if i < s.len() - 1 {
                assert(s.drop_last()[i].cell() == c);
            }
        }
    }
}

proof fn lemma_cells_of_value(s: Seq<VoxelInWorld>, i: int)
    requires
        distinct_cells(s),
        0 <= i < s.len(),
    ensures
        cells_of(s).contains_key(s[i].cell()),
        cells_of(s)[s[i].cell()] == s[i].value(),
    decreases s.len(),
{
    if i < s.len() - 1 {
        assert(distinct_cells(s.drop_last()));
        assert(s.drop_last()[i] == s[i]);
        lemma_cells_of_value(s.drop_last(), i);
        assert(s[i].cell() != s[s.len() - 1].cell());
    }
}

/// The map of distinct entries is the map that holds exactly their cells, each
/// with its voxel.
proof fn lemma_cells_of_is(s: Seq<VoxelInWorld>, m: Map<(u32, u32, u32), Rc<Voxel>>)
    requires
        distinct_cells(s),
        forall|c: (u32, u32, u32)| #[trigger] m.contains_key(c) <==> lists_cell(s, c),
        forall|i: int| 0 <= i < s.len() ==> #[trigger] m[s[i].cell()] == s[i].value(),
    ensures
        cells_of(s) == m,
{
    assert forall|c: (u32, u32, u32)| #[trigger] cells_of(s).contains_key(c) == m.contains_key(c) by {
        lemma_cells_of_domain(s, c);
    }
    assert forall|c: (u32, u32, u32)| cells_of(s).contains_key(c) implies #[trigger] cells_of(s)[c] == m[c] by {
        lemma_cells_of_domain(s, c);
        let i = choose|i: int| 0 <= i < s.len() && #[trigger] s[i].cell() == c;
        lemma_cells_of_value(s, i);
    }
    assert(cells_of(s) =~= m);
}

impl VoxelInWorld {
    fn copy(&self) -> (r: Self)
        ensures
            r == *self,
    {
        VoxelInWorld { x: self.x, y: self.y, z: self.z, voxel: clone_rc(&self.voxel) }
    }
}

/// The cell `c` of the box `lo..=hi` comes before `(cx, cy, cz)` when the box
/// is walked x-major, then y, then z.
pub open spec fn pushed_before(c: (u32, u32, u32), lo: (u32, u32, u32), hi: (u32, u32, u32), cx: int, cy: int, cz: int) -> bool {
    &&& lo.0 <= c.0 <= hi.0 && lo.1 <= c.1 <= hi.1 && lo.2 <= c.2 <= hi.2
    &&& (c.0 < cx || (c.0 == cx && (c.1 < cy || (c.1 == cy && c.2 < cz))))
}

/// The cell `c` lies in the box `lo..=hi`.
pub open spec fn in_cell_box(c: (u32, u32, u32), lo: (u32, u32, u32), hi: (u32, u32, u32)) -> bool {
    lo.0 <= c.0 <= hi.0 && lo.1 <= c.1 <= hi.1 && lo.2 <= c.2 <= hi.2
}

/// The entry lies outside the box `lo..=hi`.
pub open spec fn outside_box(lo: (u32, u32, u32), hi: (u32, u32, u32)) -> spec_fn(VoxelInWorld) -> bool {
    |e: VoxelInWorld| !in_cell_box(e.cell(), lo, hi)
}

/// Voxels kept as a list of cells with their voxels.
pub struct VoxelList {
    pub data: Vec<VoxelInWorld>,
}

impl VoxelList {
    /// No cell is listed twice.
    pub open spec fn wf(self) -> bool {
        distinct_cells(self.data@)
    }

    /// The listed cells and their voxels.
    pub open spec fn view(self) -> Map<(u32, u32, u32), Rc<Voxel>> {
        cells_of(self.data@)
    }

    /// An empty list.
    pub fn new() -> (r: Self)
        ensures
            r.wf(),
            r@ == Map::<(u32, u32, u32), Rc<Voxel>>::empty(),
    {
        Self { data: Vec::new() }
    }

    /// Position of the first entry of the cell `(x, y, z)`.
    fn position(&self, x: u32, y: u32, z: u32) -> (r: Option<usize>)
        ensures
            match r {
                Some(i) => i < self.data@.len() && self.data@[i as int].cell() == (x, y, z),
                None => forall|i: int| 0 <= i < self.data@.len() ==> #[trigger] self.data@[i].cell() != (x, y, z),
            },
    {
        let mut i: usize = 0;
        while i < self.data.len()
            invariant
                i <= self.data@.len(),
                forall|j: int| 0 <= j < i ==> #[trigger] self.data@[j].cell() != (x, y, z),
            decreases self.data@.len() - i,
        {
            let v = &self.data[i];
            if v.x == x && v.y == y && v.z == z {
                return Some(i);
            }
            i = i + 1;
        }
        None
    }

    /// The voxel of the cell `(x, y, z)`.
    pub fn get_voxel(&self, x: u32, y: u32, z: u32) -> (r: Option<Rc<Voxel>>)
        requires
            self.wf(),
        ensures
            match r {
                Some(v) => self@.contains_key((x, y, z)) && self@[(x, y, z)] == v,
                None => !self@.contains_key((x, y, z)),
            },
    {
        proof {
            lemma_cells_of_domain(self.data@, (x, y, z));
        }
        match self.position(x, y, z) {
            Some(i) => {
                proof {
                    lemma_cells_of_value(self.data@, i as int);
                }
                Some(clone_rc(&self.data[i].voxel))
            },
            None => None,
        }
    }

    /// Sets `voxel` on every cell of the box spanned by `from` and `to` (either
    /// corner may be the lower one), or with `None` takes those cells out.
    pub fn fill_voxels(&mut self, from: (u32, u32, u32), to: (u32, u32, u32), voxel: Option<Rc<Voxel>>)
        requires
            old(self).wf(),
        ensures
            final(self).wf(),
            ({
                let lo = (
                    if from.0 < to.0 { from.0 } else { to.0 },
                    if from.1 < to.1 { from.1 } else { to.1 },
                    if from.2 < to.2 { from.2 } else { to.2 },
                );
                let hi = (
                    if from.0 < to.0 { to.0 } else { from.0 },
                    if from.1 < to.1 { to.1 } else { from.1 },
                    if from.2 < to.2 { to.2 } else { from.2 },
                );
                &&& forall|c: (u32, u32, u32)| #[trigger] final(self)@.contains_key(c)
                    <==> if in_cell_box(c, lo, hi) { voxel is Some } else { old(self)@.contains_key(c) }
                &&& forall|c: (u32, u32, u32)| #[trigger] final(self)@.contains_key(c)
                    ==> final(self)@[c] == if in_cell_box(c, lo, hi) { voxel->0 } else { old(self)@[c] }
                &&& final(self).data@.take(old(self).data@.filter(outside_box(lo, hi)).len() as int)
                    == old(self).data@.filter(outside_box(lo, hi))
                &&& voxel is None ==> final(self).data@ == old(self).data@.filter(outside_box(lo, hi))
            }),
    {
        let (x_min, x_max) = if from.0 < to.0 { (from.0, to.0) } else { (to.0, from.0) };
        let (y_min, y_max) = if from.1 < to.1 { (from.1, to.1) } else { (to.1, from.1) };
        let (z_min, z_max) = if from.2 < to.2 { (from.2, to.2) } else { (to.2, from.2) };
        let ghost lo = (x_min, y_min, z_min);
        let ghost hi = (x_max, y_max, z_max);
        let ghost s = self.data@;
        let ghost old_map = cells_of(s);

        // Keep the entries outside the box, in their order.
        let mut kept: Vec<VoxelInWorld> = Vec::new();
        let mut i: usize = 0;
        while i < self.data.len()
            invariant
                s == self.data@,
                distinct_cells(s),
                old_map == cells_of(s),
                lo == (x_min, y_min, z_min),
                hi == (x_max, y_max, z_max),
                i <= s.len(),
                kept@ == s.take(i as int).filter(outside_box(lo, hi)),
                distinct_cells(kept@),
                forall|k: int| 0 <= k < kept@.len() ==> !in_cell_box(#[trigger] kept@[k].cell(), lo, hi)
                    && old_map.contains_key(kept@[k].cell()) && old_map[kept@[k].cell()] == kept@[k].value(),
                forall|c: (u32, u32, u32)| #[trigger] lists_cell(kept@, c)
                    <==> (!in_cell_box(c, lo, hi) && exists|j: int| 0 <= j < i && #[trigger] s[j].cell() == c),
            decreases s.len() - i,
        {
            let v = &self.data[i];
            let inside = v.x >= x_min && v.x <= x_max && v.y >= y_min && v.y <= y_max && v.z >= z_min && v.z <= z_max;
            let ghost before = kept@;
            if !inside {
                kept.push(v.copy());
            }
            proof {
                reveal(Seq::filter);
                assert(s.take(i as int + 1).drop_last() =~= s.take(i as int));
                assert(s.take(i as int + 1).last() == s[i as int]);
                assert(kept@ == s.take(i as int + 1).filter(outside_box(lo, hi)));
                lemma_cells_of_value(s, i as int);
                let ci = s[i as int].cell();
                if !inside {
                    assert(kept@.drop_last() =~= before);
                    assert(kept@[kept@.len() - 1] == s[i as int]);
                    assert forall|a: int, b: int| 0 <= a < b < kept@.len() implies
                        #[trigger] kept@[a].cell() != #[trigger] kept@[b].cell() by {
                        if b == kept@.len() - 1 {
                            if lists_cell(before, kept@[a].cell()) {}
                            assert(lists_cell(before, kept@[a].cell()));
                            let j = choose|j: int| 0 <= j < i && #[trigger] s[j].cell() == kept@[a].cell();
                            assert(s[j].cell() != s[i as int].cell());
                        }
                    }
                }
                assert forall|c: (u32, u32, u32)| #[trigger] lists_cell(kept@, c)
                    <==> (!in_cell_box(c, lo, hi) && exists|j: int| 0 <= j < i + 1 && #[trigger] s[j].cell() == c) by {
                    if lists_cell(kept@, c) && !lists_cell(before, c) {
                        let k = choose|k: int| 0 <= k < kept@.len() && #[trigger] kept@[k].cell() == c;
                        if k < before.len() {
                            assert(before[k].cell() == c);
                        }
                        assert(s[i as int].cell() == c);
                    }
                    if lists_cell(before, c) {
                        let k = choose|k: int| 0 <= k < before.len() && #[trigger] before[k].cell() == c;
                        assert(kept@[k].cell() == c);
                    }
                    if !in_cell_box(c, lo, hi) && (exists|j: int| 0 <= j < i + 1 && #[trigger] s[j].cell() == c) {
                        let j = choose|j: int| 0 <= j < i + 1 && #[trigger] s[j].cell() == c;
                        if j == i {
                            assert(kept@[kept@.len() - 1].cell() == c);
                        } else {
                            assert(lists_cell(before, c));
                        }
                    }
                }
            }
            i = i + 1;
        }

        proof {
            assert forall|c: (u32, u32, u32)| #[trigger] lists_cell(kept@, c)
                <==> (!in_cell_box(c, lo, hi) && old_map.contains_key(c)) by {
                lemma_cells_of_domain(s, c);
            }
        }
        assert(s.take(s.len() as int) =~= s);
        let ghost filtered = kept@;
        // Add every cell of the box, x-major, then y, then z.
        if let Some(voxel) = voxel {
            let ghost base = kept@;
            let mut x: u64 = x_min as u64;
            while x <= x_max as u64
                invariant
                    lo == (x_min, y_min, z_min),
                    hi == (x_max, y_max, z_max),
                    x_min <= x_max && y_min <= y_max && z_min <= z_max,
                    x_min <= x <= x_max + 1,
                    distinct_cells(kept@),
                    base.len() <= kept@.len() && kept@.take(base.len() as int) == base,
                    forall|k: int| 0 <= k < kept@.len() ==> (#[trigger] kept@[k].cell() == kept@[k].cell())
                        && (in_cell_box(kept@[k].cell(), lo, hi) ==> kept@[k].value() == voxel)
                        && (!in_cell_box(kept@[k].cell(), lo, hi) ==> old_map.contains_key(kept@[k].cell()) && old_map[kept@[k].cell()] == kept@[k].value()),
                    forall|c: (u32, u32, u32)| #[trigger] lists_cell(kept@, c)
                        <==> ((!in_cell_box(c, lo, hi) && old_map.contains_key(c)) || pushed_before(c, lo, hi, x as int, y_min as int, z_min as int)),
                decreases x_max + 1 - x,
            {
                let mut y: u64 = y_min as u64;
                while y <= y_max as u64
                    invariant
                        lo == (x_min, y_min, z_min),
                        hi == (x_max, y_max, z_max),
                        x_min <= x_max && y_min <= y_max && z_min <= z_max,
                        x_min <= x <= x_max,
                        y_min <= y <= y_max + 1,
                        distinct_cells(kept@),
                    base.len() <= kept@.len() && kept@.take(base.len() as int) == base,
                        forall|k: int| 0 <= k < kept@.len() ==> (#[trigger] kept@[k].cell() == kept@[k].cell())
                            && (in_cell_box(kept@[k].cell(), lo, hi) ==> kept@[k].value() == voxel)
                            && (!in_cell_box(kept@[k].cell(), lo, hi) ==> old_map.contains_key(kept@[k].cell()) && old_map[kept@[k].cell()] == kept@[k].value()),
                        forall|c: (u32, u32, u32)| #[trigger] lists_cell(kept@, c)
                            <==> ((!in_cell_box(c, lo, hi) && old_map.contains_key(c)) || pushed_before(c, lo, hi, x as int, y as int, z_min as int)),
                    decreases y_max + 1 - y,
                {
                    let mut z: u64 = z_min as u64;
                    while z <= z_max as u64
                        invariant
                            lo == (x_min, y_min, z_min),
                            hi == (x_max, y_max, z_max),
                            x_min <= x_max && y_min <= y_max && z_min <= z_max,
                            x_min <= x <= x_max,
                            y_min <= y <= y_max,
                            z_min <= z <= z_max + 1,
                            distinct_cells(kept@),
                    base.len() <= kept@.len() && kept@.take(base.len() as int) == base,
                            forall|k: int| 0 <= k < kept@.len() ==> (#[trigger] kept@[k].cell() == kept@[k].cell())
                                && (in_cell_box(kept@[k].cell(), lo, hi) ==> kept@[k].value() == voxel)
                                && (!in_cell_box(kept@[k].cell(), lo, hi) ==> old_map.contains_key(kept@[k].cell()) && old_map[kept@[k].cell()] == kept@[k].value()),
                            forall|c: (u32, u32, u32)| #[trigger] lists_cell(kept@, c)
                                <==> ((!in_cell_box(c, lo, hi) && old_map.contains_key(c)) || pushed_before(c, lo, hi, x as int, y as int, z as int)),
                        decreases z_max + 1 - z,
                    {
                        let ghost before = kept@;
                        let ghost c0 = (x as u32, y as u32, z as u32);
                        kept.push(VoxelInWorld { x: x as u32, y: y as u32, z: z as u32, voxel: clone_rc(&voxel) });
                        proof {
                            assert(kept@.drop_last() =~= before);
                            assert(kept@.take(base.len() as int) =~= before.take(base.len() as int));
                            assert(kept@[kept@.len() - 1].cell() == c0);
                            assert(!lists_cell(before, c0));
                            assert forall|a: int, b: int| 0 <= a < b < kept@.len() implies
                                #[trigger] kept@[a].cell() != #[trigger] kept@[b].cell() by {
                                if b == kept@.len() - 1 {
                                    assert(before[a].cell() == kept@[a].cell());
                                    if kept@[a].cell() == c0 {
                                        assert(lists_cell(before, c0));
                                    }
                                }
                            }
                            assert forall|c: (u32, u32, u32)| #[trigger] lists_cell(kept@, c)
                                <==> ((!in_cell_box(c, lo, hi) && old_map.contains_key(c)) || pushed_before(c, lo, hi, x as int, y as int, z + 1)) by {
                                if lists_cell(kept@, c) && c != c0 {
                                    let k = choose|k: int| 0 <= k < kept@.len() && #[trigger] kept@[k].cell() == c;
                                    assert(before[k].cell() == c);
                                }
                                if lists_cell(before, c) {
                                    let k = choose|k: int| 0 <= k < before.len() && #[trigger] before[k].cell() == c;
                                    assert(kept@[k].cell() == c);
                                }
                                if c == c0 {
                                    assert(kept@[kept@.len() - 1].cell() == c);
                                }
                            }
                        }
                        z = z + 1;
                    }
                    y = y + 1;
                }
                x = x + 1;
            }
        }
        proof {
            let t = kept@;
            let m = if voxel is Some {
                Map::new(|c: (u32, u32, u32)| (!in_cell_box(c, lo, hi) && old_map.contains_key(c)) || in_cell_box(c, lo, hi),
                    |c: (u32, u32, u32)| if in_cell_box(c, lo, hi) { voxel->0 } else { old_map[c] })
            } else {
                Map::new(|c: (u32, u32, u32)| !in_cell_box(c, lo, hi) && old_map.contains_key(c), |c: (u32, u32, u32)| old_map[c])
            };
            assert forall|c: (u32, u32, u32)| #[trigger] m.contains_key(c) <==> lists_cell(t, c) by {
                lemma_cells_of_domain(s, c);
            }
            assert forall|k: int| 0 <= k < t.len() implies #[trigger] m[t[k].cell()] == t[k].value() by {
                assert(lists_cell(t, t[k].cell()));
            }
            lemma_cells_of_is(t, m);
            assert(filtered.take(filtered.len() as int) =~= filtered);
        }
        self.data = kept;
    }

    /// Sets the cell `(x, y, z)` to `voxel`, or with `None` takes it out.
    pub fn set_voxel(&mut self, x: u32, y: u32, z: u32, voxel: Option<Rc<Voxel>>)
        requires
            old(self).wf(),
        ensures
            final(self).wf(),
            final(self)@ == match voxel {
                Some(v) => old(self)@.insert((x, y, z), v),
                None => old(self)@.remove((x, y, z)),
            },
            forall|i: int| 0 <= i < old(self).data@.len() && #[trigger] old(self).data@[i].cell() == (x, y, z) ==> match voxel {
                Some(v) => {
                    &&& final(self).data@.len() == old(self).data@.len()
                    &&& final(self).data@[i].cell() == (x, y, z)
                    &&& final(self).data@[i].value() == v
                    &&& forall|j: int| 0 <= j < old(self).data@.len() && j != i ==> #[trigger] final(self).data@[j] == old(self).data@[j]
                },
                None => final(self).data@ == old(self).data@.remove(i),
            },
            (forall|i: int| 0 <= i < old(self).data@.len() ==> #[trigger] old(self).data@[i].cell() != (x, y, z)) ==> match voxel {
                Some(v) => {
                    &&& final(self).data@.len() == old(self).data@.len() + 1
                    &&& final(self).data@.drop_last() == old(self).data@
                    &&& final(self).data@.last().cell() == (x, y, z)
                    &&& final(self).data@.last().value() == v
                },
                None => final(self).data@ == old(self).data@,
            },
    {
        let ghost s = self.data@;
        let ghost c = (x, y, z);
        proof {
            assert forall|a: int, b: int| 0 <= a < s.len() && 0 <= b < s.len() && s[a].cell() == c && s[b].cell() == c implies a == b by {
                if a < b {
                    assert(s[a].cell() != s[b].cell());
                } else if b < a {
                    assert(s[b].cell() != s[a].cell());
                }
            }
        }
        match voxel {
            Some(voxel) => {
                match self.position(x, y, z) {
                    Some(i) => {
                        self.data.set(i, VoxelInWorld { x, y, z, voxel });
                        proof {
                            let t = self.data@;
                            let m = cells_of(s).insert(c, voxel);
                            assert forall|a: int, b: int| 0 <= a < b < t.len() implies #[trigger] t[a].cell() != #[trigger] t[b].cell() by {
                                assert(s[a].cell() != s[b].cell());
                            }
                            assert forall|d: (u32, u32, u32)| #[trigger] m.contains_key(d) <==> lists_cell(t, d) by {
                                lemma_cells_of_domain(s, d);
                                if lists_cell(s, d) {
                                    let j = choose|j: int| 0 <= j < s.len() && #[trigger] s[j].cell() == d;
                                    assert(t[j].cell() == d);
                                }
                                if lists_cell(t, d) {
                                    let j = choose|j: int| 0 <= j < t.len() && #[trigger] t[j].cell() == d;
                                    assert(s[j].cell() == d);
                                }
                            }
                            assert forall|j: int| 0 <= j < t.len() implies #[trigger] m[t[j].cell()] == t[j].value() by {
                                if j != i {
                                    lemma_cells_of_value(s, j);
                                    assert(s[j].cell() != s[i as int].cell());
                                }
                            }
                            lemma_cells_of_is(t, m);
                        }
                    },
                    None => {
                        self.data.push(VoxelInWorld { x, y, z, voxel });
                        proof {
                            assert(self.data@.drop_last() =~= s);
                            assert forall|a: int, b: int| 0 <= a < b < self.data@.len() implies
                                #[trigger] self.data@[a].cell() != #[trigger] self.data@[b].cell() by {
                                if b < s.len() {
                                    assert(s[a].cell() != s[b].cell());
                                }
                            }
                        }
                    },
                }
            },
            None => {
                if let Some(index) = self.position(x, y, z) {
                    self.data.remove(index);
                    proof {
                        let t = self.data@;
                        let m = cells_of(s).remove(c);
                        assert(t =~= s.remove(index as int));
                        assert forall|a: int, b: int| 0 <= a < b < t.len() implies #[trigger] t[a].cell() != #[trigger] t[b].cell() by {
                            let oa = if a < index { a } else { a + 1 };
                            let ob = if b < index { b } else { b + 1 };
                            assert(s[oa].cell() != s[ob].cell());
                        }
                        assert forall|d: (u32, u32, u32)| #[trigger] m.contains_key(d) <==> lists_cell(t, d) by {
                            lemma_cells_of_domain(s, d);
                            if lists_cell(s, d) && d != c {
                                let j = choose|j: int| 0 <= j < s.len() && #[trigger] s[j].cell() == d;
                                let k = if j < index { j } else { j - 1 };
                                assert(t[k].cell() == d);
                            }
                            if lists_cell(t, d) {
                                let k = choose|k: int| 0 <= k < t.len() && #[trigger] t[k].cell() == d;
                                let j = if k < index { k } else { k + 1 };
                                assert(s[j].cell() == d);
                                assert(s[j].cell() != s[index as int].cell());
                            }
                        }
                        assert forall|k: int| 0 <= k < t.len() implies #[trigger] m[t[k].cell()] == t[k].value() by {
                            let j = if k < index { k } else { k + 1 };
                            lemma_cells_of_value(s, j);
                            assert(s[j].cell() != s[index as int].cell());
                        }
                        lemma_cells_of_is(t, m);
                    }
                } else {
                    proof {
                        lemma_cells_of_domain(s, c);
                        assert(cells_of(s).remove(c) =~= cells_of(s));
                    }
                }
            },
        }
    }
}

/// Law: after `set_voxel` at the cell `c`, the cell `c` reads what was set
/// (nothing for `None`) and every other cell reads as before.
pub proof fn law_get_after_set(before: VoxelList, after: VoxelList, c: (u32, u32, u32), voxel: Option<Rc<Voxel>>, d: (u32, u32, u32))
    requires
        after@ == match voxel {
            Some(v) => before@.insert(c, v),
            None => before@.remove(c),
        },
    ensures
        after@.contains_key(c) == (voxel is Some),
        voxel matches Some(v) ==> after@[c] == v,
        d != c ==> after@.contains_key(d) == before@.contains_key(d) && after@[d] == before@[d],
{
}

} // verus!
