use vstd::prelude::*;
use std::rc::Rc;
use vstd::arithmetic::power2::pow2;

use crate::rc_util::{clone_rc, clone_value, rc_ptr_eq};

mod flood;

verus! {

/// Bit `k` of `v`, counted from the least significant bit.
pub open spec fn bit(v: u32, k: nat) -> nat {
    (v as nat / pow2(k)) % 2
}

/// Index (0..8) of the child that holds point `p` inside a node whose
/// cube has edge `2^d`: bit `d-1` of x, y and z, in that order of weight.
pub open spec fn child_index_of(d: nat, p: (u32, u32, u32)) -> nat
    recommends d >= 1,
{
    bit(p.0, (d - 1) as nat) + 2 * bit(p.1, (d - 1) as nat) + 4 * bit(p.2, (d - 1) as nat)
}

/// The `k` levels from reversed depth `d` downwards route `p` and `q` into the
/// same children.
pub open spec fn same_path(d: nat, k: nat, p: (u32, u32, u32), q: (u32, u32, u32)) -> bool
    decreases k,
{
    if k == 0 {
        true
    } else {
        child_index_of(d, p) == child_index_of(d, q) && same_path((d - 1) as nat, (k - 1) as nat, p, q)
    }
}

/// The level of the leaf that holds `q` once a leaf of level `l` that holds
/// `p` and `q` is split down to the unit cell of `p`: one below the first
/// level at which their paths part, 0 if they never do.
pub open spec fn split_level(l: nat, p: (u32, u32, u32), q: (u32, u32, u32)) -> nat
    decreases l,
{
    if l == 0 {
        0
    } else if child_index_of(l, p) != child_index_of(l, q) {
        (l - 1) as nat
    } else {
        split_level((l - 1) as nat, p, q)
    }
}

/// `p` and `q` fall into the same unit cell of a tree of reversed depth `d`.
pub open spec fn same_cell(d: nat, p: (u32, u32, u32), q: (u32, u32, u32)) -> bool {
    same_path(d, d, p, q)
}

/// Below bit `n`, a number modulo `2^(n+1)` is bit `n` times `2^n` plus the
/// number modulo `2^n`.
proof fn lemma_low_bits_step(a: u32, n: nat)
    ensures
        a as nat % pow2(n + 1) == bit(a, n) * pow2(n) + a as nat % pow2(n),
        a as nat % pow2(n) < pow2(n),
        bit(a, n) <= 1,
{
    vstd::arithmetic::power2::lemma_pow2_unfold(n + 1);
    vstd::arithmetic::power2::lemma_pow2_pos(n);
    let h = pow2(n) as int;
    vstd::arithmetic::div_mod::lemma_mod_breakdown(a as int, h, 2);
    assert(h * 2 == pow2(n + 1));
    assert(h * ((a as int / h) % 2) == ((a as int / h) % 2) * h) by (nonlinear_arith);
}

/// Numbers agree modulo `2^(n+1)` exactly when they agree on bit `n` and
/// modulo `2^n`.
proof fn lemma_congruent_step(a: u32, b: u32, n: nat)
    ensures
        (a as nat % pow2(n + 1) == b as nat % pow2(n + 1))
            <==> (bit(a, n) == bit(b, n) && a as nat % pow2(n) == b as nat % pow2(n)),
{
    lemma_low_bits_step(a, n);
    lemma_low_bits_step(b, n);
    vstd::arithmetic::power2::lemma_pow2_pos(n);
    let h = pow2(n) as int;
    if a as nat % pow2(n + 1) == b as nat % pow2(n + 1) {
        let x = (a as nat % pow2(n + 1)) as int;
        vstd::arithmetic::div_mod::lemma_fundamental_div_mod_converse(x, h, bit(a, n) as int, (a as nat % pow2(n)) as int);
        vstd::arithmetic::div_mod::lemma_fundamental_div_mod_converse(x, h, bit(b, n) as int, (b as nat % pow2(n)) as int);
    }
}

/// Two points reach the same unit cell of a tree of reversed depth `d` exactly
/// when their coordinates agree modulo `2^d`.
pub proof fn lemma_same_cell_iff_congruent(d: nat, p: (u32, u32, u32), q: (u32, u32, u32))
    ensures
        same_cell(d, p, q) <==> (
            p.0 as nat % pow2(d) == q.0 as nat % pow2(d)
            && p.1 as nat % pow2(d) == q.1 as nat % pow2(d)
            && p.2 as nat % pow2(d) == q.2 as nat % pow2(d)),
    decreases d,
{
    if d == 0 {
        vstd::arithmetic::power2::lemma2_to64();
    } else {
        let e = (d - 1) as nat;
        lemma_same_cell_iff_congruent(e, p, q);
        lemma_congruent_step(p.0, q.0, e);
        lemma_congruent_step(p.1, q.1, e);
        lemma_congruent_step(p.2, q.2, e);
        assert(d == e + 1);
        assert(same_cell(d, p, q) == (child_index_of(d, p) == child_index_of(d, q) && same_cell(e, p, q)));
    }
}

/// Shifting right is dividing by a power of two; the lowest bit of the result is that bit.
proof fn lemma_shift_bit(v: u32, s: u32)
    requires
        s < 32,
    ensures
        ((v >> s) & 1u32) as nat == bit(v, s as nat),
        bit(v, s as nat) <= 1,
{
    vstd::bits::lemma_u32_shr_is_div(v, s);
    let w = v >> s;
    assert(w & 1u32 == w % 2) by (bit_vector);
}

/// The child (0 to 7) of a node at reversed depth `reversed_depth` that holds
/// `point`.
pub fn get_child_index(reversed_depth: u8, point: &(u32, u32, u32)) -> (r: usize)
    requires
        1 <= reversed_depth <= 32,
    ensures
        r == child_index_of(reversed_depth as nat, *point),
        r < 8,
{
    let shift = reversed_depth - 1;
    let xi = ((point.0 >> shift) & 1) as usize;
    let yi = ((point.1 >> shift) & 1) as usize;
    let zi = ((point.2 >> shift) & 1) as usize;
    proof {
        lemma_shift_bit(point.0, shift as u32);
        lemma_shift_bit(point.1, shift as u32);
        lemma_shift_bit(point.2, shift as u32);
        assert(xi <= 1 && yi <= 1 && zi <= 1 ==> (xi | (yi << 1usize) | (zi << 2usize)) == xi + 2 * yi + 4 * zi) by (bit_vector);
    }
    xi | (yi << 1) | (zi << 2)
}


/// The sides of a cell, by number.
pub struct Direction;

impl Direction {
    pub const UNSPECIFIED: u8 = 0;
    pub const LEFT: u8 = 1;
    pub const RIGHT: u8 = 2;
    pub const TOP: u8 = 3;
    pub const BOTTOM: u8 = 4;
    pub const FRONT: u8 = 5;
    pub const BACK: u8 = 6;

    /// The children of a branch that touch the side opposite to `direction`
    /// (1 to 6).
    pub fn get_octree_node_indices_for_opposite_side(direction: u8) -> (r: [usize; 4])
        requires
            1 <= direction <= 6,
        ensures
            r@ == match direction {
                1 => seq![1usize, 3, 5, 7],
                2 => seq![0usize, 2, 4, 6],
                3 => seq![0usize, 1, 4, 5],
                4 => seq![2usize, 3, 6, 7],
                5 => seq![0usize, 1, 2, 3],
                _ => seq![4usize, 5, 6, 7],
            },
    {
        let r = match direction {
            1 => [1, 3, 5, 7],
            2 => [0, 2, 4, 6],
            3 => [0, 1, 4, 5],
            4 => [2, 3, 6, 7],
            5 => [0, 1, 2, 3],
            _ => [4, 5, 6, 7],
        };
        assert(r@ =~= match direction {
            1 => seq![1usize, 3, 5, 7],
            2 => seq![0usize, 2, 4, 6],
            3 => seq![0usize, 1, 4, 5],
            4 => seq![2usize, 3, 6, 7],
            5 => seq![0usize, 1, 2, 3],
            _ => seq![4usize, 5, 6, 7],
        });
        r
    }

    /// The four points at `point` and `size` apart from it in the plane
    /// across `direction` (1 to 6): the y-z plane for 1 and 2, x-z for 3 and
    /// 4, x-y for 5 and 6.
    pub fn split_branch_point_into_chilren_by_direction(direction: u8, point: (u32, u32, u32), size: u32) -> (r: [(u32, u32, u32); 4])
        requires
            1 <= direction <= 6,
            direction <= 4 ==> point.2 + size <= u32::MAX,
            direction >= 3 ==> point.0 + size <= u32::MAX,
            (direction <= 2 || direction >= 5) ==> point.1 + size <= u32::MAX,
        ensures
            r@ == if direction <= 2 {
                seq![point, (point.0, (point.1 + size) as u32, point.2), (point.0, point.1, (point.2 + size) as u32),
                    (point.0, (point.1 + size) as u32, (point.2 + size) as u32)]
            } else if direction <= 4 {
                seq![point, ((point.0 + size) as u32, point.1, point.2), (point.0, point.1, (point.2 + size) as u32),
                    ((point.0 + size) as u32, point.1, (point.2 + size) as u32)]
            } else {
                seq![point, ((point.0 + size) as u32, point.1, point.2), (point.0, (point.1 + size) as u32, point.2),
                    ((point.0 + size) as u32, (point.1 + size) as u32, point.2)]
            },
    {
        let r = match direction {
            1 | 2 => [
                point,
                (point.0, point.1 + size, point.2),
                (point.0, point.1, point.2 + size),
                (point.0, point.1 + size, point.2 + size),
            ],
            3 | 4 => [
                point,
                (point.0 + size, point.1, point.2),
                (point.0, point.1, point.2 + size),
                (point.0 + size, point.1, point.2 + size),
            ],
            _ => [
                point,
                (point.0 + size, point.1, point.2),
                (point.0, point.1 + size, point.2),
                (point.0 + size, point.1 + size, point.2),
            ],
        };
        assert(r@ =~= if direction <= 2 {
            seq![point, (point.0, (point.1 + size) as u32, point.2), (point.0, point.1, (point.2 + size) as u32),
                (point.0, (point.1 + size) as u32, (point.2 + size) as u32)]
        } else if direction <= 4 {
            seq![point, ((point.0 + size) as u32, point.1, point.2), (point.0, point.1, (point.2 + size) as u32),
                ((point.0 + size) as u32, point.1, (point.2 + size) as u32)]
        } else {
            seq![point, ((point.0 + size) as u32, point.1, point.2), (point.0, (point.1 + size) as u32, point.2),
                ((point.0 + size) as u32, (point.1 + size) as u32, point.2)]
        });
        r
    }

    /// The cell next to the cube at `offset` of edge `size` across
    /// `direction` (1 to 6): one left of it for 1, one past its right side for
    /// 2, its corner for the others.
    pub fn get_sibling_leaf(direction: u8, offset: (u32, u32, u32), size: u32) -> (r: (u32, u32, u32))
        requires
            1 <= direction <= 6,
            direction == 1 ==> offset.0 >= 1,
            direction == 2 ==> offset.0 + size <= u32::MAX,
        ensures
            r == match direction {
                1 => ((offset.0 - 1) as u32, offset.1, offset.2),
                2 => ((offset.0 + size) as u32, offset.1, offset.2),
                _ => offset,
            },
    {
        match direction {
            1 => (offset.0 - 1, offset.1, offset.2),
            2 => (offset.0 + size, offset.1, offset.2),
            3 => (offset.0, offset.1, offset.2),
            4 => (offset.0, offset.1, offset.2),
            5 => (offset.0, offset.1, offset.2),
            _ => (offset.0, offset.1, offset.2),
        }
    }

    /// The side across from `direction` (1 to 6).
    pub fn get_opposite(direction: u8) -> (r: u8)
        requires
            1 <= direction <= 6,
        ensures
            r == if direction % 2 == 1 { direction + 1 } else { direction - 1 },
    {
        match direction {
            1 => 2,
            2 => 1,
            3 => 4,
            4 => 3,
            5 => 6,
            _ => 5,
        }
    }

    /// The name of `direction` (0 to 6).
    pub fn get_dir_name(direction: u8) -> (r: String)
        requires
            direction <= 6,
        ensures
            r@ == match direction {
                0 => "UNSPECIFIED"@,
                1 => "LEFT"@,
                2 => "RIGHT"@,
                3 => "TOP"@,
                4 => "BOTTOM"@,
                5 => "FRONT"@,
                _ => "BACK"@,
            },
    {
        match direction {
            0 => String::from_str("UNSPECIFIED"),
            1 => String::from_str("LEFT"),
            2 => String::from_str("RIGHT"),
            3 => String::from_str("TOP"),
            4 => String::from_str("BOTTOM"),
            5 => String::from_str("FRONT"),
            _ => String::from_str("BACK"),
        }
    }
}

/// The corner of child `child_index` (0 to 7) of the cube at `parent_offset`
/// of edge `parent_size`: bit 0 of the index adds half the edge to x, bit 1
/// to y, bit 2 to z.
pub fn get_child_offset(parent_offset: (u32, u32, u32), parent_size: u32, child_index: usize) -> (r: (u32, u32, u32))
    requires
        child_index < 8,
        parent_offset.0 + parent_size / 2 <= u32::MAX,
        parent_offset.1 + parent_size / 2 <= u32::MAX,
        parent_offset.2 + parent_size / 2 <= u32::MAX,
    ensures
        r == (
            (parent_offset.0 + (child_index % 2) * (parent_size / 2)) as u32,
            (parent_offset.1 + ((child_index / 2) % 2) * (parent_size / 2)) as u32,
            (parent_offset.2 + (child_index / 4) * (parent_size / 2)) as u32,
        ),
{
    let child_size = parent_size >> 1u32;
    let child_index = child_index as u8;
    let bx = (child_index & 1) as u32;
    let by = ((child_index >> 1u8) & 1) as u32;
    let bz = ((child_index >> 2u8) & 1) as u32;
    proof {
        assert(parent_size >> 1u32 == parent_size / 2) by (bit_vector);
        assert(child_index < 8 ==> (child_index & 1) == child_index % 2 && ((child_index >> 1u8) & 1) == (
        child_index / 2) % 2 && ((child_index >> 2u8) & 1) == child_index / 4) by (bit_vector);
        assert(bx * child_size <= child_size && by * child_size <= child_size && bz * child_size <= child_size)
            by (nonlinear_arith)
            requires
                bx <= 1,
                by <= 1,
                bz <= 1,
        ;
    }
    let dx = bx * child_size;
    let dy = by * child_size;
    let dz = bz * child_size;

    (parent_offset.0 + dx, parent_offset.1 + dy, parent_offset.2 + dz)
}

/// The cube at `offset` of edge `size` holds `point`.
pub fn contains_point(offset: &(u32, u32, u32), size: u32, point: &(u32, u32, u32)) -> (r: bool)
    requires
        point.0 >= offset.0 ==> offset.0 + size <= u32::MAX,
        point.0 >= offset.0 && point.0 < offset.0 + size && point.1 >= offset.1 ==> offset.1 + size <= u32::MAX,
        point.0 >= offset.0 && point.0 < offset.0 + size && point.1 >= offset.1 && point.1 < offset.1 + size
            && point.2 >= offset.2 ==> offset.2 + size <= u32::MAX,
    ensures
        r == (offset.0 <= point.0 < offset.0 + size && offset.1 <= point.1 < offset.1 + size && offset.2 <= point.2
            < offset.2 + size),
{
    point.0 >= offset.0 && point.0 < offset.0 + size && point.1 >= offset.1 && point.1 < offset.1 + size && point.2
        >= offset.2 && point.2 < offset.2 + size
}

/// A bit times `h` is `h` or 0.
proof fn lemma_bit_times(b: nat, h: nat)
    requires
        b <= 1,
    ensures
        b == 1 ==> b * h == h,
        b == 0 ==> b * h == 0,
{
    assert(b == 1 ==> b * h == h) by (nonlinear_arith);
    assert(b == 0 ==> b * h == 0) by (nonlinear_arith);
}

/// A node of the octree: a leaf holds one value for its whole cube.
pub enum OctreeNode<T> {
    Leaf(Option<Rc<T>>),
    Branch(Box<OctreeBranch<T>>),
}

/// A branch splits its cube into eight children.
pub struct OctreeBranch<T> {
    children: Vec<OctreeNode<T>>,
}

impl<T> OctreeNode<T> {
    /// A node at reversed depth `d` (edge `2^d`): branches only above depth 0,
    /// each with eight well-formed children one level down.
    pub closed spec fn wf(self, d: nat) -> bool
        decreases self,
    {
        match self {
            OctreeNode::Leaf(_) => true,
            OctreeNode::Branch(b) => {
                &&& d >= 1
                &&& b.children@.len() == 8
                &&& forall|i: int| 0 <= i < 8 ==> (#[trigger] b.children@[i]).wf((d - 1) as nat)
            },
        }
    }

    /// The value stored for point `p` in a node at reversed depth `d`.
    pub closed spec fn lookup(self, d: nat, p: (u32, u32, u32)) -> Option<Rc<T>>
        decreases self,
    {
        match self {
            OctreeNode::Leaf(v) => v,
            OctreeNode::Branch(b) => {
                if d >= 1 && child_index_of(d, p) < b.children@.len() {
                    b.children@[child_index_of(d, p) as int].lookup((d - 1) as nat, p)
                } else {
                    None
                }
            },
        }
    }

    /// A branch whose eight children are leaves that all hold `v`.
    pub closed spec fn uniform_children(self, v: Option<Rc<T>>) -> bool {
        match self {
            OctreeNode::Leaf(_) => false,
            OctreeNode::Branch(b) => {
                &&& b.children@.len() == 8
                &&& forall|i: int| 0 <= i < 8 ==> #[trigger] b.children@[i] == OctreeNode::<T>::Leaf(v)
            },
        }
    }

    /// No branch in the node has eight empty leaves as children: those are
    /// merged into one empty leaf.
    pub closed spec fn tidy(self) -> bool
        decreases self,
    {
        match self {
            OctreeNode::Leaf(_) => true,
            OctreeNode::Branch(b) => {
                &&& !self.uniform_children(None)
                &&& forall|i: int| 0 <= i < b.children@.len() ==> (#[trigger] b.children@[i]).tidy()
            },
        }
    }

    /// Every child of the node is tidy.
    pub closed spec fn children_tidy(self) -> bool {
        match self {
            OctreeNode::Leaf(_) => true,
            OctreeNode::Branch(b) => forall|i: int| 0 <= i < b.children@.len() ==> (#[trigger] b.children@[i]).tidy(),
        }
    }

    /// A branch with a filled cell is no branch of eight empty leaves.
    proof fn lemma_filled_not_empty_children(self, d: nat, p: (u32, u32, u32))
        requires
            d >= 1,
            self.lookup(d, p) is Some,
        ensures
            !self.uniform_children(None),
    {
        if self.uniform_children(None) {
            self.lemma_uniform_lookup(None, d, p);
        }
    }

    /// Every cell the node lists lies in its cube and is held by it.
    proof fn lemma_cells_held(self, o: (u32, u32, u32), d: nat)
        requires
            self.wf(d),
            o.0 as nat % pow2(d) == 0,
            o.1 as nat % pow2(d) == 0,
            o.2 as nat % pow2(d) == 0,
            o.0 + pow2(d) <= 0x1_0000_0000,
            o.1 + pow2(d) <= 0x1_0000_0000,
            o.2 + pow2(d) <= 0x1_0000_0000,
        ensures
            lists_held(self, o, d),
        decreases self,
    {
        match self {
            OctreeNode::Leaf(None) => {},
            OctreeNode::Leaf(Some(v)) => {
                let s = pow2(d);
                lemma_slabs_in_cube(o, s, s, v);
                assert forall|j: int| 0 <= j < self.cells(o, d).len() implies #[trigger] held_in(self, o, d, self.cells(o, d)[j]) by {
                    assert(self.cells(o, d) == x_slabs(o, s, s, v));
                }
            },
            OctreeNode::Branch(b) => {
                let c = b.children@;
                let h = pow2((d - 1) as nat);
                assert forall|i: int| 0 <= i < c.len() implies lists_held(#[trigger] c[i], child_corner(o, d, i as nat), (d - 1) as nat) by {
                    lemma_half_corner(o.0, (i % 2) as nat, d);
                    lemma_half_corner(o.1, ((i / 2) % 2) as nat, d);
                    lemma_half_corner(o.2, ((i / 4) % 2) as nat, d);
                    c[i].lemma_cells_held(child_corner(o, d, i as nat), (d - 1) as nat);
                }
                lemma_cells_of_from_children(c, o, d);
                assert forall|j: int| 0 <= j < self.cells(o, d).len() implies #[trigger] held_in(self, o, d, self.cells(o, d)[j]) by {
                    let e = self.cells(o, d)[j];
                    assert(self.cells(o, d) == cells_of(c, o, d));
                    let i = choose|i: int| 0 <= i < c.len() && held_in(c[i], child_corner(o, d, i as nat), (d - 1) as nat, #[trigger] cells_of(c, o, d)[j]);
                    lemma_half_corner(o.0, (i % 2) as nat, d);
                    lemma_half_corner(o.1, ((i / 2) % 2) as nat, d);
                    lemma_half_corner(o.2, ((i / 4) % 2) as nat, d);
                    lemma_half_bit(o.0, e.0, d);
                    lemma_half_bit(o.1, e.1, d);
                    lemma_half_bit(o.2, e.2, d);
                    lemma_bit_times((i % 2) as nat, h);
                    lemma_bit_times(((i / 2) % 2) as nat, h);
                    lemma_bit_times(((i / 4) % 2) as nat, h);
                    assert(child_index_of(d, (e.0, e.1, e.2)) == i);
                }
            },
        }
    }

    /// Every filled cell of the node's cube is listed, with its value.
    proof fn lemma_cells_complete(self, o: (u32, u32, u32), d: nat, p: (u32, u32, u32)) -> (j: int)
        requires
            self.wf(d),
            o.0 as nat % pow2(d) == 0,
            o.1 as nat % pow2(d) == 0,
            o.2 as nat % pow2(d) == 0,
            o.0 + pow2(d) <= 0x1_0000_0000,
            o.1 + pow2(d) <= 0x1_0000_0000,
            o.2 + pow2(d) <= 0x1_0000_0000,
            point_in_cube(p, o, pow2(d)),
            self.lookup(d, p) is Some,
        ensures
            0 <= j < self.cells(o, d).len(),
            self.cells(o, d)[j] == entry_at(p, self.lookup(d, p).unwrap()),
        decreases self,
    {
        match self {
            OctreeNode::Leaf(None) => 0,
            OctreeNode::Leaf(Some(v)) => {
                let s = pow2(d);
                let j = lemma_slabs_index(o, s, s, v, (p.0 - o.0) as nat, (p.1 - o.1) as nat, (p.2 - o.2) as nat);
                assert(self.cells(o, d) == x_slabs(o, s, s, v));
                j
            },
            OctreeNode::Branch(b) => {
                let c = b.children@;
                let h = pow2((d - 1) as nat);
                vstd::arithmetic::power2::lemma_pow2_unfold(d);
                vstd::arithmetic::power2::lemma_pow2_pos((d - 1) as nat);
                lemma_half_bit(o.0, p.0, d);
                lemma_half_bit(o.1, p.1, d);
                lemma_half_bit(o.2, p.2, d);
                let b0 = bit(p.0, (d - 1) as nat);
                let b1 = bit(p.1, (d - 1) as nat);
                let b2 = bit(p.2, (d - 1) as nat);
                let i = child_index_of(d, p);
                assert(i % 2 == b0 && (i / 2) % 2 == b1 && (i / 4) % 2 == b2) by (nonlinear_arith)
                    requires
                        i == b0 + 2 * b1 + 4 * b2,
                        b0 <= 1,
                        b1 <= 1,
                        b2 <= 1,
                ;
                lemma_bit_times(b0, h);
                lemma_bit_times(b1, h);
                lemma_bit_times(b2, h);
                lemma_half_corner(o.0, b0, d);
                lemma_half_corner(o.1, b1, d);
                lemma_half_corner(o.2, b2, d);
                let corner = child_corner(o, d, i);
                let jj = c[i as int].lemma_cells_complete(corner, (d - 1) as nat, p);
                let j = lemma_cells_of_index(c, o, d, i as int, jj);
                assert(self.cells(o, d) == cells_of(c, o, d));
                j
            },
        }
    }

    /// The node lists each cell at most once.
    proof fn lemma_cells_distinct(self, o: (u32, u32, u32), d: nat)
        requires
            self.wf(d),
            o.0 as nat % pow2(d) == 0,
            o.1 as nat % pow2(d) == 0,
            o.2 as nat % pow2(d) == 0,
            o.0 + pow2(d) <= 0x1_0000_0000,
            o.1 + pow2(d) <= 0x1_0000_0000,
            o.2 + pow2(d) <= 0x1_0000_0000,
        ensures
            distinct_cells(self.cells(o, d)),
        decreases self,
    {
        match self {
            OctreeNode::Leaf(None) => {},
            OctreeNode::Leaf(Some(v)) => {
                let s = pow2(d);
                lemma_slabs_list(o, s, s, v);
                assert(self.cells(o, d) == x_slabs(o, s, s, v));
            },
            OctreeNode::Branch(b) => {
                let c = b.children@;
                let h = pow2((d - 1) as nat);
                assert forall|i: int| 0 <= i < c.len() implies lists_held(#[trigger] c[i], child_corner(o, d, i as nat), (d - 1) as nat) by {
                    lemma_half_corner(o.0, (i % 2) as nat, d);
                    lemma_half_corner(o.1, ((i / 2) % 2) as nat, d);
                    lemma_half_corner(o.2, ((i / 4) % 2) as nat, d);
                    c[i].lemma_cells_held(child_corner(o, d, i as nat), (d - 1) as nat);
                }
                assert forall|i: int| 0 <= i < c.len() implies distinct_cells(#[trigger] c[i].cells(child_corner(o, d, i as nat), (d - 1) as nat)) by {
                    lemma_half_corner(o.0, (i % 2) as nat, d);
                    lemma_half_corner(o.1, ((i / 2) % 2) as nat, d);
                    lemma_half_corner(o.2, ((i / 4) % 2) as nat, d);
                    c[i].lemma_cells_distinct(child_corner(o, d, i as nat), (d - 1) as nat);
                }
                assert forall|i: int, e: VoxelEntry<T>| 0 <= i < c.len() && #[trigger] held_in(c[i], child_corner(o, d, i as nat), (d - 1) as nat, e)
                    implies child_index_of(d, (e.0, e.1, e.2)) == i by {
                    lemma_half_corner(o.0, (i % 2) as nat, d);
                    lemma_half_corner(o.1, ((i / 2) % 2) as nat, d);
                    lemma_half_corner(o.2, ((i / 4) % 2) as nat, d);
                    lemma_half_bit(o.0, e.0, d);
                    lemma_half_bit(o.1, e.1, d);
                    lemma_half_bit(o.2, e.2, d);
                    lemma_bit_times((i % 2) as nat, h);
                    lemma_bit_times(((i / 2) % 2) as nat, h);
                    lemma_bit_times(((i / 4) % 2) as nat, h);
                }
                lemma_cells_of_distinct(c, o, d);
                assert(self.cells(o, d) == cells_of(c, o, d));
            },
        }
    }

    /// A tidy node whose cells are all empty is one empty leaf.
    proof fn lemma_empty_tidy_is_leaf(self, d: nat)
        requires
            self.wf(d),
            self.tidy(),
            d <= 32,
            forall|q: (u32, u32, u32)| #[trigger] self.lookup(d, q) == None::<Rc<T>>,
        ensures
            self == OctreeNode::<T>::Leaf(None),
        decreases self,
    {
        match self {
            OctreeNode::Leaf(v) => {
                assert(self.lookup(d, (0, 0, 0)) == v);
            },
            OctreeNode::Branch(b) => {
                let h = pow2((d - 1) as nat);
                vstd::arithmetic::power2::lemma_pow2_pos((d - 1) as nat);
                vstd::arithmetic::power2::lemma_pow2_unfold(d);
                if d <= 31 {
                    vstd::arithmetic::power2::lemma_pow2_strictly_increases(d, 32);
                }
                vstd::arithmetic::power2::lemma2_to64();
                assert forall|i: int| 0 <= i < 8 implies #[trigger] b.children@[i] == OctreeNode::<T>::Leaf(None) by {
                    let child = b.children@[i];
                    assert forall|r: (u32, u32, u32)| #[trigger] child.lookup((d - 1) as nat, r) == None::<Rc<T>> by {
                        let b0 = (i % 2) as nat;
                        let b1 = ((i / 2) % 2) as nat;
                        let b2 = (i / 4) as nat;
                        let q = (
                            (r.0 as nat % h + b0 * h) as u32,
                            (r.1 as nat % h + b1 * h) as u32,
                            (r.2 as nat % h + b2 * h) as u32,
                        );
                        lemma_place_bit(r.0, b0, (d - 1) as nat);
                        lemma_place_bit(r.1, b1, (d - 1) as nat);
                        lemma_place_bit(r.2, b2, (d - 1) as nat);
                        assert(child_index_of(d, q) == i);
                        lemma_same_cell_iff_congruent((d - 1) as nat, q, r);
                        child.lemma_lookup_same_cell((d - 1) as nat, q, r);
                        assert(self.lookup(d, q) == child.lookup((d - 1) as nat, q));
                    }
                    child.lemma_empty_tidy_is_leaf((d - 1) as nat);
                }
                assert(self.uniform_children(None));
            },
        }
    }

    /// A leaf value that every child of this branch holds, found by comparing
    /// the children with the first one by allocation.
    fn uniform_leaf_value(&self) -> (r: Option<Option<Rc<T>>>)
        ensures
            r matches Some(v) ==> self.uniform_children(v),
            self.uniform_children(None) ==> r == Some(None::<Rc<T>>),
    {
        match self {
            OctreeNode::Leaf(_) => None,
            OctreeNode::Branch(branch) => {
                if branch.children.len() != 8 {
                    return None;
                }
                let first = match &branch.children[0] {
                    OctreeNode::Leaf(v) => clone_value(v),
                    OctreeNode::Branch(_) => return None,
                };
                let mut i: usize = 1;
                while i < 8
                    invariant
                        1 <= i <= 8,
                        branch.children@.len() == 8,
                        branch.children@[0] == OctreeNode::<T>::Leaf(first),
                        forall|j: int| 0 <= j < i ==> #[trigger] branch.children@[j] == OctreeNode::<T>::Leaf(first),
                        self.uniform_children(None) ==> first is None && forall|j: int|
                            0 <= j < 8 ==> #[trigger] branch.children@[j] == OctreeNode::<T>::Leaf(None),
                    decreases 8 - i,
                {
                    let same = match &branch.children[i] {
                        OctreeNode::Leaf(Some(value)) => match &first {
                            Some(first_value) => rc_ptr_eq(value, first_value),
                            None => false,
                        },
                        OctreeNode::Leaf(None) => first.is_none(),
                        OctreeNode::Branch(_) => false,
                    };
                    if !same {
                        return None;
                    }
                    i = i + 1;
                }
                Some(first)
            },
        }
    }

    proof fn lemma_uniform_lookup(self, v: Option<Rc<T>>, d: nat, q: (u32, u32, u32))
        requires
            self.uniform_children(v),
            d >= 1,
        ensures
            self.wf(d),
            self.lookup(d, q) == v,
    {
        if let OctreeNode::Branch(b) = self {
            assert forall|i: int| 0 <= i < 8 implies (#[trigger] b.children@[i]).wf((d - 1) as nat) by {
                assert(b.children@[i] == OctreeNode::<T>::Leaf(v));
            }
            let ci = child_index_of(d, q);
            assert(d >= 1);
            assert(b.children@.len() == 8);
            assert(ci < 8);
            assert(b.children@[ci as int] == OctreeNode::<T>::Leaf(v));
            assert(OctreeNode::<T>::Leaf(v).lookup((d - 1) as nat, q) == v);
        }
    }

    /// A point that the branch routes into child `i` and that this child reads
    /// as it reads `r`.
    proof fn lemma_child_reach(self, d: nat, i: nat, r: (u32, u32, u32)) -> (q: (u32, u32, u32))
        requires
            self.wf(d),
            self is Branch,
            1 <= d <= 32,
            i < 8,
        ensures
            child_index_of(d, q) == i,
            self.lookup(d, q) == self->Branch_0.children@[i as int].lookup((d - 1) as nat, r),
    {
        let b = self->Branch_0;
        let child = b.children@[i as int];
        vstd::arithmetic::power2::lemma_pow2_pos((d - 1) as nat);
        vstd::arithmetic::power2::lemma_pow2_unfold(d);
        if d <= 31 {
            vstd::arithmetic::power2::lemma_pow2_strictly_increases(d, 32);
        }
        vstd::arithmetic::power2::lemma2_to64();
        let h = pow2((d - 1) as nat);
        let b0 = i % 2;
        let b1 = (i / 2) % 2;
        let b2 = i / 4;
        let q = (
            (r.0 as nat % h + b0 * h) as u32,
            (r.1 as nat % h + b1 * h) as u32,
            (r.2 as nat % h + b2 * h) as u32,
        );
        lemma_place_bit(r.0, b0, (d - 1) as nat);
        lemma_place_bit(r.1, b1, (d - 1) as nat);
        lemma_place_bit(r.2, b2, (d - 1) as nat);
        assert(child_index_of(d, q) == i);
        lemma_same_cell_iff_congruent((d - 1) as nat, q, r);
        child.lemma_lookup_same_cell((d - 1) as nat, q, r);
        assert(self.lookup(d, q) == child.lookup((d - 1) as nat, q));
        q
    }

    /// Right after `value` was stored at the unit cell of `p` in a node that
    /// held it nowhere, no two cells of different children hold it, so the
    /// node is no branch of eight equal leaves.
    proof fn lemma_fresh_not_uniform(before: Self, after: Self, d: nat, p: (u32, u32, u32), value: Rc<T>)
        requires
            1 <= d <= 32,
            forall|q: (u32, u32, u32)| #[trigger] after.lookup(d, q)
                == if same_cell(d, p, q) { Some(value) } else { before.lookup(d, q) },
            forall|q: (u32, u32, u32)| #[trigger] before.lookup(d, q) != Some(value),
        ensures
            forall|w: Option<Rc<T>>| !(#[trigger] after.uniform_children(w)),
    {
        assert forall|w: Option<Rc<T>>| !(#[trigger] after.uniform_children(w)) by {
            if after.uniform_children(w) {
                after.lemma_uniform_lookup(w, d, p);
                lemma_same_path_refl(d, d, p);
                assert(after.lookup(d, p) == Some(value));
                let ci = child_index_of(d, p);
                assert(ci < 8);
                let j = (ci + 1) % 8;
                let q = after.lemma_child_reach(d, j, (0, 0, 0));
                after.lemma_uniform_lookup(w, d, q);
                assert(!same_cell(d, p, q));
                assert(before.lookup(d, q) == Some(value));
            }
        }
    }

    /// Turns a branch whose children are equal leaves into one leaf.
    fn try_compress(&mut self)
        ensures
            forall|d: nat| #[trigger] old(self).wf(d) ==> final(self).wf(d),
            forall|d: nat, q: (u32, u32, u32)|
                old(self).wf(d) ==> #[trigger] final(self).lookup(d, q) == old(self).lookup(d, q),
            *final(self) == *old(self) || (*final(self) is Leaf && old(self).uniform_children((*final(self))->Leaf_0)),
            old(self).uniform_children(None) ==> *final(self) == OctreeNode::<T>::Leaf(None),
            old(self).children_tidy() ==> final(self).tidy(),
    {
        if let Some(value) = self.uniform_leaf_value() {
            proof {
                assert forall|d: nat, q: (u32, u32, u32)| old(self).wf(d) implies
                    OctreeNode::<T>::Leaf(value).lookup(d, q) == old(self).lookup(d, q) by {
                    old(self).lemma_uniform_lookup(value, d, q);
                }
            }
            *self = OctreeNode::Leaf(value);
        }
    }

    /// Stores `value` at the unit cell of `(x, y, z)` in a node of reversed depth
    /// `reversed_depth`; branches that become uniform are folded into leaves.
    pub fn insert(&mut self, reversed_depth: u8, x: u32, y: u32, z: u32, value: Rc<T>)
        requires
            old(self).wf(reversed_depth as nat),
            old(self).tidy(),
            reversed_depth <= 32,
        ensures
            final(self).wf(reversed_depth as nat),
            final(self).tidy(),
            forall|q: (u32, u32, u32)| #[trigger] final(self).lookup(reversed_depth as nat, q)
                == if same_cell(reversed_depth as nat, (x, y, z), q) { Some(value) } else {
                    old(self).lookup(reversed_depth as nat, q)
                },
            (forall|q: (u32, u32, u32)| #[trigger] old(self).lookup(reversed_depth as nat, q) != Some(value))
                ==> final(self).leaf_level(reversed_depth as nat, (x, y, z)) == 0,
            (forall|q: (u32, u32, u32)| #[trigger] old(self).lookup(reversed_depth as nat, q) != Some(value))
                ==> final(self).leaves() == old(self).leaves() + 7 * old(self).leaf_level(reversed_depth as nat, (x, y, z)),
            *old(self) is Leaf && reversed_depth >= 1 ==> forall|q: (u32, u32, u32)|
                #[trigger] final(self).leaf_level(reversed_depth as nat, q) < reversed_depth,
            final(self).mixed_around(reversed_depth as nat, (x, y, z)) ==> {
                let lp = old(self).leaf_level(reversed_depth as nat, (x, y, z));
                &&& final(self).leaves() == old(self).leaves() + 7 * lp
                &&& forall|q: (u32, u32, u32)| #[trigger] final(self).leaf_level(reversed_depth as nat, q)
                    == if same_path(reversed_depth as nat, (reversed_depth - lp) as nat, (x, y, z), q) {
                        split_level(lp, (x, y, z), q)
                    } else {
                        old(self).leaf_level(reversed_depth as nat, q)
                    }
            },
        decreases reversed_depth, 1nat,
    {
        let mut node = OctreeNode::Leaf(None);
        std::mem::swap(&mut node, self);
        match node {
            OctreeNode::Leaf(leaf) => {
                if reversed_depth == 0 {
                    *self = OctreeNode::Leaf(Some(value));
                    return;
                }
                let mut branch = OctreeBranch::new_filled_by(leaf);
                proof {
                    assert forall|q: (u32, u32, u32)| #[trigger] branch.node().lookup(reversed_depth as nat, q) == leaf by {
                        branch.node().lemma_uniform_lookup(leaf, reversed_depth as nat, q);
                    }
                    branch.node().lemma_uniform_lookup(leaf, reversed_depth as nat, (x, y, z));
                    let bc = branch.children@;
                    assert(bc.len() == 8 && forall|i: int| 0 <= i < 8 ==> #[trigger] bc[i] == OctreeNode::<T>::Leaf(leaf));
                    lemma_leaves_of_eight(bc);
                    assert(branch.node().leaves() == 8);
                    let ci = child_index_of(reversed_depth as nat, (x, y, z));
                    assert(ci < 8);
                    assert(branch.node().leaf_level(reversed_depth as nat, (x, y, z)) == bc[ci as int].leaf_level((reversed_depth - 1) as nat, (x, y, z)));
                    if forall|q: (u32, u32, u32)| #[trigger] old(self).lookup(reversed_depth as nat, q) != Some(value) {
                        assert(old(self).lookup(reversed_depth as nat, (0, 0, 0)) == leaf);
                        assert forall|q: (u32, u32, u32)| #[trigger] branch.node().lookup(reversed_depth as nat, q) != Some(value) by {
                            assert(branch.node().lookup(reversed_depth as nat, q) == leaf);
                        }
                    }
                }
                let ghost old_b = branch;
                branch.insert(reversed_depth, x, y, z, value);
                *self = OctreeNode::Branch(Box::new(branch));
                proof {
                    let d = reversed_depth as nat;
                    let p = (x, y, z);
                    if self.mixed_around(d, p) {
                        assert(*self == branch.node());
                        assert(old_b.node().uniform_children(leaf));
                        assert(old_b.children@.len() == 8);
                        assert forall|q: (u32, u32, u32)| #[trigger] old_b.node().leaf_level(d, q) == (d - 1) as nat by {
                            let cq = child_index_of(d, q);
                            assert(cq < 8);
                            assert(old_b.children@[cq as int] == OctreeNode::<T>::Leaf(leaf));
                            assert(old_b.node().leaf_level(d, q) == old_b.children@[cq as int].leaf_level((d - 1) as nat, q));
                            assert(OctreeNode::<T>::Leaf(leaf).leaf_level((d - 1) as nat, q) == (d - 1) as nat);
                        }
                        assert forall|q: (u32, u32, u32)| #[trigger] self.leaf_level(d, q)
                            == if same_path(d, (d - old(self).leaf_level(d, p)) as nat, p, q) {
                                split_level(old(self).leaf_level(d, p), p, q)
                            } else {
                                old(self).leaf_level(d, q)
                            } by {
                            assert(old_b.node().leaf_level(d, q) == (d - 1) as nat);
                            assert(old_b.node().leaf_level(d, p) == (d - 1) as nat);
                            assert(same_path(d, 1, p, q) == (child_index_of(d, p) == child_index_of(d, q) && same_path((d - 1) as nat, 0, p, q)));
                            assert((d - (d - 1)) as nat == 1);
                            assert(same_path(d, 0, p, q));
                            assert(old(self).leaf_level(d, p) == d);
                            assert(old(self).leaf_level(d, q) == d);
                            assert(split_level(d, p, q) == if child_index_of(d, p) != child_index_of(d, q) {
                                (d - 1) as nat
                            } else {
                                split_level((d - 1) as nat, p, q)
                            });
                            assert(self.leaf_level(d, q) == branch.node().leaf_level(d, q));
                        }
                        assert(old_b.node().leaves() == 8);
                        assert(old_b.node().leaf_level(d, p) == (d - 1) as nat);
                        assert(self.leaves() == branch.node().leaves());
                        assert(old(self).leaves() == 1);
                    }
                    assert forall|q: (u32, u32, u32)| #[trigger] self.leaf_level(reversed_depth as nat, q) < reversed_depth by {
                        let cq = child_index_of(reversed_depth as nat, q);
                        assert(cq < 8);
                        branch.children@[cq as int].lemma_leaf_level_bound((reversed_depth - 1) as nat, q);
                    }
                    lemma_same_path_refl(reversed_depth as nat, reversed_depth as nat, (x, y, z));
                    self.lemma_filled_not_empty_children(reversed_depth as nat, (x, y, z));
                }
            },
            OctreeNode::Branch(branch) => {
                let mut branch = *branch;
                branch.insert(reversed_depth, x, y, z, value);
                *self = OctreeNode::Branch(Box::new(branch));
                let ghost mid = *self;
                self.try_compress();
                proof {
                    let d = reversed_depth as nat;
                    if self.mixed_around(d, (x, y, z)) && *self != mid {
                        assert(self.block_mixed(d, (x, y, z), d));
                        let q = choose|q: (u32, u32, u32)| same_path(d, 0, (x, y, z), q) && #[trigger] self.lookup(d, q)
                            != self.lookup(d, (x, y, z));
                        assert(*self is Leaf);
                    }
                    if forall|q: (u32, u32, u32)| #[trigger] old(self).lookup(reversed_depth as nat, q) != Some(value) {
                        OctreeNode::<T>::lemma_fresh_not_uniform(*old(self), mid, reversed_depth as nat, (x, y, z), value);
                        if *self != mid {
                            assert(mid.uniform_children((*self)->Leaf_0));
                        }
                    }
                }
            },
        }
    }

    /// Some cell of the block of level `k` (edge `2^k`) that holds `p` in a
    /// node of reversed depth `d` reads otherwise than `p`.
    pub open spec fn block_mixed(self, d: nat, p: (u32, u32, u32), k: nat) -> bool {
        exists|q: (u32, u32, u32)| same_path(d, (d - k) as nat, p, q) && #[trigger] self.lookup(d, q) != self.lookup(d, p)
    }

    /// Every block above the unit cell of `p`, up to the whole node, holds two
    /// different readings: no block around `p` is uniform.
    pub open spec fn mixed_around(self, d: nat, p: (u32, u32, u32)) -> bool {
        forall|k: nat| 1 <= k <= d ==> #[trigger] self.block_mixed(d, p, k)
    }

    /// Reversed depth of the leaf that holds point `p` (0 for a unit cell).
    pub closed spec fn leaf_level(self, d: nat, p: (u32, u32, u32)) -> nat
        decreases self,
    {
        match self {
            OctreeNode::Leaf(_) => d,
            OctreeNode::Branch(b) => {
                if d >= 1 && child_index_of(d, p) < b.children@.len() {
                    b.children@[child_index_of(d, p) as int].leaf_level((d - 1) as nat, p)
                } else {
                    d
                }
            },
        }
    }

    proof fn lemma_leaf_level_bound(self, d: nat, p: (u32, u32, u32))
        requires
            self.wf(d),
        ensures
            self.leaf_level(d, p) <= d,
        decreases self,
    {
        if let OctreeNode::Branch(b) = self {
            let c = child_index_of(d, p);
            assert(c < 8);
            b.children@[c as int].lemma_leaf_level_bound((d - 1) as nat, p);
        }
    }

    /// Empties the leaf that holds `(x, y, z)` (the whole cube of that leaf) and
    /// hands back the value it held.
    pub fn remove(&mut self, depth: u8, x: u32, y: u32, z: u32) -> (r: Option<Rc<T>>)
        requires
            old(self).wf(depth as nat),
            old(self).tidy(),
            depth <= 32,
        ensures
            r == old(self).lookup(depth as nat, (x, y, z)),
            old(self).leaf_level(depth as nat, (x, y, z)) <= depth,
            final(self).wf(depth as nat),
            final(self).tidy(),
            forall|q: (u32, u32, u32)| #[trigger] final(self).lookup(depth as nat, q)
                == if same_path(depth as nat, (depth - old(self).leaf_level(depth as nat, (x, y, z))) as nat, (x, y, z), q) {
                    None
                } else {
                    old(self).lookup(depth as nat, q)
                },
        decreases depth,
    {
        let p = (x, y, z);
        let mut node = OctreeNode::Leaf(None);
        std::mem::swap(&mut node, self);
        match node {
            OctreeNode::Leaf(value) => {
                proof {
                    assert forall|q: (u32, u32, u32)| #[trigger] self.lookup(depth as nat, q) == None::<Rc<T>> by {}
                }
                value
            },
            OctreeNode::Branch(branch) => {
                let mut branch = *branch;
                let ghost old_children = branch.children@;
                let child_index = get_child_index(depth, &p);
                let mut child = OctreeNode::Leaf(None);
                std::mem::swap(&mut child, &mut branch.children[child_index]);
                assert(child == old_children[child_index as int]);
                let result = child.remove(depth - 1, x, y, z);
                child.try_compress();
                branch.children.set(child_index, child);
                *self = OctreeNode::Branch(Box::new(branch));
                proof {
                    let d = depth as nat;
                    let k = (d - old(self).leaf_level(d, p)) as nat;
                    assert(old(self).leaf_level(d, p) == old_children[child_index as int].leaf_level((d - 1) as nat, p));
                    assert(old_children.len() == 8);
                    assert(branch.children@.len() == 8);
                    assert forall|i: int| 0 <= i < 8 implies (#[trigger] branch.children@[i]).wf((d - 1) as nat) && branch.children@[i].tidy() by {
                        if i != child_index {
                            assert(branch.children@[i] == old_children[i]);
                        }
                    }
                    assert forall|q: (u32, u32, u32)| #[trigger] self.lookup(d, q)
                        == if same_path(d, k, p, q) { None } else { old(self).lookup(d, q) } by {
                        let cq = child_index_of(d, q);
                        assert(cq < 8);
                        assert(k >= 1);
                        assert(same_path(d, k, p, q) == (child_index_of(d, p) == cq && same_path((d - 1) as nat, (k - 1) as nat, p, q)));
                        assert(old(self).lookup(d, q) == old_children[cq as int].lookup((d - 1) as nat, q));
                        assert(self.lookup(d, q) == branch.children@[cq as int].lookup((d - 1) as nat, q));
                        if cq != child_index {
                            assert(branch.children@[cq as int] == old_children[cq as int]);
                        }
                    }
                }
                self.try_compress();
                result
            },
        }
    }

    /// Number of leaves in the node.
    pub closed spec fn leaves(self) -> nat
        decreases self, 1nat,
    {
        match self {
            OctreeNode::Leaf(_) => 1,
            OctreeNode::Branch(b) => leaves_of(b.children@),
        }
    }

    /// A node of reversed depth `d` has one leaf more than a multiple of
    /// seven (a split turns one leaf into eight), and at most `8^d` leaves.
    proof fn lemma_leaves_shape(self, d: nat)
        requires
            self.wf(d),
        ensures
            self.leaves() % 7 == 1,
            1 <= self.leaves() <= vstd::arithmetic::power::pow(8, d),
        decreases self,
    {
        vstd::arithmetic::power::lemma_pow_positive(8, d);
        if let OctreeNode::Branch(b) = self {
            let s = b.children@;
            let e = (d - 1) as nat;
            let p = vstd::arithmetic::power::pow(8, e);
            s[0].lemma_leaves_shape(e);
            s[1].lemma_leaves_shape(e);
            s[2].lemma_leaves_shape(e);
            s[3].lemma_leaves_shape(e);
            s[4].lemma_leaves_shape(e);
            s[5].lemma_leaves_shape(e);
            s[6].lemma_leaves_shape(e);
            s[7].lemma_leaves_shape(e);
            lemma_leaves_of_eight(s);
            lemma_eight_counts(
                s[0].leaves() as int, s[1].leaves() as int, s[2].leaves() as int, s[3].leaves() as int,
                s[4].leaves() as int, s[5].leaves() as int, s[6].leaves() as int, s[7].leaves() as int, p,
            );
            reveal_with_fuel(vstd::arithmetic::power::pow, 2);
            assert(vstd::arithmetic::power::pow(8, d) == 8 * p);
        }
    }

    #[verifier::loop_isolation(false)]
    pub fn count_leaves(&self) -> (r: usize)
        requires
            self.leaves() <= usize::MAX,
        ensures
            r == self.leaves(),
        decreases self,
    {
        match self {
            OctreeNode::Leaf(_) => 1,
            OctreeNode::Branch(branch) => {
                let ghost s = branch.children@;
                let mut total: usize = 0;
                let mut i: usize = 0;
                while i < branch.children.len()
                    invariant
                        s == branch.children@,
                        *self == OctreeNode::<T>::Branch(*branch),
                        leaves_of(s) <= usize::MAX,
                        i <= s.len(),
                        total == leaves_of(s.take(i as int)),
                    decreases s.len() - i,
                {
                    proof {
                        assert(s.take(i as int + 1).drop_last() =~= s.take(i as int));
                        lemma_leaves_of_prefix(s, i as int + 1);
                    }
                    let c = branch.children[i].count_leaves();
                    total = total + c;
                    i = i + 1;
                }
                assert(s.take(s.len() as int) =~= s);
                total
            },
        }
    }

    /// The voxels of the node with corner `o` at reversed depth `d`, in the
    /// order in which the node lists them.
    pub closed spec fn cells(self, o: (u32, u32, u32), d: nat) -> Seq<VoxelEntry<T>>
        decreases self, 1nat,
    {
        match self {
            OctreeNode::Leaf(Some(v)) => cube_cells(o, pow2(d), v),
            OctreeNode::Leaf(None) => Seq::empty(),
            OctreeNode::Branch(b) => cells_of(b.children@, o, d),
        }
    }

    /// Appends to `out` every voxel of the node with corner `offset` at reversed
    /// depth `depth`.
    #[verifier::loop_isolation(false)]
    pub fn collect_voxels(&self, offset: (u32, u32, u32), depth: u8, out: &mut Vec<VoxelEntry<T>>)
        requires
            self.wf(depth as nat),
            depth <= 32,
            depth == 32 ==> !(self matches OctreeNode::Leaf(Some(_))),
            cube_fits(offset, depth as nat),
        ensures
            final(out)@ == old(out)@ + self.cells(offset, depth as nat),
        decreases self,
    {
        match self {
            OctreeNode::Leaf(Some(voxel)) => {
                proof {
                    vstd::bits::lemma_u32_pow2_no_overflow(depth as nat);
                    vstd::bits::lemma_u32_shl_is_mul(1, depth as u32);
                }
                let size: u32 = 1u32 << depth;
                let ghost start = out@;
                let ghost s = size as nat;
                let mut x: u32 = 0;
                while x < size
                    invariant
                        x <= size,
                        out@ == start + x_slabs(offset, x as nat, s, *voxel),
                    decreases size - x,
                {
                    let mut y: u32 = 0;
                    while y < size
                        invariant
                            x < size,
                            y <= size,
                            out@ == start + x_slabs(offset, x as nat, s, *voxel) + y_rows(offset, x as nat, y as nat, s, *voxel),
                        decreases size - y,
                    {
                        let mut z: u32 = 0;
                        while z < size
                            invariant
                                x < size,
                                y < size,
                                z <= size,
                                out@ == start + x_slabs(offset, x as nat, s, *voxel) + y_rows(offset, x as nat, y as nat, s, *voxel)
                                    + z_row(offset, x as nat, y as nat, z as nat, *voxel),
                            decreases size - z,
                        {
                            out.push((offset.0 + x, offset.1 + y, offset.2 + z, clone_rc(voxel)));
                            proof {
                                assert(z_row(offset, x as nat, y as nat, (z + 1) as nat, *voxel)
                                    =~= z_row(offset, x as nat, y as nat, z as nat, *voxel).push(
                                        ((offset.0 + x) as u32, (offset.1 + y) as u32, (offset.2 + z) as u32, *voxel)));
                            }
                            z = z + 1;
                        }
                        proof {
                            assert(y_rows(offset, x as nat, (y + 1) as nat, s, *voxel)
                                == y_rows(offset, x as nat, y as nat, s, *voxel) + z_row(offset, x as nat, y as nat, s, *voxel));
                        }
                        y = y + 1;
                    }
                    assert(y_rows(offset, x as nat, 0, s, *voxel) == Seq::<VoxelEntry<T>>::empty());
                    x = x + 1;
                }
            },
            OctreeNode::Leaf(None) => {
                assert(out@ =~= out@ + Seq::<VoxelEntry<T>>::empty());
            },
            OctreeNode::Branch(branch) => {
                let ghost start = out@;
                let ghost children = branch.children@;
                let ghost d = depth as nat;
                proof {
                    vstd::bits::lemma_u32_pow2_no_overflow((d - 1) as nat);
                    vstd::bits::lemma_u32_shl_is_mul(1, (depth - 1) as u32);
                    vstd::arithmetic::power2::lemma_pow2_unfold(d);
                }
                let child_size: u32 = 1u32 << (depth - 1);
                let mut i: usize = 0;
                while i < 8
                    invariant
                        i <= 8,
                        children.len() == 8,
                        out@ == start + cells_of(children.take(i as int), offset, d),
                    decreases 8 - i,
                {
                    let dx: u32 = if i & 1 == 1 { child_size } else { 0 };
                    let dy: u32 = if (i >> 1) & 1 == 1 { child_size } else { 0 };
                    let dz: u32 = if (i >> 2) & 1 == 1 { child_size } else { 0 };
                    proof {
                        assert(i < 8 ==> ((i & 1 == 1) == (i % 2 == 1)) && (((i >> 1) & 1 == 1) == ((i / 2) % 2 == 1))
                            && (((i >> 2) & 1 == 1) == ((i / 4) % 2 == 1))) by (bit_vector);
                        assert(children.take(i as int + 1).drop_last() =~= children.take(i as int));
                        assert(children.take(i as int + 1).last() == children[i as int]);
                    }
                    let child_offset = (offset.0 + dx, offset.1 + dy, offset.2 + dz);
                    assert(child_offset == child_corner(offset, d, i as nat));
                    branch.children[i].collect_voxels(child_offset, depth - 1, out);
                    i = i + 1;
                }
                assert(children.take(8) =~= children);
            },
        }
    }

    /// Sets `value` on every unit cell whose fill position lies in the box from
    /// `fill_from` to `fill_to`; the node has corner `origin`, reversed depth
    /// `depth` and edge `size`.
    #[verifier::loop_isolation(false)]
    pub fn fill_at(
        &mut self,
        depth: u8,
        origin: (u32, u32, u32),
        size: u32,
        fill_from: (u32, u32, u32),
        fill_to: (u32, u32, u32),
        value: Option<Rc<T>>,
    )
        requires
            old(self).wf(depth as nat),
            old(self).tidy(),
            depth < 32,
            size == pow2(depth as nat),
            origin.0 + size <= u32::MAX,
            origin.1 + size <= u32::MAX,
            origin.2 + size <= u32::MAX,
        ensures
            final(self).wf(depth as nat),
            final(self).tidy(),
            forall|q: (u32, u32, u32)| #[trigger] final(self).lookup(depth as nat, q)
                == if in_box(fill_position((origin.0 as int, origin.1 as int, origin.2 as int), depth as nat, q), fill_from, fill_to) {
                    value
                } else {
                    old(self).lookup(depth as nat, q)
                },
        decreases depth,
    {
        let ghost o: Point = (origin.0 as int, origin.1 as int, origin.2 as int);
        let ghost d = depth as nat;
        proof {
            vstd::arithmetic::power2::lemma_pow2_pos(d);
            assert forall|q: (u32, u32, u32)| #![trigger fill_position(o, d, q)]
                o.0 <= fill_position(o, d, q).0 < o.0 + size
                && o.1 <= fill_position(o, d, q).1 < o.1 + size
                && o.2 <= fill_position(o, d, q).2 < o.2 + size by {
                lemma_fill_position_in_cube(o, d, q);
            }
        }
        let (from_x, from_y, from_z) = fill_from;
        let (to_x, to_y, to_z) = fill_to;

        let (origin_x, origin_y, origin_z) = origin;
        let max_x = origin_x + size - 1;
        let max_y = origin_y + size - 1;
        let max_z = origin_z + size - 1;

        // No crossing; branch outside filling area
        if max_x < from_x || origin_x > to_x || max_y < from_y || origin_y > to_y || max_z < from_z || origin_z > to_z {
            return;
        }

        // Full contained branch inside filling area
        if origin_x >= from_x && max_x <= to_x && origin_y >= from_y && max_y <= to_y && origin_z >= from_z && max_z <= to_z {
            *self = OctreeNode::Leaf(value);
            return;
        }

        // Deepest node reached
        if depth == 0 {
            *self = OctreeNode::Leaf(value);
            proof {
                vstd::arithmetic::power2::lemma2_to64();
                assert forall|q: (u32, u32, u32)| #[trigger] fill_position(o, d, q) == o by {}
            }
            return;
        }

        // Ensure a branch on the node
        let mut branch = match self {
            OctreeNode::Leaf(existing) => {
                let b = OctreeBranch::new_filled_by(clone_value(existing));
                proof {
                    assert forall|q: (u32, u32, u32)| #[trigger] b.node().lookup(d, q) == old(self).lookup(d, q) by {
                        b.node().lemma_uniform_lookup(*existing, d, q);
                    }
                    b.node().lemma_uniform_lookup(*existing, d, (0, 0, 0));
                }
                b
            },
            OctreeNode::Branch(branch) => {
                let mut b = OctreeBranch::new_filled_by(None);
                std::mem::swap(&mut b, &mut **branch);
                b
            },
        };
        let ghost start = branch.node();
        assert(start.wf(d));
        assert forall|q: (u32, u32, u32)| #[trigger] start.lookup(d, q) == old(self).lookup(d, q) by {}

        // Pass filling into the branch
        let child_size = size / 2;
        proof {
            vstd::arithmetic::power2::lemma_pow2_unfold(d);
        }
        let ghost start_children = branch.children@;
        assert forall|j: int| 0 <= j < 8 implies (#[trigger] branch.children@[j]).tidy() by {
            if let OctreeNode::Branch(b0) = *old(self) {
                assert(b0.children@ == start_children);
            }
        }
        let mut child_index: usize = 0;
        while child_index < 8
            invariant
                child_index <= 8,
                start_children.len() == 8,
                branch.children@.len() == 8,
                child_size == pow2((d - 1) as nat),
                forall|j: int| child_index <= j < 8 ==> #[trigger] branch.children@[j] == start_children[j],
                forall|j: int| 0 <= j < 8 ==> (#[trigger] branch.children@[j]).wf((d - 1) as nat),
                forall|j: int| 0 <= j < 8 ==> (#[trigger] branch.children@[j]).tidy(),
                forall|j: int, q: (u32, u32, u32)| 0 <= j < child_index ==> #[trigger] branch.children@[j].lookup((d - 1) as nat, q)
                    == if in_box(fill_position(fill_child_corner(o, d, j as nat), (d - 1) as nat, q), fill_from, fill_to) {
                        value
                    } else {
                        start_children[j].lookup((d - 1) as nat, q)
                    },
            decreases 8 - child_index,
        {
            let cx = origin_x + if (child_index >> 2) & 1 == 1 { child_size } else { 0 };
            let cy = origin_y + if (child_index >> 1) & 1 == 1 { child_size } else { 0 };
            let cz = origin_z + if child_index & 1 == 1 { child_size } else { 0 };
            proof {
                let i = child_index;
                assert(i < 8 ==> ((i & 1 == 1) == (i % 2 == 1)) && (((i >> 1) & 1 == 1) == ((i / 2) % 2 == 1))
                    && (((i >> 2) & 1 == 1) == ((i / 4) % 2 == 1))) by (bit_vector);
            }
            proof {
                let i = child_index as nat;
                let h = pow2((d - 1) as nat);
                lemma_bit_times((i / 4) % 2, h);
                lemma_bit_times((i / 2) % 2, h);
                lemma_bit_times(i % 2, h);
            }
            assert((cx as int, cy as int, cz as int) == fill_child_corner(o, d, child_index as nat));
            let mut child = OctreeNode::Leaf(None);
            std::mem::swap(&mut child, &mut branch.children[child_index]);
            child.fill_at(depth - 1, (cx, cy, cz), child_size, fill_from, fill_to, clone_value(&value));
            branch.children.set(child_index, child);
            child_index = child_index + 1;
        }
        *self = OctreeNode::Branch(Box::new(branch));
        proof {
            assert forall|q: (u32, u32, u32)| #[trigger] self.lookup(d, q)
                == if in_box(fill_position(o, d, q), fill_from, fill_to) { value } else { old(self).lookup(d, q) } by {
                let cq = child_index_of(d, q);
                assert(cq < 8);
                assert(start.lookup(d, q) == start_children[cq as int].lookup((d - 1) as nat, q));
                assert(self.lookup(d, q) == branch.children@[cq as int].lookup((d - 1) as nat, q));
            }
        }
        self.try_compress();
    }

    /// The cells of the leaf that holds `p` all read its value.
    proof fn lemma_leaf_shares(self, d: nat, p: (u32, u32, u32), q: (u32, u32, u32))
        requires
            self.wf(d),
            same_path(d, (d - self.leaf_level(d, p)) as nat, p, q),
        ensures
            self.lookup(d, q) == self.lookup(d, p),
        decreases self,
    {
        self.lemma_leaf_level_bound(d, p);
        if let OctreeNode::Branch(b) = self {
            let c = child_index_of(d, p);
            assert(c < 8);
            let child = b.children@[c as int];
            child.lemma_leaf_level_bound((d - 1) as nat, p);
            let k = (d - self.leaf_level(d, p)) as nat;
            assert(k >= 1);
            assert(same_path(d, k, p, q) == (child_index_of(d, p) == child_index_of(d, q) && same_path((d - 1) as nat, (k - 1) as nat, p, q)));
            child.lemma_leaf_shares((d - 1) as nat, p, q);
        }
    }

    /// Points of one unit cell read the same value.
    proof fn lemma_lookup_same_cell(self, d: nat, p: (u32, u32, u32), q: (u32, u32, u32))
        requires
            same_cell(d, p, q),
        ensures
            self.lookup(d, p) == self.lookup(d, q),
        decreases self,
    {
        if let OctreeNode::Branch(b) = self {
            if d >= 1 {
                assert(same_cell(d, p, q) == (child_index_of(d, p) == child_index_of(d, q) && same_cell((d - 1) as nat, p, q)));
                let c = child_index_of(d, p);
                if c < b.children@.len() {
                    b.children@[c as int].lemma_lookup_same_cell((d - 1) as nat, p, q);
                }
            }
        }
    }

    pub fn get(&self, reversed_depth: u8, x: u32, y: u32, z: u32) -> (r: Option<Rc<T>>)
        requires
            self.wf(reversed_depth as nat),
            reversed_depth <= 32 || *self is Leaf,
        ensures
            r == self.lookup(reversed_depth as nat, (x, y, z)),
        decreases self,
    {
        match self {
            OctreeNode::Leaf(value) => clone_value(value),
            OctreeNode::Branch(branch) => {
                let child_index = get_child_index(reversed_depth, &(x, y, z));
                branch.children[child_index].get(reversed_depth - 1, x, y, z)
            },
        }
    }
}

/// The leaves of eight nodes, one by one.
proof fn lemma_leaves_of_eight<T>(s: Seq<OctreeNode<T>>)
    requires
        s.len() == 8,
    ensures
        leaves_of(s) == s[0].leaves() + s[1].leaves() + s[2].leaves() + s[3].leaves() + s[4].leaves() + s[5].leaves()
            + s[6].leaves() + s[7].leaves(),
{
    assert(s.take(1).drop_last() =~= s.take(0) && s.take(1).last() == s[0]);
    assert(s.take(2).drop_last() =~= s.take(1) && s.take(2).last() == s[1]);
    assert(s.take(3).drop_last() =~= s.take(2) && s.take(3).last() == s[2]);
    assert(s.take(4).drop_last() =~= s.take(3) && s.take(4).last() == s[3]);
    assert(s.take(5).drop_last() =~= s.take(4) && s.take(5).last() == s[4]);
    assert(s.take(6).drop_last() =~= s.take(5) && s.take(6).last() == s[5]);
    assert(s.take(7).drop_last() =~= s.take(6) && s.take(7).last() == s[6]);
    assert(s.take(8).drop_last() =~= s.take(7) && s.take(8).last() == s[7]);
    assert(s.take(0) =~= Seq::<OctreeNode<T>>::empty());
    assert(s.take(8) =~= s);
    assert(leaves_of(s.take(0)) == 0);
    assert(leaves_of(s.take(1)) == leaves_of(s.take(0)) + s[0].leaves());
    assert(leaves_of(s.take(2)) == leaves_of(s.take(1)) + s[1].leaves());
    assert(leaves_of(s.take(3)) == leaves_of(s.take(2)) + s[2].leaves());
    assert(leaves_of(s.take(4)) == leaves_of(s.take(3)) + s[3].leaves());
    assert(leaves_of(s.take(5)) == leaves_of(s.take(4)) + s[4].leaves());
    assert(leaves_of(s.take(6)) == leaves_of(s.take(5)) + s[5].leaves());
    assert(leaves_of(s.take(7)) == leaves_of(s.take(6)) + s[6].leaves());
    assert(leaves_of(s.take(8)) == leaves_of(s.take(7)) + s[7].leaves());
}

/// Replacing child `i` of eight changes the leaf count by the difference.
proof fn lemma_leaves_of_update<T>(s: Seq<OctreeNode<T>>, i: int, c: OctreeNode<T>)
    requires
        s.len() == 8,
        0 <= i < 8,
    ensures
        leaves_of(s.update(i, c)) == leaves_of(s) - s[i].leaves() + c.leaves(),
{
    lemma_leaves_of_eight(s);
    lemma_leaves_of_eight(s.update(i, c));
}

/// Eight counts, each one more than a multiple of seven and between 1 and
/// `p`, add up to one more than a multiple of seven, between 1 and `8 p`.
proof fn lemma_eight_counts(a0: int, a1: int, a2: int, a3: int, a4: int, a5: int, a6: int, a7: int, p: int)
    requires
        a0 % 7 == 1 && a1 % 7 == 1 && a2 % 7 == 1 && a3 % 7 == 1,
        a4 % 7 == 1 && a5 % 7 == 1 && a6 % 7 == 1 && a7 % 7 == 1,
        1 <= a0 <= p && 1 <= a1 <= p && 1 <= a2 <= p && 1 <= a3 <= p,
        1 <= a4 <= p && 1 <= a5 <= p && 1 <= a6 <= p && 1 <= a7 <= p,
    ensures
        (a0 + a1 + a2 + a3 + a4 + a5 + a6 + a7) % 7 == 1,
        1 <= a0 + a1 + a2 + a3 + a4 + a5 + a6 + a7 <= 8 * p,
{
    let q = a0 / 7 + a1 / 7 + a2 / 7 + a3 / 7 + a4 / 7 + a5 / 7 + a6 / 7 + a7 / 7;
    assert(a0 + a1 + a2 + a3 + a4 + a5 + a6 + a7 == 7 * (q + 1) + 1);
    vstd::arithmetic::div_mod::lemma_fundamental_div_mod_converse(a0 + a1 + a2 + a3 + a4 + a5 + a6 + a7, 7, q + 1, 1);
}

/// Setting bit `k` of the low part of `c` (below `2^k`) to `b` gives a
/// number whose bit `k` is `b` and whose low part is that of `c`.
proof fn lemma_place_bit(c: u32, b: nat, k: nat)
    requires
        b <= 1,
        pow2(k + 1) <= 0x1_0000_0000,
    ensures
        (c as nat % pow2(k) + b * pow2(k)) < 0x1_0000_0000,
        bit((c as nat % pow2(k) + b * pow2(k)) as u32, k) == b,
        ((c as nat % pow2(k) + b * pow2(k)) as u32) as nat % pow2(k) == c as nat % pow2(k),
{
    let h = pow2(k) as int;
    vstd::arithmetic::power2::lemma_pow2_pos(k);
    vstd::arithmetic::power2::lemma_pow2_unfold(k + 1);
    let lo = c as int % h;
    assert(0 <= lo < h);
    let v = lo + b * h;
    assert(b * h <= h) by (nonlinear_arith) requires b <= 1, h > 0;
    assert(v < 2 * h);
    assert(v == b * h + lo);
    vstd::arithmetic::div_mod::lemma_fundamental_div_mod_converse(v, h, b as int, lo);
    vstd::arithmetic::div_mod::lemma_small_mod(b, 2);
}

/// In a cube of edge `2^d` whose corner `o` is a multiple of that edge, bit
/// `d - 1` of a coordinate `c` tells its half: 1 in the upper half, 0 in the
/// lower; the corner of that half is a multiple of `2^(d-1)`.
pub(crate) proof fn lemma_half_bit(o: u32, c: u32, d: nat)
    requires
        d >= 1,
        o as nat % pow2(d) == 0,
        o <= c,
        c < o + pow2(d),
    ensures
        bit(c, (d - 1) as nat) == (if c >= o + pow2((d - 1) as nat) { 1nat } else { 0nat }),
        (o + bit(c, (d - 1) as nat) * pow2((d - 1) as nat)) as nat % pow2((d - 1) as nat) == 0,
{
    let h = pow2((d - 1) as nat) as int;
    vstd::arithmetic::power2::lemma_pow2_unfold(d);
    vstd::arithmetic::power2::lemma_pow2_pos((d - 1) as nat);
    assert(pow2(d) == 2 * h);
    let q = o as int / (2 * h);
    vstd::arithmetic::div_mod::lemma_fundamental_div_mod(o as int, 2 * h);
    assert(o == 2 * h * q);
    let b: int = if c >= o + h { 1 } else { 0 };
    assert(c as int == (2 * q + b) * h + (c - o - b * h)) by (nonlinear_arith)
        requires
            o == 2 * h * q,
    ;
    vstd::arithmetic::div_mod::lemma_fundamental_div_mod_converse(c as int, h, 2 * q + b, c - o - b * h);
    vstd::arithmetic::div_mod::lemma_fundamental_div_mod_converse(2 * q + b, 2, q, b);
    assert(o + b * h == (2 * q + b) * h) by (nonlinear_arith)
        requires
            o == 2 * h * q,
    ;
    vstd::arithmetic::div_mod::lemma_mod_multiples_basic(2 * q + b, h);
}

/// `e` lies in the cube with corner `o` and edge `s`.
pub open spec fn in_cube<T>(e: VoxelEntry<T>, o: (u32, u32, u32), s: nat) -> bool {
    &&& o.0 <= e.0 < o.0 + s
    &&& o.1 <= e.1 < o.1 + s
    &&& o.2 <= e.2 < o.2 + s
}

/// The slabs `x < n` of a cube of edge `s` list cells of the cube holding `v`.
proof fn lemma_slabs_in_cube<T>(o: (u32, u32, u32), n: nat, s: nat, v: Rc<T>)
    requires
        n <= s,
        o.0 + s <= 0x1_0000_0000,
        o.1 + s <= 0x1_0000_0000,
        o.2 + s <= 0x1_0000_0000,
    ensures
        forall|j: int| 0 <= j < x_slabs(o, n, s, v).len() ==> in_cube(#[trigger] x_slabs(o, n, s, v)[j], o, s)
            && x_slabs(o, n, s, v)[j].3 == v,
    decreases n,
{
    if n > 0 {
        lemma_slabs_in_cube(o, (n - 1) as nat, s, v);
        lemma_rows_in_cube(o, (n - 1) as nat, s, s, v);
        let a = x_slabs(o, (n - 1) as nat, s, v);
        let b = y_rows(o, (n - 1) as nat, s, s, v);
        assert forall|j: int| 0 <= j < (a + b).len() implies in_cube(#[trigger] (a + b)[j], o, s) && (a + b)[j].3 == v by {
            if j < a.len() {
                assert((a + b)[j] == a[j]);
            } else {
                assert((a + b)[j] == b[j - a.len()]);
            }
        }
    }
}

/// The rows `y < n` of slab `x` list cells of the cube holding `v`.
proof fn lemma_rows_in_cube<T>(o: (u32, u32, u32), x: nat, n: nat, s: nat, v: Rc<T>)
    requires
        x < s,
        n <= s,
        o.0 + s <= 0x1_0000_0000,
        o.1 + s <= 0x1_0000_0000,
        o.2 + s <= 0x1_0000_0000,
    ensures
        forall|j: int| 0 <= j < y_rows(o, x, n, s, v).len() ==> in_cube(#[trigger] y_rows(o, x, n, s, v)[j], o, s)
            && y_rows(o, x, n, s, v)[j].3 == v,
    decreases n,
{
    if n > 0 {
        lemma_rows_in_cube(o, x, (n - 1) as nat, s, v);
        let a = y_rows(o, x, (n - 1) as nat, s, v);
        let b = z_row(o, x, (n - 1) as nat, s, v);
        assert forall|j: int| 0 <= j < (a + b).len() implies in_cube(#[trigger] (a + b)[j], o, s) && (a + b)[j].3 == v by {
            if j < a.len() {
                assert((a + b)[j] == a[j]);
            } else {
                assert((a + b)[j] == b[j - a.len()]);
            }
        }
    }
}

/// Every cell that `n` (corner `o`, reversed depth `d`) lists lies in its
/// cube and is held by it.
pub open spec fn lists_held<T>(n: OctreeNode<T>, o: (u32, u32, u32), d: nat) -> bool {
    forall|j: int| 0 <= j < n.cells(o, d).len() ==> #[trigger] held_in(n, o, d, n.cells(o, d)[j])
}

/// `e` lies in the cube of `n` (corner `o`, reversed depth `d`) and `n` holds it.
pub open spec fn held_in<T>(n: OctreeNode<T>, o: (u32, u32, u32), d: nat, e: VoxelEntry<T>) -> bool {
    in_cube(e, o, pow2(d)) && n.lookup(d, (e.0, e.1, e.2)) == Some(e.3)
}

/// The cells listed by children `0..s.len()` each come from one child: they
/// lie in its cube and it holds them.
proof fn lemma_cells_of_from_children<T>(s: Seq<OctreeNode<T>>, o: (u32, u32, u32), d: nat)
    requires
        forall|i: int| 0 <= i < s.len() ==> lists_held(#[trigger] s[i], child_corner(o, d, i as nat), (d - 1) as nat),
    ensures
        forall|j: int| 0 <= j < cells_of(s, o, d).len() ==> exists|i: int|
            0 <= i < s.len() && held_in(s[i], child_corner(o, d, i as nat), (d - 1) as nat, #[trigger] cells_of(s, o, d)[j]),
    decreases s.len(),
{
    if s.len() > 0 {
        let t = s.drop_last();
        assert forall|i: int| 0 <= i < t.len() implies lists_held(#[trigger] t[i], child_corner(o, d, i as nat), (d - 1) as nat) by {
            assert(t[i] == s[i]);
        }
        lemma_cells_of_from_children(t, o, d);
        let a = cells_of(t, o, d);
        let k = s.len() - 1;
        let last = s[k];
        let b = last.cells(child_corner(o, d, k as nat), (d - 1) as nat);
        assert(cells_of(s, o, d) == a + b);
        assert(lists_held(last, child_corner(o, d, k as nat), (d - 1) as nat));
        assert forall|j: int| 0 <= j < (a + b).len() implies exists|i: int|
            0 <= i < s.len() && held_in(s[i], child_corner(o, d, i as nat), (d - 1) as nat, #[trigger] (a + b)[j]) by {
            if j < a.len() {
                assert((a + b)[j] == a[j]);
                let i = choose|i: int| 0 <= i < t.len() && held_in(t[i], child_corner(o, d, i as nat), (d - 1) as nat, #[trigger] a[j]);
                assert(t[i] == s[i]);
            } else {
                assert((a + b)[j] == b[j - a.len()]);
                assert(held_in(last, child_corner(o, d, k as nat), (d - 1) as nat, b[j - a.len()]));
            }
        }
    }
}

/// The corner of a half of an aligned cube is aligned to the half, and the
/// half lies in the cube.
proof fn lemma_half_corner(o: u32, b: nat, d: nat)
    requires
        d >= 1,
        b <= 1,
        o as nat % pow2(d) == 0,
    ensures
        (o + b * pow2((d - 1) as nat)) as nat % pow2((d - 1) as nat) == 0,
        o + b * pow2((d - 1) as nat) + pow2((d - 1) as nat) <= o + pow2(d),
{
    let h = pow2((d - 1) as nat) as int;
    vstd::arithmetic::power2::lemma_pow2_unfold(d);
    vstd::arithmetic::power2::lemma_pow2_pos((d - 1) as nat);
    let q = o as int / (2 * h);
    vstd::arithmetic::div_mod::lemma_fundamental_div_mod(o as int, 2 * h);
    assert(o + b * h == (2 * q + b) * h) by (nonlinear_arith)
        requires
            o == 2 * h * q,
    ;
    vstd::arithmetic::div_mod::lemma_mod_multiples_basic(2 * q + b, h);
    assert(b * h <= h) by (nonlinear_arith)
        requires
            b <= 1,
            h > 0,
    ;
}

/// `p` lies in the cube with corner `o` and edge `s`.
pub open spec fn point_in_cube(p: (u32, u32, u32), o: (u32, u32, u32), s: nat) -> bool {
    &&& o.0 <= p.0 < o.0 + s
    &&& o.1 <= p.1 < o.1 + s
    &&& o.2 <= p.2 < o.2 + s
}

/// The entry of `p` with value `v`.
pub open spec fn entry_at<T>(p: (u32, u32, u32), v: Rc<T>) -> VoxelEntry<T> {
    (p.0, p.1, p.2, v)
}

/// The cell at `(x, y, z)` from corner `o`, with value `v`.
pub open spec fn cube_entry<T>(o: (u32, u32, u32), x: nat, y: nat, z: nat, v: Rc<T>) -> VoxelEntry<T> {
    ((o.0 + x) as u32, (o.1 + y) as u32, (o.2 + z) as u32, v)
}

/// Row `z < n` of `(x, y)`: each cell once, all with first coordinates
/// `(o.0 + x, o.1 + y)` and the third below `o.2 + n`.
proof fn lemma_row_lists<T>(o: (u32, u32, u32), x: nat, y: nat, n: nat, v: Rc<T>)
    requires
        o.0 + x < 0x1_0000_0000,
        o.1 + y < 0x1_0000_0000,
        o.2 + n <= 0x1_0000_0000,
    ensures
        forall|j: int| 0 <= j < z_row(o, x, y, n, v).len() ==> {
            let e = #[trigger] z_row(o, x, y, n, v)[j];
            e.0 == o.0 + x && e.1 == o.1 + y && o.2 <= e.2 < o.2 + n && e.3 == v
        },
        forall|j: int, k: int| 0 <= j < k < z_row(o, x, y, n, v).len() ==> (#[trigger] z_row(o, x, y, n, v)[j]).2 != (
            #[trigger] z_row(o, x, y, n, v)[k]).2,
{
}

/// Rows `y < n` of slab `x`: each cell once, all with first coordinate
/// `o.0 + x`, the second below `o.1 + n` and the third in the cube.
proof fn lemma_rows_list<T>(o: (u32, u32, u32), x: nat, n: nat, s: nat, v: Rc<T>)
    requires
        o.0 + x < 0x1_0000_0000,
        o.1 + n <= 0x1_0000_0000,
        o.2 + s <= 0x1_0000_0000,
    ensures
        forall|j: int| 0 <= j < y_rows(o, x, n, s, v).len() ==> {
            let e = #[trigger] y_rows(o, x, n, s, v)[j];
            e.0 == o.0 + x && o.1 <= e.1 < o.1 + n && o.2 <= e.2 < o.2 + s && e.3 == v
        },
        forall|j: int, k: int| 0 <= j < k < y_rows(o, x, n, s, v).len() ==> ((#[trigger] y_rows(o, x, n, s, v)[j]).1, y_rows(o, x, n, s, v)[j].2) != (
            (#[trigger] y_rows(o, x, n, s, v)[k]).1, y_rows(o, x, n, s, v)[k].2),
    decreases n,
{
    if n > 0 {
        let m = (n - 1) as nat;
        lemma_rows_list(o, x, m, s, v);
        lemma_row_lists(o, x, m, s, v);
        let a = y_rows(o, x, m, s, v);
        let b = z_row(o, x, m, s, v);
        let c = y_rows(o, x, n, s, v);
        assert(c == a + b);
        assert forall|j: int| 0 <= j < c.len() implies {
            let e = #[trigger] c[j];
            e.0 == o.0 + x && o.1 <= e.1 < o.1 + n && o.2 <= e.2 < o.2 + s && e.3 == v
        } by {
            if j < a.len() { assert(c[j] == a[j]); } else { assert(c[j] == b[j - a.len()]); }
        }
        assert forall|j: int, k: int| 0 <= j < k < c.len() implies ((#[trigger] c[j]).1, c[j].2) != ((#[trigger] c[k]).1, c[k].2) by {
            if k < a.len() {
                assert(c[j] == a[j] && c[k] == a[k]);
            } else if j >= a.len() {
                assert(c[j] == b[j - a.len()] && c[k] == b[k - a.len()]);
            } else {
                assert(c[j] == a[j] && c[k] == b[k - a.len()]);
            }
        }
    }
}

/// Slabs `x < n` of a cube of edge `s`: each cell once, all in the cube with
/// the first coordinate below `o.0 + n`.
proof fn lemma_slabs_list<T>(o: (u32, u32, u32), n: nat, s: nat, v: Rc<T>)
    requires
        o.0 + n <= 0x1_0000_0000,
        o.1 + s <= 0x1_0000_0000,
        o.2 + s <= 0x1_0000_0000,
    ensures
        forall|j: int| 0 <= j < x_slabs(o, n, s, v).len() ==> {
            let e = #[trigger] x_slabs(o, n, s, v)[j];
            o.0 <= e.0 < o.0 + n && o.1 <= e.1 < o.1 + s && o.2 <= e.2 < o.2 + s && e.3 == v
        },
        forall|j: int, k: int| 0 <= j < k < x_slabs(o, n, s, v).len() ==> ((#[trigger] x_slabs(o, n, s, v)[j]).0, x_slabs(o, n, s, v)[j].1, x_slabs(o, n, s, v)[j].2)
            != ((#[trigger] x_slabs(o, n, s, v)[k]).0, x_slabs(o, n, s, v)[k].1, x_slabs(o, n, s, v)[k].2),
    decreases n,
{
    if n > 0 {
        let m = (n - 1) as nat;
        lemma_slabs_list(o, m, s, v);
        lemma_rows_list(o, m, s, s, v);
        let a = x_slabs(o, m, s, v);
        let b = y_rows(o, m, s, s, v);
        let c = x_slabs(o, n, s, v);
        assert(c == a + b);
        assert forall|j: int| 0 <= j < c.len() implies {
            let e = #[trigger] c[j];
            o.0 <= e.0 < o.0 + n && o.1 <= e.1 < o.1 + s && o.2 <= e.2 < o.2 + s && e.3 == v
        } by {
            if j < a.len() { assert(c[j] == a[j]); } else { assert(c[j] == b[j - a.len()]); }
        }
        assert forall|j: int, k: int| 0 <= j < k < c.len() implies ((#[trigger] c[j]).0, c[j].1, c[j].2) != ((#[trigger] c[k]).0, c[k].1, c[k].2) by {
            if k < a.len() {
                assert(c[j] == a[j] && c[k] == a[k]);
            } else if j >= a.len() {
                assert(c[j] == b[j - a.len()] && c[k] == b[k - a.len()]);
            } else {
                assert(c[j] == a[j] && c[k] == b[k - a.len()]);
            }
        }
    }
}

/// Where row `(x, y)` lists the cell `z`.
proof fn lemma_row_index<T>(o: (u32, u32, u32), x: nat, y: nat, n: nat, v: Rc<T>, z: nat) -> (j: int)
    requires
        z < n,
    ensures
        0 <= j < z_row(o, x, y, n, v).len(),
        z_row(o, x, y, n, v)[j] == cube_entry(o, x, y, z, v),
{
    z as int
}

/// Where the rows `y < n` of slab `x` list the cell `(y, z)`.
proof fn lemma_rows_index<T>(o: (u32, u32, u32), x: nat, n: nat, s: nat, v: Rc<T>, y: nat, z: nat) -> (j: int)
    requires
        y < n,
        z < s,
    ensures
        0 <= j < y_rows(o, x, n, s, v).len(),
        y_rows(o, x, n, s, v)[j] == cube_entry(o, x, y, z, v),
    decreases n,
{
    let m = (n - 1) as nat;
    let a = y_rows(o, x, m, s, v);
    let b = z_row(o, x, m, s, v);
    assert(y_rows(o, x, n, s, v) == a + b);
    if y < m {
        let j = lemma_rows_index(o, x, m, s, v, y, z);
        assert((a + b)[j] == a[j]);
        j
    } else {
        let j = lemma_row_index(o, x, m, s, v, z);
        assert((a + b)[a.len() + j] == b[j]);
        a.len() + j
    }
}

/// Where the slabs `x < n` of a cube of edge `s` list the cell `(x, y, z)`.
proof fn lemma_slabs_index<T>(o: (u32, u32, u32), n: nat, s: nat, v: Rc<T>, x: nat, y: nat, z: nat) -> (j: int)
    requires
        x < n,
        y < s,
        z < s,
    ensures
        0 <= j < x_slabs(o, n, s, v).len(),
        x_slabs(o, n, s, v)[j] == cube_entry(o, x, y, z, v),
    decreases n,
{
    let m = (n - 1) as nat;
    let a = x_slabs(o, m, s, v);
    let b = y_rows(o, m, s, s, v);
    assert(x_slabs(o, n, s, v) == a + b);
    if x < m {
        let j = lemma_slabs_index(o, m, s, v, x, y, z);
        assert((a + b)[j] == a[j]);
        j
    } else {
        let j = lemma_rows_index(o, m, s, s, v, y, z);
        assert((a + b)[a.len() + j] == b[j]);
        a.len() + j
    }
}

/// Where the children `s` of a branch list the `jj`-th cell of child `k`.
proof fn lemma_cells_of_index<T>(s: Seq<OctreeNode<T>>, o: (u32, u32, u32), d: nat, k: int, jj: int) -> (j: int)
    requires
        0 <= k < s.len(),
        0 <= jj < s[k].cells(child_corner(o, d, k as nat), (d - 1) as nat).len(),
    ensures
        0 <= j < cells_of(s, o, d).len(),
        cells_of(s, o, d)[j] == s[k].cells(child_corner(o, d, k as nat), (d - 1) as nat)[jj],
    decreases s.len(),
{
    let t = s.drop_last();
    let last = s.len() - 1;
    let a = cells_of(t, o, d);
    let b = s[last].cells(child_corner(o, d, last as nat), (d - 1) as nat);
    assert(cells_of(s, o, d) == a + b);
    if k == last {
        assert((a + b)[a.len() + jj] == b[jj]);
        a.len() + jj
    } else {
        assert(t[k] == s[k]);
        let j = lemma_cells_of_index(t, o, d, k, jj);
        assert((a + b)[j] == a[j]);
        j
    }
}

/// No two cells of `s` share their coordinates.
pub open spec fn distinct_cells<T>(s: Seq<VoxelEntry<T>>) -> bool {
    forall|j: int, k: int| 0 <= j < k < s.len() ==> ((#[trigger] s[j]).0, s[j].1, s[j].2) != ((#[trigger] s[k]).0, s[k].1, s[k].2)
}

/// Children that each list their cells once, inside their own cubes, list
/// them once together.
proof fn lemma_cells_of_distinct<T>(s: Seq<OctreeNode<T>>, o: (u32, u32, u32), d: nat)
    requires
        forall|i: int| 0 <= i < s.len() ==> lists_held(#[trigger] s[i], child_corner(o, d, i as nat), (d - 1) as nat),
        forall|i: int| 0 <= i < s.len() ==> distinct_cells(#[trigger] s[i].cells(child_corner(o, d, i as nat), (d - 1) as nat)),
        forall|i: int, e: VoxelEntry<T>| 0 <= i < s.len() && #[trigger] held_in(s[i], child_corner(o, d, i as nat), (d - 1) as nat, e)
            ==> child_index_of(d, (e.0, e.1, e.2)) == i,
    ensures
        distinct_cells(cells_of(s, o, d)),
    decreases s.len(),
{
    if s.len() > 0 {
        let t = s.drop_last();
        assert forall|i: int| 0 <= i < t.len() implies lists_held(#[trigger] t[i], child_corner(o, d, i as nat), (d - 1) as nat) by {
            assert(t[i] == s[i]);
        }
        assert forall|i: int| 0 <= i < t.len() implies distinct_cells(#[trigger] t[i].cells(child_corner(o, d, i as nat), (d - 1) as nat)) by {
            assert(t[i] == s[i]);
        }
        assert forall|i: int, e: VoxelEntry<T>| 0 <= i < t.len() && #[trigger] held_in(t[i], child_corner(o, d, i as nat), (d - 1) as nat, e)
            implies child_index_of(d, (e.0, e.1, e.2)) == i by {
            assert(t[i] == s[i]);
        }
        lemma_cells_of_distinct(t, o, d);
        lemma_cells_of_from_children(t, o, d);
        let k = s.len() - 1;
        let a = cells_of(t, o, d);
        let b = s[k].cells(child_corner(o, d, k as nat), (d - 1) as nat);
        let c = cells_of(s, o, d);
        assert(c == a + b);
        assert(lists_held(s[k], child_corner(o, d, k as nat), (d - 1) as nat));
        assert(distinct_cells(b));
        assert forall|j: int, m: int| 0 <= j < m < c.len() implies ((#[trigger] c[j]).0, c[j].1, c[j].2) != ((#[trigger] c[m]).0, c[m].1, c[m].2) by {
            if m < a.len() {
                assert(c[j] == a[j] && c[m] == a[m]);
            } else if j >= a.len() {
                assert(c[j] == b[j - a.len()] && c[m] == b[m - a.len()]);
            } else {
                assert(c[j] == a[j] && c[m] == b[m - a.len()]);
                let i = choose|i: int| 0 <= i < t.len() && held_in(t[i], child_corner(o, d, i as nat), (d - 1) as nat, #[trigger] a[j]);
                assert(t[i] == s[i]);
                assert(held_in(s[i], child_corner(o, d, i as nat), (d - 1) as nat, a[j]));
                assert(held_in(s[k], child_corner(o, d, k as nat), (d - 1) as nat, b[m - a.len()]));
            }
        }
    }
}

/// Total number of leaves in a sequence of nodes.
pub closed spec fn leaves_of<T>(s: Seq<OctreeNode<T>>) -> nat
    decreases s, 0nat,
{
    if s.len() == 0 {
        0
    } else {
        leaves_of(s.drop_last()) + s.last().leaves()
    }
}

proof fn lemma_leaves_of_prefix<T>(s: Seq<OctreeNode<T>>, n: int)
    requires
        0 <= n <= s.len(),
    ensures
        leaves_of(s.take(n)) <= leaves_of(s),
    decreases s.len() - n,
{
    if n < s.len() {
        lemma_leaves_of_prefix(s, n + 1);
        assert(s.take(n + 1).drop_last() =~= s.take(n));
    } else {
        assert(s.take(n) =~= s);
    }
}

/// One voxel as listed by the tree: its coordinates and value.
pub type VoxelEntry<T> = (u32, u32, u32, Rc<T>);

/// The cells `(o.0 + x, o.1 + y, o.2 + z)` for `z < n`, in increasing `z`.
pub open spec fn z_row<T>(o: (u32, u32, u32), x: nat, y: nat, n: nat, v: Rc<T>) -> Seq<VoxelEntry<T>> {
    Seq::new(n, |z: int| ((o.0 + x) as u32, (o.1 + y) as u32, (o.2 + z) as u32, v))
}

/// The rows `y < n` of the slab at `x` of a cube of edge `s`, in increasing `y`.
pub open spec fn y_rows<T>(o: (u32, u32, u32), x: nat, n: nat, s: nat, v: Rc<T>) -> Seq<VoxelEntry<T>>
    decreases n,
{
    if n == 0 {
        Seq::empty()
    } else {
        y_rows(o, x, (n - 1) as nat, s, v) + z_row(o, x, (n - 1) as nat, s, v)
    }
}

/// The slabs `x < n` of a cube of edge `s`, in increasing `x`.
pub open spec fn x_slabs<T>(o: (u32, u32, u32), n: nat, s: nat, v: Rc<T>) -> Seq<VoxelEntry<T>>
    decreases n,
{
    if n == 0 {
        Seq::empty()
    } else {
        x_slabs(o, (n - 1) as nat, s, v) + y_rows(o, (n - 1) as nat, s, s, v)
    }
}

/// Every cell of the cube with corner `o` and edge `s`, x-major, then y, then z.
pub open spec fn cube_cells<T>(o: (u32, u32, u32), s: nat, v: Rc<T>) -> Seq<VoxelEntry<T>> {
    x_slabs(o, s, s, v)
}

/// Corner of child `i` of the node with corner `o` at reversed depth `d`:
/// bit 0 of `i` moves along x, bit 1 along y, bit 2 along z.
pub open spec fn child_corner(o: (u32, u32, u32), d: nat, i: nat) -> (u32, u32, u32) {
    let h = pow2((d - 1) as nat);
    (
        (o.0 + (i % 2) * h) as u32,
        (o.1 + ((i / 2) % 2) * h) as u32,
        (o.2 + ((i / 4) % 2) * h) as u32,
    )
}

/// The corner `o` and edge `2^d` stay within `u32`.
pub open spec fn cube_fits(o: (u32, u32, u32), d: nat) -> bool {
    &&& o.0 + pow2(d) <= u32::MAX + 1
    &&& o.1 + pow2(d) <= u32::MAX + 1
    &&& o.2 + pow2(d) <= u32::MAX + 1
}

/// The voxels listed by the children `0..s.len()` of a branch with corner `o`
/// at reversed depth `d`, child by child.
pub closed spec fn cells_of<T>(s: Seq<OctreeNode<T>>, o: (u32, u32, u32), d: nat) -> Seq<VoxelEntry<T>>
    decreases s, 0nat,
{
    if s.len() == 0 {
        Seq::empty()
    } else {
        cells_of(s.drop_last(), o, d) + s.last().cells(child_corner(o, d, (s.len() - 1) as nat), (d - 1) as nat)
    }
}

/// A point of integer space.
pub type Point = (int, int, int);

/// Corner of child `i` of a node with corner `o` at reversed depth `d` in the
/// frame that filling walks: bit 2 of `i` moves along x, bit 1 along y and
/// bit 0 along z (the lookup frame has x and z the other way round).
pub open spec fn fill_child_corner(o: Point, d: nat, i: nat) -> Point {
    let h = pow2((d - 1) as nat);
    (o.0 + ((i / 4) % 2) * h, o.1 + ((i / 2) % 2) * h, o.2 + (i % 2) * h)
}

/// Where filling from a node with corner `o` at reversed depth `d` places the
/// unit cell that lookups of `q` reach.
pub open spec fn fill_position(o: Point, d: nat, q: (u32, u32, u32)) -> Point
    decreases d,
{
    if d == 0 {
        o
    } else {
        fill_position(fill_child_corner(o, d, child_index_of(d, q)), (d - 1) as nat, q)
    }
}

/// `p` lies in the box from `from` to `to`, both corners included.
pub open spec fn in_box(p: Point, from: (u32, u32, u32), to: (u32, u32, u32)) -> bool {
    &&& from.0 <= p.0 <= to.0
    &&& from.1 <= p.1 <= to.1
    &&& from.2 <= p.2 <= to.2
}

/// Every fill position of a node lies in its cube.
pub proof fn lemma_fill_position_in_cube(o: Point, d: nat, q: (u32, u32, u32))
    ensures
        o.0 <= fill_position(o, d, q).0 < o.0 + pow2(d),
        o.1 <= fill_position(o, d, q).1 < o.1 + pow2(d),
        o.2 <= fill_position(o, d, q).2 < o.2 + pow2(d),
    decreases d,
{
    if d == 0 {
        vstd::arithmetic::power2::lemma2_to64();
    } else {
        let c = fill_child_corner(o, d, child_index_of(d, q));
        lemma_fill_position_in_cube(c, (d - 1) as nat, q);
        vstd::arithmetic::power2::lemma_pow2_unfold(d);
        vstd::arithmetic::power2::lemma_pow2_pos((d - 1) as nat);
        let h = pow2((d - 1) as nat);
        let ci = child_index_of(d, q);
        assert(0 <= (ci / 4) % 2 <= 1 && 0 <= (ci / 2) % 2 <= 1 && 0 <= ci % 2 <= 1);
        assert(((ci / 4) % 2) * h <= h) by (nonlinear_arith)
            requires 0 <= (ci / 4) % 2 <= 1, h > 0;
        assert(((ci / 2) % 2) * h <= h) by (nonlinear_arith)
            requires 0 <= (ci / 2) % 2 <= 1, h > 0;
        assert((ci % 2) * h <= h) by (nonlinear_arith)
            requires 0 <= ci % 2 <= 1, h > 0;
        assert(((ci / 4) % 2) * h >= 0 && ((ci / 2) % 2) * h >= 0 && (ci % 2) * h >= 0) by (nonlinear_arith)
            requires 0 <= (ci / 4) % 2 <= 1, 0 <= (ci / 2) % 2 <= 1, 0 <= ci % 2 <= 1, h > 0;
    }
}

impl<T> OctreeBranch<T> {
    /// The branch seen as a node.
    pub closed spec fn node(self) -> OctreeNode<T> {
        OctreeNode::Branch(Box::new(self))
    }

    /// A branch with eight leaf children that all hold `value`.
    pub fn new_filled_by(value: Option<Rc<T>>) -> (r: Self)
        ensures
            r.node().uniform_children(value),
    {
        let mut children: Vec<OctreeNode<T>> = Vec::new();
        let mut i: usize = 0;
        while i < 8
            invariant
                i <= 8,
                children@.len() == i,
                forall|j: int| 0 <= j < i ==> #[trigger] children@[j] == OctreeNode::<T>::Leaf(value),
            decreases 8 - i,
        {
            children.push(OctreeNode::Leaf(clone_value(&value)));
            i = i + 1;
        }
        Self { children }
    }

    /// Stores `value` at the unit cell of `(x, y, z)` below this branch of
    /// reversed depth `depth`.
    pub fn insert(&mut self, depth: u8, x: u32, y: u32, z: u32, value: Rc<T>)
        requires
            old(self).node().wf(depth as nat),
            old(self).node().children_tidy(),
            depth <= 32,
        ensures
            final(self).node().wf(depth as nat),
            final(self).node().children_tidy(),
            forall|q: (u32, u32, u32)| #[trigger] final(self).node().lookup(depth as nat, q)
                == if same_cell(depth as nat, (x, y, z), q) { Some(value) } else {
                    old(self).node().lookup(depth as nat, q)
                },
            (forall|q: (u32, u32, u32)| #[trigger] old(self).node().lookup(depth as nat, q) != Some(value))
                ==> final(self).node().leaf_level(depth as nat, (x, y, z)) == 0,
            (forall|q: (u32, u32, u32)| #[trigger] old(self).node().lookup(depth as nat, q) != Some(value))
                ==> final(self).node().leaves() == old(self).node().leaves() + 7 * old(self).node().leaf_level(depth as nat, (x, y, z)),
            final(self).node().mixed_around(depth as nat, (x, y, z)) ==> {
                let lp = old(self).node().leaf_level(depth as nat, (x, y, z));
                &&& final(self).node().leaves() == old(self).node().leaves() + 7 * lp
                &&& forall|q: (u32, u32, u32)| #[trigger] final(self).node().leaf_level(depth as nat, q)
                    == if same_path(depth as nat, (depth - lp) as nat, (x, y, z), q) {
                        split_level(lp, (x, y, z), q)
                    } else {
                        old(self).node().leaf_level(depth as nat, q)
                    }
            },
        decreases depth, 0nat,
    {
        let p = (x, y, z);
        let child_index = get_child_index(depth, &p);
        let ghost old_children = self.children@;
        if depth == 1 {
            self.children.set(child_index, OctreeNode::Leaf(Some(value)));
            proof {
                assert(self.node().leaf_level(1, p) == self.children@[child_index as int].leaf_level(0, p));
                assert(self.children@ == old_children.update(child_index as int, OctreeNode::<T>::Leaf(Some(value))));
                lemma_leaves_of_update(old_children, child_index as int, OctreeNode::<T>::Leaf(Some(value)));
                assert(old_children[child_index as int].wf(0));
                assert(old_children[child_index as int] is Leaf);
                assert(old(self).node().leaf_level(1, p) == old_children[child_index as int].leaf_level(0, p));
                assert forall|q: (u32, u32, u32)| #[trigger] self.node().leaf_level(1, q)
                    == if same_path(1, (1 - old(self).node().leaf_level(1, p)) as nat, p, q) {
                        split_level(old(self).node().leaf_level(1, p), p, q)
                    } else {
                        old(self).node().leaf_level(1, q)
                    } by {
                    let cq = child_index_of(1, q);
                    assert(cq < 8);
                    assert(same_path(1, 1, p, q) == (child_index_of(1, p) == cq && same_path(0, 0, p, q)));
                    assert(self.node().leaf_level(1, q) == self.children@[cq as int].leaf_level(0, q));
                    assert(old(self).node().leaf_level(1, q) == old_children[cq as int].leaf_level(0, q));
                    if cq != child_index {
                        assert(self.children@[cq as int] == old_children[cq as int]);
                    }
                }
                assert forall|i: int| 0 <= i < 8 implies (#[trigger] self.children@[i]).wf(0) && self.children@[i].tidy() by {
                    if i != child_index {
                        assert(self.children@[i] == old_children[i]);
                    }
                }
                assert forall|q: (u32, u32, u32)| #[trigger] self.node().lookup(1, q)
                    == if same_cell(1, p, q) { Some(value) } else { old(self).node().lookup(1, q) } by {
                    assert(same_path(0, 0, p, q));
                    assert(same_cell(1, p, q) == (child_index_of(1, p) == child_index_of(1, q)));
                    let cq = child_index_of(1, q);
                    assert(cq < 8);
                    if cq == child_index {
                        assert(OctreeNode::<T>::Leaf(Some(value)).lookup(0, q) == Some(value));
                    }
                }
            }
            return;
        }
        let mut child = OctreeNode::Leaf(None);
        std::mem::swap(&mut child, &mut self.children[child_index]);
        assert(child == old_children[child_index as int]);
        let ghost fresh = forall|q: (u32, u32, u32)| #[trigger] old(self).node().lookup(depth as nat, q) != Some(value);
        proof {
            if fresh {
                assert forall|r: (u32, u32, u32)| #[trigger] child.lookup((depth - 1) as nat, r) != Some(value) by {
                    let q = old(self).node().lemma_child_reach(depth as nat, child_index as nat, r);
                }
            }
        }
        let ghost before_child = child;
        child.insert(depth - 1, x, y, z, value);
        let ghost mid = child;
        child.try_compress();
        proof {
            if fresh {
                OctreeNode::<T>::lemma_fresh_not_uniform(before_child, mid, (depth - 1) as nat, (x, y, z), value);
                if child != mid {
                    assert(mid.uniform_children(child->Leaf_0));
                }
            }
        }
        let ghost fin_child = child;
        self.children.set(child_index, child);
        proof {
            assert(self.children@ =~= old_children.update(child_index as int, child));
            lemma_leaves_of_update(old_children, child_index as int, child);
            assert(old(self).node().leaf_level(depth as nat, p) == old_children[child_index as int].leaf_level((depth - 1) as nat, p));
        }
        proof {
            let d = depth as nat;
            assert(old_children.len() == 8);
            assert(self.children@.len() == 8);
            assert forall|i: int| 0 <= i < 8 implies (#[trigger] self.children@[i]).wf((d - 1) as nat) && self.children@[i].tidy() by {
                if i != child_index {
                    assert(self.children@[i] == old_children[i]);
                }
            }
            assert forall|q: (u32, u32, u32)| #[trigger] self.node().lookup(d, q)
                == if same_cell(d, p, q) { Some(value) } else { old(self).node().lookup(d, q) } by {
                let cq = child_index_of(d, q);
                assert(cq < 8);
                assert(same_cell(d, p, q) == (child_index_of(d, p) == cq && same_cell((d - 1) as nat, p, q)));
                assert(old(self).node().lookup(d, q) == old_children[cq as int].lookup((d - 1) as nat, q));
                assert(self.node().lookup(d, q) == self.children@[cq as int].lookup((d - 1) as nat, q));
                if cq != child_index {
                    assert(self.children@[cq as int] == old_children[cq as int]);
                }
            }
        }
        proof {
            let d = depth as nat;
            let ci = child_index as int;
            if self.node().mixed_around(d, p) {
                assert forall|k: nat| 1 <= k <= (d - 1) as nat implies #[trigger] fin_child.block_mixed((d - 1) as nat, p, k) by {
                    assert(self.node().block_mixed(d, p, k));
                    let q = choose|q: (u32, u32, u32)| same_path(d, (d - k) as nat, p, q) && #[trigger] self.node().lookup(d, q)
                        != self.node().lookup(d, p);
                    assert(same_path(d, (d - k) as nat, p, q) == (child_index_of(d, p) == child_index_of(d, q) && same_path(
                        (d - 1) as nat,
                        ((d - k) - 1) as nat,
                        p,
                        q,
                    )));
                    assert(((d - k) - 1) as nat == ((d - 1) as nat - k) as nat);
                    assert(self.node().lookup(d, q) == self.children@[ci].lookup((d - 1) as nat, q));
                    assert(self.node().lookup(d, p) == self.children@[ci].lookup((d - 1) as nat, p));
                    assert(fin_child.lookup((d - 1) as nat, q) != fin_child.lookup((d - 1) as nat, p));
                }
                assert(fin_child.mixed_around((d - 1) as nat, p));
                if fin_child != mid {
                    assert(fin_child.block_mixed((d - 1) as nat, p, (d - 1) as nat));
                    let q = choose|q: (u32, u32, u32)| same_path((d - 1) as nat, 0, p, q) && #[trigger] fin_child.lookup((d - 1) as nat, q)
                        != fin_child.lookup((d - 1) as nat, p);
                    assert(false);
                }
                let lp = old(self).node().leaf_level(d, p);
                before_child.lemma_leaf_level_bound((d - 1) as nat, p);
                assert(lp <= d - 1);
                assert forall|q: (u32, u32, u32)| #[trigger] self.node().leaf_level(d, q)
                    == if same_path(d, (d - lp) as nat, p, q) { split_level(lp, p, q) } else { old(self).node().leaf_level(d, q) } by {
                    let cq = child_index_of(d, q);
                    assert(cq < 8);
                    assert(same_path(d, (d - lp) as nat, p, q) == (child_index_of(d, p) == cq && same_path(
                        (d - 1) as nat,
                        ((d - lp) - 1) as nat,
                        p,
                        q,
                    )));
                    assert(((d - lp) - 1) as nat == ((d - 1) as nat - lp) as nat);
                    assert(self.node().leaf_level(d, q) == self.children@[cq as int].leaf_level((d - 1) as nat, q));
                    assert(old(self).node().leaf_level(d, q) == old_children[cq as int].leaf_level((d - 1) as nat, q));
                    if cq != child_index {
                        assert(self.children@[cq as int] == old_children[cq as int]);
                    }
                }
            }
        }
    }
}

/// Every point lies on its own path.
pub proof fn lemma_same_path_refl(d: nat, k: nat, p: (u32, u32, u32))
    ensures
        same_path(d, k, p, p),
    decreases k,
{
    if k > 0 {
        lemma_same_path_refl((d - 1) as nat, (k - 1) as nat, p);
    }
}

/// Filling starts from corner `o` and places the cell of `q` at `o` plus the
/// coordinates of `q` modulo `2^d`, with x and z exchanged.
pub proof fn lemma_fill_position_transposes(o: Point, d: nat, q: (u32, u32, u32))
    ensures
        fill_position(o, d, q) == (
            o.0 + q.2 as nat % pow2(d),
            o.1 + q.1 as nat % pow2(d),
            o.2 + q.0 as nat % pow2(d)),
    decreases d,
{
    if d == 0 {
        vstd::arithmetic::power2::lemma2_to64();
        assert(q.0 as nat % 1 == 0 && q.1 as nat % 1 == 0 && q.2 as nat % 1 == 0);
    } else {
        let e = (d - 1) as nat;
        let ci = child_index_of(d, q);
        let c = fill_child_corner(o, d, ci);
        lemma_fill_position_transposes(c, e, q);
        lemma_low_bits_step(q.0, e);
        lemma_low_bits_step(q.1, e);
        lemma_low_bits_step(q.2, e);
        assert(d == e + 1);
        assert((ci / 4) % 2 == bit(q.2, e));
        assert((ci / 2) % 2 == bit(q.1, e));
        assert(ci % 2 == bit(q.0, e));
        assert(fill_position(o, d, q) == fill_position(c, e, q));
        let h = pow2(e);
        assert(c == (o.0 + bit(q.2, e) * h, o.1 + bit(q.1, e) * h, o.2 + bit(q.0, e) * h));
        assert(q.2 as nat % pow2(d) == bit(q.2, e) * h + q.2 as nat % h);
        assert(fill_position(c, e, q).0 == c.0 + q.2 as nat % h);
        assert(c.0 == o.0 + bit(q.2, e) * h);
        let m2 = q.2 as nat % pow2(d);
        let r2 = q.2 as nat % h;
        let b2 = bit(q.2, e);
        assert(m2 == b2 * h + r2);
        assert(c.0 == o.0 + b2 * h);
        assert(o.0 + m2 == c.0 + r2) by (nonlinear_arith)
            requires
                m2 == b2 * h + r2,
                c.0 == o.0 + b2 * h;
        assert(fill_position(o, d, q).0 == o.0 + q.2 as nat % pow2(d));
        assert(fill_position(o, d, q).1 == o.1 + q.1 as nat % pow2(d));
        assert(fill_position(o, d, q).2 == o.2 + q.0 as nat % pow2(d));
    }
}

/// A cubic voxel store of edge `2^max_depth`; coordinates are taken modulo the
/// edge (only their lowest `max_depth` bits are read).
pub struct Octree<T> {
    root: OctreeNode<T>,
    max_depth: u8,
}

impl<T> Octree<T> {
    #[verifier::type_invariant]
    spec fn inv(self) -> bool {
        &&& self.root.wf(self.max_depth as nat)
        &&& self.root.tidy()
    }

    /// No branch of the tree has eight empty leaves as children: emptied parts
    /// are merged into single empty leaves.
    pub closed spec fn empty_parts_merged(self) -> bool {
        self.root.tidy()
    }

    /// Reversed depth of the root: the tree spans `2^max_depth` cells per axis.
    pub closed spec fn max_depth(self) -> nat {
        self.max_depth as nat
    }

    /// The value stored at `(x, y, z)`.
    pub closed spec fn at(self, x: u32, y: u32, z: u32) -> Option<Rc<T>> {
        self.root.lookup(self.max_depth as nat, (x, y, z))
    }

    /// Some cell of the block of level `k` (edge `2^k`) that holds `p` reads
    /// otherwise than `p`.
    pub open spec fn cell_block_mixed(self, p: (u32, u32, u32), k: nat) -> bool {
        exists|q: (u32, u32, u32)| same_path(self.max_depth(), (self.max_depth() - k) as nat, p, q) && #[trigger] self.at(q.0, q.1, q.2)
            != self.at(p.0, p.1, p.2)
    }

    /// No block that holds `p`, from the one of edge 2 up to the whole tree,
    /// reads the same in all its cells.
    pub open spec fn cells_mixed_around(self, p: (u32, u32, u32)) -> bool {
        forall|k: nat| 1 <= k <= self.max_depth() ==> #[trigger] self.cell_block_mixed(p, k)
    }

    /// Reversed depth of the leaf that holds `(x, y, z)`.
    pub closed spec fn leaf_level(self, x: u32, y: u32, z: u32) -> nat {
        self.root.leaf_level(self.max_depth as nat, (x, y, z))
    }

    /// Number of leaves of the tree.
    pub closed spec fn leaf_count(self) -> nat {
        self.root.leaves()
    }

    /// The filled cells in the order in which the tree lists them.
    pub closed spec fn voxels(self) -> Seq<VoxelEntry<T>> {
        self.root.cells((0, 0, 0), self.max_depth as nat)
    }

    /// Law: after `insert` of `value` at `(x, y, z)`, `get` at `(x, y, z)` reads
    /// `value`.
    pub proof fn law_get_after_insert(before: Self, after: Self, x: u32, y: u32, z: u32, value: Rc<T>)
        requires
            after.max_depth() == before.max_depth(),
            forall|a: u32, b: u32, c: u32| #[trigger] after.at(a, b, c)
                == if same_cell(before.max_depth(), (x, y, z), (a, b, c)) { Some(value) } else { before.at(a, b, c) },
        ensures
            after.at(x, y, z) == Some(value),
    {
        lemma_same_path_refl(before.max_depth(), before.max_depth(), (x, y, z));
    }

    /// Law: removing the cell that an `insert` has just filled, with a value
    /// that the tree held nowhere and at a cell that was empty, gives back that
    /// value and leaves every cell as it was before the `insert`.
    pub proof fn law_remove_undoes_fresh_insert(
        t0: Self,
        t1: Self,
        t2: Self,
        x: u32,
        y: u32,
        z: u32,
        value: Rc<T>,
        removed: Option<Rc<T>>,
    )
        requires
            t0.at(x, y, z) is None,
            forall|a: u32, b: u32, c: u32| #[trigger] t0.at(a, b, c) != Some(value),
            t1.max_depth() == t0.max_depth(),
            forall|a: u32, b: u32, c: u32| #[trigger] t1.at(a, b, c)
                == if same_cell(t0.max_depth(), (x, y, z), (a, b, c)) { Some(value) } else { t0.at(a, b, c) },
            (forall|a: u32, b: u32, c: u32| #[trigger] t0.at(a, b, c) != Some(value)) ==> t1.leaf_level(x, y, z) == 0,
            removed == t1.at(x, y, z),
            t2.max_depth() == t1.max_depth(),
            forall|a: u32, b: u32, c: u32| #[trigger] t2.at(a, b, c)
                == if same_path(t1.max_depth(), (t1.max_depth() - t1.leaf_level(x, y, z)) as nat, (x, y, z), (a, b, c)) {
                    None
                } else {
                    t1.at(a, b, c)
                },
        ensures
            removed == Some(value),
            forall|a: u32, b: u32, c: u32| #[trigger] t2.at(a, b, c) == t0.at(a, b, c),
    {
        let d = t0.max_depth();
        lemma_same_path_refl(d, d, (x, y, z));
        assert(t1.leaf_level(x, y, z) == 0);
        assert forall|a: u32, b: u32, c: u32| #[trigger] t2.at(a, b, c) == t0.at(a, b, c) by {
            if same_cell(d, (x, y, z), (a, b, c)) {
                t0.root.lemma_lookup_same_cell(d, (x, y, z), (a, b, c));
            }
        }
    }

    /// Law: `insert` at `(x, y, z)` leaves every cell whose coordinates differ
    /// from `(x, y, z)` modulo the edge `2^max_depth` as it was; for coordinates
    /// inside the edge, every other cell.
    pub proof fn law_insert_keeps_other_cells(
        before: Self,
        after: Self,
        x: u32,
        y: u32,
        z: u32,
        value: Rc<T>,
        a: u32,
        b: u32,
        c: u32,
    )
        requires
            after.max_depth() == before.max_depth(),
            forall|a: u32, b: u32, c: u32| #[trigger] after.at(a, b, c)
                == if same_cell(before.max_depth(), (x, y, z), (a, b, c)) { Some(value) } else { before.at(a, b, c) },
            x as nat % pow2(before.max_depth()) != a as nat % pow2(before.max_depth())
                || y as nat % pow2(before.max_depth()) != b as nat % pow2(before.max_depth())
                || z as nat % pow2(before.max_depth()) != c as nat % pow2(before.max_depth()),
        ensures
            after.at(a, b, c) == before.at(a, b, c),
    {
        lemma_same_cell_iff_congruent(before.max_depth(), (x, y, z), (a, b, c));
    }

    /// Law: coordinates inside the edge are congruent modulo the edge only when
    /// they are equal, so there `insert` changes no other cell.
    pub proof fn law_in_range_cells_are_distinct(t: Self, p: (u32, u32, u32), q: (u32, u32, u32))
        requires
            p.0 < pow2(t.max_depth()) && p.1 < pow2(t.max_depth()) && p.2 < pow2(t.max_depth()),
            q.0 < pow2(t.max_depth()) && q.1 < pow2(t.max_depth()) && q.2 < pow2(t.max_depth()),
        ensures
            same_cell(t.max_depth(), p, q) <==> p == q,
    {
        let d = t.max_depth();
        lemma_same_cell_iff_congruent(d, p, q);
        vstd::arithmetic::power2::lemma_pow2_pos(d);
        vstd::arithmetic::div_mod::lemma_small_mod(p.0 as nat, pow2(d));
        vstd::arithmetic::div_mod::lemma_small_mod(p.1 as nat, pow2(d));
        vstd::arithmetic::div_mod::lemma_small_mod(p.2 as nat, pow2(d));
        vstd::arithmetic::div_mod::lemma_small_mod(q.0 as nat, pow2(d));
        vstd::arithmetic::div_mod::lemma_small_mod(q.1 as nat, pow2(d));
        vstd::arithmetic::div_mod::lemma_small_mod(q.2 as nat, pow2(d));
    }

    /// Law: the tree reads its coordinates modulo the edge `2^max_depth`.
    pub proof fn law_coordinates_wrap(t: Self, x: u32, y: u32, z: u32)
        ensures
            pow2(t.max_depth()) <= u32::MAX ==> t.at(x, y, z) == t.at(
                (x as nat % pow2(t.max_depth())) as u32,
                (y as nat % pow2(t.max_depth())) as u32,
                (z as nat % pow2(t.max_depth())) as u32,
            ),
    {
        let d = t.max_depth();
        vstd::arithmetic::power2::lemma_pow2_pos(d);
        if pow2(d) <= u32::MAX {
            let q = ((x as nat % pow2(d)) as u32, (y as nat % pow2(d)) as u32, (z as nat % pow2(d)) as u32);
            vstd::arithmetic::div_mod::lemma_mod_twice(x as int, pow2(d) as int);
            vstd::arithmetic::div_mod::lemma_mod_twice(y as int, pow2(d) as int);
            vstd::arithmetic::div_mod::lemma_mod_twice(z as int, pow2(d) as int);
            lemma_same_cell_iff_congruent(d, (x, y, z), q);
            t.root.lemma_lookup_same_cell(d, (x, y, z), q);
        }
    }

    /// Law: after `remove` at `(x, y, z)`, `get` at `(x, y, z)` reads nothing,
    /// and `remove` handed back what `get` read there before.
    pub proof fn law_get_after_remove(before: Self, after: Self, x: u32, y: u32, z: u32, removed: Option<Rc<T>>)
        requires
            removed == before.at(x, y, z),
            before.leaf_level(x, y, z) <= before.max_depth(),
            after.max_depth() == before.max_depth(),
            forall|a: u32, b: u32, c: u32| #[trigger] after.at(a, b, c)
                == if same_path(before.max_depth(), (before.max_depth() - before.leaf_level(x, y, z)) as nat, (x, y, z), (a, b, c)) {
                    None
                } else {
                    before.at(a, b, c)
                },
        ensures
            after.at(x, y, z) == None::<Rc<T>>,
            removed == before.at(x, y, z),
    {
        lemma_same_path_refl(before.max_depth(), (before.max_depth() - before.leaf_level(x, y, z)) as nat, (x, y, z));
    }

    /// Law: `fill_voxels` fills the box with x and z exchanged: the cell
    /// `(a, b, c)` is filled when `(c, b, a)`, taken modulo the edge, lies in
    /// the box.
    pub proof fn law_fill_box_is_transposed(t: Self, from: (u32, u32, u32), to: (u32, u32, u32), a: u32, b: u32, c: u32)
        ensures
            in_box(fill_position((0, 0, 0), t.max_depth(), (a, b, c)), from, to) <==> in_box(
                ((c as nat % pow2(t.max_depth())) as int, (b as nat % pow2(t.max_depth())) as int, (a as nat % pow2(t.max_depth())) as int),
                from,
                to,
            ),
    {
        lemma_fill_position_transposes((0, 0, 0), t.max_depth(), (a, b, c));
    }

    /// An empty tree of reversed depth `max_depth`.
    pub fn new(max_depth: u8) -> (r: Self)
        ensures
            r.empty_parts_merged(),
            r.max_depth() == max_depth,
            forall|x: u32, y: u32, z: u32| #[trigger] r.at(x, y, z) == None::<Rc<T>>,
            r.leaf_count() == 1,
            r.voxels() == Seq::<VoxelEntry<T>>::empty(),
            forall|x: u32, y: u32, z: u32| #[trigger] r.leaf_level(x, y, z) == r.max_depth(),
    {
        Self { max_depth, root: OctreeNode::Leaf(None) }
    }

    /// An empty tree large enough for `max_size` cells per axis.
    pub fn from_max_size(max_size: u32) -> (r: Self)
        requires
            max_size >= 1,
        ensures
            r.empty_parts_merged(),
            r.max_depth() <= 32,
            max_size <= pow2(r.max_depth()),
            r.max_depth() == 0 || pow2((r.max_depth() - 1) as nat) < max_size,
            forall|x: u32, y: u32, z: u32| #[trigger] r.at(x, y, z) == None::<Rc<T>>,
            r.leaf_count() == 1,
            r.voxels() == Seq::<VoxelEntry<T>>::empty(),
    {
        Self::new(Self::get_max_depth_for(max_size))
    }

    /// Stores `value` at `(x, y, z)`.
    pub fn insert(&mut self, x: u32, y: u32, z: u32, value: Rc<T>)
        requires
            old(self).max_depth() <= 32,
        ensures
            final(self).empty_parts_merged(),
            final(self).max_depth() == old(self).max_depth(),
            forall|a: u32, b: u32, c: u32| #[trigger] final(self).at(a, b, c)
                == if same_cell(old(self).max_depth(), (x, y, z), (a, b, c)) { Some(value) } else { old(self).at(a, b, c) },
            final(self).leaf_level(x, y, z) <= final(self).max_depth(),
            forall|a: u32, b: u32, c: u32|
                same_path(
                    final(self).max_depth(),
                    (final(self).max_depth() - final(self).leaf_level(x, y, z)) as nat,
                    (x, y, z),
                    (a, b, c),
                ) ==> #[trigger] final(self).at(a, b, c) == Some(value),
            (forall|a: u32, b: u32, c: u32| #[trigger] old(self).at(a, b, c) != Some(value))
                ==> final(self).leaf_level(x, y, z) == 0,
            (forall|a: u32, b: u32, c: u32| #[trigger] old(self).at(a, b, c) != Some(value))
                ==> final(self).leaf_count() == old(self).leaf_count() + 7 * old(self).leaf_level(x, y, z),
            old(self).leaf_level(x, y, z) == old(self).max_depth() && old(self).max_depth() >= 1 ==> forall|a: u32, b: u32, c: u32|
                #[trigger] final(self).leaf_level(a, b, c) < final(self).max_depth(),
            final(self).cells_mixed_around((x, y, z)) ==> {
                let lp = old(self).leaf_level(x, y, z);
                &&& final(self).leaf_count() == old(self).leaf_count() + 7 * lp
                &&& forall|a: u32, b: u32, c: u32| #[trigger] final(self).leaf_level(a, b, c)
                    == if same_path(old(self).max_depth(), (old(self).max_depth() - lp) as nat, (x, y, z), (a, b, c)) {
                        split_level(lp, (x, y, z), (a, b, c))
                    } else {
                        old(self).leaf_level(a, b, c)
                    }
            },
    {
        proof { use_type_invariant(&*self); }
        let mut root = OctreeNode::Leaf(None);
        std::mem::swap(&mut root, &mut self.root);
        let ghost before = root;
        proof {
            if let OctreeNode::Branch(b) = before {
                let ci = child_index_of(self.max_depth as nat, (x, y, z));
                if self.max_depth >= 1 {
                    assert(ci < 8);
                    b.children@[ci as int].lemma_leaf_level_bound((self.max_depth - 1) as nat, (x, y, z));
                }
            }
            if forall|a: u32, b: u32, c: u32| #[trigger] old(self).at(a, b, c) != Some(value) {
                assert forall|q: (u32, u32, u32)| #[trigger] before.lookup(self.max_depth as nat, q) != Some(value) by {
                    assert(old(self).at(q.0, q.1, q.2) == before.lookup(self.max_depth as nat, q));
                }
            }
        }
        root.insert(self.max_depth, x, y, z, value);
        self.root = root;
        proof {
            let d = self.max_depth as nat;
            if self.cells_mixed_around((x, y, z)) {
                assert forall|k: nat| 1 <= k <= d implies #[trigger] self.root.block_mixed(d, (x, y, z), k) by {
                    assert(self.cell_block_mixed((x, y, z), k));
                    let q = choose|q: (u32, u32, u32)| same_path(d, (d - k) as nat, (x, y, z), q) && #[trigger] self.at(q.0, q.1, q.2)
                        != self.at(x, y, z);
                    assert(self.at(q.0, q.1, q.2) == self.root.lookup(d, q));
                }
            }
        }
        proof {
            let d = self.max_depth as nat;
            let p = (x, y, z);
            self.root.lemma_leaf_level_bound(d, p);
            lemma_same_path_refl(d, d, p);
            assert forall|a: u32, b: u32, c: u32|
                same_path(d, (d - self.root.leaf_level(d, p)) as nat, p, (a, b, c)) implies #[trigger] self.at(a, b, c) == Some(value) by {
                self.root.lemma_leaf_shares(d, p, (a, b, c));
            }
        }
    }

    /// A cell whose leaf is the whole tree: the root is a leaf.
    proof fn lemma_deep_root_is_leaf(self, p: (u32, u32, u32))
        requires
            self.root.wf(self.max_depth as nat),
        ensures
            self.leaf_level(p.0, p.1, p.2) == self.max_depth() ==> self.root is Leaf,
    {
        if let OctreeNode::Branch(b) = self.root {
            let d = self.max_depth as nat;
            let ci = child_index_of(d, (p.0, p.1, p.2));
            assert(ci < 8);
            b.children@[ci as int].lemma_leaf_level_bound((d - 1) as nat, (p.0, p.1, p.2));
        }
    }

    /// The value stored at `(x, y, z)`.
    pub fn get(&self, x: u32, y: u32, z: u32) -> (r: Option<Rc<T>>)
        requires
            self.max_depth() <= 32 || self.leaf_level(x, y, z) == self.max_depth(),
        ensures
            r == self.at(x, y, z),
    {
        proof {
            use_type_invariant(self);
            self.lemma_deep_root_is_leaf((x, y, z));
        }
        self.root.get(self.max_depth, x, y, z)
    }

    /// Every filled cell of the tree's cube with its value, each cell once.
    pub fn get_voxels(&self) -> (r: Vec<VoxelEntry<T>>)
        requires
            self.max_depth() <= 32 || self.leaf_level(0, 0, 0) == self.max_depth() && self.at(0, 0, 0) is None,
            self.max_depth() == 32 ==> !(self.leaf_level(0, 0, 0) == 32 && self.at(0, 0, 0) is Some),
        ensures
            r@ == self.voxels(),
            forall|j: int| 0 <= j < r.len() ==> {
                let e = #[trigger] r@[j];
                &&& e.0 < pow2(self.max_depth()) && e.1 < pow2(self.max_depth()) && e.2 < pow2(self.max_depth())
                &&& self.at(e.0, e.1, e.2) == Some(e.3)
            },
            forall|x: u32, y: u32, z: u32|
                x < pow2(self.max_depth()) && y < pow2(self.max_depth()) && z < pow2(self.max_depth())
                    && #[trigger] self.at(x, y, z) is Some ==> exists|j: int|
                    0 <= j < r.len() && #[trigger] r@[j] == (x, y, z, self.at(x, y, z).unwrap()),
            distinct_cells(r@),
    {
        if self.max_depth > 32 {
            proof {
                use_type_invariant(self);
                self.lemma_deep_root_is_leaf((0, 0, 0));
                assert(self.root == OctreeNode::<T>::Leaf(None)) by {
                    assert(self.at(0, 0, 0) == self.root->Leaf_0);
                }
                assert(self.voxels() =~= Seq::<VoxelEntry<T>>::empty());
            }
            return Vec::new();
        }
        proof {
            use_type_invariant(self);
            vstd::arithmetic::power2::lemma2_to64();
            if self.max_depth < 32 {
                vstd::arithmetic::power2::lemma_pow2_strictly_increases(self.max_depth as nat, 32);
            }
            vstd::arithmetic::power2::lemma_pow2_pos(self.max_depth as nat);
            vstd::arithmetic::div_mod::lemma_small_mod(0, pow2(self.max_depth as nat));
            if self.max_depth == 32 {
                if self.root is Leaf {
                    assert(self.leaf_level(0, 0, 0) == 32);
                    assert(self.at(0, 0, 0) == self.root->Leaf_0);
                }
            }
            self.root.lemma_cells_held((0, 0, 0), self.max_depth as nat);
            self.root.lemma_cells_distinct((0, 0, 0), self.max_depth as nat);
        }
        let mut result = Vec::new();
        self.root.collect_voxels((0, 0, 0), self.max_depth, &mut result);
        assert(result@ =~= self.voxels());
        proof {
            assert forall|j: int| 0 <= j < result.len() implies {
                let e = #[trigger] result@[j];
                &&& e.0 < pow2(self.max_depth()) && e.1 < pow2(self.max_depth()) && e.2 < pow2(self.max_depth())
                &&& self.at(e.0, e.1, e.2) == Some(e.3)
            } by {
                assert(held_in(self.root, (0, 0, 0), self.max_depth as nat, self.voxels()[j]));
            }
            assert forall|x: u32, y: u32, z: u32|
                x < pow2(self.max_depth()) && y < pow2(self.max_depth()) && z < pow2(self.max_depth())
                    && #[trigger] self.at(x, y, z) is Some implies exists|j: int|
                    0 <= j < result.len() && #[trigger] result@[j] == (x, y, z, self.at(x, y, z).unwrap()) by {
                let j = self.root.lemma_cells_complete((0, 0, 0), self.max_depth as nat, (x, y, z));
                assert(result@[j] == (x, y, z, self.at(x, y, z).unwrap()));
            }
        }
        result
    }

    /// Empties the leaf that holds `(x, y, z)` and hands back its value.
    pub fn remove(&mut self, x: u32, y: u32, z: u32) -> (r: Option<Rc<T>>)
        requires
            old(self).max_depth() <= 32,
        ensures
            final(self).empty_parts_merged(),
            r == old(self).at(x, y, z),
            old(self).leaf_level(x, y, z) <= old(self).max_depth(),
            final(self).max_depth() == old(self).max_depth(),
            forall|a: u32, b: u32, c: u32| #[trigger] final(self).at(a, b, c)
                == if same_path(old(self).max_depth(), (old(self).max_depth() - old(self).leaf_level(x, y, z)) as nat, (x, y, z), (a, b, c)) {
                    None
                } else {
                    old(self).at(a, b, c)
                },
    {
        proof { use_type_invariant(&*self); }
        let mut root = OctreeNode::Leaf(None);
        std::mem::swap(&mut root, &mut self.root);
        let r = root.remove(self.max_depth, x, y, z);
        self.root = root;
        r
    }

    /// Number of leaves of the tree.
    pub fn count_leaves(&self) -> (r: usize)
        requires
            self.leaf_count() <= usize::MAX,
        ensures
            r == self.leaf_count(),
            r % 7 == 1,
            1 <= r <= vstd::arithmetic::power::pow(8, self.max_depth()),
            self.max_depth() <= 32 && (forall|a: u32, b: u32, c: u32| #[trigger] self.at(a, b, c) == None::<Rc<T>>) ==> r == 1,
    {
        proof {
            use_type_invariant(self);
            self.root.lemma_leaves_shape(self.max_depth as nat);
            if self.max_depth() <= 32 && (forall|a: u32, b: u32, c: u32| #[trigger] self.at(a, b, c) == None::<Rc<T>>) {
                assert forall|q: (u32, u32, u32)| #[trigger] self.root.lookup(self.max_depth as nat, q) == None::<Rc<T>> by {
                    assert(self.at(q.0, q.1, q.2) == None::<Rc<T>>);
                }
                self.root.lemma_empty_tidy_is_leaf(self.max_depth as nat);
            }
        }
        self.root.count_leaves()
    }

    /// Edge of the tree in cells.
    pub fn get_size(&self) -> (r: u8)
        requires
            self.max_depth() < 8,
        ensures
            r == pow2(self.max_depth()),
    {
        proof {
            vstd::bits::lemma_u8_pow2_no_overflow(self.max_depth as nat);
            vstd::bits::lemma_u8_shl_is_mul(1, self.max_depth);
        }
        1u8 << self.max_depth
    }

    /// The least depth whose edge holds `n` cells.
    pub fn get_max_depth_for(n: u32) -> (r: u8)
        requires
            n >= 1,
        ensures
            r <= 32,
            n <= pow2(r as nat),
            r == 0 || pow2((r - 1) as nat) < n,
    {
        let m = n - 1;
        let lz = m.leading_zeros();
        proof {
            vstd::std_specs::bits::axiom_u32_leading_zeros(m);
            vstd::arithmetic::power2::lemma2_to64();
            let r = (32 - lz) as u32;
            assert(m >> r == 0);
            if r < 32 {
                vstd::bits::lemma_u32_shr_is_div(m, r);
                vstd::arithmetic::power2::lemma_pow2_pos(r as nat);
                vstd::arithmetic::div_mod::lemma_fundamental_div_mod(m as int, pow2(r as nat) as int);
                assert(m < pow2(r as nat)) by (nonlinear_arith)
                    requires
                        m as nat / pow2(r as nat) == 0,
                        pow2(r as nat) > 0,
                        m == pow2(r as nat) * (m as nat / pow2(r as nat)) + (m as nat % pow2(r as nat)),
                        m as nat % pow2(r as nat) < pow2(r as nat);
            }
            if r >= 1 {
                let w = m >> ((r - 1) as u32);
                assert(w & 1u32 != 0u32);
                assert(w & 1u32 != 0u32 ==> w >= 1) by (bit_vector);
                vstd::bits::lemma_u32_shr_is_div(m, (r - 1) as u32);
                assert(m as nat / pow2((r - 1) as nat) >= 1);
                vstd::arithmetic::power2::lemma_pow2_pos((r - 1) as nat);
                vstd::arithmetic::div_mod::lemma_fundamental_div_mod(m as int, pow2((r - 1) as nat) as int);
                assert(m >= pow2((r - 1) as nat)) by (nonlinear_arith)
                    requires
                        m as nat / pow2((r - 1) as nat) >= 1,
                        pow2((r - 1) as nat) > 0,
                        m == pow2((r - 1) as nat) * (m as nat / pow2((r - 1) as nat)) + (m as nat % pow2((r - 1) as nat)),
                        m as nat % pow2((r - 1) as nat) >= 0;
            }
        }
        (32 - lz) as u8
    }

    /// Stores `voxel` at `(x, y, z)` or, for `None`, empties the leaf there.
    pub fn set_voxel(&mut self, x: u32, y: u32, z: u32, voxel: Option<Rc<T>>)
        requires
            old(self).max_depth() <= 32,
        ensures
            final(self).empty_parts_merged(),
            final(self).max_depth() == old(self).max_depth(),
            voxel matches Some(v) ==> forall|a: u32, b: u32, c: u32| #[trigger] final(self).at(a, b, c)
                == if same_cell(old(self).max_depth(), (x, y, z), (a, b, c)) { Some(v) } else { old(self).at(a, b, c) },
            voxel matches Some(v) ==> final(self).leaf_level(x, y, z) <= final(self).max_depth() && forall|a: u32, b: u32, c: u32|
                same_path(
                    final(self).max_depth(),
                    (final(self).max_depth() - final(self).leaf_level(x, y, z)) as nat,
                    (x, y, z),
                    (a, b, c),
                ) ==> #[trigger] final(self).at(a, b, c) == Some(v),
            voxel is None ==> forall|a: u32, b: u32, c: u32| #[trigger] final(self).at(a, b, c)
                == if same_path(old(self).max_depth(), (old(self).max_depth() - old(self).leaf_level(x, y, z)) as nat, (x, y, z), (a, b, c)) {
                    None
                } else {
                    old(self).at(a, b, c)
                },
    {
        if let Some(voxel) = voxel {
            self.insert(x, y, z, voxel);
        } else {
            self.remove(x, y, z);
        }
    }

    /// Sets `voxel` on every cell whose fill position lies in the box from
    /// `from` to `to`.
    pub fn fill_voxels(&mut self, from: (u32, u32, u32), to: (u32, u32, u32), voxel: Option<Rc<T>>)
        requires
            old(self).max_depth() < 32,
        ensures
            final(self).empty_parts_merged(),
            final(self).max_depth() == old(self).max_depth(),
            forall|a: u32, b: u32, c: u32| #[trigger] final(self).at(a, b, c)
                == if in_box(fill_position((0, 0, 0), old(self).max_depth(), (a, b, c)), from, to) {
                    voxel
                } else {
                    old(self).at(a, b, c)
                },
    {
        proof {
            use_type_invariant(&*self);
            vstd::bits::lemma_u32_pow2_no_overflow(self.max_depth as nat);
            vstd::bits::lemma_u32_shl_is_mul(1, self.max_depth as u32);
            vstd::arithmetic::power2::lemma_pow2_strictly_increases(self.max_depth as nat, 32);
            vstd::arithmetic::power2::lemma2_to64();
        }
        let size = 1u32 << self.max_depth;
        let mut root = OctreeNode::Leaf(None);
        std::mem::swap(&mut root, &mut self.root);
        root.fill_at(self.max_depth, (0, 0, 0), size, from, to, voxel);
        self.root = root;
    }
}

} // verus!
