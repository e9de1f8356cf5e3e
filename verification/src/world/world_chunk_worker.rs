use vstd::prelude::*;

verus! {

/// Position of a chunk in the chunk grid.
pub type GridPosition = (i64, i64, i64);

/// Identifier of a chunk loader.
pub type ChunkLoaderId = u16;

/// Identifier of a group of chunk tasks.
#[derive(Hash, PartialEq, Eq, Structural, Clone)]
pub struct GroupId(pub u64);

/// Hands out group identifiers one after the other, from 1 on.
pub struct GroupIdSource {
    next: u64,
}

impl GroupIdSource {
    /// The identifier the source hands out next.
    pub closed spec fn upcoming(self) -> u64 {
        self.next
    }

    pub fn new() -> (r: Self)
        ensures
            r.upcoming() == 1,
    {
        Self { next: 1 }
    }
}

impl GroupId {
    /// The next identifier of `source`; the source moves on by one, wrapping
    /// around at `u64::MAX`.
    pub fn new(source: &mut GroupIdSource) -> (r: Self)
        ensures
            r.0 == old(source).upcoming(),
            final(source).upcoming() == vstd::wrapping::u64_specs::wrapping_add(old(source).upcoming(), 1),
    {
        let id = source.next;
        source.next = source.next.wrapping_add(1);
        GroupId(id)
    }
}

/// A task for the chunk workers.
pub enum ChunkCmd {
    EnsureChunks(GroupId, GridPosition, u32, u32),
    GenerateChunks(GroupId, GridPosition, u32, u32),
    MultithreadedRemeshChunks(GridPosition, u32, u32),
    RemeshChunks(GridPosition, u8),
    UpdateChunkLoaderChunks(ChunkLoaderId, u8, GridPosition, GridPosition),
}

/// Which grid axis the first coordinate of a strip runs along.
#[derive(Clone, Copy)]
pub enum AxisOrder {
    X,
    Y,
    Z,
}

/// The grid position of the strip coordinates `(a, b, c)`: along x it is
/// `(a, b, c)`, along y `(b, a, c)`, along z `(b, c, a)`.
pub open spec fn arrange(order: AxisOrder, a: int, b: int, c: int) -> GridPosition {
    match order {
        AxisOrder::X => (a as i64, b as i64, c as i64),
        AxisOrder::Y => (b as i64, a as i64, c as i64),
        AxisOrder::Z => (b as i64, c as i64, a as i64),
    }
}

fn arrange_exec(order: AxisOrder, a: i64, b: i64, c: i64) -> (r: GridPosition)
    ensures
        r == arrange(order, a as int, b as int, c as int),
{
    match order {
        AxisOrder::X => (a, b, c),
        AxisOrder::Y => (b, a, c),
        AxisOrder::Z => (b, c, a),
    }
}

/// The positions `(a, b, c)` for `c` from `c0` to `c1` (both included).
pub open spec fn c_line(order: AxisOrder, a: int, b: int, c0: int, c1: int) -> Seq<GridPosition> {
    Seq::new(if c1 >= c0 { (c1 - c0 + 1) as nat } else { 0 }, |k: int| arrange(order, a, b, c0 + k))
}

/// The lines for `b` from `b0` up to, not including, `bn`.
pub open spec fn b_lines(order: AxisOrder, a: int, b0: int, bn: int, c0: int, c1: int) -> Seq<GridPosition>
    decreases bn - b0,
{
    if bn <= b0 {
        Seq::empty()
    } else {
        b_lines(order, a, b0, bn - 1, c0, c1) + c_line(order, a, bn - 1, c0, c1)
    }
}

/// The planes for `a` from `a0` up to, not including, `an`, each with `b`
/// from `b0` to `b1` and `c` from `c0` to `c1` (both included).
pub open spec fn a_planes(order: AxisOrder, a0: int, an: int, b0: int, b1: int, c0: int, c1: int) -> Seq<GridPosition>
    decreases an - a0,
{
    if an <= a0 {
        Seq::empty()
    } else {
        a_planes(order, a0, an - 1, b0, b1, c0, c1) + b_lines(order, an - 1, b0, b1 + 1, c0, c1)
    }
}

/// The first strip range: `from + shift + 1 .. from + 1` backwards, else
/// `from .. from + shift`.
pub open spec fn strip_start(from: int, shift: int) -> int {
    if shift < 0 { from + shift + 1 } else { from }
}

/// End (excluded) of the strip range.
pub open spec fn strip_end(from: int, shift: int) -> int {
    if shift < 0 { from + 1 } else { from + shift }
}

/// No value that `axis_processor` computes leaves `i64`.
pub open spec fn axis_fits(from_sim: int, from_rend: int, shift: int, second_dim: int, third_dim: int, render_distance: int) -> bool {
    &&& 0 <= render_distance
    &&& (shift < 0 ==> i64::MIN <= from_sim + shift) && strip_end(from_sim, shift) <= i64::MAX
    &&& (shift < 0 ==> i64::MIN <= from_rend + shift) && strip_end(from_rend, shift) <= i64::MAX
    &&& i64::MIN <= second_dim - render_distance - 1 && second_dim + render_distance + 1 <= i64::MAX
    &&& i64::MIN <= third_dim - render_distance - 1 && third_dim + render_distance + 1 <= i64::MAX
}

/// Appends to `out` the positions of planes `a0 .. an`, lines `b0 ..= b1`,
/// cells `c0 ..= c1`, a-major.
fn push_box(out: &mut Vec<GridPosition>, order: AxisOrder, a0: i64, an: i64, b0: i64, b1: i64, c0: i64, c1: i64)
    ensures
        final(out)@ == old(out)@ + a_planes(order, a0 as int, an as int, b0 as int, b1 as int, c0 as int, c1 as int),
{
    let ghost start = out@;
    let mut a: i128 = a0 as i128;
    if an as i128 <= a {
        assert(out@ =~= start + a_planes(order, a0 as int, an as int, b0 as int, b1 as int, c0 as int, c1 as int));
        return;
    }
    while a < an as i128
        invariant
            a0 <= a <= an,
            out@ == start + a_planes(order, a0 as int, a as int, b0 as int, b1 as int, c0 as int, c1 as int),
        decreases an - a,
    {
        let ghost plane_start = out@;
        let mut b: i128 = b0 as i128;
        while b <= b1 as i128
            invariant
                a0 <= a < an,
                b0 <= b <= b1 + 1 || (b == b0 && b0 > b1),
                out@ == plane_start + b_lines(order, a as int, b0 as int, b as int, c0 as int, c1 as int),
            decreases b1 + 1 - b,
        {
            let ghost line_start = out@;
            let mut c: i128 = c0 as i128;
            while c <= c1 as i128
                invariant
                    a0 <= a < an,
                    b0 <= b <= b1,
                    c0 <= c && (c <= c1 + 1 || c == c0),
                    out@ == line_start + c_line(order, a as int, b as int, c0 as int, c - 1),
                decreases c1 + 1 - c,
            {
                let ghost before = out@;
                out.push(arrange_exec(order, a as i64, b as i64, c as i64));
                assert(c_line(order, a as int, b as int, c0 as int, c as int)
                    =~= c_line(order, a as int, b as int, c0 as int, c - 1).push(arrange(order, a as int, b as int, c as int)));
                c = c + 1;
            }
            assert(c_line(order, a as int, b as int, c0 as int, c - 1) =~= c_line(order, a as int, b as int, c0 as int, c1 as int));
            b = b + 1;
        }
        assert(b_lines(order, a as int, b0 as int, b as int, c0 as int, c1 as int)
            =~= b_lines(order, a as int, b0 as int, b1 + 1, c0 as int, c1 as int));
        a = a + 1;
    }
}

/// Appends to `update_coords.0` the simulated positions and to
/// `update_coords.1` the rendered positions that a chunk loader moving by
/// `shift` along one axis takes in.
pub fn axis_processor(
    update_coords: &mut (Vec<GridPosition>, Vec<GridPosition>),
    from_sim: i64,
    from_rend: i64,
    shift: i64,
    second_dim: i64,
    third_dim: i64,
    render_distance: i64,
    order: AxisOrder,
)
    requires
        axis_fits(from_sim as int, from_rend as int, shift as int, second_dim as int, third_dim as int, render_distance as int),
    ensures
        final(update_coords).0@ == old(update_coords).0@ + a_planes(order,
            strip_start(from_sim as int, shift as int), strip_end(from_sim as int, shift as int),
            second_dim - render_distance - 1, second_dim + render_distance + 1,
            third_dim - render_distance - 1, third_dim + render_distance + 1),
        final(update_coords).1@ == old(update_coords).1@ + a_planes(order,
            strip_start(from_rend as int, shift as int), strip_end(from_rend as int, shift as int),
            second_dim - render_distance, second_dim + render_distance,
            third_dim - render_distance, third_dim + render_distance),
{
    let (sim_from, sim_to, rend_from, rend_to) = if shift < 0 {
        (from_sim + shift + 1, from_sim + 1, from_rend + shift + 1, from_rend + 1)
    } else {
        (from_sim, from_sim + shift, from_rend, from_rend + shift)
    };

    // Logic
    push_box(&mut update_coords.0, order, sim_from, sim_to,
        second_dim - render_distance - 1, second_dim + render_distance + 1,
        third_dim - render_distance - 1, third_dim + render_distance + 1);

    // Render
    push_box(&mut update_coords.1, order, rend_from, rend_to,
        second_dim - render_distance, second_dim + render_distance,
        third_dim - render_distance, third_dim + render_distance);
}

/// -1, 0 or 1 as `v` is negative, zero or positive.
fn signum_i64(v: i64) -> (r: i64)
    ensures
        r == if v < 0 { -1int } else if v > 0 { 1int } else { 0int },
{
    if v < 0 {
        -1
    } else if v > 0 {
        1
    } else {
        0
    }
}

/// The sign of `v`: -1, 0 or 1.
pub open spec fn sign(v: int) -> int {
    if v < 0 { -1 } else if v > 0 { 1 } else { 0 }
}

/// Start of the simulated strip of an axis along which the loader moved by `shift`.
pub open spec fn sim_from(position: int, shift: int, render_distance: int) -> int {
    position - sign(shift) * (render_distance + 1)
}

/// Start of the rendered strip of an axis along which the loader moved by `shift`.
pub open spec fn rend_from(position: int, shift: int, render_distance: int) -> int {
    position - sign(shift) * render_distance
}

/// No value that `update_chunk_loader_chunks` computes leaves `i64`.
pub open spec fn loader_update_fits(render_distance: int, position: GridPosition, shift: GridPosition) -> bool {
    &&& i64::MIN + 256 <= position.0 <= i64::MAX - 256
    &&& i64::MIN + 256 <= position.1 <= i64::MAX - 256
    &&& i64::MIN + 256 <= position.2 <= i64::MAX - 256
    &&& axis_fits(sim_from(position.0 as int, shift.0 as int, render_distance), rend_from(position.0 as int, shift.0 as int, render_distance),
        shift.0 as int, position.1 as int, position.2 as int, render_distance)
    &&& axis_fits(sim_from(position.1 as int, shift.1 as int, render_distance), rend_from(position.1 as int, shift.1 as int, render_distance),
        shift.1 as int, position.0 as int, position.2 as int, render_distance)
    &&& axis_fits(sim_from(position.2 as int, shift.2 as int, render_distance), rend_from(position.2 as int, shift.2 as int, render_distance),
        shift.2 as int, position.0 as int, position.1 as int, render_distance)
}

/// The positions of one axis strip: simulated ones first, rendered ones second.
pub open spec fn axis_strips(order: AxisOrder, position: int, shift: int, second_dim: int, third_dim: int, rd: int)
    -> (Seq<GridPosition>, Seq<GridPosition>)
{
    let fs = sim_from(position, shift, rd);
    let fr = rend_from(position, shift, rd);
    (
        a_planes(order, strip_start(fs, shift), strip_end(fs, shift), second_dim - rd - 1, second_dim + rd + 1,
            third_dim - rd - 1, third_dim + rd + 1),
        a_planes(order, strip_start(fr, shift), strip_end(fr, shift), second_dim - rd, second_dim + rd,
            third_dim - rd, third_dim + rd),
    )
}

/// The chunk positions that a loader at `position`, having moved by `shift`,
/// must simulate (first) and render (second): for each axis the strips of
/// planes that the move brought within `render_distance` (plus one for the
/// simulated ones), x first, then y, then z.
pub fn update_chunk_loader_chunks(render_distance: u8, position: GridPosition, shift: GridPosition)
    -> (r: (Vec<GridPosition>, Vec<GridPosition>))
    requires
        loader_update_fits(render_distance as int, position, shift),
    ensures
        ({
            let rd = render_distance as int;
            let x = axis_strips(AxisOrder::X, position.0 as int, shift.0 as int, position.1 as int, position.2 as int, rd);
            let y = axis_strips(AxisOrder::Y, position.1 as int, shift.1 as int, position.0 as int, position.2 as int, rd);
            let z = axis_strips(AxisOrder::Z, position.2 as int, shift.2 as int, position.0 as int, position.1 as int, rd);
            &&& r.0@ == x.0 + y.0 + z.0
            &&& r.1@ == x.1 + y.1 + z.1
        }),
{
    let render_distance = render_distance as i64;

    let sx = signum_i64(shift.0);
    let sy = signum_i64(shift.1);
    let sz = signum_i64(shift.2);

    let render_distance_addition_surrounding_x = sx * (render_distance + 1);
    let render_distance_addition_surrounding_y = sy * (render_distance + 1);
    let render_distance_addition_surrounding_z = sz * (render_distance + 1);

    let render_distance_addition_rendering_x = sx * render_distance;
    let render_distance_addition_rendering_y = sy * render_distance;
    let render_distance_addition_rendering_z = sz * render_distance;

    let from_s_x = position.0 - render_distance_addition_surrounding_x;
    let from_s_y = position.1 - render_distance_addition_surrounding_y;
    let from_s_z = position.2 - render_distance_addition_surrounding_z;

    let from_r_x = position.0 - render_distance_addition_rendering_x;
    let from_r_y = position.1 - render_distance_addition_rendering_y;
    let from_r_z = position.2 - render_distance_addition_rendering_z;

    let mut update_coords: (Vec<GridPosition>, Vec<GridPosition>) = (Vec::new(), Vec::new());

    axis_processor(&mut update_coords, from_s_x, from_r_x, shift.0, position.1, position.2, render_distance, AxisOrder::X);
    axis_processor(&mut update_coords, from_s_y, from_r_y, shift.1, position.0, position.2, render_distance, AxisOrder::Y);
    axis_processor(&mut update_coords, from_s_z, from_r_z, shift.2, position.0, position.1, render_distance, AxisOrder::Z);

    assert(update_coords.0@ =~= Seq::<GridPosition>::empty() + axis_strips(AxisOrder::X, position.0 as int, shift.0 as int, position.1 as int, position.2 as int, render_distance as int).0
        + axis_strips(AxisOrder::Y, position.1 as int, shift.1 as int, position.0 as int, position.2 as int, render_distance as int).0
        + axis_strips(AxisOrder::Z, position.2 as int, shift.2 as int, position.0 as int, position.1 as int, render_distance as int).0);
    assert(update_coords.1@ =~= Seq::<GridPosition>::empty() + axis_strips(AxisOrder::X, position.0 as int, shift.0 as int, position.1 as int, position.2 as int, render_distance as int).1
        + axis_strips(AxisOrder::Y, position.1 as int, shift.1 as int, position.0 as int, position.2 as int, render_distance as int).1
        + axis_strips(AxisOrder::Z, position.2 as int, shift.2 as int, position.0 as int, position.1 as int, render_distance as int).1);
    update_coords
}

/// A concatenation holds what either part holds.
proof fn lemma_concat_contains(u: Seq<GridPosition>, w: Seq<GridPosition>, p: GridPosition)
    ensures
        (u + w).contains(p) <==> u.contains(p) || w.contains(p),
{
    let v = u + w;
    if v.contains(p) {
        let i = choose|i: int| 0 <= i < v.len() && v[i] == p;
        if i < u.len() {
            assert(u[i] == v[i]);
        } else {
            assert(w[i - u.len()] == v[i]);
        }
    }
    if u.contains(p) {
        let i = choose|i: int| 0 <= i < u.len() && u[i] == p;
        assert(v[i] == u[i]);
    }
    if w.contains(p) {
        let i = choose|i: int| 0 <= i < w.len() && w[i] == p;
        assert(v[u.len() + i] == w[i]);
    }
}

/// A line holds the positions of its `c` range.
proof fn lemma_c_line_members(order: AxisOrder, a: int, b: int, c0: int, c1: int, p: GridPosition)
    ensures
        c_line(order, a, b, c0, c1).contains(p) <==> exists|c: int| c0 <= c <= c1 && p == #[trigger] arrange(order, a, b, c),
{
    let l = c_line(order, a, b, c0, c1);
    if l.contains(p) {
        let k = choose|k: int| 0 <= k < l.len() && l[k] == p;
        assert(p == arrange(order, a, b, c0 + k));
    }
    if exists|c: int| c0 <= c <= c1 && p == #[trigger] arrange(order, a, b, c) {
        let c = choose|c: int| c0 <= c <= c1 && p == #[trigger] arrange(order, a, b, c);
        assert(l[c - c0] == p);
    }
}

/// The lines hold the positions of their `b` and `c` ranges.
proof fn lemma_b_lines_members(order: AxisOrder, a: int, b0: int, bn: int, c0: int, c1: int, p: GridPosition)
    ensures
        b_lines(order, a, b0, bn, c0, c1).contains(p) <==> exists|b: int, c: int|
            b0 <= b < bn && c0 <= c <= c1 && p == #[trigger] arrange(order, a, b, c),
    decreases bn - b0,
{
    if bn > b0 {
        lemma_b_lines_members(order, a, b0, bn - 1, c0, c1, p);
        lemma_c_line_members(order, a, bn - 1, c0, c1, p);
        lemma_concat_contains(b_lines(order, a, b0, bn - 1, c0, c1), c_line(order, a, bn - 1, c0, c1), p);
        if exists|b: int, c: int| b0 <= b < bn && c0 <= c <= c1 && p == #[trigger] arrange(order, a, b, c) {
            let (b, c) = choose|b: int, c: int| b0 <= b < bn && c0 <= c <= c1 && p == #[trigger] arrange(order, a, b, c);
            if b < bn - 1 {
                assert(b_lines(order, a, b0, bn - 1, c0, c1).contains(p));
            } else {
                assert(c_line(order, a, bn - 1, c0, c1).contains(p));
            }
        }
    }
}

/// The planes hold the positions of their `a`, `b` and `c` ranges.
proof fn lemma_a_planes_members(order: AxisOrder, a0: int, an: int, b0: int, b1: int, c0: int, c1: int, p: GridPosition)
    ensures
        a_planes(order, a0, an, b0, b1, c0, c1).contains(p) <==> exists|a: int, b: int, c: int|
            a0 <= a < an && b0 <= b <= b1 && c0 <= c <= c1 && p == #[trigger] arrange(order, a, b, c),
    decreases an - a0,
{
    if an > a0 {
        lemma_a_planes_members(order, a0, an - 1, b0, b1, c0, c1, p);
        lemma_b_lines_members(order, an - 1, b0, b1 + 1, c0, c1, p);
        lemma_concat_contains(a_planes(order, a0, an - 1, b0, b1, c0, c1), b_lines(order, an - 1, b0, b1 + 1, c0, c1), p);
        if a_planes(order, a0, an, b0, b1, c0, c1).contains(p) {
            if b_lines(order, an - 1, b0, b1 + 1, c0, c1).contains(p) {
                let (b, c) = choose|b: int, c: int| b0 <= b < b1 + 1 && c0 <= c <= c1 && p == #[trigger] arrange(order, an - 1, b, c);
                assert(p == arrange(order, an - 1, b, c));
            }
        }
        if exists|a: int, b: int, c: int| a0 <= a < an && b0 <= b <= b1 && c0 <= c <= c1 && p == #[trigger] arrange(order, a, b, c) {
            let (a, b, c) = choose|a: int, b: int, c: int|
                a0 <= a < an && b0 <= b <= b1 && c0 <= c <= c1 && p == #[trigger] arrange(order, a, b, c);
            if a < an - 1 {
                assert(a_planes(order, a0, an - 1, b0, b1, c0, c1).contains(p));
            } else {
                assert(b_lines(order, an - 1, b0, b1 + 1, c0, c1).contains(p));
            }
        }
    }
}

/// Law: a box of a strip along x holds `p` exactly when `p.0` lies in its
/// first range, `p.1` in its second and `p.2` in its third; along y the first
/// range is that of `p.1` and the second that of `p.0`; along z the first is
/// that of `p.2`, the second that of `p.0` and the third that of `p.1`.
pub proof fn law_box_positions(order: AxisOrder, a0: int, an: int, b0: int, b1: int, c0: int, c1: int, p: GridPosition)
    requires
        i64::MIN <= a0 && an <= i64::MAX + 1,
        i64::MIN <= b0 && b1 <= i64::MAX,
        i64::MIN <= c0 && c1 <= i64::MAX,
    ensures
        a_planes(order, a0, an, b0, b1, c0, c1).contains(p) <==> match order {
            AxisOrder::X => a0 <= p.0 < an && b0 <= p.1 <= b1 && c0 <= p.2 <= c1,
            AxisOrder::Y => a0 <= p.1 < an && b0 <= p.0 <= b1 && c0 <= p.2 <= c1,
            AxisOrder::Z => a0 <= p.2 < an && b0 <= p.0 <= b1 && c0 <= p.1 <= c1,
        },
{
    lemma_a_planes_members(order, a0, an, b0, b1, c0, c1, p);
    match order {
        AxisOrder::X => {
            if a0 <= p.0 < an && b0 <= p.1 <= b1 && c0 <= p.2 <= c1 {
                assert(p == arrange(order, p.0 as int, p.1 as int, p.2 as int));
            }
        },
        AxisOrder::Y => {
            if a0 <= p.1 < an && b0 <= p.0 <= b1 && c0 <= p.2 <= c1 {
                assert(p == arrange(order, p.1 as int, p.0 as int, p.2 as int));
            }
        },
        AxisOrder::Z => {
            if a0 <= p.2 < an && b0 <= p.0 <= b1 && c0 <= p.1 <= c1 {
                assert(p == arrange(order, p.2 as int, p.0 as int, p.1 as int));
            }
        },
    }
}

/// Strip starts stay within 256 of the loader's coordinate.
proof fn lemma_from_near(position: int, shift: int, rd: int)
    requires
        0 <= rd <= 255,
    ensures
        position - 256 <= sim_from(position, shift, rd) <= position + 256,
        position - 256 <= rend_from(position, shift, rd) <= position + 256,
{
    if shift < 0 {
        assert(sign(shift) * (rd + 1) == -(rd + 1) && sign(shift) * rd == -rd);
    } else if shift > 0 {
        assert(sign(shift) * (rd + 1) == rd + 1 && sign(shift) * rd == rd);
    } else {
        assert(sign(shift) * (rd + 1) == 0 && sign(shift) * rd == 0);
    }
}

/// Law: after a move by `shift`, the loader at `position` simulates `p` for
/// the strip of an axis exactly when `p`'s coordinate along that axis lies in
/// the strip's range and each of its two other coordinates lies within
/// `render_distance + 1` of the loader's; it renders `p` for that strip when
/// the coordinate lies in the rendered range and the two others within
/// `render_distance`. The strips of x, y and z are those that the first,
/// second and third part of the update lists.
pub proof fn law_loader_strip_positions(render_distance: u8, position: GridPosition, shift: GridPosition, p: GridPosition)
    requires
        loader_update_fits(render_distance as int, position, shift),
    ensures
        ({
            let rd = render_distance as int;
            let x = axis_strips(AxisOrder::X, position.0 as int, shift.0 as int, position.1 as int, position.2 as int, rd);
            let y = axis_strips(AxisOrder::Y, position.1 as int, shift.1 as int, position.0 as int, position.2 as int, rd);
            let z = axis_strips(AxisOrder::Z, position.2 as int, shift.2 as int, position.0 as int, position.1 as int, rd);
            let sx = sim_from(position.0 as int, shift.0 as int, rd);
            let sy = sim_from(position.1 as int, shift.1 as int, rd);
            let sz = sim_from(position.2 as int, shift.2 as int, rd);
            let rx = rend_from(position.0 as int, shift.0 as int, rd);
            let ry = rend_from(position.1 as int, shift.1 as int, rd);
            let rz = rend_from(position.2 as int, shift.2 as int, rd);
            &&& x.0.contains(p) <==> strip_start(sx, shift.0 as int) <= p.0 < strip_end(sx, shift.0 as int)
                && position.1 - rd - 1 <= p.1 <= position.1 + rd + 1 && position.2 - rd - 1 <= p.2 <= position.2 + rd + 1
            &&& x.1.contains(p) <==> strip_start(rx, shift.0 as int) <= p.0 < strip_end(rx, shift.0 as int)
                && position.1 - rd <= p.1 <= position.1 + rd && position.2 - rd <= p.2 <= position.2 + rd
            &&& y.0.contains(p) <==> strip_start(sy, shift.1 as int) <= p.1 < strip_end(sy, shift.1 as int)
                && position.0 - rd - 1 <= p.0 <= position.0 + rd + 1 && position.2 - rd - 1 <= p.2 <= position.2 + rd + 1
            &&& y.1.contains(p) <==> strip_start(ry, shift.1 as int) <= p.1 < strip_end(ry, shift.1 as int)
                && position.0 - rd <= p.0 <= position.0 + rd && position.2 - rd <= p.2 <= position.2 + rd
            &&& z.0.contains(p) <==> strip_start(sz, shift.2 as int) <= p.2 < strip_end(sz, shift.2 as int)
                && position.0 - rd - 1 <= p.0 <= position.0 + rd + 1 && position.1 - rd - 1 <= p.1 <= position.1 + rd + 1
            &&& z.1.contains(p) <==> strip_start(rz, shift.2 as int) <= p.2 < strip_end(rz, shift.2 as int)
                && position.0 - rd <= p.0 <= position.0 + rd && position.1 - rd <= p.1 <= position.1 + rd
        }),
{
    let rd = render_distance as int;
    let sx = sim_from(position.0 as int, shift.0 as int, rd);
    let sy = sim_from(position.1 as int, shift.1 as int, rd);
    let sz = sim_from(position.2 as int, shift.2 as int, rd);
    let rx = rend_from(position.0 as int, shift.0 as int, rd);
    let ry = rend_from(position.1 as int, shift.1 as int, rd);
    let rz = rend_from(position.2 as int, shift.2 as int, rd);
    lemma_from_near(position.0 as int, shift.0 as int, rd);
    lemma_from_near(position.1 as int, shift.1 as int, rd);
    lemma_from_near(position.2 as int, shift.2 as int, rd);
    law_box_positions(AxisOrder::X, strip_start(sx, shift.0 as int), strip_end(sx, shift.0 as int),
        position.1 - rd - 1, position.1 + rd + 1, position.2 - rd - 1, position.2 + rd + 1, p);
    law_box_positions(AxisOrder::X, strip_start(rx, shift.0 as int), strip_end(rx, shift.0 as int),
        position.1 - rd, position.1 + rd, position.2 - rd, position.2 + rd, p);
    law_box_positions(AxisOrder::Y, strip_start(sy, shift.1 as int), strip_end(sy, shift.1 as int),
        position.0 - rd - 1, position.0 + rd + 1, position.2 - rd - 1, position.2 + rd + 1, p);
    law_box_positions(AxisOrder::Y, strip_start(ry, shift.1 as int), strip_end(ry, shift.1 as int),
        position.0 - rd, position.0 + rd, position.2 - rd, position.2 + rd, p);
    law_box_positions(AxisOrder::Z, strip_start(sz, shift.2 as int), strip_end(sz, shift.2 as int),
        position.0 - rd - 1, position.0 + rd + 1, position.1 - rd - 1, position.1 + rd + 1, p);
    law_box_positions(AxisOrder::Z, strip_start(rz, shift.2 as int), strip_end(rz, shift.2 as int),
        position.0 - rd, position.0 + rd, position.1 - rd, position.1 + rd, p);
}

} // verus!
