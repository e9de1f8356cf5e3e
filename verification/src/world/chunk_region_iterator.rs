use std::ops::Range;
use vstd::prelude::*;

verus! {

/// `k` cubed.
pub open spec fn cube(k: int) -> int {
    k * k * k
}

/// The shell of index `s`, searching upwards from shell `l`.
pub open spec fn shell_from(s: int, l: int) -> int
    decreases s - l,
{
    if l >= s || s < cube(2 * l + 1) {
        l
    } else {
        shell_from(s, l + 1)
    }
}

/// The shell (cube layer) that holds index `s`: shell 0 holds index 0, and
/// shell `l >= 1` the indices from `(2l - 1)^3` up to, not including,
/// `(2l + 1)^3`.
pub open spec fn shell_of(s: int) -> int {
    if s <= 0 { 0 } else { shell_from(s, 1) }
}

/// The cells of shell `l`: those whose largest coordinate magnitude is `l`.
pub open spec fn layer_cells(l: int) -> int {
    if l == 0 { 1 } else { 24 * l * l + 2 }
}

/// Position, within its shell, of index `n`.
pub open spec fn offset_in_shell(n: int) -> int {
    n - cube(2 * shell_of(n) - 1)
}

/// The cell at position `t` of shell `l >= 1`. The shell lists its faces in
/// turn: the top (y = l, rows of x from -l, cells of z from -l), then x = l
/// (rows of y from l downwards), the bottom (rows of x from l downwards),
/// x = -l (rows of y from -l up), then z = -l and z = l (rows of y from
/// l - 1 downwards, cells of x from -l + 1), each face leaving out the cells
/// that an earlier face listed.
#[verifier::opaque]
pub open spec fn cell_at(l: int, t: int) -> (int, int, int) {
    let e = 2 * l + 1;
    let ss = e * (e - 1);
    let sss = (e - 2) * (e - 2);
    if t < ss {
        (-l + t / e, l, -l + t % e)
    } else if t < 2 * ss {
        (l, l - (t - ss) / e, -l + (t - ss) % e)
    } else if t < 3 * ss {
        (l - (t - 2 * ss) / e, -l, -l + (t - 2 * ss) % e)
    } else if t < 4 * ss {
        (-l, -l + (t - 3 * ss) / e, -l + (t - 3 * ss) % e)
    } else if t < 4 * ss + sss {
        (-l + 1 + (t - 4 * ss) % (e - 2), l - 1 - (t - 4 * ss) / (e - 2), -l)
    } else {
        (-l + 1 + (t - 4 * ss - sss) % (e - 2), l - 1 - (t - 4 * ss - sss) / (e - 2), l)
    }
}

/// The cell that the enumeration of cube shells lists at index `n`: index 0
/// is the centre, then each shell in turn (see `cell_at`).
pub open spec fn pos_of_index(n: int) -> (int, int, int) {
    if n <= 0 {
        (0, 0, 0)
    } else {
        cell_at(shell_of(n), offset_in_shell(n))
    }
}

/// The cell listed at spot `(l, t)` of a walk: the centre before shell `l`
/// when `t` is negative, else `cell_at(l, t)`.
pub open spec fn cell_of_spot(l: int, t: int) -> (int, int, int) {
    if t < 0 {
        (0, 0, 0)
    } else {
        cell_at(l, t)
    }
}

/// A spot past the last cell of its shell is the first cell of the next one.
pub open spec fn normalized(l: int, t: int) -> (int, int) {
    if t == layer_cells(l) {
        (l + 1, 0)
    } else {
        (l, t)
    }
}

/// A spot of a walk whose index (`cube(2l - 1) + t`) is that of the cell
/// it lists next: within shell `l` (or one past its end), or before the
/// centre ahead of shell 1.
pub open spec fn on_track(l: int, t: int) -> bool {
    l >= 1 && -1 <= t <= layer_cells(l) && (t >= 0 || l == 1)
}

/// The largest coordinate magnitude of a cell.
pub open spec fn max_norm(p: (int, int, int)) -> int {
    let ax = if p.0 < 0 { -p.0 } else { p.0 };
    let ay = if p.1 < 0 { -p.1 } else { p.1 };
    let az = if p.2 < 0 { -p.2 } else { p.2 };
    if ax >= ay && ax >= az {
        ax
    } else if ay >= az {
        ay
    } else {
        az
    }
}

/// The face (1 to 6) of shell `l` that holds its cell `t`.
pub open spec fn face_of(l: int, t: int) -> int {
    let e = 2 * l + 1;
    let ss = e * (e - 1);
    let sss = (e - 2) * (e - 2);
    1 + if t < 4 * ss {
        t / ss
    } else {
        4 + (t - 4 * ss) / sss
    }
}

/// The cursor with which a walk starts on cell `t` of shell `l`; the
/// coordinate that a face does not read holds what the start computes for it.
pub open spec fn start_cursor(l: int, t: int) -> (int, int, int) {
    let e = 2 * l + 1;
    let ss = e * (e - 1);
    let sss = (e - 2) * (e - 2);
    let f = face_of(l, t);
    if f == 1 {
        (-l + t / e, -1, -l + t % e)
    } else if f == 2 {
        (1, l - (t - ss) / e, -l + t % e)
    } else if f == 3 {
        (l - (t - 2 * ss) / e, 1, -l + t % e)
    } else if f == 4 {
        (-1, -l + (t - 3 * ss) / e, -l + t % e)
    } else if f == 5 {
        (-l + (t - 4 * ss) % (e - 2) + 1, l - (t - 4 * ss) / (e - 2) - 1, 1)
    } else {
        (-l + (t - 4 * ss) % (e - 2) + 1, l - (t - 4 * ss - sss) / (e - 2) - 1, -1)
    }
}

/// The cursor `(x, y, z)` lies on face `f` of shell `l`, one past a row's
/// end at most.
spec fn cursor_fits(f: int, l: int, x: int, y: int, z: int) -> bool {
    if f == 1 {
        -l <= x <= l - 1 && -l <= z <= l + 1
    } else if f == 2 {
        -l + 1 <= y <= l && -l <= z <= l + 1
    } else if f == 3 {
        -l + 1 <= x <= l && -l <= z <= l + 1
    } else if f == 4 {
        -l <= y <= l - 1 && -l <= z <= l + 1
    } else if f == 5 || f == 6 {
        -l + 1 <= x <= l && -l + 1 <= y <= l - 1
    } else {
        false
    }
}

/// The cell of shell `l` that a cursor on face `f` stands on.
#[verifier::opaque]
spec fn spot_on_face(f: int, l: int, x: int, y: int, z: int) -> int {
    let e = 2 * l + 1;
    let ss = e * (e - 1);
    let sss = (e - 2) * (e - 2);
    if f == 1 {
        (x + l) * e + (z + l)
    } else if f == 2 {
        ss + (l - y) * e + (z + l)
    } else if f == 3 {
        2 * ss + (l - x) * e + (z + l)
    } else if f == 4 {
        3 * ss + (y + l) * e + (z + l)
    } else if f == 5 {
        4 * ss + (l - 1 - y) * (e - 2) + (x + l - 1)
    } else {
        4 * ss + sss + (l - 1 - y) * (e - 2) + (x + l - 1)
    }
}

/// Splitting `a` into rows of `e`: fewer than `k` rows when `a < k e`.
proof fn lemma_rows(a: int, e: int, k: int)
    requires
        e > 0,
        0 <= a < k * e,
    ensures
        0 <= a / e < k,
        0 <= a % e < e,
        (a / e) * e + a % e == a,
{
    vstd::arithmetic::div_mod::lemma_fundamental_div_mod(a, e);
    assert((a / e) * e == e * (a / e)) by (nonlinear_arith);
    assert(0 <= a % e < e);
    assert(0 <= a / e < k) by (nonlinear_arith)
        requires
            e > 0,
            0 <= a < k * e,
            (a / e) * e + a % e == a,
            0 <= a % e < e,
    ;
}

/// The walk that starts on cell `t` of shell `l` stands on that cell.
proof fn lemma_start_state(l: int, t: int)
    requires
        l >= 1,
        0 <= t < layer_cells(l),
    ensures
        1 <= face_of(l, t) <= 6,
        cursor_fits(face_of(l, t), l, start_cursor(l, t).0, start_cursor(l, t).1, start_cursor(l, t).2),
        spot_on_face(face_of(l, t), l, start_cursor(l, t).0, start_cursor(l, t).1, start_cursor(l, t).2)
            == t,
        -l - 1 <= start_cursor(l, t).0 <= l + 1,
        -l - 1 <= start_cursor(l, t).1 <= l + 1,
        -l - 1 <= start_cursor(l, t).2 <= l + 1,
        face_of(l, t) <= 4 ==> start_cursor(l, t).2 <= l,
        face_of(l, t) >= 5 ==> start_cursor(l, t).0 <= l - 1,
        ({
            let e = 2 * l + 1;
            let ss = e * (e - 1);
            let sss = (e - 2) * (e - 2);
            let f = face_of(l, t);
            &&& f == 1 ==> t < ss
            &&& f == 2 ==> ss <= t < 2 * ss
            &&& f == 3 ==> 2 * ss <= t < 3 * ss
            &&& f == 4 ==> 3 * ss <= t < 4 * ss
            &&& f == 5 ==> 4 * ss <= t < 4 * ss + sss
            &&& f == 6 ==> 4 * ss + sss <= t
        }),
{
    reveal(spot_on_face);
    let e = 2 * l + 1;
    let ss = e * (e - 1);
    let sss = (e - 2) * (e - 2);
    let f = face_of(l, t);
    let c = start_cursor(l, t);
    assert(4 * ss + 2 * sss == 24 * l * l + 2 && ss == 2 * l * e && sss >= 1 && ss > 0)
        by (nonlinear_arith)
        requires
            e == 2 * l + 1,
            ss == e * (e - 1),
            sss == (e - 2) * (e - 2),
            l >= 1,
    ;
    if t < ss {
        lemma_band(t, ss, 0);
        lemma_rows(t, e, 2 * l);
    } else if t < 2 * ss {
        lemma_band(t, ss, 1);
        lemma_rows(t - ss, e, 2 * l);
        vstd::arithmetic::div_mod::lemma_mod_multiples_vanish(e - 1, t - ss, e);
    } else if t < 3 * ss {
        lemma_band(t, ss, 2);
        lemma_rows(t - 2 * ss, e, 2 * l);
        assert(e * (2 * (e - 1)) == 2 * ss) by (nonlinear_arith)
            requires
                ss == e * (e - 1),
        ;
        vstd::arithmetic::div_mod::lemma_mod_multiples_vanish(2 * (e - 1), t - 2 * ss, e);
    } else if t < 4 * ss {
        lemma_band(t, ss, 3);
        lemma_rows(t - 3 * ss, e, 2 * l);
        assert(e * (3 * (e - 1)) == 3 * ss) by (nonlinear_arith)
            requires
                ss == e * (e - 1),
        ;
        vstd::arithmetic::div_mod::lemma_mod_multiples_vanish(3 * (e - 1), t - 3 * ss, e);
    } else if t < 4 * ss + sss {
        lemma_band(t - 4 * ss, sss, 0);
        lemma_rows(t - 4 * ss, e - 2, e - 2);
    } else {
        lemma_band(t - 4 * ss, sss, 1);
        lemma_rows(t - 4 * ss - sss, e - 2, e - 2);
        vstd::arithmetic::div_mod::lemma_mod_multiples_vanish(e - 2, t - 4 * ss - sss, e - 2);
    }
}

/// `a` in the band `[k w, (k + 1) w)` lies in row `k` of rows of `w`.
proof fn lemma_band(a: int, w: int, k: int)
    requires
        w > 0,
        k * w <= a < k * w + w,
    ensures
        a / w == k,
{
    vstd::arithmetic::div_mod::lemma_fundamental_div_mod_converse(a, w, k, a - k * w);
}

/// The cell that a cursor on face `f` of shell `l` lists.
spec fn face_cell(f: int, l: int, x: int, y: int, z: int) -> (int, int, int) {
    if f == 1 {
        (x, l, z)
    } else if f == 2 {
        (l, y, z)
    } else if f == 3 {
        (x, -l, z)
    } else if f == 4 {
        (-l, y, z)
    } else if f == 5 {
        (x, y, -l)
    } else {
        (x, y, l)
    }
}

/// Cell `c` of row `r` in rows of `w`.
proof fn lemma_grid(r: int, c: int, w: int, rows: int)
    requires
        w > 0,
        0 <= r < rows,
        0 <= c < w,
    ensures
        0 <= r * w + c < rows * w,
        (r * w + c) / w == r,
        (r * w + c) % w == c,
{
    vstd::arithmetic::div_mod::lemma_fundamental_div_mod_converse(r * w + c, w, r, c);
    assert(0 <= r * w + c < rows * w) by (nonlinear_arith)
        requires
            w > 0,
            0 <= r < rows,
            0 <= c < w,
    ;
}

/// A cursor within its row lists `face_cell`, the cell `cell_at` gives for
/// its spot.
proof fn lemma_face_cell(f: int, l: int, x: int, y: int, z: int)
    requires
        1 <= f <= 6,
        l >= 1,
        cursor_fits(f, l, x, y, z),
        f <= 4 ==> z <= l,
        f >= 5 ==> x <= l - 1,
    ensures
        0 <= spot_on_face(f, l, x, y, z) < layer_cells(l),
        cell_at(l, spot_on_face(f, l, x, y, z)) == face_cell(f, l, x, y, z),
        f <= 4 ==> spot_on_face(f, l, x, y, z + 1) == spot_on_face(f, l, x, y, z) + 1,
        f >= 5 ==> spot_on_face(f, l, x + 1, y, z) == spot_on_face(f, l, x, y, z) + 1,
{
    reveal(spot_on_face);
    reveal(cell_at);
    let e = 2 * l + 1;
    let ss = e * (e - 1);
    let sss = (e - 2) * (e - 2);
    assert(ss == (2 * l) * e && 4 * ss + 2 * sss == 24 * l * l + 2 && sss == (e - 2) * (e - 2))
        by (nonlinear_arith)
        requires
            e == 2 * l + 1,
            ss == e * (e - 1),
            sss == (e - 2) * (e - 2),
    ;
    if f == 1 {
        lemma_grid(x + l, z + l, e, 2 * l);
    } else if f == 2 {
        lemma_grid(l - y, z + l, e, 2 * l);
    } else if f == 3 {
        lemma_grid(l - x, z + l, e, 2 * l);
    } else if f == 4 {
        lemma_grid(y + l, z + l, e, 2 * l);
    } else {
        lemma_grid(l - 1 - y, x + l - 1, e - 2, e - 2);
    }
}

/// A cursor one past its row's end stands where the next row starts.
proof fn lemma_wrap(l: int, x: int, y: int, z: int)
    ensures
        spot_on_face(1, l, x, y, l + 1) == spot_on_face(1, l, x + 1, y, -l),
        spot_on_face(2, l, x, y, l + 1) == spot_on_face(2, l, x, y - 1, -l),
        spot_on_face(3, l, x, y, l + 1) == spot_on_face(3, l, x - 1, y, -l),
        spot_on_face(4, l, x, y, l + 1) == spot_on_face(4, l, x, y + 1, -l),
        spot_on_face(5, l, l, y, z) == spot_on_face(5, l, -l + 1, y - 1, z),
        spot_on_face(6, l, l, y, z) == spot_on_face(6, l, -l + 1, y - 1, z),
{
    reveal(spot_on_face);
    let e = 2 * l + 1;
    assert((x + l) * e + (l + 1 + l) == (x + 1 + l) * e + (-l + l)) by (nonlinear_arith)
        requires
            e == 2 * l + 1,
    ;
    assert((l - y) * e + (l + 1 + l) == (l - (y - 1)) * e + (-l + l)) by (nonlinear_arith)
        requires
            e == 2 * l + 1,
    ;
    assert((l - x) * e + (l + 1 + l) == (l - (x - 1)) * e + (-l + l)) by (nonlinear_arith)
        requires
            e == 2 * l + 1,
    ;
    assert((y + l) * e + (l + 1 + l) == (y + 1 + l) * e + (-l + l)) by (nonlinear_arith)
        requires
            e == 2 * l + 1,
    ;
    assert((l - 1 - y) * (e - 2) + (l + l - 1) == (l - 1 - (y - 1)) * (e - 2) + (-l + 1 + l
        - 1)) by (nonlinear_arith)
        requires
            e == 2 * l + 1,
    ;
}

/// A shell's first cell is the top face's first.
proof fn lemma_first_cell(l: int, y: int)
    ensures
        spot_on_face(1, l, -l, y, -l) == 0,
{
    reveal(spot_on_face);
    assert((-l + l) * (2 * l + 1) + (-l + l) == 0) by (nonlinear_arith);
}

/// The end of a face is the start of the next one, and the end of the last
/// face is the end of the shell.
proof fn lemma_turn(l: int, x: int, y: int, z: int)
    requires
        l >= 1,
    ensures
        spot_on_face(1, l, l - 1, y, l + 1) == spot_on_face(2, l, x, l, -l),
        spot_on_face(2, l, x, -l + 1, l + 1) == spot_on_face(3, l, l, y, -l),
        spot_on_face(3, l, -l + 1, y, l + 1) == spot_on_face(4, l, x, -l, -l),
        spot_on_face(4, l, x, l - 1, l + 1) == spot_on_face(5, l, -l + 1, l - 1, z),
        spot_on_face(5, l, l, -l + 1, z) == spot_on_face(6, l, -l + 1, l - 1, z),
        spot_on_face(6, l, l, -l + 1, z) == layer_cells(l),
{
    reveal(spot_on_face);
    let e = 2 * l + 1;
    let ss = e * (e - 1);
    let sss = (e - 2) * (e - 2);
    assert((l - 1 + l) * e + (l + 1 + l) == ss) by (nonlinear_arith)
        requires
            e == 2 * l + 1,
            ss == e * (e - 1),
    ;
    assert((l - (-l + 1)) * e + (l + 1 + l) == ss) by (nonlinear_arith)
        requires
            e == 2 * l + 1,
            ss == e * (e - 1),
    ;
    assert((l - 1 + l) * e + (l + 1 + l) == ss) by (nonlinear_arith)
        requires
            e == 2 * l + 1,
            ss == e * (e - 1),
    ;
    assert((l - 1 - (-l + 1)) * (e - 2) + (l + l - 1) == sss) by (nonlinear_arith)
        requires
            e == 2 * l + 1,
            sss == (e - 2) * (e - 2),
    ;
    assert(4 * ss + 2 * sss == 24 * l * l + 2) by (nonlinear_arith)
        requires
            e == 2 * l + 1,
            ss == e * (e - 1),
            sss == (e - 2) * (e - 2),
    ;
}

proof fn lemma_cube_monotone(a: int, b: int)
    requires
        0 <= a <= b,
    ensures
        cube(a) <= cube(b),
{
    assert(a * a * a <= b * b * b) by (nonlinear_arith)
        requires
            0 <= a <= b,
    ;
}

proof fn lemma_shell_from(s: int, k: int, l: int)
    requires
        1 <= k <= l,
        cube(2 * l - 1) <= s < cube(2 * l + 1),
    ensures
        shell_from(s, k) == l,
    decreases l - k,
{
    lemma_cube_monotone(2 * k - 1, 2 * l - 1);
    assert(2 * k - 1 <= cube(2 * k - 1)) by (nonlinear_arith)
        requires
            k >= 1,
    ;
    if k < l {
        lemma_cube_monotone(2 * k + 1, 2 * l - 1);
        assert(2 * k + 1 <= cube(2 * k + 1)) by (nonlinear_arith)
            requires
                k >= 1,
        ;
        lemma_shell_from(s, k + 1, l);
    }
}

proof fn lemma_shell_bounds(s: int, k: int)
    requires
        k >= 1,
        cube(2 * k - 1) <= s,
    ensures
        shell_from(s, k) >= k,
        cube(2 * shell_from(s, k) - 1) <= s < cube(2 * shell_from(s, k) + 1),
    decreases s - k,
{
    assert(2 * k + 1 <= cube(2 * k + 1)) by (nonlinear_arith)
        requires
            k >= 1,
    ;
    if k < s && s >= cube(2 * k + 1) {
        lemma_shell_bounds(s, k + 1);
    }
}

/// Index `s` lies in shell `l` exactly when it lies between the cubes of
/// edge `2l - 1` and `2l + 1`.
pub proof fn lemma_shell_of(s: int, l: int)
    requires
        l >= 1,
        cube(2 * l - 1) <= s < cube(2 * l + 1),
    ensures
        shell_of(s) == l,
        offset_in_shell(s) == s - cube(2 * l - 1),
{
    assert(1 <= cube(2 * l - 1)) by (nonlinear_arith)
        requires
            l >= 1,
    ;
    lemma_shell_from(s, 1, l);
}

/// Walks the cells of growing cube shells around the origin (see
/// `pos_of_index`), optionally for a limited number of steps.
pub struct ChunkRegionIterator {
    pub iterations: Option<u32>,
    pub side: u8,
    layer: u8,
    layer_edge: i8,
    x: i8,
    y: i8,
    z: i8,
}

impl ChunkRegionIterator {
    /// Steps the walk may still take (`None`: no limit).
    pub closed spec fn steps_left(self) -> Option<u32> {
        self.iterations
    }

    /// The face of the current shell that the walk is on (0 before the walk).
    pub closed spec fn face(self) -> u8 {
        self.side
    }

    /// The shell the walk is in.
    pub closed spec fn layer(self) -> u8 {
        self.layer
    }

    /// The edge of the current shell.
    pub closed spec fn layer_edge(self) -> i8 {
        self.layer_edge
    }

    /// The cursor of the walk in the current face.
    pub closed spec fn cursor(self) -> (i8, i8, i8) {
        (self.x, self.y, self.z)
    }

    /// The walk's fields fit the face it is on: a walk on face 0 is about
    /// to list the centre; on faces 1 to 6 the shell is 1 to 63, the edge is
    /// `2 layer + 1` and the cursor stays within the face, one past its row
    /// end at most.
    pub closed spec fn wf(self) -> bool {
        let l = self.layer as int;
        self.side == 0 || {
            &&& 1 <= l <= 63
            &&& self.layer_edge == 2 * l + 1
            &&& cursor_fits(self.side as int, l, self.x as int, self.y as int, self.z as int)
        }
    }

    /// Where the walk stands: `(l, t)` for the cell `t` of shell `l` that
    /// it lists next (`t` may be one past the shell's last cell), and
    /// `(layer + 1, -1)` before the centre.
    pub closed spec fn spot(self) -> (int, int) {
        let l = self.layer as int;
        if self.side == 0 {
            (l + 1, -1)
        } else {
            (l, spot_on_face(self.side as int, l, self.x as int, self.y as int, self.z as int))
        }
    }

    /// The index, in the enumeration of all shells, of the spot.
    pub open spec fn index(self) -> int {
        cube(2 * self.spot().0 - 1) + self.spot().1
    }

    /// The next step stays within the shells whose edge fits an `i8`: a
    /// step that opens a new shell opens one of at most 62.
    pub open spec fn step_fits(self) -> bool {
        let (l, t) = self.spot();
        &&& t == -1 ==> l <= 62
        &&& t == layer_cells(l) ==> l + 1 <= 62
    }

    /// A walk without a step limit that stands on face 0 of shell 1 with edge
    /// 1 at the origin; `layer` must be below 125 and is otherwise not used.
    pub fn new(layer: u8) -> (r: Self)
        requires
            layer < 125,
        ensures
            r.steps_left() is None,
            r.face() == 0,
            r.layer() == 1,
            r.layer_edge() == 1,
            r.cursor() == (0i8, 0i8, 0i8),
            r.wf(),
            r.spot() == (2int, -1int),
            r.step_fits(),
    {
        let layer: u8 = 1;

        Self {
            side: 0,
            layer,
            layer_edge: (layer as i8 * 2 - 1),
            iterations: None,
            x: 0,
            y: 0,
            z: 0,
        }
    }

    /// A walk that takes `end - start` steps from index `start`. For
    /// `start > 0` it stands on the face of `start`'s shell that holds it,
    /// with the cursor on it; from 0 it stands before the centre.
    pub fn with_range(range: Range<u32>) -> (r: Self)
        requires
            range.start <= range.end,
            range.start < 2141700569,
        ensures
            r.steps_left() == Some((range.end - range.start) as u32),
            range.start == 0 ==> r.face() == 0 && r.layer() == 0 && r.layer_edge() == 1
                && r.cursor() == (0i8, -1i8, 0i8),
            range.start > 0 ==> ({
                let l = shell_of(range.start as int);
                let t = offset_in_shell(range.start as int);
                let c = start_cursor(l, t);
                &&& r.face() == face_of(l, t) as u8
                &&& r.layer() == l as u8
                &&& r.layer_edge() == (2 * l + 1) as i8
                &&& r.cursor() == (c.0 as i8, c.1 as i8, c.2 as i8)
            }),
            range.start < 2048383 ==> r.wf() && r.index() == range.start && on_track(r.spot().0, r.spot().1)
                && r.spot().1 < layer_cells(r.spot().0),
    {
        let iterations = Some(range.end - range.start);

        if range.start == 0 {
            let r = Self { side: 0, layer: 0, layer_edge: 1, iterations, x: 0, y: -1, z: 0 };
            assert(r.spot() == (1int, -1int) && cube(1) == 1);
            return r;
        }
        let mut layer: i32 = 1;
        let mut layer_first_idx: i32 = 1;
        let start_index = range.start as i32;

        loop
            invariant
                1 <= layer <= 644,
                layer_first_idx == cube(2 * layer - 1),
                layer_first_idx <= start_index < 2141700569,
            ensures
                1 <= layer <= 644,
                layer_first_idx == cube(2 * layer - 1),
                layer_first_idx <= start_index < cube(2 * layer + 1),
            decreases 644 - layer,
        {
            proof {
                if 2 * layer - 1 >= 1289 {
                    lemma_cube_monotone(1289, 2 * layer - 1);
                }
                lemma_cube_monotone(2 * layer + 1, 1289);
                law_layer_cells_fill_the_shell(layer as int);
                assert(24 * layer * layer + 2 <= 24 * 644 * 644 + 2) by (nonlinear_arith)
                    requires
                        1 <= layer <= 644,
                ;
            }
            let indices_in_layer = layer_first_idx + Self::get_layer_size(layer);
            if indices_in_layer > start_index {
                break ;
            }
            layer += 1;
            layer_first_idx = indices_in_layer;
        }
        proof {
            lemma_shell_of(start_index as int, layer as int);
        }

        let layer_edge = (layer + 1) * 2 - 1;
        let border = layer_edge - 1;
        let start_idx_on_layer = start_index - layer_first_idx;
        let ghost l = layer as int;
        let ghost t = start_idx_on_layer as int;
        proof {
            law_layer_cells_fill_the_shell(l);
            assert(4 * (layer_edge * (layer_edge - 1)) + 2 * ((layer_edge - 2) * (layer_edge - 2))
                == 24 * l * l + 2) by (nonlinear_arith)
                requires
                    layer_edge == 2 * l + 1,
            ;
            assert(1 <= (layer_edge - 2) * (layer_edge - 2) <= layer_edge * (layer_edge - 1) <= 1289 * 1288)
                by (nonlinear_arith)
                requires
                    3 <= layer_edge <= 1289,
            ;
        }

        let side_size_small = (layer_edge - 2) * (layer_edge - 2);
        let side_size = layer_edge * (layer_edge - 1);
        let side = 1 + if start_idx_on_layer < side_size * 4 {
            start_idx_on_layer / side_size
        } else {
            4 + (start_idx_on_layer - side_size * 4) / side_size_small
        };
        proof {
            if start_idx_on_layer < side_size * 4 {
                assert(0 <= t / (side_size as int) < 4) by (nonlinear_arith)
                    requires
                        0 <= t < 4 * side_size,
                        side_size > 0,
                ;
            } else {
                assert(0 <= (t - 4 * side_size) / (side_size_small as int) < 2) by (nonlinear_arith)
                    requires
                        0 <= t - 4 * side_size < 2 * side_size_small,
                        side_size_small > 0,
                ;
            }
        }

        let (x, y, z) = if side == 1 {
            (
                -(layer_edge / 2) + start_idx_on_layer / layer_edge,
                -(layer_edge / border),
                -(layer_edge / 2) + start_idx_on_layer % layer_edge,
            )
        } else if side == 2 {
            (
                layer_edge / border,
                layer_edge / 2 - (start_idx_on_layer - side_size) / layer_edge,
                -(layer_edge / 2) + start_idx_on_layer % layer_edge,
            )
        } else if side == 3 {
            (
                layer_edge / 2 - (start_idx_on_layer - side_size * 2) / layer_edge,
                layer_edge / border,
                -(layer_edge / 2) + start_idx_on_layer % layer_edge,
            )
        } else if side == 4 {
            (
                -(layer_edge / border),
                -(layer_edge / 2) + (start_idx_on_layer - side_size * 3) / layer_edge,
                -(layer_edge / 2) + start_idx_on_layer % layer_edge,
            )
        } else if side == 5 {
            (
                -(layer_edge / 2) + (start_idx_on_layer - side_size * 4) % (layer_edge - 2) + 1,
                layer_edge / 2 - (start_idx_on_layer - side_size * 4) / (layer_edge - 2) - 1,
                layer_edge / border,
            )
        } else {
            (
                -(layer_edge / 2) + (start_idx_on_layer - side_size * 4) % (layer_edge - 2) + 1,
                layer_edge / 2 - (start_idx_on_layer - side_size * 4 - side_size_small) / (
                layer_edge - 2) - 1,
                -(layer_edge / border),
            )
        };

        proof {
            lemma_start_state(l, t);
            assert(side == face_of(l, t));
            lemma_band(layer_edge as int, border as int, 1);
            let e = 2 * l + 1;
            let ss = e * (e - 1);
            let sss = (e - 2) * (e - 2);
            assert(side_size == ss && side_size_small == sss);
            assert(start_idx_on_layer - side_size * 2 == t - 2 * ss);
            assert(start_idx_on_layer - side_size * 3 == t - 3 * ss);
            assert(start_idx_on_layer - side_size * 4 == t - 4 * ss);
            assert(start_idx_on_layer - side_size * 4 - side_size_small == t - 4 * ss - sss);
            assert((x as int, y as int, z as int) == start_cursor(l, t));
            if range.start < 2048383 {
                if l >= 64 {
                    lemma_cube_monotone(127, 2 * l - 1);
                }
                assert(l <= 63);
                assert((x as i8) as int == x as int);
                assert((y as i8) as int == y as int);
                assert((z as i8) as int == z as int);
                assert((side as u8) as int == side as int);
                assert((layer as u8) as int == l);
                assert((layer_edge as i8) as int == 2 * l + 1);
            }
        }
        let r = Self {
            side: side as u8,
            layer: layer as u8,
            layer_edge: layer_edge as i8,
            iterations,
            x: x as i8,
            y: y as i8,
            z: z as i8,
        };
        if range.start < 2048383 {
            assert(r.spot() == (l, t));
            assert(r.wf());
            assert(r.index() == range.start);
        }
        r
    }

    /// The cell at index `index` of the enumeration of cube shells.
    pub fn get_pos_from_index(index: u32) -> (r: (i8, i8, i8))
        requires
            index < 2048383,
        ensures
            (r.0 as int, r.1 as int, r.2 as int) == pos_of_index(index as int),
    {
        let mut walk = Self::with_range(index..(index + 1));
        proof {
            let l = walk.spot().0;
            let t = walk.spot().1;
            law_walk_follows_index(l, t);
            law_cells_lie_on_their_shell(index as int);
            if index > 0 {
                assert(cube(1) == 1);
                law_layer_cells_fill_the_shell(l);
                lemma_shell_of(index as int, l);
            }
        }
        walk.next().unwrap()
    }

    /// The walk stands at the end of a face, where its next step turns to
    /// the next face (or shell) first.
    pub closed spec fn pending_turn(self) -> int {
        let l = self.layer as int;
        let x = self.x as int;
        let y = self.y as int;
        let z = self.z as int;
        if (self.side == 1 && z == l + 1 && x == l - 1) || (self.side == 2 && z == l + 1 && y
            == -l + 1) || (self.side == 3 && z == l + 1 && x == -l + 1) || (self.side == 4 && z
            == l + 1 && y == l - 1) || ((self.side == 5 || self.side == 6) && x == l && y == -l
            + 1) {
            1
        } else {
            0
        }
    }

    /// Opens the next shell on its first face, at its first cell.
    fn setup_next_layer(&mut self)
        requires
            old(self).layer < 62,
        ensures
            final(self).layer == old(self).layer + 1,
            final(self).layer_edge == 2 * final(self).layer + 1,
            final(self).x == -final(self).layer,
            final(self).y == final(self).layer,
            final(self).z == -final(self).layer,
            final(self).side == 1,
            final(self).iterations == old(self).iterations,
    {
        self.layer += 1;

        let layer_size = (self.layer as i8 + 1) * 2 - 1;

        self.x = -(layer_size / 2);
        self.y = layer_size / 2;
        self.z = -(layer_size / 2);

        self.layer_edge = layer_size;
        self.side = 1;
    }

    /// Adds `count` to a step limit, if there is one; a limit of 0 is not
    /// lowered.
    fn update_iterations(&mut self, count: i8)
        requires
            count > -128,
            old(self).iterations matches Some(k) ==> (count < 0 && k != 0 ==> k >= -count) && (
            count >= 0 ==> k + count <= u32::MAX),
        ensures
            final(self).iterations == (match old(self).iterations {
                Some(k) => if count < 0 && k == 0 {
                    Some(0u32)
                } else {
                    Some((k + count) as u32)
                },
                None => None,
            }),
            final(self).side == old(self).side,
            final(self).layer == old(self).layer,
            final(self).layer_edge == old(self).layer_edge,
            final(self).x == old(self).x,
            final(self).y == old(self).y,
            final(self).z == old(self).z,
    {
        if let Some(iterations) = self.iterations {
            if count < 0 {
                if iterations == 0 {
                    return ;
                }
                self.iterations = Some(iterations - (-count) as u32);
            } else {
                self.iterations = Some(iterations + count as u32);
            };
        }
    }

    /// Lists the cell of the walk's spot and steps past it; `None`, with
    /// nothing changed, once no steps are left.
    #[verifier::rlimit(100)]
    pub fn next(&mut self) -> (r: Option<(i8, i8, i8)>)
        requires
            old(self).wf(),
            old(self).steps_left() != Some(0u32) ==> old(self).step_fits(),
        ensures
            walk_step(*old(self), *final(self), r),
            old(self).steps_left() == Some(0u32) ==> r is None && *final(self) == *old(self),
            old(self).steps_left() != Some(0u32) ==> ({
                let (l, t) = normalized(old(self).spot().0, old(self).spot().1);
                let c = cell_of_spot(l, t);
                &&& r == Some((c.0 as i8, c.1 as i8, c.2 as i8))
                &&& final(self).wf()
                &&& final(self).spot() == (l, t + 1)
                &&& final(self).steps_left() == match old(self).steps_left() {
                    Some(k) => Some((k - 1) as u32),
                    None => None,
                }
            }),
        decreases old(self).pending_turn(),
    {
        let border = (self.layer_edge / 2) as i8;

        if let Some(iterations) = self.iterations {
            if iterations == 0 {
                return None;
            }
            self.iterations = Some(iterations - 1);
        }
        let ghost l = self.layer as int;
        let ghost x = self.x as int;
        let ghost y = self.y as int;
        let ghost z = self.z as int;
        proof {
            if self.side != 0 {
                lemma_turn(l, x, y, z);
                lemma_wrap(l, x, y, z);
                assert(layer_cells(l + 1) > 0) by (nonlinear_arith)
                    requires
                        l >= 1,
                ;
            }
        }

        match self.side {
            0 => {
                proof {
                    lemma_first_cell(l + 1, l + 1);
                }
                self.setup_next_layer();
                return Some((0, 0, 0));
            },
            1 => {
                if self.z == border + 1 {
                    if self.x == border - 1 {
                        self.y = border;
                        self.z = -border;
                        self.side += 1;

                        self.update_iterations(1);
                        return self.next();
                    } else {
                        proof {
                            lemma_face_cell(1, l, x + 1, y, -l);
                        }
                        self.z = -border + 1;
                        self.x += 1;
                    }
                } else {
                    proof {
                        lemma_face_cell(1, l, x, y, z);
                    }
                    self.z += 1;

                    if self.x == self.layer_edge {
                        self.x = 0;
                    }
                }

                return Some((self.x, self.layer_edge / 2, self.z - 1));
            },
            2 => {
                if self.z == border + 1 {
                    if self.y == -border + 1 {
                        self.x = border;
                        self.z = -border;
                        self.side += 1;

                        self.update_iterations(1);
                        return self.next();
                    } else {
                        proof {
                            lemma_face_cell(2, l, x, y - 1, -l);
                        }
                        self.z = -border + 1;
                        self.y -= 1;
                    }
                } else {
                    proof {
                        lemma_face_cell(2, l, x, y, z);
                    }
                    self.z += 1;

                    if self.y == self.layer_edge {
                        self.y = 0;
                    }
                }

                return Some((self.layer_edge / 2, self.y, self.z - 1));
            },
            3 => {
                if self.z == border + 1 {
                    if self.x == -border + 1 {
                        self.y = -border;
                        self.z = -border;
                        self.side += 1;

                        self.update_iterations(1);
                        return self.next();
                    } else {
                        proof {
                            lemma_face_cell(3, l, x - 1, y, -l);
                        }
                        self.z = -border + 1;
                        self.x -= 1;
                    }
                } else {
                    proof {
                        lemma_face_cell(3, l, x, y, z);
                    }
                    self.z += 1;

                    if self.x == self.layer_edge {
                        self.x = 0;
                    }
                }

                return Some((self.x, -(self.layer_edge / 2), self.z - 1));
            },
            4 => {
                if self.z == border + 1 {
                    if self.y == border - 1 {
                        self.y = border - 1;
                        self.x = -border + 1;
                        self.side += 1;

                        self.update_iterations(1);
                        return self.next();
                    } else {
                        proof {
                            lemma_face_cell(4, l, x, y + 1, -l);
                        }
                        self.z = -border + 1;
                        self.y += 1;
                    }
                } else {
                    proof {
                        lemma_face_cell(4, l, x, y, z);
                    }
                    self.z += 1;

                    if self.y == self.layer_edge {
                        self.y = 0;
                    }
                }

                return Some((-(self.layer_edge / 2), self.y, self.z - 1));
            },
            5 => {
                if self.x == border {
                    if self.y == -border + 1 {
                        self.y = border - 1;
                        self.x = -border + 1;
                        self.side += 1;

                        self.update_iterations(1);
                        return self.next();
                    } else {
                        proof {
                            lemma_face_cell(5, l, -l + 1, y - 1, z);
                        }
                        self.x = -border + 2;
                        self.y -= 1;
                    }
                } else {
                    proof {
                        lemma_face_cell(5, l, x, y, z);
                    }
                    self.x += 1;

                    if self.y == self.layer_edge {
                        self.y = 0;
                    }
                }

                return Some((self.x - 1, self.y, -(self.layer_edge / 2)));
            },
            _ => {
                if self.x == border {
                    if self.y == -border + 1 {
                        proof {
                            lemma_first_cell(l + 1, l + 1);
                        }
                        self.setup_next_layer();
                        self.update_iterations(1);

                        return self.next();
                    } else {
                        proof {
                            lemma_face_cell(6, l, -l + 1, y - 1, z);
                        }
                        self.x = -border + 2;
                        self.y -= 1;
                    }
                } else {
                    proof {
                        lemma_face_cell(6, l, x, y, z);
                    }
                    self.x += 1;

                    if self.y == self.layer_edge {
                        self.y = 0;
                    }
                }

                return Some((self.x - 1, self.y, self.layer_edge / 2));
            },
        }
    }

    /// Edge of shell `layer`: `2 layer + 1`.
    pub fn get_layer_edge(layer: i32) -> (r: i32)
        requires
            -0x4000_0000 <= layer <= 0x3fff_fffe,
        ensures
            r == 2 * layer + 1,
    {
        (layer + 1) * 2 - 1
    }

    /// Number of cells of shell `layer`: 1 for the centre, `24 layer^2 + 2`
    /// otherwise.
    pub fn get_layer_size(layer: i32) -> (r: i32)
        requires
            24 * layer * layer + 2 <= i32::MAX,
        ensures
            r == layer_cells(layer as int),
    {
        if layer == 0 {
            1
        } else {
            proof {
                assert(0 <= layer * layer && 24 * layer * layer == 24 * (layer * layer))
                    by (nonlinear_arith);
            }
            24 * (layer * layer) + 2
        }
    }
}

/// Law: the cell listed at index `n` lies on the shell of `n`: its largest
/// coordinate magnitude is `shell_of(n)`.
pub proof fn law_cells_lie_on_their_shell(n: int)
    requires
        n >= 0,
    ensures
        max_norm(pos_of_index(n)) == shell_of(n),
{
    if n > 0 {
        assert(cube(1) == 1);
        lemma_shell_bounds(n, 1);
        let l = shell_of(n);
        let t = offset_in_shell(n);
        law_layer_cells_fill_the_shell(l);
        lemma_start_state(l, t);
        let c = start_cursor(l, t);
        lemma_face_cell(face_of(l, t), l, c.0, c.1, c.2);
    }
}

/// Law: the enumeration lists no cell twice: distinct indices give distinct
/// cells.
pub proof fn law_cells_are_listed_once(n: int, m: int)
    requires
        0 <= n,
        0 <= m,
        n != m,
    ensures
        pos_of_index(n) != pos_of_index(m),
{
    law_cells_lie_on_their_shell(n);
    law_cells_lie_on_their_shell(m);
    assert(cube(1) == 1);
    if n > 0 {
        lemma_shell_bounds(n, 1);
    }
    if m > 0 {
        lemma_shell_bounds(m, 1);
    }
    if shell_of(n) == shell_of(m) && n > 0 && m > 0 {
        let l = shell_of(n);
        let t = offset_in_shell(n);
        let u = offset_in_shell(m);
        law_layer_cells_fill_the_shell(l);
        lemma_start_state(l, t);
        lemma_start_state(l, u);
        let c = start_cursor(l, t);
        let d = start_cursor(l, u);
        lemma_face_cell(face_of(l, t), l, c.0, c.1, c.2);
        lemma_face_cell(face_of(l, u), l, d.0, d.1, d.2);
        if face_cell(face_of(l, t), l, c.0, c.1, c.2) == face_cell(face_of(l, u), l, d.0, d.1, d.2) {
            assert(face_of(l, t) == face_of(l, u));
            assert(c == d);
            assert(t == u);
        }
    }
}

/// Law: the enumeration lists every cell: the cell `p` comes at an index
/// below the cube of edge `2 max_norm(p) + 1`, so the indices below `(2L + 1)^3`
/// list each cell of the cube from `-L` to `L` exactly once.
pub proof fn law_every_cell_is_listed(p: (int, int, int)) -> (n: int)
    ensures
        0 <= n < cube(2 * max_norm(p) + 1),
        pos_of_index(n) == p,
{
    let l = max_norm(p);
    let (x, y, z) = p;
    if l == 0 {
        assert(cube(1) == 1);
        0
    } else {
        let (f, c) = if y == l && x <= l - 1 {
            (1int, (x, -1int, z))
        } else if x == l && y >= -l + 1 {
            (2int, (1int, y, z))
        } else if y == -l && x >= -l + 1 {
            (3int, (x, 1int, z))
        } else if x == -l {
            (4int, (-1int, y, z))
        } else if z == -l {
            (5int, (x, y, 1int))
        } else {
            (6int, (x, y, -1int))
        };
        lemma_face_cell(f, l, c.0, c.1, c.2);
        let t = spot_on_face(f, l, c.0, c.1, c.2);
        law_layer_cells_fill_the_shell(l);
        assert(1 <= cube(2 * l - 1)) by (nonlinear_arith)
            requires
                l >= 1,
        ;
        lemma_shell_of(cube(2 * l - 1) + t, l);
        cube(2 * l - 1) + t
    }
}

/// Law: a walk on track at index `n` lists `pos_of_index(n)` and moves on to
/// index `n + 1`, on track again. A walk started at index `a` with `k` steps
/// thus lists the cells of indices `a` to `a + k - 1`.
pub proof fn law_walk_follows_index(l: int, t: int)
    requires
        on_track(l, t),
    ensures
        ({
            let n = cube(2 * l - 1) + t;
            let (l2, t2) = normalized(l, t);
            &&& cell_of_spot(l2, t2) == pos_of_index(n)
            &&& on_track(l2, t2 + 1)
            &&& cube(2 * l2 - 1) + t2 + 1 == n + 1
        }),
{
    law_layer_cells_fill_the_shell(l);
    law_layer_cells_fill_the_shell(l + 1);
    assert(layer_cells(l + 1) > 0 && layer_cells(l) > 0) by (nonlinear_arith)
        requires
            l >= 1,
    ;
    if t == -1 {
        assert(cube(1) == 1);
    } else if t == layer_cells(l) {
        lemma_shell_of(cube(2 * l + 1), l + 1);
    } else {
        lemma_shell_of(cube(2 * l - 1) + t, l);
    }
}

/// Law: shell `l >= 1` holds as many cells as the cube of edge `2l + 1`
/// less the cube of edge `2l - 1`.
pub proof fn law_layer_cells_fill_the_shell(l: int)
    requires
        l >= 1,
    ensures
        layer_cells(l) == cube(2 * l + 1) - cube(2 * l - 1),
{
    assert(cube(2 * l + 1) - cube(2 * l - 1) == 24 * l * l + 2) by (nonlinear_arith);
}

/// What one call of `next` does: with no steps left it gives `None` and
/// changes nothing; otherwise it gives the cell of its (normalized) spot,
/// moves one spot on and takes one step off a limit.
pub open spec fn walk_step(before: ChunkRegionIterator, after: ChunkRegionIterator, r: Option<(i8, i8, i8)>) -> bool {
    &&& before.steps_left() == Some(0u32) ==> r is None && after == before
    &&& before.steps_left() != Some(0u32) ==> ({
        let (l, t) = normalized(before.spot().0, before.spot().1);
        let c = cell_of_spot(l, t);
        &&& r == Some((c.0 as i8, c.1 as i8, c.2 as i8))
        &&& after.wf()
        &&& after.spot() == (l, t + 1)
        &&& after.steps_left() == match before.steps_left() {
            Some(k) => Some((k - 1) as u32),
            None => None,
        }
    })
}

/// Law: a walk limited to `n` steps that stands on track at index `a` lists,
/// call after call, the cells of indices `a`, `a + 1`, ... for its first `n`
/// calls and `None` for every call after them.
pub proof fn law_walk_lists_its_range(walk: Seq<ChunkRegionIterator>, items: Seq<Option<(i8, i8, i8)>>, n: u32)
    requires
        walk.len() == items.len() + 1,
        walk[0].steps_left() == Some(n),
        on_track(walk[0].spot().0, walk[0].spot().1),
        forall|i: int| 0 <= i < items.len() ==> walk_step(#[trigger] walk[i], walk[i + 1], items[i]),
    ensures
        forall|i: int| 0 <= i < items.len() ==> {
            let c = pos_of_index(walk[0].index() + i);
            &&& i < n ==> #[trigger] items[i] == Some((c.0 as i8, c.1 as i8, c.2 as i8))
            &&& i >= n ==> items[i] is None
        },
    decreases items.len(),
{
    if items.len() > 0 {
        let k = items.len() - 1;
        law_walk_lists_its_range(walk.take(k + 1), items.take(k), n);
        lemma_walk_prefix_state(walk, items, n, k);
        assert forall|i: int| 0 <= i < items.len() implies {
            let c = pos_of_index(walk[0].index() + i);
            &&& i < n ==> #[trigger] items[i] == Some((c.0 as i8, c.1 as i8, c.2 as i8))
            &&& i >= n ==> items[i] is None
        } by {
            if i < k {
                assert(items.take(k)[i] == items[i]);
                assert(walk.take(k + 1)[0] == walk[0]);
            }
        }
    }
}

/// After `k` calls, a walk limited to `n` steps that started on track at
/// index `a` stands on track at index `a + min(k, n)` with `n - min(k, n)`
/// steps left, and its `k`-th call gives the cell of index `a + k` when
/// `k < n`, `None` otherwise.
proof fn lemma_walk_prefix_state(walk: Seq<ChunkRegionIterator>, items: Seq<Option<(i8, i8, i8)>>, n: u32, k: int)
    requires
        walk.len() == items.len() + 1,
        walk[0].steps_left() == Some(n),
        on_track(walk[0].spot().0, walk[0].spot().1),
        forall|i: int| 0 <= i < items.len() ==> walk_step(#[trigger] walk[i], walk[i + 1], items[i]),
        0 <= k < items.len(),
    ensures
        on_track(walk[k].spot().0, walk[k].spot().1),
        walk[k].index() == walk[0].index() + if k < n { k } else { n as int },
        walk[k].steps_left() == Some((if k < n { n - k } else { 0 }) as u32),
        k < n ==> ({
            let c = pos_of_index(walk[0].index() + k);
            items[k] == Some((c.0 as i8, c.1 as i8, c.2 as i8))
        }),
        k >= n ==> items[k] is None,
    decreases k,
{
    if k > 0 {
        lemma_walk_prefix_state(walk, items, n, k - 1);
        assert(walk_step(walk[k - 1], walk[k], items[k - 1]));
        if k - 1 < n {
            let (l, t) = (walk[k - 1].spot().0, walk[k - 1].spot().1);
            law_walk_follows_index(l, t);
        }
    }
    assert(walk_step(walk[k], walk[k + 1], items[k]));
    if k < n {
        let (l, t) = (walk[k].spot().0, walk[k].spot().1);
        law_walk_follows_index(l, t);
    }
}

} // verus!
