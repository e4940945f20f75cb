use vstd::prelude::*;

verus! {

/// Three corners of a triangle, by index into a list of points.
pub type Corners = (usize, usize, usize);

/// Whether corner `k` of a box (0..8) lies on the positive side along `axis`
/// (0: forward, 1: right, 2: up). Corner `k` takes the negative side forward
/// when bit 2 of `k` is set, to the right when bit 1 is, and up when bit 0 is.
pub open spec fn corner_positive(k: int, axis: int) -> bool {
    if axis == 0 {
        k < 4
    } else if axis == 1 {
        (k / 2) % 2 == 0
    } else {
        k % 2 == 0
    }
}

/// The side of the box that face `f` (0..6) covers: an axis and whether it is
/// the positive side.
pub open spec fn face_side(f: int) -> (int, bool) {
    if f == 0 {
        (0, true)
    } else if f == 1 {
        (0, false)
    } else if f == 2 {
        (2, false)
    } else if f == 3 {
        (2, true)
    } else if f == 4 {
        (1, true)
    } else {
        (1, false)
    }
}

/// All three corners of triangle `t` lie on the side of face `f`.
pub open spec fn on_face(t: Corners, f: int) -> bool {
    let (axis, positive) = face_side(f);
    &&& t.0 < 8 && t.1 < 8 && t.2 < 8
    &&& corner_positive(t.0 as int, axis) == positive
    &&& corner_positive(t.1 as int, axis) == positive
    &&& corner_positive(t.2 as int, axis) == positive
}

/// The signs of corner `k` of a box along forward, right and up: `true` for
/// the positive side.
pub fn corner_signs(k: usize) -> (r: (bool, bool, bool))
    requires
        k < 8,
    ensures
        r == (corner_positive(k as int, 0), corner_positive(k as int, 1), corner_positive(k as int, 2)),
{
    (k < 4, (k / 2) % 2 == 0, k % 2 == 0)
}

/// The twelve triangles that cover a box whose corners are numbered as
/// `corner_positive` says: two for each face, face `f` by triangles `2f` and
/// `2f + 1`.
pub fn cube_triangles() -> (r: Vec<Corners>)
    ensures
        r@ == seq![
            (0usize, 1usize, 2usize), (3, 1, 2), (4, 5, 6), (7, 5, 6), (5, 1, 7), (3, 1, 7),
            (0, 4, 2), (6, 4, 2), (0, 4, 1), (5, 4, 1), (2, 6, 3), (7, 6, 3),
        ],
        forall|t: int| 0 <= t < 12 ==> on_face(#[trigger] r@[t], t / 2),
{
    let mut r: Vec<Corners> = Vec::new();
    r.push((0, 1, 2));
    r.push((3, 1, 2));
    r.push((4, 5, 6));
    r.push((7, 5, 6));
    r.push((5, 1, 7));
    r.push((3, 1, 7));
    r.push((0, 4, 2));
    r.push((6, 4, 2));
    r.push((0, 4, 1));
    r.push((5, 4, 1));
    r.push((2, 6, 3));
    r.push((7, 6, 3));
    r
}

/// A triangle of a die: its corners, and the half of the image cell
/// `(cell_x, cell_y)` of a 4 by 3 grid that textures it (`lower` for the half
/// below the cell's diagonal).
#[derive(Clone, Copy, Debug)]
pub struct DieTriangle {
    pub corners: Corners,
    pub cell_x: u32,
    pub cell_y: u32,
    pub lower: bool,
}

pub open spec fn die_layout() -> Seq<DieTriangle> {
    seq![
        DieTriangle { corners: (0, 2, 1), cell_x: 0, cell_y: 1, lower: false },
        DieTriangle { corners: (3, 2, 1), cell_x: 0, cell_y: 1, lower: true },
        DieTriangle { corners: (6, 4, 7), cell_x: 1, cell_y: 1, lower: false },
        DieTriangle { corners: (5, 4, 7), cell_x: 1, cell_y: 1, lower: true },
        DieTriangle { corners: (5, 1, 7), cell_x: 2, cell_y: 0, lower: false },
        DieTriangle { corners: (3, 1, 7), cell_x: 2, cell_y: 0, lower: true },
        DieTriangle { corners: (4, 0, 6), cell_x: 2, cell_y: 2, lower: false },
        DieTriangle { corners: (2, 0, 6), cell_x: 2, cell_y: 2, lower: true },
        DieTriangle { corners: (4, 0, 5), cell_x: 2, cell_y: 1, lower: false },
        DieTriangle { corners: (1, 0, 5), cell_x: 2, cell_y: 1, lower: true },
        DieTriangle { corners: (2, 6, 3), cell_x: 3, cell_y: 1, lower: false },
        DieTriangle { corners: (7, 6, 3), cell_x: 3, cell_y: 1, lower: true },
    ]
}

fn die_triangle(a: usize, b: usize, c: usize, cell_x: u32, cell_y: u32, lower: bool) -> (r: DieTriangle)
    ensures
        r == (DieTriangle { corners: (a, b, c), cell_x, cell_y, lower }),
{
    DieTriangle { corners: (a, b, c), cell_x, cell_y, lower }
}

/// The twelve triangles of a die, two for each face, face `f` by triangles
/// `2f` and `2f + 1`, which share one cell of a cross-shaped 4 by 3 image.
pub fn die_triangles() -> (r: Vec<DieTriangle>)
    ensures
        r@ == die_layout(),
        forall|t: int| 0 <= t < 12 ==> on_face(#[trigger] r@[t].corners, t / 2),
        forall|t: int| 0 <= t < 12 ==> (#[trigger] r@[t]).cell_x < 4 && r@[t].cell_y < 3,
        forall|f: int|
            0 <= f < 6 ==> #[trigger] r@[2 * f].cell_x == r@[2 * f + 1].cell_x && r@[2 * f].cell_y == r@[2 * f + 1].cell_y
                && !r@[2 * f].lower && r@[2 * f + 1].lower,
{
    let mut r: Vec<DieTriangle> = Vec::new();
    r.push(die_triangle(0, 2, 1, 0, 1, false));
    r.push(die_triangle(3, 2, 1, 0, 1, true));
    r.push(die_triangle(6, 4, 7, 1, 1, false));
    r.push(die_triangle(5, 4, 7, 1, 1, true));
    r.push(die_triangle(5, 1, 7, 2, 0, false));
    r.push(die_triangle(3, 1, 7, 2, 0, true));
    r.push(die_triangle(4, 0, 6, 2, 2, false));
    r.push(die_triangle(2, 0, 6, 2, 2, true));
    r.push(die_triangle(4, 0, 5, 2, 1, false));
    r.push(die_triangle(1, 0, 5, 2, 1, true));
    r.push(die_triangle(2, 6, 3, 3, 1, false));
    r.push(die_triangle(7, 6, 3, 3, 1, true));
    assert(r@ =~= die_layout());
    r
}

/// Pixel corners, in an image of `width` by `height` pixels, of the half of
/// cell `(cell_x, cell_y)` of a 4 by 3 grid that textures a die triangle. The
/// cell spans `[x0, x1] x [y0, y1]` with `x0 = cell_x * (width / 4)`,
/// `x1 = x0 + width / 4`, and likewise with `height / 3`; the lower half has
/// corners `(x0, y1), (x1, y1), (x0, y0)`, the upper half
/// `(x1, y0), (x1, y1), (x0, y0)`.
pub fn die_cell_corners(width: u32, height: u32, cell_x: u32, cell_y: u32, lower: bool) -> (r: (
    (u32, u32),
    (u32, u32),
    (u32, u32),
))
    requires
        cell_x < 4,
        cell_y < 3,
    ensures
        ({
            let x0 = cell_x * (width / 4);
            let x1 = (cell_x + 1) * (width / 4);
            let y0 = cell_y * (height / 3);
            let y1 = (cell_y + 1) * (height / 3);
            &&& lower ==> r == ((x0 as u32, y1 as u32), (x1 as u32, y1 as u32), (x0 as u32, y0 as u32))
            &&& !lower ==> r == ((x1 as u32, y0 as u32), (x1 as u32, y1 as u32), (x0 as u32, y0 as u32))
            &&& x1 <= width && y1 <= height
        }),
{
    let sq_width = width / 4;
    let sq_height = height / 3;
    assert((cell_x + 1) * (width / 4) <= width) by (nonlinear_arith)
        requires
            cell_x < 4,
    ;
    assert((cell_y + 1) * (height / 3) <= height) by (nonlinear_arith)
        requires
            cell_y < 3,
    ;
    assert(cell_x * (width / 4) <= (cell_x + 1) * (width / 4)) by (nonlinear_arith);
    assert(cell_y * (height / 3) <= (cell_y + 1) * (height / 3)) by (nonlinear_arith);
    let x0 = cell_x * sq_width;
    let y0 = cell_y * sq_height;
    let x1 = (cell_x + 1) * sq_width;
    let y1 = (cell_y + 1) * sq_height;
    if lower {
        ((x0, y1), (x1, y1), (x0, y0))
    } else {
        ((x1, y0), (x1, y1), (x0, y0))
    }
}

/// The two triangles of a quad with corners `a b c d`, which share the diagonal `a c`.
pub fn quad_triangles() -> (r: Vec<Corners>)
    ensures
        r@ == seq![(0usize, 1usize, 2usize), (0usize, 2usize, 3usize)],
{
    let mut r: Vec<Corners> = Vec::new();
    r.push((0, 1, 2));
    r.push((0, 2, 3));
    r
}

} // verus!
