//! Panels: triangles between lattice points, and the cells that a panel
//! cuts.
//!
//! A cell is the unit cube above its lower corner. A triangle cuts a cell
//! when the corners of the cell lie on both sides of its plane and, seen
//! along each of the three axes, some corner of the cell lies inside the
//! triangle.

use vstd::prelude::*;
use cgmath::Vector3;
use crate::grid::GridCollider;
use crate::grid::EMPTY;
use crate::growth::Cell;
use crate::growth::written;

verus! {

/// The corners of a panel.
#[derive(Clone, Copy, Debug)]
pub struct PanelLayout {
    pub vertices: [(i32, i32, i32); 3],
}

/// The kinds of panel.
#[derive(Clone, Copy, Debug)]
pub enum Panel {
    Metal,
}

/// A lattice point.
pub type Point = (int, int, int);

/// A triangle between lattice points.
pub type Triangle = (Point, Point, Point);

/// On which side of the line from `a` through `b` the point `p` lies, in
/// the plane: positive on the left, negative on the right, zero on the
/// line.
pub open spec fn side(a: (int, int), b: (int, int), p: (int, int)) -> int {
    (b.0 - a.0) * (p.1 - a.1) - (b.1 - a.1) * (p.0 - a.0)
}

/// Whether `p` lies in the triangle `a`, `b`, `c` in the plane, its
/// boundary included: on no two different sides of its three edges.
pub open spec fn in_triangle(a: (int, int), b: (int, int), c: (int, int), p: (int, int)) -> bool {
    ||| side(a, b, p) >= 0 && side(b, c, p) >= 0 && side(c, a, p) >= 0
    ||| side(a, b, p) <= 0 && side(b, c, p) <= 0 && side(c, a, p) <= 0
}

/// Whether `p` lies in the triangle when both are seen along the third
/// axis.
pub open spec fn seen_along_z(t: Triangle, p: Point) -> bool {
    in_triangle((t.0.0, t.0.1), (t.1.0, t.1.1), (t.2.0, t.2.1), (p.0, p.1))
}

/// Whether `p` lies in the triangle when both are seen along the first
/// axis.
pub open spec fn seen_along_x(t: Triangle, p: Point) -> bool {
    in_triangle((t.0.2, t.0.1), (t.1.2, t.1.1), (t.2.2, t.2.1), (p.2, p.1))
}

/// Whether `p` lies in the triangle when both are seen along the second
/// axis.
pub open spec fn seen_along_y(t: Triangle, p: Point) -> bool {
    in_triangle((t.0.2, t.0.0), (t.1.2, t.1.0), (t.2.2, t.2.0), (p.2, p.0))
}

/// The normal of the plane of the triangle: the cross product of its
/// edges at the first corner.
pub open spec fn normal(t: Triangle) -> Point {
    let a = (t.1.0 - t.0.0, t.1.1 - t.0.1, t.1.2 - t.0.2);
    let b = (t.2.0 - t.0.0, t.2.1 - t.0.1, t.2.2 - t.0.2);
    (a.1 * b.2 - a.2 * b.1, a.2 * b.0 - a.0 * b.2, a.0 * b.1 - a.1 * b.0)
}

/// How far `p` stands above the plane of the triangle, in units of the
/// length of the normal.
pub open spec fn height(t: Triangle, p: Point) -> int {
    let n = normal(t);
    n.0 * (p.0 - t.0.0) + n.1 * (p.1 - t.0.1) + n.2 * (p.2 - t.0.2)
}

/// Corner `k` of the cell, `k` from 0 to 7.
pub open spec fn corner(cell: Point, k: int) -> Point {
    (cell.0 + (k / 4) % 2, cell.1 + (k / 2) % 2, cell.2 + k % 2)
}

/// Whether the triangle cuts the cell.
pub open spec fn cuts(t: Triangle, cell: Point) -> bool {
    &&& exists|k: int| 0 <= k < 8 && seen_along_x(t, #[trigger] corner(cell, k))
    &&& exists|k: int| 0 <= k < 8 && seen_along_y(t, #[trigger] corner(cell, k))
    &&& exists|k: int| 0 <= k < 8 && seen_along_z(t, #[trigger] corner(cell, k))
    &&& exists|k: int| 0 <= k < 8 && height(t, #[trigger] corner(cell, k)) > 0
    &&& exists|k: int| 0 <= k < 8 && height(t, #[trigger] corner(cell, k)) < 0
}

/// The least of three numbers.
pub open spec fn min3(a: int, b: int, c: int) -> int {
    if a <= b && a <= c {
        a
    } else if b <= c {
        b
    } else {
        c
    }
}

/// The largest of three numbers.
pub open spec fn max3(a: int, b: int, c: int) -> int {
    if a >= b && a >= c {
        a
    } else if b >= c {
        b
    } else {
        c
    }
}

/// The lower corner of the box around the triangle.
pub open spec fn low(t: Triangle) -> Point {
    (min3(t.0.0, t.1.0, t.2.0), min3(t.0.1, t.1.1, t.2.1), min3(t.0.2, t.1.2, t.2.2))
}

/// The upper corner of the box around the triangle.
pub open spec fn high(t: Triangle) -> Point {
    (max3(t.0.0, t.1.0, t.2.0), max3(t.0.1, t.1.1, t.2.1), max3(t.0.2, t.1.2, t.2.2))
}

/// Whether the cell lies in the box around the triangle.
pub open spec fn boxed(t: Triangle, cell: Point) -> bool {
    &&& low(t).0 <= cell.0 < high(t).0
    &&& low(t).1 <= cell.1 < high(t).1
    &&& low(t).2 <= cell.2 < high(t).2
}

/// Whether `a` comes before `b` in the order of the listing: by the first
/// coordinate, then the second, then the third.
pub open spec fn before(a: Point, b: Point) -> bool {
    a.0 < b.0 || (a.0 == b.0 && (a.1 < b.1 || (a.1 == b.1 && a.2 < b.2)))
}

/// The cell as mathematical integers.
pub open spec fn point_of(c: Cell) -> Point {
    (c.0 as int, c.1 as int, c.2 as int)
}

impl PanelLayout {
    /// The triangle of the panel.
    pub open spec fn triangle(&self) -> Triangle {
        (
            point_of(self.vertices@[0]),
            point_of(self.vertices@[1]),
            point_of(self.vertices@[2]),
        )
    }
}

impl GridCollider {
    /// Whether the box around the triangle reaches into the bounds of the
    /// grid along every axis.
    pub open spec fn reached_by(&self, t: Triangle) -> bool {
        &&& low(t).0 < self.spec_x() - self.spec_cx() && high(t).0 > -self.spec_cx()
        &&& low(t).1 < self.spec_y() - self.spec_cy() && high(t).1 > -self.spec_cy()
        &&& low(t).2 < self.spec_z() - self.spec_cz() && high(t).2 > -self.spec_cz()
    }
}

/// Whether `cells` lists, in the order of the listing and each once, the
/// cells in the box around the triangle that the triangle cuts and that
/// come before `end`.
pub open spec fn lists_cut_cells(cells: Seq<Cell>, t: Triangle, end: Point) -> bool {
    &&& forall|k: int|
        0 <= k < cells.len() ==> boxed(t, point_of(#[trigger] cells[k])) && cuts(
            t,
            point_of(cells[k]),
        ) && before(point_of(cells[k]), end)
    &&& forall|k1: int, k2: int|
        0 <= k1 < k2 < cells.len() ==> before(
            point_of(#[trigger] cells[k1]),
            point_of(#[trigger] cells[k2]),
        )
    &&& forall|c: Point|
        boxed(t, c) && #[trigger] cuts(t, c) && before(c, end) ==> exists|k: int|
            0 <= k < cells.len() && point_of(#[trigger] cells[k]) == c
}

/// Where the listing of the cells of the box around the triangle ends:
/// before the first cell beyond the box.
pub open spec fn listing_end(t: Triangle) -> Point {
    (high(t).0, low(t).1, low(t).2)
}

/// Whether `cells` is the list of the cells that a panel with triangle `t`
/// fills in `grid`: the cells that the triangle cuts, in the order of the
/// listing and each once, where the box around the triangle reaches into
/// the bounds of the grid, and no cell where it does not.
pub open spec fn panel_cells(grid: &GridCollider, t: Triangle, cells: Seq<Cell>) -> bool {
    if grid.reached_by(t) {
        lists_cut_cells(cells, t, listing_end(t))
    } else {
        cells.len() == 0
    }
}

/// The list of the cells that a panel with triangle `t` fills in `grid`.
pub open spec fn cut_cells(grid: &GridCollider, t: Triangle) -> Seq<Cell> {
    choose|cells: Seq<Cell>| panel_cells(grid, t, cells)
}

/// Two lists of the cut cells before the same end are the same list.
pub proof fn lemma_listing_unique(a: Seq<Cell>, b: Seq<Cell>, t: Triangle, end: Point)
    requires
        lists_cut_cells(a, t, end),
        lists_cut_cells(b, t, end),
    ensures
        a == b,
    decreases a.len(),
{
    if a.len() == 0 {
        if b.len() > 0 {
            let c = point_of(b[0]);
            assert(boxed(t, c) && cuts(t, c) && before(c, end));
            let k = choose|k: int| 0 <= k < a.len() && point_of(#[trigger] a[k]) == c;
        }
        assert(a =~= b);
    } else {
        let la = a.len() - 1;
        let top = point_of(a[la]);
        assert(boxed(t, top) && cuts(t, top) && before(top, end));
        let j = choose|j: int| 0 <= j < b.len() && point_of(#[trigger] b[j]) == top;
        let lb = b.len() - 1;
        let other = point_of(b[lb]);
        assert(boxed(t, other) && cuts(t, other) && before(other, end));
        let i = choose|i: int| 0 <= i < a.len() && point_of(#[trigger] a[i]) == other;
        if j < lb {
            assert(before(point_of(b[j]), point_of(b[lb])));
            if i < la {
                assert(before(point_of(a[i]), point_of(a[la])));
            }
        }
        assert(j == lb);
        assert(a[la] == b[lb]);
        let a0 = a.drop_last();
        let b0 = b.drop_last();
        assert forall|c: Point| boxed(t, c) && #[trigger] cuts(t, c) && before(c, top) implies exists|
            k: int,
        | 0 <= k < a0.len() && point_of(#[trigger] a0[k]) == c by {
            let k = choose|k: int| 0 <= k < a.len() && point_of(#[trigger] a[k]) == c;
            assert(k < la);
            assert(a0[k] == a[k]);
        }
        assert forall|c: Point| boxed(t, c) && #[trigger] cuts(t, c) && before(c, top) implies exists|
            k: int,
        | 0 <= k < b0.len() && point_of(#[trigger] b0[k]) == c by {
            let k = choose|k: int| 0 <= k < b.len() && point_of(#[trigger] b[k]) == c;
            assert(k < lb);
            assert(b0[k] == b[k]);
        }
        assert forall|k: int| 0 <= k < a0.len() implies boxed(t, point_of(#[trigger] a0[k])) && cuts(
            t,
            point_of(a0[k]),
        ) && before(point_of(a0[k]), top) by {
            assert(a0[k] == a[k]);
            assert(before(point_of(a[k]), point_of(a[la])));
        }
        assert forall|k: int| 0 <= k < b0.len() implies boxed(t, point_of(#[trigger] b0[k])) && cuts(
            t,
            point_of(b0[k]),
        ) && before(point_of(b0[k]), top) by {
            assert(b0[k] == b[k]);
            assert(before(point_of(b[k]), point_of(b[lb])));
        }
        assert forall|k1: int, k2: int| 0 <= k1 < k2 < a0.len() implies before(
            point_of(#[trigger] a0[k1]),
            point_of(#[trigger] a0[k2]),
        ) by {
            assert(a0[k1] == a[k1] && a0[k2] == a[k2]);
        }
        assert forall|k1: int, k2: int| 0 <= k1 < k2 < b0.len() implies before(
            point_of(#[trigger] b0[k1]),
            point_of(#[trigger] b0[k2]),
        ) by {
            assert(b0[k1] == b[k1] && b0[k2] == b[k2]);
        }
        lemma_listing_unique(a0, b0, t, top);
        assert(a =~= a0.push(a[la]));
        assert(b =~= b0.push(b[lb]));
    }
}

/// A list of the cells that a panel fills is the list of those cells.
pub proof fn lemma_cut_cells_are(grid: &GridCollider, t: Triangle, cells: Seq<Cell>)
    requires
        panel_cells(grid, t, cells),
    ensures
        cells == cut_cells(grid, t),
        panel_cells(grid, t, cut_cells(grid, t)),
{
    let chosen = cut_cells(grid, t);
    if grid.reached_by(t) {
        lemma_listing_unique(cells, chosen, t, listing_end(t));
    } else {
        assert(cells =~= chosen);
    }
}

/// The product of two numbers that are small enough for it.
fn times(a: i128, b: i128) -> (r: i128)
    requires
        -0x10_0000_0000_0000_0000 <= a <= 0x10_0000_0000_0000_0000,
        -0x4_0000_0000 <= b <= 0x4_0000_0000,
    ensures
        r == a * b,
        -0x40_0000_0000_0000_0000_0000_0000 <= r <= 0x40_0000_0000_0000_0000_0000_0000,
        (-0x1_0000_0000 <= a <= 0x1_0000_0000 && -0x1_0000_0000 <= b <= 0x1_0000_0000)
            ==> -0x1_0000_0000_0000_0000 <= r <= 0x1_0000_0000_0000_0000,
{
    assert(-0x40_0000_0000_0000_0000_0000_0000 <= a * b <= 0x40_0000_0000_0000_0000_0000_0000)
        by (nonlinear_arith)
        requires
            -0x10_0000_0000_0000_0000 <= a <= 0x10_0000_0000_0000_0000,
            -0x4_0000_0000 <= b <= 0x4_0000_0000,
    ;
    assert((-0x1_0000_0000 <= a <= 0x1_0000_0000 && -0x1_0000_0000 <= b <= 0x1_0000_0000)
        ==> -0x1_0000_0000_0000_0000 <= a * b <= 0x1_0000_0000_0000_0000) by (nonlinear_arith);
    a * b
}

/// The cross product of two vectors of integers, by `cross` of cgmath's
/// `Vector3`. That function gives, component by component, the difference
/// of the two products of the other components, in the order stated here.
/// The bound on the components keeps every product and difference within
/// the integer type.
#[verifier::external_body]
fn cross(u: (i128, i128, i128), v: (i128, i128, i128)) -> (n: (i128, i128, i128))
    requires
        -0x1_0000_0000 <= u.0 <= 0x1_0000_0000 && -0x1_0000_0000 <= v.0 <= 0x1_0000_0000,
        -0x1_0000_0000 <= u.1 <= 0x1_0000_0000 && -0x1_0000_0000 <= v.1 <= 0x1_0000_0000,
        -0x1_0000_0000 <= u.2 <= 0x1_0000_0000 && -0x1_0000_0000 <= v.2 <= 0x1_0000_0000,
    ensures
        n.0 == u.1 * v.2 - u.2 * v.1,
        n.1 == u.2 * v.0 - u.0 * v.2,
        n.2 == u.0 * v.1 - u.1 * v.0,
{
    let n = Vector3::new(u.0, u.1, u.2).cross(Vector3::new(v.0, v.1, v.2));
    (n.x, n.y, n.z)
}

/// The components of a cross product of vectors with bounded components
/// are bounded.
proof fn lemma_cross_bound(a: int, b: int, c: int, d: int)
    requires
        -0x1_0000_0000 <= a <= 0x1_0000_0000,
        -0x1_0000_0000 <= b <= 0x1_0000_0000,
        -0x1_0000_0000 <= c <= 0x1_0000_0000,
        -0x1_0000_0000 <= d <= 0x1_0000_0000,
    ensures
        -0x2_0000_0000_0000_0000 <= a * b - c * d <= 0x2_0000_0000_0000_0000,
{
    assert(-0x1_0000_0000_0000_0000 <= a * b <= 0x1_0000_0000_0000_0000) by (nonlinear_arith)
        requires
            -0x1_0000_0000 <= a <= 0x1_0000_0000,
            -0x1_0000_0000 <= b <= 0x1_0000_0000,
    ;
    assert(-0x1_0000_0000_0000_0000 <= c * d <= 0x1_0000_0000_0000_0000) by (nonlinear_arith)
        requires
            -0x1_0000_0000 <= c <= 0x1_0000_0000,
            -0x1_0000_0000 <= d <= 0x1_0000_0000,
    ;
}

/// A lattice point whose coordinates are those of a cell or one more.
struct Spot {
    x: i64,
    y: i64,
    z: i64,
}

impl Spot {
    spec fn view(&self) -> Point {
        (self.x as int, self.y as int, self.z as int)
    }

    spec fn near(&self) -> bool {
        &&& -0x8000_0000 <= self.x <= 0x8000_0000
        &&& -0x8000_0000 <= self.y <= 0x8000_0000
        &&& -0x8000_0000 <= self.z <= 0x8000_0000
    }

    fn of(c: Cell) -> (s: Spot)
        ensures
            s@ == point_of(c),
            s.near(),
    {
        Spot { x: c.0 as i64, y: c.1 as i64, z: c.2 as i64 }
    }
}

/// On which side of the line from `a` through `b` the point `p` lies.
fn side_of(a: (i64, i64), b: (i64, i64), p: (i64, i64)) -> (r: i128)
    requires
        -0x8000_0000 <= a.0 <= 0x8000_0000 && -0x8000_0000 <= a.1 <= 0x8000_0000,
        -0x8000_0000 <= b.0 <= 0x8000_0000 && -0x8000_0000 <= b.1 <= 0x8000_0000,
        -0x8000_0000 <= p.0 <= 0x8000_0000 && -0x8000_0000 <= p.1 <= 0x8000_0000,
    ensures
        r == side((a.0 as int, a.1 as int), (b.0 as int, b.1 as int), (p.0 as int, p.1 as int)),
{
    times((b.0 - a.0) as i128, (p.1 - a.1) as i128) - times(
        (b.1 - a.1) as i128,
        (p.0 - a.0) as i128,
    )
}

/// Whether `p` lies in the triangle `a`, `b`, `c` in the plane.
fn inside(a: (i64, i64), b: (i64, i64), c: (i64, i64), p: (i64, i64)) -> (r: bool)
    requires
        -0x8000_0000 <= a.0 <= 0x8000_0000 && -0x8000_0000 <= a.1 <= 0x8000_0000,
        -0x8000_0000 <= b.0 <= 0x8000_0000 && -0x8000_0000 <= b.1 <= 0x8000_0000,
        -0x8000_0000 <= c.0 <= 0x8000_0000 && -0x8000_0000 <= c.1 <= 0x8000_0000,
        -0x8000_0000 <= p.0 <= 0x8000_0000 && -0x8000_0000 <= p.1 <= 0x8000_0000,
    ensures
        r == in_triangle(
            (a.0 as int, a.1 as int),
            (b.0 as int, b.1 as int),
            (c.0 as int, c.1 as int),
            (p.0 as int, p.1 as int),
        ),
{
    let x0 = side_of(a, b, p);
    let x1 = side_of(b, c, p);
    let x2 = side_of(c, a, p);
    (x0 >= 0 && x1 >= 0 && x2 >= 0) || (x0 <= 0 && x1 <= 0 && x2 <= 0)
}

/// A triangle with what is needed to test cells against it.
struct Cutter {
    a: Spot,
    b: Spot,
    c: Spot,
    n: (i128, i128, i128),
}

impl Cutter {
    spec fn triangle(&self) -> Triangle {
        (self.a@, self.b@, self.c@)
    }

    spec fn wf(&self) -> bool {
        &&& self.a.near() && self.b.near() && self.c.near()
        &&& (self.n.0 as int, self.n.1 as int, self.n.2 as int) == normal(self.triangle())
        &&& -0x10_0000_0000_0000_0000 <= self.n.0 <= 0x10_0000_0000_0000_0000
        &&& -0x10_0000_0000_0000_0000 <= self.n.1 <= 0x10_0000_0000_0000_0000
        &&& -0x10_0000_0000_0000_0000 <= self.n.2 <= 0x10_0000_0000_0000_0000
    }

    fn new(a: Spot, b: Spot, c: Spot) -> (r: Cutter)
        requires
            a.near() && b.near() && c.near(),
        ensures
            r.wf(),
            r.triangle() == (a@, b@, c@),
    {
        let u = ((b.x - a.x) as i128, (b.y - a.y) as i128, (b.z - a.z) as i128);
        let v = ((c.x - a.x) as i128, (c.y - a.y) as i128, (c.z - a.z) as i128);
        let n = cross(u, v);
        proof {
            lemma_cross_bound(u.1 as int, v.2 as int, u.2 as int, v.1 as int);
            lemma_cross_bound(u.2 as int, v.0 as int, u.0 as int, v.2 as int);
            lemma_cross_bound(u.0 as int, v.1 as int, u.1 as int, v.0 as int);
        }
        Cutter { a, b, c, n }
    }

    /// How far `p` stands above the plane.
    fn height_of(&self, p: &Spot) -> (h: i128)
        requires
            self.wf(),
            p.near(),
        ensures
            h == height(self.triangle(), p@),
    {
        times(self.n.0, (p.x - self.a.x) as i128) + times(self.n.1, (p.y - self.a.y) as i128)
            + times(self.n.2, (p.z - self.a.z) as i128)
    }

    /// Whether the triangle cuts the cell.
    fn cuts_cell(&self, cell: Cell) -> (r: bool)
        requires
            self.wf(),
        ensures
            r == cuts(self.triangle(), point_of(cell)),
    {
        let ghost t = self.triangle();
        let ghost at = point_of(cell);
        let mut inside_x = false;
        let mut inside_y = false;
        let mut inside_z = false;
        let mut above = false;
        let mut below = false;
        let mut k: u8 = 0;
        while k < 8
            invariant
                self.wf(),
                t == self.triangle(),
                at == point_of(cell),
                k <= 8,
                inside_x == exists|j: int| 0 <= j < k && seen_along_x(t, #[trigger] corner(at, j)),
                inside_y == exists|j: int| 0 <= j < k && seen_along_y(t, #[trigger] corner(at, j)),
                inside_z == exists|j: int| 0 <= j < k && seen_along_z(t, #[trigger] corner(at, j)),
                above == exists|j: int| 0 <= j < k && height(t, #[trigger] corner(at, j)) > 0,
                below == exists|j: int| 0 <= j < k && height(t, #[trigger] corner(at, j)) < 0,
            decreases 8 - k,
        {
            let p = Spot {
                x: cell.0 as i64 + ((k / 4) % 2) as i64,
                y: cell.1 as i64 + ((k / 2) % 2) as i64,
                z: cell.2 as i64 + (k % 2) as i64,
            };
            assert(p@ == corner(at, k as int));
            let px = inside(
                (self.a.z, self.a.y),
                (self.b.z, self.b.y),
                (self.c.z, self.c.y),
                (p.z, p.y),
            );
            let py = inside(
                (self.a.z, self.a.x),
                (self.b.z, self.b.x),
                (self.c.z, self.c.x),
                (p.z, p.x),
            );
            let pz = inside(
                (self.a.x, self.a.y),
                (self.b.x, self.b.y),
                (self.c.x, self.c.y),
                (p.x, p.y),
            );
            let h = self.height_of(&p);
            inside_x = inside_x || px;
            inside_y = inside_y || py;
            inside_z = inside_z || pz;
            above = above || h > 0;
            below = below || h < 0;
            k = k + 1;
        }
        inside_x && inside_y && inside_z && above && below
    }
}

/// The least of three coordinates.
fn least(a: i32, b: i32, c: i32) -> (r: i32)
    ensures
        r == min3(a as int, b as int, c as int),
{
    if a <= b && a <= c {
        a
    } else if b <= c {
        b
    } else {
        c
    }
}

/// The largest of three coordinates.
fn largest(a: i32, b: i32, c: i32) -> (r: i32)
    ensures
        r == max3(a as int, b as int, c as int),
{
    if a >= b && a >= c {
        a
    } else if b >= c {
        b
    } else {
        c
    }
}

/// Lists the cells that the triangle between `vertices` cuts, each by its
/// lower corner. The cells are those of the box around the triangle; the
/// list runs by the first coordinate, then the second, then the third.
/// Where the box does not reach into the bounds of the grid, the list is
/// empty.
pub fn get_triangle_intersections(grid: &GridCollider, vertices: [(i32, i32, i32); 3]) -> (output:
    Vec<(i32, i32, i32)>)
    requires
        grid.wf(),
    ensures
        ({
            let t = (point_of(vertices@[0]), point_of(vertices@[1]), point_of(vertices@[2]));
            &&& if grid.reached_by(t) {
                lists_cut_cells(output@, t, (high(t).0, low(t).1, low(t).2))
            } else {
                output@.len() == 0
            }
            &&& output@ == cut_cells(grid, t)
        }),
{
    let mut output: Vec<(i32, i32, i32)> = Vec::new();
    let (v0, v1, v2) = (vertices[0], vertices[1], vertices[2]);
    let ghost t = (point_of(v0), point_of(v1), point_of(v2));
    let min_x = least(v0.0, v1.0, v2.0);
    let min_y = least(v0.1, v1.1, v2.1);
    let min_z = least(v0.2, v1.2, v2.2);
    let max_x = largest(v0.0, v1.0, v2.0);
    let max_y = largest(v0.1, v1.1, v2.1);
    let max_z = largest(v0.2, v1.2, v2.2);
    let (cx, cy, cz) = (grid.cx() as i64, grid.cy() as i64, grid.cz() as i64);
    if min_x as i64 >= grid.x() as i64 - cx || min_y as i64 >= grid.y() as i64 - cy || min_z as i64
        >= grid.z() as i64 - cz || max_x as i64 <= -cx || max_y as i64 <= -cy || max_z as i64
        <= -cz {
        proof {
            lemma_cut_cells_are(grid, t, output@);
        }
        return output;
    }
    let cutter = Cutter::new(Spot::of(v0), Spot::of(v1), Spot::of(v2));
    let mut ix: i32 = min_x;
    while ix < max_x
        invariant
            cutter.wf(),
            cutter.triangle() == t,
            low(t) == (min_x as int, min_y as int, min_z as int),
            high(t) == (max_x as int, max_y as int, max_z as int),
            min_x <= ix <= max_x,
            lists_cut_cells(output@, t, (ix as int, min_y as int, min_z as int)),
        decreases max_x - ix,
    {
        let mut iy: i32 = min_y;
        while iy < max_y
            invariant
                cutter.wf(),
                cutter.triangle() == t,
                low(t) == (min_x as int, min_y as int, min_z as int),
                high(t) == (max_x as int, max_y as int, max_z as int),
                min_x <= ix < max_x,
                min_y <= iy <= max_y,
                lists_cut_cells(output@, t, (ix as int, iy as int, min_z as int)),
            decreases max_y - iy,
        {
            let mut iz: i32 = min_z;
            while iz < max_z
                invariant
                    cutter.wf(),
                    cutter.triangle() == t,
                    low(t) == (min_x as int, min_y as int, min_z as int),
                    high(t) == (max_x as int, max_y as int, max_z as int),
                    min_x <= ix < max_x,
                    min_y <= iy < max_y,
                    min_z <= iz <= max_z,
                    lists_cut_cells(output@, t, (ix as int, iy as int, iz as int)),
                decreases max_z - iz,
            {
                let ghost listed = output@;
                let ghost here = (ix as int, iy as int, iz as int);
                let hit = cutter.cuts_cell((ix, iy, iz));
                if hit {
                    output.push((ix, iy, iz));
                }
                iz = iz + 1;
                proof {
                    let next = (ix as int, iy as int, iz as int);
                    assert forall|c: Point|
                        boxed(t, c) && #[trigger] cuts(t, c) && before(c, next) implies exists|
                        k: int,
                    | 0 <= k < output@.len() && point_of(#[trigger] output@[k]) == c by {
                        if before(c, here) {
                            let k = choose|k: int|
                                0 <= k < listed.len() && point_of(#[trigger] listed[k]) == c;
                            assert(output@[k] == listed[k]);
                        } else {
                            assert(c == here);
                            assert(point_of(output@[listed.len() as int]) == c);
                        }
                    }
                    assert forall|k: int| 0 <= k < output@.len() implies boxed(
                        t,
                        point_of(#[trigger] output@[k]),
                    ) && cuts(t, point_of(output@[k])) && before(point_of(output@[k]), next) by {
                        if k < listed.len() {
                            assert(output@[k] == listed[k]);
                        }
                    }
                    assert forall|k1: int, k2: int| 0 <= k1 < k2 < output@.len() implies before(
                        point_of(#[trigger] output@[k1]),
                        point_of(#[trigger] output@[k2]),
                    ) by {
                        assert(output@[k1] == listed[k1]);
                        if k2 < listed.len() {
                            assert(output@[k2] == listed[k2]);
                        }
                    }
                }
            }
            iy = iy + 1;
        }
        ix = ix + 1;
    }
    proof {
        lemma_cut_cells_are(grid, t, output@);
    }
    output
}

/// Writes the occupant `index` into every cell that the panel cuts,
/// growing the grid where a cell lies outside it. Returns `false` and
/// leaves the grid unchanged when the grown bounds cannot be represented.
pub fn add_panel_to_grid(grid: &mut GridCollider, panel: PanelLayout, index: isize) -> (done: bool)
    requires
        old(grid).wf(),
    ensures
        final(grid).wf(),
        panel_cells(old(grid), panel.triangle(), cut_cells(old(grid), panel.triangle())),
        done == old(grid).grown_fits(cut_cells(old(grid), panel.triangle())),
        !done ==> *final(grid) == *old(grid),
        done ==> {
            let cells = cut_cells(old(grid), panel.triangle());
            &&& final(grid).spec_x() == old(grid).grown_extent(cells, 0)
            &&& final(grid).spec_y() == old(grid).grown_extent(cells, 1)
            &&& final(grid).spec_z() == old(grid).grown_extent(cells, 2)
            &&& final(grid).spec_cx() == old(grid).grown_offset(cells, 0)
            &&& final(grid).spec_cy() == old(grid).grown_offset(cells, 1)
            &&& final(grid).spec_cz() == old(grid).grown_offset(cells, 2)
            &&& final(grid).covers(old(grid))
            &&& written(old(grid), final(grid), cells, index)
        },
{
    let cells = get_triangle_intersections(grid, panel.vertices);
    proof {
        lemma_cut_cells_are(grid, panel.triangle(), cells@);
    }
    grid.insert(&cells, index)
}

/// Whether every cell that the triangle between `vertices` cuts is empty.
pub fn is_new_panel_allowed(grid: &GridCollider, vertices: [(i32, i32, i32); 3]) -> (free: bool)
    requires
        grid.wf(),
    ensures
        ({
            let t = (point_of(vertices@[0]), point_of(vertices@[1]), point_of(vertices@[2]));
            free == (grid.reached_by(t) ==> forall|c: Point|
                boxed(t, c) && #[trigger] cuts(t, c) ==> grid.entry(c.0, c.1, c.2) == EMPTY)
        }),
{
    let cells = get_triangle_intersections(grid, vertices);
    let ghost t = (point_of(vertices@[0]), point_of(vertices@[1]), point_of(vertices@[2]));
    let mut n: usize = 0;
    while n < cells.len()
        invariant
            grid.wf(),
            n <= cells.len(),
            t == (point_of(vertices@[0]), point_of(vertices@[1]), point_of(vertices@[2])),
            grid.reached_by(t) ==> lists_cut_cells(
                cells@,
                t,
                (high(t).0, low(t).1, low(t).2),
            ),
            !grid.reached_by(t) ==> cells@.len() == 0,
            forall|k: int|
                0 <= k < n ==> grid.entry(
                    (#[trigger] cells@[k]).0 as int,
                    cells@[k].1 as int,
                    cells@[k].2 as int,
                ) == EMPTY,
        decreases cells.len() - n,
    {
        let (x, y, z) = cells[n];
        if grid.get_entry(x, y, z) != EMPTY {
            proof {
                if grid.reached_by(t) {
                    let c = point_of(cells@[n as int]);
                    assert(boxed(t, c) && cuts(t, c));
                }
            }
            return false;
        }
        n = n + 1;
    }
    proof {
        if grid.reached_by(t) {
            let end = (high(t).0, low(t).1, low(t).2);
            assert forall|c: Point| boxed(t, c) && #[trigger] cuts(t, c) implies grid.entry(
                c.0,
                c.1,
                c.2,
            ) == EMPTY by {
                assert(before(c, end));
                let k = choose|k: int| 0 <= k < cells@.len() && point_of(#[trigger] cells@[k]) == c;
                assert(grid.entry(cells@[k].0 as int, cells@[k].1 as int, cells@[k].2 as int)
                    == EMPTY);
            }
        }
    }
    true
}

} // verus!
