//! Voxel traversal: the cells that a lattice segment visits in a grid, and
//! the first occupied one among them.
//!
//! A segment runs from a start cell to an end cell. It takes as many steps
//! as the largest of its three displacements is long, and after `k` of its
//! `m` steps it stands in the cell nearest to the point `k / m` of the way
//! from the start to the end.

use vstd::prelude::*;
use vstd::arithmetic::div_mod::lemma_fundamental_div_mod;
use vstd::arithmetic::div_mod::lemma_fundamental_div_mod_converse;
use vstd::arithmetic::div_mod::lemma_mod_pos_bound;
use crate::grid::GridCollider;
use crate::grid::EMPTY;

verus! {

/// A segment as the traversal sees it: the cell it starts in and the cell
/// it ends in.
#[derive(Clone, Copy, Debug)]
pub struct VoxelLine {
    pub start: (i32, i32, i32),
    pub end: (i32, i32, i32),
}

/// The distance between two coordinates.
pub open spec fn span(a: int, b: int) -> int {
    if b >= a {
        b - a
    } else {
        a - b
    }
}

/// How far a coordinate with displacement `d` has come after `k` of `m`
/// steps: `k * d / m`, rounded to the nearest integer, a half upward.
pub open spec fn advance(k: int, d: int, m: int) -> int {
    if m <= 0 {
        0
    } else {
        (2 * k * d + m) / (2 * m)
    }
}

/// The coordinate after `k` of `m` steps on the way from `a` to `b`.
pub open spec fn coordinate_at(a: int, b: int, k: int, m: int) -> int {
    if b >= a {
        a + advance(k, b - a, m)
    } else {
        a - advance(k, a - b, m)
    }
}

/// What is left over when `2 * k * d + m` is divided by `2 * m` with
/// quotient `a`, counted from `2 * d - 2 * m`: the error accumulator of the
/// stepping rule.
pub open spec fn residue(k: int, d: int, m: int, a: int) -> int {
    2 * d - m + 2 * d * k - 2 * m * a
}

impl VoxelLine {
    /// Number of steps from the start cell to the end cell: the largest of
    /// the three displacements.
    pub open spec fn steps(&self) -> int {
        let dx = span(self.start.0 as int, self.end.0 as int);
        let dy = span(self.start.1 as int, self.end.1 as int);
        let dz = span(self.start.2 as int, self.end.2 as int);
        if dx >= dy && dx >= dz {
            dx
        } else if dy >= dz {
            dy
        } else {
            dz
        }
    }

    /// The cell in which the segment stands after `k` steps.
    pub open spec fn cell_at(&self, k: int) -> (int, int, int) {
        (
            coordinate_at(self.start.0 as int, self.end.0 as int, k, self.steps()),
            coordinate_at(self.start.1 as int, self.end.1 as int, k, self.steps()),
            coordinate_at(self.start.2 as int, self.end.2 as int, k, self.steps()),
        )
    }
}

impl GridCollider {
    /// What the grid holds in the cell in which the segment stands after
    /// `k` steps.
    pub open spec fn on_path(&self, line: &VoxelLine, k: int) -> isize {
        self.entry(line.cell_at(k).0, line.cell_at(k).1, line.cell_at(k).2)
    }

    /// Whether the cell after `k` steps is the first occupied cell of the
    /// segment.
    pub open spec fn first_occupied(&self, line: &VoxelLine, k: int) -> bool {
        &&& 0 <= k <= line.steps()
        &&& self.on_path(line, k) != EMPTY
        &&& forall|j: int| 0 <= j < k ==> #[trigger] self.on_path(line, j) == EMPTY
    }
}

/// Before the first step nothing has advanced.
pub proof fn lemma_advance_start(d: int, m: int)
    requires
        0 <= d <= m,
    ensures
        advance(0, d, m) == 0,
        m > 0 ==> residue(0, d, m, 0) == 2 * d - m,
{
    if m > 0 {
        assert(2 * 0 * d + m == 0 * (2 * m) + m) by (nonlinear_arith);
        lemma_fundamental_div_mod_converse(2 * 0 * d + m, 2 * m, 0, m);
        assert(residue(0, d, m, 0) == 2 * d - m) by (nonlinear_arith);
    }
}

/// After the last step every coordinate has come the whole way.
pub proof fn lemma_advance_end(d: int, m: int)
    requires
        0 <= d <= m,
    ensures
        advance(m, d, m) == d,
{
    if m > 0 {
        assert(2 * m * d + m == d * (2 * m) + m) by (nonlinear_arith);
        lemma_fundamental_div_mod_converse(2 * m * d + m, 2 * m, d, m);
    }
}

/// One step of the stepping rule: a coordinate advances exactly where its
/// accumulator is not negative, and the accumulator goes on as the residue
/// of the next step.
pub proof fn lemma_advance_next(k: int, d: int, m: int, a: int, e: int)
    requires
        0 <= d <= m,
        0 < m,
        0 <= k < m,
        a == advance(k, d, m),
        e == residue(k, d, m, a),
        2 * d - 2 * m <= e < 2 * d,
    ensures
        ({
            let a1 = if e >= 0 {
                a + 1
            } else {
                a
            };
            let e1 = if e >= 0 {
                e - 2 * m + 2 * d
            } else {
                e + 2 * d
            };
            &&& advance(k + 1, d, m) == a1
            &&& e1 == residue(k + 1, d, m, a1)
            &&& 2 * d - 2 * m <= e1 < 2 * d
            &&& a <= a1 <= d
        }),
{
    let a1 = if e >= 0 {
        a + 1
    } else {
        a
    };
    let e1 = if e >= 0 {
        e - 2 * m + 2 * d
    } else {
        e + 2 * d
    };
    let r1 = e1 - 2 * d + 2 * m;
    assert(e1 == residue(k + 1, d, m, a1)) by (nonlinear_arith)
        requires
            e == 2 * d - m + 2 * d * k - 2 * m * a,
            residue(k + 1, d, m, a1) == 2 * d - m + 2 * d * (k + 1) - 2 * m * a1,
            e1 == (if e >= 0 {
                e - 2 * m + 2 * d
            } else {
                e + 2 * d
            }),
            a1 == (if e >= 0 {
                a + 1
            } else {
                a
            }),
    ;
    assert(2 * (k + 1) * d + m == a1 * (2 * m) + r1) by (nonlinear_arith)
        requires
            e1 == 2 * d - m + 2 * d * (k + 1) - 2 * m * a1,
            r1 == e1 - 2 * d + 2 * m,
    ;
    lemma_fundamental_div_mod_converse(2 * (k + 1) * d + m, 2 * m, a1, r1);
    assert(a1 <= d) by (nonlinear_arith)
        requires
            2 * (k + 1) * d + m == a1 * (2 * m) + r1,
            0 <= r1,
            k + 1 <= m,
            0 <= d,
            0 < m,
    ;
}

/// After `k` of `m` steps a coordinate stands within half a cell of the
/// point `k / m` of the way along its displacement, and the next step
/// takes it on by one cell or leaves it where it is.
pub proof fn lemma_advance_nearest(k: int, d: int, m: int)
    requires
        0 <= d <= m,
        0 < m,
        0 <= k < m,
    ensures
        -m <= 2 * k * d - 2 * m * advance(k, d, m) < m,
        advance(k, d, m) <= advance(k + 1, d, m) <= advance(k, d, m) + 1,
        0 <= advance(k, d, m) <= d,
{
    let n = 2 * k * d + m;
    let a = advance(k, d, m);
    let r = n % (2 * m);
    lemma_fundamental_div_mod(n, 2 * m);
    lemma_mod_pos_bound(n, 2 * m);
    assert(n == 2 * m * a + r);
    let e = r + 2 * d - 2 * m;
    assert(e == residue(k, d, m, a)) by (nonlinear_arith)
        requires
            2 * k * d + m == 2 * m * a + r,
            e == r + 2 * d - 2 * m,
            residue(k, d, m, a) == 2 * d - m + 2 * d * k - 2 * m * a,
    ;
    lemma_advance_next(k, d, m, a, e);
    assert(0 <= a) by (nonlinear_arith)
        requires
            2 * k * d + m == 2 * m * a + r,
            r < 2 * m,
            0 <= k,
            0 <= d,
            0 < m,
    ;
}

/// A segment starts in its start cell and ends in its end cell.
pub proof fn lemma_path_ends(line: &VoxelLine)
    ensures
        line.cell_at(0) == (line.start.0 as int, line.start.1 as int, line.start.2 as int),
        line.cell_at(line.steps()) == (line.end.0 as int, line.end.1 as int, line.end.2 as int),
{
    let m = line.steps();
    lemma_advance_start(span(line.start.0 as int, line.end.0 as int), m);
    lemma_advance_start(span(line.start.1 as int, line.end.1 as int), m);
    lemma_advance_start(span(line.start.2 as int, line.end.2 as int), m);
    lemma_advance_end(span(line.start.0 as int, line.end.0 as int), m);
    lemma_advance_end(span(line.start.1 as int, line.end.1 as int), m);
    lemma_advance_end(span(line.start.2 as int, line.end.2 as int), m);
}

/// A segment that stays in one cell stands in that cell throughout.
pub proof fn lemma_path_of_one_cell(line: &VoxelLine)
    requires
        line.start == line.end,
    ensures
        line.steps() == 0,
        line.cell_at(0) == (line.start.0 as int, line.start.1 as int, line.start.2 as int),
{
    lemma_path_ends(line);
}

/// The distance between two coordinates, and whether the second is not
/// below the first.
fn span_of(a: i32, b: i32) -> (r: (i64, bool))
    ensures
        r.0 == span(a as int, b as int),
        r.1 == (b >= a),
        0 <= r.0 <= 0xffff_ffff,
{
    if b >= a {
        (b as i64 - a as i64, true)
    } else {
        (a as i64 - b as i64, false)
    }
}

/// One coordinate of a segment on its way.
struct Axis {
    /// Where the coordinate stands.
    at: i64,
    /// The error accumulator.
    e: i64,
    /// The displacement.
    d: i64,
    /// Whether the coordinate rises.
    up: bool,
}

impl Axis {
    /// The coordinate stands where it should after `k` of `m` steps from
    /// `a` to `b`, and the accumulator is the residue of that step.
    spec fn wf(&self, a: int, b: int, k: int, m: int) -> bool {
        &&& self.d == span(a, b)
        &&& self.up == (b >= a)
        &&& 0 <= self.d <= m <= 0xffff_ffff
        &&& 0 <= k <= m
        &&& self.at == coordinate_at(a, b, k, m)
        &&& 0 <= advance(k, self.d as int, m) <= self.d
        &&& m > 0 ==> self.e == residue(k, self.d as int, m, advance(k, self.d as int, m))
        &&& m > 0 ==> 2 * self.d - 2 * m <= self.e < 2 * self.d
    }

    fn new(a: i32, b: i32, Ghost(m): Ghost<int>, steps: i64) -> (r: Axis)
        requires
            steps == m,
            span(a as int, b as int) <= m <= 0xffff_ffff,
        ensures
            r.wf(a as int, b as int, 0, m),
    {
        let (d, up) = span_of(a, b);
        proof {
            lemma_advance_start(d as int, m);
        }
        Axis { at: a as i64, e: 2 * d - steps, d, up }
    }

    fn step(&mut self, Ghost(a): Ghost<int>, Ghost(b): Ghost<int>, Ghost(k): Ghost<int>, steps: i64)
        requires
            old(self).wf(a, b, k, steps as int),
            k < steps,
            i32::MIN <= a <= i32::MAX,
            i32::MIN <= b <= i32::MAX,
        ensures
            final(self).wf(a, b, k + 1, steps as int),
    {
        proof {
            lemma_advance_next(
                k,
                self.d as int,
                steps as int,
                advance(k, self.d as int, steps as int),
                self.e as int,
            );
        }
        if self.e >= 0 {
            if self.up {
                self.at = self.at + 1;
            } else {
                self.at = self.at - 1;
            }
            self.e = self.e - 2 * steps;
        }
        self.e = self.e + 2 * self.d;
    }
}

impl GridCollider {
    /// Walks the cells of `line` from its start cell to its end cell and
    /// reports the first occupied one with its occupant, `None` where
    /// every cell on the way is empty.
    pub fn check_line(&self, line: &VoxelLine) -> (hit: Option<((i32, i32, i32), isize)>)
        requires
            self.wf(),
        ensures
            hit matches Some((c, e)) ==> exists|k: int| #[trigger]
                self.first_occupied(line, k) && line.cell_at(k) == (
                    c.0 as int,
                    c.1 as int,
                    c.2 as int,
                ) && e == self.on_path(line, k),
            hit.is_none() ==> forall|k: int|
                0 <= k <= line.steps() ==> #[trigger] self.on_path(line, k) == EMPTY,
    {
        let (dx, _) = span_of(line.start.0, line.end.0);
        let (dy, _) = span_of(line.start.1, line.end.1);
        let (dz, _) = span_of(line.start.2, line.end.2);
        let steps: i64 = if dx >= dy && dx >= dz {
            dx
        } else if dy >= dz {
            dy
        } else {
            dz
        };
        let ghost m = line.steps();
        let ghost (ax, bx) = (line.start.0 as int, line.end.0 as int);
        let ghost (ay, by) = (line.start.1 as int, line.end.1 as int);
        let ghost (az, bz) = (line.start.2 as int, line.end.2 as int);
        let mut x = Axis::new(line.start.0, line.end.0, Ghost(m), steps);
        let mut y = Axis::new(line.start.1, line.end.1, Ghost(m), steps);
        let mut z = Axis::new(line.start.2, line.end.2, Ghost(m), steps);
        let mut k: i64 = 0;
        loop
            invariant
                self.wf(),
                steps == m,
                m == line.steps(),
                (ax, bx) == (line.start.0 as int, line.end.0 as int),
                (ay, by) == (line.start.1 as int, line.end.1 as int),
                (az, bz) == (line.start.2 as int, line.end.2 as int),
                0 <= k <= steps,
                x.wf(ax, bx, k as int, m),
                y.wf(ay, by, k as int, m),
                z.wf(az, bz, k as int, m),
                forall|j: int| 0 <= j < k ==> #[trigger] self.on_path(line, j) == EMPTY,
            decreases steps - k,
        {
            assert(line.cell_at(k as int) == (x.at as int, y.at as int, z.at as int));
            let entry = self.get_entry(x.at as i32, y.at as i32, z.at as i32);
            if entry != EMPTY {
                assert(self.first_occupied(line, k as int));
                return Some(((x.at as i32, y.at as i32, z.at as i32), entry));
            }
            if k == steps {
                return None;
            }
            x.step(Ghost(ax), Ghost(bx), Ghost(k as int), steps);
            y.step(Ghost(ay), Ghost(by), Ghost(k as int), steps);
            z.step(Ghost(az), Ghost(bz), Ghost(k as int), steps);
            k = k + 1;
        }
    }
}

} // verus!
