//! Writing an occupant into a set of cells, growing the grid on demand.

use vstd::prelude::*;
use crate::grid::GridCollider;
use crate::grid::shape_fits;
use crate::grid::COORD_END;
use crate::grid::EMPTY;

verus! {

/// A world-grid cell.
pub type Cell = (i32, i32, i32);

/// The coordinate of `cell` along `axis` (0, 1 or 2).
pub open spec fn coord(cell: Cell, axis: int) -> int {
    if axis == 0 {
        cell.0 as int
    } else if axis == 1 {
        cell.1 as int
    } else {
        cell.2 as int
    }
}

/// The lowest array coordinate along `axis` that bounds starting at 0 must
/// reach down to in order to hold every cell, under the given offset.
pub open spec fn low_edge(cells: Seq<Cell>, axis: int, offset: int) -> int
    decreases cells.len(),
{
    if cells.len() == 0 {
        0
    } else {
        let rest = low_edge(cells.drop_last(), axis, offset);
        let here = coord(cells.last(), axis) + offset;
        if here < rest {
            here
        } else {
            rest
        }
    }
}

/// One more than the highest array coordinate along `axis` that bounds
/// ending at `extent` must reach up to in order to hold every cell.
pub open spec fn high_edge(cells: Seq<Cell>, axis: int, offset: int, extent: int) -> int
    decreases cells.len(),
{
    if cells.len() == 0 {
        extent
    } else {
        let rest = high_edge(cells.drop_last(), axis, offset, extent);
        let here = coord(cells.last(), axis) + offset + 1;
        if here > rest {
            here
        } else {
            rest
        }
    }
}

/// Whether `cells` holds the world-grid cell `(i, j, k)`.
pub open spec fn holds(cells: Seq<Cell>, i: int, j: int, k: int) -> bool {
    exists|n: int|
        0 <= n < cells.len() && (#[trigger] cells[n]).0 == i && cells[n].1 == j && cells[n].2 == k
}

/// The edges bound every cell of the list.
pub proof fn lemma_edges_bound(cells: Seq<Cell>, axis: int, offset: int, extent: int, n: int)
    requires
        0 <= n < cells.len(),
    ensures
        low_edge(cells, axis, offset) <= coord(cells[n], axis) + offset < high_edge(
            cells,
            axis,
            offset,
            extent,
        ),
        low_edge(cells, axis, offset) <= 0,
        extent <= high_edge(cells, axis, offset, extent),
    decreases cells.len(),
{
    lemma_edges_enclose(cells, axis, offset, extent);
    if n < cells.len() - 1 {
        lemma_edges_bound(cells.drop_last(), axis, offset, extent, n);
    }
}

/// The edges never fall inside the bounds that they start from.
pub proof fn lemma_edges_enclose(cells: Seq<Cell>, axis: int, offset: int, extent: int)
    ensures
        low_edge(cells, axis, offset) <= 0,
        extent <= high_edge(cells, axis, offset, extent),
    decreases cells.len(),
{
    if cells.len() > 0 {
        lemma_edges_enclose(cells.drop_last(), axis, offset, extent);
    }
}

impl GridCollider {
    /// Lowest array coordinate, under the current offset, of the smallest
    /// bounds that hold the current ones and every cell of `cells`.
    pub open spec fn grown_low(&self, cells: Seq<Cell>, axis: int) -> int {
        if axis == 0 {
            low_edge(cells, 0, self.spec_cx() as int)
        } else if axis == 1 {
            low_edge(cells, 1, self.spec_cy() as int)
        } else {
            low_edge(cells, 2, self.spec_cz() as int)
        }
    }

    /// One more than the highest array coordinate, under the current
    /// offset, of the smallest bounds that hold the current ones and every
    /// cell of `cells`.
    pub open spec fn grown_high(&self, cells: Seq<Cell>, axis: int) -> int {
        if axis == 0 {
            high_edge(cells, 0, self.spec_cx() as int, self.spec_x() as int)
        } else if axis == 1 {
            high_edge(cells, 1, self.spec_cy() as int, self.spec_y() as int)
        } else {
            high_edge(cells, 2, self.spec_cz() as int, self.spec_z() as int)
        }
    }

    /// Extent along `axis` of the grown bounds.
    pub open spec fn grown_extent(&self, cells: Seq<Cell>, axis: int) -> int {
        self.grown_high(cells, axis) - self.grown_low(cells, axis)
    }

    /// Offset along `axis` of the grown bounds.
    pub open spec fn grown_offset(&self, cells: Seq<Cell>, axis: int) -> int {
        if axis == 0 {
            self.spec_cx() - self.grown_low(cells, 0)
        } else if axis == 1 {
            self.spec_cy() - self.grown_low(cells, 1)
        } else {
            self.spec_cz() - self.grown_low(cells, 2)
        }
    }

    /// Whether the grown bounds can be represented.
    pub open spec fn grown_fits(&self, cells: Seq<Cell>) -> bool {
        &&& self.grown_extent(cells, 0) <= u32::MAX
        &&& self.grown_extent(cells, 1) <= u32::MAX
        &&& self.grown_extent(cells, 2) <= u32::MAX
        &&& self.grown_offset(cells, 0) <= i32::MAX
        &&& self.grown_offset(cells, 1) <= i32::MAX
        &&& self.grown_offset(cells, 2) <= i32::MAX
        &&& shape_fits(
            self.grown_extent(cells, 0),
            self.grown_extent(cells, 1),
            self.grown_extent(cells, 2),
            self.grown_offset(cells, 0),
            self.grown_offset(cells, 1),
            self.grown_offset(cells, 2),
        )
    }
}

/// The three low edges and the three high edges of the smallest bounds that
/// hold `[0, x) x [0, y) x [0, z)` and every cell, under the given offset.
fn edges(cells: &Vec<Cell>, x: u32, y: u32, z: u32, cx: i32, cy: i32, cz: i32) -> (r: (
    (i64, i64, i64),
    (i64, i64, i64),
))
    ensures
        r.0.0 == low_edge(cells@, 0, cx as int),
        r.0.1 == low_edge(cells@, 1, cy as int),
        r.0.2 == low_edge(cells@, 2, cz as int),
        r.1.0 == high_edge(cells@, 0, cx as int, x as int),
        r.1.1 == high_edge(cells@, 1, cy as int, y as int),
        r.1.2 == high_edge(cells@, 2, cz as int, z as int),
        -0x1_0000_0000 <= r.0.0 <= 0 && -0x1_0000_0000 <= r.0.1 <= 0 && -0x1_0000_0000 <= r.0.2
            <= 0,
        x <= r.1.0 <= 0x1_0000_0000 && y <= r.1.1 <= 0x1_0000_0000 && z <= r.1.2 <= 0x1_0000_0000,
{
    let mut lx: i64 = 0;
    let mut ly: i64 = 0;
    let mut lz: i64 = 0;
    let mut hx: i64 = x as i64;
    let mut hy: i64 = y as i64;
    let mut hz: i64 = z as i64;
    let mut n: usize = 0;
    while n < cells.len()
        invariant
            n <= cells.len(),
            lx == low_edge(cells@.take(n as int), 0, cx as int),
            ly == low_edge(cells@.take(n as int), 1, cy as int),
            lz == low_edge(cells@.take(n as int), 2, cz as int),
            hx == high_edge(cells@.take(n as int), 0, cx as int, x as int),
            hy == high_edge(cells@.take(n as int), 1, cy as int, y as int),
            hz == high_edge(cells@.take(n as int), 2, cz as int, z as int),
            -0x1_0000_0000 <= lx <= 0 && -0x1_0000_0000 <= ly <= 0 && -0x1_0000_0000 <= lz <= 0,
            x <= hx <= 0x1_0000_0000 && y <= hy <= 0x1_0000_0000 && z <= hz <= 0x1_0000_0000,
        decreases cells.len() - n,
    {
        let cell = cells[n];
        proof {
            assert(cells@.take(n + 1).drop_last() == cells@.take(n as int));
            assert(cells@.take(n + 1).last() == cell);
        }
        let ax: i64 = cell.0 as i64 + cx as i64;
        let ay: i64 = cell.1 as i64 + cy as i64;
        let az: i64 = cell.2 as i64 + cz as i64;
        if ax < lx {
            lx = ax;
        }
        if ay < ly {
            ly = ay;
        }
        if az < lz {
            lz = az;
        }
        if ax + 1 > hx {
            hx = ax + 1;
        }
        if ay + 1 > hy {
            hy = ay + 1;
        }
        if az + 1 > hz {
            hz = az + 1;
        }
        n = n + 1;
    }
    proof {
        assert(cells@.take(cells.len() as int) == cells@);
    }
    ((lx, ly, lz), (hx, hy, hz))
}

/// Whether a grid with these extents and this offset can be represented.
fn fits(ex: i64, ey: i64, ez: i64, ox: i64, oy: i64, oz: i64) -> (r: bool)
    requires
        0 <= ex <= 0x2_0000_0000 && 0 <= ey <= 0x2_0000_0000 && 0 <= ez <= 0x2_0000_0000,
        -0x2_0000_0000 <= ox <= 0x2_0000_0000,
        -0x2_0000_0000 <= oy <= 0x2_0000_0000,
        -0x2_0000_0000 <= oz <= 0x2_0000_0000,
    ensures
        r == (ex <= u32::MAX && ey <= u32::MAX && ez <= u32::MAX && ox <= i32::MAX && oy
            <= i32::MAX && oz <= i32::MAX && shape_fits(
            ex as int,
            ey as int,
            ez as int,
            ox as int,
            oy as int,
            oz as int,
        )),
{
    if ex > u32::MAX as i64 || ey > u32::MAX as i64 || ez > u32::MAX as i64 {
        return false;
    }
    if ox > i32::MAX as i64 || oy > i32::MAX as i64 || oz > i32::MAX as i64 {
        return false;
    }
    if ex - ox > COORD_END || ey - oy > COORD_END || ez - oz > COORD_END {
        return false;
    }
    assert(0 <= ex * ey <= 0x1_0000_0000 * 0x1_0000_0000) by (nonlinear_arith)
        requires 0 <= ex <= 0x1_0000_0000, 0 <= ey <= 0x1_0000_0000;
    let xy: u128 = (ex as u128) * (ey as u128);
    assert(0 <= xy * ez <= 0x1_0000_0000 * 0x1_0000_0000 * 0x1_0000_0000) by (nonlinear_arith)
        requires 0 <= xy <= 0x1_0000_0000 * 0x1_0000_0000, 0 <= ez <= 0x1_0000_0000;
    let xyz: u128 = xy * (ez as u128);
    xyz <= u32::MAX as u128
}

impl GridCollider {
    /// Writes the occupant `id` into every cell of `cells`. Where a cell
    /// lies outside the bounds, the grid first grows to the smallest bounds
    /// that hold the current ones and every cell of `cells`. Returns `false`
    /// and leaves the grid unchanged when those bounds cannot be
    /// represented.
    pub fn insert(&mut self, cells: &Vec<Cell>, id: isize) -> (done: bool)
        requires
            old(self).wf(),
        ensures
            final(self).wf(),
            done == old(self).grown_fits(cells@),
            !done ==> *final(self) == *old(self),
            done ==> {
                &&& final(self).spec_x() == old(self).grown_extent(cells@, 0)
                &&& final(self).spec_y() == old(self).grown_extent(cells@, 1)
                &&& final(self).spec_z() == old(self).grown_extent(cells@, 2)
                &&& final(self).spec_cx() == old(self).grown_offset(cells@, 0)
                &&& final(self).spec_cy() == old(self).grown_offset(cells@, 1)
                &&& final(self).spec_cz() == old(self).grown_offset(cells@, 2)
                &&& final(self).covers(old(self))
                &&& written(old(self), final(self), cells@, id)
            },
    {
        let (lo, hi) = edges(cells, self.x(), self.y(), self.z(), self.cx(), self.cy(), self.cz());
        let ex: i64 = hi.0 - lo.0;
        let ey: i64 = hi.1 - lo.1;
        let ez: i64 = hi.2 - lo.2;
        let ox: i64 = self.cx() as i64 - lo.0;
        let oy: i64 = self.cy() as i64 - lo.1;
        let oz: i64 = self.cz() as i64 - lo.2;
        if !fits(ex, ey, ez, ox, oy, oz) {
            return false;
        }
        if ex as u32 != self.x() || ey as u32 != self.y() || ez as u32 != self.z() || ox as i32
            != self.cx() || oy as i32 != self.cy() || oz as i32 != self.cz() {
            self.reshape(ex as u32, ey as u32, ez as u32, ox as i32, oy as i32, oz as i32);
        }
        let ghost grown = *self;
        assert(grown.covers(old(self)));
        assert forall|i: int, j: int, k: int| grown.entry(i, j, k) == old(self).entry(i, j, k) by {
        }
        let mut n: usize = 0;
        while n < cells.len()
            invariant
                n <= cells.len(),
                self.wf(),
                self.same_shape(&grown),
                grown.spec_x() == old(self).grown_extent(cells@, 0),
                grown.spec_y() == old(self).grown_extent(cells@, 1),
                grown.spec_z() == old(self).grown_extent(cells@, 2),
                grown.spec_cx() == old(self).grown_offset(cells@, 0),
                grown.spec_cy() == old(self).grown_offset(cells@, 1),
                grown.spec_cz() == old(self).grown_offset(cells@, 2),
                forall|i: int, j: int, k: int|
                    self.entry(i, j, k) == if holds(cells@.take(n as int), i, j, k) {
                        id
                    } else {
                        old(self).entry(i, j, k)
                    },
            decreases cells.len() - n,
        {
            let cell = cells[n];
            let ghost before = *self;
            proof {
                lemma_edges_bound(cells@, 0, old(self).spec_cx() as int, old(self).spec_x() as int, n as int);
                lemma_edges_bound(cells@, 1, old(self).spec_cy() as int, old(self).spec_y() as int, n as int);
                lemma_edges_bound(cells@, 2, old(self).spec_cz() as int, old(self).spec_z() as int, n as int);
                assert(self.in_bounds(cell.0 as int, cell.1 as int, cell.2 as int));
            }
            match self.get_entry_mut(cell.0, cell.1, cell.2) {
                Some(slot) => {
                    *slot = id;
                },
                None => {},
            }
            proof {
                let done = cells@.take(n as int);
                let more = cells@.take(n + 1);
                assert(more[n as int] == cell);
                assert forall|i: int, j: int, k: int|
                    self.entry(i, j, k) == if holds(more, i, j, k) {
                        id
                    } else {
                        old(self).entry(i, j, k)
                    } by {
                    if holds(done, i, j, k) {
                        let m = choose|m: int|
                            0 <= m < done.len() && (#[trigger] done[m]).0 == i && done[m].1 == j
                                && done[m].2 == k;
                        assert(more[m] == done[m]);
                    }
                    if holds(more, i, j, k) {
                        let m = choose|m: int|
                            0 <= m < more.len() && (#[trigger] more[m]).0 == i && more[m].1 == j
                                && more[m].2 == k;
                        if m < n {
                            assert(done[m] == more[m]);
                        }
                    }
                }
            }
            n = n + 1;
        }
        proof {
            assert(cells@.take(cells.len() as int) == cells@);
        }
        true
    }
}

/// Whether `after` is `before` with the occupant `id` written into every
/// cell of `cells`.
pub open spec fn written(before: &GridCollider, after: &GridCollider, cells: Seq<Cell>, id: isize) -> bool {
    forall|i: int, j: int, k: int|
        after.entry(i, j, k) == if holds(cells, i, j, k) {
            id
        } else {
            before.entry(i, j, k)
        }
}

/// After an occupant is written into a set of cells, a point query at any
/// of those cells finds that occupant, and a point query at any other cell
/// finds what it found before: nothing, where the cell was empty.
pub proof fn lemma_written_cells_are_found(
    before: &GridCollider,
    after: &GridCollider,
    cells: Seq<Cell>,
    id: isize,
    n: int,
    x: int,
    y: int,
    z: int,
)
    requires
        written(before, after, cells, id),
        id != EMPTY,
        0 <= n < cells.len(),
    ensures
        after.occupant(cells[n].0 as int, cells[n].1 as int, cells[n].2 as int) == Some(id),
        !holds(cells, x, y, z) ==> after.occupant(x, y, z) == before.occupant(x, y, z),
        !holds(cells, x, y, z) && before.entry(x, y, z) == EMPTY ==> after.occupant(x, y, z)
            .is_none(),
{
    assert(holds(cells, cells[n].0 as int, cells[n].1 as int, cells[n].2 as int));
}

} // verus!
