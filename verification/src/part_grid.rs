//! The cells of a ship that parts occupy.

use vstd::prelude::*;
use crate::grid::GridCollider;
use crate::grid::IndexedIterator;
use crate::grid::shape_fits;
use crate::grid::EMPTY;
use crate::growth::Cell;
use crate::growth::holds;
use crate::part::Part;
use crate::part::PartLayout;

verus! {

/// The cells of a list of layouts.
pub open spec fn cells_of(layouts: Seq<PartLayout>) -> Seq<Cell> {
    Seq::new(layouts.len(), |n: int| (layouts[n].x, layouts[n].y, layouts[n].z))
}

/// Lists the cells of the layouts.
fn to_cells(layouts: &Vec<PartLayout>) -> (cells: Vec<Cell>)
    ensures
        cells@ == cells_of(layouts@),
{
    let mut cells: Vec<Cell> = Vec::new();
    let mut n: usize = 0;
    while n < layouts.len()
        invariant
            n <= layouts.len(),
            cells@.len() == n,
            forall|m: int|
                0 <= m < n ==> cells@[m] == (layouts@[m].x, layouts@[m].y, layouts@[m].z),
        decreases layouts.len() - n,
    {
        let block = layouts[n];
        cells.push((block.x, block.y, block.z));
        n = n + 1;
    }
    assert(cells@ =~= cells_of(layouts@));
    cells
}

/// Writes the occupant `data` into every cell that the part fills when it
/// is laid out at `layout`, growing the grid where a cell lies outside it.
/// Returns `false` and leaves the grid unchanged when the grown bounds
/// cannot be represented.
pub fn add_part_to_grid(
    collider: &mut GridCollider,
    part: &Part,
    layout: PartLayout,
    data: usize,
) -> (done: bool)
    requires
        old(collider).wf(),
        part.fits_at(layout),
        data <= isize::MAX,
    ensures
        final(collider).wf(),
        done == old(collider).grown_fits(cells_of(part.blocks(layout))),
        !done ==> *final(collider) == *old(collider),
        done ==> final(collider).covers(old(collider)),
        done ==> forall|i: int, j: int, k: int|
            final(collider).entry(i, j, k) == if holds(cells_of(part.blocks(layout)), i, j, k) {
                data as isize
            } else {
                old(collider).entry(i, j, k)
            },
{
    let blocks = part.get_blocks(layout);
    let cells = to_cells(&blocks);
    collider.insert(&cells, data as isize)
}

/// Whether every cell that the part fills when it is laid out at `layout`
/// is empty.
pub fn is_new_part_allowed(grid: &GridCollider, part: Part, layout: PartLayout) -> (free: bool)
    requires
        grid.wf(),
        part.fits_at(layout),
    ensures
        free == forall|n: int|
            0 <= n < part.blocks(layout).len() ==> grid.entry(
                (#[trigger] part.blocks(layout)[n]).x as int,
                part.blocks(layout)[n].y as int,
                part.blocks(layout)[n].z as int,
            ) == EMPTY,
{
    let blocks = part.get_blocks(layout);
    let mut n: usize = 0;
    while n < blocks.len()
        invariant
            grid.wf(),
            blocks@ == part.blocks(layout),
            n <= blocks.len(),
            forall|k: int|
                0 <= k < n ==> grid.entry(
                    (#[trigger] blocks@[k]).x as int,
                    blocks@[k].y as int,
                    blocks@[k].z as int,
                ) == EMPTY,
        decreases blocks.len() - n,
    {
        let block = blocks[n];
        if grid.get_entry(block.x, block.y, block.z) != EMPTY {
            assert(grid.entry(
                blocks@[n as int].x as int,
                blocks@[n as int].y as int,
                blocks@[n as int].z as int,
            ) != EMPTY);
            return false;
        }
        n = n + 1;
    }
    true
}

/// The grid of a ship, filled part by part.
pub struct PartGrid {
    grid: GridCollider,
}

impl PartGrid {
    /// The grid that holds the cells.
    pub closed spec fn view(&self) -> GridCollider {
        self.grid
    }

    /// The grid is well formed.
    pub open spec fn wf(&self) -> bool {
        self@.wf()
    }

    /// A grid with no cells at all.
    pub fn new() -> (g: Self)
        ensures
            g.wf(),
            g@.spec_x() == 0 && g@.spec_y() == 0 && g@.spec_z() == 0,
            g@.spec_cx() == 0 && g@.spec_cy() == 0 && g@.spec_cz() == 0,
            forall|x: int, y: int, z: int| g@.entry(x, y, z) == EMPTY,
    {
        PartGrid { grid: GridCollider::new() }
    }

    /// A grid of the given extents at offset zero, every cell empty.
    pub fn with_capacity(x: u32, y: u32, z: u32) -> (g: Self)
        requires
            shape_fits(x as int, y as int, z as int, 0, 0, 0),
        ensures
            g.wf(),
            g@.spec_x() == x && g@.spec_y() == y && g@.spec_z() == z,
            g@.spec_cx() == 0 && g@.spec_cy() == 0 && g@.spec_cz() == 0,
            forall|i: int, j: int, k: int| g@.entry(i, j, k) == EMPTY,
    {
        PartGrid { grid: GridCollider::with_capacity(x, y, z) }
    }

    /// The grid entry at this world-grid position, `EMPTY` outside the
    /// bounds.
    pub fn get_entry(&self, x: i32, y: i32, z: i32) -> (e: isize)
        requires
            self.wf(),
        ensures
            e == self@.entry(x as int, y as int, z as int),
    {
        self.grid.get_entry(x, y, z)
    }

    /// Writes the occupant `data` into every cell that the part fills when
    /// it is laid out at `layout`, growing the grid where a cell lies
    /// outside it. Returns `false` and leaves the grid unchanged when the
    /// grown bounds cannot be represented.
    pub fn update(&mut self, part: &Part, layout: PartLayout, data: usize) -> (done: bool)
        requires
            old(self).wf(),
            part.fits_at(layout),
            data <= isize::MAX,
        ensures
            final(self).wf(),
            done == old(self)@.grown_fits(cells_of(part.blocks(layout))),
            !done ==> final(self)@ == old(self)@,
            done ==> final(self)@.covers(&old(self)@),
            done ==> forall|i: int, j: int, k: int|
                final(self)@.entry(i, j, k) == if holds(cells_of(part.blocks(layout)), i, j, k) {
                    data as isize
                } else {
                    old(self)@.entry(i, j, k)
                },
    {
        add_part_to_grid(&mut self.grid, part, layout, data)
    }

    /// A cursor over every cell of the backing store, empty cells
    /// included, in storage order.
    pub fn indexed_iter<'a>(&'a self) -> (it: IndexedIterator<'a>)
        requires
            self.wf(),
        ensures
            it.wf(),
            *it.grid() == self@,
            it.position() == 0,
    {
        self.grid.indexed_iter()
    }
}

} // verus!
