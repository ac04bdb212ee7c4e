//! A dense, offset voxel grid mapping world-grid cells to occupant ids.

use vstd::prelude::*;
use vstd::arithmetic::div_mod::lemma_fundamental_div_mod;
use vstd::arithmetic::div_mod::lemma_fundamental_div_mod_converse;
use vstd::arithmetic::div_mod::lemma_mod_pos_bound;

verus! {

/// The value stored in a cell that nobody occupies.
pub const EMPTY: isize = -1;

/// One more than the largest world-grid coordinate.
pub const COORD_END: i64 = 0x8000_0000;

/// Position of array cell `(a, b, c)` in the backing store of a grid whose
/// first two extents are `x` and `y`.
pub open spec fn linear_index(a: int, b: int, c: int, x: int, y: int) -> int {
    a + b * x + c * x * y
}

/// The array cell that sits at position `i` of the backing store of a grid
/// whose first two extents are `x` and `y`.
pub open spec fn array_cell(i: int, x: int, y: int) -> (int, int, int) {
    (i % x, (i / x) % y, (i / x) / y)
}

/// Every array cell inside the extents has a position inside the store.
pub proof fn lemma_linear_index_bound(a: int, b: int, c: int, x: int, y: int, z: int)
    requires
        0 <= a < x,
        0 <= b < y,
        0 <= c < z,
    ensures
        0 <= linear_index(a, b, c, x, y) < x * y * z,
        0 <= b * x,
        0 <= c * x <= c * x * y,
{
    assert(b * x <= (y - 1) * x) by (nonlinear_arith)
        requires b <= y - 1, x > 0;
    assert(c * x * y <= (z - 1) * x * y) by (nonlinear_arith)
        requires c <= z - 1, x > 0, y > 0;
    assert(0 <= b * x) by (nonlinear_arith)
        requires 0 <= b, 0 < x;
    assert(0 <= c * x <= c * x * y) by (nonlinear_arith)
        requires 0 <= c, 0 < x, 0 < y;
    assert((y - 1) * x + (z - 1) * x * y + x == x * y * z) by (nonlinear_arith);
}

/// A position in the store determines the array cell it belongs to.
pub proof fn lemma_linear_index_decode(a: int, b: int, c: int, x: int, y: int, z: int)
    requires
        0 <= a < x,
        0 <= b < y,
        0 <= c < z,
    ensures
        array_cell(linear_index(a, b, c, x, y), x, y) == (a, b, c),
{
    let i = linear_index(a, b, c, x, y);
    let q = b + c * y;
    assert(i == q * x + a) by (nonlinear_arith)
        requires i == a + b * x + c * x * y, q == b + c * y;
    lemma_fundamental_div_mod_converse(i, x, q, a);
    lemma_fundamental_div_mod_converse(q, y, c, b);
}

/// Two array cells inside the extents that share a position are the same cell.
pub proof fn lemma_linear_index_injective(
    a1: int, b1: int, c1: int, a2: int, b2: int, c2: int, x: int, y: int, z: int,
)
    requires
        0 <= a1 < x && 0 <= b1 < y && 0 <= c1 < z,
        0 <= a2 < x && 0 <= b2 < y && 0 <= c2 < z,
        linear_index(a1, b1, c1, x, y) == linear_index(a2, b2, c2, x, y),
    ensures
        a1 == a2 && b1 == b2 && c1 == c2,
{
    lemma_linear_index_decode(a1, b1, c1, x, y, z);
    lemma_linear_index_decode(a2, b2, c2, x, y, z);
}

/// Every position inside the store belongs to an array cell inside the
/// extents, and that cell sits at this position.
pub proof fn lemma_array_cell_encode(i: int, x: int, y: int, z: int)
    requires
        0 <= x && 0 <= y && 0 <= z,
        0 <= i < x * y * z,
    ensures
        0 <= array_cell(i, x, y).0 < x,
        0 <= array_cell(i, x, y).1 < y,
        0 <= array_cell(i, x, y).2 < z,
        linear_index(array_cell(i, x, y).0, array_cell(i, x, y).1, array_cell(i, x, y).2, x, y) == i,
{
    assert(x > 0 && y > 0 && z > 0) by (nonlinear_arith)
        requires 0 <= x && 0 <= y && 0 <= z, 0 < x * y * z;
    let q = i / x;
    let a = i % x;
    lemma_fundamental_div_mod(i, x);
    lemma_mod_pos_bound(i, x);
    assert(0 <= q < y * z) by (nonlinear_arith)
        requires i == x * q + a, 0 <= a < x, 0 <= i < x * y * z, x > 0;
    let c = q / y;
    let b = q % y;
    lemma_fundamental_div_mod(q, y);
    lemma_mod_pos_bound(q, y);
    assert(0 <= c < z) by (nonlinear_arith)
        requires q == y * c + b, 0 <= b < y, 0 <= q < y * z, y > 0;
    assert(a + b * x + c * x * y == i) by (nonlinear_arith)
        requires i == x * q + a, q == y * c + b;
}

/// Occupancy grid over `[0, x) x [0, y) x [0, z)` in array coordinates.
/// The offset `(cx, cy, cz)` is added to a world-grid coordinate to get the
/// array coordinate. A cell holds `EMPTY` or the id of its occupant.
pub struct GridCollider {
    data: Vec<isize>,
    x: u32,
    y: u32,
    z: u32,
    cx: i32,
    cy: i32,
    cz: i32,
}

/// Whether a grid with these extents and this offset can be represented: the
/// number of cells fits the index type and every cell has a world-grid
/// coordinate.
pub open spec fn shape_fits(x: int, y: int, z: int, cx: int, cy: int, cz: int) -> bool {
    &&& x * y * z <= u32::MAX
    &&& x - cx <= COORD_END
    &&& y - cy <= COORD_END
    &&& z - cz <= COORD_END
}

impl GridCollider {
    pub closed spec fn spec_x(&self) -> u32 {
        self.x
    }

    pub closed spec fn spec_y(&self) -> u32 {
        self.y
    }

    pub closed spec fn spec_z(&self) -> u32 {
        self.z
    }

    pub closed spec fn spec_cx(&self) -> i32 {
        self.cx
    }

    pub closed spec fn spec_cy(&self) -> i32 {
        self.cy
    }

    pub closed spec fn spec_cz(&self) -> i32 {
        self.cz
    }

    /// The backing store, one entry per array cell.
    pub closed spec fn cells(&self) -> Seq<isize> {
        self.data@
    }

    /// Number of cells inside the bounds.
    pub open spec fn volume(&self) -> int {
        self.spec_x() * self.spec_y() * self.spec_z()
    }

    /// The backing store holds exactly one entry per array cell, and the
    /// shape is representable.
    pub open spec fn wf(&self) -> bool {
        &&& self.cells().len() == self.volume()
        &&& shape_fits(
            self.spec_x() as int,
            self.spec_y() as int,
            self.spec_z() as int,
            self.spec_cx() as int,
            self.spec_cy() as int,
            self.spec_cz() as int,
        )
    }

    /// Whether world-grid cell `(x, y, z)` lies inside the current bounds.
    pub open spec fn in_bounds(&self, x: int, y: int, z: int) -> bool {
        &&& 0 <= x + self.spec_cx() < self.spec_x()
        &&& 0 <= y + self.spec_cy() < self.spec_y()
        &&& 0 <= z + self.spec_cz() < self.spec_z()
    }

    /// Position of world-grid cell `(x, y, z)` in the backing store.
    pub open spec fn index_of(&self, x: int, y: int, z: int) -> int {
        linear_index(
            x + self.spec_cx(),
            y + self.spec_cy(),
            z + self.spec_cz(),
            self.spec_x() as int,
            self.spec_y() as int,
        )
    }

    /// The world-grid cell stored at position `i` of the backing store.
    pub open spec fn cell_of(&self, i: int) -> (int, int, int) {
        let c = array_cell(i, self.spec_x() as int, self.spec_y() as int);
        (c.0 - self.spec_cx(), c.1 - self.spec_cy(), c.2 - self.spec_cz())
    }

    /// What the grid holds at world-grid cell `(x, y, z)`: the stored value
    /// inside the bounds, `EMPTY` everywhere else.
    pub open spec fn entry(&self, x: int, y: int, z: int) -> isize {
        if self.in_bounds(x, y, z) {
            self.cells()[self.index_of(x, y, z)]
        } else {
            EMPTY
        }
    }

    /// Whether the bounds of `self` hold every cell inside the bounds of
    /// `other`.
    pub open spec fn covers(&self, other: &GridCollider) -> bool {
        forall|i: int, j: int, k: int|
            other.in_bounds(i, j, k) ==> #[trigger] self.in_bounds(i, j, k)
    }

    /// The occupant of world-grid cell `(x, y, z)`, `None` where the cell
    /// is empty or outside the bounds.
    pub open spec fn occupant(&self, x: int, y: int, z: int) -> Option<isize> {
        if self.entry(x, y, z) == EMPTY {
            None
        } else {
            Some(self.entry(x, y, z))
        }
    }

    /// Whether both grids have the same extents and offset.
    pub open spec fn same_shape(&self, other: &GridCollider) -> bool {
        &&& self.spec_x() == other.spec_x()
        &&& self.spec_y() == other.spec_y()
        &&& self.spec_z() == other.spec_z()
        &&& self.spec_cx() == other.spec_cx()
        &&& self.spec_cy() == other.spec_cy()
        &&& self.spec_cz() == other.spec_cz()
    }

    /// A grid with no cells at all.
    pub fn new() -> (g: Self)
        ensures
            g.wf(),
            g.spec_x() == 0 && g.spec_y() == 0 && g.spec_z() == 0,
            g.spec_cx() == 0 && g.spec_cy() == 0 && g.spec_cz() == 0,
            forall|x: int, y: int, z: int| g.entry(x, y, z) == EMPTY,
    {
        GridCollider { data: Vec::new(), x: 0, y: 0, z: 0, cx: 0, cy: 0, cz: 0 }
    }

    /// A grid of the given extents at offset zero, every cell empty.
    pub fn with_capacity(x: u32, y: u32, z: u32) -> (g: Self)
        requires
            shape_fits(x as int, y as int, z as int, 0, 0, 0),
        ensures
            g.wf(),
            g.spec_x() == x && g.spec_y() == y && g.spec_z() == z,
            g.spec_cx() == 0 && g.spec_cy() == 0 && g.spec_cz() == 0,
            forall|i: int, j: int, k: int| g.entry(i, j, k) == EMPTY,
    {
        let n: usize = cell_count(x, y, z);
        let data: Vec<isize> = vec![EMPTY; n];
        let g = GridCollider { data, x, y, z, cx: 0, cy: 0, cz: 0 };
        assert forall|i: int, j: int, k: int| g.entry(i, j, k) == EMPTY by {
            if g.in_bounds(i, j, k) {
                lemma_linear_index_bound(i, j, k, x as int, y as int, z as int);
            }
        }
        g
    }

    /// Extent along the first axis.
    pub fn x(&self) -> (r: u32)
        ensures
            r == self.spec_x(),
    {
        self.x
    }

    /// Extent along the second axis.
    pub fn y(&self) -> (r: u32)
        ensures
            r == self.spec_y(),
    {
        self.y
    }

    /// Extent along the third axis.
    pub fn z(&self) -> (r: u32)
        ensures
            r == self.spec_z(),
    {
        self.z
    }

    /// Array coordinate of the world-grid origin along the first axis.
    pub fn cx(&self) -> (r: i32)
        ensures
            r == self.spec_cx(),
    {
        self.cx
    }

    /// Array coordinate of the world-grid origin along the second axis.
    pub fn cy(&self) -> (r: i32)
        ensures
            r == self.spec_cy(),
    {
        self.cy
    }

    /// Array coordinate of the world-grid origin along the third axis.
    pub fn cz(&self) -> (r: i32)
        ensures
            r == self.spec_cz(),
    {
        self.cz
    }

    /// The position in the backing store of this world-grid cell, `None`
    /// outside the bounds.
    fn get_index(&self, x: i64, y: i64, z: i64) -> (r: Option<usize>)
        requires
            self.wf(),
            -0x2_0000_0000 <= x <= 0x2_0000_0000,
            -0x2_0000_0000 <= y <= 0x2_0000_0000,
            -0x2_0000_0000 <= z <= 0x2_0000_0000,
        ensures
            r.is_some() == self.in_bounds(x as int, y as int, z as int),
            r matches Some(i) ==> i == self.index_of(x as int, y as int, z as int) && i
                < self.cells().len(),
    {
        let a: i64 = x + self.cx as i64;
        let b: i64 = y + self.cy as i64;
        let c: i64 = z + self.cz as i64;
        if a < 0 || b < 0 || c < 0 {
            return None;
        }
        if a >= self.x as i64 || b >= self.y as i64 || c >= self.z as i64 {
            return None;
        }
        proof {
            lemma_linear_index_bound(
                a as int,
                b as int,
                c as int,
                self.x as int,
                self.y as int,
                self.z as int,
            );
        }
        let index: usize = (a as usize) + (b as usize) * (self.x as usize) + (c as usize) * (
        self.x as usize) * (self.y as usize);
        Some(index)
    }

    /// The grid entry at this world-grid position, `EMPTY` outside the bounds.
    pub fn get_entry(&self, x: i32, y: i32, z: i32) -> (e: isize)
        requires
            self.wf(),
        ensures
            e == self.entry(x as int, y as int, z as int),
    {
        match self.get_index(x as i64, y as i64, z as i64) {
            Some(index) => self.data[index],
            None => EMPTY,
        }
    }

    /// A mutable reference to the entry at this world-grid position, `None`
    /// outside the bounds. Writing through the reference changes this one
    /// cell and nothing else.
    pub fn get_entry_mut(&mut self, x: i32, y: i32, z: i32) -> (e: Option<&mut isize>)
        requires
            old(self).wf(),
        ensures
            e.is_some() == old(self).in_bounds(x as int, y as int, z as int),
            e.is_none() ==> *final(self) == *old(self),
            e matches Some(r) ==> {
                &&& *r == old(self).entry(x as int, y as int, z as int)
                &&& final(self).wf()
                &&& final(self).same_shape(old(self))
                &&& forall|i: int, j: int, k: int|
                    final(self).entry(i, j, k) == if i == x && j == y && k == z {
                        *final(r)
                    } else {
                        old(self).entry(i, j, k)
                    }
            },
    {
        match self.get_index(x as i64, y as i64, z as i64) {
            Some(index) => {
                proof {
                    let g = *self;
                    assert forall|i: int, j: int, k: int|
                        g.in_bounds(i, j, k) && g.index_of(i, j, k) == index implies i == x && j
                            == y && k == z by {
                        lemma_linear_index_injective(
                            i + g.cx,
                            j + g.cy,
                            k + g.cz,
                            x + g.cx,
                            y + g.cy,
                            z + g.cz,
                            g.x as int,
                            g.y as int,
                            g.z as int,
                        );
                    }
                    assert forall|i: int, j: int, k: int| g.in_bounds(i, j, k) implies 0
                        <= g.index_of(i, j, k) < g.data@.len() by {
                        lemma_linear_index_bound(
                            i + g.cx,
                            j + g.cy,
                            k + g.cz,
                            g.x as int,
                            g.y as int,
                            g.z as int,
                        );
                    }
                }
                Some(&mut self.data[index])
            },
            None => None,
        }
    }

    /// Replaces the bounds by the extents `(x, y, z)` and the offset
    /// `(cx, cy, cz)`. Every cell inside the new bounds keeps what it held at
    /// the same world-grid coordinate; cells that were outside the old
    /// bounds come in empty.
    pub fn reshape(&mut self, x: u32, y: u32, z: u32, cx: i32, cy: i32, cz: i32)
        requires
            old(self).wf(),
            shape_fits(x as int, y as int, z as int, cx as int, cy as int, cz as int),
        ensures
            final(self).wf(),
            final(self).spec_x() == x && final(self).spec_y() == y && final(self).spec_z() == z,
            final(self).spec_cx() == cx && final(self).spec_cy() == cy && final(self).spec_cz()
                == cz,
            forall|i: int, j: int, k: int|
                final(self).entry(i, j, k) == if final(self).in_bounds(i, j, k) {
                    old(self).entry(i, j, k)
                } else {
                    EMPTY
                },
            final(self).covers(old(self)) ==> forall|i: int, j: int, k: int|
                final(self).entry(i, j, k) == old(self).entry(i, j, k),
    {
        let n: usize = cell_count(x, y, z);
        let mut new_data: Vec<isize> = Vec::with_capacity(n);
        let mut index: usize = 0;
        while index < n
            invariant
                self.wf(),
                *self == *old(self),
                n == x * y * z,
                n <= u32::MAX,
                index <= n,
                new_data@.len() == index,
                forall|m: int|
                    0 <= m < index ==> new_data@[m] == self.entry(
                        array_cell(m, x as int, y as int).0 - cx,
                        array_cell(m, x as int, y as int).1 - cy,
                        array_cell(m, x as int, y as int).2 - cz,
                    ),
            decreases n - index,
        {
            proof {
                lemma_array_cell_encode(index as int, x as int, y as int, z as int);
            }
            let a: i64 = (index % (x as usize)) as i64;
            let b: i64 = ((index / (x as usize)) % (y as usize)) as i64;
            let c: i64 = ((index / (x as usize)) / (y as usize)) as i64;
            let value: isize = match self.get_index(a - cx as i64, b - cy as i64, c - cz as i64) {
                Some(at) => self.data[at],
                None => EMPTY,
            };
            new_data.push(value);
            index = index + 1;
        }
        self.x = x;
        self.y = y;
        self.z = z;
        self.cx = cx;
        self.cy = cy;
        self.cz = cz;
        self.data = new_data;
        proof {
            assert forall|i: int, j: int, k: int| self.in_bounds(i, j, k) implies self.entry(
                i,
                j,
                k,
            ) == old(self).entry(i, j, k) by {
                lemma_linear_index_bound(i + cx, j + cy, k + cz, x as int, y as int, z as int);
                lemma_linear_index_decode(i + cx, j + cy, k + cz, x as int, y as int, z as int);
            }
        }
    }

    /// The world-grid cell stored at position `index` of the backing store.
    pub fn cell_at(&self, index: u32) -> (c: (i32, i32, i32))
        requires
            self.wf(),
            index < self.volume(),
        ensures
            (c.0 as int, c.1 as int, c.2 as int) == self.cell_of(index as int),
            self.in_bounds(c.0 as int, c.1 as int, c.2 as int),
            self.index_of(c.0 as int, c.1 as int, c.2 as int) == index,
    {
        proof {
            lemma_array_cell_encode(index as int, self.x as int, self.y as int, self.z as int);
        }
        let a: i64 = (index % self.x) as i64 - self.cx as i64;
        let b: i64 = ((index / self.x) % self.y) as i64 - self.cy as i64;
        let c: i64 = ((index / self.x) / self.y) as i64 - self.cz as i64;
        (a as i32, b as i32, c as i32)
    }

    /// A cursor over every cell of the backing store, empty cells included,
    /// in storage order. Each call starts a fresh pass.
    pub fn indexed_iter<'a>(&'a self) -> (it: IndexedIterator<'a>)
        requires
            self.wf(),
        ensures
            it.wf(),
            it.grid() == self,
            it.position() == 0,
    {
        IndexedIterator { index: 0, grid: self }
    }

    /// The occupant of the world-grid cell `(x, y, z)`, `None` where the cell
    /// is empty or outside the bounds.
    pub fn check_point(&self, x: i32, y: i32, z: i32) -> (hit: Option<isize>)
        requires
            self.wf(),
        ensures
            hit == self.occupant(x as int, y as int, z as int),
    {
        let entry = self.get_entry(x, y, z);
        if entry != EMPTY {
            Some(entry)
        } else {
            None
        }
    }
}

/// A pass over the cells of a grid in storage order.
pub struct IndexedIterator<'a> {
    index: u32,
    grid: &'a GridCollider,
}

impl<'a> IndexedIterator<'a> {
    /// The grid that the pass runs over.
    pub closed spec fn grid(&self) -> &'a GridCollider {
        self.grid
    }

    /// Number of cells already handed out.
    pub closed spec fn position(&self) -> int {
        self.index as int
    }

    /// The grid is well formed and the pass has not run beyond its end.
    pub open spec fn wf(&self) -> bool {
        self.grid().wf() && 0 <= self.position() <= self.grid().volume()
    }

    /// The next cell of the pass with what it holds, `None` once every cell
    /// has been handed out.
    pub fn next(&mut self) -> (item: Option<((i32, i32, i32), isize)>)
        requires
            old(self).wf(),
        ensures
            final(self).wf(),
            final(self).grid() == old(self).grid(),
            old(self).position() >= old(self).grid().volume() ==> item.is_none()
                && final(self).position() == old(self).position(),
            old(self).position() < old(self).grid().volume() ==> item.is_some()
                && final(self).position() == old(self).position() + 1,
            item matches Some((c, e)) ==> {
                &&& (c.0 as int, c.1 as int, c.2 as int) == old(self).grid().cell_of(
                    old(self).position(),
                )
                &&& e == old(self).grid().cells()[old(self).position()]
                &&& e == old(self).grid().entry(c.0 as int, c.1 as int, c.2 as int)
            },
    {
        if self.index as usize >= self.grid.data.len() {
            return None;
        }
        let cell = self.grid.cell_at(self.index);
        let data = self.grid.data[self.index as usize];
        self.index = self.index + 1;
        Some((cell, data))
    }
}

/// Number of cells of a grid with these extents.
fn cell_count(x: u32, y: u32, z: u32) -> (n: usize)
    requires
        x * y * z <= u32::MAX,
    ensures
        n == x * y * z,
{
    if x == 0 || y == 0 || z == 0 {
        assert(x * y * z == 0) by (nonlinear_arith)
            requires x == 0 || y == 0 || z == 0;
        return 0;
    }
    assert(x * y <= x * y * z) by (nonlinear_arith)
        requires x >= 1, y >= 1, z >= 1;
    ((x as u64) * (y as u64) * (z as u64)) as usize
}

} // verus!
