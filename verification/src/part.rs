//! Parts of a ship: where a part or one of its blocks sits, and which cells
//! a part fills.

use vstd::prelude::*;
use vstd::std_specs::ops::MulSpecImpl;
use crate::orientation::CODES;
use crate::orientation::composed;
use crate::orientation::compose;
use crate::orientation::rotate_integer;
use crate::orientation::turned;
use crate::orientation::lemma_turned_exact;
use crate::grid::lemma_array_cell_encode;
use crate::grid::lemma_linear_index_decode;
use crate::grid::lemma_linear_index_bound;
use crate::grid::linear_index;

verus! {

/// The position of a part, or of one block of a part: a cell and an
/// orientation code.
#[derive(Clone, Copy, Debug)]
pub struct PartLayout {
    pub x: i32,
    pub y: i32,
    pub z: i32,
    pub orientation: u8,
}

impl PartLayout {
    /// The cell as mathematical integers.
    pub open spec fn cell(&self) -> (int, int, int) {
        (self.x as int, self.y as int, self.z as int)
    }

    /// The cell that this layout, taken as relative to `frame`, stands for:
    /// its own cell turned by the orientation of `frame` and moved to the
    /// cell of `frame`.
    pub open spec fn placed_cell(&self, frame: PartLayout) -> (int, int, int) {
        let t = turned(frame.orientation as int, self.cell());
        (t.0 + frame.x, t.1 + frame.y, t.2 + frame.z)
    }

    /// Whether this layout can be taken as relative to `frame`: both
    /// orientations are table codes and the resulting cell has coordinates.
    pub open spec fn fits_in(&self, frame: PartLayout) -> bool {
        &&& self.orientation < CODES
        &&& frame.orientation < CODES
        &&& i32::MIN <= self.placed_cell(frame).0 <= i32::MAX
        &&& i32::MIN <= self.placed_cell(frame).1 <= i32::MAX
        &&& i32::MIN <= self.placed_cell(frame).2 <= i32::MAX
        &&& self.x > i32::MIN && self.y > i32::MIN && self.z > i32::MIN
    }

    /// This layout, taken as relative to `frame`, in the coordinates that
    /// `frame` is given in.
    pub open spec fn placed(&self, frame: PartLayout) -> PartLayout {
        PartLayout {
            x: self.placed_cell(frame).0 as i32,
            y: self.placed_cell(frame).1 as i32,
            z: self.placed_cell(frame).2 as i32,
            orientation: composed(frame.orientation as int, self.orientation as int) as u8,
        }
    }
}

impl core::ops::Mul for PartLayout {
    type Output = PartLayout;

    fn mul(self, rhs: PartLayout) -> (r: PartLayout) {
        proof {
            lemma_turned_exact(rhs.orientation as int, self.cell());
        }
        let (new_x, new_y, new_z) = rotate_integer(rhs.orientation, self.x, self.y, self.z);
        PartLayout {
            x: new_x + rhs.x,
            y: new_y + rhs.y,
            z: new_z + rhs.z,
            orientation: compose(rhs.orientation, self.orientation),
        }
    }
}

impl MulSpecImpl for PartLayout {
    open spec fn obeys_mul_spec() -> bool {
        true
    }

    open spec fn mul_req(self, rhs: PartLayout) -> bool {
        self.fits_in(rhs)
    }

    open spec fn mul_spec(self, rhs: PartLayout) -> PartLayout {
        self.placed(rhs)
    }
}

/// The kinds of part that a ship is built from.
#[derive(Clone, Copy, Debug)]
pub enum Part {
    Tank { length: u32 },
    Scaffold { length: u32, width: u32, height: u32 },
    Thruster,
    FuelCell,
    Battery,
}

/// A layout at cell `(x, y, z)` with orientation `o`.
pub open spec fn layout_at(x: int, y: int, z: int, o: u8) -> PartLayout {
    PartLayout { x: x as i32, y: y as i32, z: z as i32, orientation: o }
}

impl Part {
    /// Number of blocks of the part.
    pub open spec fn block_count(&self) -> nat {
        match *self {
            Part::Tank { length } => if length >= 2 {
                length as nat
            } else {
                2
            },
            Part::Scaffold { length, width, height } => (length * width * height) as nat,
            _ => 1,
        }
    }

    /// The `n`-th block of the part in the part's own frame. A tank runs
    /// along the third axis, centred on the origin, with a cap at each end
    /// and the first cap turned over. A scaffold fills a box centred on the
    /// origin, the third axis running fastest. Every other part is the
    /// single block at the origin.
    pub open spec fn local_block(&self, n: int) -> PartLayout {
        match *self {
            Part::Tank { length } => {
                let z0 = -(length as int / 2);
                if n == 0 {
                    layout_at(0, 0, z0, 12)
                } else if n == self.block_count() - 1 {
                    layout_at(0, 0, z0 + length - 1, 0)
                } else {
                    layout_at(0, 0, z0 + n, 0)
                }
            },
            Part::Scaffold { length, width, height } => layout_at(
                -(length as int / 2) + (n / height as int) / (width as int),
                -(width as int / 2) + (n / height as int) % (width as int),
                -(height as int / 2) + n % (height as int),
                0,
            ),
            _ => layout_at(0, 0, 0, 0),
        }
    }

    /// Whether the part can be laid out at `layout`: its size is one that
    /// block coordinates can count, and every block gets a cell.
    pub open spec fn fits_at(&self, layout: PartLayout) -> bool {
        &&& match *self {
            Part::Tank { length } => length <= i32::MAX,
            Part::Scaffold { length, width, height } => length <= i32::MAX && width <= i32::MAX
                && height <= i32::MAX,
            _ => true,
        }
        &&& layout.orientation < CODES
        &&& forall|n: int|
            0 <= n < self.block_count() ==> (#[trigger] self.local_block(n)).fits_in(layout)
    }

    /// The blocks of the part laid out at `layout`.
    pub open spec fn blocks(&self, layout: PartLayout) -> Seq<PartLayout> {
        Seq::new(self.block_count(), |n: int| self.local_block(n).placed(layout))
    }
}

impl Part {
    /// Lists the blocks of the part laid out at `layout`.
    pub fn get_blocks(&self, layout: PartLayout) -> (out: Vec<PartLayout>)
        requires
            self.fits_at(layout),
        ensures
            out@ == self.blocks(layout),
    {
        let mut out: Vec<PartLayout> = Vec::new();
        match *self {
            Part::Tank { length } => {
                let len: i32 = length as i32;
                let z0: i32 = -(len / 2);
                assert(self.local_block(0).fits_in(layout));
                out.push(PartLayout { x: 0, y: 0, z: z0, orientation: 12 } * layout);
                let mut i: i32 = 0;
                while i < len - 2
                    invariant
                        *self == (Part::Tank { length }),
                        self.fits_at(layout),
                        len == length,
                        z0 == -(length as int / 2),
                        0 <= i,
                        i <= len - 2 || i == 0,
                        out@.len() == i + 1,
                        forall|m: int|
                            0 <= m < out@.len() ==> out@[m] == self.local_block(m).placed(layout),
                    decreases len - i,
                {
                    assert(self.local_block(i + 1).fits_in(layout));
                    out.push(PartLayout { x: 0, y: 0, z: z0 + i + 1, orientation: 0 } * layout);
                    i = i + 1;
                }
                assert(self.local_block(self.block_count() - 1).fits_in(layout));
                out.push(PartLayout { x: 0, y: 0, z: z0 + len - 1, orientation: 0 } * layout);
            },
            Part::Scaffold { length, width, height } => {
                let x0: i32 = -(length as i32 / 2);
                let y0: i32 = -(width as i32 / 2);
                let z0: i32 = -(height as i32 / 2);
                let mut i: u32 = 0;
                assert(linear_index(0, 0, 0, height as int, width as int) == 0)
                    by (nonlinear_arith);
                while i < length
                    invariant
                        *self == (Part::Scaffold { length, width, height }),
                        self.fits_at(layout),
                        x0 == -(length as int / 2),
                        y0 == -(width as int / 2),
                        z0 == -(height as int / 2),
                        i <= length,
                        out@.len() == linear_index(0, 0, i as int, height as int, width as int),
                        forall|m: int|
                            0 <= m < out@.len() ==> out@[m] == self.local_block(m).placed(layout),
                    decreases length - i,
                {
                    let mut j: u32 = 0;
                    while j < width
                        invariant
                            *self == (Part::Scaffold { length, width, height }),
                            self.fits_at(layout),
                            x0 == -(length as int / 2),
                            y0 == -(width as int / 2),
                            z0 == -(height as int / 2),
                            i < length,
                            j <= width,
                            out@.len() == linear_index(
                                0,
                                j as int,
                                i as int,
                                height as int,
                                width as int,
                            ),
                            forall|m: int|
                                0 <= m < out@.len() ==> out@[m] == self.local_block(m).placed(
                                    layout,
                                ),
                        decreases width - j,
                    {
                        let mut k: u32 = 0;
                        while k < height
                            invariant
                                *self == (Part::Scaffold { length, width, height }),
                                self.fits_at(layout),
                                x0 == -(length as int / 2),
                                y0 == -(width as int / 2),
                                z0 == -(height as int / 2),
                                i < length,
                                j < width,
                                k <= height,
                                out@.len() == linear_index(
                                    k as int,
                                    j as int,
                                    i as int,
                                    height as int,
                                    width as int,
                                ),
                                forall|m: int|
                                    0 <= m < out@.len() ==> out@[m] == self.local_block(
                                        m,
                                    ).placed(layout),
                            decreases height - k,
                        {
                            proof {
                                let n = out@.len() as int;
                                lemma_linear_index_decode(
                                    k as int,
                                    j as int,
                                    i as int,
                                    height as int,
                                    width as int,
                                    length as int,
                                );
                                lemma_linear_index_bound(
                                    k as int,
                                    j as int,
                                    i as int,
                                    height as int,
                                    width as int,
                                    length as int,
                                );
                                assert(height * width * length == length * width * height)
                                    by (nonlinear_arith);
                                assert(self.local_block(n).fits_in(layout));
                            }
                            out.push(
                                PartLayout {
                                    x: x0 + i as i32,
                                    y: y0 + j as i32,
                                    z: z0 + k as i32,
                                    orientation: 0,
                                } * layout,
                            );
                            k = k + 1;
                        }
                        proof {
                            assert(linear_index(
                                height as int,
                                j as int,
                                i as int,
                                height as int,
                                width as int,
                            ) == linear_index(0, j + 1, i as int, height as int, width as int))
                                by (nonlinear_arith);
                        }
                        j = j + 1;
                    }
                    proof {
                        assert(linear_index(
                            0,
                            width as int,
                            i as int,
                            height as int,
                            width as int,
                        ) == linear_index(0, 0, i + 1, height as int, width as int))
                            by (nonlinear_arith);
                    }
                    i = i + 1;
                }
                proof {
                    assert(linear_index(0, 0, length as int, height as int, width as int)
                        == length * width * height) by (nonlinear_arith);
                }
            },
            _ => {
                assert(self.local_block(0).fits_in(layout));
                out.push(PartLayout { x: 0, y: 0, z: 0, orientation: 0 } * layout);
            },
        }
        assert(out@ =~= self.blocks(layout));
        out
    }
}

/// The coordinate of a layout along `axis` (0, 1 or 2).
pub open spec fn layout_coord(l: PartLayout, axis: int) -> int {
    if axis == 0 {
        l.x as int
    } else if axis == 1 {
        l.y as int
    } else {
        l.z as int
    }
}

/// The least coordinate along `axis` among the layouts, and the largest
/// `i32` where there is none.
pub open spec fn min_coord(layouts: Seq<PartLayout>, axis: int) -> int
    decreases layouts.len(),
{
    if layouts.len() == 0 {
        i32::MAX as int
    } else {
        let rest = min_coord(layouts.drop_last(), axis);
        let here = layout_coord(layouts.last(), axis);
        if here < rest {
            here
        } else {
            rest
        }
    }
}

/// The largest coordinate along `axis` among the layouts, and the least
/// `i32` where there is none.
pub open spec fn max_coord(layouts: Seq<PartLayout>, axis: int) -> int
    decreases layouts.len(),
{
    if layouts.len() == 0 {
        i32::MIN as int
    } else {
        let rest = max_coord(layouts.drop_last(), axis);
        let here = layout_coord(layouts.last(), axis);
        if here > rest {
            here
        } else {
            rest
        }
    }
}

/// Every layout lies between the least and the largest coordinate.
pub proof fn lemma_coord_bounds(layouts: Seq<PartLayout>, axis: int, n: int)
    requires
        0 <= n < layouts.len(),
    ensures
        min_coord(layouts, axis) <= layout_coord(layouts[n], axis) <= max_coord(layouts, axis),
    decreases layouts.len(),
{
    if n < layouts.len() - 1 {
        lemma_coord_bounds(layouts.drop_last(), axis, n);
    }
}

/// The corners of the smallest box of cells that holds every layout.
fn bounding_corners(layouts: &Vec<PartLayout>) -> (r: (PartLayout, PartLayout))
    ensures
        r.0.x == min_coord(layouts@, 0) && r.0.y == min_coord(layouts@, 1) && r.0.z == min_coord(
            layouts@,
            2,
        ),
        r.1.x == max_coord(layouts@, 0) && r.1.y == max_coord(layouts@, 1) && r.1.z == max_coord(
            layouts@,
            2,
        ),
        r.0.orientation == 0 && r.1.orientation == 0,
{
    let mut min_x: i32 = i32::MAX;
    let mut min_y: i32 = i32::MAX;
    let mut min_z: i32 = i32::MAX;
    let mut max_x: i32 = i32::MIN;
    let mut max_y: i32 = i32::MIN;
    let mut max_z: i32 = i32::MIN;
    let mut n: usize = 0;
    while n < layouts.len()
        invariant
            n <= layouts.len(),
            min_x == min_coord(layouts@.take(n as int), 0),
            min_y == min_coord(layouts@.take(n as int), 1),
            min_z == min_coord(layouts@.take(n as int), 2),
            max_x == max_coord(layouts@.take(n as int), 0),
            max_y == max_coord(layouts@.take(n as int), 1),
            max_z == max_coord(layouts@.take(n as int), 2),
        decreases layouts.len() - n,
    {
        let block = layouts[n];
        proof {
            assert(layouts@.take(n + 1).drop_last() == layouts@.take(n as int));
            assert(layouts@.take(n + 1).last() == block);
        }
        if block.x < min_x {
            min_x = block.x;
        }
        if block.y < min_y {
            min_y = block.y;
        }
        if block.z < min_z {
            min_z = block.z;
        }
        if block.x > max_x {
            max_x = block.x;
        }
        if block.y > max_y {
            max_y = block.y;
        }
        if block.z > max_z {
            max_z = block.z;
        }
        n = n + 1;
    }
    proof {
        assert(layouts@.take(layouts.len() as int) == layouts@);
    }
    (
        PartLayout { x: min_x, y: min_y, z: min_z, orientation: 0 },
        PartLayout { x: max_x, y: max_y, z: max_z, orientation: 0 },
    )
}

impl Part {
    /// The minimum and the maximum corner of the part laid out at `layout`:
    /// along each axis the least and the largest coordinate of its blocks.
    pub fn get_bbox(&self, layout: PartLayout) -> (r: (PartLayout, PartLayout))
        requires
            self.fits_at(layout),
        ensures
            r.0.x == min_coord(self.blocks(layout), 0),
            r.0.y == min_coord(self.blocks(layout), 1),
            r.0.z == min_coord(self.blocks(layout), 2),
            r.1.x == max_coord(self.blocks(layout), 0),
            r.1.y == max_coord(self.blocks(layout), 1),
            r.1.z == max_coord(self.blocks(layout), 2),
            r.0.orientation == 0 && r.1.orientation == 0,
    {
        let blocks = self.get_blocks(layout);
        bounding_corners(&blocks)
    }
}

/// Whether the cell `(x, y, z)`, taken as relative to `frame`, has
/// coordinates.
fn cell_fits(x: i32, y: i32, z: i32, frame: PartLayout) -> (r: bool)
    requires
        frame.orientation < CODES,
        x > i32::MIN && y > i32::MIN && z > i32::MIN,
    ensures
        r == {
            let c = layout_at(x as int, y as int, z as int, 0).placed_cell(frame);
            &&& i32::MIN <= c.0 <= i32::MAX
            &&& i32::MIN <= c.1 <= i32::MAX
            &&& i32::MIN <= c.2 <= i32::MAX
        },
{
    proof {
        lemma_turned_exact(frame.orientation as int, (x as int, y as int, z as int));
    }
    let t = rotate_integer(frame.orientation, x, y, z);
    let a: i64 = t.0 as i64 + frame.x as i64;
    let b: i64 = t.1 as i64 + frame.y as i64;
    let c: i64 = t.2 as i64 + frame.z as i64;
    i32::MIN as i64 <= a && a <= i32::MAX as i64 && i32::MIN as i64 <= b && b <= i32::MAX as i64
        && i32::MIN as i64 <= c && c <= i32::MAX as i64
}

/// A cell between two cells that both have coordinates relative to `frame`
/// has coordinates relative to `frame` too.
proof fn lemma_between_fits(
    lo: (int, int, int),
    hi: (int, int, int),
    at: (int, int, int),
    o: u8,
    frame: PartLayout,
)
    requires
        frame.orientation < CODES,
        o < CODES,
        i32::MIN < lo.0 <= at.0 <= hi.0 <= i32::MAX,
        i32::MIN < lo.1 <= at.1 <= hi.1 <= i32::MAX,
        i32::MIN < lo.2 <= at.2 <= hi.2 <= i32::MAX,
        layout_at(lo.0, lo.1, lo.2, 0).fits_in(frame),
        layout_at(hi.0, hi.1, hi.2, 0).fits_in(frame),
    ensures
        layout_at(at.0, at.1, at.2, o).fits_in(frame),
{
    lemma_turned_exact(frame.orientation as int, lo);
    lemma_turned_exact(frame.orientation as int, hi);
    lemma_turned_exact(frame.orientation as int, at);
}

impl Part {
    /// Whether the part can be laid out at `layout`.
    pub fn can_place(&self, layout: PartLayout) -> (r: bool)
        ensures
            r == self.fits_at(layout),
    {
        if layout.orientation >= CODES {
            return false;
        }
        match *self {
            Part::Tank { length } => {
                if length > i32::MAX as u32 {
                    return false;
                }
                let len: i32 = length as i32;
                let z0: i32 = -(len / 2);
                let z1: i32 = z0 + len - 1;
                let lo: i32 = if z1 < z0 { z1 } else { z0 };
                let hi: i32 = if z1 < z0 { z0 } else { z1 };
                let r = cell_fits(0, 0, lo, layout) && cell_fits(0, 0, hi, layout);
                proof {
                    let last = self.block_count() - 1;
                    if r {
                        assert forall|n: int| 0 <= n < self.block_count() implies (
                        #[trigger] self.local_block(n)).fits_in(layout) by {
                            let b = self.local_block(n);
                            lemma_between_fits(
                                (0, 0, lo as int),
                                (0, 0, hi as int),
                                (0, 0, b.z as int),
                                b.orientation,
                                layout,
                            );
                        }
                    } else {
                        assert(self.local_block(0).z == z0);
                        assert(self.local_block(last).z == z1);
                        if !layout_at(0, 0, z0 as int, 0).fits_in(layout) {
                            assert(!self.local_block(0).fits_in(layout));
                        } else {
                            assert(!self.local_block(last).fits_in(layout));
                        }
                    }
                }
                r
            },
            Part::Scaffold { length, width, height } => {
                if length > i32::MAX as u32 || width > i32::MAX as u32 || height > i32::MAX as u32 {
                    return false;
                }
                if length == 0 || width == 0 || height == 0 {
                    assert(length * width * height == 0) by (nonlinear_arith)
                        requires length == 0 || width == 0 || height == 0;
                    return true;
                }
                let x0: i32 = -(length as i32 / 2);
                let y0: i32 = -(width as i32 / 2);
                let z0: i32 = -(height as i32 / 2);
                let x1: i32 = x0 + (length as i32 - 1);
                let y1: i32 = y0 + (width as i32 - 1);
                let z1: i32 = z0 + (height as i32 - 1);
                let r = cell_fits(x0, y0, z0, layout) && cell_fits(x1, y1, z1, layout);
                proof {
                    let count = self.block_count() as int;
                    assert(count == height * width * length) by (nonlinear_arith)
                        requires count == length * width * height;
                    assert(count >= 1) by (nonlinear_arith)
                        requires count == length * width * height, length >= 1, width >= 1,
                            height >= 1;
                    lemma_linear_index_decode(0, 0, 0, height as int, width as int, length as int);
                    assert(linear_index(0, 0, 0, height as int, width as int) == 0)
                        by (nonlinear_arith);
                    lemma_array_cell_encode(
                        count - 1,
                        height as int,
                        width as int,
                        length as int,
                    );
                    lemma_linear_index_decode(
                        height - 1,
                        width - 1,
                        length - 1,
                        height as int,
                        width as int,
                        length as int,
                    );
                    assert(linear_index(
                        height - 1,
                        width - 1,
                        length - 1,
                        height as int,
                        width as int,
                    ) == count - 1) by (nonlinear_arith)
                        requires count == height * width * length;
                    if r {
                        assert forall|n: int| 0 <= n < self.block_count() implies (
                        #[trigger] self.local_block(n)).fits_in(layout) by {
                            let b = self.local_block(n);
                            lemma_array_cell_encode(
                                n,
                                height as int,
                                width as int,
                                length as int,
                            );
                            lemma_between_fits(
                                (x0 as int, y0 as int, z0 as int),
                                (x1 as int, y1 as int, z1 as int),
                                (b.x as int, b.y as int, b.z as int),
                                b.orientation,
                                layout,
                            );
                        }
                    } else {
                        assert(self.local_block(0).cell() == (x0 as int, y0 as int, z0 as int));
                        assert(self.local_block(count - 1).cell() == (
                            x1 as int,
                            y1 as int,
                            z1 as int,
                        ));
                        if !layout_at(x0 as int, y0 as int, z0 as int, 0).fits_in(layout) {
                            assert(!self.local_block(0).fits_in(layout));
                        } else {
                            assert(!self.local_block(count - 1).fits_in(layout));
                        }
                    }
                }
                r
            },
            _ => {
                let r = cell_fits(0, 0, 0, layout);
                proof {
                    if r {
                        assert forall|n: int| 0 <= n < self.block_count() implies (
                        #[trigger] self.local_block(n)).fits_in(layout) by {}
                    } else {
                        assert(!self.local_block(0).fits_in(layout));
                    }
                }
                r
            },
        }
    }
}

} // verus!
