//! The discrete rotation algebra: a table of sixteen orientation codes, each
//! with a canonical rotation, closed under composition by snapping every
//! product to the nearest table entry.
//!
//! A rotation is held exactly, as a quaternion with integer components that
//! stands for the unit quaternion pointing the same way. Nearness between
//! unit quaternions is then decided in integers: the squared distance
//! between unit quaternions `q` and `r` is `2 - 2 (q . r)`, so the nearest
//! table entry is the one with the largest projection, and projections are
//! compared through their signed squares.

use vstd::prelude::*;

verus! {

/// Number of orientation codes.
pub const CODES: u8 = 16;

/// The code of the rotation that changes nothing.
pub const IDENTITY: u8 = 0;

/// A quaternion with mathematical integers as components.
pub struct QuatInt {
    pub s: int,
    pub x: int,
    pub y: int,
    pub z: int,
}

/// A rotation: the unit quaternion that points along `(s, x, y, z)`.
#[derive(Clone, Copy, Debug, PartialEq, Eq, Structural)]
pub struct Quat {
    pub s: i32,
    pub x: i32,
    pub y: i32,
    pub z: i32,
}

impl View for Quat {
    type V = QuatInt;

    open spec fn view(&self) -> QuatInt {
        QuatInt { s: self.s as int, x: self.x as int, y: self.y as int, z: self.z as int }
    }
}

/// The canonical rotation of an orientation code, as an integer quaternion
/// of squared length `table_norm2(code)`. Codes 0 to 3 are the half turns
/// about the third axis, taken with both signs; each further block of four
/// puts a quarter turn about the first axis, a quarter turn about the
/// second axis, or a half turn about the first axis in front of them.
pub open spec fn table(code: int) -> QuatInt {
    if code == 0 {
        QuatInt { s: 1, x: 0, y: 0, z: 0 }
    } else if code == 1 {
        QuatInt { s: 0, x: 0, y: 0, z: 1 }
    } else if code == 2 {
        QuatInt { s: -1, x: 0, y: 0, z: 0 }
    } else if code == 3 {
        QuatInt { s: 0, x: 0, y: 0, z: -1 }
    } else if code == 4 {
        QuatInt { s: 1, x: 1, y: 0, z: 0 }
    } else if code == 5 {
        QuatInt { s: 0, x: 0, y: -1, z: 1 }
    } else if code == 6 {
        QuatInt { s: -1, x: -1, y: 0, z: 0 }
    } else if code == 7 {
        QuatInt { s: 0, x: 0, y: 1, z: -1 }
    } else if code == 8 {
        QuatInt { s: 1, x: 0, y: 1, z: 0 }
    } else if code == 9 {
        QuatInt { s: 0, x: 1, y: 0, z: 1 }
    } else if code == 10 {
        QuatInt { s: -1, x: 0, y: -1, z: 0 }
    } else if code == 11 {
        QuatInt { s: 0, x: -1, y: 0, z: -1 }
    } else if code == 12 {
        QuatInt { s: 0, x: 1, y: 0, z: 0 }
    } else if code == 13 {
        QuatInt { s: 0, x: 0, y: -1, z: 0 }
    } else if code == 14 {
        QuatInt { s: 0, x: -1, y: 0, z: 0 }
    } else {
        QuatInt { s: 0, x: 0, y: 1, z: 0 }
    }
}

/// Squared length of a quaternion.
pub open spec fn norm2(q: QuatInt) -> int {
    q.s * q.s + q.x * q.x + q.y * q.y + q.z * q.z
}

/// Squared length of the table entry of `code`: 2 for the codes 4 to 11,
/// which hold a quarter turn, and 1 for the others.
pub open spec fn table_norm2(code: int) -> int {
    if 4 <= code < 12 {
        2
    } else {
        1
    }
}

/// The Hamilton product of two quaternions.
pub open spec fn qmul(a: QuatInt, b: QuatInt) -> QuatInt {
    QuatInt {
        s: a.s * b.s - a.x * b.x - a.y * b.y - a.z * b.z,
        x: a.s * b.x + a.x * b.s + a.y * b.z - a.z * b.y,
        y: a.s * b.y - a.x * b.z + a.y * b.s + a.z * b.x,
        z: a.s * b.z + a.x * b.y - a.y * b.x + a.z * b.s,
    }
}

/// The conjugate of a quaternion.
pub open spec fn conj(a: QuatInt) -> QuatInt {
    QuatInt { s: a.s, x: -a.x, y: -a.y, z: -a.z }
}

/// The inner product of two quaternions.
pub open spec fn dot(a: QuatInt, b: QuatInt) -> int {
    a.s * b.s + a.x * b.x + a.y * b.y + a.z * b.z
}

/// The square of `d` with the sign of `d`.
pub open spec fn signed_square(d: int) -> int {
    if d >= 0 {
        d * d
    } else {
        -(d * d)
    }
}

/// How near the rotation `q` is to the table entry of `code`: twice the
/// signed square of the projection of `q` on the unit quaternion of that
/// entry. Of two codes the one with the larger score has the smaller
/// squared distance to the unit quaternion along `q`.
pub open spec fn score(q: QuatInt, code: int) -> int {
    let d = dot(q, table(code));
    if table_norm2(code) == 1 {
        2 * signed_square(d)
    } else {
        signed_square(d)
    }
}

/// Whether `code` is the table entry nearest to `q`, the lowest such code
/// where several are equally near.
pub open spec fn is_nearest(q: QuatInt, code: int) -> bool {
    &&& 0 <= code < CODES
    &&& forall|j: int| 0 <= j < CODES ==> score(q, j) <= score(q, code)
    &&& forall|j: int| 0 <= j < code ==> score(q, j) < score(q, code)
}

/// The code of the table entry nearest to `q`.
pub open spec fn nearest(q: QuatInt) -> int {
    choose|code: int| is_nearest(q, code)
}

/// No two codes are both the nearest.
pub proof fn lemma_nearest_unique(q: QuatInt, a: int, b: int)
    requires
        is_nearest(q, a),
        is_nearest(q, b),
    ensures
        a == b,
{
    assert(score(q, a) <= score(q, b));
    assert(score(q, b) <= score(q, a));
}

/// The code that composition gives: the table entry nearest to the product
/// of the rotations of `a` and `b`.
pub open spec fn composed(a: int, b: int) -> int {
    nearest(qmul(table(a), table(b)))
}

impl Quat {
    pub fn new(s: i32, x: i32, y: i32, z: i32) -> (q: Self)
        ensures
            q == (Quat { s, x, y, z }),
    {
        Quat { s, x, y, z }
    }
}

/// The table entry of `code` with its squared length.
fn table_entry(code: u8) -> (r: (Quat, u8))
    requires
        code < CODES,
    ensures
        r.0@ == table(code as int),
        r.1 == table_norm2(code as int),
        -1 <= r.0.s <= 1 && -1 <= r.0.x <= 1 && -1 <= r.0.y <= 1 && -1 <= r.0.z <= 1,
{
    match code {
        0 => (Quat { s: 1, x: 0, y: 0, z: 0 }, 1),
        1 => (Quat { s: 0, x: 0, y: 0, z: 1 }, 1),
        2 => (Quat { s: -1, x: 0, y: 0, z: 0 }, 1),
        3 => (Quat { s: 0, x: 0, y: 0, z: -1 }, 1),
        4 => (Quat { s: 1, x: 1, y: 0, z: 0 }, 2),
        5 => (Quat { s: 0, x: 0, y: -1, z: 1 }, 2),
        6 => (Quat { s: -1, x: -1, y: 0, z: 0 }, 2),
        7 => (Quat { s: 0, x: 0, y: 1, z: -1 }, 2),
        8 => (Quat { s: 1, x: 0, y: 1, z: 0 }, 2),
        9 => (Quat { s: 0, x: 1, y: 0, z: 1 }, 2),
        10 => (Quat { s: -1, x: 0, y: -1, z: 0 }, 2),
        11 => (Quat { s: 0, x: -1, y: 0, z: -1 }, 2),
        12 => (Quat { s: 0, x: 1, y: 0, z: 0 }, 1),
        13 => (Quat { s: 0, x: 0, y: -1, z: 0 }, 1),
        14 => (Quat { s: 0, x: -1, y: 0, z: 0 }, 1),
        _ => (Quat { s: 0, x: 0, y: 1, z: 0 }, 1),
    }
}

/// The canonical rotation of an orientation code.
pub fn to_quat(orientation: u8) -> (q: Quat)
    requires
        orientation < CODES,
    ensures
        q@ == table(orientation as int),
{
    table_entry(orientation).0
}

/// A quaternion whose components may exceed those of a `Quat`, as the
/// product of two rotations does.
struct Wide {
    s: i64,
    x: i64,
    y: i64,
    z: i64,
}

impl Wide {
    spec fn view(&self) -> QuatInt {
        QuatInt { s: self.s as int, x: self.x as int, y: self.y as int, z: self.z as int }
    }

    spec fn bounded(&self) -> bool {
        &&& -0x4_0000_0000 <= self.s <= 0x4_0000_0000
        &&& -0x4_0000_0000 <= self.x <= 0x4_0000_0000
        &&& -0x4_0000_0000 <= self.y <= 0x4_0000_0000
        &&& -0x4_0000_0000 <= self.z <= 0x4_0000_0000
    }
}

/// The product of a table component with another number.
fn scaled(t: i32, v: i64) -> (r: i64)
    requires
        -1 <= t <= 1,
        -0x4_0000_0000 <= v <= 0x4_0000_0000,
    ensures
        r == t * v,
        r == v * t,
        -0x4_0000_0000 <= r <= 0x4_0000_0000,
        -0x8000_0000 <= v <= 0x8000_0000 ==> -0x8000_0000 <= r <= 0x8000_0000,
{
    assert(t * v == v * t) by (nonlinear_arith);
    if t == 0 {
        assert(t * v == 0) by (nonlinear_arith)
            requires t == 0;
        0
    } else if t == 1 {
        assert(t * v == v) by (nonlinear_arith)
            requires t == 1;
        v
    } else {
        assert(t * v == -v) by (nonlinear_arith)
            requires t == -1;
        -v
    }
}

/// The score of `code` for the rotation `q`.
fn score_of(q: &Wide, code: u8) -> (r: i128)
    requires
        q.bounded(),
        code < CODES,
    ensures
        r == score(q.view(), code as int),
{
    let (t, n) = table_entry(code);
    let d: i128 = (scaled(t.s, q.s) + scaled(t.x, q.x) + scaled(t.y, q.y) + scaled(t.z, q.z)) as i128;
    assert(0 <= d * d <= 0x10_0000_0000 * 0x10_0000_0000) by (nonlinear_arith)
        requires -0x10_0000_0000 <= d <= 0x10_0000_0000;
    let ss: i128 = if d >= 0 { d * d } else { -(d * d) };
    if n == 1 {
        2 * ss
    } else {
        ss
    }
}

/// The code of the table entry nearest to `q`.
fn nearest_code(q: &Wide) -> (code: u8)
    requires
        q.bounded(),
    ensures
        is_nearest(q.view(), code as int),
        code == nearest(q.view()),
{
    let mut best: u8 = 0;
    let mut best_score: i128 = score_of(q, 0);
    let mut i: u8 = 1;
    while i < CODES
        invariant
            q.bounded(),
            1 <= i <= CODES,
            best < i,
            best_score == score(q.view(), best as int),
            forall|j: int| 0 <= j < i ==> score(q.view(), j) <= best_score,
            forall|j: int| 0 <= j < best ==> score(q.view(), j) < best_score,
        decreases CODES - i,
    {
        let s = score_of(q, i);
        if s > best_score {
            best = i;
            best_score = s;
        }
        i = i + 1;
    }
    proof {
        lemma_nearest_unique(q.view(), best as int, nearest(q.view()));
    }
    best
}

/// The orientation code whose rotation is nearest to `q`, the lowest code
/// where several are equally near.
pub fn from_quat(q: Quat) -> (code: u8)
    ensures
        is_nearest(q@, code as int),
        code == nearest(q@),
{
    let w = Wide { s: q.s as i64, x: q.x as i64, y: q.y as i64, z: q.z as i64 };
    nearest_code(&w)
}

/// The product of the rotation of `a` with the rotation `q`.
fn table_times(a: u8, q: Quat) -> (w: Wide)
    requires
        a < CODES,
    ensures
        w.bounded(),
        w.view() == qmul(table(a as int), q@),
{
    let t = table_entry(a).0;
    let (qs, qx, qy, qz) = (q.s as i64, q.x as i64, q.y as i64, q.z as i64);
    Wide {
        s: scaled(t.s, qs) - scaled(t.x, qx) - scaled(t.y, qy) - scaled(t.z, qz),
        x: scaled(t.s, qx) + scaled(t.x, qs) + scaled(t.y, qz) - scaled(t.z, qy),
        y: scaled(t.s, qy) - scaled(t.x, qz) + scaled(t.y, qs) + scaled(t.z, qx),
        z: scaled(t.s, qz) + scaled(t.x, qy) - scaled(t.y, qx) + scaled(t.z, qs),
    }
}

/// The orientation reached by turning first by `b`, then by `a`: the code
/// nearest to the product of the two rotations.
pub fn compose(a: u8, b: u8) -> (code: u8)
    requires
        a < CODES,
        b < CODES,
    ensures
        code == composed(a as int, b as int),
        is_nearest(qmul(table(a as int), table(b as int)), code as int),
{
    let w = table_times(a, to_quat(b));
    nearest_code(&w)
}

/// The orientation code nearest to the rotation of `a` followed by `q`.
pub fn rotate_by_quat(a: u8, q: Quat) -> (code: u8)
    requires
        a < CODES,
    ensures
        code == nearest(qmul(table(a as int), q@)),
        is_nearest(qmul(table(a as int), q@), code as int),
{
    let w = table_times(a, q);
    nearest_code(&w)
}

/// The product of `t` and `v`, written out for the three values that a
/// component of a table entry takes.
pub open spec fn unit_times(t: int, v: int) -> int {
    if t == 0 {
        0
    } else if t == 1 {
        v
    } else if t == -1 {
        -v
    } else {
        t * v
    }
}

/// `unit_times` is the product.
pub proof fn lemma_unit_times(t: int, v: int)
    ensures
        unit_times(t, v) == t * v,
        unit_times(t, v) == v * t,
{
    assert(t * v == v * t) by (nonlinear_arith);
    assert(t == 0 ==> t * v == 0) by (nonlinear_arith);
    assert(t == 1 ==> t * v == v) by (nonlinear_arith);
    assert(t == -1 ==> t * v == -v) by (nonlinear_arith);
}

/// The Hamilton product with every product of components taken by
/// `unit_times` on the component of `a`.
spec fn qmul_left(a: QuatInt, b: QuatInt) -> QuatInt {
    QuatInt {
        s: unit_times(a.s, b.s) - unit_times(a.x, b.x) - unit_times(a.y, b.y) - unit_times(
            a.z,
            b.z,
        ),
        x: unit_times(a.s, b.x) + unit_times(a.x, b.s) + unit_times(a.y, b.z) - unit_times(
            a.z,
            b.y,
        ),
        y: unit_times(a.s, b.y) - unit_times(a.x, b.z) + unit_times(a.y, b.s) + unit_times(
            a.z,
            b.x,
        ),
        z: unit_times(a.s, b.z) + unit_times(a.x, b.y) - unit_times(a.y, b.x) + unit_times(
            a.z,
            b.s,
        ),
    }
}

/// The Hamilton product with every product of components taken by
/// `unit_times` on the component of `b`.
spec fn qmul_right(a: QuatInt, b: QuatInt) -> QuatInt {
    QuatInt {
        s: unit_times(b.s, a.s) - unit_times(b.x, a.x) - unit_times(b.y, a.y) - unit_times(
            b.z,
            a.z,
        ),
        x: unit_times(b.x, a.s) + unit_times(b.s, a.x) + unit_times(b.z, a.y) - unit_times(
            b.y,
            a.z,
        ),
        y: unit_times(b.y, a.s) - unit_times(b.z, a.x) + unit_times(b.s, a.y) + unit_times(
            b.x,
            a.z,
        ),
        z: unit_times(b.z, a.s) + unit_times(b.y, a.x) - unit_times(b.x, a.y) + unit_times(
            b.s,
            a.z,
        ),
    }
}

/// The inner product with every product of components taken by
/// `unit_times` on the component of `b`.
spec fn dot_right(a: QuatInt, b: QuatInt) -> int {
    unit_times(b.s, a.s) + unit_times(b.x, a.x) + unit_times(b.y, a.y) + unit_times(b.z, a.z)
}

proof fn lemma_qmul_left(a: QuatInt, b: QuatInt)
    ensures
        qmul(a, b) == qmul_left(a, b),
{
    lemma_unit_times(a.s, b.s);
    lemma_unit_times(a.x, b.x);
    lemma_unit_times(a.y, b.y);
    lemma_unit_times(a.z, b.z);
    lemma_unit_times(a.s, b.x);
    lemma_unit_times(a.x, b.s);
    lemma_unit_times(a.y, b.z);
    lemma_unit_times(a.z, b.y);
    lemma_unit_times(a.s, b.y);
    lemma_unit_times(a.x, b.z);
    lemma_unit_times(a.y, b.s);
    lemma_unit_times(a.z, b.x);
    lemma_unit_times(a.s, b.z);
    lemma_unit_times(a.x, b.y);
    lemma_unit_times(a.y, b.x);
    lemma_unit_times(a.z, b.s);
}

proof fn lemma_qmul_right(a: QuatInt, b: QuatInt)
    ensures
        qmul(a, b) == qmul_right(a, b),
{
    lemma_unit_times(b.s, a.s);
    lemma_unit_times(b.x, a.x);
    lemma_unit_times(b.y, a.y);
    lemma_unit_times(b.z, a.z);
    lemma_unit_times(b.x, a.s);
    lemma_unit_times(b.s, a.x);
    lemma_unit_times(b.z, a.y);
    lemma_unit_times(b.y, a.z);
    lemma_unit_times(b.y, a.s);
    lemma_unit_times(b.z, a.x);
    lemma_unit_times(b.s, a.y);
    lemma_unit_times(b.x, a.z);
    lemma_unit_times(b.z, a.s);
    lemma_unit_times(b.y, a.x);
    lemma_unit_times(b.x, a.y);
    lemma_unit_times(b.s, a.z);
}

proof fn lemma_dot_right(a: QuatInt, b: QuatInt)
    ensures
        dot(a, b) == dot_right(a, b),
{
    lemma_unit_times(b.s, a.s);
    lemma_unit_times(b.x, a.x);
    lemma_unit_times(b.y, a.y);
    lemma_unit_times(b.z, a.z);
}

/// The signed squares of the numbers from -2 to 2.
proof fn lemma_small_signed_squares(d: int)
    requires
        -2 <= d <= 2,
    ensures
        signed_square(d) == if d == 2 {
            4int
        } else if d == 1 {
            1int
        } else if d == 0 {
            0int
        } else if d == -1 {
            -1int
        } else {
            -4int
        },
{
    assert(d == 2 ==> d * d == 4) by (nonlinear_arith);
    assert(d == 1 ==> d * d == 1) by (nonlinear_arith);
    assert(d == 0 ==> d * d == 0) by (nonlinear_arith);
    assert(d == -1 ==> d * d == 1) by (nonlinear_arith);
    assert(d == -2 ==> d * d == 4) by (nonlinear_arith);
}

/// The lattice point that `v` turns into under the rotation of `code`:
/// the vector part of `q v q*` over the squared length of `q`, where `q`
/// is the table entry.
pub open spec fn turned(code: int, v: (int, int, int)) -> (int, int, int) {
    let q = table(code);
    let p = qmul(qmul(q, QuatInt { s: 0, x: v.0, y: v.1, z: v.2 }), conj(q));
    if table_norm2(code) == 2 {
        (p.x / 2, p.y / 2, p.z / 2)
    } else {
        (p.x, p.y, p.z)
    }
}

/// The nearest value that a coordinate can hold.
pub open spec fn saturated(v: int) -> int {
    if v > i32::MAX {
        i32::MAX as int
    } else if v < i32::MIN {
        i32::MIN as int
    } else {
        v
    }
}

/// Whether `v` is a unit step along one axis, in either direction.
pub open spec fn is_axis_unit(v: (int, int, int)) -> bool {
    ||| (v.0 == 1 || v.0 == -1) && v.1 == 0 && v.2 == 0
    ||| v.0 == 0 && (v.1 == 1 || v.1 == -1) && v.2 == 0
    ||| v.0 == 0 && v.1 == 0 && (v.2 == 1 || v.2 == -1)
}

/// Every table rotation sends a lattice point to a lattice point: it
/// permutes the three coordinates and changes signs, so the division in
/// `turned` leaves no remainder.
pub proof fn lemma_turned_exact(code: int, v: (int, int, int))
    requires
        0 <= code < CODES,
    ensures
        qmul(qmul(table(code), QuatInt { s: 0, x: v.0, y: v.1, z: v.2 }), conj(table(code)))
            == (QuatInt {
            s: 0,
            x: unit_times(table_norm2(code), turned(code, v).0),
            y: unit_times(table_norm2(code), turned(code, v).1),
            z: unit_times(table_norm2(code), turned(code, v).2),
        }),
        turned(code, v) == if code == 0 || code == 2 {
            (v.0, v.1, v.2)
        } else if code == 1 || code == 3 {
            (-v.0, -v.1, v.2)
        } else if code == 4 || code == 6 {
            (v.0, -v.2, v.1)
        } else if code == 5 || code == 7 {
            (-v.0, -v.2, -v.1)
        } else if code == 8 || code == 10 {
            (v.2, v.1, -v.0)
        } else if code == 9 || code == 11 {
            (v.2, -v.1, v.0)
        } else if code == 12 || code == 14 {
            (v.0, -v.1, -v.2)
        } else {
            (-v.0, v.1, -v.2)
        },
{
    let q = table(code);
    let u = QuatInt { s: 0, x: v.0, y: v.1, z: v.2 };
    lemma_qmul_left(q, u);
    lemma_qmul_right(qmul(q, u), conj(q));
    lemma_unit_times(table_norm2(code), turned(code, v).0);
    lemma_unit_times(table_norm2(code), turned(code, v).1);
    lemma_unit_times(table_norm2(code), turned(code, v).2);
}

/// Every table rotation sends a unit step along an axis to a unit step
/// along an axis.
pub proof fn lemma_turned_keeps_axis_units(code: int, v: (int, int, int))
    requires
        0 <= code < CODES,
        is_axis_unit(v),
    ensures
        is_axis_unit(turned(code, v)),
        is_axis_unit(
            (
                saturated(turned(code, v).0),
                saturated(turned(code, v).1),
                saturated(turned(code, v).2),
            ),
        ),
{
    lemma_turned_exact(code, v);
}

/// The coordinate that holds `v`, or the nearest one.
fn saturate(v: i64) -> (r: i32)
    ensures
        r == saturated(v as int),
{
    if v > i32::MAX as i64 {
        i32::MAX
    } else if v < i32::MIN as i64 {
        i32::MIN
    } else {
        v as i32
    }
}

/// Turns the lattice point `(x, y, z)` about the origin by the rotation of
/// `orientation`. A coordinate that leaves the range of `i32` becomes the
/// nearest one inside it.
pub fn rotate_integer(orientation: u8, x: i32, y: i32, z: i32) -> (r: (i32, i32, i32))
    requires
        orientation < CODES,
    ensures
        r.0 == saturated(turned(orientation as int, (x as int, y as int, z as int)).0),
        r.1 == saturated(turned(orientation as int, (x as int, y as int, z as int)).1),
        r.2 == saturated(turned(orientation as int, (x as int, y as int, z as int)).2),
{
    proof {
        lemma_turned_exact(orientation as int, (x as int, y as int, z as int));
    }
    let (a, b, c) = (x as i64, y as i64, z as i64);
    let (p, q, r): (i64, i64, i64) = match orientation {
        0 | 2 => (a, b, c),
        1 | 3 => (-a, -b, c),
        4 | 6 => (a, -c, b),
        5 | 7 => (-a, -c, -b),
        8 | 10 => (c, b, -a),
        9 | 11 => (c, -b, a),
        12 | 14 => (a, -b, -c),
        _ => (-a, b, -c),
    };
    (saturate(p), saturate(q), saturate(r))
}

/// The squared length of every table entry is what `table_norm2` says.
pub proof fn lemma_table_norm2(code: int)
    requires
        0 <= code < CODES,
    ensures
        norm2(table(code)) == table_norm2(code),
{
    lemma_dot_right(table(code), table(code));
}

/// The product of a table rotation with the identity, on either side, is
/// the table rotation itself.
pub proof fn lemma_identity_product(code: int)
    requires
        0 <= code < CODES,
    ensures
        qmul(table(code), table(IDENTITY as int)) == table(code),
        qmul(table(IDENTITY as int), table(code)) == table(code),
{
    lemma_qmul_left(table(IDENTITY as int), table(code));
    lemma_qmul_right(table(code), table(IDENTITY as int));
}

/// Every table rotation is nearer to its own code than to any other.
pub proof fn lemma_table_entry_nearest(code: int)
    requires
        0 <= code < CODES,
    ensures
        is_nearest(table(code), code),
        nearest(table(code)) == code,
{
    assert forall|j: int| 0 <= j < CODES implies score(table(code), j) <= score(
        table(code),
        code,
    ) && (j != code ==> score(table(code), j) < score(table(code), code)) by {
        lemma_table_scores(code, j);
    }
    assert(is_nearest(table(code), code));
    lemma_nearest_unique(table(code), code, nearest(table(code)));
}

/// The score of a table rotation for its own code is larger than for any
/// other code.
proof fn lemma_table_scores(code: int, j: int)
    requires
        0 <= code < CODES,
        0 <= j < CODES,
    ensures
        score(table(code), j) <= score(table(code), code),
        j != code ==> score(table(code), j) < score(table(code), code),
{
    lemma_dot_right(table(code), table(j));
    lemma_dot_right(table(code), table(code));
    lemma_small_signed_squares(dot(table(code), table(j)));
    lemma_small_signed_squares(dot(table(code), table(code)));
}

/// Composing with the identity on either side gives the same orientation
/// back, and every orientation is the code of its own rotation.
pub proof fn lemma_compose_identity(code: int)
    requires
        0 <= code < CODES,
    ensures
        composed(code, IDENTITY as int) == code,
        composed(IDENTITY as int, code) == code,
        nearest(table(code)) == code,
{
    lemma_identity_product(code);
    lemma_table_entry_nearest(code);
}

} // verus!
