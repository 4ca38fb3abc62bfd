use vstd::prelude::*;
use crate::color::{Color, bgra_word};
use crate::line::{LineIterator, line_len, line_point, minor_offset};
use crate::utils::{pixel_slot, lemma_slot_coordinates, lemma_coordinates_of_slot};

verus! {

/// A vertex position in screen space, in whole pixels.
#[derive(Clone, Copy, Debug, PartialEq, Eq, Structural)]
pub struct ScreenPoint {
    pub x: u32,
    pub y: u32,
}

impl ScreenPoint {
    pub fn new(x: u32, y: u32) -> (p: ScreenPoint)
        ensures
            p == (ScreenPoint { x, y }),
    {
        ScreenPoint { x, y }
    }
}

/// The inverse of the edge tolerance: a pixel within `1 / EDGE_TOLERANCE_INV`
/// of an edge counts as covered.
pub const EDGE_TOLERANCE_INV: i128 = 100;

/// `2^32`, a bound on the difference of two coordinates.
const COORD_SPAN: i128 = 0x1_0000_0000;

pub open spec fn min3(a: int, b: int, c: int) -> int {
    if a <= b && a <= c {
        a
    } else if b <= c {
        b
    } else {
        c
    }
}

pub open spec fn max3(a: int, b: int, c: int) -> int {
    if a >= b && a >= c {
        a
    } else if b >= c {
        b
    } else {
        c
    }
}

/// Whether `(px, py)` lies in the triangle's bounding box, bounds included.
pub open spec fn in_bounding_box(t: Seq<ScreenPoint>, px: int, py: int) -> bool {
    &&& min3(t[0].x as int, t[1].x as int, t[2].x as int) <= px
    &&& px <= max3(t[0].x as int, t[1].x as int, t[2].x as int)
    &&& min3(t[0].y as int, t[1].y as int, t[2].y as int) <= py
    &&& py <= max3(t[0].y as int, t[1].y as int, t[2].y as int)
}

/// The vector `u = (x2 - x0, x1 - x0, x0 - px) × (y2 - y0, y1 - y0, y0 - py)`:
/// the barycentric weights of `(px, py)` are
/// `(1 - (u.0 + u.1) / u.2, u.1 / u.2, u.0 / u.2)`.
pub open spec fn bary_u(t: Seq<ScreenPoint>, px: int, py: int) -> (int, int, int) {
    let ax = t[2].x - t[0].x;
    let ay = t[1].x - t[0].x;
    let az = t[0].x - px;
    let bx = t[2].y - t[0].y;
    let by = t[1].y - t[0].y;
    let bz = t[0].y - py;
    (ay * bz - az * by, az * bx - ax * bz, ax * by - ay * bx)
}

/// Whether all three barycentric weights of `(px, py)` are strictly positive;
/// a weight `n / d` is positive exactly when `n * d > 0`.
pub open spec fn strictly_inside(t: Seq<ScreenPoint>, px: int, py: int) -> bool {
    let u = bary_u(t, px, py);
    &&& u.2 != 0
    &&& (u.2 - u.0 - u.1) * u.2 > 0
    &&& u.1 * u.2 > 0
    &&& u.0 * u.2 > 0
}

/// Whether the squared distance from `(px, py)` to the segment from `(ax, ay)`
/// to `(bx, by)` is at most the squared edge tolerance.
pub open spec fn near_segment(ax: int, ay: int, bx: int, by: int, px: int, py: int) -> bool {
    let e2 = EDGE_TOLERANCE_INV * EDGE_TOLERANCE_INV;
    let dx = bx - ax;
    let dy = by - ay;
    let vx = px - ax;
    let vy = py - ay;
    let len2 = dx * dx + dy * dy;
    let dot = vx * dx + vy * dy;
    let c = vx * dy - vy * dx;
    if len2 == 0 {
        e2 * ((px - bx) * (px - bx) + (py - by) * (py - by)) <= 1
    } else if dot < 0 {
        e2 * (vx * vx + vy * vy) <= 1
    } else if dot <= len2 {
        e2 * (c * c) <= len2
    } else {
        e2 * ((px - bx) * (px - bx) + (py - by) * (py - by)) <= 1
    }
}

/// Whether `(px, py)` lies within the edge tolerance of one of the triangle's
/// three edges.
pub open spec fn near_an_edge(t: Seq<ScreenPoint>, px: int, py: int) -> bool {
    ||| near_segment(t[0].x as int, t[0].y as int, t[1].x as int, t[1].y as int, px, py)
    ||| near_segment(t[1].x as int, t[1].y as int, t[2].x as int, t[2].y as int, px, py)
    ||| near_segment(t[2].x as int, t[2].y as int, t[0].x as int, t[0].y as int, px, py)
}

/// The coverage test: the pixel lies in the bounding box and either strictly
/// inside the triangle or within the edge tolerance of one of its edges.
pub open spec fn covered(t: Seq<ScreenPoint>, px: int, py: int) -> bool {
    in_bounding_box(t, px, py) && (strictly_inside(t, px, py) || near_an_edge(t, px, py))
}

/// `a * b > 0` exactly when `a` and `b` are both positive or both negative.
proof fn lemma_product_positive(a: int, b: int)
    ensures
        (a * b > 0) == ((a > 0 && b > 0) || (a < 0 && b < 0)),
        (a * b >= 0) == (a == 0 || b == 0 || (a > 0 && b > 0) || (a < 0 && b < 0)),
{
    assert((a * b > 0) == ((a > 0 && b > 0) || (a < 0 && b < 0))) by (nonlinear_arith);
    assert((a * b >= 0) == (a == 0 || b == 0 || (a > 0 && b > 0) || (a < 0 && b < 0))) by (nonlinear_arith);
}

fn same_sign(a: i128, b: i128) -> (r: bool)
    ensures
        r == (a * b > 0),
{
    proof {
        lemma_product_positive(a as int, b as int);
    }
    (a > 0 && b > 0) || (a < 0 && b < 0)
}

/// `p * s - q * r` for factors of at most `2^32` in size.
fn cross2(p: i128, q: i128, r: i128, s: i128) -> (c: i128)
    requires
        -COORD_SPAN <= p <= COORD_SPAN,
        -COORD_SPAN <= q <= COORD_SPAN,
        -COORD_SPAN <= r <= COORD_SPAN,
        -COORD_SPAN <= s <= COORD_SPAN,
    ensures
        c == p * s - q * r,
        -2 * COORD_SPAN * COORD_SPAN <= c <= 2 * COORD_SPAN * COORD_SPAN,
{
    proof {
        lemma_bounded_product(p as int, s as int);
        lemma_bounded_product(q as int, r as int);
    }
    p * s - q * r
}

proof fn lemma_bounded_product(a: int, b: int)
    requires
        -COORD_SPAN <= a <= COORD_SPAN,
        -COORD_SPAN <= b <= COORD_SPAN,
    ensures
        -COORD_SPAN * COORD_SPAN <= a * b <= COORD_SPAN * COORD_SPAN,
        0 <= a * a <= COORD_SPAN * COORD_SPAN,
{
    vstd::arithmetic::mul::lemma_mul_upper_bound(abs(a), COORD_SPAN as int, abs(b), COORD_SPAN as int);
    vstd::arithmetic::mul::lemma_mul_upper_bound(abs(a), COORD_SPAN as int, abs(a), COORD_SPAN as int);
    assert(abs(a) * abs(b) == a * b || abs(a) * abs(b) == -(a * b)) by (nonlinear_arith);
    assert(abs(a) * abs(a) == a * a) by (nonlinear_arith);
    assert(abs(a) * abs(b) >= 0) by (nonlinear_arith);
}

pub open spec fn abs(a: int) -> int {
    if a < 0 {
        -a
    } else {
        a
    }
}

/// The vector `u` of the barycentric formulation, computed exactly.
fn bary_vector(px: u32, py: u32, t: &[ScreenPoint]) -> (u: (i128, i128, i128))
    requires
        t@.len() == 3,
    ensures
        (u.0 as int, u.1 as int, u.2 as int) == bary_u(t@, px as int, py as int),
        -2 * COORD_SPAN * COORD_SPAN <= u.0 <= 2 * COORD_SPAN * COORD_SPAN,
        -2 * COORD_SPAN * COORD_SPAN <= u.1 <= 2 * COORD_SPAN * COORD_SPAN,
        -2 * COORD_SPAN * COORD_SPAN <= u.2 <= 2 * COORD_SPAN * COORD_SPAN,
{
    let ax = t[2].x as i128 - t[0].x as i128;
    let ay = t[1].x as i128 - t[0].x as i128;
    let az = t[0].x as i128 - px as i128;
    let bx = t[2].y as i128 - t[0].y as i128;
    let by = t[1].y as i128 - t[0].y as i128;
    let bz = t[0].y as i128 - py as i128;
    (cross2(ay, az, by, bz), cross2(az, ax, bz, bx), cross2(ax, ay, bx, by))
}

/// Whether `(x, y)` is strictly inside triangle `t`: all three barycentric
/// weights are positive.
fn naive_point_in_triangle(point: (u32, u32), t: &[ScreenPoint]) -> (r: bool)
    requires
        t@.len() == 3,
    ensures
        r == strictly_inside(t@, point.0 as int, point.1 as int),
{
    let u = bary_vector(point.0, point.1, t);
    u.2 != 0 && same_sign(u.2 - u.0 - u.1, u.2) && same_sign(u.1, u.2) && same_sign(u.0, u.2)
}

/// `a * a + b * b` for values of at most `2^32` in size.
fn square_length(a: i128, b: i128) -> (r: i128)
    requires
        -COORD_SPAN <= a <= COORD_SPAN,
        -COORD_SPAN <= b <= COORD_SPAN,
    ensures
        r == a * a + b * b,
        0 <= r <= 2 * COORD_SPAN * COORD_SPAN,
{
    proof {
        lemma_bounded_product(a as int, a as int);
        lemma_bounded_product(b as int, b as int);
    }
    a * a + b * b
}

/// `a * c + b * d` for values of at most `2^32` in size.
fn dot2(a: i128, b: i128, c: i128, d: i128) -> (r: i128)
    requires
        -COORD_SPAN <= a <= COORD_SPAN,
        -COORD_SPAN <= b <= COORD_SPAN,
        -COORD_SPAN <= c <= COORD_SPAN,
        -COORD_SPAN <= d <= COORD_SPAN,
    ensures
        r == a * c + b * d,
{
    proof {
        lemma_bounded_product(a as int, c as int);
        lemma_bounded_product(b as int, d as int);
    }
    a * c + b * d
}

/// Whether `(px, py)` lies within the edge tolerance of the segment from
/// `(ax, ay)` to `(bx, by)`, decided exactly.
fn point_near_segment(ax: u32, ay: u32, bx: u32, by: u32, px: u32, py: u32) -> (r: bool)
    ensures
        r == near_segment(ax as int, ay as int, bx as int, by as int, px as int, py as int),
{
    let e2: i128 = EDGE_TOLERANCE_INV * EDGE_TOLERANCE_INV;
    let dx = bx as i128 - ax as i128;
    let dy = by as i128 - ay as i128;
    let vx = px as i128 - ax as i128;
    let vy = py as i128 - ay as i128;
    let wx = px as i128 - bx as i128;
    let wy = py as i128 - by as i128;
    let len2 = square_length(dx, dy);
    let dot = dot2(vx, vy, dx, dy);
    if len2 == 0 {
        e2 * square_length(wx, wy) <= 1
    } else if dot < 0 {
        e2 * square_length(vx, vy) <= 1
    } else if dot <= len2 {
        let c = cross2(vx, vy, dx, dy);
        let big: i128 = 4 * COORD_SPAN;
        if c > big || c < -big {
            proof {
                assert(e2 * (c * c) > len2) by (nonlinear_arith)
                    requires
                        c > big || c < -big,
                        big == 4 * COORD_SPAN,
                        len2 <= 2 * COORD_SPAN * COORD_SPAN,
                        e2 == 10000,
                ;
            }
            false
        } else {
            assert(0 <= c * c <= big * big) by (nonlinear_arith)
                requires
                    -big <= c <= big,
            ;
            e2 * (c * c) <= len2
        }
    } else {
        e2 * square_length(wx, wy) <= 1
    }
}

/// Whether `(px, py)` lies in the triangle's bounding box. Against integer
/// pixels, widening the box by less than a pixel changes nothing.
fn point_in_triangle_bounding_box(t: &[ScreenPoint], px: u32, py: u32) -> (r: bool)
    requires
        t@.len() == 3,
    ensures
        r == in_bounding_box(t@, px as int, py as int),
{
    let (min_x, min_y, max_x, max_y) = bounding_box(t);
    !(px < min_x || max_x < px || py < min_y || max_y < py)
}

/// The triangle's bounding box as `(min_x, min_y, max_x, max_y)`.
fn bounding_box(t: &[ScreenPoint]) -> (r: (u32, u32, u32, u32))
    requires
        t@.len() == 3,
    ensures
        r.0 as int == min3(t@[0].x as int, t@[1].x as int, t@[2].x as int),
        r.1 as int == min3(t@[0].y as int, t@[1].y as int, t@[2].y as int),
        r.2 as int == max3(t@[0].x as int, t@[1].x as int, t@[2].x as int),
        r.3 as int == max3(t@[0].y as int, t@[1].y as int, t@[2].y as int),
{
    let (x0, x1, x2) = (t[0].x, t[1].x, t[2].x);
    let (y0, y1, y2) = (t[0].y, t[1].y, t[2].y);
    let min_x = if x0 <= x1 && x0 <= x2 { x0 } else if x1 <= x2 { x1 } else { x2 };
    let min_y = if y0 <= y1 && y0 <= y2 { y0 } else if y1 <= y2 { y1 } else { y2 };
    let max_x = if x0 >= x1 && x0 >= x2 { x0 } else if x1 >= x2 { x1 } else { x2 };
    let max_y = if y0 >= y1 && y0 >= y2 { y0 } else if y1 >= y2 { y1 } else { y2 };
    (min_x, min_y, max_x, max_y)
}

/// The coverage test for pixel `point` against triangle `triangle`.
pub fn point_in_triangle(point: (u32, u32), triangle: &[ScreenPoint]) -> (r: bool)
    requires
        triangle@.len() == 3,
    ensures
        r == covered(triangle@, point.0 as int, point.1 as int),
{
    let (x, y) = point;
    if !point_in_triangle_bounding_box(triangle, x, y) {
        return false;
    }
    if naive_point_in_triangle(point, triangle) {
        return true;
    }
    let (x1, y1) = (triangle[0].x, triangle[0].y);
    let (x2, y2) = (triangle[1].x, triangle[1].y);
    let (x3, y3) = (triangle[2].x, triangle[2].y);
    point_near_segment(x1, y1, x2, y2, x, y) || point_near_segment(x2, y2, x3, y3, x, y)
        || point_near_segment(x3, y3, x1, y1, x, y)
}

/// Barycentric weights `(w0 / denom, w1 / denom, w2 / denom)` of a point, kept
/// as exact fractions with a common denominator.
#[derive(Clone, Copy, Debug, PartialEq, Eq, Structural)]
pub struct Barycentric {
    pub w0: i128,
    pub w1: i128,
    pub w2: i128,
    pub denom: i128,
}

/// The barycentric weights of `point` in `tri`, or `None` when the triangle is
/// degenerate or one of the weights is negative.
pub fn barycentric(point: (u32, u32), tri: &[ScreenPoint]) -> (r: Option<Barycentric>)
    requires
        tri@.len() == 3,
    ensures
        ({
            let u = bary_u(tri@, point.0 as int, point.1 as int);
            let n0 = u.2 - u.0 - u.1;
            &&& r.is_some() <==> (u.2 != 0 && n0 * u.2 >= 0 && u.1 * u.2 >= 0 && u.0 * u.2 >= 0)
            &&& r.is_some() ==> r.unwrap().w0 == n0 && r.unwrap().w1 == u.1 && r.unwrap().w2 == u.0
                && r.unwrap().denom == u.2
        }),
{
    let u = bary_vector(point.0, point.1, tri);
    let n0 = u.2 - u.0 - u.1;
    proof {
        lemma_product_positive(n0 as int, u.2 as int);
        lemma_product_positive(u.1 as int, u.2 as int);
        lemma_product_positive(u.0 as int, u.2 as int);
    }
    if u.2 == 0 {
        return None;
    }
    let neg = u.2 < 0;
    if (n0 != 0 && (n0 < 0) != neg) || (u.1 != 0 && (u.1 < 0) != neg) || (u.0 != 0 && (u.0 < 0) != neg) {
        None
    } else {
        Some(Barycentric { w0: n0, w1: u.1, w2: u.0, denom: u.2 })
    }
}

/// The covered pixels of row `y` with `lo <= x < n`, left to right.
pub open spec fn row_upto(t: Seq<ScreenPoint>, y: int, lo: int, n: int) -> Seq<(u32, u32)>
    decreases n - lo,
{
    if n <= lo {
        Seq::empty()
    } else if covered(t, n - 1, y) {
        row_upto(t, y, lo, n - 1).push(((n - 1) as u32, y as u32))
    } else {
        row_upto(t, y, lo, n - 1)
    }
}

/// The covered pixels of row `y` of the triangle's bounding box, left to right.
pub open spec fn covered_row(t: Seq<ScreenPoint>, y: int) -> Seq<(u32, u32)> {
    row_upto(t, y, min3(t[0].x as int, t[1].x as int, t[2].x as int), max3(t[0].x as int, t[1].x as int, t[2].x as int) + 1)
}

/// Whether one of the first `n` entries of `row` is the pixel `(px, py)`.
pub open spec fn row_has(row: Seq<(u32, u32)>, n: int, px: int, py: int) -> bool {
    exists|k: int| 0 <= k < n && #[trigger] row[k].0 as int == px && row[k].1 as int == py
}

/// A row holds exactly the covered pixels of that row in its range.
proof fn lemma_row_members(t: Seq<ScreenPoint>, y: int, lo: int, n: int, px: int)
    requires
        0 <= lo,
        n <= 0x1_0000_0000,
        0 <= y < 0x1_0000_0000,
    ensures
        row_has(row_upto(t, y, lo, n), row_upto(t, y, lo, n).len() as int, px, y) <==> (lo <= px < n
            && covered(t, px, y)),
        forall|k: int|
            0 <= k < row_upto(t, y, lo, n).len() ==> #[trigger] row_upto(t, y, lo, n)[k].1 as int == y,
    decreases n - lo,
{
    if n > lo {
        lemma_row_members(t, y, lo, n - 1, px);
        let prev = row_upto(t, y, lo, n - 1);
        let cur = row_upto(t, y, lo, n);
        if covered(t, n - 1, y) {
            assert(cur == prev.push(((n - 1) as u32, y as u32)));
            if row_has(prev, prev.len() as int, px, y) {
                let k = choose|k: int| 0 <= k < prev.len() && #[trigger] prev[k].0 as int == px && prev[k].1 as int == y;
                assert(cur[k] == prev[k]);
            }
            if row_has(cur, cur.len() as int, px, y) {
                let k = choose|k: int| 0 <= k < cur.len() && #[trigger] cur[k].0 as int == px && cur[k].1 as int == y;
                if k < prev.len() {
                    assert(cur[k] == prev[k]);
                    assert(row_has(prev, prev.len() as int, px, y));
                }
            }
            if px == n - 1 && covered(t, px, y) {
                assert(cur[prev.len() as int].0 as int == px);
            }
        }
    }
}

/// The covered pixels of row `y` with `lo <= x <= hi`, left to right, taken
/// from the horizontal line through that run.
fn scan_row(t: &[ScreenPoint], y: u32, lo: u32, hi: u32) -> (r: Vec<(u32, u32)>)
    requires
        t@.len() == 3,
        lo <= hi,
    ensures
        r@ == row_upto(t@, y as int, lo as int, hi as int + 1),
{
    let mut r: Vec<(u32, u32)> = Vec::new();
    let mut run = LineIterator::new(lo, y, hi, y);
    proof {
        lemma_horizontal_run(lo as int, hi as int, y as int);
    }
    loop
        invariant
            t@.len() == 3,
            lo <= hi,
            run.wf(),
            run.ends() == (lo as int, y as int, hi as int, y as int),
            run.total() == hi - lo + 1,
            0 <= run.emitted() <= run.total(),
            forall|k: int|
                0 <= k < hi - lo + 1 ==> #[trigger] line_point(lo as int, y as int, hi as int, y as int, k) == (
                lo + k,
                y as int,
            ),
            r@ == row_upto(t@, y as int, lo as int, lo + run.emitted()),
        ensures
            run.emitted() == run.total(),
        decreases run.total() - run.emitted(),
    {
        let ghost k = run.emitted();
        match run.next() {
            None => {
                break;
            },
            Some(p) => {
                assert(line_point(lo as int, y as int, hi as int, y as int, k) == (lo + k, y as int));
                if point_in_triangle(p, t) {
                    r.push(p);
                }
            },
        }
    }
    r
}

/// The horizontal line from `(lo, y)` to `(hi, y)` runs through `(lo + k, y)`.
proof fn lemma_horizontal_run(lo: int, hi: int, y: int)
    requires
        lo <= hi,
    ensures
        line_len(lo, y, hi, y) == hi - lo + 1,
        forall|k: int| 0 <= k < hi - lo + 1 ==> #[trigger] line_point(lo, y, hi, y, k) == (lo + k, y),
{
    if hi > lo {
        vstd::arithmetic::div_mod::lemma_fundamental_div_mod_converse(hi - lo, 2 * (hi - lo), 0, hi - lo);
        assert(minor_offset(0, hi - lo, 0) == 0) by {
            assert(2 * 0 * 0 + (hi - lo) == hi - lo);
        }
        assert forall|k: int| 0 <= k < hi - lo + 1 implies #[trigger] line_point(lo, y, hi, y, k) == (lo + k, y) by {
            assert(2 * k * 0 == 0) by (nonlinear_arith);
        }
    }
}

/// A lazy producer of a triangle's covered pixels, one row of its bounding
/// box at a time, top to bottom.
pub struct TriangleIterator {
    bb_min_x: u32,
    bb_max_x: u32,
    bb_min_y: u32,
    bb_max_y: u32,
    triangle: Vec<ScreenPoint>,
    y: u64,
}

impl TriangleIterator {
    /// The triangle being rasterized.
    pub closed spec fn triangle(&self) -> Seq<ScreenPoint> {
        self.triangle@
    }

    /// The row that the next call hands out.
    pub closed spec fn row(&self) -> int {
        self.y as int
    }

    pub closed spec fn wf(&self) -> bool {
        let t = self.triangle@;
        &&& t.len() == 3
        &&& self.bb_min_x as int == min3(t[0].x as int, t[1].x as int, t[2].x as int)
        &&& self.bb_max_x as int == max3(t[0].x as int, t[1].x as int, t[2].x as int)
        &&& self.bb_min_y as int == min3(t[0].y as int, t[1].y as int, t[2].y as int)
        &&& self.bb_max_y as int == max3(t[0].y as int, t[1].y as int, t[2].y as int)
        &&& self.bb_min_y <= self.y <= self.bb_max_y as u64 + 1
    }

    /// A producer of the rows of `triangle`, starting at the top of its
    /// bounding box.
    pub fn new(triangle: &[ScreenPoint]) -> (it: TriangleIterator)
        requires
            triangle@.len() == 3,
        ensures
            it.wf(),
            it.triangle() == triangle@,
            it.row() == min3(triangle@[0].y as int, triangle@[1].y as int, triangle@[2].y as int),
    {
        let (bb_min_x, bb_min_y, bb_max_x, bb_max_y) = bounding_box(triangle);
        let mut copy: Vec<ScreenPoint> = Vec::new();
        copy.push(triangle[0]);
        copy.push(triangle[1]);
        copy.push(triangle[2]);
        assert(copy@ == triangle@);
        TriangleIterator { bb_min_x, bb_max_x, bb_min_y, bb_max_y, triangle: copy, y: bb_min_y as u64 }
    }

    /// Hands out the covered pixels of the next row, left to right, or `None`
    /// once the last row of the bounding box has been produced.
    pub fn next(&mut self) -> (r: Option<Vec<(u32, u32)>>)
        requires
            old(self).wf(),
        ensures
            final(self).wf(),
            final(self).triangle() == old(self).triangle(),
            ({
                let t = old(self).triangle();
                let max_y = max3(t[0].y as int, t[1].y as int, t[2].y as int);
                &&& old(self).row() <= max_y ==> {
                    &&& r.is_some()
                    &&& r.unwrap()@ == covered_row(t, old(self).row())
                    &&& final(self).row() == old(self).row() + 1
                }
                &&& old(self).row() > max_y ==> r.is_none() && final(self).row() == old(self).row()
            }),
    {
        if self.y > self.bb_max_y as u64 {
            return None;
        }
        let row = scan_row(self.triangle.as_slice(), self.y as u32, self.bb_min_x, self.bb_max_x);
        self.y = self.y + 1;
        Some(row)
    }
}

/// Fills the covered pixels of `triangle` with `color` in a row-major buffer
/// `width` pixels wide. Pixels right of the width or past the buffer's end are
/// skipped.
pub fn draw(triangle: &[ScreenPoint], color: Color, buffer: &mut Vec<u32>, buffer_width: usize)
    requires
        triangle@.len() == 3,
    ensures
        final(buffer)@.len() == old(buffer)@.len(),
        forall|i: int|
            0 <= i < old(buffer)@.len() ==> #[trigger] final(buffer)@[i] as int == if buffer_width > 0
                && covered(triangle@, i % (buffer_width as int), i / (buffer_width as int)) {
                bgra_word(color)
            } else {
                old(buffer)@[i] as int
            },
{
    let word = color.bgra();
    let ghost w = buffer_width as int;
    let ghost t = triangle@;
    let mut it = TriangleIterator::new(triangle);
    loop
        invariant
            it.wf(),
            it.triangle() == t,
            t.len() == 3,
            w == buffer_width as int,
            buffer@.len() == old(buffer)@.len(),
            forall|i: int|
                0 <= i < old(buffer)@.len() ==> #[trigger] buffer@[i] as int == if w > 0 && covered(
                    t,
                    i % w,
                    i / w,
                ) && i / w < it.row() {
                    word as int
                } else {
                    old(buffer)@[i] as int
                },
        ensures
            it.row() > max3(t[0].y as int, t[1].y as int, t[2].y as int),
        decreases max3(t[0].y as int, t[1].y as int, t[2].y as int) + 1 - it.row(),
    {
        let ghost y = it.row();
        match it.next() {
            None => {
                break;
            },
            Some(row) => {
                proof {
                    lemma_row_members_all(t, y);
                }
                let mut j: usize = 0;
                while j < row.len()
                    invariant
                        0 <= j <= row@.len(),
                        w == buffer_width as int,
                        row@ == covered_row(t, y),
                        buffer@.len() == old(buffer)@.len(),
                        forall|k: int| 0 <= k < row@.len() ==> #[trigger] row@[k].1 as int == y,
                        forall|i: int|
                            0 <= i < old(buffer)@.len() ==> #[trigger] buffer@[i] as int == if w > 0 && ((
                            covered(t, i % w, i / w) && i / w < y) || (i / w == y && row_has(
                                row@,
                                j as int,
                                i % w,
                                i / w,
                            ))) {
                                word as int
                            } else {
                                old(buffer)@[i] as int
                            },
                    decreases row@.len() - j,
                {
                    let p = row[j];
                    let slot = pixel_slot(p.0, p.1, buffer_width, buffer.len());
                    if let Some(s) = slot {
                        buffer.set(s, word);
                        proof {
                            lemma_slot_coordinates(p.0 as int, p.1 as int, w);
                        }
                    }
                    assert forall|i: int| 0 <= i < old(buffer)@.len() implies #[trigger] buffer@[i] as int
                        == if w > 0 && ((covered(t, i % w, i / w) && i / w < y) || (i / w == y && row_has(
                        row@,
                        j + 1,
                        i % w,
                        i / w,
                    ))) {
                        word as int
                    } else {
                        old(buffer)@[i] as int
                    } by {
                        if w > 0 {
                            lemma_coordinates_of_slot(i, w);
                            let px = i % w;
                            let py = i / w;
                            if row_has(row@, j + 1, px, py) && !row_has(row@, j as int, px, py) {
                                let k = choose|k: int| 0 <= k < j + 1 && #[trigger] row@[k].0 as int == px && row@[k].1 as int == py;
                                assert(k == j);
                                assert(slot == Some(i as usize));
                            }
                            if row_has(row@, j as int, px, py) {
                                let k = choose|k: int| 0 <= k < j && #[trigger] row@[k].0 as int == px && row@[k].1 as int == py;
                                assert(row_has(row@, j + 1, px, py));
                            }
                            if slot.is_some() && slot.unwrap() as int == i {
                                assert(row_has(row@, j + 1, px, py));
                            }
                        }
                    }
                    j = j + 1;
                }
                proof {
                    assert forall|i: int| 0 <= i < old(buffer)@.len() implies #[trigger] buffer@[i] as int
                        == if w > 0 && covered(t, i % w, i / w) && i / w < y + 1 {
                        word as int
                    } else {
                        old(buffer)@[i] as int
                    } by {
                        if w > 0 {
                            lemma_coordinates_of_slot(i, w);
                            lemma_row_members(t, y, min3(t[0].x as int, t[1].x as int, t[2].x as int), max3(t[0].x as int, t[1].x as int, t[2].x as int) + 1, i % w);
                        }
                    }
                }
            },
        }
    }
    proof {
        assert forall|i: int| 0 <= i < old(buffer)@.len() && w > 0 && #[trigger] covered(t, i % w, i / w)
            implies i / w < it.row() by {}
    }
}

/// Each pixel of a row of the lazy producer lies on that row.
proof fn lemma_row_members_all(t: Seq<ScreenPoint>, y: int)
    requires
        t.len() == 3,
        0 <= y < 0x1_0000_0000,
    ensures
        forall|k: int| 0 <= k < covered_row(t, y).len() ==> #[trigger] covered_row(t, y)[k].1 as int == y,
{
    lemma_row_members(t, y, min3(t[0].x as int, t[1].x as int, t[2].x as int), max3(t[0].x as int, t[1].x as int, t[2].x as int) + 1, 0);
}

/// Twice the signed area of the triangle `(a, b, p)`: positive when `p` lies
/// to the left of the directed edge from `a` to `b`.
pub open spec fn edge_function(a: ScreenPoint, b: ScreenPoint, px: int, py: int) -> int {
    (b.x - a.x) * (py - a.y) - (b.y - a.y) * (px - a.x)
}

/// Whether `(px, py)` lies strictly on the same side of all three directed
/// edges of the triangle.
pub open spec fn same_side_of_edges(t: Seq<ScreenPoint>, px: int, py: int) -> bool {
    let e01 = edge_function(t[0], t[1], px, py);
    let e12 = edge_function(t[1], t[2], px, py);
    let e20 = edge_function(t[2], t[0], px, py);
    (e01 > 0 && e12 > 0 && e20 > 0) || (e01 < 0 && e12 < 0 && e20 < 0)
}

proof fn lemma_edge_identities(t: Seq<ScreenPoint>, px: int, py: int)
    requires
        t.len() == 3,
    ensures
        ({
            let u = bary_u(t, px, py);
            let e01 = edge_function(t[0], t[1], px, py);
            let e12 = edge_function(t[1], t[2], px, py);
            let e20 = edge_function(t[2], t[0], px, py);
            &&& u.0 == -e01
            &&& u.1 == -e20
            &&& u.2 == -(e01 + e12 + e20)
            &&& (e01 + e12 + e20) * px == e12 * t[0].x + e20 * t[1].x + e01 * t[2].x
            &&& (e01 + e12 + e20) * py == e12 * t[0].y + e20 * t[1].y + e01 * t[2].y
        }),
{
    let (x0, y0, x1, y1, x2, y2) = (t[0].x as int, t[0].y as int, t[1].x as int, t[1].y as int, t[2].x as int, t[2].y as int);
    let u = bary_u(t, px, py);
    let e01 = edge_function(t[0], t[1], px, py);
    let e12 = edge_function(t[1], t[2], px, py);
    let e20 = edge_function(t[2], t[0], px, py);
    assert(u.0 == -e01) by (nonlinear_arith)
        requires
            u.0 == (x1 - x0) * (y0 - py) - (x0 - px) * (y1 - y0),
            e01 == (x1 - x0) * (py - y0) - (y1 - y0) * (px - x0),
    ;
    assert(u.1 == -e20) by (nonlinear_arith)
        requires
            u.1 == (x0 - px) * (y2 - y0) - (x2 - x0) * (y0 - py),
            e20 == (x0 - x2) * (py - y2) - (y0 - y2) * (px - x2),
    ;
    let (xa, ya, xb, yb, xc, yc) = (x0 - px, y0 - py, x1 - px, y1 - py, x2 - px, y2 - py);
    assert(e01 == xa * yb - xb * ya) by (nonlinear_arith)
        requires
            e01 == (x1 - x0) * (py - y0) - (y1 - y0) * (px - x0),
            xa == x0 - px && ya == y0 - py && xb == x1 - px && yb == y1 - py,
    ;
    assert(e12 == xb * yc - xc * yb) by (nonlinear_arith)
        requires
            e12 == (x2 - x1) * (py - y1) - (y2 - y1) * (px - x1),
            xb == x1 - px && yb == y1 - py && xc == x2 - px && yc == y2 - py,
    ;
    assert(e20 == xc * ya - xa * yc) by (nonlinear_arith)
        requires
            e20 == (x0 - x2) * (py - y2) - (y0 - y2) * (px - x2),
            xa == x0 - px && ya == y0 - py && xc == x2 - px && yc == y2 - py,
    ;
    assert(u.2 == (xc - xa) * (yb - ya) - (xb - xa) * (yc - ya));
    assert((xc - xa) * (yb - ya) - (xb - xa) * (yc - ya) == -((xa * yb - xb * ya) + (xb * yc - xc * yb) + (xc
        * ya - xa * yc))) by (nonlinear_arith);
    let sum = e01 + e12 + e20;
    assert(e12 * xa == xa * xb * yc - xa * xc * yb) by (nonlinear_arith)
        requires
            e12 == xb * yc - xc * yb,
    ;
    assert(e20 * xb == xb * xc * ya - xa * xb * yc) by (nonlinear_arith)
        requires
            e20 == xc * ya - xa * yc,
    ;
    assert(e01 * xc == xa * xc * yb - xb * xc * ya) by (nonlinear_arith)
        requires
            e01 == xa * yb - xb * ya,
    ;
    assert(e12 * ya == xb * ya * yc - xc * ya * yb) by (nonlinear_arith)
        requires
            e12 == xb * yc - xc * yb,
    ;
    assert(e20 * yb == xc * ya * yb - xa * yb * yc) by (nonlinear_arith)
        requires
            e20 == xc * ya - xa * yc,
    ;
    assert(e01 * yc == xa * yb * yc - xb * ya * yc) by (nonlinear_arith)
        requires
            e01 == xa * yb - xb * ya,
    ;
    assert(e12 * x0 + e20 * x1 + e01 * x2 == e12 * xa + e20 * xb + e01 * xc + sum * px) by (nonlinear_arith)
        requires
            x0 == xa + px && x1 == xb + px && x2 == xc + px,
            sum == e01 + e12 + e20,
    ;
    assert(e12 * y0 + e20 * y1 + e01 * y2 == e12 * ya + e20 * yb + e01 * yc + sum * py) by (nonlinear_arith)
        requires
            y0 == ya + py && y1 == yb + py && y2 == yc + py,
            sum == e01 + e12 + e20,
    ;
}

/// A point is strictly inside exactly when it lies strictly on the same side
/// of all three edges.
pub proof fn lemma_strictly_inside_by_edges(t: Seq<ScreenPoint>, px: int, py: int)
    requires
        t.len() == 3,
    ensures
        strictly_inside(t, px, py) <==> same_side_of_edges(t, px, py),
{
    lemma_edge_identities(t, px, py);
    let u = bary_u(t, px, py);
    let e01 = edge_function(t[0], t[1], px, py);
    let e12 = edge_function(t[1], t[2], px, py);
    let e20 = edge_function(t[2], t[0], px, py);
    assert(u.2 - u.0 - u.1 == -e12);
    lemma_product_positive(-e12, u.2);
    lemma_product_positive(u.1, u.2);
    lemma_product_positive(u.0, u.2);
}

proof fn lemma_weighted_mean_between(e0: int, e1: int, e2: int, a0: int, a1: int, a2: int, p: int)
    requires
        e0 > 0 && e1 > 0 && e2 > 0,
        (e0 + e1 + e2) * p == e0 * a0 + e1 * a1 + e2 * a2,
    ensures
        min3(a0, a1, a2) <= p <= max3(a0, a1, a2),
{
    let lo = min3(a0, a1, a2);
    let hi = max3(a0, a1, a2);
    assert((e0 + e1 + e2) * lo <= (e0 + e1 + e2) * p) by (nonlinear_arith)
        requires
            e0 > 0 && e1 > 0 && e2 > 0,
            (e0 + e1 + e2) * p == e0 * a0 + e1 * a1 + e2 * a2,
            lo <= a0 && lo <= a1 && lo <= a2,
    ;
    assert((e0 + e1 + e2) * p <= (e0 + e1 + e2) * hi) by (nonlinear_arith)
        requires
            e0 > 0 && e1 > 0 && e2 > 0,
            (e0 + e1 + e2) * p == e0 * a0 + e1 * a1 + e2 * a2,
            hi >= a0 && hi >= a1 && hi >= a2,
    ;
    assert(lo <= p) by (nonlinear_arith)
        requires
            e0 + e1 + e2 > 0,
            (e0 + e1 + e2) * lo <= (e0 + e1 + e2) * p,
    ;
    assert(p <= hi) by (nonlinear_arith)
        requires
            e0 + e1 + e2 > 0,
            (e0 + e1 + e2) * p <= (e0 + e1 + e2) * hi,
    ;
}

/// A point strictly inside a triangle lies in its bounding box.
proof fn lemma_inside_within_bounding_box(t: Seq<ScreenPoint>, px: int, py: int)
    requires
        t.len() == 3,
        strictly_inside(t, px, py),
    ensures
        in_bounding_box(t, px, py),
{
    lemma_strictly_inside_by_edges(t, px, py);
    lemma_edge_identities(t, px, py);
    let e01 = edge_function(t[0], t[1], px, py);
    let e12 = edge_function(t[1], t[2], px, py);
    let e20 = edge_function(t[2], t[0], px, py);
    if e01 > 0 {
        lemma_weighted_mean_between(e12, e20, e01, t[0].x as int, t[1].x as int, t[2].x as int, px);
        lemma_weighted_mean_between(e12, e20, e01, t[0].y as int, t[1].y as int, t[2].y as int, py);
    } else {
        assert((-e12 + -e20 + -e01) * px == -e12 * t[0].x + -e20 * t[1].x + -e01 * t[2].x) by (nonlinear_arith)
            requires
                (e01 + e12 + e20) * px == e12 * t[0].x + e20 * t[1].x + e01 * t[2].x,
        ;
        assert((-e12 + -e20 + -e01) * py == -e12 * t[0].y + -e20 * t[1].y + -e01 * t[2].y) by (nonlinear_arith)
            requires
                (e01 + e12 + e20) * py == e12 * t[0].y + e20 * t[1].y + e01 * t[2].y,
        ;
        lemma_weighted_mean_between(-e12, -e20, -e01, t[0].x as int, t[1].x as int, t[2].x as int, px);
        lemma_weighted_mean_between(-e12, -e20, -e01, t[0].y as int, t[1].y as int, t[2].y as int, py);
    }
}

/// Every pixel that the coverage test reports lies in the triangle's bounding
/// box, bounds included.
pub proof fn lemma_covered_within_bounding_box(t: Seq<ScreenPoint>, px: int, py: int)
    requires
        t.len() == 3,
        covered(t, px, py),
    ensures
        min3(t[0].x as int, t[1].x as int, t[2].x as int) <= px <= max3(t[0].x as int, t[1].x as int, t[2].x as int),
        min3(t[0].y as int, t[1].y as int, t[2].y as int) <= py <= max3(t[0].y as int, t[1].y as int, t[2].y as int),
{
}

/// Reversing the direction of an edge negates its edge function.
proof fn lemma_edge_reversed(a: ScreenPoint, b: ScreenPoint, px: int, py: int)
    ensures
        edge_function(b, a, px, py) == -edge_function(a, b, px, py),
{
    let (ax, ay, bx, by) = (a.x as int, a.y as int, b.x as int, b.y as int);
    assert((ax - bx) * (py - by) - (ay - by) * (px - bx) == -((bx - ax) * (py - ay) - (by - ay) * (px - ax))) by (nonlinear_arith);
}

/// A pixel strictly inside a triangle is covered, whatever the order in which
/// the triangle's vertices are given: `(i, j, k)` is any reordering of
/// `(0, 1, 2)`.
pub proof fn lemma_inside_covered_any_order(t: Seq<ScreenPoint>, i: int, j: int, k: int, px: int, py: int)
    requires
        t.len() == 3,
        0 <= i < 3 && 0 <= j < 3 && 0 <= k < 3,
        i != j && j != k && i != k,
        strictly_inside(t, px, py),
    ensures
        covered(seq![t[i], t[j], t[k]], px, py),
{
    let s = seq![t[i], t[j], t[k]];
    lemma_strictly_inside_by_edges(t, px, py);
    lemma_edge_reversed(t[0], t[1], px, py);
    lemma_edge_reversed(t[1], t[2], px, py);
    lemma_edge_reversed(t[2], t[0], px, py);
    assert(same_side_of_edges(s, px, py));
    lemma_strictly_inside_by_edges(s, px, py);
    lemma_inside_within_bounding_box(s, px, py);
}

/// The lazy producer and the eager draw cover the same pixels: a pixel is
/// covered exactly when its row lies in the bounding box and the producer's
/// row for it holds the pixel.
pub proof fn lemma_lazy_rows_match_eager(t: Seq<ScreenPoint>, px: int, py: int)
    requires
        t.len() == 3,
        0 <= px < 0x1_0000_0000,
        0 <= py < 0x1_0000_0000,
    ensures
        covered(t, px, py) <==> (min3(t[0].y as int, t[1].y as int, t[2].y as int) <= py <= max3(
            t[0].y as int,
            t[1].y as int,
            t[2].y as int,
        ) && row_has(covered_row(t, py), covered_row(t, py).len() as int, px, py)),
{
    lemma_row_members(
        t,
        py,
        min3(t[0].x as int, t[1].x as int, t[2].x as int),
        max3(t[0].x as int, t[1].x as int, t[2].x as int) + 1,
        px,
    );
}

} // verus!
