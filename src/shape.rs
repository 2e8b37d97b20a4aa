use vstd::prelude::*;
use crate::geom::Rect;
use crate::polygon::{polygon_covers, polygon_contains};

verus! {

/// A filled shape, in whole-pixel coordinates. A pixel belongs to a shape when
/// its centre `(x + 1/2, y + 1/2)` lies inside it.
pub enum Shape {
    /// Every pixel.
    Everything,
    /// The pixels that the rectangle covers.
    Rectangle(Rect),
    /// The quadrilateral that a line from `from` to `to` of the given thickness
    /// covers: the segment widened by half the thickness on either side.
    Line { from: (i16, i16), to: (i16, i16), thickness: u16 },
    /// A disc with the given centre and radius.
    Circle { cx: i32, cy: i32, radius: i32 },
    /// The rectangle with its corners rounded off by quarter discs of `radius`.
    RoundedRectangle(Rect, i32),
    /// A simple polygon, convex or not, with its vertices in either direction,
    /// moved by `offset` and filled by the even-odd rule.
    Polygon { vertices: Vec<(i32, i32)>, offset: (i32, i32) },
}

/// Whether the centre of pixel `(x, y)` lies in the disc, in doubled coordinates
/// so that the centre is a pair of integers.
pub open spec fn disc_covers(cx: int, cy: int, radius: int, x: int, y: int) -> bool {
    let dx = 2 * x + 1 - 2 * cx;
    let dy = 2 * y + 1 - 2 * cy;
    dx * dx + dy * dy <= 4 * (radius * radius)
}

/// Whether the rounded rectangle covers pixel `(x, y)`: the rectangle inset by
/// `radius` on the left and right, or on the top and bottom, or one of the
/// four corner discs centred `radius` in from each corner.
pub open spec fn rounded_covers(r: Rect, radius: int, x: int, y: int) -> bool {
    let x0 = r.x0 as int;
    let y0 = r.y0 as int;
    let x1 = r.x1 as int;
    let y1 = r.y1 as int;
    ||| (x0 + radius <= x < x1 - radius && y0 <= y < y1)
    ||| (x0 <= x < x1 && y0 + radius <= y < y1 - radius)
    ||| (r.covers(x, y) && disc_covers(x0 + radius, y0 + radius, radius, x, y))
    ||| (r.covers(x, y) && disc_covers(x1 - radius, y0 + radius, radius, x, y))
    ||| (r.covers(x, y) && disc_covers(x0 + radius, y1 - radius, radius, x, y))
    ||| (r.covers(x, y) && disc_covers(x1 - radius, y1 - radius, radius, x, y))
}

/// Whether the centre of pixel `(x, y)` lies within the line's quadrilateral:
/// its projection falls on the segment and its distance from the segment's
/// line is at most half the thickness. In doubled coordinates, with
/// `d = to - from` and `q = centre - from`, that is `0 <= q.d <= d.d` and
/// `(q x d)^2 <= thickness^2 * d.d`. A line of zero length covers nothing.
pub open spec fn line_covers(from: (i16, i16), to: (i16, i16), thickness: u16, x: int, y: int) -> bool {
    let dx = 2 * (to.0 - from.0);
    let dy = 2 * (to.1 - from.1);
    let qx = 2 * x + 1 - 2 * from.0;
    let qy = 2 * y + 1 - 2 * from.1;
    let dot = qx * dx + qy * dy;
    let len2 = dx * dx + dy * dy;
    let cross = qx * dy - qy * dx;
    len2 > 0 && 0 <= dot <= len2 && cross * cross <= (thickness as int) * (thickness as int) * len2
}

/// Whether the shape covers the pixel `(x, y)`.
pub open spec fn shape_covers(s: Shape, x: int, y: int) -> bool {
    match s {
        Shape::Everything => true,
        Shape::Rectangle(r) => r.covers(x, y),
        Shape::Line { from, to, thickness } => line_covers(from, to, thickness, x, y),
        Shape::Circle { cx, cy, radius } => disc_covers(cx as int, cy as int, radius as int, x, y),
        Shape::RoundedRectangle(r, radius) => rounded_covers(r, radius as int, x, y),
        Shape::Polygon { vertices, offset } => polygon_covers(
            vertices@,
            x - offset.0,
            y - offset.1,
        ),
    }
}

/// Whether the centre of pixel `(x, y)` lies within the line's quadrilateral.
fn in_line(from: (i16, i16), to: (i16, i16), thickness: u16, x: i64, y: i64) -> (b: bool)
    requires
        -0x1_0000_0000 <= x <= 0x1_0000_0000,
        -0x1_0000_0000 <= y <= 0x1_0000_0000,
    ensures
        b == line_covers(from, to, thickness, x as int, y as int),
{
    let dx: i128 = 2 * (to.0 as i128 - from.0 as i128);
    let dy: i128 = 2 * (to.1 as i128 - from.1 as i128);
    let qx: i128 = 2 * (x as i128) + 1 - 2 * (from.0 as i128);
    let qy: i128 = 2 * (y as i128) + 1 - 2 * (from.1 as i128);
    let t: i128 = thickness as i128;
    assert(-0x10_0000_0000_0000 <= qx * dx <= 0x10_0000_0000_0000) by (nonlinear_arith)
        requires -0x4_0000_0000 <= qx <= 0x4_0000_0000, -0x4_0000 <= dx <= 0x4_0000;
    assert(-0x10_0000_0000_0000 <= qy * dy <= 0x10_0000_0000_0000) by (nonlinear_arith)
        requires -0x4_0000_0000 <= qy <= 0x4_0000_0000, -0x4_0000 <= dy <= 0x4_0000;
    assert(-0x10_0000_0000_0000 <= qx * dy <= 0x10_0000_0000_0000) by (nonlinear_arith)
        requires -0x4_0000_0000 <= qx <= 0x4_0000_0000, -0x4_0000 <= dy <= 0x4_0000;
    assert(-0x10_0000_0000_0000 <= qy * dx <= 0x10_0000_0000_0000) by (nonlinear_arith)
        requires -0x4_0000_0000 <= qy <= 0x4_0000_0000, -0x4_0000 <= dx <= 0x4_0000;
    assert(0 <= dx * dx <= 0x10_0000_0000) by (nonlinear_arith)
        requires -0x4_0000 <= dx <= 0x4_0000;
    assert(0 <= dy * dy <= 0x10_0000_0000) by (nonlinear_arith)
        requires -0x4_0000 <= dy <= 0x4_0000;
    let dot = qx * dx + qy * dy;
    let len2 = dx * dx + dy * dy;
    let cross = qx * dy - qy * dx;
    assert(0 <= cross * cross <= 0x400_0000_0000_0000_0000_0000_0000) by (nonlinear_arith)
        requires -0x20_0000_0000_0000 <= cross <= 0x20_0000_0000_0000;
    assert(0 <= t * t <= 0x1_0000_0000) by (nonlinear_arith)
        requires 0 <= t <= 0xffff;
    assert(0 <= (t * t) * len2 <= 0x1_0000_0000 * 0x20_0000_0000) by (nonlinear_arith)
        requires 0 <= t * t <= 0x1_0000_0000, 0 <= len2 <= 0x20_0000_0000;
    len2 > 0 && 0 <= dot && dot <= len2 && cross * cross <= (t * t) * len2
}

/// Whether the centre of pixel `(x, y)` lies in the disc.
fn in_disc(cx: i64, cy: i64, radius: i64, x: i64, y: i64) -> (b: bool)
    requires
        -0x2_0000_0000 <= cx <= 0x2_0000_0000,
        -0x2_0000_0000 <= cy <= 0x2_0000_0000,
        -0x2_0000_0000 <= radius <= 0x2_0000_0000,
        -0x1_0000_0000 <= x <= 0x1_0000_0000,
        -0x1_0000_0000 <= y <= 0x1_0000_0000,
    ensures
        b == disc_covers(cx as int, cy as int, radius as int, x as int, y as int),
{
    let dx: i128 = 2 * (x as i128) + 1 - 2 * (cx as i128);
    let dy: i128 = 2 * (y as i128) + 1 - 2 * (cy as i128);
    let rr: i128 = radius as i128;
    assert(0 <= dx * dx <= 0x1000_0000_0000_0000_0000) by (nonlinear_arith)
        requires -0x10_0000_0000 <= dx <= 0x10_0000_0000;
    assert(0 <= dy * dy <= 0x1000_0000_0000_0000_0000) by (nonlinear_arith)
        requires -0x10_0000_0000 <= dy <= 0x10_0000_0000;
    assert(0 <= rr * rr <= 0x4_0000_0000_0000_0000) by (nonlinear_arith)
        requires -0x2_0000_0000 <= rr <= 0x2_0000_0000;
    dx * dx + dy * dy <= 4 * (rr * rr)
}

impl Shape {
    /// Whether the shape covers the pixel `(x, y)`.
    pub fn covers(&self, x: i64, y: i64) -> (b: bool)
        requires
            -0x1_0000_0000 <= x <= 0x1_0000_0000,
            -0x1_0000_0000 <= y <= 0x1_0000_0000,
        ensures
            b == shape_covers(*self, x as int, y as int),
    {
        match self {
            Shape::Everything => true,
            Shape::Line { from, to, thickness } => in_line(*from, *to, *thickness, x, y),
            Shape::Rectangle(r) => r.x0 as i64 <= x && x < r.x1 as i64 && r.y0 as i64 <= y && y
                < r.y1 as i64,
            Shape::Circle { cx, cy, radius } => {
                let dx: i128 = 2 * (x as i128) + 1 - 2 * (*cx as i128);
                let dy: i128 = 2 * (y as i128) + 1 - 2 * (*cy as i128);
                let rr: i128 = *radius as i128;
                assert(0 <= dx * dx <= 0x100_0000_0000_0000_0000) by (nonlinear_arith)
                    requires -0x4_0000_0000 <= dx <= 0x4_0000_0000;
                assert(0 <= dy * dy <= 0x100_0000_0000_0000_0000) by (nonlinear_arith)
                    requires -0x4_0000_0000 <= dy <= 0x4_0000_0000;
                assert(0 <= rr * rr <= 0x1_0000_0000_0000_0000) by (nonlinear_arith)
                    requires -0x1_0000_0000 <= rr <= 0x1_0000_0000;
                dx * dx + dy * dy <= 4 * (rr * rr)
            },
            Shape::RoundedRectangle(r, radius) => {
                let x0 = r.x0 as i64;
                let y0 = r.y0 as i64;
                let x1 = r.x1 as i64;
                let y1 = r.y1 as i64;
                let rr = *radius as i64;
                let inside = x0 <= x && x < x1 && y0 <= y && y < y1;
                (x0 + rr <= x && x < x1 - rr && y0 <= y && y < y1) || (x0 <= x && x < x1 && y0 + rr
                    <= y && y < y1 - rr) || (inside && in_disc(x0 + rr, y0 + rr, rr, x, y)) || (inside
                    && in_disc(x1 - rr, y0 + rr, rr, x, y)) || (inside && in_disc(
                    x0 + rr,
                    y1 - rr,
                    rr,
                    x,
                    y,
                )) || (inside && in_disc(x1 - rr, y1 - rr, rr, x, y))
            },
            Shape::Polygon { vertices, offset } => polygon_contains(
                vertices,
                x - offset.0 as i64,
                y - offset.1 as i64,
            ),
        }
    }
}

} // verus!
