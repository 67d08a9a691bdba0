//! The rasterizer's geometry: what is painted for a shape.
//!
//! A painting is a path and the style in which the path is stroked. The
//! steps of a path have their coordinates in path units, 65536 to the pixel
//! and so 256 to the unit of a point: the ends of an arrow's head fall
//! between the units of points. Putting a painting into pixels is left to
//! the painter that owns them.

use crate::types::{max_int, min_int, Color, Point, Shape, Stroke};
use vstd::prelude::*;

verus! {

/// Path units per fixed-point unit of a point.
pub const PATH_UNITS: i64 = 256;

/// One step of a path, with its coordinates in path units, 65536 to the
/// pixel.
#[derive(Clone, Copy, Debug, PartialEq, Eq, Structural)]
pub enum PathStep {
    /// Start a new open segment here.
    MoveTo { x: i64, y: i64 },
    /// Draw a straight line from the current position to here.
    LineTo { x: i64, y: i64 },
    /// Draw a line back to the start of the segment.
    Close,
}

/// How the ends of an open segment are drawn.
#[derive(Clone, Copy, Debug, PartialEq, Eq, Structural)]
pub enum LineCap {
    /// Cut off at the end point.
    Butt,
    /// A half circle round the end point.
    Round,
    /// A half square round the end point.
    Square,
}

/// How the corner between two lines is drawn.
#[derive(Clone, Copy, Debug, PartialEq, Eq, Structural)]
pub enum LineJoin {
    /// The outer edges run on to a point.
    Miter,
    /// As `Miter`, cut off where the point would reach too far.
    MiterClip,
    /// A circle round the corner.
    Round,
    /// The corner cut straight.
    Bevel,
}

/// The style in which a path is stroked.
#[derive(Clone, Copy, Debug, PartialEq, Eq, Structural)]
pub struct StrokeStyle {
    /// Width of the line, in fixed-point units.
    pub width: u32,
    /// The one colour of the line.
    pub color: Color,
    /// How the ends of its open segments are drawn.
    pub line_cap: LineCap,
    /// How its corners are drawn.
    pub line_join: LineJoin,
}

/// What is painted for a shape: a path, in the surface's own coordinates,
/// and the style of its stroke.
#[derive(Clone, Debug)]
pub struct Painting {
    /// The steps of the path, in order.
    pub path: Vec<PathStep>,
    /// The style in which the path is stroked.
    pub style: StrokeStyle,
}

/// The style of every stroke: the given thickness and colour, round caps
/// and round joins.
pub open spec fn round_style(thickness: u32, color: Color) -> StrokeStyle {
    StrokeStyle { width: thickness, color, line_cap: LineCap::Round, line_join: LineJoin::Round }
}

/// The step that starts a segment at a point.
pub open spec fn move_to(p: Point) -> PathStep {
    PathStep::MoveTo { x: (p.x * PATH_UNITS) as i64, y: (p.y * PATH_UNITS) as i64 }
}

/// The step that draws a line to a point.
pub open spec fn line_to(p: Point) -> PathStep {
    PathStep::LineTo { x: (p.x * PATH_UNITS) as i64, y: (p.y * PATH_UNITS) as i64 }
}

/// The line through all the points in order, not closed; empty for fewer
/// than two points.
pub open spec fn polyline(pts: Seq<Point>) -> Seq<PathStep> {
    if pts.len() < 2 {
        Seq::empty()
    } else {
        Seq::new(
            pts.len(),
            |i: int|
                if i == 0 {
                    move_to(pts[0])
                } else {
                    line_to(pts[i])
                },
        )
    }
}

/// The closed outline of the rectangle with two opposite corners at `start`
/// and `end`: from its least corner along the top, down, and back.
pub open spec fn rectangle_outline(start: Point, end: Point) -> Seq<PathStep> {
    let x0 = (min_int(start.x as int, end.x as int) * PATH_UNITS) as i64;
    let y0 = (min_int(start.y as int, end.y as int) * PATH_UNITS) as i64;
    let x1 = (max_int(start.x as int, end.x as int) * PATH_UNITS) as i64;
    let y1 = (max_int(start.y as int, end.y as int) * PATH_UNITS) as i64;
    seq![
        PathStep::MoveTo { x: x0, y: y0 },
        PathStep::LineTo { x: x1, y: y0 },
        PathStep::LineTo { x: x1, y: y1 },
        PathStep::LineTo { x: x0, y: y1 },
        PathStep::Close,
    ]
}

/// Square of the distance between two points.
pub open spec fn dist2(a: Point, b: Point) -> int {
    (b.x - a.x) * (b.x - a.x) + (b.y - a.y) * (b.y - a.y)
}

/// An arrow has a head where it is longer than a tenth of a pixel.
pub open spec fn has_head(start: Point, end: Point) -> bool {
    100 * dist2(start, end) > 256 * 256
}

/// `r` is the square root of `n`, rounded down.
pub open spec fn is_sqrt(n: int, r: int) -> bool {
    0 <= r && r * r <= n < (r + 1) * (r + 1)
}

/// The square root of `n`, rounded down.
pub open spec fn isqrt(n: int) -> int {
    choose|r: int| is_sqrt(n, r)
}

/// Twice the length of an arrow's head: fifteen pixels and one and a half
/// times the thickness.
pub open spec fn head_len2(thickness: u32) -> int {
    30 * 256 + 3 * thickness
}

/// A side of the head along one axis, before the division by the arrow's
/// length: with the arrow's direction `(a, b)` on that axis and across it,
/// `len2 * (a * sqrt 3 + b)`, the square root of three taken as
/// 29058991 / 16777216 and the whole scaled by 16777216.
pub open spec fn head_numer(len2: int, a: int, b: int) -> int {
    len2 * (a * 29058991 + b * 16777216)
}

/// How far a side of the head reaches back from the tip along one axis, in
/// path units. With the arrow's direction `(a, b)` on that axis and across
/// it, a side that is turned by thirty degrees reaches
/// `head_len * (a * cos 30 + b * sin 30) / len`; here `len65536` is the
/// arrow's length in 65536ths of a unit, and the quotient is rounded to the
/// nearest path unit.
pub open spec fn head_reach(len2: int, a: int, b: int, len65536: int) -> int {
    nearest(head_numer(len2, a, b), 4 * len65536)
}

/// The quotient `n / d` rounded to the nearest whole number, halves away
/// from zero, for `d` above zero.
pub open spec fn nearest(n: int, d: int) -> int {
    if n >= 0 {
        (2 * n + d) / (2 * d)
    } else {
        -((2 * (-n) + d) / (2 * d))
    }
}

/// The far ends of the two sides of an arrow's head, in path units: the
/// reversed direction of the arrow, turned by thirty degrees to either side,
/// at the head's length from the tip.
pub open spec fn arrow_head(start: Point, end: Point, thickness: u32) -> ((int, int), (int, int)) {
    let dx = end.x - start.x;
    let dy = end.y - start.y;
    let len = isqrt(dist2(start, end) * 0x1_0000_0000);
    let l2 = head_len2(thickness);
    let tip_x = end.x * PATH_UNITS;
    let tip_y = end.y * PATH_UNITS;
    (
        (tip_x - head_reach(l2, dx, dy, len), tip_y - head_reach(l2, dy, -dx, len)),
        (tip_x - head_reach(l2, dx, -dy, len), tip_y - head_reach(l2, dy, dx, len)),
    )
}

/// The path of an arrow: the shaft, and where the arrow has a head, its two
/// sides, each an open segment of its own from the tip.
pub open spec fn arrow_outline(start: Point, end: Point, thickness: u32) -> Seq<PathStep> {
    let shaft = seq![move_to(start), line_to(end)];
    if has_head(start, end) {
        let h = arrow_head(start, end, thickness);
        shaft + seq![
            move_to(end),
            PathStep::LineTo { x: h.0.0 as i64, y: h.0.1 as i64 },
            move_to(end),
            PathStep::LineTo { x: h.1.0 as i64, y: h.1.1 as i64 },
        ]
    } else {
        shaft
    }
}

/// The path that is stroked for a shape.
pub open spec fn outline(shape: Shape) -> Seq<PathStep> {
    match shape {
        Shape::Freehand { points, .. } => polyline(points@),
        Shape::Rectangle { start, end, .. } => rectangle_outline(start, end),
        Shape::Arrow { start, end, thickness, .. } => arrow_outline(start, end, thickness),
    }
}

/// A number has one square root rounded down.
pub proof fn lemma_sqrt_unique(n: int, r: int)
    requires
        is_sqrt(n, r),
    ensures
        isqrt(n) == r,
{
    let s = isqrt(n);
    assert(is_sqrt(n, s));
    assert(s == r) by (nonlinear_arith)
        requires
            0 <= r,
            0 <= s,
            r * r <= n < (r + 1) * (r + 1),
            s * s <= n < (s + 1) * (s + 1),
    ;
}

/// Square root, rounded down, of a number below 2^98.
fn sqrt_floor(n: u128) -> (r: u128)
    requires
        n < 0x4_0000_0000_0000_0000_0000_0000u128,
    ensures
        is_sqrt(n as int, r as int),
        r == isqrt(n as int),
        r < 0x2_0000_0000_0000,
{
    let mut lo: u128 = 0;
    let mut hi: u128 = 0x2_0000_0000_0000;
    assert(0x2_0000_0000_0000u128 * 0x2_0000_0000_0000u128
        == 0x4_0000_0000_0000_0000_0000_0000u128);
    while hi - lo > 1
        invariant
            lo < hi <= 0x2_0000_0000_0000,
            lo * lo <= n < hi * hi,
        decreases hi - lo,
    {
        let mid: u128 = lo + (hi - lo) / 2;
        assert(mid * mid < 0x2_0000_0000_0000 * 0x2_0000_0000_0000) by (nonlinear_arith)
            requires
                0 <= mid < 0x2_0000_0000_0000,
        ;
        if mid * mid <= n {
            lo = mid;
        } else {
            hi = mid;
        }
    }
    proof {
        lemma_sqrt_unique(n as int, lo as int);
    }
    lo
}

/// Quotient rounded to the nearest whole number, for a divisor above zero.
fn div_nearest(num: i128, den: i128) -> (q: i128)
    requires
        den > 0,
        -0x4000_0000_0000_0000_0000_0000_0000 <= num <= 0x4000_0000_0000_0000_0000_0000_0000,
        den <= 0x4000_0000_0000_0000_0000_0000_0000,
    ensures
        q == nearest(num as int, den as int),
{
    if num >= 0 {
        let q: u128 = (2 * (num as u128) + den as u128) / (2 * (den as u128));
        q as i128
    } else {
        let q: u128 = (2 * ((-num) as u128) + den as u128) / (2 * (den as u128));
        -(q as i128)
    }
}

/// One axis of one side of an arrow's head, in path units.
fn head_side(len2: i128, a: i128, b: i128, len: i128) -> (r: i128)
    requires
        0 <= len2 < 0x4_0000_0000,
        -len <= a * 65536 <= len,
        -len <= b * 65536 <= len,
        0 < len < 0x2_0000_0000_0000,
    ensures
        r == head_reach(len2 as int, a as int, b as int, len as int),
        -0x400_0000_0000 <= r <= 0x400_0000_0000,
{
    let turned: i128 = a * 29058991 + b * 16777216;
    let ghost reach = if turned >= 0 { turned as int } else { -(turned as int) };
    assert(reach * 65536 <= len * 45836207);
    assert(-0x1_0000_0000_0000_0000_0000_0000 <= len2 * turned
        <= 0x1_0000_0000_0000_0000_0000_0000) by (nonlinear_arith)
        requires
            0 <= len2 < 0x4_0000_0000,
            -0x800_0000_0000_0000 <= turned <= 0x800_0000_0000_0000,
    ;
    let num: i128 = len2 * turned;
    let den: i128 = 4 * len;
    let q: i128 = div_nearest(num, den);
    proof {
        let m = if num >= 0 { num as int } else { -(num as int) };
        assert(m == len2 * reach) by (nonlinear_arith)
            requires
                num == len2 * turned,
                m == if num >= 0 { num as int } else { -(num as int) },
                reach == if turned >= 0 { turned as int } else { -(turned as int) },
                len2 >= 0,
        ;
        assert(m * 65536 <= len2 * (len * 45836207)) by (nonlinear_arith)
            requires
                m == len2 * reach,
                reach * 65536 <= len * 45836207,
                len2 >= 0,
        ;
        let t = (2 * m + den) / (2 * den);
        vstd::arithmetic::div_mod::lemma_fundamental_div_mod(2 * m + den, 2 * den);
        vstd::arithmetic::div_mod::lemma_mod_bound(2 * m + den, 2 * den);
        let rem = (2 * m + den) % (2 * den);
        let most = 2 * (len2 * 45836207) + 262144;
        assert(len * (524288 * t) <= len * most) by (nonlinear_arith)
            requires
                2 * m + den == (2 * den) * t + rem,
                0 <= rem,
                den == 4 * len,
                m * 65536 <= len2 * (len * 45836207),
                most == 2 * (len2 * 45836207) + 262144,
        ;
        assert(524288 * t <= most) by (nonlinear_arith)
            requires
                len > 0,
                len * (524288 * t) <= len * most,
        ;
        assert(0 <= t) by (nonlinear_arith)
            requires
                2 * m + den == (2 * den) * t + rem,
                rem < 2 * den,
                den > 0,
                m >= 0,
        ;
    }
    q
}

/// A line to a point.
fn step_to(p: &Point) -> (s: PathStep)
    ensures
        s == line_to(*p),
{
    PathStep::LineTo { x: p.x as i64 * PATH_UNITS, y: p.y as i64 * PATH_UNITS }
}

/// The start of a segment at a point.
fn step_from(p: &Point) -> (s: PathStep)
    ensures
        s == move_to(*p),
{
    PathStep::MoveTo { x: p.x as i64 * PATH_UNITS, y: p.y as i64 * PATH_UNITS }
}

/// The line through the points.
fn trace_polyline(points: &Vec<Point>) -> (path: Vec<PathStep>)
    ensures
        path@ == polyline(points@),
{
    let mut path: Vec<PathStep> = Vec::new();
    if points.len() < 2 {
        assert(path@ =~= polyline(points@));
        return path;
    }
    path.push(step_from(&points[0]));
    let mut i: usize = 1;
    while i < points.len()
        invariant
            1 <= i <= points.len(),
            points.len() >= 2,
            path@.len() == i,
            forall|k: int| 0 <= k < i ==> path@[k] == polyline(points@)[k],
        decreases points.len() - i,
    {
        path.push(step_to(&points[i]));
        i = i + 1;
    }
    assert(path@ =~= polyline(points@));
    path
}

/// The closed outline of a rectangle.
fn trace_rectangle(start: &Point, end: &Point) -> (path: Vec<PathStep>)
    ensures
        path@ == rectangle_outline(*start, *end),
{
    let x0: i64 = (if start.x <= end.x { start.x as i64 } else { end.x as i64 }) * PATH_UNITS;
    let y0: i64 = (if start.y <= end.y { start.y as i64 } else { end.y as i64 }) * PATH_UNITS;
    let x1: i64 = (if start.x >= end.x { start.x as i64 } else { end.x as i64 }) * PATH_UNITS;
    let y1: i64 = (if start.y >= end.y { start.y as i64 } else { end.y as i64 }) * PATH_UNITS;
    let mut path: Vec<PathStep> = Vec::new();
    path.push(PathStep::MoveTo { x: x0, y: y0 });
    path.push(PathStep::LineTo { x: x1, y: y0 });
    path.push(PathStep::LineTo { x: x1, y: y1 });
    path.push(PathStep::LineTo { x: x0, y: y1 });
    path.push(PathStep::Close);
    assert(path@ =~= rectangle_outline(*start, *end));
    path
}

/// Neither coordinate of a direction is longer than the direction: in
/// 65536ths of a unit, each lies within the length rounded down.
proof fn lemma_within_length(a: int, b: int, len: int)
    requires
        is_sqrt((a * a + b * b) * 0x1_0000_0000, len),
    ensures
        -len <= a * 65536 <= len,
        a * a + b * b > 0 ==> len > 0,
{
    let side = if a >= 0 { a } else { -a };
    let d2 = a * a + b * b;
    assert((side * 65536) * (side * 65536) <= d2 * 0x1_0000_0000) by (nonlinear_arith)
        requires
            d2 == a * a + b * b,
            side == if a >= 0 { a } else { -a },
    ;
    assert(side * 65536 < len + 1) by (nonlinear_arith)
        requires
            (side * 65536) * (side * 65536) < (len + 1) * (len + 1),
            0 <= side,
            0 <= len,
    ;
    if d2 > 0 {
        assert(len > 0) by (nonlinear_arith)
            requires
                0 <= len,
                d2 * 0x1_0000_0000 < (len + 1) * (len + 1),
                d2 > 0,
        ;
    }
}

/// The shaft of an arrow and the two sides of its head.
fn trace_arrow(start: &Point, end: &Point, thickness: u32) -> (path: Vec<PathStep>)
    ensures
        path@ == arrow_outline(*start, *end, thickness),
{
    let mut path: Vec<PathStep> = Vec::new();
    path.push(step_from(start));
    path.push(step_to(end));
    let dx: i128 = end.x as i128 - start.x as i128;
    let dy: i128 = end.y as i128 - start.y as i128;
    assert(0 <= dx * dx <= 0x1_0000_0000 * 0x1_0000_0000) by (nonlinear_arith)
        requires
            -0x1_0000_0000 <= dx <= 0x1_0000_0000,
    ;
    assert(0 <= dy * dy <= 0x1_0000_0000 * 0x1_0000_0000) by (nonlinear_arith)
        requires
            -0x1_0000_0000 <= dy <= 0x1_0000_0000,
    ;
    let d2: i128 = dx * dx + dy * dy;
    assert(d2 == dist2(*start, *end));
    if 100 * d2 > 65536 {
        let len: u128 = sqrt_floor((d2 * 0x1_0000_0000) as u128);
        let l2: i128 = 7680 + 3 * (thickness as i128);
        let n: i128 = len as i128;
        proof {
            lemma_within_length(dx as int, dy as int, n as int);
            lemma_within_length(dy as int, dx as int, n as int);
        }
        let tip_x: i128 = end.x as i128 * 256;
        let tip_y: i128 = end.y as i128 * 256;
        let x1: i128 = tip_x - head_side(l2, dx, dy, n);
        let y1: i128 = tip_y - head_side(l2, dy, -dx, n);
        let x2: i128 = tip_x - head_side(l2, dx, -dy, n);
        let y2: i128 = tip_y - head_side(l2, dy, dx, n);
        path.push(step_from(end));
        path.push(PathStep::LineTo { x: x1 as i64, y: y1 as i64 });
        path.push(step_from(end));
        path.push(PathStep::LineTo { x: x2 as i64, y: y2 as i64 });
    }
    assert(path@ =~= arrow_outline(*start, *end, thickness));
    path
}

/// The stroke's style for a thickness and a colour.
fn style_of(thickness: u32, color: Color) -> (style: StrokeStyle)
    ensures
        style == round_style(thickness, color),
{
    StrokeStyle { width: thickness, color, line_cap: LineCap::Round, line_join: LineJoin::Round }
}

/// What is painted for a shape. The path: for a freehand line the line
/// through its points, none for fewer than two points; for a rectangle its
/// closed outline; for an arrow its shaft and the two sides of its head. The
/// style: the shape's thickness and colour, round caps and round joins.
pub fn render_shape(shape: &Shape) -> (painting: Painting)
    ensures
        painting.path@ == outline(*shape),
        painting.style == round_style(shape.thickness(), shape.color()),
        shape is Freehand && shape.control_points().len() < 2 ==> painting.path@.len() == 0,
{
    match shape {
        Shape::Freehand { points, color, thickness } => Painting {
            path: trace_polyline(points),
            style: style_of(*thickness, *color),
        },
        Shape::Rectangle { start, end, color, thickness } => Painting {
            path: trace_rectangle(start, end),
            style: style_of(*thickness, *color),
        },
        Shape::Arrow { start, end, color, thickness } => Painting {
            path: trace_arrow(start, end, *thickness),
            style: style_of(*thickness, *color),
        },
    }
}

/// What is painted for the stroke in progress: the line through its points,
/// none for fewer than two points, in the stroke's thickness and colour with
/// round caps and round joins.
pub fn render_stroke(stroke: &Stroke) -> (painting: Painting)
    ensures
        painting.path@ == polyline(stroke.points@),
        painting.style == round_style(stroke.thickness, stroke.color),
        stroke.points@.len() < 2 ==> painting.path@.len() == 0,
{
    Painting {
        path: trace_polyline(&stroke.points),
        style: style_of(stroke.thickness, stroke.color),
    }
}

/// A freehand line of fewer than two points has no path, so nothing of it
/// is painted; any other shape has one.
pub proof fn lemma_path_empty_iff_short(shape: Shape)
    ensures
        outline(shape).len() == 0 <==> shape is Freehand && shape.control_points().len() < 2,
{
}

/// The path of a freehand line visits every point once, in order, starting
/// a segment at the first.
pub proof fn lemma_polyline_visits(pts: Seq<Point>, i: int)
    requires
        pts.len() >= 2,
        0 <= i < pts.len(),
    ensures
        polyline(pts).len() == pts.len(),
        polyline(pts)[i] == if i == 0 {
            move_to(pts[0])
        } else {
            line_to(pts[i])
        },
{
}

/// The far ends of the head of a level arrow that points right, in path
/// units. With `head_len2` twice the head's length in units, both lie back
/// along the shaft by the head's length times the cosine of thirty degrees,
/// which is `head_len2 * 29058991 / 262144` path units rounded to the nearest,
/// the first below the shaft and the second above it by the head's length
/// times the sine of thirty degrees, which is `64 * head_len2` path units.
pub proof fn lemma_level_arrow_head(start: Point, end: Point, thickness: u32)
    requires
        start.y == end.y,
        start.x < end.x,
    ensures
        ({
            let h = arrow_head(start, end, thickness);
            let along = (2 * (head_len2(thickness) * 29058991) + 262144) / 524288;
            let aside = 64 * head_len2(thickness);
            &&& h.0 == (end.x * PATH_UNITS - along, end.y * PATH_UNITS + aside)
            &&& h.1 == (end.x * PATH_UNITS - along, end.y * PATH_UNITS - aside)
        }),
{
    let dx = end.x - start.x;
    let l2 = head_len2(thickness);
    let n = 65536 * dx;
    assert(dist2(start, end) == dx * dx) by (nonlinear_arith)
        requires
            dist2(start, end) == dx * dx + (end.y - start.y) * (end.y - start.y),
            end.y - start.y == 0,
    ;
    assert(is_sqrt(dist2(start, end) * 0x1_0000_0000, n)) by (nonlinear_arith)
        requires
            dist2(start, end) == dx * dx,
            n == 65536 * dx,
            dx > 0,
    ;
    lemma_sqrt_unique(dist2(start, end) * 0x1_0000_0000, n);
    let den = 4 * n;
    assert(2 * den == dx * 524288);
    // Along the shaft.
    let num_along = head_numer(l2, dx, 0);
    let top_along = 2 * (l2 * 29058991) + 262144;
    assert(num_along >= 0 && 2 * num_along + den == dx * top_along) by (nonlinear_arith)
        requires
            num_along == l2 * (dx * 29058991 + 0 * 16777216),
            top_along == 2 * (l2 * 29058991) + 262144,
            den == dx * 262144,
            dx > 0,
            l2 >= 0,
    ;
    vstd::arithmetic::div_mod::lemma_div_multiples_vanish_quotient(dx, top_along, 524288);
    assert(head_reach(l2, dx, 0, n) == top_along / 524288);
    assert(head_numer(l2, dx, -0) == num_along);
    // Across it.
    let num_aside = head_numer(l2, 0, dx);
    let top_aside = 2 * (l2 * 16777216) + 262144;
    assert(num_aside > 0 && 2 * num_aside + den == dx * top_aside) by (nonlinear_arith)
        requires
            num_aside == l2 * (0 * 29058991 + dx * 16777216),
            top_aside == 2 * (l2 * 16777216) + 262144,
            den == dx * 262144,
            dx > 0,
            l2 >= 7680,
    ;
    vstd::arithmetic::div_mod::lemma_div_multiples_vanish_quotient(dx, top_aside, 524288);
    assert(top_aside / 524288 == 64 * l2);
    assert(head_reach(l2, 0, dx, n) == 64 * l2);
    let num_back = head_numer(l2, 0, -dx);
    assert(num_back == -num_aside) by (nonlinear_arith)
        requires
            num_back == l2 * (0 * 29058991 + (-dx) * 16777216),
            num_aside == l2 * (0 * 29058991 + dx * 16777216),
    ;
    assert(head_reach(l2, 0, -dx, n) == -(64 * l2));
}

/// Rounding to the nearest whole number moves a quotient by half at most.
pub proof fn lemma_nearest_is_near(n: int, d: int)
    requires
        d > 0,
    ensures
        -d <= 2 * d * nearest(n, d) - 2 * n <= d,
{
    let m = if n >= 0 { n } else { -n };
    let q = (2 * m + d) / (2 * d);
    let rem = (2 * m + d) % (2 * d);
    vstd::arithmetic::div_mod::lemma_fundamental_div_mod(2 * m + d, 2 * d);
    vstd::arithmetic::div_mod::lemma_mod_bound(2 * m + d, 2 * d);
    assert(2 * d * q == 2 * m + d - rem) by (nonlinear_arith)
        requires
            2 * m + d == (2 * d) * q + rem,
    ;
    if n >= 0 {
        assert(nearest(n, d) == q);
    } else {
        assert(nearest(n, d) == -q);
        assert(2 * d * (-q) == -(2 * d * q)) by (nonlinear_arith);
    }
}

/// The sides of an arrow's head stand at thirty degrees to the shaft, one on
/// either side, and have the head's length. Before the division by the
/// arrow's length, with `(dx, dy)` the arrow's direction, `d2` the square of
/// its length and `(x, y)` a side as it reaches back from the tip:
/// along the shaft the side measures `sqrt 3` parts (`x * dx + y * dy`),
/// across it one part (`x * dy - y * dx`), to the one hand for the first
/// side and to the other for the second, which is the tangent of thirty
/// degrees; and the square of its length is that of the head's, but for the
/// square root of three taken as 29058991 / 16777216.
pub proof fn lemma_head_angle(len2: int, dx: int, dy: int)
    ensures
        ({
            let d2 = dx * dx + dy * dy;
            let x1 = head_numer(len2, dx, dy);
            let y1 = head_numer(len2, dy, -dx);
            let x2 = head_numer(len2, dx, -dy);
            let y2 = head_numer(len2, dy, dx);
            &&& x1 * dx + y1 * dy == 29058991 * (len2 * d2)
            &&& x1 * dy - y1 * dx == 16777216 * (len2 * d2)
            &&& x2 * dx + y2 * dy == 29058991 * (len2 * d2)
            &&& x2 * dy - y2 * dx == -16777216 * (len2 * d2)
            &&& x1 * x1 + y1 * y1 == (29058991 * 29058991 + 16777216 * 16777216) * (len2 * len2 * d2)
            &&& x2 * x2 + y2 * y2 == (29058991 * 29058991 + 16777216 * 16777216) * (len2 * len2 * d2)
        }),
{
    let d2 = dx * dx + dy * dy;
    let x1 = head_numer(len2, dx, dy);
    let y1 = head_numer(len2, dy, -dx);
    let x2 = head_numer(len2, dx, -dy);
    let y2 = head_numer(len2, dy, dx);
    assert(x1 * dx + y1 * dy == 29058991 * (len2 * d2)) by (nonlinear_arith)
        requires
            d2 == dx * dx + dy * dy,
            x1 == len2 * (dx * 29058991 + dy * 16777216),
            y1 == len2 * (dy * 29058991 + (-dx) * 16777216),
    ;
    assert(x1 * dy - y1 * dx == 16777216 * (len2 * d2)) by (nonlinear_arith)
        requires
            d2 == dx * dx + dy * dy,
            x1 == len2 * (dx * 29058991 + dy * 16777216),
            y1 == len2 * (dy * 29058991 + (-dx) * 16777216),
    ;
    assert(x2 * dx + y2 * dy == 29058991 * (len2 * d2)) by (nonlinear_arith)
        requires
            d2 == dx * dx + dy * dy,
            x2 == len2 * (dx * 29058991 + (-dy) * 16777216),
            y2 == len2 * (dy * 29058991 + dx * 16777216),
    ;
    assert(x2 * dy - y2 * dx == -16777216 * (len2 * d2)) by (nonlinear_arith)
        requires
            d2 == dx * dx + dy * dy,
            x2 == len2 * (dx * 29058991 + (-dy) * 16777216),
            y2 == len2 * (dy * 29058991 + dx * 16777216),
    ;
    assert(x1 * x1 + y1 * y1 == (29058991 * 29058991 + 16777216 * 16777216) * (len2 * len2 * d2))
        by (nonlinear_arith)
        requires
            d2 == dx * dx + dy * dy,
            x1 == len2 * (dx * 29058991 + dy * 16777216),
            y1 == len2 * (dy * 29058991 + (-dx) * 16777216),
    ;
    assert(x2 * x2 + y2 * y2 == (29058991 * 29058991 + 16777216 * 16777216) * (len2 * len2 * d2))
        by (nonlinear_arith)
        requires
            d2 == dx * dx + dy * dy,
            x2 == len2 * (dx * 29058991 + (-dy) * 16777216),
            y2 == len2 * (dy * 29058991 + dx * 16777216),
    ;
}

/// Every number from zero on has a square root rounded down.
pub proof fn lemma_sqrt_exists(n: int)
    requires
        n >= 0,
    ensures
        is_sqrt(n, isqrt(n)),
    decreases n,
{
    if n == 0 {
        assert(is_sqrt(0, 0));
    } else {
        lemma_sqrt_exists(n - 1);
        let r = isqrt(n - 1);
        if (r + 1) * (r + 1) <= n {
            assert(is_sqrt(n, r + 1)) by (nonlinear_arith)
                requires
                    0 <= r,
                    (r + 1) * (r + 1) <= n,
                    n - 1 < (r + 1) * (r + 1),
            ;
        } else {
            assert(is_sqrt(n, r));
        }
    }
}

/// Each coordinate of the far ends of an arrow's head is the exact quotient
/// of `head_numer` by four times the arrow's length in 65536ths of a unit,
/// moved by half a path unit at most. With `lemma_head_angle` this places
/// both sides at thirty degrees to the shaft, to within the rounding.
pub proof fn lemma_arrow_head_near(start: Point, end: Point, thickness: u32)
    requires
        has_head(start, end),
    ensures
        ({
            let h = arrow_head(start, end, thickness);
            let dx = end.x - start.x;
            let dy = end.y - start.y;
            let l2 = head_len2(thickness);
            let d = 4 * isqrt(dist2(start, end) * 0x1_0000_0000);
            let tip_x = end.x * PATH_UNITS;
            let tip_y = end.y * PATH_UNITS;
            &&& d > 0
            &&& -d <= 2 * d * (tip_x - h.0.0) - 2 * head_numer(l2, dx, dy) <= d
            &&& -d <= 2 * d * (tip_y - h.0.1) - 2 * head_numer(l2, dy, -dx) <= d
            &&& -d <= 2 * d * (tip_x - h.1.0) - 2 * head_numer(l2, dx, -dy) <= d
            &&& -d <= 2 * d * (tip_y - h.1.1) - 2 * head_numer(l2, dy, dx) <= d
        }),
{
    let dx = end.x - start.x;
    let dy = end.y - start.y;
    let l2 = head_len2(thickness);
    let n = dist2(start, end) * 0x1_0000_0000;
    lemma_sqrt_exists(n);
    let r = isqrt(n);
    assert(r > 0) by (nonlinear_arith)
        requires
            0 <= r,
            n < (r + 1) * (r + 1),
            n > 1,
    ;
    let d = 4 * r;
    lemma_nearest_is_near(head_numer(l2, dx, dy), d);
    lemma_nearest_is_near(head_numer(l2, dy, -dx), d);
    lemma_nearest_is_near(head_numer(l2, dx, -dy), d);
    lemma_nearest_is_near(head_numer(l2, dy, dx), d);
}

} // verus!
