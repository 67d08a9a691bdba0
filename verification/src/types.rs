//! Geometry: points, pixel rectangles with their union/intersect algebra, and
//! the drawing primitives with their padded bounding boxes.

use vstd::prelude::*;

verus! {

/// Fixed-point units per pixel.
pub const SUBPIXELS: u32 = 256;

/// A position in fixed-point units, 256 to the pixel.
#[derive(Clone, Copy, Debug, PartialEq, Eq, Structural)]
pub struct Point {
    pub x: i32,
    pub y: i32,
}

/// An axis-aligned rectangle of whole pixels. A rectangle whose width or
/// height is zero covers no pixel.
#[derive(Clone, Copy, Debug, PartialEq, Eq, Structural)]
pub struct Rect {
    pub x: i32,
    pub y: i32,
    pub w: u32,
    pub h: u32,
}

/// The lesser of two numbers.
pub open spec fn min_int(a: int, b: int) -> int {
    if a <= b { a } else { b }
}

/// The greater of two numbers.
pub open spec fn max_int(a: int, b: int) -> int {
    if a >= b { a } else { b }
}

impl Rect {
    /// The leftmost column.
    pub open spec fn left(self) -> int {
        self.x as int
    }

    /// The top row.
    pub open spec fn top(self) -> int {
        self.y as int
    }

    /// One past the rightmost column.
    pub open spec fn right(self) -> int {
        self.x + self.w
    }

    /// One past the bottom row.
    pub open spec fn bottom(self) -> int {
        self.y + self.h
    }

    /// The pixel at column `px`, row `py` lies in the rectangle.
    pub open spec fn has_pixel(self, px: int, py: int) -> bool {
        self.x <= px < self.right() && self.y <= py < self.bottom()
    }

    /// The extent of `other` lies within the extent of `self`.
    pub open spec fn contains(self, other: Rect) -> bool {
        &&& self.x <= other.x
        &&& self.y <= other.y
        &&& other.right() <= self.right()
        &&& other.bottom() <= self.bottom()
    }

    /// The hull of the two extents can be written with 32-bit sides.
    pub open spec fn can_union(self, other: Rect) -> bool {
        &&& max_int(self.right(), other.right()) - min_int(self.left(), other.left()) <= u32::MAX
        &&& max_int(self.bottom(), other.bottom()) - min_int(self.top(), other.top()) <= u32::MAX
    }

    /// The hull of the two extents.
    pub open spec fn union_of(self, other: Rect) -> Rect {
        Rect {
            x: min_int(self.left(), other.left()) as i32,
            y: min_int(self.top(), other.top()) as i32,
            w: (max_int(self.right(), other.right()) - min_int(self.left(), other.left())) as u32,
            h: (max_int(self.bottom(), other.bottom()) - min_int(self.top(), other.top())) as u32,
        }
    }

    /// The two rectangles have a pixel in common.
    pub open spec fn overlaps(self, other: Rect) -> bool {
        &&& max_int(self.left(), other.left()) < min_int(self.right(), other.right())
        &&& max_int(self.top(), other.top()) < min_int(self.bottom(), other.bottom())
    }

    /// The common part of the two rectangles, if they overlap.
    pub open spec fn intersection(self, other: Rect) -> Option<Rect> {
        if self.overlaps(other) {
            Some(
                Rect {
                    x: max_int(self.left(), other.left()) as i32,
                    y: max_int(self.top(), other.top()) as i32,
                    w: (min_int(self.right(), other.right()) - max_int(self.left(), other.left())) as u32,
                    h: (min_int(self.bottom(), other.bottom()) - max_int(self.top(), other.top())) as u32,
                },
            )
        } else {
            None
        }
    }

    /// The rectangle lies where the boxes of drawn geometry and the frames
    /// of a surface lie: not far left of or above the origin, and ending
    /// within the range of a signed coordinate.
    pub open spec fn tame(self) -> bool {
        &&& -0x800_0000 <= self.x
        &&& -0x800_0000 <= self.y
        &&& self.right() <= i32::MAX
        &&& self.bottom() <= i32::MAX
    }

    /// Smallest rectangle whose extent holds both extents. A rectangle
    /// without area counts with its position.
    pub fn union(&self, other: &Rect) -> (r: Rect)
        requires
            self.can_union(*other),
        ensures
            r == self.union_of(*other),
            r.x == min_int(self.left(), other.left()),
            r.y == min_int(self.top(), other.top()),
            r.right() == max_int(self.right(), other.right()),
            r.bottom() == max_int(self.bottom(), other.bottom()),
    {
        let a_right: i64 = self.x as i64 + self.w as i64;
        let b_right: i64 = other.x as i64 + other.w as i64;
        let a_bottom: i64 = self.y as i64 + self.h as i64;
        let b_bottom: i64 = other.y as i64 + other.h as i64;
        let max_x: i64 = if a_right >= b_right { a_right } else { b_right };
        let max_y: i64 = if a_bottom >= b_bottom { a_bottom } else { b_bottom };
        let min_x: i32 = if self.x <= other.x { self.x } else { other.x };
        let min_y: i32 = if self.y <= other.y { self.y } else { other.y };
        Rect {
            x: min_x,
            y: min_y,
            w: (max_x - min_x as i64) as u32,
            h: (max_y - min_y as i64) as u32,
        }
    }

    /// Largest rectangle common to both, or `None` when they share no pixel
    /// (rectangles that only touch along an edge share none).
    pub fn intersect(&self, other: &Rect) -> (r: Option<Rect>)
        ensures
            r == self.intersection(*other),
            r.is_some() == self.overlaps(*other),
            r matches Some(c) ==> {
                &&& c.x == max_int(self.left(), other.left())
                &&& c.y == max_int(self.top(), other.top())
                &&& c.right() == min_int(self.right(), other.right())
                &&& c.bottom() == min_int(self.bottom(), other.bottom())
                &&& c.w > 0
                &&& c.h > 0
            },
    {
        let a_right: i64 = self.x as i64 + self.w as i64;
        let b_right: i64 = other.x as i64 + other.w as i64;
        let a_bottom: i64 = self.y as i64 + self.h as i64;
        let b_bottom: i64 = other.y as i64 + other.h as i64;
        let max_x: i64 = if a_right <= b_right { a_right } else { b_right };
        let max_y: i64 = if a_bottom <= b_bottom { a_bottom } else { b_bottom };
        let min_x: i32 = if self.x >= other.x { self.x } else { other.x };
        let min_y: i32 = if self.y >= other.y { self.y } else { other.y };
        if (min_x as i64) < max_x && (min_y as i64) < max_y {
            Some(
                Rect {
                    x: min_x,
                    y: min_y,
                    w: (max_x - min_x as i64) as u32,
                    h: (max_y - min_y as i64) as u32,
                },
            )
        } else {
            None
        }
    }
}

/// The drawing tools a user can pick.
#[derive(Clone, Copy, Debug, PartialEq, Eq, Structural)]
pub enum Tool {
    Rectangle,
    Arrow,
    Freehand,
}

/// A flat colour: red, green, blue and alpha, not premultiplied.
#[derive(Clone, Copy, Debug, PartialEq, Eq, Structural)]
pub struct Color {
    pub r: u8,
    pub g: u8,
    pub b: u8,
    pub a: u8,
}

/// A completed drawing primitive. `thickness` is the stroke width in
/// fixed-point units.
#[derive(Clone, Debug)]
pub enum Shape {
    Freehand { points: Vec<Point>, color: Color, thickness: u32 },
    Rectangle { start: Point, end: Point, color: Color, thickness: u32 },
    Arrow { start: Point, end: Point, color: Color, thickness: u32 },
}

/// The freehand line that is being drawn under the pointer.
#[derive(Clone, Debug)]
pub struct Stroke {
    pub points: Vec<Point>,
    pub color: Color,
    pub thickness: u32,
}

/// One coordinate of a point: `y` if `vertical`, else `x`.
pub open spec fn coord(p: Point, vertical: bool) -> int {
    if vertical { p.y as int } else { p.x as int }
}

/// Least coordinate among the first `n` points.
pub open spec fn lowest(pts: Seq<Point>, vertical: bool, n: nat) -> int
    decreases n,
{
    if n <= 1 {
        coord(pts[0], vertical)
    } else {
        min_int(lowest(pts, vertical, (n - 1) as nat), coord(pts[n - 1], vertical))
    }
}

/// Greatest coordinate among the first `n` points.
pub open spec fn highest(pts: Seq<Point>, vertical: bool, n: nat) -> int
    decreases n,
{
    if n <= 1 {
        coord(pts[0], vertical)
    } else {
        max_int(highest(pts, vertical, (n - 1) as nat), coord(pts[n - 1], vertical))
    }
}

/// The pixel coordinate at or below `n2` half-units (512 to the pixel).
pub open spec fn floor_px(n2: int) -> int {
    n2 / 512
}

/// The pixel coordinate at or above `n2` half-units (512 to the pixel).
pub open spec fn ceil_px(n2: int) -> int {
    -((-n2) / 512)
}

/// Twice the margin round a line of the given thickness, in fixed-point
/// units: half the thickness and two pixels, and for an arrow three times
/// the thickness more, for its head.
pub open spec fn margin2(thickness: u32, arrow: bool) -> int {
    if arrow { 7 * thickness + 4 * SUBPIXELS } else { thickness + 4 * SUBPIXELS }
}

/// The extent of the points, widened by half of `pad2` on every side, with
/// the low edges rounded down and the high edges rounded up to whole pixels.
pub open spec fn padded_box(pts: Seq<Point>, pad2: int) -> Rect {
    let x0 = floor_px(2 * lowest(pts, false, pts.len()) - pad2);
    let y0 = floor_px(2 * lowest(pts, true, pts.len()) - pad2);
    let x1 = ceil_px(2 * highest(pts, false, pts.len()) + pad2);
    let y1 = ceil_px(2 * highest(pts, true, pts.len()) + pad2);
    Rect { x: x0 as i32, y: y0 as i32, w: (x1 - x0) as u32, h: (y1 - y0) as u32 }
}

/// The padded box of the points, or `None` where there is no point.
pub open spec fn box_of(pts: Seq<Point>, pad2: int) -> Option<Rect> {
    if pts.len() == 0 { None } else { Some(padded_box(pts, pad2)) }
}

/// Rounds half-units down to whole pixels.
fn floor_to_pixel(n2: i64) -> (r: i64)
    requires
        -0x10_0000_0000 <= n2 <= 0x10_0000_0000,
    ensures
        r == floor_px(n2 as int),
        -0x800_0000 <= r <= 0x800_0000,
{
    let shifted: u64 = (n2 + 0x10_0000_0000) as u64;
    let q: u64 = shifted / 512;
    q as i64 - 0x800_0000
}

/// Rounds half-units up to whole pixels.
fn ceil_to_pixel(n2: i64) -> (r: i64)
    requires
        -0x10_0000_0000 <= n2 <= 0x10_0000_0000,
    ensures
        r == ceil_px(n2 as int),
        -0x800_0000 <= r <= 0x800_0000,
{
    let f: i64 = floor_to_pixel(-n2);
    -f
}

/// Twice the margin round a line of the given thickness.
fn margin_of(thickness: u32, arrow: bool) -> (r: i64)
    ensures
        r == margin2(thickness, arrow),
{
    if arrow {
        7 * (thickness as i64) + 1024
    } else {
        thickness as i64 + 1024
    }
}

/// Padded bounding box of a run of points.
fn points_box(points: &Vec<Point>, pad2: i64) -> (r: Option<Rect>)
    requires
        0 <= pad2 <= 0x8_0000_0000,
    ensures
        r == box_of(points@, pad2 as int),
        r matches Some(b) ==> b.tame(),
{
    if points.len() == 0 {
        return None;
    }
    let mut min_x: i32 = points[0].x;
    let mut min_y: i32 = points[0].y;
    let mut max_x: i32 = points[0].x;
    let mut max_y: i32 = points[0].y;
    let mut i: usize = 1;
    while i < points.len()
        invariant
            1 <= i <= points.len(),
            min_x == lowest(points@, false, i as nat),
            min_y == lowest(points@, true, i as nat),
            max_x == highest(points@, false, i as nat),
            max_y == highest(points@, true, i as nat),
        decreases points.len() - i,
    {
        let p: Point = points[i];
        if p.x < min_x {
            min_x = p.x;
        }
        if p.y < min_y {
            min_y = p.y;
        }
        if p.x > max_x {
            max_x = p.x;
        }
        if p.y > max_y {
            max_y = p.y;
        }
        i = i + 1;
    }
    let x0: i64 = floor_to_pixel(2 * (min_x as i64) - pad2);
    let y0: i64 = floor_to_pixel(2 * (min_y as i64) - pad2);
    let x1: i64 = ceil_to_pixel(2 * (max_x as i64) + pad2);
    let y1: i64 = ceil_to_pixel(2 * (max_y as i64) + pad2);
    proof {
        lemma_extent_ordered(points@, false, points@.len());
        lemma_extent_ordered(points@, true, points@.len());
    }
    Some(Rect { x: x0 as i32, y: y0 as i32, w: (x1 - x0) as u32, h: (y1 - y0) as u32 })
}

/// The least coordinate is at most the greatest.
pub proof fn lemma_extent_ordered(pts: Seq<Point>, vertical: bool, n: nat)
    ensures
        lowest(pts, vertical, n) <= highest(pts, vertical, n),
    decreases n,
{
    if n > 1 {
        lemma_extent_ordered(pts, vertical, (n - 1) as nat);
    }
}

/// `lowest` and `highest` are the minimum and the maximum of the first `n`
/// points: no point lies outside them, and each is the coordinate of a point.
pub proof fn lemma_extent_is_min_max(pts: Seq<Point>, vertical: bool, n: nat)
    requires
        1 <= n <= pts.len(),
    ensures
        forall|i: int|
            0 <= i < n ==> lowest(pts, vertical, n) <= coord(#[trigger] pts[i], vertical)
                <= highest(pts, vertical, n),
        exists|i: int| 0 <= i < n && coord(#[trigger] pts[i], vertical) == lowest(pts, vertical, n),
        exists|i: int|
            0 <= i < n && coord(#[trigger] pts[i], vertical) == highest(pts, vertical, n),
    decreases n,
{
    if n > 1 {
        lemma_extent_is_min_max(pts, vertical, (n - 1) as nat);
        let lo = choose|i: int|
            0 <= i < n - 1 && coord(#[trigger] pts[i], vertical) == lowest(
                pts,
                vertical,
                (n - 1) as nat,
            );
        let hi = choose|i: int|
            0 <= i < n - 1 && coord(#[trigger] pts[i], vertical) == highest(
                pts,
                vertical,
                (n - 1) as nat,
            );
        let last = n - 1;
        if coord(pts[last], vertical) < lowest(pts, vertical, (n - 1) as nat) {
            assert(coord(pts[last], vertical) == lowest(pts, vertical, n));
        } else {
            assert(coord(pts[lo], vertical) == lowest(pts, vertical, n));
        }
        if coord(pts[last], vertical) > highest(pts, vertical, (n - 1) as nat) {
            assert(coord(pts[last], vertical) == highest(pts, vertical, n));
        } else {
            assert(coord(pts[hi], vertical) == highest(pts, vertical, n));
        }
    } else {
        assert(coord(pts[0], vertical) == lowest(pts, vertical, n));
        assert(coord(pts[0], vertical) == highest(pts, vertical, n));
    }
}

impl Shape {
    /// The points that define the shape: every point of a freehand line, the
    /// two end points of a rectangle or an arrow.
    pub open spec fn control_points(self) -> Seq<Point> {
        match self {
            Shape::Freehand { points, .. } => points@,
            Shape::Rectangle { start, end, .. } => seq![start, end],
            Shape::Arrow { start, end, .. } => seq![start, end],
        }
    }

    /// The width of the stroke, in fixed-point units.
    pub open spec fn thickness(self) -> u32 {
        match self {
            Shape::Freehand { thickness, .. } => thickness,
            Shape::Rectangle { thickness, .. } => thickness,
            Shape::Arrow { thickness, .. } => thickness,
        }
    }

    /// The colour of the stroke.
    pub open spec fn color(self) -> Color {
        match self {
            Shape::Freehand { color, .. } => color,
            Shape::Rectangle { color, .. } => color,
            Shape::Arrow { color, .. } => color,
        }
    }

    /// The shape has a head to make room for.
    pub open spec fn is_arrow(self) -> bool {
        self is Arrow
    }

    /// The box that `bounding_box` returns.
    pub open spec fn bounds(self) -> Option<Rect> {
        box_of(self.control_points(), margin2(self.thickness(), self.is_arrow()))
    }

    /// The pixels that the stroked shape can touch: the extent of its control
    /// points, padded, or `None` for a freehand line without points.
    pub fn bounding_box(&self) -> (r: Option<Rect>)
        ensures
            r == self.bounds(),
            r.is_some() == (self.control_points().len() > 0),
            r matches Some(b) ==> b.tame(),
    {
        match self {
            Shape::Freehand { points, thickness, .. } => {
                points_box(points, margin_of(*thickness, false))
            },
            Shape::Rectangle { start, end, thickness, .. } => {
                let mut ends: Vec<Point> = Vec::new();
                ends.push(*start);
                ends.push(*end);
                assert(ends@ =~= self.control_points());
                points_box(&ends, margin_of(*thickness, false))
            },
            Shape::Arrow { start, end, thickness, .. } => {
                let mut ends: Vec<Point> = Vec::new();
                ends.push(*start);
                ends.push(*end);
                assert(ends@ =~= self.control_points());
                points_box(&ends, margin_of(*thickness, true))
            },
        }
    }
}

/// What a stroke holds.
pub struct StrokeView {
    pub points: Seq<Point>,
    pub color: Color,
    pub thickness: u32,
}

impl StrokeView {
    /// The padded box of the stroke, or `None` where it has no point.
    pub open spec fn bounds(self) -> Option<Rect> {
        box_of(self.points, margin2(self.thickness, false))
    }
}

impl View for Stroke {
    type V = StrokeView;

    open spec fn view(&self) -> StrokeView {
        StrokeView { points: self.points@, color: self.color, thickness: self.thickness }
    }
}

impl Stroke {
    /// The box that `bounding_box` returns.
    pub open spec fn bounds(self) -> Option<Rect> {
        self@.bounds()
    }

    /// As for a freehand shape of the same points and thickness.
    pub fn bounding_box(&self) -> (r: Option<Rect>)
        ensures
            r == self.bounds(),
            r.is_some() == (self.points@.len() > 0),
            r matches Some(b) ==> b.tame(),
    {
        points_box(&self.points, margin_of(self.thickness, false))
    }
}

/// Where there is a point, the padded box is made of the exact minimum and
/// maximum of the points: its left and top edges are the pixel boundaries at
/// or just below the minimum less the margin, its right and bottom edges
/// those at or just above the maximum plus the margin.
pub proof fn lemma_box_extent(pts: Seq<Point>, pad2: int)
    requires
        pts.len() >= 1,
        0 <= pad2 <= 0x8_0000_0000,
    ensures
        box_of(pts, pad2) matches Some(b) && {
            let lo_x = lowest(pts, false, pts.len());
            let lo_y = lowest(pts, true, pts.len());
            let hi_x = highest(pts, false, pts.len());
            let hi_y = highest(pts, true, pts.len());
            &&& 512 * b.left() <= 2 * lo_x - pad2 < 512 * (b.left() + 1)
            &&& 512 * b.top() <= 2 * lo_y - pad2 < 512 * (b.top() + 1)
            &&& 512 * (b.right() - 1) < 2 * hi_x + pad2 <= 512 * b.right()
            &&& 512 * (b.bottom() - 1) < 2 * hi_y + pad2 <= 512 * b.bottom()
            &&& forall|i: int|
                0 <= i < pts.len() ==> lo_x <= (#[trigger] pts[i]).x <= hi_x && lo_y <= pts[i].y
                    <= hi_y
        },
{
    lemma_extent_is_min_max(pts, false, pts.len());
    lemma_extent_is_min_max(pts, true, pts.len());
    lemma_extent_ordered(pts, false, pts.len());
    lemma_extent_ordered(pts, true, pts.len());
    assert forall|i: int| 0 <= i < pts.len() implies lowest(pts, false, pts.len()) <= (
    #[trigger] pts[i]).x <= highest(pts, false, pts.len()) && lowest(pts, true, pts.len())
        <= pts[i].y <= highest(pts, true, pts.len()) by {
        assert(coord(pts[i], false) == pts[i].x);
        assert(coord(pts[i], true) == pts[i].y);
    }
}

/// The padded box of a run of points is tame.
pub proof fn lemma_box_tame(pts: Seq<Point>, pad2: int)
    requires
        0 <= pad2 <= 0x8_0000_0000,
    ensures
        box_of(pts, pad2) matches Some(b) ==> b.tame(),
{
    if pts.len() >= 1 {
        lemma_box_extent(pts, pad2);
        lemma_extent_is_min_max(pts, false, pts.len());
        lemma_extent_is_min_max(pts, true, pts.len());
    }
}

/// A shape with a control point has a bounding box, and the box is the exact
/// extent of the control points, widened by the margin and rounded outwards
/// to whole pixels: in half-units, 512 to the pixel, the left and top edges
/// are the pixel boundaries at or just below twice the minimum less twice
/// the margin, the right and bottom edges those at or just above twice the
/// maximum plus twice the margin.
pub proof fn lemma_shape_box(shape: Shape)
    requires
        shape.control_points().len() >= 1,
    ensures
        shape.bounds() matches Some(b) && {
            let pts = shape.control_points();
            let pad2 = margin2(shape.thickness(), shape.is_arrow());
            let lo_x = lowest(pts, false, pts.len());
            let lo_y = lowest(pts, true, pts.len());
            let hi_x = highest(pts, false, pts.len());
            let hi_y = highest(pts, true, pts.len());
            &&& 512 * b.left() <= 2 * lo_x - pad2 < 512 * (b.left() + 1)
            &&& 512 * b.top() <= 2 * lo_y - pad2 < 512 * (b.top() + 1)
            &&& 512 * (b.right() - 1) < 2 * hi_x + pad2 <= 512 * b.right()
            &&& 512 * (b.bottom() - 1) < 2 * hi_y + pad2 <= 512 * b.bottom()
            &&& forall|i: int|
                0 <= i < pts.len() ==> lo_x <= (#[trigger] pts[i]).x <= hi_x && lo_y <= pts[i].y
                    <= hi_y
            &&& exists|i: int| 0 <= i < pts.len() && (#[trigger] pts[i]).x == lo_x
            &&& exists|i: int| 0 <= i < pts.len() && (#[trigger] pts[i]).x == hi_x
            &&& exists|i: int| 0 <= i < pts.len() && (#[trigger] pts[i]).y == lo_y
            &&& exists|i: int| 0 <= i < pts.len() && (#[trigger] pts[i]).y == hi_y
        },
{
    let pts = shape.control_points();
    let pad2 = margin2(shape.thickness(), shape.is_arrow());
    lemma_box_extent(pts, pad2);
    lemma_extent_is_min_max(pts, false, pts.len());
    lemma_extent_is_min_max(pts, true, pts.len());
    let ax = choose|i: int|
        0 <= i < pts.len() && coord(#[trigger] pts[i], false) == lowest(pts, false, pts.len());
    assert(pts[ax].x == lowest(pts, false, pts.len()));
    let bx = choose|i: int|
        0 <= i < pts.len() && coord(#[trigger] pts[i], false) == highest(pts, false, pts.len());
    assert(pts[bx].x == highest(pts, false, pts.len()));
    let ay = choose|i: int|
        0 <= i < pts.len() && coord(#[trigger] pts[i], true) == lowest(pts, true, pts.len());
    assert(pts[ay].y == lowest(pts, true, pts.len()));
    let by = choose|i: int|
        0 <= i < pts.len() && coord(#[trigger] pts[i], true) == highest(pts, true, pts.len());
    assert(pts[by].y == highest(pts, true, pts.len()));
}

/// With a margin that is not zero, the padded box holds every pixel that a
/// control point falls in.
pub proof fn lemma_box_holds_points(pts: Seq<Point>, pad2: int, i: int)
    requires
        0 <= i < pts.len(),
        0 < pad2 <= 0x8_0000_0000,
    ensures
        box_of(pts, pad2) matches Some(b) && b.has_pixel(
            pts[i].x as int / 256,
            pts[i].y as int / 256,
        ),
{
    lemma_box_extent(pts, pad2);
}

/// The union holds both operands: by extent, and so pixel by pixel.
pub proof fn lemma_union_contains(a: Rect, b: Rect)
    requires
        a.can_union(b),
    ensures
        a.union_of(b).contains(a),
        a.union_of(b).contains(b),
        forall|px: int, py: int|
            a.has_pixel(px, py) || b.has_pixel(px, py) ==> #[trigger] a.union_of(b).has_pixel(
                px,
                py,
            ),
{
}

/// The union is the least such rectangle: whatever holds the extents of both
/// operands holds the union.
pub proof fn lemma_union_least(a: Rect, b: Rect, r: Rect)
    requires
        a.can_union(b),
        r.contains(a),
        r.contains(b),
    ensures
        r.contains(a.union_of(b)),
{
}

/// Tame rectangles have a union, and it is tame.
pub proof fn lemma_union_tame(a: Rect, b: Rect)
    requires
        a.tame(),
        b.tame(),
    ensures
        a.can_union(b),
        a.union_of(b).tame(),
{
}

/// Union does not depend on the order of its operands.
pub proof fn lemma_union_commutative(a: Rect, b: Rect)
    requires
        a.can_union(b),
    ensures
        b.can_union(a),
        a.union_of(b) == b.union_of(a),
{
}

/// Union does not depend on how three operands are grouped.
pub proof fn lemma_union_associative(a: Rect, b: Rect, c: Rect)
    requires
        a.can_union(b),
        a.union_of(b).can_union(c),
    ensures
        b.can_union(c),
        a.can_union(b.union_of(c)),
        a.union_of(b).union_of(c) == a.union_of(b.union_of(c)),
{
}

/// Two rectangles have no intersection exactly when no pixel lies in both;
/// when they have one, its pixels are exactly the pixels that lie in both.
pub proof fn lemma_intersect_pixels(a: Rect, b: Rect)
    ensures
        a.intersection(b).is_none() <==> !exists|px: int, py: int|
            #[trigger] a.has_pixel(px, py) && b.has_pixel(px, py),
        a.intersection(b) matches Some(c) ==> forall|px: int, py: int|
            #[trigger] c.has_pixel(px, py) <==> a.has_pixel(px, py) && b.has_pixel(px, py),
{
    if a.overlaps(b) {
        let px = max_int(a.left(), b.left());
        let py = max_int(a.top(), b.top());
        assert(a.has_pixel(px, py) && b.has_pixel(px, py));
    }
}

/// Intersection does not depend on the order of its operands.
pub proof fn lemma_intersect_commutative(a: Rect, b: Rect)
    ensures
        a.intersection(b) == b.intersection(a),
{
}

/// The result of an intersection lies within both operands.
pub proof fn lemma_intersect_contained(a: Rect, b: Rect)
    ensures
        a.intersection(b) matches Some(c) ==> a.contains(c) && b.contains(c),
{
}

} // verus!
