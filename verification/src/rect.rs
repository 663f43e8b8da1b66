//! Axis-aligned rectangles, given by a center and full extents.
use vstd::prelude::*;

verus! {

/// A point of the plane.
#[derive(Clone, Copy, Debug, PartialEq, Eq, Structural)]
pub struct Point {
    pub x: i32,
    pub y: i32,
}

impl Point {
    /// The point `(x, y)`.
    pub fn new(x: i32, y: i32) -> (p: Point)
        ensures
            p.x == x,
            p.y == y,
    {
        Point { x, y }
    }
}

impl Default for Point {
    fn default() -> (p: Point)
        ensures
            p.x == 0,
            p.y == 0,
    {
        Point { x: 0, y: 0 }
    }
}

/// An extreme corner of a rectangle. Its coordinates are wide enough to hold
/// the corner of every [`Rect`], whatever its center and extents.
#[derive(Clone, Copy, Debug, PartialEq, Eq, Structural)]
pub struct Corner {
    pub x: i64,
    pub y: i64,
}

/// One quarter of a rectangle, named by where it lies relative to the center.
#[derive(Clone, Copy, Debug, PartialEq, Eq, Structural)]
pub enum Quadrant {
    TopRight,
    TopLeft,
    BottomLeft,
    BottomRight,
}

/// A closed axis-aligned rectangle: every point from `min()` to `max()`,
/// both included.
#[derive(Clone, Copy, Debug, PartialEq, Eq, Structural)]
pub struct Rect {
    pub center: Point,
    pub width: u32,
    pub height: u32,
}

impl Default for Rect {
    fn default() -> (r: Rect)
        ensures
            r.center.x == 0,
            r.center.y == 0,
            r.width == 0,
            r.height == 0,
    {
        Rect { center: Point { x: 0, y: 0 }, width: 0, height: 0 }
    }
}

/// `v` pinned to the range of a coordinate: the least coordinate for what
/// lies below it, the greatest for what lies above.
pub open spec fn clamp_coordinate(v: int) -> i32 {
    if v < i32::MIN {
        i32::MIN
    } else if v > i32::MAX {
        i32::MAX
    } else {
        v as i32
    }
}

/// `v` pinned to the range of a coordinate.
pub fn clamp(v: i64) -> (r: i32)
    ensures
        r == clamp_coordinate(v as int),
{
    if v < i32::MIN as i64 {
        i32::MIN
    } else if v > i32::MAX as i64 {
        i32::MAX
    } else {
        v as i32
    }
}

/// Whether a width and a height can be halved `2 * levels` times without
/// rounding: what it takes to split a rectangle `levels` times over.
pub open spec fn halves_evenly(width: int, height: int, levels: nat) -> bool
    decreases levels,
{
    levels == 0 || (width % 4 == 0 && height % 4 == 0 && halves_evenly(
        width / 2,
        height / 2,
        (levels - 1) as nat,
    ))
}

impl Rect {
    /// Whether the rectangle, its quarters, their quarters and so on for
    /// `levels` levels all split evenly.
    pub open spec fn splits_evenly_for(self, levels: nat) -> bool {
        halves_evenly(self.width as int, self.height as int, levels)
    }

    /// The least x of the rectangle: the center less half the width, the half
    /// rounded down.
    pub open spec fn min_x(self) -> int {
        self.center.x - self.width as int / 2
    }

    /// The greatest x of the rectangle.
    pub open spec fn max_x(self) -> int {
        self.center.x + self.width as int / 2
    }

    /// The least y of the rectangle.
    pub open spec fn min_y(self) -> int {
        self.center.y - self.height as int / 2
    }

    /// The greatest y of the rectangle.
    pub open spec fn max_y(self) -> int {
        self.center.y + self.height as int / 2
    }

    /// Whether the point `(x, y)` lies in the rectangle or on its edge.
    pub open spec fn covers(self, x: int, y: int) -> bool {
        &&& self.min_x() <= x <= self.max_x()
        &&& self.min_y() <= y <= self.max_y()
    }

    /// Whether `other` reaches nowhere beyond `self`.
    pub open spec fn spec_contains(&self, other: &Rect) -> bool {
        &&& self.min_x() <= other.min_x()
        &&& self.min_y() <= other.min_y()
        &&& self.max_x() >= other.max_x()
        &&& self.max_y() >= other.max_y()
    }

    /// Whether neither rectangle lies wholly to one side of the other.
    pub open spec fn spec_intersects(&self, other: &Rect) -> bool {
        !(self.max_x() < other.min_x() || self.min_x() > other.max_x() || self.max_y()
            < other.min_y() || self.min_y() > other.max_y())
    }

    /// Whether all four corners have coordinates that a center can have.
    pub open spec fn spec_in_range(&self) -> bool {
        &&& i32::MIN <= self.min_x()
        &&& self.max_x() <= i32::MAX
        &&& i32::MIN <= self.min_y()
        &&& self.max_y() <= i32::MAX
    }

    /// Whether halving the extents twice loses nothing to rounding.
    pub open spec fn splits_evenly(self) -> bool {
        self.width % 4 == 0 && self.height % 4 == 0
    }

    /// Width times height.
    pub open spec fn area(self) -> int {
        self.width * self.height
    }

    /// The area that two rectangles share.
    pub open spec fn overlap_area(self, other: Rect) -> int {
        let right = if self.max_x() <= other.max_x() { self.max_x() } else { other.max_x() };
        let left = if self.min_x() >= other.min_x() { self.min_x() } else { other.min_x() };
        let top = if self.max_y() <= other.max_y() { self.max_y() } else { other.max_y() };
        let bottom = if self.min_y() >= other.min_y() { self.min_y() } else { other.min_y() };
        if right <= left || top <= bottom {
            0
        } else {
            (right - left) * (top - bottom)
        }
    }

    /// The quarter `q` of the rectangle: half the width and half the height,
    /// the center moved by a quarter of each towards `q`. A center that
    /// would leave the range of a coordinate stays at the end of the range.
    pub open spec fn spec_quadrant(&self, q: Quadrant) -> Rect {
        let half_width = self.width as int / 2;
        let half_height = self.height as int / 2;
        let quad_width = half_width / 2;
        let quad_height = half_height / 2;
        let x = match q {
            Quadrant::TopRight | Quadrant::BottomRight => self.center.x + quad_width,
            Quadrant::TopLeft | Quadrant::BottomLeft => self.center.x - quad_width,
        };
        let y = match q {
            Quadrant::TopRight | Quadrant::TopLeft => self.center.y + quad_height,
            Quadrant::BottomLeft | Quadrant::BottomRight => self.center.y - quad_height,
        };
        Rect {
            center: Point { x: clamp_coordinate(x), y: clamp_coordinate(y) },
            width: half_width as u32,
            height: half_height as u32,
        }
    }

    /// The rectangle of the given extents around `center`.
    pub fn new(center: Point, width: u32, height: u32) -> (r: Rect)
        ensures
            r.center == center,
            r.width == width,
            r.height == height,
    {
        Rect { center, width, height }
    }

    /// The corner with the least coordinates.
    pub fn min(&self) -> (c: Corner)
        ensures
            c.x == self.min_x(),
            c.y == self.min_y(),
    {
        Corner {
            x: self.center.x as i64 - (self.width / 2) as i64,
            y: self.center.y as i64 - (self.height / 2) as i64,
        }
    }

    /// The corner with the greatest coordinates.
    pub fn max(&self) -> (c: Corner)
        ensures
            c.x == self.max_x(),
            c.y == self.max_y(),
    {
        Corner {
            x: self.center.x as i64 + (self.width / 2) as i64,
            y: self.center.y as i64 + (self.height / 2) as i64,
        }
    }

    /// Whether `other` lies wholly in `self`; touching edges count.
    #[verifier::when_used_as_spec(spec_contains)]
    pub fn contains(&self, other: &Rect) -> (r: bool)
        ensures
            r == self.spec_contains(other),
    {
        let self_min = self.min();
        let self_max = self.max();
        let other_min = other.min();
        let other_max = other.max();

        self_min.x <= other_min.x && self_min.y <= other_min.y && self_max.x >= other_max.x
            && self_max.y >= other_max.y
    }

    /// Whether the two rectangles share a point; touching edges count.
    #[verifier::when_used_as_spec(spec_intersects)]
    pub fn intersects(&self, other: &Rect) -> (r: bool)
        ensures
            r == self.spec_intersects(other),
    {
        let self_min = self.min();
        let self_max = self.max();
        let other_min = other.min();
        let other_max = other.max();

        !(self_max.x < other_min.x || self_min.x > other_max.x || self_max.y < other_min.y
            || self_min.y > other_max.y)
    }

    #[verifier::when_used_as_spec(spec_in_range)]
    pub fn in_range(&self) -> (r: bool)
        ensures
            r == self.spec_in_range(),
    {
        let low = self.min();
        let high = self.max();
        i32::MIN as i64 <= low.x && high.x <= i32::MAX as i64 && i32::MIN as i64 <= low.y
            && high.y <= i32::MAX as i64
    }

    #[verifier::when_used_as_spec(spec_quadrant)]
    pub fn quadrant(&self, q: Quadrant) -> (r: Rect)
        ensures
            r == self.spec_quadrant(q),
    {
        let half_width: u32 = self.width / 2;
        let half_height: u32 = self.height / 2;
        let quad_width: i64 = (half_width / 2) as i64;
        let quad_height: i64 = (half_height / 2) as i64;
        let x: i64 = match q {
            Quadrant::TopRight | Quadrant::BottomRight => self.center.x as i64 + quad_width,
            Quadrant::TopLeft | Quadrant::BottomLeft => self.center.x as i64 - quad_width,
        };
        let y: i64 = match q {
            Quadrant::TopRight | Quadrant::TopLeft => self.center.y as i64 + quad_height,
            Quadrant::BottomLeft | Quadrant::BottomRight => self.center.y as i64 - quad_height,
        };
        Rect { center: Point { x: clamp(x), y: clamp(y) }, width: half_width, height: half_height }
    }

    /// The outline as a closed line strip: the four corners, counter-clockwise
    /// from `min()`, and `min()` once more.
    pub fn draw(&self) -> (strip: Vec<Corner>)
        ensures
            strip@ == seq![
                (Corner { x: self.min_x() as i64, y: self.min_y() as i64 }),
                (Corner { x: self.min_x() as i64, y: self.max_y() as i64 }),
                (Corner { x: self.max_x() as i64, y: self.max_y() as i64 }),
                (Corner { x: self.max_x() as i64, y: self.min_y() as i64 }),
                (Corner { x: self.min_x() as i64, y: self.min_y() as i64 }),
            ],
    {
        let min = self.min();
        let max = self.max();
        let mut strip: Vec<Corner> = Vec::new();
        strip.push(Corner { x: min.x, y: min.y });
        strip.push(Corner { x: min.x, y: max.y });
        strip.push(Corner { x: max.x, y: max.y });
        strip.push(Corner { x: max.x, y: min.y });
        strip.push(Corner { x: min.x, y: min.y });
        strip
    }
}

/// A rectangle contains another exactly when it covers every point that the
/// other covers.
pub proof fn lemma_contains_is_point_inclusion(r: Rect, b: Rect)
    ensures
        r.contains(&b) <==> (forall|x: int, y: int| #[trigger] b.covers(x, y) ==> r.covers(x, y)),
{
    if forall|x: int, y: int| #[trigger] b.covers(x, y) ==> r.covers(x, y) {
        assert(b.covers(b.min_x(), b.min_y()));
        assert(b.covers(b.max_x(), b.max_y()));
    }
}

/// Two rectangles intersect exactly when some point lies in both, and so a
/// rectangle that shares no point with another does not intersect it.
pub proof fn lemma_intersects_is_common_point(r: Rect, b: Rect)
    ensures
        r.intersects(&b) <==> (exists|x: int, y: int| #[trigger] r.covers(x, y) && b.covers(x, y)),
{
    if r.intersects(&b) {
        let x = if r.min_x() >= b.min_x() { r.min_x() } else { b.min_x() };
        let y = if r.min_y() >= b.min_y() { r.min_y() } else { b.min_y() };
        assert(r.covers(x, y) && b.covers(x, y));
    }
}

/// Intersection does not depend on the order of the two rectangles, every
/// rectangle contains itself, and what is contained also intersects: a shared
/// edge counts for both.
pub proof fn lemma_contains_and_intersects(r: Rect, b: Rect)
    ensures
        r.contains(&r),
        r.intersects(&b) == b.intersects(&r),
        r.contains(&b) ==> r.intersects(&b),
{
}

/// Containment carries over: what lies in `b` lies in every rectangle that
/// contains `b`, and what intersects `b` intersects such a rectangle too.
pub proof fn lemma_contains_transitive(r: Rect, b: Rect, c: Rect)
    requires
        r.contains(&b),
    ensures
        b.contains(&c) ==> r.contains(&c),
        b.intersects(&c) ==> r.intersects(&c),
{
}

/// The four quarters of a rectangle that splits evenly cover it exactly: a
/// point lies in the rectangle if and only if it lies in one of them.
pub proof fn lemma_quadrants_cover(r: Rect, x: int, y: int)
    requires
        r.in_range(),
        r.splits_evenly(),
    ensures
        r.covers(x, y) <==> {
            ||| r.quadrant(Quadrant::TopRight).covers(x, y)
            ||| r.quadrant(Quadrant::TopLeft).covers(x, y)
            ||| r.quadrant(Quadrant::BottomLeft).covers(x, y)
            ||| r.quadrant(Quadrant::BottomRight).covers(x, y)
        },
{
}

/// Two different quarters of a rectangle that splits evenly share no area:
/// they meet on an edge or in the center only.
pub proof fn lemma_quadrants_disjoint(r: Rect, p: Quadrant, q: Quadrant)
    requires
        r.in_range(),
        r.splits_evenly(),
        p != q,
    ensures
        r.quadrant(p).overlap_area(r.quadrant(q)) == 0,
{
}

/// The extents of the quarters of a rectangle that splits evenly add up:
/// two widths to its width, two heights to its height, four areas to its area.
pub proof fn lemma_quadrants_sum(r: Rect)
    requires
        r.in_range(),
        r.splits_evenly(),
    ensures
        r.quadrant(Quadrant::TopLeft).width + r.quadrant(Quadrant::TopRight).width == r.width,
        r.quadrant(Quadrant::BottomLeft).width + r.quadrant(Quadrant::BottomRight).width
            == r.width,
        r.quadrant(Quadrant::TopLeft).height + r.quadrant(Quadrant::BottomLeft).height
            == r.height,
        r.quadrant(Quadrant::TopRight).height + r.quadrant(Quadrant::BottomRight).height
            == r.height,
        r.quadrant(Quadrant::TopRight).area() + r.quadrant(Quadrant::TopLeft).area() + r.quadrant(
            Quadrant::BottomLeft,
        ).area() + r.quadrant(Quadrant::BottomRight).area() == r.area(),
{
    let w = r.width as int;
    let h = r.height as int;
    let a = w / 2;
    let b = h / 2;
    assert(a * b + a * b + a * b + a * b == w * h) by (nonlinear_arith)
        requires
            w == 2 * a,
            h == 2 * b,
    ;
    assert(r.quadrant(Quadrant::TopRight).area() == a * b);
    assert(r.quadrant(Quadrant::TopLeft).area() == a * b);
    assert(r.quadrant(Quadrant::BottomLeft).area() == a * b);
    assert(r.quadrant(Quadrant::BottomRight).area() == a * b);
}

/// Every quarter of a rectangle in range lies in the rectangle and is in
/// range itself.
pub proof fn lemma_quadrant_inside(r: Rect, q: Quadrant)
    requires
        r.in_range(),
    ensures
        r.contains(&r.quadrant(q)),
        r.quadrant(q).in_range(),
{
}

} // verus!
