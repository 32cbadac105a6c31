use vstd::prelude::*;

verus! {

/// The largest coordinate and size a rectangle may have after construction.
pub open spec fn max_int_value() -> int {
    1073741823
}

/// The smallest coordinate a rectangle may have after construction.
pub open spec fn min_int_value() -> int {
    -1073741824
}

/// A colour: red, green and blue.
#[derive(Clone, Copy, Debug, PartialEq, Eq, Structural)]
pub struct Rgb(pub u8, pub u8, pub u8);

/// An axis-aligned rectangle: position of the top-left corner and size.
#[derive(Clone, Copy, Debug, PartialEq, Eq, Structural)]
pub struct Rect {
    pub x: i32,
    pub y: i32,
    pub w: i32,
    pub h: i32,
}

pub open spec fn clamp_position(v: int) -> int {
    if v > max_int_value() {
        max_int_value()
    } else if v < min_int_value() {
        min_int_value()
    } else {
        v
    }
}

pub open spec fn clamp_size(v: int) -> int {
    if v == 0 {
        1
    } else if v > max_int_value() {
        max_int_value()
    } else {
        v
    }
}

/// The rectangle that `Rect::new` builds from the given position and size.
pub open spec fn rect_of(x: int, y: int, w: int, h: int) -> Rect {
    Rect {
        x: clamp_position(x) as i32,
        y: clamp_position(y) as i32,
        w: clamp_size(w) as i32,
        h: clamp_size(h) as i32,
    }
}

/// Whether two rectangles overlap in an area of positive size; rectangles that
/// only share an edge do not overlap, and an empty rectangle overlaps nothing.
pub open spec fn overlaps(a: Rect, b: Rect) -> bool {
    &&& a.w > 0 && a.h > 0 && b.w > 0 && b.h > 0
    &&& a.x < b.x + b.w && b.x < a.x + a.w
    &&& a.y < b.y + b.h && b.y < a.y + a.h
}

impl Rect {
    /// Well-formed: position and size within the range that construction keeps.
    pub open spec fn wf(self) -> bool {
        &&& min_int_value() <= self.x <= max_int_value()
        &&& min_int_value() <= self.y <= max_int_value()
        &&& 1 <= self.w <= max_int_value()
        &&& 1 <= self.h <= max_int_value()
    }

    /// Builds a rectangle; the position is clamped to the construction range,
    /// and a size of zero becomes one, a size above the range its maximum.
    pub fn new(x: i32, y: i32, width: u32, height: u32) -> (r: Rect)
        ensures
            r == rect_of(x as int, y as int, width as int, height as int),
            r.wf(),
    {
        let cx: i32 = if x > 1073741823 {
            1073741823
        } else if x < -1073741824 {
            -1073741824
        } else {
            x
        };
        let cy: i32 = if y > 1073741823 {
            1073741823
        } else if y < -1073741824 {
            -1073741824
        } else {
            y
        };
        let cw: i32 = if width == 0 {
            1
        } else if width > 1073741823 {
            1073741823
        } else {
            width as i32
        };
        let ch: i32 = if height == 0 {
            1
        } else if height > 1073741823 {
            1073741823
        } else {
            height as i32
        };
        Rect { x: cx, y: cy, w: cw, h: ch }
    }

    /// The width, read as an unsigned number.
    pub fn width(&self) -> (r: u32)
        ensures
            r == self.w as u32,
    {
        self.w as u32
    }

    /// The height, read as an unsigned number.
    pub fn height(&self) -> (r: u32)
        ensures
            r == self.h as u32,
    {
        self.h as u32
    }

    /// Whether this rectangle and `other` overlap.
    pub fn intersects(&self, other: &Rect) -> (r: bool)
        ensures
            r == overlaps(*self, *other),
    {
        if self.w <= 0 || self.h <= 0 || other.w <= 0 || other.h <= 0 {
            return false;
        }
        let ax: i64 = self.x as i64;
        let ay: i64 = self.y as i64;
        let bx: i64 = other.x as i64;
        let by: i64 = other.y as i64;
        ax < bx + other.w as i64 && bx < ax + self.w as i64 && ay < by + other.h as i64 && by
            < ay + self.h as i64
    }
}

/// Overlap does not depend on the order of the two rectangles.
pub proof fn lemma_overlaps_symmetric(a: Rect, b: Rect)
    ensures
        overlaps(a, b) == overlaps(b, a),
{
}

/// A rectangle that construction can give overlaps itself.
pub proof fn lemma_overlaps_self(a: Rect)
    requires
        a.wf(),
    ensures
        overlaps(a, a),
{
}

/// Rectangles that only share an edge do not overlap.
pub proof fn lemma_shared_edge_no_overlap(a: Rect, b: Rect)
    requires
        b.x == a.x + a.w || b.y == a.y + a.h,
    ensures
        !overlaps(a, b),
{
}

/// Building a rectangle from one that construction can give changes nothing.
pub proof fn lemma_rect_of_wf(r: Rect)
    requires
        r.wf(),
    ensures
        rect_of(r.x as int, r.y as int, r.w as int, r.h as int) == r,
{
}

} // verus!
