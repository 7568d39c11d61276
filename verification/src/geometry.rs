//! Pixel-space points and axis-aligned boxes.
//!
//! Coordinates are integers in screen pixel units. The OCR engine reports
//! box corners as whole numbers, so nothing finer is needed here; the
//! rendering layer converts to its own units at the edge.

use vstd::prelude::*;

verus! {

/// A 2D coordinate in screen pixel space.
#[derive(Debug, Clone, Copy, PartialEq, Eq, Structural)]
pub struct PixelPoint {
    pub x: i64,
    pub y: i64,
}

impl PixelPoint {
    pub fn new(x: i64, y: i64) -> (r: Self)
        ensures
            r == (PixelPoint { x, y }),
    {
        Self { x, y }
    }

    pub fn get_x(&self) -> (r: i64)
        ensures
            r == self.x,
    {
        self.x
    }

    pub fn get_y(&self) -> (r: i64)
        ensures
            r == self.y,
    {
        self.y
    }

    /// Vector difference of two points.
    pub fn difference(self, rhs: Self) -> (r: Self)
        requires
            i64::MIN <= self.x - rhs.x <= i64::MAX,
            i64::MIN <= self.y - rhs.y <= i64::MAX,
        ensures
            r.x == self.x - rhs.x,
            r.y == self.y - rhs.y,
    {
        Self { x: self.x - rhs.x, y: self.y - rhs.y }
    }

    /// Component-wise minimum, used to grow a box so that it covers a point.
    pub fn component_min(self, other: Self) -> (r: Self)
        ensures
            r == spec_point_min(self, other),
    {
        Self {
            x: if self.x <= other.x { self.x } else { other.x },
            y: if self.y <= other.y { self.y } else { other.y },
        }
    }

    /// Component-wise maximum, used to grow a box so that it covers a point.
    pub fn component_max(self, other: Self) -> (r: Self)
        ensures
            r == spec_point_max(self, other),
    {
        Self {
            x: if self.x >= other.x { self.x } else { other.x },
            y: if self.y >= other.y { self.y } else { other.y },
        }
    }
}

pub open spec fn spec_point_min(a: PixelPoint, b: PixelPoint) -> PixelPoint {
    PixelPoint {
        x: if a.x <= b.x { a.x } else { b.x },
        y: if a.y <= b.y { a.y } else { b.y },
    }
}

pub open spec fn spec_point_max(a: PixelPoint, b: PixelPoint) -> PixelPoint {
    PixelPoint {
        x: if a.x >= b.x { a.x } else { b.x },
        y: if a.y >= b.y { a.y } else { b.y },
    }
}

/// An axis-aligned rectangle given by its two corners.
#[derive(Debug, Clone, Copy, PartialEq, Eq, Structural)]
pub struct PixelArea {
    pub min: PixelPoint,
    pub max: PixelPoint,
}

impl PixelArea {
    /// A box is well formed when its corners are ordered; a degenerate
    /// zero-size box is legal (punctuation glyphs produce them).
    pub open spec fn wf(self) -> bool {
        self.min.x <= self.max.x && self.min.y <= self.max.y
    }

    pub fn new(min: PixelPoint, max: PixelPoint) -> (r: Self)
        ensures
            r == (PixelArea { min, max }),
    {
        Self { min, max }
    }

    pub fn width(&self) -> (r: i64)
        requires
            self.wf(),
            self.max.x - self.min.x <= i64::MAX,
        ensures
            r == self.max.x - self.min.x,
    {
        self.max.x - self.min.x
    }

    pub fn height(&self) -> (r: i64)
        requires
            self.wf(),
            self.max.y - self.min.y <= i64::MAX,
        ensures
            r == self.max.y - self.min.y,
    {
        self.max.y - self.min.y
    }
}

/// One box lies entirely inside another.
pub open spec fn spec_box_contains(outer_min: PixelPoint, outer_max: PixelPoint, inner_min: PixelPoint, inner_max: PixelPoint) -> bool {
    outer_min.x <= inner_min.x && outer_min.y <= inner_min.y
    && inner_max.x <= outer_max.x && inner_max.y <= outer_max.y
}

} // verus!
