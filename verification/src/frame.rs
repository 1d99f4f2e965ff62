//! Axis-aligned rectangles in canvas coordinates, and the relations between
//! two of them that the layout operations are built from.

use vstd::prelude::*;

verus! {

/// Smallest width and height that a resize leaves a frame with.
pub const MIN_SIZE: i32 = 50;

/// An axis-aligned rectangle: top-left corner and extent, in canvas units.
#[derive(Debug, Clone, Copy, PartialEq, Eq, Structural)]
pub struct Frame {
    pub x: i32,
    pub y: i32,
    pub width: i32,
    pub height: i32,
}

/// A direction of travel on the canvas.
#[derive(Debug, Clone, Copy, PartialEq, Eq, Structural)]
pub enum Direction {
    Up,
    Down,
    Left,
    Right,
}

/// One of the two axes of the canvas.
#[derive(Debug, Clone, Copy, PartialEq, Eq, Structural)]
pub enum Axis {
    /// Along the width.
    Horizontal,
    /// Along the height.
    Vertical,
}

/// The larger of two integers.
pub open spec fn max_int(a: int, b: int) -> int {
    if a >= b { a } else { b }
}

/// The smaller of two integers.
pub open spec fn min_int(a: int, b: int) -> int {
    if a <= b { a } else { b }
}

/// The distance of an integer from zero.
pub open spec fn abs_int(a: int) -> int {
    if a >= 0 { a } else { -a }
}

/// The extent of `f` along the axis: its width or its height.
pub open spec fn extent(f: Frame, axis: Axis) -> int {
    match axis {
        Axis::Horizontal => f.width as int,
        Axis::Vertical => f.height as int,
    }
}

impl Frame {
    /// The column just past the frame's right edge.
    pub open spec fn right(self) -> int {
        self.x + self.width
    }

    /// The row just past the frame's bottom edge.
    pub open spec fn bottom(self) -> int {
        self.y + self.height
    }

    /// The corner is not negative, the extent is not negative, and both far
    /// edges are representable.
    pub open spec fn fits(self) -> bool {
        &&& self.x >= 0
        &&& self.y >= 0
        &&& self.width >= 0
        &&& self.height >= 0
        &&& self.right() <= i32::MAX
        &&& self.bottom() <= i32::MAX
    }

    /// Whether the point `(px, py)` lies in the half-open rectangle.
    pub open spec fn covers(self, px: int, py: int) -> bool {
        self.x <= px < self.right() && self.y <= py < self.bottom()
    }

    /// The column of the frame's center, rounded down.
    pub open spec fn center_x(self) -> int {
        self.x + self.width / 2
    }

    /// The row of the frame's center, rounded down.
    pub open spec fn center_y(self) -> int {
        self.y + self.height / 2
    }

    /// The frame with its right edge moved to column `edge`.
    pub open spec fn with_right(self, edge: int) -> Frame {
        Frame { width: (edge - self.x) as i32, ..self }
    }

    /// The frame with its bottom edge moved to row `edge`.
    pub open spec fn with_bottom(self, edge: int) -> Frame {
        Frame { height: (edge - self.y) as i32, ..self }
    }

    /// Whether the frame fits: a corner and an extent that are not negative,
    /// and far edges that are representable.
    pub fn is_valid(&self) -> (valid: bool)
        ensures
            valid == self.fits(),
    {
        self.x >= 0 && self.y >= 0 && self.width >= 0 && self.height >= 0 && self.x as i64
            + self.width as i64 <= i32::MAX as i64 && self.y as i64 + self.height as i64
            <= i32::MAX as i64
    }

    /// Whether the point `(px, py)` is inside the frame. The left and top
    /// edges belong to the frame, the right and bottom edges do not.
    pub fn _contains(&self, px: i32, py: i32) -> (inside: bool)
        ensures
            inside == self.covers(px as int, py as int),
    {
        let right: i64 = self.x as i64 + self.width as i64;
        let bottom: i64 = self.y as i64 + self.height as i64;
        px >= self.x && (px as i64) < right && py >= self.y && (py as i64) < bottom
    }
}

} // verus!
