//! Points, sizes, rectangles and colours used by the area model.

use vstd::prelude::*;
use crate::length::Length;

verus! {

/// A point in a two-dimensional coordinate space.
#[derive(Debug, Clone, Copy, PartialEq, Eq, Structural)]
pub struct Point {
    pub x: Length,
    pub y: Length,
}

/// A width/height pair.
#[derive(Debug, Clone, Copy, PartialEq, Eq, Structural)]
pub struct Size {
    pub width: Length,
    pub height: Length,
}

/// An axis-aligned rectangle given by its origin and extent.
#[derive(Debug, Clone, Copy, PartialEq, Eq, Structural)]
pub struct Rect {
    pub x: Length,
    pub y: Length,
    pub width: Length,
    pub height: Length,
}

/// An RGB colour with 8-bit channels.
#[derive(Debug, Clone, Copy, PartialEq, Eq, Structural)]
pub struct Color {
    pub r: u8,
    pub g: u8,
    pub b: u8,
}

impl Point {
    /// A point at the given coordinates.
    pub fn new(x: Length, y: Length) -> (r: Point)
        ensures
            r == (Point { x, y }),
    {
        Point { x, y }
    }

    /// The origin.
    pub fn zero() -> (r: Point)
        ensures
            r.x.mp() == 0 && r.y.mp() == 0,
    {
        Point { x: Length::zero(), y: Length::zero() }
    }
}

impl Size {
    /// A size with the given extent.
    pub fn new(width: Length, height: Length) -> (r: Size)
        ensures
            r == (Size { width, height }),
    {
        Size { width, height }
    }
}

impl Rect {
    /// A rectangle from its four components.
    pub fn new(x: Length, y: Length, width: Length, height: Length) -> (r: Rect)
        ensures
            r == (Rect { x, y, width, height }),
    {
        Rect { x, y, width, height }
    }

    /// A rectangle whose origin is `p` and whose extent is `s`.
    pub fn from_point_size(p: Point, s: Size) -> (r: Rect)
        ensures
            r == (Rect { x: p.x, y: p.y, width: s.width, height: s.height }),
    {
        Rect { x: p.x, y: p.y, width: s.width, height: s.height }
    }
}

impl Color {
    /// Opaque black.
    pub fn black() -> (r: Color)
        ensures
            r == (Color { r: 0, g: 0, b: 0 }),
    {
        Color { r: 0, g: 0, b: 0 }
    }
}

} // verus!
