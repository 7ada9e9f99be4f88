//! Integer points and sizes, in tiles or in pixels.

use vstd::prelude::*;

verus! {

/// A pair of 32-bit integer coordinates.
#[derive(Clone, Copy, Debug, PartialEq, Eq, Structural)]
pub struct Vector2I {
    pub x: i32,
    pub y: i32,
}

impl Vector2I {
    #[inline]
    pub fn new(x: i32, y: i32) -> (v: Vector2I)
        ensures
            v.x == x,
            v.y == y,
    {
        Vector2I { x, y }
    }

    /// The vector with both coordinates equal to `value`.
    #[inline]
    pub fn splat(value: i32) -> (v: Vector2I)
        ensures
            v.x == value,
            v.y == value,
    {
        Vector2I { x: value, y: value }
    }

    #[inline]
    pub fn x(self) -> (x: i32)
        ensures
            x == self.x,
    {
        self.x
    }

    #[inline]
    pub fn y(self) -> (y: i32)
        ensures
            y == self.y,
    {
        self.y
    }
}

/// A rectangle with integer coordinates: the corner with the least
/// coordinates, and the extent along each axis.
#[derive(Clone, Copy, Debug, PartialEq, Eq, Structural)]
pub struct RectI {
    pub origin: Vector2I,
    pub size: Vector2I,
}

impl RectI {
    #[inline]
    pub fn new(origin: Vector2I, size: Vector2I) -> (rect: RectI)
        ensures
            rect.origin == origin,
            rect.size == size,
    {
        RectI { origin, size }
    }

    /// The number of columns, none if the width is negative.
    pub open spec fn columns(self) -> int {
        if self.size.x > 0 {
            self.size.x as int
        } else {
            0
        }
    }

    /// The number of rows, none if the height is negative.
    pub open spec fn rows(self) -> int {
        if self.size.y > 0 {
            self.size.y as int
        } else {
            0
        }
    }

    #[inline]
    pub fn origin(self) -> (origin: Vector2I)
        ensures
            origin == self.origin,
    {
        self.origin
    }

    #[inline]
    pub fn size(self) -> (size: Vector2I)
        ensures
            size == self.size,
    {
        self.size
    }
}

} // verus!
