//! Plain value types: colours, integer points and line segments.

use vstd::prelude::*;

verus! {

/// Width of the frame in pixels.
pub const WIDTH: u32 = 800;

/// Height of the frame in pixels.
pub const HEIGHT: u32 = 600;

/// An RGBA colour, one byte per channel.
#[derive(Clone, Copy, Debug)]
pub struct Color {
    pub red: u8,
    pub green: u8,
    pub blue: u8,
    pub alpha: u8,
}

impl Color {
    /// The colour with the given channels.
    pub fn new(red: u8, green: u8, blue: u8, alpha: u8) -> (color: Self)
        ensures
            color == (Color { red, green, blue, alpha }),
    {
        Color { red, green, blue, alpha }
    }

    /// The byte stored for this colour at position `c` of a pixel's four bytes.
    pub open spec fn channel(self, c: int) -> u8 {
        if c == 0 {
            self.red
        } else if c == 1 {
            self.green
        } else if c == 2 {
            self.blue
        } else {
            self.alpha
        }
    }
}

/// A point in pixel space. It may lie outside the frame.
#[derive(Clone, Copy, Debug)]
pub struct Vector {
    pub x: i32,
    pub y: i32,
}

impl View for Vector {
    type V = (int, int);

    open spec fn view(&self) -> (int, int) {
        (self.x as int, self.y as int)
    }
}

impl Vector {
    /// The point `x` pixels from the left edge and `y` pixels from the top edge.
    pub fn new(x: i32, y: i32) -> (point: Self)
        ensures
            point == (Vector { x, y }),
    {
        Vector { x, y }
    }
}

/// A straight segment between two points, both of which belong to it.
#[derive(Clone, Copy, Debug)]
pub struct Line {
    pub start: Vector,
    pub end: Vector,
}

impl Line {
    /// The segment from `start` to `end`.
    pub fn new(start: Vector, end: Vector) -> (line: Self)
        ensures
            line == (Line { start, end }),
    {
        Line { start, end }
    }
}

} // verus!
