//! Plain 2D geometry and pixel-buffer types used by the rendering
//! subsystem. The framebuffer device itself is an external collaborator;
//! the value logic here is verified.

use vstd::prelude::*;

verus! {

/// A point in screen coordinates.
#[derive(Debug, Clone, Copy, PartialEq, Eq, Structural)]
pub struct Point {
    pub x: i32,
    pub y: i32,
}

impl Point {
    /// The point `(x, y)`.
    pub fn new(x: i32, y: i32) -> (r: Point)
        ensures
            r.x == x && r.y == y,
    {
        Point { x, y }
    }
}

/// Width and height of a surface.
#[derive(Debug, Clone, Copy, PartialEq, Eq, Structural)]
pub struct Size {
    pub width: u32,
    pub height: u32,
}

/// An axis-aligned rectangle: top-left corner plus extent.
#[derive(Debug, Clone, Copy, PartialEq, Eq, Structural)]
pub struct Rect {
    pub x: i32,
    pub y: i32,
    pub width: u32,
    pub height: u32,
}

impl Rect {
    /// The rectangle at `(x, y)` of the given extent.
    pub fn new(x: i32, y: i32, width: u32, height: u32) -> (r: Rect)
        ensures
            r.x == x && r.y == y && r.width == width && r.height == height,
    {
        Rect { x, y, width, height }
    }

    /// The overlap of two rectangles, or `None` when they do not
    /// overlap: the largest corners on the low sides, the smallest on
    /// the high sides.
    pub fn intersect(&self, other: &Rect) -> (r: Option<Rect>)
        requires
            self.width <= i32::MAX,
            self.height <= i32::MAX,
            other.width <= i32::MAX,
            other.height <= i32::MAX,
            self.x + self.width <= i32::MAX,
            self.y + self.height <= i32::MAX,
            other.x + other.width <= i32::MAX,
            other.y + other.height <= i32::MAX,
        ensures
            ({
                let x1 = if self.x >= other.x {
                    self.x as int
                } else {
                    other.x as int
                };
                let y1 = if self.y >= other.y {
                    self.y as int
                } else {
                    other.y as int
                };
                let xe1 = self.x + self.width;
                let xe2 = other.x + other.width;
                let x2 = if xe1 <= xe2 {
                    xe1
                } else {
                    xe2
                };
                let ye1 = self.y + self.height;
                let ye2 = other.y + other.height;
                let y2 = if ye1 <= ye2 {
                    ye1
                } else {
                    ye2
                };
                if x1 < x2 && y1 < y2 {
                    r matches Some(c) && c.x == x1 && c.y == y1 && c.width == x2 - x1 && c.height
                        == y2 - y1
                } else {
                    r is None
                }
            }),
    {
        let x1 = if self.x >= other.x {
            self.x
        } else {
            other.x
        };
        let y1 = if self.y >= other.y {
            self.y
        } else {
            other.y
        };
        let xe1 = self.x + self.width as i32;
        let xe2 = other.x + other.width as i32;
        let x2 = if xe1 <= xe2 {
            xe1
        } else {
            xe2
        };
        let ye1 = self.y + self.height as i32;
        let ye2 = other.y + other.height as i32;
        let y2 = if ye1 <= ye2 {
            ye1
        } else {
            ye2
        };
        if x1 < x2 && y1 < y2 {
            Some(Rect { x: x1, y: y1, width: (x2 - x1) as u32, height: (y2 - y1) as u32 })
        } else {
            None
        }
    }
}

/// An RGBA color; alpha 0 is transparent.
#[derive(Debug, Clone, Copy, PartialEq, Eq, Structural)]
pub struct Color {
    pub r: u8,
    pub g: u8,
    pub b: u8,
    pub a: u8,
}

impl Color {
    /// A fully opaque color.
    pub fn new(r: u8, g: u8, b: u8) -> (c: Color)
        ensures
            c.r == r && c.g == g && c.b == b && c.a == 255,
    {
        Color { r, g, b, a: 255 }
    }

    /// A color with an explicit alpha.
    pub fn with_alpha(r: u8, g: u8, b: u8, a: u8) -> (c: Color)
        ensures
            c.r == r && c.g == g && c.b == b && c.a == a,
    {
        Color { r, g, b, a }
    }
}

/// An owned pixel buffer: four bytes per pixel, row-major.
pub struct Bitmap {
    pub width: u32,
    pub height: u32,
    pub buffer: Vec<u8>,
}

impl Bitmap {
    /// A zeroed (fully transparent black) bitmap of the given extent.
    pub fn new(width: u32, height: u32) -> (r: Bitmap)
        requires
            width * height * 4 <= u32::MAX,
        ensures
            r.width == width,
            r.height == height,
            r.buffer@.len() == width * height * 4,
            forall|k: int| 0 <= k < r.buffer@.len() ==> r.buffer@[k] == 0u8,
    {
        let size = (width * height * 4) as usize;
        let mut buffer: Vec<u8> = Vec::new();
        while buffer.len() < size
            invariant
                buffer@.len() <= size,
                forall|k: int| 0 <= k < buffer@.len() ==> buffer@[k] == 0u8,
            decreases size - buffer.len(),
        {
            buffer.push(0);
        }
        Bitmap { width, height, buffer }
    }

    /// The raw bytes of the buffer.
    pub fn buffer_as_slice(&self) -> (r: &[u8])
        ensures
            r@ == self.buffer@,
    {
        self.buffer.as_slice()
    }
}

} // verus!
