use vstd::prelude::*;

verus! {

/// True when `v` is representable as an `i32` coordinate.
pub open spec fn fits_i32(v: int) -> bool {
    i32::MIN <= v <= i32::MAX
}

/// A point in logical (pre-device-transform) units.
#[derive(Clone, Copy, Debug, PartialEq, Eq, Structural)]
pub struct PixelPoint {
    pub x: i32,
    pub y: i32,
}

/// A width and a height in logical units; either may be negative.
#[derive(Clone, Copy, Debug, PartialEq, Eq, Structural)]
pub struct PixelSize {
    pub width: i32,
    pub height: i32,
}

/// An axis-aligned rectangle: `origin` and the signed extents in `size`.
#[derive(Clone, Copy, Debug, PartialEq, Eq, Structural)]
pub struct PixelRect {
    pub origin: PixelPoint,
    pub size: PixelSize,
}

/// A 2D affine transform in row-vector convention:
/// `(x, y) -> (x * m11 + y * m21 + m31, x * m12 + y * m22 + m32)`.
#[derive(Clone, Copy, Debug, PartialEq, Eq, Structural)]
pub struct PixelTransform {
    pub m11: i32,
    pub m12: i32,
    pub m21: i32,
    pub m22: i32,
    pub m31: i32,
    pub m32: i32,
}

/// An RGBA color, one byte per channel.
#[derive(Clone, Copy, Debug, PartialEq, Eq, Structural)]
pub struct Color {
    pub r: u8,
    pub g: u8,
    pub b: u8,
    pub a: u8,
}

/// Texture coordinates in units of `1 / UV_ONE` of the texture.
pub const UV_ONE: i32 = 65536;

/// The texture-space corners `(u1, v1)` and `(u2, v2)` mapped onto a rectangle.
#[derive(Clone, Copy, Debug, PartialEq, Eq, Structural)]
pub struct TexCoords {
    pub u1: i32,
    pub v1: i32,
    pub u2: i32,
    pub v2: i32,
}

impl PixelPoint {
    pub fn new(x: i32, y: i32) -> (r: PixelPoint)
        ensures
            r.x == x,
            r.y == y,
    {
        PixelPoint { x, y }
    }

    /// True when adding `o` to this point stays representable.
    pub open spec fn can_shift(self, o: PixelPoint) -> bool {
        fits_i32(self.x + o.x) && fits_i32(self.y + o.y)
    }

    /// This point moved by `o`.
    pub open spec fn shifted(self, o: PixelPoint) -> PixelPoint {
        PixelPoint { x: (self.x + o.x) as i32, y: (self.y + o.y) as i32 }
    }

    pub fn translate(&mut self, offset: PixelPoint)
        requires
            old(self).can_shift(offset),
        ensures
            *final(self) == old(self).shifted(offset),
    {
        self.x = self.x + offset.x;
        self.y = self.y + offset.y;
    }
}

impl PixelSize {
    pub fn new(width: i32, height: i32) -> (r: PixelSize)
        ensures
            r.width == width,
            r.height == height,
    {
        PixelSize { width, height }
    }
}

impl PixelRect {
    pub fn new(origin: PixelPoint, size: PixelSize) -> (r: PixelRect)
        ensures
            r.origin == origin,
            r.size == size,
    {
        PixelRect { origin, size }
    }

    pub open spec fn left(self) -> int {
        self.origin.x as int
    }

    pub open spec fn top(self) -> int {
        self.origin.y as int
    }

    pub open spec fn right(self) -> int {
        self.origin.x + self.size.width
    }

    pub open spec fn bottom(self) -> int {
        self.origin.y + self.size.height
    }

    /// The far corner `origin + size` is representable.
    pub open spec fn wf(self) -> bool {
        fits_i32(self.right()) && fits_i32(self.bottom())
    }

    /// The closed region covered by the rectangle holds `p`.
    pub open spec fn contains(self, p: PixelPoint) -> bool {
        self.left() <= p.x <= self.right() && self.top() <= p.y <= self.bottom()
    }

    /// `self` is a non-inverted rectangle lying inside `outer`.
    pub open spec fn inside(self, outer: PixelRect) -> bool {
        &&& outer.left() <= self.left() <= self.right() <= outer.right()
        &&& outer.top() <= self.top() <= self.bottom() <= outer.bottom()
    }

    /// The closed regions of the two rectangles share no point.
    pub open spec fn disjoint(self, other: PixelRect) -> bool {
        ||| max_int(self.left(), other.left()) > min_int(self.right(), other.right())
        ||| max_int(self.top(), other.top()) > min_int(self.bottom(), other.bottom())
    }

    pub open spec fn shifted(self, o: PixelPoint) -> PixelRect {
        PixelRect { origin: self.origin.shifted(o), size: self.size }
    }

    pub fn translate(&mut self, offset: PixelPoint)
        requires
            old(self).origin.can_shift(offset),
        ensures
            *final(self) == old(self).shifted(offset),
    {
        self.origin.translate(offset);
    }
}

pub open spec fn max_int(a: int, b: int) -> int {
    if a >= b { a } else { b }
}

pub open spec fn min_int(a: int, b: int) -> int {
    if a <= b { a } else { b }
}

impl PixelTransform {
    pub fn identity() -> (r: PixelTransform)
        ensures
            r == (PixelTransform { m11: 1, m12: 0, m21: 0, m22: 1, m31: 0, m32: 0 }),
    {
        PixelTransform { m11: 1, m12: 0, m21: 0, m22: 1, m31: 0, m32: 0 }
    }

    pub open spec fn can_post_translate(self, o: PixelPoint) -> bool {
        fits_i32(self.m31 + o.x) && fits_i32(self.m32 + o.y)
    }

    /// `self` followed by a translation by `o`: only the translation row changes.
    pub open spec fn post_translated(self, o: PixelPoint) -> PixelTransform {
        PixelTransform { m31: (self.m31 + o.x) as i32, m32: (self.m32 + o.y) as i32, ..self }
    }

    pub fn post_translate(self, offset: PixelPoint) -> (r: PixelTransform)
        requires
            self.can_post_translate(offset),
        ensures
            r == self.post_translated(offset),
    {
        PixelTransform { m31: self.m31 + offset.x, m32: self.m32 + offset.y, ..self }
    }
}

} // verus!
