use vstd::prelude::*;

use crate::raster::lemma_area_fits;

verus! {

/// The kinds of failure of the pipeline and of its value constructors.
#[derive(Clone, Copy, Debug, PartialEq, Eq, Structural)]
pub enum Error {
    /// A requested resolution below the minimum of 100 steps.
    InvalidResolution { steps_x: u32, steps_y: u32 },
    /// A cropped image below 100 pixels in both dimensions.
    RegionTooSmall { width: u32, height: u32 },
    /// No colour survived the palette filters.
    NoColorsFound,
    /// A unit interval value outside [0, 1].
    OutOfRange,
}

/// A number in [0, 1], held as the exact ratio `num / den`.
#[derive(Clone, Copy, Debug, PartialEq, Eq, Structural)]
pub struct UnitInterval {
    pub num: u32,
    pub den: u32,
}

impl UnitInterval {
    pub open spec fn wf(&self) -> bool {
        0 < self.den && self.num <= self.den
    }

    /// The ratio `num / den`, refused with `OutOfRange` unless it lies in [0, 1].
    pub fn new(num: u32, den: u32) -> (r: Result<UnitInterval, Error>)
        ensures
            r is Ok <==> 0 < den && num <= den,
            r matches Ok(u) ==> u.wf() && u.num == num && u.den == den,
            r matches Err(e) ==> e == Error::OutOfRange,
    {
        if den == 0 || num > den {
            Err(Error::OutOfRange)
        } else {
            Ok(UnitInterval { num, den })
        }
    }

    /// `floor(n * self)`: the part of `n` that this fraction stands for.
    pub fn scale(&self, n: u32) -> (r: u32)
        requires
            self.wf(),
        ensures
            r as int * self.den as int <= n as int * self.num as int,
            (n as int * self.num as int) < (r as int + 1) * self.den as int,
            r <= n,
    {
        proof {
            lemma_area_fits(n, self.num);
        }
        let p: u64 = n as u64 * self.num as u64;
        let q: u64 = p / self.den as u64;
        proof {
            assert(n as int * self.num as int <= n as int * self.den as int) by (nonlinear_arith)
                requires
                    self.num <= self.den,
            ;
            assert(q * self.den <= p < (q + 1) * self.den) by (nonlinear_arith)
                requires
                    q == p / self.den as u64,
                    self.den > 0,
            ;
            assert(q <= n) by (nonlinear_arith)
                requires
                    q * self.den <= p,
                    p == n as int * self.num as int,
                    n as int * self.num as int <= n as int * self.den as int,
                    self.den > 0,
            ;
        }
        q as u32
    }

    /// Whether `part / whole` is strictly below this fraction.
    pub fn exceeds_ratio(&self, part: u32, whole: u32) -> (r: bool)
        requires
            self.wf(),
        ensures
            r == ((part as int * self.den as int) < self.num as int * whole as int),
    {
        proof {
            lemma_area_fits(part, self.den);
            lemma_area_fits(self.num, whole);
        }
        (part as u64) * (self.den as u64) < (self.num as u64) * (whole as u64)
    }

    /// Whether `part / whole` is strictly above this fraction.
    pub fn is_exceeded_by(&self, part: u32, whole: u32) -> (r: bool)
        requires
            self.wf(),
        ensures
            r == (part as int * self.den as int > self.num as int * whole as int),
    {
        proof {
            lemma_area_fits(part, self.den);
            lemma_area_fits(self.num, whole);
        }
        (part as u64) * (self.den as u64) > (self.num as u64) * (whole as u64)
    }
}

/// `a <= b` as numbers.
pub open spec fn unit_le(a: UnitInterval, b: UnitInterval) -> bool {
    a.num as int * b.den as int <= b.num as int * a.den as int
}

impl UnitInterval {
    fn le(&self, other: &UnitInterval) -> (r: bool)
        ensures
            r == unit_le(*self, *other),
    {
        proof {
            lemma_area_fits(self.num, other.den);
            lemma_area_fits(other.num, self.den);
        }
        (self.num as u64) * (other.den as u64) <= (other.num as u64) * (self.den as u64)
    }

    /// The smaller of the two; the first when they are equal.
    pub fn min(self, other: UnitInterval) -> (r: UnitInterval)
        ensures
            r == if unit_le(self, other) { self } else { other },
    {
        if self.le(&other) {
            self
        } else {
            other
        }
    }

    /// The larger of the two; the second when they are equal.
    pub fn max(self, other: UnitInterval) -> (r: UnitInterval)
        ensures
            r == if unit_le(self, other) { other } else { self },
    {
        if self.le(&other) {
            other
        } else {
            self
        }
    }
}

/// A point given as fractions of an image's width and height.
#[derive(Clone, Copy, Debug, PartialEq, Eq, Structural)]
pub struct UnitPoint {
    pub x: UnitInterval,
    pub y: UnitInterval,
}

impl UnitPoint {
    pub open spec fn wf(&self) -> bool {
        self.x.wf() && self.y.wf()
    }

    /// The point, if both coordinates lie in [0, 1].
    pub fn new(x: UnitInterval, y: UnitInterval) -> (r: Option<UnitPoint>)
        ensures
            r is Some <==> x.wf() && y.wf(),
            r matches Some(p) ==> p.x == x && p.y == y,
    {
        if x.den > 0 && x.num <= x.den && y.den > 0 && y.num <= y.den {
            Some(UnitPoint { x, y })
        } else {
            None
        }
    }

    /// The pixel that the point falls on in an image of the given size.
    fn transform(&self, width: u32, height: u32) -> (r: (u32, u32))
        requires
            self.wf(),
        ensures
            r.0 == (width as int * self.x.num as int) / self.x.den as int,
            r.1 == (height as int * self.y.num as int) / self.y.den as int,
    {
        let x = self.x.scale(width);
        let y = self.y.scale(height);
        proof {
            lemma_floor_of_scale(x, width, self.x);
            lemma_floor_of_scale(y, height, self.y);
        }
        (x, y)
    }
}

proof fn lemma_floor_of_scale(r: u32, n: u32, f: UnitInterval)
    requires
        f.den > 0,
        r as int * f.den as int <= n as int * f.num as int,
        (n as int * f.num as int) < (r as int + 1) * f.den as int,
    ensures
        r == (n as int * f.num as int) / f.den as int,
{
    let p = n as int * f.num as int;
    assert(r == p / f.den as int) by (nonlinear_arith)
        requires
            r * f.den <= p,
            p < (r + 1) * f.den,
            f.den > 0,
    ;
}

/// A region of an image given by its four corners in fractions of the image size.
#[derive(Clone, Copy, Debug, PartialEq, Eq, Structural)]
pub struct UnitQuadrilateral {
    pub lt: UnitPoint,
    pub lb: UnitPoint,
    pub rt: UnitPoint,
    pub rb: UnitPoint,
}

impl UnitQuadrilateral {
    pub open spec fn wf(&self) -> bool {
        self.lt.wf() && self.lb.wf() && self.rt.wf() && self.rb.wf()
    }

    /// The axis-aligned rectangle with opposite corners `corner` and `opposite`.
    pub fn rectangular(corner: UnitPoint, opposite: UnitPoint) -> (q: UnitQuadrilateral)
        ensures
            q.lt.x == q.lb.x && q.rt.x == q.rb.x && q.lt.y == q.rt.y && q.lb.y == q.rb.y,
            q.lt.x == (if unit_le(corner.x, opposite.x) { corner.x } else { opposite.x }),
            q.rt.x == (if unit_le(corner.x, opposite.x) { opposite.x } else { corner.x }),
            q.lt.y == (if unit_le(corner.y, opposite.y) { corner.y } else { opposite.y }),
            q.lb.y == (if unit_le(corner.y, opposite.y) { opposite.y } else { corner.y }),
    {
        let left = corner.x.min(opposite.x);
        let right = corner.x.max(opposite.x);
        let top = corner.y.min(opposite.y);
        let bottom = corner.y.max(opposite.y);
        UnitQuadrilateral {
            lt: UnitPoint { x: left, y: top },
            lb: UnitPoint { x: left, y: bottom },
            rt: UnitPoint { x: right, y: top },
            rb: UnitPoint { x: right, y: bottom },
        }
    }

    /// The whole image.
    pub fn unit_square() -> (q: UnitQuadrilateral)
        ensures
            q.wf(),
            q.lt.x.num == 0 && q.lt.y.num == 0 && q.rb.x.num == q.rb.x.den && q.rb.y.num == q.rb.y.den,
    {
        Self::rectangular(
            UnitPoint { x: UnitInterval { num: 0, den: 1 }, y: UnitInterval { num: 0, den: 1 } },
            UnitPoint { x: UnitInterval { num: 1, den: 1 }, y: UnitInterval { num: 1, den: 1 } },
        )
    }

    /// The corners as pixels of an image of `size`.
    pub fn transform(&self, size: [u32; 2]) -> (q: QuadrilateralU32)
        requires
            self.wf(),
        ensures
            q.lt.0 == (size[0] as int * self.lt.x.num as int) / self.lt.x.den as int,
            q.lt.1 == (size[1] as int * self.lt.y.num as int) / self.lt.y.den as int,
            q.lb.0 == (size[0] as int * self.lb.x.num as int) / self.lb.x.den as int,
            q.lb.1 == (size[1] as int * self.lb.y.num as int) / self.lb.y.den as int,
            q.rt.0 == (size[0] as int * self.rt.x.num as int) / self.rt.x.den as int,
            q.rt.1 == (size[1] as int * self.rt.y.num as int) / self.rt.y.den as int,
            q.rb.0 == (size[0] as int * self.rb.x.num as int) / self.rb.x.den as int,
            q.rb.1 == (size[1] as int * self.rb.y.num as int) / self.rb.y.den as int,
    {
        let w = size[0];
        let h = size[1];
        QuadrilateralU32 {
            lt: self.lt.transform(w, h),
            lb: self.lb.transform(w, h),
            rt: self.rt.transform(w, h),
            rb: self.rb.transform(w, h),
        }
    }
}

/// A region of an image given by its four corner pixels.
#[derive(Clone, Copy, Debug, PartialEq, Eq)]
pub struct QuadrilateralU32 {
    pub lt: (u32, u32),
    pub lb: (u32, u32),
    pub rt: (u32, u32),
    pub rb: (u32, u32),
}

impl QuadrilateralU32 {
    /// From the leftmost left corner to the rightmost right corner.
    pub fn width(&self) -> (w: u32)
        requires
            (if self.lt.0 <= self.lb.0 { self.lt.0 } else { self.lb.0 }) <= (if self.rt.0 >= self.rb.0 { self.rt.0 } else { self.rb.0 }),
        ensures
            w == (if self.rt.0 >= self.rb.0 { self.rt.0 } else { self.rb.0 }) - (if self.lt.0 <= self.lb.0 { self.lt.0 } else { self.lb.0 }),
    {
        let right = if self.rt.0 >= self.rb.0 { self.rt.0 } else { self.rb.0 };
        let left = if self.lt.0 <= self.lb.0 { self.lt.0 } else { self.lb.0 };
        right - left
    }

    /// From the topmost top corner to the lowest bottom corner.
    pub fn height(&self) -> (h: u32)
        requires
            (if self.lt.1 <= self.rt.1 { self.lt.1 } else { self.rt.1 }) <= (if self.lb.1 >= self.rb.1 { self.lb.1 } else { self.rb.1 }),
        ensures
            h == (if self.lb.1 >= self.rb.1 { self.lb.1 } else { self.rb.1 }) - (if self.lt.1 <= self.rt.1 { self.lt.1 } else { self.rt.1 }),
    {
        let bottom = if self.lb.1 >= self.rb.1 { self.lb.1 } else { self.rb.1 };
        let top = if self.lt.1 <= self.rt.1 { self.lt.1 } else { self.rt.1 };
        bottom - top
    }
}

} // verus!
