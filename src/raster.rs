use vstd::prelude::*;

use crate::color::Color;

verus! {

/// A row-major grid of colours.
pub struct Image {
    pub width: u32,
    pub height: u32,
    pub pixels: Vec<Color>,
}

/// A row-major grid of hits (`true`) and misses (`false`).
pub struct Mask {
    pub width: u32,
    pub height: u32,
    pub hits: Vec<bool>,
}

impl Image {
    pub open spec fn wf(&self) -> bool {
        self.pixels@.len() == self.width as int * self.height as int
    }

    pub open spec fn pixel(&self, x: int, y: int) -> Color {
        self.pixels@[y * self.width as int + x]
    }

    /// Builds an image, refusing a pixel count that does not match the dimensions.
    pub fn new(width: u32, height: u32, pixels: Vec<Color>) -> (r: Option<Image>)
        ensures
            r.is_some() <==> pixels@.len() == width as int * height as int,
            r matches Some(i) ==> i.wf() && i.width == width && i.height == height && i.pixels@
                == pixels@,
    {
        proof {
            lemma_area_fits(width, height);
        }
        let area: u64 = width as u64 * height as u64;
        if pixels.len() as u64 == area {
            Some(Image { width, height, pixels })
        } else {
            None
        }
    }

    pub fn get_pixel(&self, x: u32, y: u32) -> (c: Color)
        requires
            self.wf(),
            x < self.width,
            y < self.height,
        ensures
            c == self.pixel(x as int, y as int),
    {
        let _n = self.pixels.len();
        proof {
            lemma_index_in_grid(x as int, y as int, self.width as int, self.height as int);
        }
        self.pixels[y as usize * self.width as usize + x as usize]
    }
}

impl Mask {
    pub open spec fn wf(&self) -> bool {
        self.hits@.len() == self.width as int * self.height as int
    }

    pub open spec fn hit(&self, x: int, y: int) -> bool {
        self.hits@[y * self.width as int + x]
    }

    pub fn get(&self, x: u32, y: u32) -> (h: bool)
        requires
            self.wf(),
            x < self.width,
            y < self.height,
        ensures
            h == self.hit(x as int, y as int),
    {
        let _n = self.hits.len();
        proof {
            lemma_index_in_grid(x as int, y as int, self.width as int, self.height as int);
        }
        self.hits[y as usize * self.width as usize + x as usize]
    }

    /// The number of hits in column `x`.
    pub fn column_hits(&self, x: u32) -> (n: usize)
        requires
            self.wf(),
            x < self.width,
        ensures
            n == count_column_hits(*self, x as int, self.height as int),
    {
        let mut n: usize = 0;
        let mut y: u32 = 0;
        while y < self.height
            invariant
                self.wf(),
                x < self.width,
                y <= self.height,
                n == count_column_hits(*self, x as int, y as int),
                n <= y,
            decreases self.height - y,
        {
            if self.get(x, y) {
                n = n + 1;
            }
            y = y + 1;
        }
        n
    }
}

/// The number of hits among the first `n` rows of column `x`.
pub open spec fn count_column_hits(m: Mask, x: int, n: int) -> nat
    decreases n,
{
    if n <= 0 {
        0
    } else {
        count_column_hits(m, x, n - 1) + if m.hit(x, n - 1) {
            1nat
        } else {
            0nat
        }
    }
}

pub proof fn lemma_area_fits(w: u32, h: u32)
    ensures
        w as int * h as int <= u64::MAX,
{
    assert(w as int * h as int <= 0xffff_ffff * 0xffff_ffff) by (nonlinear_arith)
        requires
            w <= 0xffff_ffff,
            h <= 0xffff_ffff,
    ;
}

pub proof fn lemma_index_in_grid(x: int, y: int, w: int, h: int)
    requires
        0 <= x < w,
        0 <= y < h,
    ensures
        0 <= y * w + x < w * h,
        0 <= y * w <= y * w + x,
{
    assert(y * w + x < w * h) by (nonlinear_arith)
        requires
            0 <= x < w,
            0 <= y < h,
    ;
    assert(0 <= y * w) by (nonlinear_arith)
        requires
            0 <= y,
            0 <= w,
    ;
}

} // verus!
