use vstd::prelude::*;

verus! {

/// An RGBA colour; only the first three channels take part in distances.
#[derive(Clone, Copy, Debug, PartialEq, Eq, Structural)]
pub struct Color {
    pub r: u8,
    pub g: u8,
    pub b: u8,
    pub a: u8,
}

pub open spec fn channel_diff(x: u8, y: u8) -> int {
    if x >= y {
        x - y
    } else {
        y - x
    }
}

/// The L1 distance over the red, green and blue channels, saturated at 255.
pub open spec fn color_dist(c: Color, d: Color) -> int {
    let s = channel_diff(c.r, d.r) + channel_diff(c.g, d.g) + channel_diff(c.b, d.b);
    if s > 255 {
        255
    } else {
        s
    }
}

fn abs_diff(x: u8, y: u8) -> (r: u8)
    ensures
        r == channel_diff(x, y),
{
    if x >= y {
        x - y
    } else {
        y - x
    }
}

fn saturating_add_u8(x: u8, y: u8) -> (r: u8)
    ensures
        r == (if x + y > 255 { 255 } else { x + y }),
{
    if x as u16 + y as u16 > 255 {
        255
    } else {
        x + y
    }
}

/// Saturating sum of the absolute channel differences of red, green and blue.
pub fn color_distance(c: &Color, d: &Color) -> (r: u8)
    ensures
        r == color_dist(*c, *d),
{
    let s = saturating_add_u8(0, abs_diff(c.r, d.r));
    let s = saturating_add_u8(s, abs_diff(c.g, d.g));
    saturating_add_u8(s, abs_diff(c.b, d.b))
}

impl Color {
    pub fn rgb(r: u8, g: u8, b: u8) -> (c: Color)
        ensures
            c == (Color { r, g, b, a: 255 }),
    {
        Color { r, g, b, a: 255 }
    }

    /// The achromatic colour whose channels all equal the median channel of `self`.
    pub fn gray_equivalent(&self) -> (c: Color)
        ensures
            c.r == c.g && c.g == c.b,
            c.r == median3(self.r, self.g, self.b),
            c.a == self.a,
    {
        let m = if (self.r <= self.g && self.g <= self.b) || (self.b <= self.g && self.g <= self.r) {
            self.g
        } else if (self.g <= self.r && self.r <= self.b) || (self.b <= self.r && self.r <= self.g) {
            self.r
        } else {
            self.b
        };
        Color { r: m, g: m, b: m, a: self.a }
    }
}

/// The median of three channel values.
pub open spec fn median3(x: u8, y: u8, z: u8) -> u8 {
    if (x <= y && y <= z) || (z <= y && y <= x) {
        y
    } else if (y <= x && x <= z) || (z <= x && x <= y) {
        x
    } else {
        z
    }
}

} // verus!
