use vstd::prelude::*;

use crate::color::{color_dist, color_distance, Color};
use crate::raster::{Image, Mask};

verus! {

/// Whether a pixel at colour distance `d` from the target is a hit: closer than
/// `radius`, or of exactly the target's red, green and blue.
pub open spec fn within_radius(d: int, radius: u8) -> bool {
    d < radius || d == 0
}

/// `m` is the mask of the pixels of `img` within `radius` of `target`.
pub open spec fn is_color_mask(img: Image, target: Color, radius: u8, m: Mask) -> bool {
    &&& m.wf()
    &&& m.width == img.width
    &&& m.height == img.height
    &&& forall|i: int|
        0 <= i < m.hits@.len() ==> #[trigger] m.hits@[i] == within_radius(color_dist(img.pixels@[i], target), radius)
}

pub open spec fn same_rgb(c: Color, d: Color) -> bool {
    c.r == d.r && c.g == d.g && c.b == d.b
}

/// Marks each pixel whose colour distance to `target` is below `radius`, and
/// each pixel of exactly the target's red, green and blue.
pub fn color_filtering(image: &Image, target: &Color, radius: u8) -> (m: Mask)
    requires
        image.wf(),
    ensures
        is_color_mask(*image, *target, radius, m),
{
    let n = image.pixels.len();
    let mut hits: Vec<bool> = Vec::with_capacity(n);
    let mut i: usize = 0;
    while i < n
        invariant
            n == image.pixels@.len(),
            i <= n,
            hits@.len() == i,
            forall|j: int|
                0 <= j < i ==> #[trigger] hits@[j] == within_radius(color_dist(image.pixels@[j], *target), radius),
        decreases n - i,
    {
        let d = color_distance(&image.pixels[i], target);
        hits.push(d < radius || d == 0);
        i = i + 1;
    }
    Mask { width: image.width, height: image.height, hits }
}

/// With a cluster radius of zero the hits are exactly the pixels whose red,
/// green and blue channels equal those of the target.
pub proof fn lemma_zero_radius_mask(img: Image, target: Color, m: Mask)
    requires
        is_color_mask(img, target, 0, m),
        img.wf(),
    ensures
        forall|i: int| 0 <= i < m.hits@.len() ==> (#[trigger] m.hits@[i] <==> same_rgb(img.pixels@[i], target)),
{
}

/// With a cluster radius of one the hits are exactly the pixels whose red, green
/// and blue channels equal those of the target.
pub proof fn lemma_unit_radius_mask(img: Image, target: Color, m: Mask)
    requires
        is_color_mask(img, target, 1, m),
        img.wf(),
    ensures
        forall|i: int| 0 <= i < m.hits@.len() ==> (#[trigger] m.hits@[i] <==> same_rgb(img.pixels@[i], target)),
{
}

} // verus!
