use vstd::prelude::*;

use crate::color::{color_dist, color_distance, median3, Color};
use crate::geometry::UnitInterval;
use crate::raster::Image;
use crate::settings::Settings;

verus! {

pub open spec fn white() -> Color {
    Color { r: 255, g: 255, b: 255, a: 255 }
}

pub open spec fn black() -> Color {
    Color { r: 0, g: 0, b: 0, a: 255 }
}

pub open spec fn gray_of(c: Color) -> Color {
    let m = median3(c.r, c.g, c.b);
    Color { r: m, g: m, b: m, a: c.a }
}

/// A pixel close to white or black, or (when grays are ignored) to its own gray, is background.
pub open spec fn is_background(c: Color, radius: u8, ignore_gray: bool) -> bool {
    color_dist(white(), c) < radius || color_dist(black(), c) < radius || (ignore_gray && color_dist(
        gray_of(c),
        c,
    ) < radius)
}

/// The index of the first colour of `colors` from position `k` on within `radius`
/// of `c`, or the length of `colors` if there is none.
pub open spec fn first_within(colors: Seq<Color>, c: Color, radius: u8, k: int) -> int
    decreases colors.len() - k,
{
    if k >= colors.len() || k < 0 {
        colors.len() as int
    } else if color_dist(colors[k], c) <= radius {
        k
    } else {
        first_within(colors, c, radius, k + 1)
    }
}

/// The cluster of pixel colour `c`: the first representative within `radius`.
pub open spec fn cluster_of(colors: Seq<Color>, c: Color, radius: u8) -> int {
    first_within(colors, c, radius, 0)
}

/// The number of rows `y < n` of column `x` whose pixel belongs to cluster `k`.
pub open spec fn cluster_count(
    img: Image,
    colors: Seq<Color>,
    radius: u8,
    ignore_gray: bool,
    x: int,
    k: int,
    n: int,
) -> int
    decreases n,
{
    if n <= 0 {
        0
    } else {
        cluster_count(img, colors, radius, ignore_gray, x, k, n - 1) + if !is_background(
            img.pixel(x, n - 1),
            radius,
            ignore_gray,
        ) && cluster_of(colors, img.pixel(x, n - 1), radius) == k {
            1int
        } else {
            0int
        }
    }
}

/// Cluster representatives with their per-column pixel counts.
pub struct ColorExtractor {
    pub colors: Vec<Color>,
    pub color_occurences: Vec<Vec<u32>>,
}

proof fn lemma_first_within_push(colors: Seq<Color>, n: Color, c: Color, radius: u8, k: int)
    requires
        0 <= k <= colors.len(),
        first_within(colors, c, radius, k) < colors.len(),
    ensures
        first_within(colors.push(n), c, radius, k) == first_within(colors, c, radius, k),
    decreases colors.len() - k,
{
    if k < colors.len() {
        assert(colors.push(n)[k] == colors[k]);
        if color_dist(colors[k], c) > radius {
            lemma_first_within_push(colors, n, c, radius, k + 1);
        }
    }
}

proof fn lemma_first_within_bound(colors: Seq<Color>, c: Color, radius: u8, k: int)
    requires
        0 <= k <= colors.len(),
    ensures
        k <= first_within(colors, c, radius, k) <= colors.len(),
        first_within(colors, c, radius, k) < colors.len() ==> color_dist(
            colors[first_within(colors, c, radius, k)],
            c,
        ) <= radius,
    decreases colors.len() - k,
{
    if k < colors.len() && color_dist(colors[k], c) > radius {
        lemma_first_within_bound(colors, c, radius, k + 1);
    }
}

proof fn lemma_count_push(
    img: Image,
    colors: Seq<Color>,
    n: Color,
    radius: u8,
    ignore_gray: bool,
    x: int,
    k: int,
    m: int,
)
    requires
        forall|y: int|
            0 <= y < m && !is_background(img.pixel(x, y), radius, ignore_gray) ==> cluster_of(
                colors,
                #[trigger] img.pixel(x, y),
                radius,
            ) < colors.len(),
    ensures
        cluster_count(img, colors.push(n), radius, ignore_gray, x, k, m) == cluster_count(
            img,
            colors,
            radius,
            ignore_gray,
            x,
            k,
            m,
        ),
    decreases m,
{
    if m > 0 {
        lemma_count_push(img, colors, n, radius, ignore_gray, x, k, m - 1);
        let p = img.pixel(x, m - 1);
        if !is_background(p, radius, ignore_gray) {
            lemma_first_within_push(colors, n, p, radius, 0);
        }
    }
}

proof fn lemma_count_bound(img: Image, colors: Seq<Color>, radius: u8, ignore_gray: bool, x: int, k: int, m: int)
    ensures
        0 <= cluster_count(img, colors, radius, ignore_gray, x, k, m) <= if m >= 0 { m } else { 0 },
    decreases m,
{
    if m > 0 {
        lemma_count_bound(img, colors, radius, ignore_gray, x, k, m - 1);
    }
}

proof fn lemma_count_new_cluster(img: Image, colors: Seq<Color>, radius: u8, ignore_gray: bool, x: int, m: int)
    requires
        forall|y: int|
            0 <= y < m && !is_background(img.pixel(x, y), radius, ignore_gray) ==> cluster_of(
                colors,
                #[trigger] img.pixel(x, y),
                radius,
            ) < colors.len(),
    ensures
        cluster_count(img, colors, radius, ignore_gray, x, colors.len() as int, m) == 0,
    decreases m,
{
    if m > 0 {
        lemma_count_new_cluster(img, colors, radius, ignore_gray, x, m - 1);
    }
}

fn is_background_exec(c: &Color, radius: u8, ignore_gray: bool) -> (r: bool)
    ensures
        r == is_background(*c, radius, ignore_gray),
{
    let white = Color { r: 255, g: 255, b: 255, a: 255 };
    let black = Color { r: 0, g: 0, b: 0, a: 255 };
    color_distance(&white, c) < radius || color_distance(&black, c) < radius || (ignore_gray
        && color_distance(&c.gray_equivalent(), c) < radius)
}

fn find_cluster(colors: &Vec<Color>, c: &Color, radius: u8) -> (r: usize)
    ensures
        r == cluster_of(colors@, *c, radius),
{
    let mut k: usize = 0;
    while k < colors.len()
        invariant
            k <= colors@.len(),
            first_within(colors@, *c, radius, 0) == first_within(colors@, *c, radius, k as int),
        decreases colors@.len() - k,
    {
        if color_distance(&colors[k], c) <= radius {
            return k;
        }
        k = k + 1;
    }
    k
}

/// The cluster representatives after scanning all rows of the columns before `x`
/// and the rows before `y` of column `x`, in order of discovery: a pixel that is
/// not background and lies within the radius of no earlier representative
/// becomes a new one.
pub open spec fn discovered(img: Image, radius: u8, ignore_gray: bool, x: int, y: int) -> Seq<Color>
    decreases x, y,
{
    if x <= 0 && y <= 0 {
        Seq::empty()
    } else if y <= 0 {
        discovered(img, radius, ignore_gray, x - 1, img.height as int)
    } else {
        let prev = discovered(img, radius, ignore_gray, x, y - 1);
        let p = img.pixel(x, y - 1);
        if !is_background(p, radius, ignore_gray) && cluster_of(prev, p, radius) == prev.len() {
            prev.push(p)
        } else {
            prev
        }
    }
}

/// The per-column pixel counts of cluster `k`.
pub open spec fn cluster_row(img: Image, colors: Seq<Color>, radius: u8, ignore_gray: bool, k: int) -> Seq<int> {
    Seq::new(img.width as nat, |x: int| cluster_count(img, colors, radius, ignore_gray, x, k, img.height as int))
}

impl ColorExtractor {
    /// The extractor holds the clusters of `img` in discovery order with their exact per-column counts.
    pub open spec fn classifies(&self, img: Image, radius: u8, ignore_gray: bool) -> bool {
        &&& self.colors@ == discovered(img, radius, ignore_gray, img.width as int, 0)
        &&& self.color_occurences@.len() == self.colors@.len()
        &&& forall|k: int| 0 <= k < self.colors@.len() ==> (#[trigger] self.color_occurences@[k])@.len() == img.width
        &&& forall|k: int, x: int|
            0 <= k < self.colors@.len() && 0 <= x < img.width ==> (#[trigger] self.color_occurences@[k]@[x]) as int
                == cluster_count(img, self.colors@, radius, ignore_gray, x, k, img.height as int)
    }

    /// Scans the pixels column by column, top to bottom, assigning each pixel
    /// that is not background to the first cluster within `color_radius`, or
    /// starting a new cluster with it, and counting the pixels of each cluster per column.
#[verifier::rlimit(40)]
    pub fn classify_image(image: &Image, color_radius: u8, ignore_gray: bool) -> (e: ColorExtractor)
        requires
            image.wf(),
        ensures
            e.classifies(*image, color_radius, ignore_gray),
    {
        let w = image.width;
        let h = image.height;
        let mut colors: Vec<Color> = Vec::new();
        let mut occ: Vec<Vec<u32>> = Vec::new();
        let mut x: u32 = 0;
        while x < w
            invariant
                image.wf(),
                w == image.width,
                h == image.height,
                x <= w,
                colors@ == discovered(*image, color_radius, ignore_gray, x as int, 0),
                occ@.len() == colors@.len(),
                forall|k: int| 0 <= k < colors@.len() ==> (#[trigger] occ@[k])@.len() == w,
                forall|xx: int, yy: int|
                    0 <= xx < x && 0 <= yy < h && !is_background(image.pixel(xx, yy), color_radius, ignore_gray)
                        ==> cluster_of(colors@, #[trigger] image.pixel(xx, yy), color_radius) < colors@.len(),
                forall|k: int, xx: int|
                    0 <= k < colors@.len() && 0 <= xx < w ==> (#[trigger] occ@[k]@[xx]) as int == if xx < x {
                        cluster_count(*image, colors@, color_radius, ignore_gray, xx, k, h as int)
                    } else {
                        0
                    },
            decreases w - x,
        {
            let mut y: u32 = 0;
            while y < h
                invariant
                    image.wf(),
                    w == image.width,
                    h == image.height,
                    x < w,
                    y <= h,
                    colors@ == discovered(*image, color_radius, ignore_gray, x as int, y as int),
                    occ@.len() == colors@.len(),
                    forall|k: int| 0 <= k < colors@.len() ==> (#[trigger] occ@[k])@.len() == w,
                    forall|xx: int, yy: int|
                        ((0 <= xx < x && 0 <= yy < h) || (xx == x && 0 <= yy < y)) && !is_background(
                            image.pixel(xx, yy),
                            color_radius,
                            ignore_gray,
                        ) ==> cluster_of(colors@, #[trigger] image.pixel(xx, yy), color_radius) < colors@.len(),
                    forall|k: int, xx: int|
                        0 <= k < colors@.len() && 0 <= xx < w ==> (#[trigger] occ@[k]@[xx]) as int == if xx < x {
                            cluster_count(*image, colors@, color_radius, ignore_gray, xx, k, h as int)
                        } else if xx == x {
                            cluster_count(*image, colors@, color_radius, ignore_gray, xx, k, y as int)
                        } else {
                            0
                        },
                decreases h - y,
            {
                let c = image.get_pixel(x, y);
                if !is_background_exec(&c, color_radius, ignore_gray) {
                    let idx = find_cluster(&colors, &c, color_radius);
                    if idx == colors.len() {
                        let ghost old_colors = colors@;
                        let ghost old_occ = occ@;
                        colors.push(c);
                        let mut row: Vec<u32> = Vec::new();
                        let mut i: u32 = 0;
                        while i < w
                            invariant
                                i <= w,
                                row@.len() == i,
                                forall|j: int| 0 <= j < i ==> #[trigger] row@[j] == 0,
                            decreases w - i,
                        {
                            row.push(0);
                            i = i + 1;
                        }
                        occ.push(row);
                        proof {
                            lemma_first_within_push_new(old_colors, c, color_radius, 0);
                            assert forall|xx: int, yy: int|
                                ((0 <= xx < x && 0 <= yy < h) || (xx == x && 0 <= yy < y)) && !is_background(
                                    image.pixel(xx, yy),
                                    color_radius,
                                    ignore_gray,
                                ) implies cluster_of(colors@, #[trigger] image.pixel(xx, yy), color_radius) < colors@.len() by {
                                lemma_first_within_push(old_colors, c, image.pixel(xx, yy), color_radius, 0);
                            }
                            assert forall|k: int, xx: int|
                                0 <= k < colors@.len() && 0 <= xx < w implies (#[trigger] occ@[k]@[xx]) as int == if xx < x {
                                    cluster_count(*image, colors@, color_radius, ignore_gray, xx, k, h as int)
                                } else if xx == x {
                                    cluster_count(*image, colors@, color_radius, ignore_gray, xx, k, y as int)
                                } else {
                                    0
                                } by {
                                let m: int = if xx < x { h as int } else if xx == x { y as int } else { 0 };
                                assert forall|yy: int|
                                    0 <= yy < m && !is_background(image.pixel(xx, yy), color_radius, ignore_gray)
                                        implies cluster_of(old_colors, #[trigger] image.pixel(xx, yy), color_radius) < old_colors.len() by {
                                }
                                lemma_count_push(*image, old_colors, c, color_radius, ignore_gray, xx, k, m);
                                if k == old_colors.len() {
                                    lemma_count_new_cluster(*image, old_colors, color_radius, ignore_gray, xx, m);
                                } else {
                                    assert(occ@[k] == old_occ[k]);
                                }
                            }
                        }
                    }
                    proof {
                        lemma_first_within_bound(colors@, c, color_radius, 0);
                        assert(idx == cluster_of(colors@, c, color_radius));
                        assert(idx < colors@.len());
                        lemma_count_bound(*image, colors@, color_radius, ignore_gray, x as int, idx as int, y as int);
                    }
                    let ghost occ_before = occ@;
                    let v = occ[idx][x as usize];
                    occ[idx].set(x as usize, v + 1);
                    proof {
                        assert forall|k: int, xx: int|
                            0 <= k < colors@.len() && 0 <= xx < w implies (#[trigger] occ@[k]@[xx]) as int == if xx < x {
                                cluster_count(*image, colors@, color_radius, ignore_gray, xx, k, h as int)
                            } else if xx == x {
                                cluster_count(*image, colors@, color_radius, ignore_gray, xx, k, y + 1)
                            } else {
                                0
                            } by {
                            if k != idx {
                                assert(occ@[k] == occ_before[k]);
                            }
                        }
                    }
                }
                y = y + 1;
            }
            x = x + 1;
        }
        ColorExtractor { colors, color_occurences: occ }
    }
}

proof fn lemma_first_within_push_new(colors: Seq<Color>, c: Color, radius: u8, k: int)
    requires
        0 <= k <= colors.len(),
        first_within(colors, c, radius, k) == colors.len(),
    ensures
        first_within(colors.push(c), c, radius, k) == colors.len(),
    decreases colors.len() - k,
{
    if k < colors.len() {
        assert(colors.push(c)[k] == colors[k]);
        lemma_first_within_push_new(colors, c, radius, k + 1);
    } else {
        assert(colors.push(c)[k] == c);
    }
}

/// The number of positive entries among the first `n` of `row`.
pub open spec fn nonzero_count(row: Seq<int>, n: int) -> int
    decreases n,
{
    if n <= 0 {
        0
    } else {
        nonzero_count(row, n - 1) + if row[n - 1] > 0 {
            1int
        } else {
            0int
        }
    }
}

/// The largest of the first `n` entries of `row`, zero if there are none.
pub open spec fn row_max(row: Seq<int>, n: int) -> int
    decreases n,
{
    if n <= 0 {
        0
    } else if row_max(row, n - 1) >= row[n - 1] {
        row_max(row, n - 1)
    } else {
        row[n - 1]
    }
}

/// A cluster stays if it occupies at least the width fraction of the columns and
/// fills no column beyond the height fraction.
pub open spec fn keeps(row: Seq<int>, w: int, h: int, wfrac: UnitInterval, hfrac: UnitInterval) -> bool {
    !(nonzero_count(row, w) * wfrac.den < wfrac.num * w || row_max(row, w) * hfrac.den > hfrac.num * h)
}

/// The colours among the first `n` whose rows `keeps` accepts, in order.
pub open spec fn kept(
    colors: Seq<Color>,
    rows: spec_fn(int) -> Seq<int>,
    w: int,
    h: int,
    wfrac: UnitInterval,
    hfrac: UnitInterval,
    n: int,
) -> Seq<Color>
    decreases n,
{
    if n <= 0 {
        Seq::empty()
    } else {
        let prev = kept(colors, rows, w, h, wfrac, hfrac, n - 1);
        if keeps(rows(n - 1), w, h, wfrac, hfrac) {
            prev.push(colors[n - 1])
        } else {
            prev
        }
    }
}

/// The palette of `img`: the discovered clusters that pass the width and height filters.
pub open spec fn palette(img: Image, settings: Settings) -> Seq<Color> {
    let r = settings.step1_step2_color_radius;
    let g = settings.step1_ignore_gray;
    let colors = discovered(img, r, g, img.width as int, 0);
    kept(
        colors,
        |k: int| cluster_row(img, colors, r, g, k),
        img.width as int,
        img.height as int,
        settings.step1_width_minimial_fraction,
        settings.step1_height_maximal_fraction,
        colors.len() as int,
    )
}

proof fn lemma_kept_ext(
    colors: Seq<Color>,
    f: spec_fn(int) -> Seq<int>,
    g: spec_fn(int) -> Seq<int>,
    w: int,
    h: int,
    wfrac: UnitInterval,
    hfrac: UnitInterval,
    n: int,
)
    requires
        forall|k: int| 0 <= k < n ==> #[trigger] f(k) == g(k),
    ensures
        kept(colors, f, w, h, wfrac, hfrac, n) == kept(colors, g, w, h, wfrac, hfrac, n),
    decreases n,
{
    if n > 0 {
        lemma_kept_ext(colors, f, g, w, h, wfrac, hfrac, n - 1);
        assert(f(n - 1) == g(n - 1));
    }
}

proof fn lemma_nonzero_bound(row: Seq<int>, n: int)
    ensures
        0 <= nonzero_count(row, n) <= if n >= 0 { n } else { 0 },
    decreases n,
{
    if n > 0 {
        lemma_nonzero_bound(row, n - 1);
    }
}

impl ColorExtractor {
    pub open spec fn occ_row(&self, k: int, w: int) -> Seq<int> {
        Seq::new(w as nat, |x: int| self.color_occurences@[k]@[x] as int)
    }

    /// Keeps, in order, the colours whose clusters span at least the width
    /// fraction of the columns and fill no column beyond the height fraction.
    pub fn extract(
        self,
        image: &Image,
        width_minimial_fraction: UnitInterval,
        height_maximal_fraction: UnitInterval,
    ) -> (r: Vec<Color>)
        requires
            width_minimial_fraction.wf(),
            height_maximal_fraction.wf(),
            self.color_occurences@.len() == self.colors@.len(),
            forall|k: int| 0 <= k < self.colors@.len() ==> (#[trigger] self.color_occurences@[k])@.len() == image.width,
        ensures
            r@ == kept(
                self.colors@,
                |k: int| self.occ_row(k, image.width as int),
                image.width as int,
                image.height as int,
                width_minimial_fraction,
                height_maximal_fraction,
                self.colors@.len() as int,
            ),
    {
        let w = image.width;
        let ghost rows = |k: int| self.occ_row(k, w as int);
        let mut r: Vec<Color> = Vec::new();
        let mut k: usize = 0;
        while k < self.colors.len()
            invariant
                w == image.width,
                width_minimial_fraction.wf(),
                height_maximal_fraction.wf(),
                self.color_occurences@.len() == self.colors@.len(),
                forall|k: int| 0 <= k < self.colors@.len() ==> (#[trigger] self.color_occurences@[k])@.len() == w,
                rows == |k: int| self.occ_row(k, w as int),
                k <= self.colors@.len(),
                r@ == kept(self.colors@, rows, w as int, image.height as int, width_minimial_fraction, height_maximal_fraction, k as int),
            decreases self.colors@.len() - k,
        {
            let row = &self.color_occurences[k];
            let ghost rk = rows(k as int);
            let mut nonzero: u32 = 0;
            let mut max: u32 = 0;
            let mut x: u32 = 0;
            while x < w
                invariant
                    row@.len() == w,
                    rk == self.occ_row(k as int, w as int),
                    row == self.color_occurences@[k as int],
                    x <= w,
                    nonzero == nonzero_count(rk, x as int),
                    max == row_max(rk, x as int),
                decreases w - x,
            {
                proof {
                    lemma_nonzero_bound(rk, x as int);
                }
                let v = row[x as usize];
                if v > 0 {
                    nonzero = nonzero + 1;
                }
                if v > max {
                    max = v;
                }
                x = x + 1;
            }
            let too_narrow = width_minimial_fraction.exceeds_ratio(nonzero, w);
            let too_tall = height_maximal_fraction.is_exceeded_by(max, image.height);
            if !(too_narrow || too_tall) {
                r.push(self.colors[k]);
            }
            k = k + 1;
        }
        r
    }
}

/// The curve colours of `image`: its pixel clusters, in order of discovery, that
/// are not background and pass the width and height filters of `settings`.
pub fn extract_colors(image: &Image, settings: &Settings) -> (r: Vec<Color>)
    requires
        image.wf(),
        settings.wf(),
    ensures
        r@ == palette(*image, *settings),
{
    let e = ColorExtractor::classify_image(image, settings.step1_step2_color_radius, settings.step1_ignore_gray);
    let ghost colors = e.colors@;
    let ghost f = |k: int| e.occ_row(k, image.width as int);
    let r = e.extract(image, settings.step1_width_minimial_fraction, settings.step1_height_maximal_fraction);
    proof {
        let rad = settings.step1_step2_color_radius;
        let g = settings.step1_ignore_gray;
        let h = |k: int| cluster_row(*image, colors, rad, g, k);
        assert forall|k: int| 0 <= k < colors.len() implies #[trigger] f(k) == h(k) by {
            assert(f(k) =~= h(k));
        }
        lemma_kept_ext(
            colors,
            f,
            h,
            image.width as int,
            image.height as int,
            settings.step1_width_minimial_fraction,
            settings.step1_height_maximal_fraction,
            colors.len() as int,
        );
    }
    r
}

} // verus!
