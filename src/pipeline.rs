use vstd::prelude::*;

use crate::color::Color;
use crate::geometry::Error;
use crate::group::{
    grouping_of, min_width_of, Range,
    as_vertical, group_large_components_and_remaining, pixel_claimed, pixel_run, row_in, single_pixel_curve,
    strip_at, CombinedVerticals,
};
use crate::verticals::{VerticalComponent, VerticalComponents};
use crate::mask::{color_filtering, is_color_mask};
use crate::palette::{extract_colors, palette};
use crate::raster::{count_column_hits, Image, Mask};
use crate::settings::Settings;
use crate::stitch::{kept_in, max_jump, pairwise_far, stitch, stitched, strip_absorbed, tracks_grow};
use crate::track::{cell_mean, col, support, tracks_overlap, GraphMultiNode};

verus! {

/// Some two distinct tracks of `gs` overlap.
pub open spec fn any_overlap(gs: Seq<GraphMultiNode>) -> bool {
    exists|i: int, j: int| 0 <= i < gs.len() && 0 <= j < gs.len() && i != j && tracks_overlap(#[trigger] gs[i], #[trigger] gs[j])
}

/// The columns occupied by any of the first `n` tracks.
pub open spec fn union_support(gs: Seq<GraphMultiNode>, n: int) -> Set<int>
    decreases n,
{
    if n <= 0 {
        Set::empty()
    } else {
        union_support(gs, n - 1).union(support(gs[n - 1]))
    }
}

/// The track whose every column holds the intervals of `a` followed by those of `b`.
pub open spec fn column_union(a: GraphMultiNode, b: GraphMultiNode, g: GraphMultiNode) -> bool {
    &&& g.ys@.len() == a.ys@.len()
    &&& forall|x: int| 0 <= x < a.ys@.len() ==> #[trigger] col(g, x) == col(a, x) + col(b, x)
}

/// Two tracks of one width whose supports are disjoint aggregate into a track
/// whose support is the union of theirs.
pub proof fn lemma_aggregate_disjoint_support(a: GraphMultiNode, b: GraphMultiNode, g: GraphMultiNode)
    requires
        a.ys@.len() == b.ys@.len(),
        !tracks_overlap(a, b),
        column_union(a, b, g),
    ensures
        support(g) == support(a).union(support(b)),
        support(a).disjoint(support(b)),
{
    assert(support(g) =~= support(a).union(support(b)));
    assert forall|x: int| support(a).contains(x) implies !support(b).contains(x) by {
        if support(b).contains(x) {
            assert(col(a, x).len() > 0 && col(b, x).len() > 0);
        }
    }
}

proof fn lemma_tracks_grow_refl(gs: Seq<GraphMultiNode>, width: int)
    ensures
        tracks_grow(gs, gs, width),
{
}

proof fn lemma_contains_concat_left(a: Seq<VerticalComponent>, b: Seq<VerticalComponent>, v: VerticalComponent)
    requires
        a.contains(v),
    ensures
        (a + b).contains(v),
{
    let i = choose|i: int| 0 <= i < a.len() && a[i] == v;
    assert((a + b)[i] == v);
}

proof fn lemma_contains_concat_right(a: Seq<VerticalComponent>, b: Seq<VerticalComponent>, v: VerticalComponent)
    requires
        b.contains(v),
    ensures
        (a + b).contains(v),
{
    let i = choose|i: int| 0 <= i < b.len() && b[i] == v;
    assert((a + b)[a.len() + i] == v);
}

/// The intervals of column `x` of the first `k` tracks of `gs`, in order.
pub open spec fn concat_cols(gs: Seq<GraphMultiNode>, k: int, x: int) -> Seq<VerticalComponent>
    decreases k,
{
    if k <= 0 {
        Seq::empty()
    } else {
        concat_cols(gs, k - 1, x) + col(gs[k - 1], x)
    }
}

/// `r` is the aggregation of `gs`: `gs` itself when two of its tracks share a
/// column, else the one track holding, column by column, the intervals of the
/// last track of `gs` followed by those of the others in order.
#[verifier::opaque]
pub open spec fn aggregated(gs: Seq<GraphMultiNode>, r: Seq<GraphMultiNode>, width: int) -> bool {
    if any_overlap(gs) || gs.len() == 0 {
        r == gs
    } else {
        &&& r.len() == 1
        &&& r[0].ys@.len() == width
        &&& forall|x: int| 0 <= x < width ==> #[trigger] col(r[0], x) == col(gs.last(), x) + concat_cols(gs, gs.len() - 1, x)
    }
}

proof fn lemma_concat_support(gs: Seq<GraphMultiNode>, k: int, x: int, width: int)
    requires
        0 <= k <= gs.len(),
        0 <= x < width,
        forall|i: int| 0 <= i < gs.len() ==> (#[trigger] gs[i]).ys@.len() == width,
    ensures
        concat_cols(gs, k, x).len() > 0 <==> union_support(gs, k).contains(x),
    decreases k,
{
    if k > 0 {
        lemma_concat_support(gs, k - 1, x, width);
    }
}

/// Aggregation, as stated for each colour's tracks: tracks of which two share a
/// column stay as they are; otherwise they become one track whose occupied
/// columns are the union of theirs.
pub proof fn lemma_aggregation_law(gs: Seq<GraphMultiNode>, r: Seq<GraphMultiNode>, width: int)
    requires
        aggregated(gs, r, width),
        forall|i: int| 0 <= i < gs.len() ==> (#[trigger] gs[i]).ys@.len() == width,
    ensures
        any_overlap(gs) ==> r == gs,
        !any_overlap(gs) && gs.len() > 0 ==> r.len() == 1 && support(r[0]) == union_support(gs, gs.len() as int),
{
    reveal(aggregated);
    if !any_overlap(gs) && gs.len() > 0 {
        let n = gs.len() as int;
        assert forall|x: int| support(r[0]).contains(x) <==> union_support(gs, n).contains(x) by {
            if 0 <= x < width {
                lemma_concat_support(gs, n - 1, x, width);
                assert(col(r[0], x) == col(gs.last(), x) + concat_cols(gs, n - 1, x));
                assert(gs.last() == gs[n - 1]);
            } else {
                lemma_union_support_bound(gs, n, x, width);
            }
        }
        assert(support(r[0]) =~= union_support(gs, n));
    }
}

proof fn lemma_union_support_bound(gs: Seq<GraphMultiNode>, k: int, x: int, width: int)
    requires
        0 <= k <= gs.len(),
        !(0 <= x < width),
        forall|i: int| 0 <= i < gs.len() ==> (#[trigger] gs[i]).ys@.len() == width,
    ensures
        !union_support(gs, k).contains(x),
    decreases k,
{
    if k > 0 {
        lemma_union_support_bound(gs, k - 1, x, width);
    }
}

/// Keeps the tracks apart when two of them share a column; otherwise folds them
/// into one track holding all their intervals.
pub fn aggregate_graphs(graphs: Vec<GraphMultiNode>, width: u32) -> (r: Vec<GraphMultiNode>)
    requires
        forall|i: int| 0 <= i < graphs@.len() ==> (#[trigger] graphs@[i]).ys@.len() == width,
    ensures
        any_overlap(graphs@) ==> r@ == graphs@,
        !any_overlap(graphs@) && graphs@.len() > 0 ==> r@.len() == 1 && r@[0].ys@.len() == width
            && support(r@[0]) == union_support(graphs@, graphs@.len() as int),
        graphs@.len() == 0 ==> r@.len() == 0,
        graphs@.len() == 1 ==> r@ == graphs@,
        tracks_grow(graphs@, r@, width as int),
        aggregated(graphs@, r@, width as int),
{
    let n = graphs.len();
    let mut overlap = false;
    let mut i: usize = 0;
    while i < n
        invariant
            n == graphs@.len(),
            i <= n,
            overlap ==> any_overlap(graphs@),
            !overlap ==> forall|p: int, q: int| 0 <= p < i && 0 <= q < n && p != q ==> !tracks_overlap(#[trigger] graphs@[p], #[trigger] graphs@[q]),
        decreases n - i,
    {
        let mut j: usize = 0;
        while j < n
            invariant
                n == graphs@.len(),
                i < n,
                j <= n,
                overlap ==> any_overlap(graphs@),
                !overlap ==> forall|p: int, q: int|
                    ((0 <= p < i && 0 <= q < n) || (p == i && 0 <= q < j)) && p != q ==> !tracks_overlap(#[trigger] graphs@[p], #[trigger] graphs@[q]),
            decreases n - j,
        {
            if i != j && graphs[i].overlaps(&graphs[j]) {
                overlap = true;
            }
            j = j + 1;
        }
        i = i + 1;
    }
    if overlap || n == 0 {
        proof {
            lemma_tracks_grow_refl(graphs@, width as int);
            reveal(aggregated);
        }
        return graphs;
    }
    let ghost gs = graphs@;
    let mut graphs = graphs;
    let mut g = graphs.pop().unwrap();
    proof {
        assert forall|x: int| 0 <= x < width implies #[trigger] col(g, x) == col(gs[n - 1], x) + concat_cols(gs, 0, x) by {
            assert(col(gs[n - 1], x) + concat_cols(gs, 0, x) =~= col(gs[n - 1], x));
        }
    }
    let mut k: usize = 0;
    while k + 1 < n
        invariant
            n == gs.len(),
            n > 0,
            k + 1 <= n,
            forall|i: int| 0 <= i < n ==> (#[trigger] gs[i]).ys@.len() == width,
            g.ys@.len() == width,
            support(g) == support(gs[n - 1]).union(union_support(gs, k as int)),
            graphs@ == gs.subrange(k as int, n - 1),
            k == 0 ==> g == gs[n - 1],
            forall|t: int, x: int, v: VerticalComponent|
                (t == n - 1 || 0 <= t < k) && 0 <= x < width && #[trigger] col(gs[t], x).contains(v) ==> col(g, x).contains(v),
            forall|x: int| 0 <= x < width ==> #[trigger] col(g, x) == col(gs[n - 1], x) + concat_cols(gs, k as int, x),
        decreases n - k,
    {
        let ghost before = g;
        let h = graphs.remove(0);
        proof {
            assert(h == gs[k as int]);
        }
        g.aggregate(h);
        proof {
            assert forall|t: int, x: int, v: VerticalComponent|
                (t == n - 1 || 0 <= t < k + 1) && 0 <= x < width && #[trigger] col(gs[t], x).contains(v) implies col(g, x).contains(v) by {
                if t == k as int {
                    lemma_contains_concat_right(col(before, x), col(gs[t], x), v);
                } else {
                    lemma_contains_concat_left(col(before, x), col(gs[k as int], x), v);
                }
            }
            assert(support(g) =~= support(before).union(support(gs[k as int])));
            assert forall|x: int| 0 <= x < width implies #[trigger] col(g, x) == col(gs[n - 1], x) + concat_cols(gs, k + 1, x) by {
                assert(concat_cols(gs, k + 1, x) == concat_cols(gs, k as int, x) + col(gs[k as int], x));
                assert(col(gs[n - 1], x) + concat_cols(gs, k + 1, x) =~= col(gs[n - 1], x) + concat_cols(gs, k as int, x) + col(gs[k as int], x));
            }
            assert(graphs@ =~= gs.subrange(k + 1, n - 1));
            assert(support(g) =~= support(gs[n - 1]).union(union_support(gs, k + 1)));
        }
        k = k + 1;
    }
    proof {
        assert(support(g) =~= union_support(gs, n as int));
        if n == 1 {
            assert(g == gs[0]);
        }
    }
    let mut r: Vec<GraphMultiNode> = Vec::new();
    r.push(g);
    proof {
        if n == 1 {
            assert(r@ =~= gs);
        }
        assert(r@[0] == g);
        reveal(aggregated);
        assert forall|t: int, x: int, v: VerticalComponent|
            0 <= t < gs.len() && 0 <= x < width && #[trigger] col(gs[t], x).contains(v) implies kept_in(r@, x, v) by {
            assert(col(r@[0], x).contains(v));
        }
    }
    r
}

/// Pixel `(x, y)` lies inside a `width` by `height` image.
pub open spec fn in_image(width: u32, height: u32, x: int, y: int) -> bool {
    0 <= x < width && 0 <= y < height
}

/// Every pixel of the 3 by 3 window around `(x, y)` that lies in the image is
/// non-zero: the pixel survives erosion with the chessboard norm and radius one.
pub open spec fn eroded_at(width: u32, height: u32, luma: Seq<u8>, x: int, y: int) -> bool {
    forall|dx: int, dy: int|
        -1 <= dx <= 1 && -1 <= dy <= 1 && in_image(width, height, x + dx, y + dy) ==> #[trigger] luma[(y + dy) * width + (x + dx)]
            != 0
}

/// Some pixel of the 3 by 3 window around `(x, y)` in the image survives
/// erosion: the pixel is set by the dilation that follows.
pub open spec fn opened_at(width: u32, height: u32, luma: Seq<u8>, x: int, y: int) -> bool {
    exists|dx: int, dy: int|
        -1 <= dx <= 1 && -1 <= dy <= 1 && in_image(width, height, x + dx, y + dy) && #[trigger] eroded_at(
            width,
            height,
            luma,
            x + dx,
            y + dy,
        )
}

/// The morphological opening (erosion then dilation, chessboard norm, radius
/// one) of a `width` by `height` grey image: 255 where it opens, 0 elsewhere.
pub open spec fn opened_of(width: u32, height: u32, luma: Seq<u8>) -> Seq<u8> {
    Seq::new(
        luma.len(),
        |i: int|
            if opened_at(width, height, luma, i % width as int, i / width as int) {
                255u8
            } else {
                0u8
            },
    )
}

/// Relies on `imageproc::morphology::open` with `Norm::LInf` and radius one:
/// erosion sets to 0 every pixel within distance one of a zero pixel and to 255
/// the others, dilation sets to 255 every pixel within distance one of a
/// non-zero pixel and to 0 the others; both keep the image's dimensions.
#[verifier::external_body]
fn open_luma(width: u32, height: u32, luma: Vec<u8>) -> (r: Vec<u8>)
    requires
        luma@.len() == width as int * height as int,
        width as int + height as int <= u32::MAX,
    ensures
        r@ == opened_of(width, height, luma@),
        r@.len() == luma@.len(),
{
    match image::GrayImage::from_raw(width, height, luma) {
        Some(img) => imageproc::morphology::open(&img, imageproc::distance_transform::Norm::LInf, 1).into_raw(),
        None => Vec::new(),
    }
}

/// The mask as grey levels: 255 for a hit, 0 for a miss.
pub open spec fn luma_of(m: Mask) -> Seq<u8> {
    Seq::new(m.hits@.len(), |i: int| if m.hits@[i] { 255u8 } else { 0u8 })
}

/// The pixelwise minimum of two grey images.
pub open spec fn clip(a: Seq<u8>, b: Seq<u8>) -> Seq<u8> {
    Seq::new(a.len(), |i: int| if a[i] <= b[i] { a[i] } else { b[i] })
}

/// The mask after `n` rounds of opening, each clipped to the mask.
pub open spec fn opened_n(m: Mask, n: nat) -> Seq<u8>
    decreases n,
{
    if n == 0 {
        luma_of(m)
    } else {
        clip(opened_of(m.width, m.height, opened_n(m, (n - 1) as nat)), luma_of(m))
    }
}

/// Some pixel of the mask survives `n` rounds of opening.
pub open spec fn survives_opening(m: Mask, n: nat) -> bool {
    exists|i: int| 0 <= i < opened_n(m, n).len() && #[trigger] opened_n(m, n)[i] != 0
}

fn mask_luma(m: &Mask) -> (r: Vec<u8>)
    ensures
        r@ == luma_of(*m),
{
    let mut r: Vec<u8> = Vec::new();
    let mut i: usize = 0;
    while i < m.hits.len()
        invariant
            i <= m.hits@.len(),
            r@.len() == i,
            forall|j: int| 0 <= j < i ==> #[trigger] r@[j] == (if m.hits@[j] { 255u8 } else { 0u8 }),
        decreases m.hits@.len() - i,
    {
        r.push(if m.hits[i] { 255u8 } else { 0u8 });
        i = i + 1;
    }
    proof {
        assert(r@ =~= luma_of(*m));
    }
    r
}

/// The pixelwise minimum of an opened image and the mask it was opened from.
pub fn clip_to_mask(opened: &Vec<u8>, mask: &Vec<u8>) -> (r: Vec<u8>)
    requires
        opened@.len() == mask@.len(),
    ensures
        r@ == clip(opened@, mask@),
{
    let mut r: Vec<u8> = Vec::new();
    let mut i: usize = 0;
    while i < opened.len()
        invariant
            opened@.len() == mask@.len(),
            i <= opened@.len(),
            r@.len() == i,
            forall|j: int| 0 <= j < i ==> #[trigger] r@[j] == (if opened@[j] <= mask@[j] { opened@[j] } else { mask@[j] }),
        decreases opened@.len() - i,
    {
        r.push(if opened[i] <= mask[i] { opened[i] } else { mask[i] });
        i = i + 1;
    }
    proof {
        assert(r@ =~= clip(opened@, mask@));
    }
    r
}

fn any_nonzero(v: &Vec<u8>) -> (r: bool)
    ensures
        r == exists|i: int| 0 <= i < v@.len() && #[trigger] v@[i] != 0,
{
    let mut i: usize = 0;
    while i < v.len()
        invariant
            i <= v@.len(),
            forall|j: int| 0 <= j < i ==> #[trigger] v@[j] == 0,
        decreases v@.len() - i,
    {
        if v[i] != 0 {
            return true;
        }
        i = i + 1;
    }
    false
}

/// Whether any pixel of `mask` survives `iterations` rounds of opening, each
/// clipped to the mask; a mask made only of specks does not.
pub fn survives_opening_exec(mask: &Mask, iterations: u8) -> (r: bool)
    requires
        mask.wf(),
        mask.width as int + mask.height as int <= u32::MAX,
    ensures
        r == survives_opening(*mask, iterations as nat),
{
    let base = mask_luma(mask);
    let mut opened = mask_luma(mask);
    let mut n: u8 = 0;
    while n < iterations
        invariant
            mask.wf(),
            mask.width as int + mask.height as int <= u32::MAX,
            base@ == luma_of(*mask),
            n <= iterations,
            opened@ == opened_n(*mask, n as nat),
            opened@.len() == mask.hits@.len(),
        decreases iterations - n,
    {
        let o = open_luma(mask.width, mask.height, opened);
        opened = clip_to_mask(&o, &base);
        n = n + 1;
    }
    any_nonzero(&opened)
}

/// The number of columns `x < n` of `m` holding at least one hit.
pub open spec fn occupied_columns(m: Mask, n: int) -> int
    decreases n,
{
    if n <= 0 {
        0
    } else {
        occupied_columns(m, n - 1) + if count_column_hits(m, n - 1, m.height as int) > 0 {
            1int
        } else {
            0int
        }
    }
}

/// The mask of a curve colour occupies at least the width fraction of the
/// columns and fills no column beyond the height fraction.
pub open spec fn mask_passes(m: Mask, settings: Settings) -> bool {
    let wf = settings.step1_width_minimial_fraction;
    let hf = settings.step1_height_maximal_fraction;
    &&& forall|x: int| 0 <= x < m.width ==> !(#[trigger] count_column_hits(m, x, m.height as int) * hf.den > hf.num * m.height)
    &&& !(occupied_columns(m, m.width as int) * wf.den < wf.num * m.width)
}

/// Whether `mask` passes the width and height filters of `settings`.
pub fn passes_filters(mask: &Mask, settings: &Settings) -> (r: bool)
    requires
        mask.wf(),
        settings.wf(),
    ensures
        r == mask_passes(*mask, *settings),
{
    let mut occupied: u32 = 0;
    let mut x: u32 = 0;
    while x < mask.width
        invariant
            mask.wf(),
            settings.wf(),
            x <= mask.width,
            occupied == occupied_columns(*mask, x as int),
            occupied <= x,
            forall|xx: int| 0 <= xx < x ==> !(#[trigger] count_column_hits(*mask, xx, mask.height as int) * settings.step1_height_maximal_fraction.den > settings.step1_height_maximal_fraction.num * mask.height),
        decreases mask.width - x,
    {
        let hits = mask.column_hits(x);
        proof {
            lemma_column_hits_bound(*mask, x as int, mask.height as int);
        }
        if settings.step1_height_maximal_fraction.is_exceeded_by(hits as u32, mask.height) {
            return false;
        }
        if hits > 0 {
            occupied = occupied + 1;
        }
        x = x + 1;
    }
    !settings.step1_width_minimial_fraction.exceeds_ratio(occupied, mask.width)
}

proof fn lemma_column_hits_bound(m: Mask, x: int, n: int)
    ensures
        0 <= count_column_hits(m, x, n) <= if n >= 0 { n } else { 0 },
    decreases n,
{
    if n > 0 {
        lemma_column_hits_bound(m, x, n - 1);
    }
}

/// `tracks` and `strips` come from `mask` by grouping (into `tracks0` and
/// `strips0`, through `ranges` over the runs `cols`), stitching (into `st`) and
/// aggregating.
pub open spec fn curves_from(
    mask: Mask,
    settings: Settings,
    ranges: Seq<Range>,
    cols: Seq<VerticalComponents>,
    tracks0: Seq<GraphMultiNode>,
    strips0: Seq<CombinedVerticals>,
    st: Seq<GraphMultiNode>,
    tracks: Seq<GraphMultiNode>,
    strips: Seq<CombinedVerticals>,
) -> bool {
    &&& grouping_of(mask, min_width_of(mask.width, settings.step3_min_width_fraction), ranges, cols, tracks0, strips0)
    &&& stitched(tracks0, strips0, max_jump(settings, mask.height), st, strips)
    &&& aggregated(st, tracks, mask.width as int)
}

/// The tracks of one colour's mask: grouped, stitched and aggregated, with the
/// strips that no track took.
#[verifier::rlimit(40)]
pub fn curves_of_mask(mask: &Mask, settings: &Settings) -> (r: (Vec<GraphMultiNode>, Vec<CombinedVerticals>))
    requires
        mask.wf(),
        settings.wf(),
    ensures
        forall|i: int| 0 <= i < r.0@.len() ==> (#[trigger] r.0@[i]).ys@.len() == mask.width,
        forall|k: int| 0 <= k < r.1@.len() ==> (#[trigger] r.1@[k]).end() <= mask.width,
        r.0@.len() > 1 ==> any_overlap(r.0@),
        forall|rows: Seq<u32>|
            #[trigger] single_pixel_curve(*mask, rows) ==> r.0@.len() == 1 && r.1@.len() == 0 && forall|x: int|
                0 <= x < mask.width ==> #[trigger] cell_mean(col(r.0@[0], x)) == Some(rows[x] as int),
        forall|x: int, y: int|
            0 <= x < mask.width && 0 <= y < mask.height && #[trigger] mask.hit(x, y) ==> pixel_claimed(r.0@, r.1@, x, y),
        exists|ranges: Seq<Range>, cols: Seq<VerticalComponents>, tracks0: Seq<GraphMultiNode>, strips0: Seq<CombinedVerticals>, st: Seq<GraphMultiNode>|
            #[trigger] curves_from(*mask, *settings, ranges, cols, tracks0, strips0, st, r.0@, r.1@),
{
    let (large_components, mut remaining_verticals) = group_large_components_and_remaining(mask, settings);
    let ghost grouped = large_components@;
    let ghost grouped_strips = remaining_verticals@;
    let graphs = stitch(large_components, &mut remaining_verticals, settings, mask);
    let ghost stitched = graphs@;
    let graphs = aggregate_graphs(graphs, mask.width);
    let ghost (ranges, cols) = choose|ranges: Seq<Range>, cols: Seq<VerticalComponents>|
        #[trigger] grouping_of(*mask, min_width_of(mask.width, settings.step3_min_width_fraction), ranges, cols, grouped, grouped_strips);
    proof {
        assert forall|rows: Seq<u32>|
            #[trigger] single_pixel_curve(*mask, rows) implies graphs@.len() == 1 && remaining_verticals@.len() == 0 && forall|x: int|
                0 <= x < mask.width ==> #[trigger] cell_mean(col(graphs@[0], x)) == Some(rows[x] as int) by {
            assert(grouped.len() == 1);
            assert(pairwise_far(grouped, max_jump(*settings, mask.height)));
            assert(stitched == grouped);
            assert forall|x: int| 0 <= x < mask.width implies #[trigger] cell_mean(col(graphs@[0], x)) == Some(rows[x] as int) by {
                assert(col(grouped[0], x) == seq![pixel_run(rows[x])]);
                assert(col(grouped[0], x)[0] == pixel_run(rows[x]));
            }
        }
    }
    proof {
        lemma_claims_carry(*mask, grouped, grouped_strips, stitched, graphs@, remaining_verticals@);
    }
    let result = (graphs, remaining_verticals);
    proof {
        assert(curves_from(*mask, *settings, ranges, cols, grouped, grouped_strips, stitched, result.0@, result.1@));
    }
    result
}

/// Hits claimed by the grouped tracks and strips stay claimed through stitching
/// and aggregation.
proof fn lemma_claims_carry(
    mask: Mask,
    grouped: Seq<GraphMultiNode>,
    grouped_strips: Seq<CombinedVerticals>,
    stitched: Seq<GraphMultiNode>,
    tracks: Seq<GraphMultiNode>,
    strips: Seq<CombinedVerticals>,
)
    requires
        forall|x: int, y: int|
            0 <= x < mask.width && 0 <= y < mask.height && #[trigger] mask.hit(x, y) ==> pixel_claimed(grouped, grouped_strips, x, y),
        forall|k: int| 0 <= k < grouped_strips.len() ==> (#[trigger] grouped_strips[k]).wf(mask.width as int),
        tracks_grow(grouped, stitched, mask.width as int),
        forall|k: int|
            0 <= k < grouped_strips.len() ==> strips.contains(#[trigger] grouped_strips[k]) || strip_absorbed(stitched, grouped_strips[k]),
        tracks_grow(stitched, tracks, mask.width as int),
    ensures
        forall|x: int, y: int|
            0 <= x < mask.width && 0 <= y < mask.height && #[trigger] mask.hit(x, y) ==> pixel_claimed(tracks, strips, x, y),
{
    assert forall|x: int, y: int|
        0 <= x < mask.width && 0 <= y < mask.height && #[trigger] mask.hit(x, y) implies pixel_claimed(tracks, strips, x, y) by {
        assert(pixel_claimed(grouped, grouped_strips, x, y));
        if exists|t: int, i: int|
            0 <= t < grouped.len() && 0 <= i < col(grouped[t], x).len() && (#[trigger] col(grouped[t], x)[i]).contains(y) {
            let (t, i) = choose|t: int, i: int|
                0 <= t < grouped.len() && 0 <= i < col(grouped[t], x).len() && (#[trigger] col(grouped[t], x)[i]).contains(y);
            let v = col(grouped[t], x)[i];
            assert(col(grouped[t], x).contains(v));
            lemma_claim_through(stitched, tracks, strips, mask.width as int, x, y, v);
        } else {
            let k = choose|k: int| 0 <= k < grouped_strips.len() && row_in(strip_at(#[trigger] grouped_strips[k], x), y);
            let s0 = grouped_strips[k];
            if strips.contains(s0) {
                let m = choose|m: int| 0 <= m < strips.len() && strips[m] == s0;
                assert(row_in(strip_at(strips[m], x), y));
            } else {
                assert(strip_absorbed(stitched, s0));
                let i = x - s0.x_start.0;
                assert(strip_at(s0, x) == Some(s0.combined@[i]));
                assert(kept_in(stitched, s0.x_start.0 + i, as_vertical(s0.combined@[i])));
                lemma_claim_through(stitched, tracks, strips, mask.width as int, x, y, as_vertical(s0.combined@[i]));
            }
        }
    }
}

proof fn lemma_claim_through(
    before: Seq<GraphMultiNode>,
    after: Seq<GraphMultiNode>,
    strips: Seq<CombinedVerticals>,
    width: int,
    x: int,
    y: int,
    v: VerticalComponent,
)
    requires
        tracks_grow(before, after, width),
        0 <= x < width,
        kept_in(before, x, v),
        v.contains(y),
    ensures
        pixel_claimed(after, strips, x, y),
{
    let t = choose|t: int| 0 <= t < before.len() && (#[trigger] col(before[t], x)).contains(v);
    assert(col(before[t], x).contains(v));
    assert(kept_in(after, x, v));
    let t2 = choose|t2: int| 0 <= t2 < after.len() && (#[trigger] col(after[t2], x)).contains(v);
    let i = choose|i: int| 0 <= i < col(after[t2], x).len() && col(after[t2], x)[i] == v;
    assert((col(after[t2], x)[i]).contains(y));
}

/// What the pipeline found: the colours used, their masks, the strips that no
/// track took, and the tracks of each colour that gave any.
pub struct LineDetected {
    pub colors: Vec<Color>,
    pub color_filtered: Vec<Mask>,
    pub remaining_vertices: Vec<Vec<CombinedVerticals>>,
    pub graphs: Vec<(Color, Vec<GraphMultiNode>)>,
}

/// `c` is a curve colour of `img`: its mask passes the filters and survives opening.
pub open spec fn accepted_color(img: Image, settings: Settings, c: Color, m: Mask) -> bool {
    is_color_mask(img, c, settings.step1_step2_color_radius, m) && mask_passes(m, settings) && survives_opening(
        m,
        settings.step1_close_count as nat,
    )
}

/// The tracks of colour entry `e` and the strips left over for that colour claim
/// every hit of the colour's mask.
pub open spec fn graph_entry_ok(img: Image, settings: Settings, d: LineDetected, e: (Color, Vec<GraphMultiNode>)) -> bool {
    entry_claimed(settings, d.colors@, d.color_filtered@, d.remaining_vertices@, e)
}

/// `tracks` and `strips` are what grouping, stitching and aggregating make of `m`.
pub open spec fn curves_exact(m: Mask, settings: Settings, tracks: Seq<GraphMultiNode>, strips: Seq<CombinedVerticals>) -> bool {
    exists|ranges: Seq<Range>, cols: Seq<VerticalComponents>, tracks0: Seq<GraphMultiNode>, strips0: Seq<CombinedVerticals>, st: Seq<GraphMultiNode>|
        #[trigger] curves_from(m, settings, ranges, cols, tracks0, strips0, st, tracks, strips)
}

/// Some colour `colors[i]` is that of entry `e`, and `e`'s tracks with the
/// strips `remaining[i]` claim every hit of mask `filtered[i]`.
pub open spec fn entry_claimed(
    settings: Settings,
    colors: Seq<Color>,
    filtered: Seq<Mask>,
    remaining: Seq<Vec<CombinedVerticals>>,
    e: (Color, Vec<GraphMultiNode>),
) -> bool {
    exists|i: int|
        0 <= i < colors.len() && colors[i] == e.0 && #[trigger] claims_all(filtered[i], e.1@, remaining[i]@) && curves_exact(
            filtered[i],
            settings,
            e.1@,
            remaining[i]@,
        )
}

proof fn lemma_entry_claimed_push(
    settings: Settings,
    colors: Seq<Color>,
    filtered: Seq<Mask>,
    remaining: Seq<Vec<CombinedVerticals>>,
    c: Color,
    m: Mask,
    r: Vec<CombinedVerticals>,
    e: (Color, Vec<GraphMultiNode>),
)
    requires
        colors.len() == filtered.len(),
        colors.len() == remaining.len(),
        entry_claimed(settings, colors, filtered, remaining, e),
    ensures
        entry_claimed(settings, colors.push(c), filtered.push(m), remaining.push(r), e),
{
    let i = choose|i: int|
        0 <= i < colors.len() && colors[i] == e.0 && #[trigger] claims_all(filtered[i], e.1@, remaining[i]@) && curves_exact(
            filtered[i],
            settings,
            e.1@,
            remaining[i]@,
        );
    assert(colors.push(c)[i] == colors[i]);
    assert(filtered.push(m)[i] == filtered[i]);
    assert(remaining.push(r)[i] == remaining[i]);
    assert(claims_all(filtered.push(m)[i], e.1@, remaining.push(r)[i]@));
}

/// The tracks and strips together claim every hit of `m`.
pub open spec fn claims_all(m: Mask, tracks: Seq<GraphMultiNode>, strips: Seq<CombinedVerticals>) -> bool {
    forall|x: int, y: int| 0 <= x < m.width && 0 <= y < m.height && #[trigger] m.hit(x, y) ==> pixel_claimed(tracks, strips, x, y)
}

/// Colour `i` of `d` has curves `t` of its mask and leftover strips, and when
/// `t` is not empty the colour is reported with exactly those tracks.
pub open spec fn color_accounted(settings: Settings, d: LineDetected, i: int) -> bool {
    exists|t: Seq<GraphMultiNode>|
        #[trigger] curves_exact(d.color_filtered@[i], settings, t, d.remaining_vertices@[i]@) && (t.len() > 0 ==> exists|g: int|
            0 <= g < d.graphs@.len() && (#[trigger] d.graphs@[g]).0 == d.colors@[i] && d.graphs@[g].1@ == t)
}

/// The same, over the loop's partial results.
pub open spec fn color_accounted_in(
    settings: Settings,
    colors: Seq<Color>,
    filtered: Seq<Mask>,
    remaining: Seq<Vec<CombinedVerticals>>,
    graphs: Seq<(Color, Vec<GraphMultiNode>)>,
    i: int,
) -> bool {
    exists|t: Seq<GraphMultiNode>|
        #[trigger] curves_exact(filtered[i], settings, t, remaining[i]@) && (t.len() > 0 ==> exists|g: int|
            0 <= g < graphs.len() && (#[trigger] graphs[g]).0 == colors[i] && graphs[g].1@ == t)
}

/// The result of the pipeline on `img` with `settings`, when it succeeds.
pub open spec fn detection_ok(img: Image, settings: Settings, d: LineDetected) -> bool {
    let pal = palette(img, settings);
    &&& d.color_filtered@.len() == d.colors@.len()
    &&& d.remaining_vertices@.len() == d.colors@.len()
    &&& forall|i: int| 0 <= i < d.colors@.len() ==> pal.contains(#[trigger] d.colors@[i])
    &&& forall|i: int| 0 <= i < d.colors@.len() ==> accepted_color(img, settings, #[trigger] d.colors@[i], d.color_filtered@[i])
    &&& forall|p: int, m: Mask| 0 <= p < pal.len() && #[trigger] accepted_color(img, settings, pal[p], m) ==> d.colors@.contains(pal[p])
    &&& forall|g: int| 0 <= g < d.graphs@.len() ==> graph_entry_ok(img, settings, d, #[trigger] d.graphs@[g])
    &&& forall|i: int| 0 <= i < d.colors@.len() ==> #[trigger] color_accounted(settings, d, i)
    &&& forall|g: int| 0 <= g < d.graphs@.len() ==> d.colors@.contains((#[trigger] d.graphs@[g]).0) && d.graphs@[g].1@.len() > 0
        && (d.graphs@[g].1@.len() > 1 ==> any_overlap(d.graphs@[g].1@))
        && forall|t: int| 0 <= t < d.graphs@[g].1@.len() ==> (#[trigger] d.graphs@[g].1@[t]).ys@.len() == img.width
}

/// Runs the pipeline on an image already cropped to `steps_x` by `steps_y`:
/// finds the curve colours and, for each, its tracks.
#[verifier::rlimit(40)]
pub fn line_detection(cropped: &Image, settings: &Settings, steps_x: u32, steps_y: u32) -> (r: Result<LineDetected, Error>)
    requires
        cropped.wf(),
        settings.wf(),
        cropped.width as int + cropped.height as int <= u32::MAX,
    ensures
        (steps_x < 100 || steps_y < 100) <==> r == Err::<LineDetected, Error>(Error::InvalidResolution { steps_x, steps_y }),
        (steps_x >= 100 && steps_y >= 100 && cropped.width < 100 && cropped.height < 100) <==> r == Err::<LineDetected, Error>(
            Error::RegionTooSmall { width: cropped.width, height: cropped.height },
        ),
        (steps_x >= 100 && steps_y >= 100 && !(cropped.width < 100 && cropped.height < 100) && palette(*cropped, *settings).len() == 0)
            <==> r == Err::<LineDetected, Error>(Error::NoColorsFound),
        r is Ok <==> (steps_x >= 100 && steps_y >= 100 && !(cropped.width < 100 && cropped.height < 100) && palette(
            *cropped,
            *settings,
        ).len() > 0),
        r matches Ok(d) ==> detection_ok(*cropped, *settings, d),
{
    if steps_x < 100 || steps_y < 100 {
        return Err(Error::InvalidResolution { steps_x, steps_y });
    }
    if cropped.width < 100 && cropped.height < 100 {
        return Err(Error::RegionTooSmall { width: cropped.width, height: cropped.height });
    }
    let colors = extract_colors(cropped, settings);
    if colors.len() == 0 {
        return Err(Error::NoColorsFound);
    }
    let ghost pal = colors@;
    let mut colors_to_use: Vec<Color> = Vec::new();
    let mut color_filtered: Vec<Mask> = Vec::new();
    let mut remaining_vertices: Vec<Vec<CombinedVerticals>> = Vec::new();
    let mut graphs: Vec<(Color, Vec<GraphMultiNode>)> = Vec::new();
    let mut i: usize = 0;
    while i < colors.len()
        invariant
            cropped.wf(),
            settings.wf(),
            cropped.width as int + cropped.height as int <= u32::MAX,
            pal == colors@,
            pal == palette(*cropped, *settings),
            i <= pal.len(),
            color_filtered@.len() == colors_to_use@.len(),
            remaining_vertices@.len() == colors_to_use@.len(),
            forall|k: int| 0 <= k < colors_to_use@.len() ==> pal.contains(#[trigger] colors_to_use@[k]),
            forall|k: int| 0 <= k < colors_to_use@.len() ==> accepted_color(*cropped, *settings, #[trigger] colors_to_use@[k], color_filtered@[k]),
            forall|p: int, m: Mask| 0 <= p < i && #[trigger] accepted_color(*cropped, *settings, pal[p], m) ==> colors_to_use@.contains(pal[p]),
            forall|g: int| 0 <= g < graphs@.len() ==> entry_claimed(*settings, colors_to_use@, color_filtered@, remaining_vertices@, #[trigger] graphs@[g]),
            forall|k: int|
                0 <= k < colors_to_use@.len() ==> #[trigger] color_accounted_in(
                    *settings,
                    colors_to_use@,
                    color_filtered@,
                    remaining_vertices@,
                    graphs@,
                    k,
                ),
            forall|g: int| 0 <= g < graphs@.len() ==> colors_to_use@.contains((#[trigger] graphs@[g]).0) && graphs@[g].1@.len() > 0
                && (graphs@[g].1@.len() > 1 ==> any_overlap(graphs@[g].1@))
                && forall|t: int| 0 <= t < graphs@[g].1@.len() ==> (#[trigger] graphs@[g].1@[t]).ys@.len() == cropped.width,
        decreases pal.len() - i,
    {
        let color = colors[i];
        let m = color_filtering(cropped, &color, settings.step1_step2_color_radius);
        let passes = passes_filters(&m, settings);
        let survives = if passes { survives_opening_exec(&m, settings.step1_close_count) } else { false };
        proof {
            assert forall|mm: Mask| #[trigger] accepted_color(*cropped, *settings, pal[i as int], mm) implies passes && survives by {
                lemma_color_mask_unique(*cropped, color, settings.step1_step2_color_radius, m, mm, *settings);
            }
        }
        if passes && survives {
            let ghost before = colors_to_use@;
            let ghost graphs_before = graphs@;
            let ghost filtered_before = color_filtered@;
            let ghost remaining_before = remaining_vertices@;
            colors_to_use.push(color);
            let (tracks, remaining) = curves_of_mask(&m, settings);
            let ghost track_view = tracks@;
            let ghost strip_view = remaining@;
            let ghost m_view = m;
            color_filtered.push(m);
            remaining_vertices.push(remaining);
            proof {
                let last = colors_to_use@.len() - 1;
                assert(colors_to_use@[last] == color);
                assert(color_filtered@[last] == m_view);
                assert(remaining_vertices@[last]@ == strip_view);
                assert(claims_all(color_filtered@[last], track_view, remaining_vertices@[last]@));
                assert(curves_exact(color_filtered@[last], *settings, track_view, remaining_vertices@[last]@));
                assert forall|g: int| 0 <= g < graphs_before.len() implies entry_claimed(*settings, colors_to_use@, color_filtered@, remaining_vertices@, #[trigger] graphs_before[g]) by {
                    lemma_entry_claimed_push(*settings, before, filtered_before, remaining_before, color, m_view, remaining_vertices@[last], graphs_before[g]);
                    assert(colors_to_use@ == before.push(color));
                    assert(color_filtered@ == filtered_before.push(m_view));
                    assert(remaining_vertices@ == remaining_before.push(remaining_vertices@[last]));
                }
                assert forall|k: int| 0 <= k < before.len() implies colors_to_use@[k] == before[k] by {}
                assert forall|x: Color| before.contains(x) implies colors_to_use@.contains(x) by {
                    let k = choose|k: int| 0 <= k < before.len() && before[k] == x;
                    assert(colors_to_use@[k] == x);
                }
            }
            if tracks.len() > 0 {
                graphs.push((color, tracks));
                proof {
                    assert forall|g: int| 0 <= g < graphs@.len() implies colors_to_use@.contains((#[trigger] graphs@[g]).0) by {
                        if g < graphs_before.len() {
                            assert(graphs@[g] == graphs_before[g]);
                        }
                    }
                    let last = colors_to_use@.len() - 1;
                    assert forall|g: int| 0 <= g < graphs@.len() implies entry_claimed(*settings, colors_to_use@, color_filtered@, remaining_vertices@, #[trigger] graphs@[g]) by {
                        if g < graphs_before.len() {
                            assert(graphs@[g] == graphs_before[g]);
                        } else {
                            assert(graphs@[g].1@ == track_view);
                            assert(claims_all(color_filtered@[last], graphs@[g].1@, remaining_vertices@[last]@));
                            assert(curves_exact(color_filtered@[last], *settings, graphs@[g].1@, remaining_vertices@[last]@));
                        }
                    }
                }
            }
            proof {
                let last = colors_to_use@.len() - 1;
                assert forall|k: int| 0 <= k < colors_to_use@.len() implies #[trigger] color_accounted_in(
                    *settings,
                    colors_to_use@,
                    color_filtered@,
                    remaining_vertices@,
                    graphs@,
                    k,
                ) by {
                    if k < last {
                        assert(color_accounted_in(*settings, before, filtered_before, remaining_before, graphs_before, k));
                        let t = choose|t: Seq<GraphMultiNode>|
                            #[trigger] curves_exact(filtered_before[k], *settings, t, remaining_before[k]@) && (t.len() > 0 ==> exists|g: int|
                                0 <= g < graphs_before.len() && (#[trigger] graphs_before[g]).0 == before[k] && graphs_before[g].1@ == t);
                        assert(color_filtered@[k] == filtered_before[k]);
                        assert(remaining_vertices@[k] == remaining_before[k]);
                        assert(colors_to_use@[k] == before[k]);
                        if t.len() > 0 {
                            let g = choose|g: int|
                                0 <= g < graphs_before.len() && (#[trigger] graphs_before[g]).0 == before[k] && graphs_before[g].1@ == t;
                            assert(graphs@[g] == graphs_before[g]);
                        }
                        assert(curves_exact(color_filtered@[k], *settings, t, remaining_vertices@[k]@));
                    } else {
                        assert(curves_exact(color_filtered@[last], *settings, track_view, remaining_vertices@[last]@));
                        if track_view.len() > 0 {
                            assert(graphs@[graphs@.len() - 1].1@ == track_view);
                            assert(graphs@[graphs@.len() - 1].0 == colors_to_use@[last]);
                        }
                    }
                }
            }
        }
        i = i + 1;
    }
    let d = LineDetected { colors: colors_to_use, color_filtered, remaining_vertices, graphs };
    proof {
        assert forall|i: int| 0 <= i < d.colors@.len() implies #[trigger] color_accounted(*settings, d, i) by {
            assert(color_accounted_in(*settings, d.colors@, d.color_filtered@, d.remaining_vertices@, d.graphs@, i));
            let t = choose|t: Seq<GraphMultiNode>|
                #[trigger] curves_exact(d.color_filtered@[i], *settings, t, d.remaining_vertices@[i]@) && (t.len() > 0 ==> exists|g: int|
                    0 <= g < d.graphs@.len() && (#[trigger] d.graphs@[g]).0 == d.colors@[i] && d.graphs@[g].1@ == t);
            assert(curves_exact(d.color_filtered@[i], *settings, t, d.remaining_vertices@[i]@));
        }
    }
    Ok(d)
}

/// Masks of one colour agree on every filter.
proof fn lemma_color_mask_unique(img: Image, c: Color, radius: u8, a: Mask, b: Mask, settings: Settings)
    requires
        is_color_mask(img, c, radius, a),
        is_color_mask(img, c, radius, b),
    ensures
        mask_passes(a, settings) == mask_passes(b, settings),
        forall|n: nat| survives_opening(a, n) == survives_opening(b, n),
{
    assert(a.hits@ =~= b.hits@);
    assert forall|x: int| #[trigger] count_column_hits(a, x, a.height as int) == count_column_hits(b, x, b.height as int) by {
        lemma_same_column_hits(a, b, x, a.height as int);
    }
    lemma_same_occupied(a, b, a.width as int);
    let hf = settings.step1_height_maximal_fraction;
    assert((forall|x: int| 0 <= x < a.width ==> !(#[trigger] count_column_hits(a, x, a.height as int) * hf.den > hf.num * a.height))
        == (forall|x: int| 0 <= x < b.width ==> !(#[trigger] count_column_hits(b, x, b.height as int) * hf.den > hf.num * b.height))) by {
        if forall|x: int| 0 <= x < a.width ==> !(#[trigger] count_column_hits(a, x, a.height as int) * hf.den > hf.num * a.height) {
            assert forall|x: int| 0 <= x < b.width implies !(#[trigger] count_column_hits(b, x, b.height as int) * hf.den > hf.num * b.height) by {
                assert(count_column_hits(a, x, a.height as int) == count_column_hits(b, x, b.height as int));
            }
        }
        if forall|x: int| 0 <= x < b.width ==> !(#[trigger] count_column_hits(b, x, b.height as int) * hf.den > hf.num * b.height) {
            assert forall|x: int| 0 <= x < a.width implies !(#[trigger] count_column_hits(a, x, a.height as int) * hf.den > hf.num * a.height) by {
                assert(count_column_hits(a, x, a.height as int) == count_column_hits(b, x, b.height as int));
            }
        }
    }
    assert(luma_of(a) =~= luma_of(b));
    assert forall|n: nat| survives_opening(a, n) == survives_opening(b, n) by {
        lemma_same_opened(a, b, n);
    }
}

proof fn lemma_same_column_hits(a: Mask, b: Mask, x: int, n: int)
    requires
        a.hits@ == b.hits@,
        a.width == b.width,
    ensures
        count_column_hits(a, x, n) == count_column_hits(b, x, n),
    decreases n,
{
    if n > 0 {
        lemma_same_column_hits(a, b, x, n - 1);
    }
}

proof fn lemma_same_occupied(a: Mask, b: Mask, n: int)
    requires
        a.hits@ == b.hits@,
        a.width == b.width,
        a.height == b.height,
    ensures
        occupied_columns(a, n) == occupied_columns(b, n),
    decreases n,
{
    if n > 0 {
        lemma_same_occupied(a, b, n - 1);
        lemma_same_column_hits(a, b, n - 1, a.height as int);
    }
}

proof fn lemma_same_opened(a: Mask, b: Mask, n: nat)
    requires
        a.hits@ == b.hits@,
        a.width == b.width,
        a.height == b.height,
    ensures
        opened_n(a, n) == opened_n(b, n),
    decreases n,
{
    assert(luma_of(a) =~= luma_of(b));
    if n > 0 {
        lemma_same_opened(a, b, (n - 1) as nat);
    }
}

/// Track `g` has a point in column `x` whose mean row is `y`.
pub open spec fn plots_at(g: GraphMultiNode, x: int, y: int) -> bool {
    0 <= x < g.ys@.len() && cell_mean(col(g, x)) == Some(y)
}

/// Some track of some colour of `graphs` has a point at `(x, y)`.
pub open spec fn plotted(graphs: Seq<(Color, Vec<GraphMultiNode>)>, x: int, y: int) -> bool {
    exists|g: int, t: int| 0 <= g < graphs.len() && 0 <= t < graphs[g].1@.len() && #[trigger] plots_at(graphs[g].1@[t], x, y)
}

proof fn lemma_plotted_extend(graphs: Seq<(Color, Vec<GraphMultiNode>)>, g: int)
    requires
        0 <= g < graphs.len(),
    ensures
        forall|x: int, y: int|
            #[trigger] plotted(graphs.subrange(0, g + 1), x, y) <==> plotted(graphs.subrange(0, g), x, y) || exists|tt: int|
                0 <= tt < graphs[g].1@.len() && #[trigger] plots_at(graphs[g].1@[tt], x, y),
{
    let a = graphs.subrange(0, g);
    let b = graphs.subrange(0, g + 1);
    assert forall|x: int, y: int|
        #[trigger] plotted(b, x, y) <==> plotted(a, x, y) || exists|tt: int|
            0 <= tt < graphs[g].1@.len() && #[trigger] plots_at(graphs[g].1@[tt], x, y) by {
        if plotted(b, x, y) {
            let (k, t) = choose|k: int, t: int| 0 <= k < b.len() && 0 <= t < b[k].1@.len() && #[trigger] plots_at(b[k].1@[t], x, y);
            if k < g {
                assert(a[k] == b[k]);
            } else {
                assert(b[k] == graphs[g]);
            }
        }
        if plotted(a, x, y) {
            let (k, t) = choose|k: int, t: int| 0 <= k < a.len() && 0 <= t < a[k].1@.len() && #[trigger] plots_at(a[k].1@[t], x, y);
            assert(a[k] == b[k]);
        }
        if exists|tt: int| 0 <= tt < graphs[g].1@.len() && #[trigger] plots_at(graphs[g].1@[tt], x, y) {
            let tt = choose|tt: int| 0 <= tt < graphs[g].1@.len() && #[trigger] plots_at(graphs[g].1@[tt], x, y);
            assert(b[g] == graphs[g]);
            assert(plots_at(b[g].1@[tt], x, y));
        }
    }
}

fn paint_track(pixels: &mut Vec<Color>, width: u32, height: u32, g: &GraphMultiNode, color: Color)
    requires
        old(pixels)@.len() == width as int * height as int,
    ensures
        final(pixels)@.len() == old(pixels)@.len(),
        forall|x: int, y: int|
            0 <= x < width && 0 <= y < height ==> #[trigger] final(pixels)@[y * width + x] == if plots_at(*g, x, y) {
                color
            } else {
                old(pixels)@[y * width + x]
            },
{
    let ghost start = pixels@;
    let n: usize = if g.ys.len() < width as usize { g.ys.len() } else { width as usize };
    let mut x: usize = 0;
    while x < n
        invariant
            pixels@.len() == width as int * height as int,
            n <= width,
            n <= g.ys@.len(),
            x <= n,
            forall|xx: int, y: int|
                0 <= xx < width && 0 <= y < height ==> #[trigger] pixels@[y * width + xx] == if xx < x && plots_at(*g, xx, y) {
                    color
                } else {
                    start[y * width + xx]
                },
        decreases n - x,
    {
        if let Some(m) = g.ys[x].mean() {
            if m < height {
                proof {
                    crate::raster::lemma_index_in_grid(x as int, m as int, width as int, height as int);
                }
                let _len = pixels.len();
                let i = m as usize * width as usize + x;
                let ghost before = pixels@;
                pixels.set(i, color);
                proof {
                    assert forall|xx: int, y: int|
                        0 <= xx < width && 0 <= y < height implies #[trigger] pixels@[y * width + xx] == if xx < x + 1 && plots_at(*g, xx, y) {
                            color
                        } else {
                            start[y * width + xx]
                        } by {
                        crate::raster::lemma_index_in_grid(xx, y, width as int, height as int);
                        if y * width + xx == i {
                            lemma_grid_index_unique(xx, y, x as int, m as int, width as int);
                        } else {
                            assert(pixels@[y * width + xx] == before[y * width + xx]);
                            if xx == x && y == m {
                            }
                        }
                    }
                }
            }
        }
        x = x + 1;
    }
    proof {
        assert forall|xx: int, y: int| 0 <= xx < width && 0 <= y < height && plots_at(*g, xx, y) implies xx < n by {}
    }
}

proof fn lemma_grid_index_unique(x1: int, y1: int, x2: int, y2: int, w: int)
    requires
        0 <= x1 < w,
        0 <= x2 < w,
        0 <= y1,
        0 <= y2,
        y1 * w + x1 == y2 * w + x2,
    ensures
        x1 == x2 && y1 == y2,
{
    if y1 < y2 {
        assert(y1 * w + w <= y2 * w) by (nonlinear_arith)
            requires
                y1 < y2,
                w > 0,
        ;
    } else if y1 > y2 {
        assert(y2 * w + w <= y1 * w) by (nonlinear_arith)
            requires
                y2 < y1,
                w > 0,
        ;
    }
}

impl LineDetected {
    /// A copy of the cropped image with the mean row of every column of every
    /// track painted in the highlight colour of `settings`, or else in the
    /// track's own colour; `None` when no track was found.
    pub fn final_image_with_plots(&self, cropped: &Image, settings: &Settings) -> (r: Option<Image>)
        requires
            cropped.wf(),
        ensures
            r is None <==> self.graphs@.len() == 0,
            r matches Some(img) ==> img.wf() && img.width == cropped.width && img.height == cropped.height
                && forall|x: int, y: int|
                    0 <= x < img.width && 0 <= y < img.height ==> {
                        let p = #[trigger] img.pixel(x, y);
                        if plotted(self.graphs@, x, y) {
                            match settings.step6_fit_graph_color {
                                Some(h) => p == h,
                                None => exists|g: int| 0 <= g < self.graphs@.len() && p == (#[trigger] self.graphs@[g]).0,
                            }
                        } else {
                            p == cropped.pixel(x, y)
                        }
                    },
    {
        if self.graphs.len() == 0 {
            return None;
        }
        let w = cropped.width;
        let h = cropped.height;
        let mut pixels: Vec<Color> = Vec::new();
        let mut i: usize = 0;
        while i < cropped.pixels.len()
            invariant
                i <= cropped.pixels@.len(),
                pixels@ == cropped.pixels@.subrange(0, i as int),
            decreases cropped.pixels@.len() - i,
        {
            pixels.push(cropped.pixels[i]);
            i = i + 1;
            proof {
                assert(pixels@ =~= cropped.pixels@.subrange(0, i as int));
            }
        }
        proof {
            assert(pixels@ =~= cropped.pixels@);
        }
        let mut g: usize = 0;
        while g < self.graphs.len()
            invariant
                cropped.wf(),
                w == cropped.width,
                h == cropped.height,
                pixels@.len() == w as int * h as int,
                g <= self.graphs@.len(),
                forall|x: int, y: int|
                    0 <= x < w && 0 <= y < h ==> {
                        let p = #[trigger] pixels@[y * w + x];
                        if plotted(self.graphs@.subrange(0, g as int), x, y) {
                            match settings.step6_fit_graph_color {
                                Some(hc) => p == hc,
                                None => exists|k: int| 0 <= k < g && p == (#[trigger] self.graphs@[k]).0,
                            }
                        } else {
                            p == cropped.pixels@[y * w + x]
                        }
                    },
            decreases self.graphs@.len() - g,
        {
            let color = match settings.step6_fit_graph_color {
                Some(hc) => hc,
                None => self.graphs[g].0,
            };
            let tracks = &self.graphs[g].1;
            let mut t: usize = 0;
            while t < tracks.len()
                invariant
                    cropped.wf(),
                    w == cropped.width,
                    h == cropped.height,
                    pixels@.len() == w as int * h as int,
                    g < self.graphs@.len(),
                    tracks == self.graphs@[g as int].1,
                    t <= tracks@.len(),
                    color == match settings.step6_fit_graph_color {
                        Some(hc) => hc,
                        None => self.graphs@[g as int].0,
                    },
                    forall|x: int, y: int|
                        0 <= x < w && 0 <= y < h ==> {
                            let p = #[trigger] pixels@[y * w + x];
                            if plotted(self.graphs@.subrange(0, g as int), x, y) || exists|tt: int| 0 <= tt < t && #[trigger] plots_at(tracks@[tt], x, y) {
                                match settings.step6_fit_graph_color {
                                    Some(hc) => p == hc,
                                    None => exists|k: int| 0 <= k <= g && p == (#[trigger] self.graphs@[k]).0,
                                }
                            } else {
                                p == cropped.pixels@[y * w + x]
                            }
                        },
                decreases tracks@.len() - t,
            {
                paint_track(&mut pixels, w, h, &tracks[t], color);
                t = t + 1;
            }
            proof {
                lemma_plotted_extend(self.graphs@, g as int);
            }
            g = g + 1;
        }
        proof {
            assert(self.graphs@.subrange(0, self.graphs@.len() as int) =~= self.graphs@);
        }
        Some(Image { width: w, height: h, pixels })
    }
}

} // verus!
