use vstd::prelude::*;

use crate::group::{as_vertical, strip_at, CombinedVerticals};
use crate::raster::Mask;
use crate::settings::Settings;
use crate::track::{col, strip_distance, track_dist, Distance, GraphMultiNode};
use crate::verticals::VerticalComponent;

verus! {

/// The largest distance the stitcher bridges: the jump fraction of the height, rounded down.
pub open spec fn max_jump(settings: Settings, height: u32) -> int {
    let f = settings.step4_component_jump_height_fraction;
    (height as int * f.num as int) / f.den as int
}

/// No two tracks lie within `max` of each other.
pub open spec fn pairwise_far(cs: Seq<GraphMultiNode>, max: int) -> bool {
    forall|i: int, j: int| 0 <= i < j < cs.len() ==> track_dist(#[trigger] cs[j], #[trigger] cs[i]) > max
}

/// No strip could extend any track within `max`.
pub open spec fn strips_far(cs: Seq<GraphMultiNode>, vs: Seq<CombinedVerticals>, max: int) -> bool {
    forall|vi: int, ci: int|
        0 <= vi < vs.len() && 0 <= ci < cs.len() ==> match strip_distance(#[trigger] cs[ci], #[trigger] vs[vi]) {
            Distance::CanBeExtendend { distance } => distance > max,
            Distance::CannotBeExtended => true,
        }
}

/// The first closest pair `(i, j)`, `i < j`, among the pairs that come before
/// `(i, j)` in row-major order, measured by `track_dist(cs[j], cs[i])`.
pub open spec fn best_pair_before(cs: Seq<GraphMultiNode>, i: int, j: int) -> Option<(int, int)>
    decreases i, j,
{
    if i < 0 || (i == 0 && j <= 1) {
        None
    } else if j <= i + 1 {
        best_pair_before(cs, i - 1, cs.len() as int)
    } else {
        let prev = best_pair_before(cs, i, j - 1);
        let d = track_dist(cs[j - 1], cs[i]);
        match prev {
            Some(p) => if d < track_dist(cs[p.1], cs[p.0]) {
                Some((i, j - 1))
            } else {
                prev
            },
            None => Some((i, j - 1)),
        }
    }
}

/// The first closest pair of tracks.
pub open spec fn closest_pair(cs: Seq<GraphMultiNode>) -> Option<(int, int)> {
    best_pair_before(cs, cs.len() as int, cs.len() as int + 1)
}

/// The distance of the strip-track candidate `p = (strip, track)`.
pub open spec fn strip_dist(cs: Seq<GraphMultiNode>, rs: Seq<CombinedVerticals>, p: (int, int)) -> int {
    match strip_distance(cs[p.1], rs[p.0]) {
        Distance::CanBeExtendend { distance } => distance as int,
        Distance::CannotBeExtended => 0,
    }
}

/// The first closest candidate `(strip, track)` that can extend its track,
/// among those before `(vi, ci)` in row-major order.
pub open spec fn best_strip_before(cs: Seq<GraphMultiNode>, rs: Seq<CombinedVerticals>, vi: int, ci: int) -> Option<(int, int)>
    decreases vi, ci,
{
    if vi < 0 || (vi == 0 && ci <= 0) {
        None
    } else if ci <= 0 {
        best_strip_before(cs, rs, vi - 1, cs.len() as int)
    } else {
        let prev = best_strip_before(cs, rs, vi, ci - 1);
        match strip_distance(cs[ci - 1], rs[vi]) {
            Distance::CanBeExtendend { distance } => match prev {
                Some(p) => if distance < strip_dist(cs, rs, p) {
                    Some((vi, ci - 1))
                } else {
                    prev
                },
                None => Some((vi, ci - 1)),
            },
            Distance::CannotBeExtended => prev,
        }
    }
}

/// The first closest strip that can extend a track, with that track.
pub open spec fn closest_strip(cs: Seq<GraphMultiNode>, rs: Seq<CombinedVerticals>) -> Option<(int, int)> {
    best_strip_before(cs, rs, rs.len() as int, 0)
}

/// The closest pair of tracks lies within `max`.
pub open spec fn pair_ready(cs: Seq<GraphMultiNode>, max: int) -> bool {
    match closest_pair(cs) {
        Some(p) => track_dist(cs[p.1], cs[p.0]) <= max,
        None => false,
    }
}

/// The closest strip lies within `max` of a track it can extend.
pub open spec fn strip_ready(cs: Seq<GraphMultiNode>, rs: Seq<CombinedVerticals>, max: int) -> bool {
    match closest_strip(cs, rs) {
        Some(p) => strip_dist(cs, rs, p) <= max,
        None => false,
    }
}

/// `cs2` is `cs` with track `j` folded into track `i`.
pub open spec fn tracks_merged(cs: Seq<GraphMultiNode>, i: int, j: int, cs2: Seq<GraphMultiNode>) -> bool {
    &&& 0 <= i < j < cs.len()
    &&& cs2.len() == cs.len() - 1
    &&& forall|q: int| 0 <= q < j && q != i ==> #[trigger] cs2[q] == cs[q]
    &&& forall|q: int| j < q < cs.len() ==> #[trigger] cs2[q - 1] == cs[q]
    &&& cs2[i].ys@.len() == cs[i].ys@.len()
    &&& forall|x: int| 0 <= x < cs[i].ys@.len() ==> #[trigger] col(cs2[i], x) == col(cs[i], x) + col(cs[j], x)
}

/// `cs2` and `rs2` are `cs` and `rs` with strip `v` moved into track `c`.
pub open spec fn strip_merged(
    cs: Seq<GraphMultiNode>,
    rs: Seq<CombinedVerticals>,
    v: int,
    c: int,
    cs2: Seq<GraphMultiNode>,
    rs2: Seq<CombinedVerticals>,
) -> bool {
    &&& 0 <= v < rs.len()
    &&& 0 <= c < cs.len()
    &&& rs2 == rs.remove(v)
    &&& cs2.len() == cs.len()
    &&& forall|q: int| 0 <= q < cs.len() && q != c ==> #[trigger] cs2[q] == cs[q]
    &&& cs2[c].ys@.len() == cs[c].ys@.len()
    &&& forall|x: int| 0 <= x < cs[c].ys@.len() ==> #[trigger] col(cs2[c], x) == match strip_at(rs[v], x) {
        Some(e) => col(cs[c], x).push(as_vertical(e)),
        None => col(cs[c], x),
    }
}

/// One step of the stitcher: merge the closest pair of tracks if it lies within
/// `max`, else attach the closest strip if it lies within `max`.
pub open spec fn greedy_step(
    cs: Seq<GraphMultiNode>,
    rs: Seq<CombinedVerticals>,
    max: int,
    cs2: Seq<GraphMultiNode>,
    rs2: Seq<CombinedVerticals>,
) -> bool {
    if pair_ready(cs, max) {
        let p = closest_pair(cs).unwrap();
        tracks_merged(cs, p.0, p.1, cs2) && rs2 == rs
    } else if strip_ready(cs, rs, max) {
        let p = closest_strip(cs, rs).unwrap();
        strip_merged(cs, rs, p.0, p.1, cs2, rs2)
    } else {
        false
    }
}

/// Repeating greedy steps from `(cs, rs)` until none applies ends in `(out, out_rs)`.
#[verifier::opaque]
pub open spec fn stitched(
    cs: Seq<GraphMultiNode>,
    rs: Seq<CombinedVerticals>,
    max: int,
    out: Seq<GraphMultiNode>,
    out_rs: Seq<CombinedVerticals>,
) -> bool
    decreases cs.len() + rs.len(),
{
    if !pair_ready(cs, max) && !strip_ready(cs, rs, max) {
        out == cs && out_rs == rs
    } else {
        exists|cs2: Seq<GraphMultiNode>, rs2: Seq<CombinedVerticals>|
            cs2.len() + rs2.len() < cs.len() + rs.len() && #[trigger] greedy_step(cs, rs, max, cs2, rs2) && stitched(
                cs2,
                rs2,
                max,
                out,
                out_rs,
            )
    }
}

/// Where the greedy steps end, none applies.
proof fn lemma_stitched_settles(
    cs: Seq<GraphMultiNode>,
    rs: Seq<CombinedVerticals>,
    max: int,
    out: Seq<GraphMultiNode>,
    out_rs: Seq<CombinedVerticals>,
)
    requires
        stitched(cs, rs, max, out, out_rs),
    ensures
        !pair_ready(out, max) && !strip_ready(out, out_rs, max),
    decreases cs.len() + rs.len(),
{
    reveal(stitched);
    if pair_ready(cs, max) || strip_ready(cs, rs, max) {
        let (cs2, rs2) = choose|cs2: Seq<GraphMultiNode>, rs2: Seq<CombinedVerticals>|
            cs2.len() + rs2.len() < cs.len() + rs.len() && #[trigger] greedy_step(cs, rs, max, cs2, rs2) && stitched(
                cs2,
                rs2,
                max,
                out,
                out_rs,
            );
        lemma_stitched_settles(cs2, rs2, max, out, out_rs);
    }
}

/// Stitching is idempotent: stitching the tracks that stitching produced, with
/// no strips left to attach, merges nothing and returns them unchanged.
pub proof fn lemma_stitch_idempotent(
    cs: Seq<GraphMultiNode>,
    rs: Seq<CombinedVerticals>,
    max: int,
    out: Seq<GraphMultiNode>,
    out_rs: Seq<CombinedVerticals>,
)
    requires
        stitched(cs, rs, max, out, out_rs),
    ensures
        stitched(out, Seq::empty(), max, out, Seq::empty()),
        !pair_ready(out, max),
{
    lemma_stitched_settles(cs, rs, max, out, out_rs);
    let e = Seq::<CombinedVerticals>::empty();
    assert(closest_strip(out, e) is None);
    reveal(stitched);
}

/// Two tracks of one width within the jump limit of each other, with no strips,
/// are stitched into a single track holding, column by column, the intervals of
/// the first followed by those of the second; no strip is left.
pub proof fn lemma_stitch_two_close_tracks(
    a: GraphMultiNode,
    b: GraphMultiNode,
    max: int,
    out: Seq<GraphMultiNode>,
    out_rs: Seq<CombinedVerticals>,
)
    requires
        a.ys@.len() == b.ys@.len(),
        track_dist(b, a) <= max,
        stitched(seq![a, b], Seq::empty(), max, out, out_rs),
    ensures
        out.len() == 1,
        out_rs.len() == 0,
        out[0].ys@.len() == a.ys@.len(),
        forall|x: int| 0 <= x < a.ys@.len() ==> #[trigger] col(out[0], x) == col(a, x) + col(b, x),
{
    let cs = seq![a, b];
    let rs = Seq::<CombinedVerticals>::empty();
    assert(best_pair_before(cs, 0, 1) is None);
    assert(best_pair_before(cs, 0, 2) == Some((0int, 1int)));
    assert(best_pair_before(cs, 2, 3) == best_pair_before(cs, 1, 2));
    assert(best_pair_before(cs, 1, 2) == best_pair_before(cs, 0, 2));
    assert(closest_pair(cs) == Some((0int, 1int)));
    assert(pair_ready(cs, max));
    reveal(stitched);
    let (cs2, rs2) = choose|cs2: Seq<GraphMultiNode>, rs2: Seq<CombinedVerticals>|
        cs2.len() + rs2.len() < cs.len() + rs.len() && #[trigger] greedy_step(cs, rs, max, cs2, rs2) && stitched(
            cs2,
            rs2,
            max,
            out,
            out_rs,
        );
    assert(tracks_merged(cs, 0, 1, cs2));
    assert(rs2 == rs);
    assert(cs2.len() == 1);
    assert(best_pair_before(cs2, 0, 1) is None);
    assert(best_pair_before(cs2, 1, 2) is None);
    assert(closest_pair(cs2) is None);
    assert(closest_strip(cs2, rs2) is None);
    assert(out == cs2 && out_rs == rs2);
}

/// The candidate found so far, as a pair of indices.
pub open spec fn pair_of(best: Option<(usize, usize, u32)>) -> Option<(int, int)> {
    match best {
        Some(b) => Some((b.0 as int, b.1 as int)),
        None => None,
    }
}

/// A best candidate has been found and lies no farther than `d`.
pub open spec fn bounded_by(best: Option<(usize, usize, u32)>, d: int) -> bool {
    match best {
        Some(b) => b.2 <= d,
        None => false,
    }
}

/// Interval `v` lies in column `x` of some track of `cs`.
pub open spec fn kept_in(cs: Seq<GraphMultiNode>, x: int, v: VerticalComponent) -> bool {
    exists|t: int| 0 <= t < cs.len() && (#[trigger] col(cs[t], x)).contains(v)
}

/// Every interval of strip `s` lies in its column of some track of `cs`.
pub open spec fn strip_absorbed(cs: Seq<GraphMultiNode>, s: CombinedVerticals) -> bool {
    forall|i: int| 0 <= i < s.combined@.len() ==> kept_in(cs, s.x_start.0 + i, as_vertical(#[trigger] s.combined@[i]))
}

/// Each track of `old` has its intervals within some track of `new`, column by column.
pub open spec fn tracks_grow(old: Seq<GraphMultiNode>, new: Seq<GraphMultiNode>, width: int) -> bool {
    forall|t: int, x: int, v: VerticalComponent|
        0 <= t < old.len() && 0 <= x < width && #[trigger] col(old[t], x).contains(v) ==> kept_in(new, x, v)
}

proof fn lemma_kept_grow(old: Seq<GraphMultiNode>, new: Seq<GraphMultiNode>, width: int, x: int, v: VerticalComponent)
    requires
        tracks_grow(old, new, width),
        0 <= x < width,
        kept_in(old, x, v),
    ensures
        kept_in(new, x, v),
{
    let t = choose|t: int| 0 <= t < old.len() && (#[trigger] col(old[t], x)).contains(v);
}

proof fn lemma_contains_concat(a: Seq<VerticalComponent>, b: Seq<VerticalComponent>, v: VerticalComponent)
    requires
        a.contains(v) || b.contains(v),
    ensures
        (a + b).contains(v),
{
    if a.contains(v) {
        let i = choose|i: int| 0 <= i < a.len() && a[i] == v;
        assert((a + b)[i] == v);
    } else {
        let i = choose|i: int| 0 <= i < b.len() && b[i] == v;
        assert((a + b)[a.len() + i] == v);
    }
}

proof fn lemma_contains_push(a: Seq<VerticalComponent>, w: VerticalComponent, v: VerticalComponent)
    requires
        a.contains(v),
    ensures
        a.push(w).contains(v),
{
    let i = choose|i: int| 0 <= i < a.len() && a[i] == v;
    assert(a.push(w)[i] == v);
}

proof fn lemma_after_track_merge(
    initial: Seq<GraphMultiNode>,
    initial_remaining: Seq<CombinedVerticals>,
    before: Seq<GraphMultiNode>,
    after: Seq<GraphMultiNode>,
    remaining: Seq<CombinedVerticals>,
    bi: int,
    bj: int,
    width: int,
)
    requires
        0 <= bi < bj < before.len(),
        after == before.remove(bj).update(bi, after[bi]),
        forall|x: int| 0 <= x < width ==> #[trigger] col(after[bi], x) == col(before[bi], x) + col(before[bj], x),
        tracks_grow(initial, before, width),
        forall|k: int| 0 <= k < initial_remaining.len() ==> (#[trigger] initial_remaining[k]).end() <= width,
        forall|k: int|
            0 <= k < initial_remaining.len() ==> remaining.contains(#[trigger] initial_remaining[k])
                || strip_absorbed(before, initial_remaining[k]),
    ensures
        tracks_grow(initial, after, width),
        tracks_grow(before, after, width),
        forall|k: int|
            0 <= k < initial_remaining.len() ==> remaining.contains(#[trigger] initial_remaining[k])
                || strip_absorbed(after, initial_remaining[k]),
{
    assert forall|t: int, x: int, v: VerticalComponent|
        0 <= t < before.len() && 0 <= x < width && #[trigger] col(before[t], x).contains(v) implies kept_in(after, x, v) by {
        if t == bi || t == bj {
            lemma_contains_concat(col(before[bi], x), col(before[bj], x), v);
            assert(col(after[bi], x).contains(v));
        } else if t < bj {
            assert(after[t] == before[t]);
            assert(col(after[t], x).contains(v));
        } else {
            assert(after[t - 1] == before[t]);
            assert(col(after[t - 1], x).contains(v));
        }
    }
    assert forall|t: int, x: int, v: VerticalComponent|
        0 <= t < initial.len() && 0 <= x < width && #[trigger] col(initial[t], x).contains(v) implies kept_in(after, x, v) by {
        lemma_kept_grow(initial, before, width, x, v);
        let q = choose|q: int| 0 <= q < before.len() && (#[trigger] col(before[q], x)).contains(v);
    }
    assert forall|k: int| 0 <= k < initial_remaining.len() implies remaining.contains(#[trigger] initial_remaining[k])
        || strip_absorbed(after, initial_remaining[k]) by {
        let s0 = initial_remaining[k];
        if !remaining.contains(s0) {
            assert forall|i: int| 0 <= i < s0.combined@.len() implies kept_in(after, s0.x_start.0 + i, as_vertical(#[trigger] s0.combined@[i])) by {
                assert(kept_in(before, s0.x_start.0 + i, as_vertical(s0.combined@[i])));
                let q = choose|q: int| 0 <= q < before.len() && (#[trigger] col(before[q], s0.x_start.0 + i)).contains(as_vertical(s0.combined@[i]));
            }
        }
    }
}

proof fn lemma_after_strip_merge(
    initial: Seq<GraphMultiNode>,
    initial_remaining: Seq<CombinedVerticals>,
    before: Seq<GraphMultiNode>,
    after: Seq<GraphMultiNode>,
    rem_before: Seq<CombinedVerticals>,
    rem_after: Seq<CombinedVerticals>,
    bv: int,
    bc: int,
    v0: CombinedVerticals,
    width: int,
)
    requires
        0 <= bv < rem_before.len(),
        0 <= bc < before.len(),
        v0 == rem_before[bv],
        v0.end() <= width,
        rem_after == rem_before.remove(bv),
        after == before.update(bc, after[bc]),
        forall|x: int| 0 <= x < width ==> #[trigger] col(after[bc], x) == match strip_at(v0, x) {
            Some(c) => col(before[bc], x).push(as_vertical(c)),
            None => col(before[bc], x),
        },
        tracks_grow(initial, before, width),
        forall|k: int| 0 <= k < initial_remaining.len() ==> (#[trigger] initial_remaining[k]).end() <= width,
        forall|k: int|
            0 <= k < initial_remaining.len() ==> rem_before.contains(#[trigger] initial_remaining[k])
                || strip_absorbed(before, initial_remaining[k]),
    ensures
        tracks_grow(initial, after, width),
        forall|k: int|
            0 <= k < initial_remaining.len() ==> rem_after.contains(#[trigger] initial_remaining[k])
                || strip_absorbed(after, initial_remaining[k]),
{
    assert forall|t: int, x: int, w: VerticalComponent|
        0 <= t < before.len() && 0 <= x < width && #[trigger] col(before[t], x).contains(w) implies kept_in(after, x, w) by {
        if t == bc {
            if let Some(cc) = strip_at(v0, x) {
                lemma_contains_push(col(before[t], x), as_vertical(cc), w);
            }
            assert(col(after[t], x).contains(w));
        } else {
            assert(after[t] == before[t]);
        }
    }
    assert forall|t: int, x: int, w: VerticalComponent|
        0 <= t < initial.len() && 0 <= x < width && #[trigger] col(initial[t], x).contains(w) implies kept_in(after, x, w) by {
        lemma_kept_grow(initial, before, width, x, w);
        let q = choose|q: int| 0 <= q < before.len() && (#[trigger] col(before[q], x)).contains(w);
    }
    assert forall|i: int| 0 <= i < v0.combined@.len() implies kept_in(after, v0.x_start.0 + i, as_vertical(#[trigger] v0.combined@[i])) by {
        let x = v0.x_start.0 + i;
        assert(strip_at(v0, x) == Some(v0.combined@[i]));
        assert(col(after[bc], x)[col(before[bc], x).len() as int] == as_vertical(v0.combined@[i]));
    }
    assert forall|k: int| 0 <= k < initial_remaining.len() implies rem_after.contains(#[trigger] initial_remaining[k])
        || strip_absorbed(after, initial_remaining[k]) by {
        let s0 = initial_remaining[k];
        if rem_before.contains(s0) {
            let m = choose|m: int| 0 <= m < rem_before.len() && rem_before[m] == s0;
            if m < bv {
                assert(rem_after[m] == s0);
            } else if m > bv {
                assert(rem_after[m - 1] == s0);
            }
        } else {
            assert(strip_absorbed(before, s0));
            assert forall|i: int| 0 <= i < s0.combined@.len() implies kept_in(after, s0.x_start.0 + i, as_vertical(#[trigger] s0.combined@[i])) by {
                assert(kept_in(before, s0.x_start.0 + i, as_vertical(s0.combined@[i])));
                let q = choose|q: int| 0 <= q < before.len() && (#[trigger] col(before[q], s0.x_start.0 + i)).contains(as_vertical(s0.combined@[i]));
            }
        }
    }
}

fn jump_limit(settings: &Settings, height: u32) -> (m: u32)
    requires
        settings.wf(),
    ensures
        m == max_jump(*settings, height),
{
    let s = settings.step4_component_jump_height_fraction.scale(height);
    proof {
        let f = settings.step4_component_jump_height_fraction;
        let p = height as int * f.num as int;
        assert(s == p / f.den as int) by (nonlinear_arith)
            requires
                s * f.den <= p,
                p < (s + 1) * f.den,
                f.den > 0,
        ;
    }
    s
}

/// The first closest pair of tracks, with its distance.
fn closest_pair_exec(components: &Vec<GraphMultiNode>) -> (best: Option<(usize, usize, u32)>)
    ensures
        pair_of(best) == closest_pair(components@),
        best matches Some(b) ==> b.0 < b.1 < components@.len() && b.2 == track_dist(components@[b.1 as int], components@[b.0 as int]),
        forall|p: int, q: int|
            0 <= p < q < components@.len() ==> bounded_by(best, track_dist(#[trigger] components@[q], #[trigger] components@[p])),
{
    let n = components.len();
    let mut best: Option<(usize, usize, u32)> = None;
    let mut i: usize = 0;
    while i < n
        invariant
            n == components@.len(),
            i <= n,
            best matches Some(b) ==> b.0 < b.1 < n && b.2 == track_dist(components@[b.1 as int], components@[b.0 as int]),
            pair_of(best) == best_pair_before(components@, i as int, i as int + 1),
            forall|p: int, q: int|
                0 <= p < i && p < q < n ==> bounded_by(best, track_dist(#[trigger] components@[q], #[trigger] components@[p])),
        decreases n - i,
    {
        let mut j: usize = i + 1;
        while j < n
            invariant
                n == components@.len(),
                i < n,
                i + 1 <= j <= n,
                best matches Some(b) ==> b.0 < b.1 < n && b.2 == track_dist(components@[b.1 as int], components@[b.0 as int]),
                pair_of(best) == best_pair_before(components@, i as int, j as int),
                forall|p: int, q: int|
                    ((0 <= p < i && p < q < n) || (p == i && i < q < j)) ==> bounded_by(best, track_dist(#[trigger] components@[q], #[trigger] components@[p])),
            decreases n - j,
        {
            let d = components[j].distance(&components[i]);
            let better = match best {
                Some(b) => d < b.2,
                None => true,
            };
            if better {
                best = Some((i, j, d));
            }
            j = j + 1;
        }
        i = i + 1;
    }
    best
}

/// The first closest strip that can extend a track, with the track and the distance.
fn closest_strip_exec(components: &Vec<GraphMultiNode>, remaining_verticals: &Vec<CombinedVerticals>, width: u32) -> (best_strip: Option<(usize, usize, u32)>)
    requires
        forall|k: int| 0 <= k < remaining_verticals@.len() ==> (#[trigger] remaining_verticals@[k]).end() <= width,
        forall|k: int| 0 <= k < components@.len() ==> (#[trigger] components@[k]).ys@.len() == width,
    ensures
        pair_of(best_strip) == closest_strip(components@, remaining_verticals@),
        best_strip matches Some(b) ==> b.0 < remaining_verticals@.len() && b.1 < components@.len() && strip_distance(components@[b.1 as int], remaining_verticals@[b.0 as int]) == (Distance::CanBeExtendend { distance: b.2 }),
        forall|p: int, q: int|
            0 <= p < remaining_verticals@.len() && 0 <= q < components@.len() ==> match strip_distance(#[trigger] components@[q], #[trigger] remaining_verticals@[p]) {
                Distance::CanBeExtendend { distance } => best_strip matches Some(b) && b.2 <= distance,
                Distance::CannotBeExtended => true,
            },
{
    let n = components.len();
    let m = remaining_verticals.len();
    let mut best_strip: Option<(usize, usize, u32)> = None;
    let mut vi: usize = 0;
    while vi < m
        invariant
            n == components@.len(),
            m == remaining_verticals@.len(),
            vi <= m,
            forall|k: int| 0 <= k < m ==> (#[trigger] remaining_verticals@[k]).end() <= width,
            forall|k: int| 0 <= k < n ==> (#[trigger] components@[k]).ys@.len() == width,
            best_strip matches Some(b) ==> b.0 < m && b.1 < n && strip_distance(components@[b.1 as int], remaining_verticals@[b.0 as int]) == (Distance::CanBeExtendend { distance: b.2 }),
            pair_of(best_strip) == best_strip_before(components@, remaining_verticals@, vi as int, 0),
            forall|p: int, q: int|
                0 <= p < vi && 0 <= q < n ==> match strip_distance(#[trigger] components@[q], #[trigger] remaining_verticals@[p]) {
                    Distance::CanBeExtendend { distance } => best_strip matches Some(b) && b.2 <= distance,
                    Distance::CannotBeExtended => true,
                },
        decreases m - vi,
    {
        let mut ci: usize = 0;
        while ci < n
            invariant
                n == components@.len(),
                m == remaining_verticals@.len(),
                vi < m,
                ci <= n,
                remaining_verticals@[vi as int].end() <= width,
                forall|k: int| 0 <= k < n ==> (#[trigger] components@[k]).ys@.len() == width,
                best_strip matches Some(b) ==> b.0 < m && b.1 < n && strip_distance(components@[b.1 as int], remaining_verticals@[b.0 as int]) == (Distance::CanBeExtendend { distance: b.2 }),
                pair_of(best_strip) == best_strip_before(components@, remaining_verticals@, vi as int, ci as int),
                forall|p: int, q: int|
                    ((0 <= p < vi && 0 <= q < n) || (p == vi && 0 <= q < ci)) ==> match strip_distance(#[trigger] components@[q], #[trigger] remaining_verticals@[p]) {
                        Distance::CanBeExtendend { distance } => best_strip matches Some(b) && b.2 <= distance,
                        Distance::CannotBeExtended => true,
                    },
            decreases n - ci,
        {
            proof {
                assert(remaining_verticals@[vi as int].end() <= u32::MAX);
            }
            let dist = components[ci].distance_to_vertical(&remaining_verticals[vi]);
            if let Distance::CanBeExtendend { distance } = dist {
                let better = match best_strip {
                    Some(b) => distance < b.2,
                    None => true,
                };
                if better {
                    best_strip = Some((vi, ci, distance));
                }
            }
            ci = ci + 1;
        }
        vi = vi + 1;
    }
    best_strip
}

/// Greedily merges the closest pair of tracks, or else attaches the closest strip
/// to a track, for as long as the closest distance is within the jump limit.
/// Strips that were not attached stay in `remaining_verticals`.
#[verifier::rlimit(40)]
pub fn stitch(
    large_components: Vec<GraphMultiNode>,
    remaining_verticals: &mut Vec<CombinedVerticals>,
    settings: &Settings,
    image: &Mask,
) -> (r: Vec<GraphMultiNode>)
    requires
        settings.wf(),
        forall|i: int| 0 <= i < large_components@.len() ==> (#[trigger] large_components@[i]).ys@.len() == image.width,
        forall|i: int| 0 <= i < old(remaining_verticals)@.len() ==> (#[trigger] old(remaining_verticals)@[i]).end() <= image.width,
    ensures
        forall|i: int| 0 <= i < r@.len() ==> (#[trigger] r@[i]).ys@.len() == image.width,
        forall|i: int| 0 <= i < final(remaining_verticals)@.len() ==> (#[trigger] final(remaining_verticals)@[i]).end() <= image.width,
        final(remaining_verticals)@.len() <= old(remaining_verticals)@.len(),
        pairwise_far(r@, max_jump(*settings, image.height)),
        strips_far(r@, final(remaining_verticals)@, max_jump(*settings, image.height)),
        old(remaining_verticals)@.len() == 0 && pairwise_far(large_components@, max_jump(*settings, image.height))
            ==> r@ == large_components@ && final(remaining_verticals)@.len() == 0,
        stitched(large_components@, old(remaining_verticals)@, max_jump(*settings, image.height), r@, final(remaining_verticals)@),
        r@.len() <= large_components@.len(),
        tracks_grow(large_components@, r@, image.width as int),
        forall|k: int|
            0 <= k < old(remaining_verticals)@.len() ==> final(remaining_verticals)@.contains(#[trigger] old(remaining_verticals)@[k])
                || strip_absorbed(r@, old(remaining_verticals)@[k]),
{
    let max_distance = jump_limit(settings, image.height);
    let ghost settled = remaining_verticals@.len() == 0 && pairwise_far(large_components@, max_distance as int);
    let ghost initial = large_components@;
    let ghost initial_remaining_len = remaining_verticals@.len();
    let ghost initial_remaining = remaining_verticals@;
    let mut components = large_components;
    proof {
        assert forall|t: int, x: int, v: VerticalComponent|
            0 <= t < initial.len() && 0 <= x < image.width && #[trigger] col(initial[t], x).contains(v) implies kept_in(initial, x, v) by {
        }
        assert forall|k: int| 0 <= k < initial_remaining.len() implies remaining_verticals@.contains(#[trigger] initial_remaining[k]) by {
            assert(remaining_verticals@[k] == initial_remaining[k]);
        }
    }
    loop
        invariant
            max_distance == max_jump(*settings, image.height),
            forall|i: int| 0 <= i < components@.len() ==> (#[trigger] components@[i]).ys@.len() == image.width,
            forall|i: int| 0 <= i < remaining_verticals@.len() ==> (#[trigger] remaining_verticals@[i]).end() <= image.width,
            remaining_verticals@.len() <= initial_remaining_len,
            settled ==> components@ == initial && remaining_verticals@.len() == 0,
            settled == (initial_remaining_len == 0 && pairwise_far(initial, max_distance as int)),
            initial_remaining_len == initial_remaining.len(),
            forall|k: int| 0 <= k < initial_remaining.len() ==> (#[trigger] initial_remaining[k]).end() <= image.width,
            components@.len() <= initial.len(),
            tracks_grow(initial, components@, image.width as int),
            forall|k: int|
                0 <= k < initial_remaining.len() ==> remaining_verticals@.contains(#[trigger] initial_remaining[k])
                    || strip_absorbed(components@, initial_remaining[k]),
            forall|out: Seq<GraphMultiNode>, out_rs: Seq<CombinedVerticals>|
                #[trigger] stitched(components@, remaining_verticals@, max_distance as int, out, out_rs) ==> stitched(
                    initial,
                    initial_remaining,
                    max_distance as int,
                    out,
                    out_rs,
                ),
        ensures
            stitched(initial, initial_remaining, max_distance as int, components@, remaining_verticals@),
            pairwise_far(components@, max_distance as int),
            strips_far(components@, remaining_verticals@, max_distance as int),
            forall|i: int| 0 <= i < components@.len() ==> (#[trigger] components@[i]).ys@.len() == image.width,
            forall|i: int| 0 <= i < remaining_verticals@.len() ==> (#[trigger] remaining_verticals@[i]).end() <= image.width,
            remaining_verticals@.len() <= initial_remaining_len,
            settled ==> components@ == initial && remaining_verticals@.len() == 0,
            components@.len() <= initial.len(),
            tracks_grow(initial, components@, image.width as int),
            forall|k: int|
                0 <= k < initial_remaining.len() ==> remaining_verticals@.contains(#[trigger] initial_remaining[k])
                    || strip_absorbed(components@, initial_remaining[k]),
        decreases components@.len() + remaining_verticals@.len(),
    {
        // the closest pair of tracks
        let n = components.len();
        let best = closest_pair_exec(&components);
        proof {
            assert(pair_of(best) == closest_pair(components@));
        }
        let ghost no_pair = !pair_ready(components@, max_distance as int);
        if let Some((bi, bj, d)) = best {
            if d <= max_distance {
                let ghost before = components@;
                let c = components.remove(bj);
                let ghost mid = components@;
                components[bi].stitch_together(c);
                proof {
                    assert(mid =~= before.remove(bj as int));
                    assert(c == before[bj as int]);
                    assert(components@ == mid.update(bi as int, components@[bi as int]));
                    lemma_after_track_merge(
                        initial,
                        initial_remaining,
                        before,
                        components@,
                        remaining_verticals@,
                        bi as int,
                        bj as int,
                        image.width as int,
                    );
                    assert(pair_ready(before, max_distance as int));
                    assert forall|q: int| 0 <= q < bj && q != bi implies #[trigger] components@[q] == before[q] by {
                        assert(mid[q] == before[q]);
                    }
                    assert forall|q: int| bj < q < before.len() implies #[trigger] components@[q - 1] == before[q] by {
                        assert(mid[q - 1] == before[q]);
                    }
                    assert(tracks_merged(before, bi as int, bj as int, components@));
                    assert(greedy_step(before, remaining_verticals@, max_distance as int, components@, remaining_verticals@));
                    assert forall|out: Seq<GraphMultiNode>, out_rs: Seq<CombinedVerticals>|
                        #[trigger] stitched(components@, remaining_verticals@, max_distance as int, out, out_rs) implies stitched(
                            initial,
                            initial_remaining,
                            max_distance as int,
                            out,
                            out_rs,
                        ) by {
                        reveal(stitched);
                        assert(stitched(before, remaining_verticals@, max_distance as int, out, out_rs));
                    }
                }
                continue;
            }
        }
        assert(pairwise_far(components@, max_distance as int));
        // the closest strip to any track
        let best_strip = closest_strip_exec(&components, remaining_verticals, image.width);
        proof {
            assert(pair_of(best_strip) == closest_strip(components@, remaining_verticals@));
            assert(no_pair);
        }
        if let Some((bv, bc, d)) = best_strip {
            if d <= max_distance {
                let ghost before = components@;
                let ghost rem_before = remaining_verticals@;
                let v = remaining_verticals.remove(bv);
                let ghost v0 = v;
                components[bc].merge(v);
                proof {
                    assert(remaining_verticals@ =~= rem_before.remove(bv as int));
                    assert(components@ == before.update(bc as int, components@[bc as int]));
                    lemma_after_strip_merge(
                        initial,
                        initial_remaining,
                        before,
                        components@,
                        rem_before,
                        remaining_verticals@,
                        bv as int,
                        bc as int,
                        v0,
                        image.width as int,
                    );
                    assert(strip_ready(before, rem_before, max_distance as int));
                    assert forall|q: int| 0 <= q < before.len() && q != bc implies #[trigger] components@[q] == before[q] by {}
                    assert(strip_merged(before, rem_before, bv as int, bc as int, components@, remaining_verticals@));
                    assert(greedy_step(before, rem_before, max_distance as int, components@, remaining_verticals@));
                    assert forall|out: Seq<GraphMultiNode>, out_rs: Seq<CombinedVerticals>|
                        #[trigger] stitched(components@, remaining_verticals@, max_distance as int, out, out_rs) implies stitched(
                            initial,
                            initial_remaining,
                            max_distance as int,
                            out,
                            out_rs,
                        ) by {
                        reveal(stitched);
                        assert(stitched(before, rem_before, max_distance as int, out, out_rs));
                    }
                }
                continue;
            }
        }
        proof {
            assert(!strip_ready(components@, remaining_verticals@, max_distance as int));
            reveal(stitched);
            assert(stitched(components@, remaining_verticals@, max_distance as int, components@, remaining_verticals@));
        }
        break;
    }
    components
}

} // verus!
