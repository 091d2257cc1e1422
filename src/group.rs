use vstd::prelude::*;

use crate::track::{col, high_of, low_of, GraphMultiNode, MultiNode};
use crate::geometry::UnitInterval;
use crate::raster::Mask;
use crate::settings::Settings;
use crate::verticals::{column_runs_spec, covered, gap, VerticalComponent, VerticalComponentList, VerticalComponents};

verus! {

/// The largest offset-plus-gap distance at which loose runs and strips are
/// joined into one strip.
pub const STRIP_MERGE_DISTANCE: u32 = 1;

/// A column index.
#[derive(Clone, Copy, Debug, PartialEq, Eq, Structural)]
pub struct X(pub u32);

/// The merged interval of the loose runs of one column of a strip.
#[derive(Clone, Copy, Debug, PartialEq, Eq, Structural)]
pub struct VerticalComponentCombined {
    pub y_min: u32,
    pub y_max: u32,
}

pub open spec fn as_vertical(c: VerticalComponentCombined) -> VerticalComponent {
    VerticalComponent { y_min: c.y_min, y_max: c.y_max }
}

/// The smallest interval holding both.
pub open spec fn hull(a: VerticalComponentCombined, b: VerticalComponentCombined) -> VerticalComponentCombined {
    VerticalComponentCombined {
        y_min: if a.y_min <= b.y_min { a.y_min } else { b.y_min },
        y_max: if a.y_max >= b.y_max { a.y_max } else { b.y_max },
    }
}

impl VerticalComponentCombined {
    pub open spec fn wf(&self) -> bool {
        self.y_min <= self.y_max
    }

    pub open spec fn new_spec(v: VerticalComponent) -> VerticalComponentCombined {
        VerticalComponentCombined { y_min: v.y_min, y_max: v.y_max }
    }

    pub fn new(v: VerticalComponent) -> (c: VerticalComponentCombined)
        ensures
            as_vertical(c) == v,
            c == Self::new_spec(v),
    {
        VerticalComponentCombined { y_min: v.y_min, y_max: v.y_max }
    }

    pub fn distance_to(&self, other: &VerticalComponent) -> (d: u32)
        ensures
            d == gap(as_vertical(*self), *other),
    {
        as_vertical_exec(self).distance_to(other)
    }

    pub fn distance_to_other(&self, other: &VerticalComponentCombined) -> (d: u32)
        ensures
            d == gap(as_vertical(*self), as_vertical(*other)),
    {
        as_vertical_exec(self).distance_to(&as_vertical_exec(other))
    }

    /// The middle row, rounded down.
    pub fn mean(&self) -> (m: u32)
        ensures
            m == (self.y_min + self.y_max) / 2,
    {
        as_vertical_exec(self).mean()
    }

    /// The smallest interval holding all of `new`.
    pub fn merge(new: &Vec<VerticalComponent>) -> (c: VerticalComponentCombined)
        requires
            new@.len() > 0,
            forall|i: int| 0 <= i < new@.len() ==> (#[trigger] new@[i]).wf(),
        ensures
            c.wf(),
            forall|i: int|
                0 <= i < new@.len() ==> c.y_min <= (#[trigger] new@[i]).y_min && new@[i].y_max <= c.y_max,
            exists|i: int| 0 <= i < new@.len() && (#[trigger] new@[i]).y_min == c.y_min,
            exists|i: int| 0 <= i < new@.len() && (#[trigger] new@[i]).y_max == c.y_max,
            c == hull_of(new@),
    {
        let mut y_min = new[0].y_min;
        let mut y_max = new[0].y_max;
        let mut i: usize = 1;
        while i < new.len()
            invariant
                1 <= i <= new@.len(),
                forall|j: int| 0 <= j < new@.len() ==> (#[trigger] new@[j]).wf(),
                y_min <= y_max,
                forall|j: int| 0 <= j < i ==> y_min <= (#[trigger] new@[j]).y_min && new@[j].y_max <= y_max,
                exists|j: int| 0 <= j < i && (#[trigger] new@[j]).y_min == y_min,
                exists|j: int| 0 <= j < i && (#[trigger] new@[j]).y_max == y_max,
                y_min == low_of(new@, i as int),
                y_max == high_of(new@, i as int),
            decreases new@.len() - i,
        {
            if new[i].y_min < y_min {
                y_min = new[i].y_min;
            }
            if new[i].y_max > y_max {
                y_max = new[i].y_max;
            }
            i = i + 1;
        }
        VerticalComponentCombined { y_min, y_max }
    }

    /// The smallest interval holding both.
    pub fn combine(self, other: VerticalComponentCombined) -> (c: VerticalComponentCombined)
        ensures
            c == hull(self, other),
    {
        let y_min = if self.y_min <= other.y_min {
            self.y_min
        } else {
            other.y_min
        };
        let y_max = if self.y_max >= other.y_max {
            self.y_max
        } else {
            other.y_max
        };
        VerticalComponentCombined { y_min, y_max }
    }

    pub fn convert(self) -> (v: VerticalComponent)
        ensures
            v == as_vertical(self),
    {
        VerticalComponent { y_min: self.y_min, y_max: self.y_max }
    }
}

fn as_vertical_exec(c: &VerticalComponentCombined) -> (v: VerticalComponent)
    ensures
        v == as_vertical(*c),
{
    VerticalComponent { y_min: c.y_min, y_max: c.y_max }
}

/// A horizontal strip of merged loose runs, one per column from `x_start` on.
pub struct CombinedVerticals {
    pub x_start: X,
    pub combined: Vec<VerticalComponentCombined>,
}

/// The interval of strip `s` at column `c`, if the strip reaches it.
pub open spec fn strip_at(s: CombinedVerticals, c: int) -> Option<VerticalComponentCombined> {
    if s.x_start.0 <= c < s.x_start.0 + s.combined@.len() {
        Some(s.combined@[c - s.x_start.0])
    } else {
        None
    }
}

pub open spec fn join(
    a: Option<VerticalComponentCombined>,
    b: Option<VerticalComponentCombined>,
) -> Option<VerticalComponentCombined> {
    match (a, b) {
        (Some(p), Some(q)) => Some(hull(p, q)),
        (Some(p), None) => Some(p),
        (None, q) => q,
    }
}

/// The offset-plus-gap distance between column `i` of `a` and column `j` of `b`.
pub open spec fn strip_pair_distance(a: CombinedVerticals, b: CombinedVerticals, i: int, j: int) -> int {
    let ca = a.x_start.0 + i;
    let cb = b.x_start.0 + j;
    (if ca >= cb { ca - cb } else { cb - ca }) + gap(as_vertical(a.combined@[i]), as_vertical(b.combined@[j]))
}

/// Two strips come within `STRIP_MERGE_DISTANCE` of each other.
pub open spec fn strips_touch(a: CombinedVerticals, b: CombinedVerticals) -> bool {
    exists|i: int, j: int|
        0 <= i < a.combined@.len() && 0 <= j < b.combined@.len() && #[trigger] strip_pair_distance(a, b, i, j) <= STRIP_MERGE_DISTANCE
}

impl CombinedVerticals {
    pub open spec fn wf(&self, width: int) -> bool {
        &&& self.combined@.len() > 0
        &&& self.x_start.0 + self.combined@.len() <= width
        &&& forall|i: int| 0 <= i < self.combined@.len() ==> (#[trigger] self.combined@[i]).wf()
    }

    pub open spec fn end(&self) -> int {
        self.x_start.0 + self.combined@.len()
    }

    /// Whether some column of `self` lies within `STRIP_MERGE_DISTANCE` of some column of `other`.
    pub fn distance_to(&self, other: &Self) -> (r: bool)
        requires
            self.end() <= u32::MAX,
            other.end() <= u32::MAX,
        ensures
            r == strips_touch(*self, *other),
    {
        let mut i: usize = 0;
        while i < self.combined.len()
            invariant
                self.end() <= u32::MAX,
                other.end() <= u32::MAX,
                i <= self.combined@.len(),
                forall|ii: int, j: int|
                    0 <= ii < i && 0 <= j < other.combined@.len() ==> #[trigger] strip_pair_distance(
                        *self,
                        *other,
                        ii,
                        j,
                    ) > 1,
            decreases self.combined@.len() - i,
        {
            let mut j: usize = 0;
            while j < other.combined.len()
                invariant
                    self.end() <= u32::MAX,
                    other.end() <= u32::MAX,
                    i < self.combined@.len(),
                    j <= other.combined@.len(),
                    forall|ii: int, jj: int|
                        0 <= ii < i && 0 <= jj < other.combined@.len() ==> #[trigger] strip_pair_distance(
                            *self,
                            *other,
                            ii,
                            jj,
                        ) > 1,
                    forall|jj: int|
                        0 <= jj < j ==> #[trigger] strip_pair_distance(*self, *other, i as int, jj) > 1,
                decreases other.combined@.len() - j,
            {
                let ca: u32 = self.x_start.0 + i as u32;
                let cb: u32 = other.x_start.0 + j as u32;
                let dx: u32 = if ca >= cb {
                    ca - cb
                } else {
                    cb - ca
                };
                let dy = self.combined[i].distance_to_other(&other.combined[j]);
                if dx <= STRIP_MERGE_DISTANCE && dy <= STRIP_MERGE_DISTANCE - dx {
                    assert(strip_pair_distance(*self, *other, i as int, j as int) <= STRIP_MERGE_DISTANCE);
                    return true;
                }
                j = j + 1;
            }
            i = i + 1;
        }
        false
    }

    /// Merges `other` into `self`; the two strips must overlap or touch in columns.
    pub fn merge(&mut self, other: CombinedVerticals)
        requires
            old(self).x_start.0 <= other.end(),
            other.x_start.0 <= old(self).end(),
            old(self).end() <= u32::MAX,
            other.end() <= u32::MAX,
        ensures
            final(self).x_start.0 == if old(self).x_start.0 <= other.x_start.0 {
                old(self).x_start.0
            } else {
                other.x_start.0
            },
            final(self).end() == if old(self).end() >= other.end() {
                old(self).end()
            } else {
                other.end()
            },
            forall|c: int| #[trigger] strip_at(*final(self), c) == join(strip_at(*old(self), c), strip_at(other, c)),
            strip_view(*final(self)) == merge_views(strip_view(*old(self)), strip_view(other)),
    {
        let start: u32 = if self.x_start.0 <= other.x_start.0 {
            self.x_start.0
        } else {
            other.x_start.0
        };
        let self_end: u32 = self.x_start.0 + self.combined.len() as u32;
        let other_end: u32 = other.x_start.0 + other.combined.len() as u32;
        let end: u32 = if self_end >= other_end {
            self_end
        } else {
            other_end
        };
        let mut combined: Vec<VerticalComponentCombined> = Vec::new();
        let mut c: u32 = start;
        while c < end
            invariant
                start <= c <= end,
                self_end == self.end(),
                other_end == other.end(),
                start == if self.x_start.0 <= other.x_start.0 { self.x_start.0 } else { other.x_start.0 },
                end == if self_end >= other_end { self_end } else { other_end },
                self.x_start.0 <= other.end(),
                other.x_start.0 <= self.end(),
                combined@.len() == c - start,
                forall|k: int|
                    start <= k < c ==> Some(#[trigger] combined@[k - start]) == join(
                        strip_at(*self, k),
                        strip_at(other, k),
                    ),
            decreases end - c,
        {
            let in_self = self.x_start.0 <= c && c < self_end;
            let in_other = other.x_start.0 <= c && c < other_end;
            if in_self && in_other {
                let a = self.combined[(c - self.x_start.0) as usize];
                let b = other.combined[(c - other.x_start.0) as usize];
                combined.push(a.combine(b));
            } else if in_self {
                combined.push(self.combined[(c - self.x_start.0) as usize]);
            } else {
                combined.push(other.combined[(c - other.x_start.0) as usize]);
            }
            proof {
                assert(combined@[c - start] == combined@.last());
            }
            c = c + 1;
        }
        self.x_start = X(start);
        self.combined = combined;
        proof {
            assert forall|k: int| #[trigger] strip_at(*self, k) == join(strip_at(*old(self), k), strip_at(other, k)) by {
                if start <= k < end {
                    assert(Some(combined@[k - start]) == join(strip_at(*old(self), k), strip_at(other, k)));
                }
            }
            let mv = merge_views(strip_view(*old(self)), strip_view(other));
            assert forall|i: int| 0 <= i < combined@.len() implies #[trigger] combined@[i] == mv.1[i] by {
                let k = start + i;
                assert(Some(combined@[k - start]) == join(strip_at(*old(self), k), strip_at(other, k)));
                assert(strip_at(*old(self), k) == view_at(strip_view(*old(self)), k));
                assert(strip_at(other, k) == view_at(strip_view(other), k));
            }
            assert(combined@ =~= mv.1);
        }
    }
}

/// A range `[start, end)` of columns that all hold `count` runs.
#[derive(Clone, Copy, Debug, PartialEq, Eq, Structural)]
pub struct Range {
    pub start: X,
    pub end: X,
    pub count: usize,
}

/// All counts of `[s, e)` equal that of column `s`.
pub open spec fn constant_on(c: Seq<usize>, s: int, e: int) -> bool {
    forall|x: int| s <= x < e ==> #[trigger] c[x] == c[s]
}

/// `[s, e)` is a maximal range of constant count.
pub open spec fn is_block(c: Seq<usize>, s: int, e: int) -> bool {
    &&& 0 <= s < e <= c.len()
    &&& constant_on(c, s, e)
    &&& s == 0 || c[s - 1] != c[s]
    &&& e == c.len() || c[e] != c[s]
}

/// A maximal range is wide enough to be kept; a trailing range of empty columns never is.
pub open spec fn qualifies(c: Seq<usize>, s: int, e: int, min_width: int) -> bool {
    e - s >= min_width && (e == c.len() ==> c[s] > 0)
}

/// `ranges` lists, left to right, exactly the maximal constant-count ranges of `c`
/// that qualify.
pub open spec fn stable_ranges(c: Seq<usize>, min_width: int, ranges: Seq<Range>) -> bool {
    &&& forall|k: int|
        0 <= k < ranges.len() ==> is_block(c, (#[trigger] ranges[k]).start.0 as int, ranges[k].end.0 as int)
            && qualifies(c, ranges[k].start.0 as int, ranges[k].end.0 as int, min_width)
            && ranges[k].count == c[ranges[k].start.0 as int]
    &&& forall|k: int, l: int| 0 <= k < l < ranges.len() ==> (#[trigger] ranges[k]).end.0 <= (#[trigger] ranges[l]).start.0
    &&& forall|s: int, e: int|
        #[trigger] is_block(c, s, e) && qualifies(c, s, e, min_width) ==> exists|k: int|
            0 <= k < ranges.len() && (#[trigger] ranges[k]).start.0 == s && ranges[k].end.0 == e
}

proof fn lemma_block_unique(c: Seq<usize>, sx: int, i: int, s: int, e: int)
    requires
        0 <= sx < i <= c.len(),
        constant_on(c, sx, i),
        sx == 0 || c[sx - 1] != c[sx],
        i == c.len() || c[i] != c[sx],
        is_block(c, s, e),
        sx < e <= i,
    ensures
        s == sx && e == i,
{
    if s < sx {
        assert(c[sx - 1] == c[s]);
        assert(c[sx] == c[s]);
    } else if s > sx {
        assert(c[s - 1] == c[sx]);
        assert(c[s] == c[sx]);
    }
    if e < i {
        assert(c[e] == c[sx]);
    }
}

/// The maximal ranges of constant count of `c` at least `min_width` wide, left to
/// right; a trailing range of empty columns is left out.
pub fn find_long_components(c: &Vec<usize>, min_width: u32) -> (ranges: Vec<Range>)
    requires
        c@.len() <= u32::MAX,
    ensures
        stable_ranges(c@, min_width as int, ranges@),
{
    let mut ranges: Vec<Range> = Vec::new();
    let w = c.len();
    if w == 0 {
        return ranges;
    }
    let mut sx: usize = 0;
    let mut i: usize = 1;
    while i < w
        invariant
            w == c@.len(),
            w <= u32::MAX,
            0 <= sx < i <= w,
            constant_on(c@, sx as int, i as int),
            sx == 0 || c@[sx - 1] != c@[sx as int],
            forall|k: int|
                0 <= k < ranges@.len() ==> is_block(c@, (#[trigger] ranges@[k]).start.0 as int, ranges@[k].end.0 as int)
                    && qualifies(c@, ranges@[k].start.0 as int, ranges@[k].end.0 as int, min_width as int)
                    && ranges@[k].count == c@[ranges@[k].start.0 as int] && ranges@[k].end.0 <= sx,
            forall|k: int, l: int| 0 <= k < l < ranges@.len() ==> (#[trigger] ranges@[k]).end.0 <= (#[trigger] ranges@[l]).start.0,
            forall|s: int, e: int|
                #[trigger] is_block(c@, s, e) && qualifies(c@, s, e, min_width as int) && e <= sx ==> exists|k: int|
                    0 <= k < ranges@.len() && (#[trigger] ranges@[k]).start.0 == s && ranges@[k].end.0 == e,
        decreases w - i,
    {
        if c[i] != c[sx] {
            let ghost old_ranges = ranges@;
            if i - sx >= min_width as usize {
                let r = Range { start: X(sx as u32), end: X(i as u32), count: c[sx] };
                ranges.push(r);
                proof {
                    assert(ranges@[ranges@.len() - 1] == r);
                }
            }
            proof {
                assert forall|s: int, e: int|
                    #[trigger] is_block(c@, s, e) && qualifies(c@, s, e, min_width as int) && e <= i implies exists|k: int|
                        0 <= k < ranges@.len() && (#[trigger] ranges@[k]).start.0 == s && ranges@[k].end.0 == e by {
                    if e <= sx {
                        let k = choose|k: int| 0 <= k < old_ranges.len() && (#[trigger] old_ranges[k]).start.0 == s && old_ranges[k].end.0 == e;
                        assert(ranges@[k] == old_ranges[k]);
                    } else {
                        lemma_block_unique(c@, sx as int, i as int, s, e);
                        assert(ranges@[ranges@.len() - 1].start.0 == s);
                    }
                }
                assert(is_block(c@, sx as int, i as int));
            }
            sx = i;
        }
        i = i + 1;
    }
    let ghost old_ranges = ranges@;
    if c[sx] > 0 && w - sx >= min_width as usize {
        let r = Range { start: X(sx as u32), end: X(w as u32), count: c[sx] };
        ranges.push(r);
        proof {
            assert(ranges@[ranges@.len() - 1] == r);
        }
    }
    proof {
        assert(is_block(c@, sx as int, w as int));
        assert forall|s: int, e: int|
            #[trigger] is_block(c@, s, e) && qualifies(c@, s, e, min_width as int) implies exists|k: int|
                0 <= k < ranges@.len() && (#[trigger] ranges@[k]).start.0 == s && ranges@[k].end.0 == e by {
            if e <= sx {
                let k = choose|k: int| 0 <= k < old_ranges.len() && (#[trigger] old_ranges[k]).start.0 == s && old_ranges[k].end.0 == e;
                assert(ranges@[k] == old_ranges[k]);
            } else {
                lemma_block_unique(c@, sx as int, w as int, s, e);
                assert(ranges@[ranges@.len() - 1].start.0 == s);
            }
        }
    }
    ranges
}

/// The number of tracks that the first `k` ranges give.
pub open spec fn offset(ranges: Seq<Range>, k: int) -> int
    decreases k,
{
    if k <= 0 {
        0
    } else {
        offset(ranges, k - 1) + ranges[k - 1].count
    }
}

/// The cell of column `x` of the track for run position `j` of range `r`.
pub open spec fn track_cell(cols: Seq<VerticalComponents>, r: Range, j: int, x: int) -> Seq<VerticalComponent> {
    if r.start.0 <= x < r.end.0 {
        seq![cols[x].components@[j]]
    } else {
        Seq::<VerticalComponent>::empty()
    }
}

/// Track `g` holds, within range `r`, the `j`-th run of each column of `cols` and nothing elsewhere.
pub open spec fn is_track_of(g: GraphMultiNode, cols: Seq<VerticalComponents>, r: Range, j: int) -> bool {
    &&& g.ys@.len() == cols.len()
    &&& forall|x: int|
        0 <= x < cols.len() ==> #[trigger] col(g, x) == track_cell(cols, r, j, x)
}

/// Column `x` lies in one of `ranges`.
pub open spec fn in_ranges(ranges: Seq<Range>, x: int) -> bool {
    exists|k: int| 0 <= k < ranges.len() && (#[trigger] ranges[k]).start.0 <= x < ranges[k].end.0
}

/// Every column of every range holds exactly the range's count of runs.
pub open spec fn ranges_fit(ranges: Seq<Range>, cols: Seq<VerticalComponents>) -> bool {
    forall|k: int|
        0 <= k < ranges.len() ==> (#[trigger] ranges[k]).start.0 < ranges[k].end.0 <= cols.len() && forall|x: int|
            ranges[k].start.0 <= x < ranges[k].end.0 ==> (#[trigger] cols[x]).components@.len() == ranges[k].count
}

impl VerticalComponentList {
    fn build_track(&self, r: Range, j: usize) -> (g: GraphMultiNode)
        requires
            r.start.0 < r.end.0 <= self.components@.len(),
            forall|x: int| r.start.0 <= x < r.end.0 ==> j < (#[trigger] self.components@[x]).components@.len(),
        ensures
            is_track_of(g, self.components@, r, j as int),
    {
        let n = self.components.len();
        let mut ys: Vec<MultiNode> = Vec::new();
        let mut x: usize = 0;
        while x < n
            invariant
                n == self.components@.len(),
                r.start.0 < r.end.0 <= n,
                forall|x: int| r.start.0 <= x < r.end.0 ==> j < (#[trigger] self.components@[x]).components@.len(),
                x <= n,
                ys@.len() == x,
                forall|y: int| 0 <= y < x ==> #[trigger] ys@[y].verticals@ == track_cell(self.components@, r, j as int, y),
            decreases n - x,
        {
            let ghost before = ys@;
            if r.start.0 as usize <= x && x < r.end.0 as usize {
                ys.push(MultiNode::new(self.components[x].components[j]));
            } else {
                ys.push(MultiNode::empty());
            }
            proof {
                assert forall|y: int| 0 <= y < x implies #[trigger] ys@[y] == before[y] by {}
                assert(ys@[x as int].verticals@ == track_cell(self.components@, r, j as int, x as int));
            }
            x = x + 1;
        }
        GraphMultiNode { ys }
    }

    fn in_any_range(ranges: &Vec<Range>, x: usize) -> (r: bool)
        ensures
            r == in_ranges(ranges@, x as int),
    {
        let mut k: usize = 0;
        while k < ranges.len()
            invariant
                k <= ranges@.len(),
                forall|l: int| 0 <= l < k ==> !((#[trigger] ranges@[l]).start.0 <= x < ranges@[l].end.0),
            decreases ranges@.len() - k,
        {
            if ranges[k].start.0 as usize <= x && x < ranges[k].end.0 as usize {
                assert(ranges@[k as int].start.0 <= x < ranges@[k as int].end.0);
                return true;
            }
            k = k + 1;
        }
        false
    }

    /// Makes `count` tracks for each range, the `j`-th holding the `j`-th run of
    /// each column of the range, and takes those runs out of the list.
#[verifier::rlimit(40)]
    pub fn extract_components(&mut self, ranges: &Vec<Range>) -> (tracks: Vec<GraphMultiNode>)
        requires
            ranges_fit(ranges@, old(self).components@),
        ensures
            tracks@.len() == offset(ranges@, ranges@.len() as int),
            forall|k: int, j: int|
                0 <= k < ranges@.len() && 0 <= j < ranges@[k].count ==> is_track_of(
                    #[trigger] tracks@[offset(ranges@, k) + j],
                    old(self).components@,
                    ranges@[k],
                    j,
                ),
            final(self).components@.len() == old(self).components@.len(),
            forall|x: int|
                0 <= x < old(self).components@.len() ==> (#[trigger] final(self).components@[x]).components@ == if in_ranges(ranges@, x) {
                    Seq::<VerticalComponent>::empty()
                } else {
                    old(self).components@[x].components@
                },
    {
        let mut tracks: Vec<GraphMultiNode> = Vec::new();
        let mut k: usize = 0;
        while k < ranges.len()
            invariant
                ranges_fit(ranges@, self.components@),
                k <= ranges@.len(),
                tracks@.len() == offset(ranges@, k as int),
                forall|kk: int, j: int|
                    0 <= kk < k && 0 <= j < ranges@[kk].count ==> is_track_of(
                        #[trigger] tracks@[offset(ranges@, kk) + j],
                        self.components@,
                        ranges@[kk],
                        j,
                    ),
            decreases ranges@.len() - k,
        {
            let r = ranges[k];
            let mut j: usize = 0;
            while j < r.count
                invariant
                    ranges_fit(ranges@, self.components@),
                    k < ranges@.len(),
                    r == ranges@[k as int],
                    j <= r.count,
                    tracks@.len() == offset(ranges@, k as int) + j,
                    forall|kk: int, jj: int|
                        ((0 <= kk < k && 0 <= jj < ranges@[kk].count) || (kk == k && 0 <= jj < j)) ==> is_track_of(
                            #[trigger] tracks@[offset(ranges@, kk) + jj],
                            self.components@,
                            ranges@[kk],
                            jj,
                        ),
                decreases r.count - j,
            {
                assert(forall|x: int| r.start.0 <= x < r.end.0 ==> j < (#[trigger] self.components@[x]).components@.len());
                let g = self.build_track(r, j);
                let ghost before = tracks@;
                tracks.push(g);
                proof {
                    assert forall|kk: int, jj: int|
                        ((0 <= kk < k && 0 <= jj < ranges@[kk].count) || (kk == k && 0 <= jj <= j)) implies is_track_of(
                            #[trigger] tracks@[offset(ranges@, kk) + jj],
                            self.components@,
                            ranges@[kk],
                            jj,
                        ) by {
                        if kk < k {
                            lemma_offset_mono(ranges@, kk + 1, k as int);
                            assert(offset(ranges@, kk + 1) == offset(ranges@, kk) + ranges@[kk].count);
                            lemma_offset_mono(ranges@, 0, kk);
                            assert(tracks@[offset(ranges@, kk) + jj] == before[offset(ranges@, kk) + jj]);
                        } else if jj < j {
                            lemma_offset_mono(ranges@, 0, kk);
                            assert(tracks@[offset(ranges@, kk) + jj] == before[offset(ranges@, kk) + jj]);
                        }
                    }
                }
                j = j + 1;
            }
            k = k + 1;
        }
        let ghost old_components = self.components@;
        let n = self.components.len();
        let mut x: usize = 0;
        while x < n
            invariant
                n == self.components@.len(),
                n == old_components.len(),
                x <= n,
                forall|y: int|
                    0 <= y < n ==> (#[trigger] self.components@[y]).components@ == if y < x && in_ranges(ranges@, y) {
                        Seq::<VerticalComponent>::empty()
                    } else {
                        old_components[y].components@
                    },
            decreases n - x,
        {
            if Self::in_any_range(ranges, x) {
                self.components[x] = VerticalComponents { components: Vec::new() };
            }
            x = x + 1;
        }
        tracks
    }
}

proof fn lemma_offset_mono(ranges: Seq<Range>, a: int, b: int)
    requires
        0 <= a <= b <= ranges.len(),
    ensures
        offset(ranges, a) <= offset(ranges, b),
    decreases b - a,
{
    if a < b {
        lemma_offset_mono(ranges, a, b - 1);
    }
}

/// `o` is an interval that holds `v`.
pub open spec fn holds_at(o: Option<VerticalComponentCombined>, v: VerticalComponent) -> bool {
    match o {
        Some(c) => c.y_min <= v.y_min && v.y_max <= c.y_max,
        None => false,
    }
}

/// Some strip of `strips` holds run `v` of column `x`.
pub open spec fn held(strips: Seq<CombinedVerticals>, x: int, v: VerticalComponent) -> bool {
    exists|k: int| 0 <= k < strips.len() && holds_at(strip_at(#[trigger] strips[k], x), v)
}

/// Run `v` of column `x` is still loose in `cols` or held by one of `strips`.
pub open spec fn accounted(
    cols: Seq<VerticalComponents>,
    strips: Seq<CombinedVerticals>,
    x: int,
    v: VerticalComponent,
) -> bool {
    cols[x].components@.contains(v) || held(strips, x, v)
}

/// The number of runs in the first `n` columns.
pub open spec fn total_runs(cols: Seq<VerticalComponents>, n: int) -> int
    decreases n,
{
    if n <= 0 {
        0
    } else {
        total_runs(cols, n - 1) + cols[n - 1].components@.len()
    }
}

proof fn lemma_total_update(cols: Seq<VerticalComponents>, x: int, c: VerticalComponents, n: int)
    requires
        0 <= x < cols.len(),
        0 <= n <= cols.len(),
    ensures
        total_runs(cols.update(x, c), n) == if x < n {
            total_runs(cols, n) - cols[x].components@.len() + c.components@.len()
        } else {
            total_runs(cols, n)
        },
    decreases n,
{
    if n > 0 {
        lemma_total_update(cols, x, c, n - 1);
    }
}

proof fn lemma_total_nonneg(cols: Seq<VerticalComponents>, n: int)
    ensures
        total_runs(cols, n) >= 0,
    decreases n,
{
    if n > 0 {
        lemma_total_nonneg(cols, n - 1);
    }
}

proof fn lemma_join_holds(a: Option<VerticalComponentCombined>, b: Option<VerticalComponentCombined>, v: VerticalComponent)
    requires
        holds_at(a, v) || holds_at(b, v),
    ensures
        holds_at(join(a, b), v),
{
}

proof fn lemma_touch_adjacent(a: CombinedVerticals, b: CombinedVerticals)
    requires
        strips_touch(a, b),
    ensures
        a.x_start.0 <= b.end(),
        b.x_start.0 <= a.end(),
{
    let (i, j) = choose|i: int, j: int|
        0 <= i < a.combined@.len() && 0 <= j < b.combined@.len() && #[trigger] strip_pair_distance(a, b, i, j) <= STRIP_MERGE_DISTANCE;
    assert(gap(as_vertical(a.combined@[i]), as_vertical(b.combined@[j])) >= 0);
}

fn copy_runs(v: &Vec<VerticalComponent>) -> (c: Vec<VerticalComponent>)
    ensures
        c@ == v@,
{
    let mut c: Vec<VerticalComponent> = Vec::new();
    let mut i: usize = 0;
    while i < v.len()
        invariant
            i <= v@.len(),
            c@ == v@.subrange(0, i as int),
        decreases v@.len() - i,
    {
        c.push(v[i]);
        i = i + 1;
        proof {
            assert(c@ =~= v@.subrange(0, i as int));
        }
    }
    proof {
        assert(c@ =~= v@);
    }
    c
}

/// Splits `column` into the runs within `STRIP_MERGE_DISTANCE` of `last` and the others, keeping order.
fn split_near(last: &VerticalComponentCombined, column: &Vec<VerticalComponent>) -> (res: (Vec<VerticalComponent>, Vec<VerticalComponent>))
    ensures
        res.0@.len() + res.1@.len() == column@.len(),
        forall|i: int|
            0 <= i < column@.len() ==> if gap(as_vertical(*last), #[trigger] column@[i]) <= STRIP_MERGE_DISTANCE {
                res.0@.contains(column@[i])
            } else {
                res.1@.contains(column@[i])
            },
        forall|i: int| 0 <= i < res.0@.len() ==> column@.contains(#[trigger] res.0@[i]),
        forall|i: int| 0 <= i < res.1@.len() ==> column@.contains(#[trigger] res.1@[i]),
        res.0@ == near_runs(*last, column@),
        res.1@ == rest_runs(*last, column@),
{
    let mut near: Vec<VerticalComponent> = Vec::new();
    let mut rest: Vec<VerticalComponent> = Vec::new();
    let mut i: usize = 0;
    while i < column.len()
        invariant
            i <= column@.len(),
            near@.len() + rest@.len() == i,
            forall|k: int|
                0 <= k < i ==> if gap(as_vertical(*last), #[trigger] column@[k]) <= STRIP_MERGE_DISTANCE {
                    near@.contains(column@[k])
                } else {
                    rest@.contains(column@[k])
                },
            forall|k: int| 0 <= k < near@.len() ==> column@.contains(#[trigger] near@[k]),
            forall|k: int| 0 <= k < rest@.len() ==> column@.contains(#[trigger] rest@[k]),
            near@ == near_runs(*last, column@.subrange(0, i as int)),
            rest@ == rest_runs(*last, column@.subrange(0, i as int)),
        decreases column@.len() - i,
    {
        proof {
            let next = column@.subrange(0, i as int + 1);
            assert(next.drop_last() =~= column@.subrange(0, i as int));
            assert(next.last() == column@[i as int]);
        }
        let v = column[i];
        let ghost n0 = near@;
        let ghost r0 = rest@;
        if last.distance_to(&v) <= STRIP_MERGE_DISTANCE {
            near.push(v);
            proof {
                assert(near@[near@.len() - 1] == v);
                assert forall|k: int| 0 <= k < n0.len() implies near@[k] == n0[k] by {}
            }
        } else {
            rest.push(v);
            proof {
                assert(rest@[rest@.len() - 1] == v);
                assert forall|k: int| 0 <= k < r0.len() implies rest@[k] == r0[k] by {}
            }
        }
        proof {
            assert(column@.contains(v)) by {
                assert(column@[i as int] == v);
            }
            assert forall|k: int|
                0 <= k <= i implies if gap(as_vertical(*last), #[trigger] column@[k]) <= STRIP_MERGE_DISTANCE {
                    near@.contains(column@[k])
                } else {
                    rest@.contains(column@[k])
                } by {
                if k < i {
                    if gap(as_vertical(*last), column@[k]) <= STRIP_MERGE_DISTANCE {
                        let m = choose|m: int| 0 <= m < n0.len() && n0[m] == column@[k];
                        assert(near@[m] == n0[m]);
                    } else {
                        let m = choose|m: int| 0 <= m < r0.len() && r0[m] == column@[k];
                        assert(rest@[m] == r0[m]);
                    }
                } else {
                    if gap(as_vertical(*last), column@[k]) <= STRIP_MERGE_DISTANCE {
                        assert(near@[near@.len() - 1] == column@[k]);
                    } else {
                        assert(rest@[rest@.len() - 1] == column@[k]);
                    }
                }
            }
        }
        i = i + 1;
    }
    proof {
        assert(column@.subrange(0, column@.len() as int) =~= column@);
    }
    (near, rest)
}

proof fn lemma_merge_wf(a: CombinedVerticals, b: CombinedVerticals, m: CombinedVerticals, width: int)
    requires
        a.wf(width),
        b.wf(width),
        m.x_start.0 == if a.x_start.0 <= b.x_start.0 { a.x_start.0 } else { b.x_start.0 },
        m.end() == if a.end() >= b.end() { a.end() } else { b.end() },
        forall|c: int| #[trigger] strip_at(m, c) == join(strip_at(a, c), strip_at(b, c)),
    ensures
        m.wf(width),
{
    assert forall|i: int| 0 <= i < m.combined@.len() implies (#[trigger] m.combined@[i]).wf() by {
        let c = m.x_start.0 + i;
        assert(strip_at(m, c) == Some(m.combined@[i]));
        assert(strip_at(m, c) == join(strip_at(a, c), strip_at(b, c)));
        if a.x_start.0 <= c < a.end() {
            assert(a.combined@[c - a.x_start.0].wf());
        }
        if b.x_start.0 <= c < b.end() {
            assert(b.combined@[c - b.x_start.0].wf());
        }
    }
}

proof fn lemma_touch_view(a: CombinedVerticals, b: CombinedVerticals)
    ensures
        strips_touch(a, b) == views_touch(strip_view(a), strip_view(b)),
{
    if strips_touch(a, b) {
        let (i, j) = choose|i: int, j: int|
            0 <= i < a.combined@.len() && 0 <= j < b.combined@.len() && #[trigger] strip_pair_distance(a, b, i, j) <= STRIP_MERGE_DISTANCE;
        assert(view_pair_distance(strip_view(a), strip_view(b), i, j) == strip_pair_distance(a, b, i, j));
    }
    if views_touch(strip_view(a), strip_view(b)) {
        let (i, j) = choose|i: int, j: int|
            0 <= i < a.combined@.len() && 0 <= j < b.combined@.len() && #[trigger] view_pair_distance(strip_view(a), strip_view(b), i, j) <= STRIP_MERGE_DISTANCE;
        assert(view_pair_distance(strip_view(a), strip_view(b), i, j) == strip_pair_distance(a, b, i, j));
    }
}

/// The first strip of `strips` that touches `s`.
fn first_touching(strips: &Vec<CombinedVerticals>, s: &CombinedVerticals, width: usize) -> (r: Option<usize>)
    requires
        width <= u32::MAX,
        s.wf(width as int),
        forall|k: int| 0 <= k < strips@.len() ==> (#[trigger] strips@[k]).wf(width as int),
    ensures
        r matches Some(k) ==> k < strips@.len() && strips_touch(strips@[k as int], *s),
        first_touch(strips_view(strips@), strip_view(*s), 0) == match r {
            Some(k) => k as int,
            None => strips@.len() as int,
        },
{
    let mut k: usize = 0;
    while k < strips.len()
        invariant
            width <= u32::MAX,
            s.wf(width as int),
            forall|k: int| 0 <= k < strips@.len() ==> (#[trigger] strips@[k]).wf(width as int),
            k <= strips@.len(),
            first_touch(strips_view(strips@), strip_view(*s), 0) == first_touch(strips_view(strips@), strip_view(*s), k as int),
        decreases strips@.len() - k,
    {
        proof {
            lemma_touch_view(strips@[k as int], *s);
            assert(strips_view(strips@)[k as int] == strip_view(strips@[k as int]));
        }
        if strips[k].distance_to(s) {
            return Some(k);
        }
        k = k + 1;
    }
    None
}

impl VerticalComponentList {
    /// Gathers the runs left in the list into strips: from the first loose run, a
    /// strip grows rightwards while the next column holds runs within `STRIP_MERGE_DISTANCE`
    /// of its last interval (merged into one interval); each finished strip is
    /// merged into the first earlier strip that it touches, or kept as a new one.
#[verifier::rlimit(40)]
    pub fn combining_horizontally(self) -> (combined: Vec<CombinedVerticals>)
        requires
            self.components@.len() <= u32::MAX,
            forall|x: int, i: int|
                0 <= x < self.components@.len() && 0 <= i < self.components@[x].components@.len()
                    ==> (#[trigger] self.components@[x].components@[i]).wf(),
        ensures
            forall|k: int| 0 <= k < combined@.len() ==> (#[trigger] combined@[k]).wf(self.components@.len() as int),
            forall|x: int, i: int|
                0 <= x < self.components@.len() && 0 <= i < self.components@[x].components@.len() ==> held(
                    combined@,
                    x,
                    #[trigger] self.components@[x].components@[i],
                ),
            (forall|x: int| 0 <= x < self.components@.len() ==> (#[trigger] self.components@[x]).components@.len() == 0)
                ==> combined@.len() == 0,
            gathered(columns_view(self.components@), Seq::empty(), strips_view(combined@)),
    {
        let ghost orig = self.components@;
        let ghost all_empty = forall|x: int| 0 <= x < orig.len() ==> (#[trigger] orig[x]).components@.len() == 0;
        let width = self.components.len();
        let mut cols = self.components;
        let mut combined: Vec<CombinedVerticals> = Vec::new();
        let mut x_offset: usize = 0;
        proof {
            assert(strips_view(combined@) =~= Seq::<(int, Seq<VerticalComponentCombined>)>::empty());
        }
        loop
            invariant
                width == orig.len(),
                width <= u32::MAX,
                cols@.len() == width,
                x_offset <= width,
                forall|x: int| 0 <= x < x_offset ==> (#[trigger] cols@[x]).components@.len() == 0,
                forall|x: int, i: int|
                    0 <= x < width && 0 <= i < cols@[x].components@.len() ==> (#[trigger] cols@[x].components@[i]).wf(),
                forall|k: int| 0 <= k < combined@.len() ==> (#[trigger] combined@[k]).wf(width as int),
                all_empty == (forall|x: int| 0 <= x < orig.len() ==> (#[trigger] orig[x]).components@.len() == 0),
                all_empty ==> combined@.len() == 0 && cols@ == orig,
                forall|x: int, i: int|
                    0 <= x < width && 0 <= i < orig[x].components@.len() ==> accounted(
                        cols@,
                        combined@,
                        x,
                        #[trigger] orig[x].components@[i],
                    ),
                forall|out: Seq<(int, Seq<VerticalComponentCombined>)>|
                    #[trigger] gathered(columns_view(cols@), strips_view(combined@), out) ==> gathered(
                        columns_view(orig),
                        Seq::empty(),
                        out,
                    ),
            ensures
                x_offset == width,
                forall|x: int| 0 <= x < x_offset ==> (#[trigger] cols@[x]).components@.len() == 0,
                all_empty ==> combined@.len() == 0,
                gathered(columns_view(orig), Seq::empty(), strips_view(combined@)),
            decreases total_runs(cols@, width as int),
        {
            while x_offset < width && cols[x_offset].components.len() == 0
                invariant
                    forall|out: Seq<(int, Seq<VerticalComponentCombined>)>|
                        #[trigger] gathered(columns_view(cols@), strips_view(combined@), out) ==> gathered(
                            columns_view(orig),
                            Seq::empty(),
                            out,
                        ),
                    cols@.len() == width,
                    x_offset <= width,
                    forall|x: int| 0 <= x < x_offset ==> (#[trigger] cols@[x]).components@.len() == 0,
                decreases width - x_offset,
            {
                x_offset = x_offset + 1;
            }
            if x_offset == width {
                proof {
                    lemma_first_nonempty_skip(columns_view(cols@), 0, width as int);
                    assert(gathered(columns_view(cols@), strips_view(combined@), strips_view(combined@)));
                }
                break;
            }
            proof {
                lemma_first_nonempty_skip(columns_view(cols@), 0, x_offset as int);
            }
            let ghost cv0 = columns_view(cols@);
            let ghost sv0 = strips_view(combined@);
            proof {
                if all_empty {
                    assert(orig[x_offset as int].components@.len() == 0);
                }
            }
            let x_start = x_offset;
            let ghost t_start = total_runs(cols@, width as int);
            let mut column = copy_runs(&cols[x_start].components);
            let ghost before_col = column@;
            let v = column.pop().unwrap();
            proof {
                assert forall|w: VerticalComponent| before_col.contains(w) implies w == v || column@.contains(w) by {
                    let m = choose|m: int| 0 <= m < before_col.len() && before_col[m] == w;
                    if m < before_col.len() - 1 {
                        assert(column@[m] == w);
                    }
                }
                assert(before_col.contains(v)) by {
                    assert(before_col[before_col.len() - 1] == v);
                }
            }
            let ghost cols0 = cols@;
            let new_col = VerticalComponents { components: column };
            proof {
                lemma_total_update(cols0, x_start as int, new_col, width as int);
            }
            cols[x_start] = new_col;
            let ghost cv1 = columns_view(cols@);
            proof {
                assert(cv1 =~= cv0.update(x_start as int, cv0[x_start as int].drop_last()));
            }
            let mut first: Vec<VerticalComponentCombined> = Vec::new();
            first.push(VerticalComponentCombined::new(v));
            let mut strip = CombinedVerticals { x_start: X(x_start as u32), combined: first };
            proof {
                assert(strip.combined@[0] == VerticalComponentCombined::new_spec(v));
                assert forall|x: int, i: int|
                    0 <= x < width && 0 <= i < orig[x].components@.len() implies accounted(
                        cols@,
                        combined@,
                        x,
                        #[trigger] orig[x].components@[i],
                    ) || holds_at(strip_at(strip, x), orig[x].components@[i]) by {
                    let w = orig[x].components@[i];
                    if x == x_start && cols0[x].components@.contains(w) && !cols@[x].components@.contains(w) {
                        assert(w == v);
                        assert(strip_at(strip, x) == Some(strip.combined@[0]));
                    }
                }
            }
            let mut x: usize = x_start + 1;
            proof {
                assert(strip.combined@ =~= seq![VerticalComponentCombined::new_spec(v)]);
                assert(v == cv0[x_start as int].last());
            }
            while x < width
                invariant
                    grow(cv1, x_start as int + 1, seq![VerticalComponentCombined::new_spec(v)]) == grow(
                        columns_view(cols@),
                        x as int,
                        strip.combined@,
                    ),
                    strip.combined@.len() > 0,
                    width == orig.len(),
                    width <= u32::MAX,
                    cols@.len() == width,
                    x_start == x_offset,
                    x_offset < width,
                    strip.x_start.0 == x_start,
                    strip.end() == x,
                    x_start < x <= width,
                    forall|i: int| 0 <= i < strip.combined@.len() ==> (#[trigger] strip.combined@[i]).wf(),
                    forall|xx: int| 0 <= xx < x_offset ==> (#[trigger] cols@[xx]).components@.len() == 0,
                    forall|xx: int, i: int|
                        0 <= xx < width && 0 <= i < cols@[xx].components@.len() ==> (#[trigger] cols@[xx].components@[i]).wf(),
                    forall|k: int| 0 <= k < combined@.len() ==> (#[trigger] combined@[k]).wf(width as int),
                    forall|xx: int, i: int|
                        0 <= xx < width && 0 <= i < orig[xx].components@.len() ==> accounted(
                            cols@,
                            combined@,
                            xx,
                            #[trigger] orig[xx].components@[i],
                        ) || holds_at(strip_at(strip, xx), orig[xx].components@[i]),
                    total_runs(cols@, width as int) < t_start,
                ensures
                    grow(cv1, x_start as int + 1, seq![VerticalComponentCombined::new_spec(v)]) == (
                        columns_view(cols@),
                        strip.combined@,
                    ),
                decreases width - x,
            {
                let last = strip.combined[strip.combined.len() - 1];
                let column = copy_runs(&cols[x].components);
                let (near, rest) = split_near(&last, &column);
                proof {
                    assert(columns_view(cols@)[x as int] == column@);
                    assert(last == strip.combined@.last());
                }
                if near.len() == 0 {
                    proof {
                        assert(grow(columns_view(cols@), x as int, strip.combined@) == (columns_view(cols@), strip.combined@));
                    }
                    break;
                }
                let ghost cv_before = columns_view(cols@);
                let ghost strip_before = strip.combined@;
                proof {
                    assert forall|i: int| 0 <= i < near@.len() implies (#[trigger] near@[i]).wf() by {
                        let m = choose|m: int| 0 <= m < column@.len() && column@[m] == near@[i];
                    }
                }
                let merged = VerticalComponentCombined::merge(&near);
                let ghost cols1 = cols@;
                let ghost strip1 = strip;
                let new_col = VerticalComponents { components: rest };
                proof {
                    lemma_total_update(cols1, x as int, new_col, width as int);
                }
                cols[x] = new_col;
                strip.combined.push(merged);
                proof {
                    assert(columns_view(cols@) =~= cv_before.update(x as int, rest@));
                    assert(grow(cv_before, x as int, strip_before) == grow(
                        cv_before.update(x as int, rest_runs(last, cv_before[x as int])),
                        x as int + 1,
                        strip_before.push(hull_of(near_runs(last, cv_before[x as int]))),
                    ));
                    assert forall|i: int| 0 <= i < rest@.len() implies (#[trigger] cols@[x as int].components@[i]).wf() by {
                        let m = choose|m: int| 0 <= m < column@.len() && column@[m] == rest@[i];
                    }
                    assert forall|xx: int| #![trigger strip_at(strip, xx)] strip1.x_start.0 <= xx < x ==> strip_at(strip, xx) == strip_at(strip1, xx) by {
                        if strip1.x_start.0 <= xx < x {
                            assert(strip.combined@[xx - x_start] == strip1.combined@[xx - x_start]);
                        }
                    }
                    assert(strip_at(strip, x as int) == Some(merged));
                    assert forall|xx: int, i: int|
                        0 <= xx < width && 0 <= i < orig[xx].components@.len() implies accounted(
                            cols@,
                            combined@,
                            xx,
                            #[trigger] orig[xx].components@[i],
                        ) || holds_at(strip_at(strip, xx), orig[xx].components@[i]) by {
                        let w = orig[xx].components@[i];
                        if xx == x {
                            if cols1[xx].components@.contains(w) && !cols@[xx].components@.contains(w) {
                                let m = choose|m: int| 0 <= m < column@.len() && column@[m] == w;
                                if gap(as_vertical(last), column@[m]) <= STRIP_MERGE_DISTANCE {
                                    let q = choose|q: int| 0 <= q < near@.len() && near@[q] == w;
                                    assert(merged.y_min <= near@[q].y_min && near@[q].y_max <= merged.y_max);
                                } else {
                                    assert(rest@.contains(w));
                                }
                            }
                        } else if strip1.x_start.0 <= xx < x {
                            assert(strip_at(strip, xx) == strip_at(strip1, xx));
                        } else {
                            assert(strip_at(strip1, xx) is None);
                        }
                    }
                    assert forall|i: int| 0 <= i < strip.combined@.len() implies (#[trigger] strip.combined@[i]).wf() by {
                        if i < strip1.combined@.len() {
                            assert(strip.combined@[i] == strip1.combined@[i]);
                        }
                    }
                }
                x = x + 1;
            }
            proof {
                assert(strip.wf(width as int));
                lemma_total_nonneg(cols@, width as int);
                assert(grow(cv1, x_start as int + 1, seq![VerticalComponentCombined::new_spec(v)]) == (columns_view(cols@), strip.combined@));
                lemma_total_view(cols@);
                lemma_total_view(cols0);
                assert(columns_view(cols0) == cv0);
            }
            let ghost combined0 = combined@;
            match first_touching(&combined, &strip, width) {
                Some(k) => {
                    let mut p = combined.remove(k);
                    proof {
                        assert(p == combined0[k as int]);
                        lemma_touch_adjacent(p, strip);
                    }
                    let ghost prior = p;
                    let ghost s0 = strip;
                    p.merge(strip);
                    proof {
                        lemma_merge_wf(prior, s0, p, width as int);
                    }
                    combined.insert(k, p);
                    proof {
                        assert(combined@ =~= combined0.update(k as int, p));
                        assert(strips_view(combined@) =~= sv0.update(k as int, merge_views(sv0[k as int], strip_view(s0))));
                        lemma_gather_link(cv0, sv0, columns_view(cols@), strips_view(combined@), orig, x_start as int, strip_view(s0), v);
                        assert forall|xx: int, i: int|
                            0 <= xx < width && 0 <= i < orig[xx].components@.len() implies accounted(
                                cols@,
                                combined@,
                                xx,
                                #[trigger] orig[xx].components@[i],
                            ) by {
                            let w = orig[xx].components@[i];
                            if held(combined0, xx, w) {
                                let q = choose|q: int| 0 <= q < combined0.len() && holds_at(strip_at(#[trigger] combined0[q], xx), w);
                                if q == k {
                                    lemma_join_holds(strip_at(prior, xx), strip_at(s0, xx), w);
                                    assert(strip_at(combined@[q], xx) == join(strip_at(prior, xx), strip_at(s0, xx)));
                                } else {
                                    assert(combined@[q] == combined0[q]);
                                }
                            } else if holds_at(strip_at(s0, xx), w) {
                                lemma_join_holds(strip_at(prior, xx), strip_at(s0, xx), w);
                                assert(strip_at(combined@[k as int], xx) == join(strip_at(prior, xx), strip_at(s0, xx)));
                            }
                        }
                    }
                },
                None => {
                    let ghost s0 = strip;
                    combined.push(strip);
                    proof {
                        assert(strips_view(combined@) =~= sv0.push(strip_view(s0)));
                        lemma_gather_link(cv0, sv0, columns_view(cols@), strips_view(combined@), orig, x_start as int, strip_view(s0), v);
                        assert forall|xx: int, i: int|
                            0 <= xx < width && 0 <= i < orig[xx].components@.len() implies accounted(
                                cols@,
                                combined@,
                                xx,
                                #[trigger] orig[xx].components@[i],
                            ) by {
                            let w = orig[xx].components@[i];
                            if held(combined0, xx, w) {
                                let q = choose|q: int| 0 <= q < combined0.len() && holds_at(strip_at(#[trigger] combined0[q], xx), w);
                                assert(combined@[q] == combined0[q]);
                            } else if holds_at(strip_at(s0, xx), w) {
                                assert(combined@[combined@.len() - 1] == s0);
                            }
                        }
                    }
                },
            }
        }
        proof {
            assert forall|x: int, i: int|
                0 <= x < width && 0 <= i < orig[x].components@.len() implies held(
                    combined@,
                    x,
                    #[trigger] orig[x].components@[i],
                ) by {
                assert(accounted(cols@, combined@, x, orig[x].components@[i]));
                assert(cols@[x].components@.len() == 0);
            }
        }
        combined
    }
}

/// Row `y` of column `x` lies in an interval of some track or of some strip.
pub open spec fn pixel_claimed(tracks: Seq<GraphMultiNode>, strips: Seq<CombinedVerticals>, x: int, y: int) -> bool {
    (exists|t: int, i: int|
        0 <= t < tracks.len() && 0 <= i < col(tracks[t], x).len() && (#[trigger] col(tracks[t], x)[i]).contains(y))
        || (exists|k: int|
        0 <= k < strips.len() && row_in(strip_at(#[trigger] strips[k], x), y))
}

/// `o` is an interval that holds row `y`.
pub open spec fn row_in(o: Option<VerticalComponentCombined>, y: int) -> bool {
    match o {
        Some(c) => c.y_min <= y <= c.y_max,
        None => false,
    }
}

/// The minimum width of a stable range: the fraction `f` of `width`, rounded down.
pub open spec fn min_width_of(width: u32, f: UnitInterval) -> int {
    (width as int * f.num as int) / f.den as int
}

/// The number of runs of each column.
pub open spec fn run_counts(cols: Seq<VerticalComponents>) -> Seq<usize> {
    Seq::new(cols.len(), |x: int| cols[x].components@.len() as usize)
}

/// `tracks` and `strips` are the tracks and strips of `image`: `cols` are the
/// runs of its columns, `ranges` the ranges of constant run count at least
/// `min_width` wide, each range gives one track per run position, and the runs
/// of the other columns are gathered into the strips.
#[verifier::opaque]
pub open spec fn grouping_of(
    image: Mask,
    min_width: int,
    ranges: Seq<Range>,
    cols: Seq<VerticalComponents>,
    tracks: Seq<GraphMultiNode>,
    strips: Seq<CombinedVerticals>,
) -> bool {
    &&& cols.len() == image.width
    &&& forall|x: int| 0 <= x < image.width ==> column_runs_spec(image, x, #[trigger] cols[x].components@)
    &&& stable_ranges(run_counts(cols), min_width, ranges)
    &&& tracks.len() == offset(ranges, ranges.len() as int)
    &&& forall|k: int, j: int|
        0 <= k < ranges.len() && 0 <= j < ranges[k].count ==> is_track_of(
            #[trigger] tracks[offset(ranges, k) + j],
            cols,
            ranges[k],
            j,
        )
    &&& gathered(leftover_view(cols, ranges), Seq::empty(), strips_view(strips))
}

/// The runs of the columns that no range covers; the covered columns are empty.
pub open spec fn leftover_view(cols: Seq<VerticalComponents>, ranges: Seq<Range>) -> Seq<Seq<VerticalComponent>> {
    Seq::new(
        cols.len(),
        |x: int|
            if in_ranges(ranges, x) {
                Seq::<VerticalComponent>::empty()
            } else {
                cols[x].components@
            },
    )
}

/// Every column `x` of `m` holds exactly one hit, at row `rows[x]`, and there is
/// at least one column.
pub open spec fn single_pixel_curve(m: Mask, rows: Seq<u32>) -> bool {
    &&& m.width > 0
    &&& rows.len() == m.width
    &&& forall|x: int| 0 <= x < m.width ==> #[trigger] rows[x] < m.height
    &&& forall|x: int, y: int| 0 <= x < m.width && 0 <= y < m.height ==> (#[trigger] m.hit(x, y) <==> y == rows[x])
}

/// The one-pixel run at row `y`.
pub open spec fn pixel_run(y: u32) -> VerticalComponent {
    VerticalComponent { y_min: y, y_max: y }
}

proof fn lemma_single_runs(m: Mask, rows: Seq<u32>, x: int, runs: Seq<VerticalComponent>)
    requires
        single_pixel_curve(m, rows),
        0 <= x < m.width,
        column_runs_spec(m, x, runs),
    ensures
        runs == seq![pixel_run(rows[x])],
{
    let r = rows[x] as int;
    assert(m.hit(x, r));
    assert(covered(runs, r));
    let i = choose|i: int| 0 <= i < runs.len() && (#[trigger] runs[i]).contains(r);
    assert forall|j: int| 0 <= j < runs.len() implies #[trigger] runs[j] == pixel_run(rows[x]) by {
        assert(runs[j].y_min < m.height);
        assert(m.hit(x, runs[j].y_min as int));
        assert(m.hit(x, runs[j].y_max as int));
    }
    if runs.len() > 1 {
        assert(runs[0].y_max < runs[1].y_min);
    }
    assert(runs =~= seq![pixel_run(rows[x])]);
}

proof fn lemma_constant_range(c: Seq<usize>, min_width: int, ranges: Seq<Range>, n: usize)
    requires
        c.len() > 0,
        n > 0,
        0 <= min_width <= c.len(),
        forall|x: int| 0 <= x < c.len() ==> #[trigger] c[x] == n,
        stable_ranges(c, min_width, ranges),
    ensures
        ranges.len() == 1,
        ranges[0].start.0 == 0 && ranges[0].end.0 == c.len() && ranges[0].count == n,
{
    let w = c.len() as int;
    assert(is_block(c, 0, w));
    assert(qualifies(c, 0, w, min_width));
    let k = choose|k: int| 0 <= k < ranges.len() && (#[trigger] ranges[k]).start.0 == 0 && ranges[k].end.0 == w;
    assert forall|l: int| 0 <= l < ranges.len() implies (#[trigger] ranges[l]).start.0 == 0 && ranges[l].end.0 == w by {
        let s = ranges[l].start.0 as int;
        let e = ranges[l].end.0 as int;
        assert(is_block(c, s, e));
        if s > 0 {
            assert(c[s - 1] == n && c[s] == n);
        }
        if e < w {
            assert(c[e] == n && c[s] == n);
        }
    }
    if ranges.len() > 1 {
        assert(ranges[0].end.0 <= ranges[1].start.0);
    }
}

/// Every column of `m` holds exactly two hits, at rows `a` and `b`, which are
/// not adjacent; there is at least one column.
pub open spec fn two_line_mask(m: Mask, a: u32, b: u32) -> bool {
    &&& m.width > 0
    &&& a + 1 < b < m.height
    &&& forall|x: int, y: int| 0 <= x < m.width && 0 <= y < m.height ==> (#[trigger] m.hit(x, y) <==> (y == a || y == b))
}

proof fn lemma_two_runs(m: Mask, a: u32, b: u32, x: int, runs: Seq<VerticalComponent>)
    requires
        two_line_mask(m, a, b),
        0 <= x < m.width,
        column_runs_spec(m, x, runs),
    ensures
        runs == seq![pixel_run(a), pixel_run(b)],
{
    assert forall|j: int| 0 <= j < runs.len() implies #[trigger] runs[j] == pixel_run(a) || runs[j] == pixel_run(b) by {
        let r = runs[j];
        assert(m.hit(x, r.y_min as int));
        assert(m.hit(x, r.y_max as int));
        if r.y_min == a && r.y_max == b {
            assert(r.contains(a + 1));
            assert(m.hit(x, a + 1));
        }
    }
    assert(m.hit(x, a as int));
    assert(covered(runs, a as int));
    let i = choose|i: int| 0 <= i < runs.len() && (#[trigger] runs[i]).contains(a as int);
    assert(m.hit(x, b as int));
    assert(covered(runs, b as int));
    let k = choose|k: int| 0 <= k < runs.len() && (#[trigger] runs[k]).contains(b as int);
    assert(runs[i] == pixel_run(a));
    assert(runs[k] == pixel_run(b));
    if runs.len() > 2 {
        assert(runs[0].y_max < runs[1].y_min);
        assert(runs[1].y_max < runs[2].y_min);
    }
    if runs.len() == 2 {
        assert(runs[0].y_max < runs[1].y_min);
    }
    assert(runs =~= seq![pixel_run(a), pixel_run(b)]);
}

proof fn lemma_min_width_bound(w: u32, f: UnitInterval)
    requires
        f.wf(),
    ensures
        0 <= min_width_of(w, f) <= w,
{
    assert(w as int * f.num as int <= w as int * f.den as int) by (nonlinear_arith)
        requires
            f.num <= f.den,
    ;
    assert(0 <= (w as int * f.num as int) / f.den as int <= w) by (nonlinear_arith)
        requires
            0 <= w as int * f.num as int <= w as int * f.den as int,
            f.den > 0,
    ;
}

/// With any minimum width fraction, two full-width lines at non-adjacent rows
/// `a < b` group into exactly two
/// tracks, the first holding row `a` and the second row `b` in every column,
/// and no loose runs are left.
pub proof fn lemma_two_lines_group(
    m: Mask,
    fraction: UnitInterval,
    ranges: Seq<Range>,
    cols: Seq<VerticalComponents>,
    tracks: Seq<GraphMultiNode>,
    strips: Seq<CombinedVerticals>,
    a: u32,
    b: u32,
)
    requires
        two_line_mask(m, a, b),
        fraction.wf(),
        grouping_of(m, min_width_of(m.width, fraction), ranges, cols, tracks, strips),
    ensures
        tracks.len() == 2,
        strips.len() == 0,
        forall|x: int|
            0 <= x < m.width ==> #[trigger] col(tracks[0], x) == seq![pixel_run(a)] && col(tracks[1], x) == seq![pixel_run(b)],
{
    reveal(grouping_of);
    let min_width = min_width_of(m.width, fraction);
    lemma_min_width_bound(m.width, fraction);
    assert forall|x: int| 0 <= x < m.width implies #[trigger] cols[x].components@ == seq![pixel_run(a), pixel_run(b)] by {
        lemma_two_runs(m, a, b, x, cols[x].components@);
    }
    let c = run_counts(cols);
    assert forall|x: int| 0 <= x < c.len() implies #[trigger] c[x] == 2 by {
        assert(cols[x].components@ == seq![pixel_run(a), pixel_run(b)]);
    }
    lemma_constant_range(c, min_width, ranges, 2);
    assert(offset(ranges, 1) == offset(ranges, 0) + ranges[0].count);
    assert(is_track_of(tracks[offset(ranges, 0) + 0], cols, ranges[0], 0));
    assert(is_track_of(tracks[offset(ranges, 0) + 1], cols, ranges[0], 1));
    assert forall|x: int| 0 <= x < m.width implies #[trigger] col(tracks[0], x) == seq![pixel_run(a)] && col(tracks[1], x) == seq![pixel_run(b)] by {
        assert(cols[x].components@ == seq![pixel_run(a), pixel_run(b)]);
        assert(in_ranges(ranges, x)) by {
            assert(ranges[0].start.0 <= x < ranges[0].end.0);
        }
    }
    let lv = leftover_view(cols, ranges);
    assert forall|x: int| 0 <= x < lv.len() implies (#[trigger] lv[x]).len() == 0 by {
        assert(ranges[0].start.0 <= x < ranges[0].end.0);
        assert(in_ranges(ranges, x));
    }
    lemma_first_nonempty_skip(lv, 0, lv.len() as int);
    assert(strips_view(strips).len() == 0);
}

/// Splits the runs of `image` into tracks, one per run position of each range of
/// constant run count at least the minimum width fraction wide, and strips of the
/// remaining runs.
#[verifier::rlimit(40)]
pub fn group_large_components_and_remaining(image: &Mask, settings: &Settings) -> (r: (
    Vec<GraphMultiNode>,
    Vec<CombinedVerticals>,
))
    requires
        image.wf(),
        settings.wf(),
    ensures
        forall|t: int| 0 <= t < r.0@.len() ==> (#[trigger] r.0@[t]).ys@.len() == image.width,
        forall|k: int| 0 <= k < r.1@.len() ==> (#[trigger] r.1@[k]).wf(image.width as int),
        forall|x: int, y: int|
            0 <= x < image.width && 0 <= y < image.height && #[trigger] image.hit(x, y) ==> pixel_claimed(r.0@, r.1@, x, y),
        forall|rows: Seq<u32>|
            #[trigger] single_pixel_curve(*image, rows) ==> r.0@.len() == 1 && r.1@.len() == 0 && forall|x: int|
                0 <= x < image.width ==> #[trigger] col(r.0@[0], x) == seq![pixel_run(rows[x])],
        exists|ranges: Seq<Range>, cols: Seq<VerticalComponents>|
            #[trigger] grouping_of(
                *image,
                min_width_of(image.width, settings.step3_min_width_fraction),
                ranges,
                cols,
                r.0@,
                r.1@,
            ),
{
    let min_width = settings.step3_min_width_fraction.scale(image.width);
    let mut verticals = VerticalComponentList::convert(image);
    let ghost cols = verticals.components@;
    let counts = verticals.counts();
    let ranges = find_long_components(&counts, min_width);
    proof {
        assert forall|k: int| 0 <= k < ranges@.len() implies (#[trigger] ranges@[k]).start.0 < ranges@[k].end.0 <= cols.len() && forall|x: int|
            ranges@[k].start.0 <= x < ranges@[k].end.0 ==> (#[trigger] cols[x]).components@.len() == ranges@[k].count by {
            assert forall|x: int| ranges@[k].start.0 <= x < ranges@[k].end.0 implies (#[trigger] cols[x]).components@.len() == ranges@[k].count by {
                assert(counts@[x] == counts@[ranges@[k].start.0 as int]);
            }
        }
    }
    let tracks = verticals.extract_components(&ranges);
    let ghost left = verticals.components@;
    proof {
        assert forall|x: int, i: int|
            0 <= x < left.len() && 0 <= i < left[x].components@.len() implies (#[trigger] left[x].components@[i]).wf() by {
            assert(column_runs_spec(*image, x, cols[x].components@));
        }
    }
    let strips = verticals.combining_horizontally();
    proof {
        let f = settings.step3_min_width_fraction;
        let p = image.width as int * f.num as int;
        assert(min_width == p / f.den as int) by (nonlinear_arith)
            requires
                min_width * f.den <= p,
                p < (min_width + 1) * f.den,
                f.den > 0,
        ;
        assert(counts@ =~= run_counts(cols));
        assert(columns_view(left) =~= leftover_view(cols, ranges@));

        assert forall|rows: Seq<u32>|
            #[trigger] single_pixel_curve(*image, rows) implies tracks@.len() == 1 && strips@.len() == 0 && forall|x: int|
                0 <= x < image.width ==> #[trigger] col(tracks@[0], x) == seq![pixel_run(rows[x])] by {
            assert forall|x: int| 0 <= x < image.width implies #[trigger] cols[x].components@ == seq![pixel_run(rows[x])] by {
                lemma_single_runs(*image, rows, x, cols[x].components@);
            }
            assert forall|x: int| 0 <= x < counts@.len() implies #[trigger] counts@[x] == 1 by {
                assert(cols[x].components@ == seq![pixel_run(rows[x])]);
            }
            lemma_constant_range(counts@, min_width as int, ranges@, 1);
            assert(offset(ranges@, 1) == offset(ranges@, 0) + ranges@[0].count);
            assert(is_track_of(tracks@[offset(ranges@, 0) + 0], cols, ranges@[0], 0));
            assert forall|x: int| 0 <= x < image.width implies #[trigger] col(tracks@[0], x) == seq![pixel_run(rows[x])] by {
                assert(cols[x].components@[0] == pixel_run(rows[x]));
            }
            assert forall|x: int| 0 <= x < left.len() implies (#[trigger] left[x]).components@.len() == 0 by {
                assert(ranges@[0].start.0 <= x < ranges@[0].end.0);
                assert(in_ranges(ranges@, x));
            }
        }
        assert forall|t: int| 0 <= t < tracks@.len() implies (#[trigger] tracks@[t]).ys@.len() == image.width by {
            let (k, j) = lemma_track_origin(ranges@, tracks@.len() as int, t);
            assert(is_track_of(tracks@[offset(ranges@, k) + j], cols, ranges@[k], j));
        }
        assert forall|x: int, y: int|
            0 <= x < image.width && 0 <= y < image.height && #[trigger] image.hit(x, y) implies pixel_claimed(tracks@, strips@, x, y) by {
            assert(column_runs_spec(*image, x, cols[x].components@));
            assert(covered(cols[x].components@, y));
            let i = choose|i: int| 0 <= i < cols[x].components@.len() && (#[trigger] cols[x].components@[i]).contains(y);
            if in_ranges(ranges@, x) {
                let k = choose|k: int| 0 <= k < ranges@.len() && (#[trigger] ranges@[k]).start.0 <= x < ranges@[k].end.0;
                assert(counts@[x] == counts@[ranges@[k].start.0 as int]);
                lemma_offset_mono(ranges@, k + 1, ranges@.len() as int);
                lemma_offset_mono(ranges@, 0, k);
                assert(offset(ranges@, k + 1) == offset(ranges@, k) + ranges@[k].count);
                let t = offset(ranges@, k) + i;
                assert(is_track_of(tracks@[t], cols, ranges@[k], i));
                assert(col(tracks@[t], x) == seq![cols[x].components@[i]]);
                assert(col(tracks@[t], x)[0].contains(y));
            } else {
                assert(left[x].components@ == cols[x].components@);
                assert(held(strips@, x, left[x].components@[i]));
                let k = choose|k: int| 0 <= k < strips@.len() && holds_at(strip_at(#[trigger] strips@[k], x), left[x].components@[i]);
                assert(row_in(strip_at(strips@[k], x), y));
            }
        }
    }
    let ghost track_view = tracks@;
    let result = (tracks, strips);
    proof {
        assert(result.0@ == track_view);
        reveal(grouping_of);
        assert(grouping_of(*image, min_width_of(image.width, settings.step3_min_width_fraction), ranges@, cols, result.0@, result.1@));
    }
    result
}

/// A strip as plain values: its first column and its intervals.
pub open spec fn strip_view(s: CombinedVerticals) -> (int, Seq<VerticalComponentCombined>) {
    (s.x_start.0 as int, s.combined@)
}

pub open spec fn strips_view(ss: Seq<CombinedVerticals>) -> Seq<(int, Seq<VerticalComponentCombined>)> {
    Seq::new(ss.len(), |k: int| strip_view(ss[k]))
}

/// The runs of every column as plain sequences.
pub open spec fn columns_view(cols: Seq<VerticalComponents>) -> Seq<Seq<VerticalComponent>> {
    Seq::new(cols.len(), |x: int| cols[x].components@)
}

/// The interval of strip view `s` at column `c`, if it reaches it.
pub open spec fn view_at(s: (int, Seq<VerticalComponentCombined>), c: int) -> Option<VerticalComponentCombined> {
    if s.0 <= c < s.0 + s.1.len() {
        Some(s.1[c - s.0])
    } else {
        None
    }
}

pub open spec fn view_pair_distance(
    a: (int, Seq<VerticalComponentCombined>),
    b: (int, Seq<VerticalComponentCombined>),
    i: int,
    j: int,
) -> int {
    let ca = a.0 + i;
    let cb = b.0 + j;
    (if ca >= cb { ca - cb } else { cb - ca }) + gap(as_vertical(a.1[i]), as_vertical(b.1[j]))
}

/// Two strip views come within `STRIP_MERGE_DISTANCE` of each other.
pub open spec fn views_touch(a: (int, Seq<VerticalComponentCombined>), b: (int, Seq<VerticalComponentCombined>)) -> bool {
    exists|i: int, j: int| 0 <= i < a.1.len() && 0 <= j < b.1.len() && #[trigger] view_pair_distance(a, b, i, j) <= STRIP_MERGE_DISTANCE
}

/// The strip view covering both: the hull of the two where both reach a column.
pub open spec fn merge_views(
    a: (int, Seq<VerticalComponentCombined>),
    b: (int, Seq<VerticalComponentCombined>),
) -> (int, Seq<VerticalComponentCombined>) {
    let start = if a.0 <= b.0 { a.0 } else { b.0 };
    let end = if a.0 + a.1.len() >= b.0 + b.1.len() { a.0 + a.1.len() } else { b.0 + b.1.len() };
    (
        start,
        Seq::new(
            (end - start) as nat,
            |i: int|
                match join(view_at(a, start + i), view_at(b, start + i)) {
                    Some(e) => e,
                    None => VerticalComponentCombined { y_min: 0, y_max: 0 },
                },
        ),
    )
}

/// The first column from `x` on that holds runs, or the number of columns.
pub open spec fn first_nonempty(cols: Seq<Seq<VerticalComponent>>, x: int) -> int
    decreases cols.len() - x,
{
    if x < 0 || x >= cols.len() {
        cols.len() as int
    } else if cols[x].len() > 0 {
        x
    } else {
        first_nonempty(cols, x + 1)
    }
}

/// The runs of `rs` within `STRIP_MERGE_DISTANCE` of `last`, in order.
pub open spec fn near_runs(last: VerticalComponentCombined, rs: Seq<VerticalComponent>) -> Seq<VerticalComponent>
    decreases rs.len(),
{
    if rs.len() == 0 {
        rs
    } else {
        let prev = near_runs(last, rs.drop_last());
        if gap(as_vertical(last), rs.last()) <= STRIP_MERGE_DISTANCE {
            prev.push(rs.last())
        } else {
            prev
        }
    }
}

/// The runs of `rs` farther than one from `last`, in order.
pub open spec fn rest_runs(last: VerticalComponentCombined, rs: Seq<VerticalComponent>) -> Seq<VerticalComponent>
    decreases rs.len(),
{
    if rs.len() == 0 {
        rs
    } else {
        let prev = rest_runs(last, rs.drop_last());
        if gap(as_vertical(last), rs.last()) <= STRIP_MERGE_DISTANCE {
            prev
        } else {
            prev.push(rs.last())
        }
    }
}

/// The smallest interval holding all of `rs`.
pub open spec fn hull_of(rs: Seq<VerticalComponent>) -> VerticalComponentCombined {
    VerticalComponentCombined { y_min: low_of(rs, rs.len() as int) as u32, y_max: high_of(rs, rs.len() as int) as u32 }
}

/// Grows `strip` rightwards from column `x`: while the next column holds runs
/// within `STRIP_MERGE_DISTANCE` of the strip's last interval, they leave the column and
/// their hull joins the strip.
pub open spec fn grow(cols: Seq<Seq<VerticalComponent>>, x: int, strip: Seq<VerticalComponentCombined>) -> (
    Seq<Seq<VerticalComponent>>,
    Seq<VerticalComponentCombined>,
)
    decreases cols.len() - x,
{
    if x < 0 || x >= cols.len() || strip.len() == 0 {
        (cols, strip)
    } else {
        let near = near_runs(strip.last(), cols[x]);
        if near.len() == 0 {
            (cols, strip)
        } else {
            grow(cols.update(x, rest_runs(strip.last(), cols[x])), x + 1, strip.push(hull_of(near)))
        }
    }
}

/// The index of the first strip of `ss` from `k` on that touches `s`, or the number of strips.
pub open spec fn first_touch(
    ss: Seq<(int, Seq<VerticalComponentCombined>)>,
    s: (int, Seq<VerticalComponentCombined>),
    k: int,
) -> int
    decreases ss.len() - k,
{
    if k < 0 || k >= ss.len() {
        ss.len() as int
    } else if views_touch(ss[k], s) {
        k
    } else {
        first_touch(ss, s, k + 1)
    }
}

/// The number of runs in all columns.
pub open spec fn total_view(cols: Seq<Seq<VerticalComponent>>) -> nat
    decreases cols.len(),
{
    if cols.len() == 0 {
        0
    } else {
        total_view(cols.drop_last()) + cols.last().len()
    }
}

/// One round of gathering: the bottom run of the first column holding runs
/// starts a strip, the strip grows rightwards, and then merges into the first
/// strip it touches or is added after the others.
pub open spec fn gather_step(cols: Seq<Seq<VerticalComponent>>, ss: Seq<(int, Seq<VerticalComponentCombined>)>) -> (
    Seq<Seq<VerticalComponent>>,
    Seq<(int, Seq<VerticalComponentCombined>)>,
) {
    let x0 = first_nonempty(cols, 0);
    let v = cols[x0].last();
    let cols1 = cols.update(x0, cols[x0].drop_last());
    let grown = grow(cols1, x0 + 1, seq![VerticalComponentCombined::new_spec(v)]);
    let s = (x0, grown.1);
    let k = first_touch(ss, s, 0);
    (grown.0, if k < ss.len() { ss.update(k, merge_views(ss[k], s)) } else { ss.push(s) })
}

/// Gathering the runs of `cols` into the strips `ss` round after round, until
/// no column holds runs, ends in the strips `out`.
pub open spec fn gathered(
    cols: Seq<Seq<VerticalComponent>>,
    ss: Seq<(int, Seq<VerticalComponentCombined>)>,
    out: Seq<(int, Seq<VerticalComponentCombined>)>,
) -> bool
    decreases total_view(cols),
{
    if first_nonempty(cols, 0) >= cols.len() {
        out == ss
    } else {
        let next = gather_step(cols, ss);
        total_view(next.0) < total_view(cols) && gathered(next.0, next.1, out)
    }
}

proof fn lemma_first_nonempty_skip(cols: Seq<Seq<VerticalComponent>>, x: int, target: int)
    requires
        0 <= x <= target <= cols.len(),
        forall|y: int| x <= y < target ==> (#[trigger] cols[y]).len() == 0,
        target < cols.len() ==> cols[target].len() > 0,
    ensures
        first_nonempty(cols, x) == target,
    decreases target - x,
{
    if x < target {
        lemma_first_nonempty_skip(cols, x + 1, target);
    }
}

proof fn lemma_total_runs_prefix(cols: Seq<VerticalComponents>, m: int, n: int)
    requires
        0 <= n <= m <= cols.len(),
    ensures
        total_runs(cols.subrange(0, m), n) == total_runs(cols, n),
    decreases n,
{
    if n > 0 {
        lemma_total_runs_prefix(cols, m, n - 1);
    }
}

proof fn lemma_total_view(cols: Seq<VerticalComponents>)
    ensures
        total_view(columns_view(cols)) == total_runs(cols, cols.len() as int),
    decreases cols.len(),
{
    if cols.len() > 0 {
        let prefix = cols.subrange(0, cols.len() - 1);
        lemma_total_view(prefix);
        assert(columns_view(cols).drop_last() =~= columns_view(prefix));
        lemma_total_runs_prefix(cols, cols.len() - 1, cols.len() - 1);
    }
}

/// One round of the exec loop is one `gather_step`, so gathering from the
/// state after it gathers from the state before it.
proof fn lemma_gather_link(
    cv0: Seq<Seq<VerticalComponent>>,
    sv0: Seq<(int, Seq<VerticalComponentCombined>)>,
    cv: Seq<Seq<VerticalComponent>>,
    sv: Seq<(int, Seq<VerticalComponentCombined>)>,
    orig: Seq<VerticalComponents>,
    x0: int,
    strip: (int, Seq<VerticalComponentCombined>),
    v: VerticalComponent,
)
    requires
        first_nonempty(cv0, 0) == x0,
        0 <= x0 < cv0.len(),
        v == cv0[x0].last(),
        strip.0 == x0,
        grow(cv0.update(x0, cv0[x0].drop_last()), x0 + 1, seq![VerticalComponentCombined::new_spec(v)]) == (cv, strip.1),
        sv == (if first_touch(sv0, strip, 0) < sv0.len() {
            sv0.update(first_touch(sv0, strip, 0), merge_views(sv0[first_touch(sv0, strip, 0)], strip))
        } else {
            sv0.push(strip)
        }),
        total_view(cv) < total_view(cv0),
        forall|out: Seq<(int, Seq<VerticalComponentCombined>)>|
            #[trigger] gathered(cv0, sv0, out) ==> gathered(columns_view(orig), Seq::empty(), out),
    ensures
        forall|out: Seq<(int, Seq<VerticalComponentCombined>)>|
            #[trigger] gathered(cv, sv, out) ==> gathered(columns_view(orig), Seq::empty(), out),
{
    assert(gather_step(cv0, sv0) == (cv, sv));
    assert forall|out: Seq<(int, Seq<VerticalComponentCombined>)>|
        #[trigger] gathered(cv, sv, out) implies gathered(columns_view(orig), Seq::empty(), out) by {
        assert(gathered(cv0, sv0, out));
    }
}

/// Every track index below the total belongs to some range and run position.
proof fn lemma_track_origin(ranges: Seq<Range>, n: int, t: int) -> (r: (int, int))
    requires
        n == offset(ranges, ranges.len() as int),
        0 <= t < n,
    ensures
        0 <= r.0 < ranges.len(),
        0 <= r.1 < ranges[r.0].count,
        t == offset(ranges, r.0) + r.1,
    decreases ranges.len(),
{
    let m = ranges.len() - 1;
    let prefix = ranges.subrange(0, m);
    lemma_offset_prefix(ranges, m);
    if t < offset(ranges, m) {
        let (k, j) = lemma_track_origin(prefix, offset(prefix, m), t);
        lemma_offset_prefix_all(ranges, m, k);
        (k, j)
    } else {
        (m, t - offset(ranges, m))
    }
}

proof fn lemma_offset_prefix(ranges: Seq<Range>, m: int)
    requires
        0 <= m <= ranges.len(),
    ensures
        offset(ranges.subrange(0, m), m) == offset(ranges, m),
{
    lemma_offset_prefix_all(ranges, m, m);
}

proof fn lemma_offset_prefix_all(ranges: Seq<Range>, m: int, k: int)
    requires
        0 <= k <= m <= ranges.len(),
    ensures
        offset(ranges.subrange(0, m), k) == offset(ranges, k),
        k < m ==> ranges.subrange(0, m)[k] == ranges[k],
    decreases k,
{
    if k > 0 {
        lemma_offset_prefix_all(ranges, m, k - 1);
    }
}

} // verus!
