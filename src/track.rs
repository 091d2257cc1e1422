use vstd::prelude::*;

use crate::group::{as_vertical, strip_at, CombinedVerticals};
use crate::verticals::{gap, VerticalComponent};

verus! {

/// The value that stands for "no pair to measure" in distance minima.
pub open spec fn none_dist() -> int {
    u32::MAX as int + 1
}

pub open spec fn min2(a: int, b: int) -> int {
    if a <= b {
        a
    } else {
        b
    }
}

/// `a + b`, saturated at `u32::MAX`.
pub open spec fn sat(a: int, b: int) -> int {
    if a + b > u32::MAX {
        u32::MAX as int
    } else {
        a + b
    }
}

pub open spec fn abs_diff(a: int, b: int) -> int {
    if a >= b {
        a - b
    } else {
        b - a
    }
}

/// The smallest gap between the `i`-th intervals of `a` and `b`, over the first
/// `n` positions; `u32::MAX` where there are none.
pub open spec fn zip_min(a: Seq<VerticalComponent>, b: Seq<VerticalComponent>, n: int) -> int
    decreases n,
{
    if n <= 0 {
        u32::MAX as int
    } else {
        min2(zip_min(a, b, n - 1), gap(a[n - 1], b[n - 1]))
    }
}

/// The distance between two cells: the smallest gap between intervals paired by position.
pub open spec fn node_dist(a: Seq<VerticalComponent>, b: Seq<VerticalComponent>) -> int {
    zip_min(a, b, if a.len() <= b.len() { a.len() as int } else { b.len() as int })
}

/// The lowest `y_min` of the first `n` intervals.
pub open spec fn low_of(vs: Seq<VerticalComponent>, n: int) -> int
    decreases n,
{
    if n <= 1 {
        vs[0].y_min as int
    } else {
        min2(low_of(vs, n - 1), vs[n - 1].y_min as int)
    }
}

/// The highest `y_max` of the first `n` intervals.
pub open spec fn high_of(vs: Seq<VerticalComponent>, n: int) -> int
    decreases n,
{
    if n <= 1 {
        vs[0].y_max as int
    } else {
        let h = high_of(vs, n - 1);
        if h >= vs[n - 1].y_max {
            h
        } else {
            vs[n - 1].y_max as int
        }
    }
}

/// The middle of the hull of a cell's intervals, rounded down; none for an empty cell.
pub open spec fn cell_mean(vs: Seq<VerticalComponent>) -> Option<int> {
    if vs.len() == 0 {
        None
    } else {
        Some((low_of(vs, vs.len() as int) + high_of(vs, vs.len() as int)) / 2)
    }
}

/// The intervals of one column of a track.
#[derive(Clone, Debug)]
pub struct MultiNode {
    pub verticals: Vec<VerticalComponent>,
}

impl MultiNode {
    pub fn empty() -> (m: MultiNode)
        ensures
            m.verticals@.len() == 0,
    {
        MultiNode { verticals: Vec::new() }
    }

    pub fn new(v: VerticalComponent) -> (m: MultiNode)
        ensures
            m.verticals@ == seq![v],
    {
        let mut verticals: Vec<VerticalComponent> = Vec::new();
        verticals.push(v);
        MultiNode { verticals }
    }

    /// The smallest gap between intervals paired by position, `u32::MAX` if there are none.
    pub fn distance(&self, r: &MultiNode) -> (d: u32)
        ensures
            d == node_dist(self.verticals@, r.verticals@),
    {
        let n = if self.verticals.len() <= r.verticals.len() {
            self.verticals.len()
        } else {
            r.verticals.len()
        };
        let mut d: u32 = u32::MAX;
        let mut i: usize = 0;
        while i < n
            invariant
                n <= self.verticals@.len(),
                n <= r.verticals@.len(),
                i <= n,
                d == zip_min(self.verticals@, r.verticals@, i as int),
            decreases n - i,
        {
            let g = self.verticals[i].distance_to(&r.verticals[i]);
            if g < d {
                d = g;
            }
            i = i + 1;
        }
        d
    }

    /// Appends the intervals of `o`.
    pub fn combine(&mut self, o: MultiNode)
        ensures
            final(self).verticals@ == old(self).verticals@ + o.verticals@,
    {
        let mut o = o;
        self.verticals.append(&mut o.verticals);
    }

    /// The middle of the hull of the intervals, rounded down.
    pub fn mean(&self) -> (m: Option<u32>)
        ensures
            m matches Some(v) ==> cell_mean(self.verticals@) == Some(v as int),
            m is None <==> cell_mean(self.verticals@) is None,
    {
        let n = self.verticals.len();
        if n == 0 {
            return None;
        }
        let mut lo: u32 = self.verticals[0].y_min;
        let mut hi: u32 = self.verticals[0].y_max;
        let mut i: usize = 1;
        while i < n
            invariant
                n == self.verticals@.len(),
                1 <= i <= n,
                lo == low_of(self.verticals@, i as int),
                hi == high_of(self.verticals@, i as int),
            decreases n - i,
        {
            if self.verticals[i].y_min < lo {
                lo = self.verticals[i].y_min;
            }
            if self.verticals[i].y_max > hi {
                hi = self.verticals[i].y_max;
            }
            i = i + 1;
        }
        Some(((lo as u64 + hi as u64) / 2) as u32)
    }
}

/// One candidate curve: a cell of intervals for every column of the image.
#[derive(Clone, Debug)]
pub struct GraphMultiNode {
    pub ys: Vec<MultiNode>,
}

/// The intervals of column `x` of `g`.
pub open spec fn col(g: GraphMultiNode, x: int) -> Seq<VerticalComponent> {
    g.ys@[x].verticals@
}

/// The columns in which `g` holds at least one interval.
pub open spec fn support(g: GraphMultiNode) -> Set<int> {
    Set::new(|x: int| 0 <= x < g.ys@.len() && col(g, x).len() > 0)
}

/// Both tracks hold intervals in some common column.
pub open spec fn tracks_overlap(a: GraphMultiNode, b: GraphMultiNode) -> bool {
    exists|x: int|
        0 <= x < a.ys@.len() && 0 <= x < b.ys@.len() && #[trigger] col(a, x).len() > 0 && col(b, x).len() > 0
}

/// The first occupied column of `g`, zero for an empty track.
pub open spec fn min_x(g: GraphMultiNode) -> int {
    if exists|x: int| 0 <= x < g.ys@.len() && #[trigger] col(g, x).len() > 0 {
        choose|x: int|
            0 <= x < g.ys@.len() && #[trigger] col(g, x).len() > 0 && forall|y: int|
                0 <= y < x ==> #[trigger] col(g, y).len() == 0
    } else {
        0
    }
}

/// The last occupied column of `g`, `usize::MAX` for an empty track.
pub open spec fn max_x(g: GraphMultiNode) -> int {
    if exists|x: int| 0 <= x < g.ys@.len() && #[trigger] col(g, x).len() > 0 {
        choose|x: int|
            0 <= x < g.ys@.len() && #[trigger] col(g, x).len() > 0 && forall|y: int|
                x < y < g.ys@.len() ==> #[trigger] col(g, y).len() == 0
    } else {
        usize::MAX as int
    }
}

/// The occupied columns of `a` lie within the span of those of `b`.
pub open spec fn nested(a: GraphMultiNode, b: GraphMultiNode) -> bool {
    min_x(a) >= min_x(b) && max_x(a) <= max_x(b)
}

pub open spec fn cell_dist(a: GraphMultiNode, b: GraphMultiNode, x: int, ox: int) -> int {
    sat(abs_diff(x, ox), node_dist(col(a, x), col(b, ox)))
}

pub open spec fn row_min(a: GraphMultiNode, b: GraphMultiNode, x: int, m: int) -> int
    decreases m,
{
    if m <= 0 {
        u32::MAX as int
    } else {
        min2(row_min(a, b, x, m - 1), cell_dist(a, b, x, m - 1))
    }
}

pub open spec fn grid_min(a: GraphMultiNode, b: GraphMultiNode, n: int) -> int
    decreases n,
{
    if n <= 0 {
        u32::MAX as int
    } else {
        min2(grid_min(a, b, n - 1), row_min(a, b, n - 1, b.ys@.len() as int))
    }
}

/// The distance between two tracks: infinite (`u32::MAX`) when either is nested
/// in the other, else the least column offset plus cell distance over all column pairs.
#[verifier::opaque]
pub open spec fn track_dist(a: GraphMultiNode, b: GraphMultiNode) -> int {
    if nested(a, b) || nested(b, a) {
        u32::MAX as int
    } else {
        grid_min(a, b, a.ys@.len() as int)
    }
}

/// The least column offset plus gap between interval `vx` of strip `v` and the
/// first `k` intervals of column `x` of `g`.
pub open spec fn strip_cell_min(g: GraphMultiNode, v: CombinedVerticals, x: int, vx: int, k: int) -> int
    decreases k,
{
    if k <= 0 {
        none_dist()
    } else {
        min2(
            strip_cell_min(g, v, x, vx, k - 1),
            sat(
                abs_diff(x, v.x_start.0 + vx),
                gap(as_vertical(v.combined@[vx]), col(g, x)[k - 1]),
            ),
        )
    }
}

pub open spec fn strip_row_min(g: GraphMultiNode, v: CombinedVerticals, x: int, m: int) -> int
    decreases m,
{
    if m <= 0 {
        none_dist()
    } else {
        min2(strip_row_min(g, v, x, m - 1), strip_cell_min(g, v, x, m - 1, col(g, x).len() as int))
    }
}

pub open spec fn strip_grid_min(g: GraphMultiNode, v: CombinedVerticals, n: int) -> int
    decreases n,
{
    if n <= 0 {
        none_dist()
    } else {
        min2(strip_grid_min(g, v, n - 1), strip_row_min(g, v, n - 1, v.combined@.len() as int))
    }
}

/// Some column of `g` under the strip `v` is still empty, so `v` could extend `g`.
pub open spec fn strip_fills_gap(g: GraphMultiNode, v: CombinedVerticals) -> bool {
    exists|x: int| v.x_start.0 <= x < v.end() && x < g.ys@.len() && #[trigger] col(g, x).len() == 0
}

/// Whether a strip could extend a track, and by how far it lies from it.
#[derive(Clone, Copy, Debug, PartialEq, Eq, Structural)]
pub enum Distance {
    CanBeExtendend { distance: u32 },
    CannotBeExtended,
}

/// The distance from track `g` to strip `v`, as the stitcher measures it.
pub open spec fn strip_distance(g: GraphMultiNode, v: CombinedVerticals) -> Distance {
    let d = strip_grid_min(g, v, g.ys@.len() as int);
    if strip_fills_gap(g, v) && d <= u32::MAX {
        Distance::CanBeExtendend { distance: d as u32 }
    } else {
        Distance::CannotBeExtended
    }
}

impl GraphMultiNode {
    pub open spec fn wf(&self, width: int) -> bool {
        self.ys@.len() == width
    }

    /// A track of `width` empty columns.
    pub fn new(width: u32) -> (g: GraphMultiNode)
        ensures
            g.ys@.len() == width,
            forall|x: int| 0 <= x < width ==> #[trigger] col(g, x).len() == 0,
    {
        let mut ys: Vec<MultiNode> = Vec::new();
        let mut x: u32 = 0;
        while x < width
            invariant
                x <= width,
                ys@.len() == x,
                forall|i: int| 0 <= i < x ==> (#[trigger] ys@[i]).verticals@.len() == 0,
            decreases width - x,
        {
            ys.push(MultiNode::empty());
            x = x + 1;
        }
        GraphMultiNode { ys }
    }

    /// The first occupied column, zero for an empty track.
    pub fn min_x(&self) -> (r: usize)
        ensures
            r == min_x(*self),
    {
        let mut x: usize = 0;
        while x < self.ys.len()
            invariant
                x <= self.ys@.len(),
                forall|y: int| 0 <= y < x ==> #[trigger] col(*self, y).len() == 0,
            decreases self.ys@.len() - x,
        {
            if self.ys[x].verticals.len() > 0 {
                proof {
                    let c = choose|c: int|
                        0 <= c < self.ys@.len() && #[trigger] col(*self, c).len() > 0 && forall|y: int|
                            0 <= y < c ==> #[trigger] col(*self, y).len() == 0;
                    assert(col(*self, x as int).len() > 0);
                    if c < x {
                    } else if c > x {
                        assert(col(*self, x as int).len() == 0);
                    }
                }
                return x;
            }
            x = x + 1;
        }
        0
    }

    /// The last occupied column, `usize::MAX` for an empty track.
    pub fn max_x(&self) -> (r: usize)
        ensures
            r == max_x(*self),
    {
        let n = self.ys.len();
        let mut i: usize = 0;
        while i < n
            invariant
                n == self.ys@.len(),
                i <= n,
                forall|y: int| n - i <= y < n ==> #[trigger] col(*self, y).len() == 0,
            decreases n - i,
        {
            let x = n - 1 - i;
            if self.ys[x].verticals.len() > 0 {
                proof {
                    let c = choose|c: int|
                        0 <= c < self.ys@.len() && #[trigger] col(*self, c).len() > 0 && forall|y: int|
                            c < y < self.ys@.len() ==> #[trigger] col(*self, y).len() == 0;
                    assert(col(*self, x as int).len() > 0);
                    if c > x {
                    } else if c < x {
                        assert(col(*self, x as int).len() == 0);
                    }
                }
                return x;
            }
            i = i + 1;
        }
        usize::MAX
    }

    /// The distance to `other`; `u32::MAX` when either track is nested in the other.
    pub fn distance(&self, other: &GraphMultiNode) -> (d: u32)
        ensures
            d == track_dist(*self, *other),
    {
        proof {
            reveal(track_dist);
        }
        let (a_min, a_max, b_min, b_max) = (self.min_x(), self.max_x(), other.min_x(), other.max_x());
        if (a_min >= b_min && a_max <= b_max) || (b_min >= a_min && b_max <= a_max) {
            return u32::MAX;
        }
        let mut d: u32 = u32::MAX;
        let mut x: usize = 0;
        while x < self.ys.len()
            invariant
                x <= self.ys@.len(),
                d == grid_min(*self, *other, x as int),
            decreases self.ys@.len() - x,
        {
            let mut ox: usize = 0;
            let ghost before: int = d as int;
            while ox < other.ys.len()
                invariant
                    x < self.ys@.len(),
                    ox <= other.ys@.len(),
                    before == grid_min(*self, *other, x as int),
                    d == min2(before, row_min(*self, *other, x as int, ox as int)),
                decreases other.ys@.len() - ox,
            {
                let dx: usize = if x >= ox {
                    x - ox
                } else {
                    ox - x
                };
                let dy = self.ys[x].distance(&other.ys[ox]);
                let c: u32 = if dx >= u32::MAX as usize || dx as u64 + dy as u64 > u32::MAX as u64 {
                    u32::MAX
                } else {
                    (dx as u64 + dy as u64) as u32
                };
                if c < d {
                    d = c;
                }
                ox = ox + 1;
            }
            x = x + 1;
        }
        d
    }

    /// Appends the intervals of each column of `other` to the same column of `self`.
    pub fn stitch_together(&mut self, other: Self)
        requires
            old(self).ys@.len() == other.ys@.len(),
        ensures
            final(self).ys@.len() == old(self).ys@.len(),
            forall|x: int| 0 <= x < old(self).ys@.len() ==> #[trigger] col(*final(self), x) == col(*old(self), x) + col(other, x),
    {
        self.aggregate(other)
    }

    /// Whether both tracks hold intervals in a common column.
    pub fn overlaps(&self, other: &GraphMultiNode) -> (r: bool)
        ensures
            r == tracks_overlap(*self, *other),
    {
        let mut x: usize = 0;
        while x < self.ys.len() && x < other.ys.len()
            invariant
                x <= self.ys@.len(),
                forall|y: int| 0 <= y < x && y < other.ys@.len() ==> !(#[trigger] col(*self, y).len() > 0 && col(*other, y).len() > 0),
            decreases self.ys@.len() - x,
        {
            if self.ys[x].verticals.len() > 0 && other.ys[x].verticals.len() > 0 {
                assert(col(*self, x as int).len() > 0 && col(*other, x as int).len() > 0);
                return true;
            }
            x = x + 1;
        }
        false
    }

    /// Appends the intervals of each column of `other` to the same column of `self`.
    pub fn aggregate(&mut self, other: GraphMultiNode)
        requires
            old(self).ys@.len() == other.ys@.len(),
        ensures
            final(self).ys@.len() == old(self).ys@.len(),
            forall|x: int| 0 <= x < old(self).ys@.len() ==> #[trigger] col(*final(self), x) == col(*old(self), x) + col(other, x),
    {
        let n = self.ys.len();
        let mut ys: Vec<MultiNode> = Vec::new();
        let mut x: usize = 0;
        while x < n
            invariant
                n == self.ys@.len(),
                n == other.ys@.len(),
                x <= n,
                ys@.len() == x,
                forall|y: int| 0 <= y < x ==> #[trigger] ys@[y].verticals@ == col(*self, y) + col(other, y),
            decreases n - x,
        {
            let mut cell = self.ys[x].clone_cell();
            cell.combine(other.ys[x].clone_cell());
            ys.push(cell);
            x = x + 1;
        }
        self.ys = ys;
    }

    /// Adds each interval of strip `v` to its column.
    pub fn merge(&mut self, v: CombinedVerticals)
        requires
            v.end() <= old(self).ys@.len(),
        ensures
            final(self).ys@.len() == old(self).ys@.len(),
            forall|x: int| 0 <= x < old(self).ys@.len() ==> #[trigger] col(*final(self), x) == match strip_at(v, x) {
                Some(c) => col(*old(self), x).push(as_vertical(c)),
                None => col(*old(self), x),
            },
    {
        let n = self.ys.len();
        let mut ys: Vec<MultiNode> = Vec::new();
        let mut x: usize = 0;
        while x < n
            invariant
                n == self.ys@.len(),
                v.end() <= n,
                x <= n,
                ys@.len() == x,
                forall|y: int| 0 <= y < x ==> #[trigger] ys@[y].verticals@ == match strip_at(v, y) {
                    Some(c) => col(*self, y).push(as_vertical(c)),
                    None => col(*self, y),
                },
            decreases n - x,
        {
            let mut cell = self.ys[x].clone_cell();
            if v.x_start.0 as usize <= x && x < v.x_start.0 as usize + v.combined.len() {
                cell.verticals.push(v.combined[x - v.x_start.0 as usize].convert());
            }
            ys.push(cell);
            x = x + 1;
        }
        self.ys = ys;
    }
}

impl GraphMultiNode {
    fn fills_gap(&self, v: &CombinedVerticals) -> (r: bool)
        requires
            v.end() <= u32::MAX,
        ensures
            r == strip_fills_gap(*self, *v),
    {
        let end: usize = v.x_start.0 as usize + v.combined.len();
        let mut x: usize = v.x_start.0 as usize;
        while x < end && x < self.ys.len()
            invariant
                end == v.end(),
                v.x_start.0 <= x,
                forall|y: int| v.x_start.0 <= y < x && y < self.ys@.len() ==> #[trigger] col(*self, y).len() > 0,
            decreases end - x,
        {
            if self.ys[x].verticals.len() == 0 {
                assert(col(*self, x as int).len() == 0);
                return true;
            }
            x = x + 1;
        }
        false
    }

    /// How far strip `v` lies from `self`, provided it covers a column that `self` leaves empty.
    pub fn distance_to_vertical(&self, v: &CombinedVerticals) -> (d: Distance)
        requires
            v.end() <= u32::MAX,
        ensures
            d == strip_distance(*self, *v),
    {
        if !self.fills_gap(v) {
            return Distance::CannotBeExtended;
        }
        let mut d: u64 = u32::MAX as u64 + 1;
        let mut x: usize = 0;
        while x < self.ys.len()
            invariant
                v.end() <= u32::MAX,
                x <= self.ys@.len(),
                d == strip_grid_min(*self, *v, x as int),
            decreases self.ys@.len() - x,
        {
            let ghost before: int = d as int;
            let mut vx: usize = 0;
            while vx < v.combined.len()
                invariant
                    v.end() <= u32::MAX,
                    x < self.ys@.len(),
                    vx <= v.combined@.len(),
                    before == strip_grid_min(*self, *v, x as int),
                    d == min2(before, strip_row_min(*self, *v, x as int, vx as int)),
                decreases v.combined@.len() - vx,
            {
                let ghost before_cell: int = d as int;
                let c: usize = v.x_start.0 as usize + vx;
                let dx: usize = if x >= c {
                    x - c
                } else {
                    c - x
                };
                let cell = &self.ys[x];
                let mut k: usize = 0;
                while k < cell.verticals.len()
                    invariant
                        cell.verticals@ == col(*self, x as int),
                        vx < v.combined@.len(),
                        c == v.x_start.0 + vx,
                        dx == abs_diff(x as int, c as int),
                        k <= cell.verticals@.len(),
                        before_cell == min2(before, strip_row_min(*self, *v, x as int, vx as int)),
                        d == min2(before_cell, strip_cell_min(*self, *v, x as int, vx as int, k as int)),
                    decreases cell.verticals@.len() - k,
                {
                    let dy = v.combined[vx].distance_to(&cell.verticals[k]);
                    let s: u64 = if dx >= u32::MAX as usize || dx as u64 + dy as u64 > u32::MAX as u64 {
                        u32::MAX as u64
                    } else {
                        dx as u64 + dy as u64
                    };
                    if s < d {
                        d = s;
                    }
                    k = k + 1;
                }
                vx = vx + 1;
            }
            x = x + 1;
        }
        if d <= u32::MAX as u64 {
            Distance::CanBeExtendend { distance: d as u32 }
        } else {
            Distance::CannotBeExtended
        }
    }
}

impl MultiNode {
    fn clone_cell(&self) -> (c: MultiNode)
        ensures
            c.verticals@ == self.verticals@,
    {
        let mut verticals: Vec<VerticalComponent> = Vec::new();
        let mut i: usize = 0;
        while i < self.verticals.len()
            invariant
                i <= self.verticals@.len(),
                verticals@ == self.verticals@.subrange(0, i as int),
            decreases self.verticals@.len() - i,
        {
            verticals.push(self.verticals[i]);
            i = i + 1;
            proof {
                assert(verticals@ =~= self.verticals@.subrange(0, i as int));
            }
        }
        proof {
            assert(verticals@ =~= self.verticals@);
        }
        MultiNode { verticals }
    }
}

} // verus!
