use vstd::prelude::*;

use crate::color::Color;
use crate::geometry::UnitInterval;
use crate::mask::{color_filtering, is_color_mask};
use crate::raster::{Image, Mask};
use crate::verticals::{column_runs_spec, VerticalComponent, VerticalComponentList};

verus! {

/// A pixel position with the colour found there.
#[derive(Clone, Copy, Debug, PartialEq, Eq, Structural)]
pub struct ImagePixel {
    pub x: u32,
    pub y: u32,
    pub color: Color,
}

/// Configuration of the seeded tracer.
#[derive(Clone, Copy, Debug)]
pub struct LineDetectionSettings {
    /// Colour distance below which a pixel belongs to the traced line.
    pub max_color_diff: u8,
    /// How far, as a fraction of the height, the line may jump between columns.
    pub line_jump_fraction: UnitInterval,
}

impl Default for LineDetectionSettings {
    fn default() -> (s: LineDetectionSettings)
        ensures
            s.max_color_diff == 15,
            s.line_jump_fraction == (UnitInterval { num: 7, den: 200 }),
    {
        LineDetectionSettings { max_color_diff: 15, line_jump_fraction: UnitInterval { num: 7, den: 200 } }
    }
}

pub open spec fn run_mean(v: VerticalComponent) -> u32 {
    ((v.y_min + v.y_max) / 2) as u32
}

/// Run `v` stays within `offset` of the interval `prev`.
pub open spec fn follows(v: VerticalComponent, prev: VerticalComponent, offset: int) -> bool {
    let lo = if v.y_min + offset > u32::MAX { u32::MAX as int } else { v.y_min + offset };
    let hi = if v.y_max - offset < 0 { 0 } else { v.y_max - offset };
    lo >= prev.y_min && hi <= prev.y_max
}

/// The index of the first run of `runs` from position `i` on that follows `prev`.
pub open spec fn first_follower(runs: Seq<VerticalComponent>, prev: VerticalComponent, offset: int, i: int) -> int
    decreases runs.len() - i,
{
    if i >= runs.len() || i < 0 {
        runs.len() as int
    } else if follows(runs[i], prev, offset) {
        i
    } else {
        first_follower(runs, prev, offset, i + 1)
    }
}

/// The points found walking right from column `x`, starting from interval `prev`.
pub open spec fn walk_right(cols: Seq<Seq<VerticalComponent>>, x: int, prev: VerticalComponent, offset: int) -> Seq<(u32, u32)>
    decreases cols.len() - x,
{
    if x >= cols.len() || x < 0 {
        Seq::empty()
    } else {
        let i = first_follower(cols[x], prev, offset, 0);
        if i < cols[x].len() {
            seq![(x as u32, run_mean(cols[x][i]))] + walk_right(cols, x + 1, cols[x][i], offset)
        } else {
            Seq::empty()
        }
    }
}

/// The points found walking left from column `x`, starting from interval `prev`,
/// in the order they are visited.
pub open spec fn walk_left(cols: Seq<Seq<VerticalComponent>>, x: int, prev: VerticalComponent, offset: int) -> Seq<(u32, u32)>
    decreases x + 1,
{
    if x < 0 || x >= cols.len() {
        Seq::empty()
    } else {
        let i = first_follower(cols[x], prev, offset, 0);
        if i < cols[x].len() {
            seq![(x as u32, run_mean(cols[x][i]))] + walk_left(cols, x - 1, cols[x][i], offset)
        } else {
            Seq::empty()
        }
    }
}

/// The index of the first run of `runs` holding row `y`.
pub open spec fn run_holding(runs: Seq<VerticalComponent>, y: int, i: int) -> int
    decreases runs.len() - i,
{
    if i >= runs.len() || i < 0 {
        runs.len() as int
    } else if runs[i].contains(y) {
        i
    } else {
        run_holding(runs, y, i + 1)
    }
}

/// The traced path over the runs `cols` of every column, from seed `(tx, ty)`.
pub open spec fn traced(cols: Seq<Seq<VerticalComponent>>, tx: int, ty: int, offset: int) -> Seq<(u32, u32)> {
    let s = run_holding(cols[tx], ty, 0);
    if s < cols[tx].len() {
        let seed = cols[tx][s];
        walk_left(cols, tx - 1, seed, offset).reverse() + seq![(tx as u32, run_mean(seed))] + walk_right(
            cols,
            tx + 1,
            seed,
            offset,
        )
    } else {
        seq![(tx as u32, ty as u32)]
    }
}

proof fn lemma_first_follower_bound(runs: Seq<VerticalComponent>, prev: VerticalComponent, offset: int, i: int)
    requires
        0 <= i <= runs.len(),
    ensures
        i <= first_follower(runs, prev, offset, i) <= runs.len(),
    decreases runs.len() - i,
{
    if i < runs.len() && !follows(runs[i], prev, offset) {
        lemma_first_follower_bound(runs, prev, offset, i + 1);
    }
}

proof fn lemma_run_holding_bound(runs: Seq<VerticalComponent>, y: int, i: int)
    requires
        0 <= i <= runs.len(),
    ensures
        i <= run_holding(runs, y, i) <= runs.len(),
    decreases runs.len() - i,
{
    if i < runs.len() && !runs[i].contains(y) {
        lemma_run_holding_bound(runs, y, i + 1);
    }
}

fn follows_exec(v: &VerticalComponent, prev: &VerticalComponent, offset: u32) -> (r: bool)
    ensures
        r == follows(*v, *prev, offset as int),
{
    let lo: u32 = if v.y_min as u64 + offset as u64 > u32::MAX as u64 {
        u32::MAX
    } else {
        v.y_min + offset
    };
    let hi: u32 = if v.y_max < offset {
        0
    } else {
        v.y_max - offset
    };
    lo >= prev.y_min && hi <= prev.y_max
}

fn find_follower(runs: &Vec<VerticalComponent>, prev: &VerticalComponent, offset: u32) -> (r: usize)
    ensures
        r == first_follower(runs@, *prev, offset as int, 0),
        r <= runs@.len(),
{
    proof {
        lemma_first_follower_bound(runs@, *prev, offset as int, 0);
    }
    let mut i: usize = 0;
    while i < runs.len()
        invariant
            i <= runs@.len(),
            first_follower(runs@, *prev, offset as int, 0) == first_follower(runs@, *prev, offset as int, i as int),
        decreases runs@.len() - i,
    {
        if follows_exec(&runs[i], prev, offset) {
            return i;
        }
        i = i + 1;
    }
    i
}

fn find_holding(runs: &Vec<VerticalComponent>, y: u32) -> (r: usize)
    ensures
        r == run_holding(runs@, y as int, 0),
        r <= runs@.len(),
{
    proof {
        lemma_run_holding_bound(runs@, y as int, 0);
    }
    let mut i: usize = 0;
    while i < runs.len()
        invariant
            i <= runs@.len(),
            run_holding(runs@, y as int, 0) == run_holding(runs@, y as int, i as int),
        decreases runs@.len() - i,
    {
        if runs[i].y_min <= y && y <= runs[i].y_max {
            return i;
        }
        i = i + 1;
    }
    i
}

/// The runs of every column, as plain sequences.
pub open spec fn runs_view(l: VerticalComponentList) -> Seq<Seq<VerticalComponent>> {
    Seq::new(l.components@.len(), |x: int| l.components@[x].components@)
}

/// Traces from the seed `(tx, ty)` over the runs of `list`: the run of the seed
/// column holding the seed row, then column by column to the left and to the
/// right the first run that stays within `offset` of the previous one.
pub fn trace(list: &VerticalComponentList, tx: u32, ty: u32, offset: u32) -> (path: Vec<(u32, u32)>)
    requires
        tx < list.components@.len(),
        list.components@.len() <= u32::MAX,
    ensures
        path@ == traced(runs_view(*list), tx as int, ty as int, offset as int),
{
    let ghost cols = runs_view(*list);
    let cols_n = list.components.len();
    let s = find_holding(&list.components[tx as usize].components, ty);
    proof {
        assert(list.components@[tx as int].components@ == cols[tx as int]);
    }
    if s == list.components[tx as usize].components.len() {
        let mut single: Vec<(u32, u32)> = Vec::new();
        single.push((tx, ty));
        proof {
            assert(single@ =~= seq![(tx, ty)]);
        }
        return single;
    }
    let seed = list.components[tx as usize].components[s];
    // walk to the right
    let mut right: Vec<(u32, u32)> = Vec::new();
    let mut prev = seed;
    let mut x: usize = tx as usize + 1;
    while x < cols_n
        invariant
            cols == runs_view(*list),
            cols_n == cols.len(),
            cols_n <= u32::MAX + 1,
            tx < cols_n,
            tx + 1 <= x <= cols_n,
            right@ + walk_right(cols, x as int, prev, offset as int) == walk_right(cols, tx + 1, seed, offset as int),
        ensures
            right@ == walk_right(cols, tx + 1, seed, offset as int),
        decreases cols_n - x,
    {
        let runs = &list.components[x].components;
        proof {
            assert(runs@ == cols[x as int]);
        }
        let i = find_follower(runs, &prev, offset);
        if i == runs.len() {
            proof {
                assert(walk_right(cols, x as int, prev, offset as int) == Seq::<(u32, u32)>::empty());
                assert(right@ + Seq::<(u32, u32)>::empty() =~= right@);
            }
            break;
        }
        let v = runs[i];
        let ghost before = right@;
        right.push((x as u32, v.mean()));
        proof {
            assert(walk_right(cols, x as int, prev, offset as int) == seq![(x as u32, run_mean(v))] + walk_right(cols, x + 1, v, offset as int));
            assert(right@ + walk_right(cols, x + 1, v, offset as int) =~= before + (seq![(x as u32, run_mean(v))] + walk_right(cols, x + 1, v, offset as int)));
        }
        prev = v;
        x = x + 1;
    }
    proof {
        if x >= cols_n {
            assert(right@ + Seq::<(u32, u32)>::empty() =~= right@);
        }
        assert(right@ == walk_right(cols, tx + 1, seed, offset as int));
    }
    // walk to the left
    let mut left: Vec<(u32, u32)> = Vec::new();
    let mut prev = seed;
    let mut k: usize = tx as usize;
    while k > 0
        invariant
            cols == runs_view(*list),
            cols_n == cols.len(),
            tx < cols_n,
            k <= tx,
            left@ + walk_left(cols, k - 1, prev, offset as int) == walk_left(cols, tx - 1, seed, offset as int),
        ensures
            left@ == walk_left(cols, tx - 1, seed, offset as int),
        decreases k,
    {
        let x = k - 1;
        let runs = &list.components[x].components;
        proof {
            assert(runs@ == cols[x as int]);
        }
        let i = find_follower(runs, &prev, offset);
        if i == runs.len() {
            proof {
                assert(walk_left(cols, x as int, prev, offset as int) == Seq::<(u32, u32)>::empty());
                assert(left@ + Seq::<(u32, u32)>::empty() =~= left@);
            }
            break;
        }
        let v = runs[i];
        let ghost before = left@;
        left.push((x as u32, v.mean()));
        proof {
            assert(walk_left(cols, x as int, prev, offset as int) == seq![(x as u32, run_mean(v))] + walk_left(cols, x - 1, v, offset as int));
            assert(left@ + walk_left(cols, x - 1, v, offset as int) =~= before + (seq![(x as u32, run_mean(v))] + walk_left(cols, x - 1, v, offset as int)));
        }
        prev = v;
        k = k - 1;
    }
    proof {
        if k == 0 {
            assert(walk_left(cols, -1, prev, offset as int) == Seq::<(u32, u32)>::empty());
            assert(left@ + Seq::<(u32, u32)>::empty() =~= left@);
        }
        assert(left@ == walk_left(cols, tx - 1, seed, offset as int));
    }
    let mut path: Vec<(u32, u32)> = Vec::new();
    let n = left.len();
    let mut j: usize = 0;
    while j < n
        invariant
            n == left@.len(),
            j <= n,
            path@ == left@.reverse().subrange(0, j as int),
        decreases n - j,
    {
        path.push(left[n - 1 - j]);
        j = j + 1;
        proof {
            assert(path@ =~= left@.reverse().subrange(0, j as int));
        }
    }
    path.push((tx, seed.mean()));
    let mut j: usize = 0;
    let ghost head = path@;
    while j < right.len()
        invariant
            j <= right@.len(),
            path@ == head + right@.subrange(0, j as int),
        decreases right@.len() - j,
    {
        path.push(right[j]);
        j = j + 1;
        proof {
            assert(path@ =~= head + right@.subrange(0, j as int));
        }
    }
    proof {
        assert(left@.reverse().subrange(0, n as int) =~= left@.reverse());
        assert(right@.subrange(0, right@.len() as int) =~= right@);
        assert(path@ =~= left@.reverse() + seq![(tx, run_mean(seed))] + right@);
    }
    path
}

/// `cols` are the runs of every column of `m`.
pub open spec fn runs_of_mask(m: Mask, cols: Seq<Seq<VerticalComponent>>) -> bool {
    cols.len() == m.width && forall|x: int| 0 <= x < m.width ==> column_runs_spec(m, x, #[trigger] cols[x])
}

/// `path` is the trace from `p` over the runs of the mask of `p`'s colour in `img`.
pub open spec fn is_seed_trace(img: Image, p: ImagePixel, settings: LineDetectionSettings, path: Seq<(u32, u32)>) -> bool {
    exists|m: Mask, cols: Seq<Seq<VerticalComponent>>|
        is_color_mask(img, p.color, settings.max_color_diff, m) && #[trigger] runs_of_mask(m, cols) && path == traced(
            cols,
            p.x as int,
            p.y as int,
            (img.height as int * settings.line_jump_fraction.num as int) / settings.line_jump_fraction.den as int,
        )
}

impl Image {
    /// Traces a line through the pixels of the seed's colour: masks that colour,
    /// splits the mask into runs and walks from the seed's run to the left and to
    /// the right, allowing jumps of the jump fraction of the height.
    pub fn detect_line(&self, first_point: ImagePixel, settings: &LineDetectionSettings) -> (path: Vec<(u32, u32)>)
        requires
            self.wf(),
            settings.line_jump_fraction.wf(),
            first_point.x < self.width,
        ensures
            is_seed_trace(*self, first_point, *settings, path@),
    {
        let filtered = color_filtering(self, &first_point.color, settings.max_color_diff);
        let hit_components = VerticalComponentList::convert(&filtered);
        let offset = settings.line_jump_fraction.scale(filtered.height);
        let path = trace(&hit_components, first_point.x, first_point.y, offset);
        proof {
            let f = settings.line_jump_fraction;
            let p = filtered.height as int * f.num as int;
            assert(offset == p / f.den as int) by (nonlinear_arith)
                requires
                    offset * f.den <= p,
                    p < (offset + 1) * f.den,
                    f.den > 0,
            ;
            let cols = runs_view(hit_components);
            assert(runs_of_mask(filtered, cols));
        }
        path
    }
}

} // verus!
