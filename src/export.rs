use vstd::prelude::*;

use crate::track::{cell_mean, col, GraphMultiNode};

verus! {

/// The `(column, mean row)` points of the first `n` columns of `g` that hold intervals.
pub open spec fn plot_points(g: GraphMultiNode, n: int) -> Seq<(u32, u32)>
    decreases n,
{
    if n <= 0 {
        Seq::empty()
    } else {
        let prev = plot_points(g, n - 1);
        match cell_mean(col(g, n - 1)) {
            Some(m) => prev.push(((n - 1) as u32, m as u32)),
            None => prev,
        }
    }
}

impl GraphMultiNode {
    /// The `(column, mean row)` point of every column that holds intervals, left to right.
    pub fn to_plot_grid(&self) -> (r: Vec<(u32, u32)>)
        requires
            self.ys@.len() <= u32::MAX,
        ensures
            r@ == plot_points(*self, self.ys@.len() as int),
    {
        let mut r: Vec<(u32, u32)> = Vec::new();
        let mut x: usize = 0;
        while x < self.ys.len()
            invariant
                self.ys@.len() <= u32::MAX,
                x <= self.ys@.len(),
                r@ == plot_points(*self, x as int),
            decreases self.ys@.len() - x,
        {
            match self.ys[x].mean() {
                Some(m) => r.push((x as u32, m)),
                None => {},
            }
            x = x + 1;
        }
        r
    }
}

/// The position of grid step `i` of `steps` along an axis, as the fraction
/// `(i + 1) / (steps + 1)` of the axis range.
pub fn grid_fraction(i: u32, steps: u32) -> (r: (u64, u64))
    ensures
        r.0 == i + 1,
        r.1 == steps + 1,
{
    (i as u64 + 1, steps as u64 + 1)
}

/// Every step of a grid maps strictly inside the axis limits: with the range
/// `lo < hi` scaled by `steps + 1`, the mapped value
/// `lo + (i + 1) * (hi - lo) / (steps + 1)` lies strictly between `lo` and `hi`,
/// for the first step and the last alike.
pub proof fn lemma_grid_inside_limits(i: int, steps: int, lo: int, hi: int)
    requires
        0 <= i < steps,
        lo < hi,
    ensures
        lo * (steps + 1) < lo * (steps + 1) + (i + 1) * (hi - lo),
        lo * (steps + 1) + (i + 1) * (hi - lo) < hi * (steps + 1),
{
    assert((i + 1) * (hi - lo) > 0) by (nonlinear_arith)
        requires
            i + 1 > 0,
            hi - lo > 0,
    ;
    assert((i + 1) * (hi - lo) < (steps + 1) * (hi - lo)) by (nonlinear_arith)
        requires
            i + 1 < steps + 1,
            hi - lo > 0,
    ;
    assert(lo * (steps + 1) + (steps + 1) * (hi - lo) == hi * (steps + 1)) by (nonlinear_arith);
}

/// Some curve has a point in column `x`.
pub open spec fn in_some_plot(plots: Seq<Seq<(u32, u32)>>, x: u32) -> bool {
    exists|c: int, k: int| 0 <= c < plots.len() && 0 <= k < plots[c].len() && (#[trigger] plots[c][k]).0 == x
}

/// The row of the first point of `points` in column `x`, if any.
pub open spec fn value_at(points: Seq<(u32, u32)>, x: u32, k: int) -> Option<u32>
    decreases points.len() - k,
{
    if k >= points.len() || k < 0 {
        None
    } else if points[k].0 == x {
        Some(points[k].1)
    } else {
        value_at(points, x, k + 1)
    }
}

fn find_value(points: &Vec<(u32, u32)>, x: u32) -> (r: Option<u32>)
    ensures
        r == value_at(points@, x, 0),
{
    let mut k: usize = 0;
    while k < points.len()
        invariant
            k <= points@.len(),
            value_at(points@, x, 0) == value_at(points@, x, k as int),
        decreases points@.len() - k,
    {
        if points[k].0 == x {
            return Some(points[k].1);
        }
        k = k + 1;
    }
    None
}

/// `x` lies above `low`, if there is a `low`.
pub open spec fn is_above(low: Option<u32>, x: u32) -> bool {
    match low {
        Some(l) => x > l,
        None => true,
    }
}

/// A least column has been found and it is at most `x`.
pub open spec fn bounded_below(best: Option<u32>, x: u32) -> bool {
    match best {
        Some(b) => b <= x,
        None => false,
    }
}

/// The smallest column above `low` (or any column, for no `low`) among all points.
fn next_column(plots: &Vec<Vec<(u32, u32)>>, low: Option<u32>) -> (r: Option<u32>)
    ensures
        r matches Some(x) ==> in_some_plot(plots@.map_values(|p: Vec<(u32, u32)>| p@), x) && is_above(low, x),
        forall|c: int, k: int|
            0 <= c < plots@.len() && 0 <= k < plots@[c]@.len() && is_above(low, (#[trigger] plots@[c]@[k]).0)
                ==> bounded_below(r, plots@[c]@[k].0),
{
    let ghost view = plots@.map_values(|p: Vec<(u32, u32)>| p@);
    let mut best: Option<u32> = None;
    let mut c: usize = 0;
    while c < plots.len()
        invariant
            view == plots@.map_values(|p: Vec<(u32, u32)>| p@),
            c <= plots@.len(),
            best matches Some(x) ==> in_some_plot(view, x) && is_above(low, x),
            forall|cc: int, k: int|
                0 <= cc < c && 0 <= k < plots@[cc]@.len() && is_above(low, (#[trigger] plots@[cc]@[k]).0)
                    ==> bounded_below(best, plots@[cc]@[k].0),
        decreases plots@.len() - c,
    {
        let points = &plots[c];
        let mut k: usize = 0;
        while k < points.len()
            invariant
                view == plots@.map_values(|p: Vec<(u32, u32)>| p@),
                c < plots@.len(),
                points == plots@[c as int],
                k <= points@.len(),
                best matches Some(x) ==> in_some_plot(view, x) && is_above(low, x),
                forall|cc: int, kk: int|
                    ((0 <= cc < c && 0 <= kk < plots@[cc]@.len()) || (cc == c && 0 <= kk < k)) && is_above(low, (#[trigger] plots@[cc]@[kk]).0)
                        ==> bounded_below(best, plots@[cc]@[kk].0),
            decreases points@.len() - k,
        {
            let x = points[k].0;
            let above = match low {
                Some(l) => x > l,
                None => true,
            };
            if above {
                let better = match best {
                    Some(b) => x < b,
                    None => true,
                };
                if better {
                    best = Some(x);
                    proof {
                        assert(view[c as int][k as int] == plots@[c as int]@[k as int]);
                    }
                }
            }
            k = k + 1;
        }
        c = c + 1;
    }
    best
}

/// The table behind the exported text: the columns that any curve has a point
/// in, ascending and without repeats, and for each curve its row in each of
/// those columns, if it has one.
pub fn csv_grid(plots: &Vec<Vec<(u32, u32)>>) -> (r: (Vec<u32>, Vec<Vec<Option<u32>>>))
    ensures
        forall|i: int, j: int| 0 <= i < j < r.0@.len() ==> r.0@[i] < r.0@[j],
        forall|i: int| 0 <= i < r.0@.len() ==> in_some_plot(plots@.map_values(|p: Vec<(u32, u32)>| p@), #[trigger] r.0@[i]),
        forall|c: int, k: int|
            0 <= c < plots@.len() && 0 <= k < plots@[c]@.len() ==> r.0@.contains((#[trigger] plots@[c]@[k]).0),
        r.1@.len() == plots@.len(),
        forall|c: int| 0 <= c < plots@.len() ==> (#[trigger] r.1@[c])@.len() == r.0@.len(),
        forall|c: int, i: int| 0 <= c < plots@.len() && 0 <= i < r.0@.len() ==> #[trigger] r.1@[c]@[i] == value_at(plots@[c]@, r.0@[i], 0),
{
    let ghost view = plots@.map_values(|p: Vec<(u32, u32)>| p@);
    let mut xs: Vec<u32> = Vec::new();
    let mut low: Option<u32> = None;
    loop
        invariant
            view == plots@.map_values(|p: Vec<(u32, u32)>| p@),
            forall|i: int, j: int| 0 <= i < j < xs@.len() ==> xs@[i] < xs@[j],
            forall|i: int| 0 <= i < xs@.len() ==> in_some_plot(view, #[trigger] xs@[i]),
            xs@.len() > 0 <==> low is Some,
            low matches Some(l) ==> xs@[xs@.len() - 1] == l,
            forall|c: int, k: int|
                0 <= c < plots@.len() && 0 <= k < plots@[c]@.len() && (low matches Some(l) ==> (#[trigger] plots@[c]@[k]).0 <= l)
                    && low is Some ==> xs@.contains(plots@[c]@[k].0),
        ensures
            forall|i: int, j: int| 0 <= i < j < xs@.len() ==> xs@[i] < xs@[j],
            forall|i: int| 0 <= i < xs@.len() ==> in_some_plot(view, #[trigger] xs@[i]),
            forall|c: int, k: int| 0 <= c < plots@.len() && 0 <= k < plots@[c]@.len() ==> xs@.contains((#[trigger] plots@[c]@[k]).0),
        decreases (u32::MAX as int + 1) - match low {
            Some(l) => l as int + 1,
            None => 0,
        },
    {
        let next = next_column(plots, low);
        match next {
            None => {
                break;
            },
            Some(x) => {
                let ghost before = xs@;
                xs.push(x);
                proof {
                    assert forall|c: int, k: int|
                        0 <= c < plots@.len() && 0 <= k < plots@[c]@.len() && (#[trigger] plots@[c]@[k]).0 <= x
                            implies xs@.contains(plots@[c]@[k].0) by {
                        let v = plots@[c]@[k].0;
                        if v == x {
                            assert(xs@[xs@.len() - 1] == x);
                        } else {
                            let m = choose|m: int| 0 <= m < before.len() && before[m] == v;
                            assert(xs@[m] == v);
                        }
                    }
                    assert forall|i: int| 0 <= i < xs@.len() implies in_some_plot(view, #[trigger] xs@[i]) by {
                        if i < before.len() {
                            assert(xs@[i] == before[i]);
                        }
                    }
                }
                low = Some(x);
            },
        }
    }
    let mut table: Vec<Vec<Option<u32>>> = Vec::new();
    let mut c: usize = 0;
    while c < plots.len()
        invariant
            c <= plots@.len(),
            table@.len() == c,
            forall|cc: int| 0 <= cc < c ==> (#[trigger] table@[cc])@.len() == xs@.len(),
            forall|cc: int, i: int| 0 <= cc < c && 0 <= i < xs@.len() ==> #[trigger] table@[cc]@[i] == value_at(plots@[cc]@, xs@[i], 0),
        decreases plots@.len() - c,
    {
        let mut row: Vec<Option<u32>> = Vec::new();
        let mut i: usize = 0;
        while i < xs.len()
            invariant
                c < plots@.len(),
                i <= xs@.len(),
                row@.len() == i,
                forall|j: int| 0 <= j < i ==> #[trigger] row@[j] == value_at(plots@[c as int]@, xs@[j], 0),
            decreases xs@.len() - i,
        {
            row.push(find_value(&plots[c], xs[i]));
            i = i + 1;
        }
        table.push(row);
        c = c + 1;
    }
    (xs, table)
}

} // verus!
