use vstd::prelude::*;

use crate::raster::Mask;

verus! {

/// A closed interval `[y_min, y_max]` of rows within one column.
#[derive(Clone, Copy, Debug, PartialEq, Eq, Structural)]
pub struct VerticalComponent {
    pub y_min: u32,
    pub y_max: u32,
}

/// The gap between two row intervals: zero when they overlap or touch.
pub open spec fn gap(a: VerticalComponent, b: VerticalComponent) -> int {
    if a.y_min > b.y_max {
        a.y_min - b.y_max
    } else if b.y_min > a.y_max {
        b.y_min - a.y_max
    } else {
        0
    }
}

impl VerticalComponent {
    pub open spec fn wf(&self) -> bool {
        self.y_min <= self.y_max
    }

    pub open spec fn contains(&self, y: int) -> bool {
        self.y_min <= y <= self.y_max
    }

    /// The gap between the two intervals.
    pub fn distance_to(&self, other: &Self) -> (d: u32)
        ensures
            d == gap(*self, *other),
    {
        if self.y_min > other.y_max {
            self.y_min - other.y_max
        } else if other.y_min > self.y_max {
            other.y_min - self.y_max
        } else {
            0
        }
    }

    /// The middle row, rounded down.
    pub fn mean(&self) -> (m: u32)
        ensures
            m == (self.y_min + self.y_max) / 2,
    {
        ((self.y_min as u64 + self.y_max as u64) / 2) as u32
    }
}

/// Some run of `runs` holds row `y`.
pub open spec fn covered(runs: Seq<VerticalComponent>, y: int) -> bool {
    exists|i: int| 0 <= i < runs.len() && (#[trigger] runs[i]).contains(y)
}

/// `runs` are exactly the maximal runs of hits of column `x` of `m`, from top to bottom.
pub open spec fn column_runs_spec(m: Mask, x: int, runs: Seq<VerticalComponent>) -> bool {
    &&& forall|i: int| 0 <= i < runs.len() ==> (#[trigger] runs[i]).wf() && runs[i].y_max < m.height
    &&& forall|i: int, y: int|
        0 <= i < runs.len() && (#[trigger] runs[i]).contains(y) ==> #[trigger] m.hit(x, y)
    &&& forall|i: int|
        0 <= i < runs.len() ==> (#[trigger] runs[i]).y_min == 0 || !m.hit(x, runs[i].y_min - 1)
    &&& forall|i: int|
        0 <= i < runs.len() ==> (#[trigger] runs[i]).y_max + 1 == m.height || !m.hit(
            x,
            runs[i].y_max + 1,
        )
    &&& forall|i: int, j: int| 0 <= i < j < runs.len() ==> (#[trigger] runs[i]).y_max < (#[trigger] runs[j]).y_min
    &&& forall|y: int| 0 <= y < m.height && #[trigger] m.hit(x, y) ==> covered(runs, y)
}

proof fn lemma_covered_push(runs: Seq<VerticalComponent>, r: VerticalComponent, y: int)
    requires
        covered(runs, y),
    ensures
        covered(runs.push(r), y),
{
    let i = choose|i: int| 0 <= i < runs.len() && (#[trigger] runs[i]).contains(y);
    assert(runs.push(r)[i] == runs[i]);
}

/// Splits column `x` of `m` into its maximal runs of hits, top to bottom.
pub fn column_runs(m: &Mask, x: u32) -> (runs: Vec<VerticalComponent>)
    requires
        m.wf(),
        x < m.width,
    ensures
        column_runs_spec(*m, x as int, runs@),
{
    let mut runs: Vec<VerticalComponent> = Vec::new();
    let mut in_run = false;
    let mut start: u32 = 0;
    let mut y: u32 = 0;
    while y < m.height
        invariant
            m.wf(),
            x < m.width,
            y <= m.height,
            in_run ==> start < y,
            in_run ==> forall|yy: int| start <= yy < y ==> #[trigger] m.hit(x as int, yy),
            in_run ==> start == 0 || !m.hit(x as int, start - 1),
            !in_run ==> y == 0 || !m.hit(x as int, y - 1),
            in_run ==> forall|i: int| 0 <= i < runs@.len() ==> (#[trigger] runs@[i]).y_max < start,
            forall|i: int| 0 <= i < runs@.len() ==> (#[trigger] runs@[i]).wf() && runs@[i].y_max + 1 < y,
            forall|i: int, yy: int|
                0 <= i < runs@.len() && (#[trigger] runs@[i]).contains(yy) ==> #[trigger] m.hit(x as int, yy),
            forall|i: int|
                0 <= i < runs@.len() ==> (#[trigger] runs@[i]).y_min == 0 || !m.hit(
                    x as int,
                    runs@[i].y_min - 1,
                ),
            forall|i: int| 0 <= i < runs@.len() ==> !m.hit(x as int, (#[trigger] runs@[i]).y_max + 1),
            forall|i: int, j: int|
                0 <= i < j < runs@.len() ==> (#[trigger] runs@[i]).y_max < (#[trigger] runs@[j]).y_min,
            forall|yy: int|
                0 <= yy < y && #[trigger] m.hit(x as int, yy) ==> covered(runs@, yy) || (in_run
                    && start <= yy),
        decreases m.height - y,
    {
        let h = m.get(x, y);
        if h {
            if !in_run {
                in_run = true;
                start = y;
            }
        } else if in_run {
            let r = VerticalComponent { y_min: start, y_max: y - 1 };
            let ghost old_runs = runs@;
            runs.push(r);
            in_run = false;
            proof {
                assert forall|yy: int| 0 <= yy <= y && #[trigger] m.hit(x as int, yy) implies covered(
                    runs@,
                    yy,
                ) by {
                    if covered(old_runs, yy) {
                        lemma_covered_push(old_runs, r, yy);
                    } else {
                        assert(runs@[runs@.len() - 1] == r);
                    }
                }
            }
        }
        y = y + 1;
    }
    if in_run {
        let r = VerticalComponent { y_min: start, y_max: y - 1 };
        let ghost old_runs = runs@;
        runs.push(r);
        proof {
            assert forall|yy: int| 0 <= yy < y && #[trigger] m.hit(x as int, yy) implies covered(
                runs@,
                yy,
            ) by {
                if covered(old_runs, yy) {
                    lemma_covered_push(old_runs, r, yy);
                } else {
                    assert(runs@[runs@.len() - 1] == r);
                }
            }
        }
    }
    runs
}

/// The runs of one column.
#[derive(Clone, Debug)]
pub struct VerticalComponents {
    pub components: Vec<VerticalComponent>,
}

impl VerticalComponents {
    pub fn component_count(&self) -> (n: usize)
        ensures
            n == self.components@.len(),
    {
        self.components.len()
    }
}

/// The runs of every column of a mask.
pub struct VerticalComponentList {
    pub components: Vec<VerticalComponents>,
}

impl VerticalComponentList {
    /// Splits every column of `mask` into its maximal runs of hits.
    pub fn convert(mask: &Mask) -> (r: VerticalComponentList)
        requires
            mask.wf(),
        ensures
            r.components@.len() == mask.width,
            forall|x: int|
                0 <= x < mask.width ==> column_runs_spec(
                    *mask,
                    x,
                    #[trigger] r.components@[x].components@,
                ),
    {
        let mut components: Vec<VerticalComponents> = Vec::new();
        let mut x: u32 = 0;
        while x < mask.width
            invariant
                mask.wf(),
                x <= mask.width,
                components@.len() == x,
                forall|xx: int|
                    0 <= xx < x ==> column_runs_spec(
                        *mask,
                        xx,
                        #[trigger] components@[xx].components@,
                    ),
            decreases mask.width - x,
        {
            let runs = column_runs(mask, x);
            components.push(VerticalComponents { components: runs });
            x = x + 1;
        }
        VerticalComponentList { components }
    }

    /// The number of columns.
    pub fn component_count(&self) -> (n: usize)
        ensures
            n == self.components@.len(),
    {
        self.components.len()
    }

    /// The largest number of runs in any column, `None` for no columns.
    pub fn max_component_count(&self) -> (m: Option<usize>)
        ensures
            m is None <==> self.components@.len() == 0,
            m matches Some(v) ==> (forall|x: int|
                0 <= x < self.components@.len() ==> (#[trigger] self.components@[x]).components@.len()
                    <= v) && (exists|x: int|
                0 <= x < self.components@.len() && (#[trigger] self.components@[x]).components@.len()
                    == v),
    {
        if self.components.len() == 0 {
            return None;
        }
        let mut best: usize = self.components[0].component_count();
        let mut i: usize = 1;
        while i < self.components.len()
            invariant
                1 <= i <= self.components@.len(),
                forall|x: int| 0 <= x < i ==> (#[trigger] self.components@[x]).components@.len() <= best,
                exists|x: int| 0 <= x < i && (#[trigger] self.components@[x]).components@.len() == best,
            decreases self.components@.len() - i,
        {
            let c = self.components[i].component_count();
            if c > best {
                best = c;
            }
            i = i + 1;
        }
        Some(best)
    }

    /// The number of runs of each column.
    pub fn counts(&self) -> (c: Vec<usize>)
        ensures
            c@.len() == self.components@.len(),
            forall|x: int| 0 <= x < c@.len() ==> #[trigger] c@[x] == self.components@[x].components@.len(),
    {
        let mut c: Vec<usize> = Vec::new();
        let mut i: usize = 0;
        while i < self.components.len()
            invariant
                i <= self.components@.len(),
                c@.len() == i,
                forall|x: int| 0 <= x < i ==> #[trigger] c@[x] == self.components@[x].components@.len(),
            decreases self.components@.len() - i,
        {
            c.push(self.components[i].component_count());
            i = i + 1;
        }
        c
    }
}

} // verus!
