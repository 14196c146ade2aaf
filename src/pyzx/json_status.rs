//! Critical-path count of phase-expensive nodes over a placed graph.
use vstd::prelude::*;

verus! {

/// What occupies a cell of the plane: a phase-expensive node, another node,
/// or a connector to the row with the given index in the same column.
#[derive(Debug, Clone, Copy, PartialEq, Eq, Structural)]
pub enum PlaneElement {
    T,
    Ordinal,
    Cross(usize),
}

/// A placed graph: `rows[y][x]` is the cell of row `y` at column `x`.
#[derive(Debug, Clone)]
pub struct Plane {
    pub rows: Vec<Vec<Option<PlaneElement>>>,
}

impl Plane {
    pub open spec fn height(&self) -> nat {
        self.rows@.len()
    }

    pub open spec fn width(&self) -> nat {
        self.rows@[0]@.len()
    }

    pub open spec fn cell(&self, y: int, x: int) -> Option<PlaneElement> {
        self.rows@[y]@[x]
    }

    /// At least one row and one column, every row as wide as the first, and
    /// every connector pointing at a row of the plane.
    pub open spec fn wf(&self) -> bool {
        &&& 1 <= self.height() <= usize::MAX
        &&& self.width() >= 1
        &&& forall|y: int| 0 <= y < self.height() ==> (#[trigger] self.rows@[y])@.len() == self.width()
        &&& forall|y: int, x: int|
            0 <= y < self.height() && 0 <= x < self.width() ==> match #[trigger] self.cell(y, x) {
                Some(PlaneElement::Cross(t)) => t < self.height(),
                _ => true,
            }
    }
}

pub open spec fn max_int(a: int, b: int) -> int {
    if a >= b {
        a
    } else {
        b
    }
}

/// Row `y`'s cell at column `x` applied to the counts `curr` of column `x`,
/// with `prev` the counts of column `x - 1`: the larger of the counts to its
/// left and, for a connector, to the left of its partner row, plus one for a
/// phase-expensive node; a connector writes the same value into its partner.
pub open spec fn step(pl: Plane, prev: Seq<int>, curr: Seq<int>, x: int, y: int) -> Seq<int> {
    let e = pl.cell(y, x);
    let base = match e {
        Some(PlaneElement::Cross(t)) => max_int(prev[y], prev[t as int]),
        _ => prev[y],
    };
    let v = base + if e == Some(PlaneElement::T) {
        1int
    } else {
        0
    };
    let c1 = curr.update(y, v);
    match e {
        Some(PlaneElement::Cross(t)) => c1.update(t as int, v),
        _ => c1,
    }
}

/// The counts of column `x` after rows `0..k` were swept.
pub open spec fn column(pl: Plane, prev: Seq<int>, x: int, k: int) -> Seq<int>
    decreases k,
{
    if k <= 0 {
        prev
    } else {
        step(pl, prev, column(pl, prev, x, k - 1), x, k - 1)
    }
}

/// The counts after columns `0..x` were swept; all zero before the first.
pub open spec fn counts(pl: Plane, x: int) -> Seq<int>
    decreases x,
{
    if x <= 0 {
        Seq::new(pl.height(), |y: int| 0int)
    } else {
        column(pl, counts(pl, x - 1), x - 1, pl.height() as int)
    }
}

/// The largest of `s[0..k]`.
pub open spec fn max_of(s: Seq<int>, k: int) -> int
    decreases k,
{
    if k <= 1 {
        s[0]
    } else {
        max_int(max_of(s, k - 1), s[k - 1])
    }
}

/// The critical-path count of phase-expensive nodes: the largest count of
/// the last column.
pub open spec fn depth(pl: Plane) -> int {
    max_of(counts(pl, pl.width() as int), pl.height() as int)
}

/// No cell of the plane is a connector.
pub open spec fn no_crosses(pl: Plane) -> bool {
    forall|y: int, x: int|
        0 <= y < pl.height() && 0 <= x < pl.width() ==> !(#[trigger] pl.cell(y, x) matches Some(PlaneElement::Cross(_)))
}

/// How many of the first `k` cells of row `y` are phase-expensive.
pub open spec fn t_count(pl: Plane, y: int, k: int) -> int
    decreases k,
{
    if k <= 0 {
        0
    } else {
        t_count(pl, y, k - 1) + if pl.cell(y, k - 1) == Some(PlaneElement::T) {
            1int
        } else {
            0
        }
    }
}

proof fn lemma_column_plain(pl: Plane, prev: Seq<int>, x: int, k: int)
    requires
        pl.wf(),
        no_crosses(pl),
        0 <= x < pl.width(),
        0 <= k <= pl.height(),
        prev.len() == pl.height(),
    ensures
        column(pl, prev, x, k).len() == prev.len(),
        forall|y: int|
            0 <= y < pl.height() ==> #[trigger] column(pl, prev, x, k)[y] == prev[y] + if y < k && pl.cell(y, x)
                == Some(PlaneElement::T) {
                1int
            } else {
                0
            },
    decreases k,
{
    if k > 0 {
        lemma_column_plain(pl, prev, x, k - 1);
        assert(!(pl.cell(k - 1, x) matches Some(PlaneElement::Cross(_))));
    }
}

proof fn lemma_counts_plain(pl: Plane, x: int)
    requires
        pl.wf(),
        no_crosses(pl),
        0 <= x <= pl.width(),
    ensures
        counts(pl, x).len() == pl.height(),
        forall|y: int| 0 <= y < pl.height() ==> #[trigger] counts(pl, x)[y] == t_count(pl, y, x),
    decreases x,
{
    if x > 0 {
        lemma_counts_plain(pl, x - 1);
        lemma_column_plain(pl, counts(pl, x - 1), x - 1, pl.height() as int);
    }
}

proof fn lemma_max_of_peak(s: Seq<int>, k: int, y0: int)
    requires
        0 <= y0 < k <= s.len(),
        forall|y: int| 0 <= y < k ==> #[trigger] s[y] <= s[y0],
    ensures
        max_of(s, k) == s[y0],
    decreases k,
{
    if k > 1 && y0 < k - 1 {
        lemma_max_of_peak(s, k - 1, y0);
    } else if k > 1 {
        lemma_max_of_at_most(s, k - 1, s[y0]);
    }
}

proof fn lemma_max_of_at_most(s: Seq<int>, k: int, b: int)
    requires
        1 <= k <= s.len(),
        forall|y: int| 0 <= y < k ==> #[trigger] s[y] <= b,
    ensures
        max_of(s, k) <= b,
    decreases k,
{
    if k > 1 {
        lemma_max_of_at_most(s, k - 1, b);
    }
}

/// A plane without connectors whose phase-expensive nodes all lie in row
/// `y0` has the number of those nodes as its depth.
pub proof fn lemma_single_row_depth(pl: Plane, y0: int)
    requires
        pl.wf(),
        no_crosses(pl),
        0 <= y0 < pl.height(),
        forall|y: int, x: int|
            0 <= y < pl.height() && 0 <= x < pl.width() && y != y0 ==> #[trigger] pl.cell(y, x) != Some(
                PlaneElement::T,
            ),
    ensures
        depth(pl) == t_count(pl, y0, pl.width() as int),
{
    let w = pl.width() as int;
    lemma_counts_plain(pl, w);
    let s = counts(pl, w);
    assert forall|y: int| 0 <= y < pl.height() implies #[trigger] s[y] <= s[y0] by {
        if y != y0 {
            lemma_t_count_zero(pl, y, w);
            lemma_t_count_nonneg(pl, y0, w);
        }
    }
    lemma_max_of_peak(s, pl.height() as int, y0);
}

proof fn lemma_t_count_zero(pl: Plane, y: int, k: int)
    requires
        0 <= k <= pl.width(),
        forall|x: int| 0 <= x < pl.width() ==> #[trigger] pl.cell(y, x) != Some(PlaneElement::T),
    ensures
        t_count(pl, y, k) == 0,
    decreases k,
{
    if k > 0 {
        lemma_t_count_zero(pl, y, k - 1);
    }
}

proof fn lemma_t_count_nonneg(pl: Plane, y: int, k: int)
    ensures
        t_count(pl, y, k) >= 0,
    decreases k,
{
    if k > 0 {
        lemma_t_count_nonneg(pl, y, k - 1);
    }
}

proof fn lemma_column_grows(pl: Plane, prev: Seq<int>, x: int, k: int)
    requires
        pl.wf(),
        0 <= x < pl.width(),
        0 <= k <= pl.height(),
        prev.len() == pl.height(),
    ensures
        column(pl, prev, x, k).len() == prev.len(),
        forall|i: int| 0 <= i < prev.len() ==> #[trigger] column(pl, prev, x, k)[i] >= prev[i],
    decreases k,
{
    if k > 0 {
        lemma_column_grows(pl, prev, x, k - 1);
        assert(pl.rows@[k - 1]@.len() == pl.width());
    }
}

proof fn lemma_counts_grow(pl: Plane, x1: int, x2: int)
    requires
        pl.wf(),
        0 <= x1 <= x2 <= pl.width(),
    ensures
        counts(pl, x2).len() == pl.height(),
        forall|i: int| 0 <= i < pl.height() ==> #[trigger] counts(pl, x2)[i] >= counts(pl, x1)[i],
    decreases x2,
{
    if x2 > 0 {
        lemma_counts_grow(pl, 0, x2 - 1);
        lemma_column_grows(pl, counts(pl, x2 - 1), x2 - 1, pl.height() as int);
    }
    if x2 > x1 {
        lemma_counts_grow(pl, x1, x2 - 1);
    }
}

proof fn lemma_column_cross(pl: Plane, prev: Seq<int>, x: int, a: int, b: int, k: int)
    requires
        pl.wf(),
        0 <= x < pl.width(),
        0 <= k <= pl.height(),
        prev.len() == pl.height(),
        0 <= a < pl.height(),
        0 <= b < pl.height(),
        a != b,
        pl.cell(a, x) == Some(PlaneElement::Cross(b as usize)),
        pl.cell(b, x) == Some(PlaneElement::Cross(a as usize)),
        forall|y: int|
            0 <= y < pl.height() && y != a && y != b ==> #[trigger] pl.cell(y, x) != Some(PlaneElement::Cross(a as usize))
                && pl.cell(y, x) != Some(PlaneElement::Cross(b as usize)),
    ensures
        column(pl, prev, x, k).len() == prev.len(),
        k > a || k > b ==> column(pl, prev, x, k)[a] == max_int(prev[a], prev[b]) && column(pl, prev, x, k)[b]
            == max_int(prev[a], prev[b]),
    decreases k,
{
    if k > 0 {
        lemma_column_cross(pl, prev, x, a, b, k - 1);
        assert(pl.rows@[k - 1]@.len() == pl.width());
        let j = k - 1;
        let e = pl.cell(j, x);
        if j == a {
            assert(e == Some(PlaneElement::Cross(b as usize)));
            assert(e != Some(PlaneElement::T));
        } else if j == b {
            assert(e == Some(PlaneElement::Cross(a as usize)));
            assert(e != Some(PlaneElement::T));
        } else {
            match e {
                Some(PlaneElement::Cross(t)) => {
                    assert(t != a as usize && t != b as usize);
                },
                _ => {},
            }
        }
    }
}

/// Two rows joined by a connector at column `x` (each pointing at the other,
/// and no other connector of that column pointing at either) agree there: at
/// every later column both counts are at least the larger of the two counts
/// before the connector.
pub proof fn lemma_cross_synchronises(pl: Plane, a: int, b: int, x: int, x2: int)
    requires
        pl.wf(),
        0 <= x < x2 <= pl.width(),
        0 <= a < pl.height(),
        0 <= b < pl.height(),
        a != b,
        pl.cell(a, x) == Some(PlaneElement::Cross(b as usize)),
        pl.cell(b, x) == Some(PlaneElement::Cross(a as usize)),
        forall|y: int|
            0 <= y < pl.height() && y != a && y != b ==> #[trigger] pl.cell(y, x) != Some(PlaneElement::Cross(a as usize))
                && pl.cell(y, x) != Some(PlaneElement::Cross(b as usize)),
    ensures
        counts(pl, x2)[a] >= max_int(counts(pl, x)[a], counts(pl, x)[b]),
        counts(pl, x2)[b] >= max_int(counts(pl, x)[a], counts(pl, x)[b]),
{
    lemma_counts_grow(pl, 0, x);
    lemma_column_cross(pl, counts(pl, x), x, a, b, pl.height() as int);
    lemma_counts_grow(pl, x + 1, x2);
}

impl Plane {
    /// The critical-path count of phase-expensive nodes: columns are swept
    /// left to right and, within a column, rows top to bottom.
    pub fn count_depth(&self) -> (r: usize)
        requires
            self.wf(),
        ensures
            r == depth(*self),
    {
        let ghost pl = *self;
        let h = self.rows.len();
        let w = self.rows[0].len();
        let mut prev: Vec<usize> = Vec::new();
        let mut y: usize = 0;
        while y < h
            invariant
                y <= h,
                prev@.len() == y,
                forall|i: int| 0 <= i < y ==> prev@[i] == 0,
            decreases h - y,
        {
            prev.push(0);
            y += 1;
        }
        proof {
            assert(prev@.map_values(|v: usize| v as int) =~= counts(pl, 0));
        }
        let mut x: usize = 0;
        while x < w
            invariant
                pl == *self,
                self.wf(),
                h == pl.height(),
                w == pl.width(),
                x <= w,
                prev@.len() == h,
                prev@.map_values(|v: usize| v as int) == counts(pl, x as int),
                forall|i: int| 0 <= i < h ==> #[trigger] prev@[i] <= x,
            decreases w - x,
        {
            let ghost pv = prev@.map_values(|v: usize| v as int);
            let mut curr: Vec<usize> = prev.clone();
            proof {
                assert(curr@ =~= prev@);
            }
            let mut y: usize = 0;
            while y < h
                invariant
                    pl == *self,
                    self.wf(),
                    h == pl.height(),
                    w == pl.width(),
                    x < w,
                    y <= h,
                    prev@.len() == h,
                    curr@.len() == h,
                    pv == prev@.map_values(|v: usize| v as int),
                    curr@.map_values(|v: usize| v as int) == column(pl, pv, x as int, y as int),
                    forall|i: int| 0 <= i < h ==> #[trigger] prev@[i] <= x,
                    forall|i: int| 0 <= i < h ==> #[trigger] curr@[i] <= x + 1,
                decreases h - y,
            {
                let ghost cv = curr@.map_values(|v: usize| v as int);
                proof {
                    assert(self.rows@[y as int]@.len() == w);
                }
                let e = self.rows[y][x];
                let left = prev[y];
                let base = match e {
                    Some(PlaneElement::Cross(t)) => {
                        proof {
                            assert(self.cell(y as int, x as int) == e);
                        }
                        if prev[t] > left {
                            prev[t]
                        } else {
                            left
                        }
                    },
                    _ => left,
                };
                let v = if e == Some(PlaneElement::T) {
                    base + 1
                } else {
                    base
                };
                curr.set(y, v);
                if let Some(PlaneElement::Cross(t)) = e {
                    curr.set(t, v);
                }
                proof {
                    assert(self.cell(y as int, x as int) == e);
                    assert(curr@.map_values(|v: usize| v as int) =~= step(pl, pv, cv, x as int, y as int));
                }
                y += 1;
            }
            prev = curr;
            x += 1;
        }
        let mut best: usize = prev[0];
        let mut y: usize = 1;
        let ghost last = prev@.map_values(|v: usize| v as int);
        while y < h
            invariant
                1 <= y <= h,
                prev@.len() == h,
                last == prev@.map_values(|v: usize| v as int),
                best as int == max_of(last, y as int),
            decreases h - y,
        {
            if prev[y] > best {
                best = prev[y];
            }
            y += 1;
        }
        best
    }
}

} // verus!
