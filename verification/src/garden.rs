//! A garden of plots, its regions of one plant each, and what it costs to
//! fence them.

use crate::grid::{
    cells_of, distances, has_width, lemma_distance_iff_reachable, reachable, table_of, Cells,
};
use vstd::prelude::*;

verus! {

/// A kind of plant, named by a letter.
#[derive(PartialEq, Eq, Debug, Clone, Copy, Structural)]
pub struct Plant(pub char);

/// A garden as rows of plots, each with its plant.
#[derive(Debug)]
pub struct Garden {
    pub plots: Vec<Vec<Plant>>,
}

/// The area of a region, the length of its fence, and the number of its sides.
#[derive(Debug, PartialEq, Eq, Clone, Copy, Structural)]
pub struct Region {
    pub area: u64,
    pub perimeter: u64,
    pub sides: u64,
}

/// Whether `plots` holds the plot `(x, y)`.
pub open spec fn has_plot(plots: Seq<(i32, i32)>, x: int, y: int) -> bool {
    exists|i: int| 0 <= i < plots.len() && (#[trigger] plots[i]).0 == x && plots[i].1 == y
}

/// The offsets to the four plots next to a plot.
pub open spec fn side_of(d: int) -> (int, int) {
    if d == 0 {
        (1, 0)
    } else if d == 1 {
        (-1, 0)
    } else if d == 2 {
        (0, 1)
    } else {
        (0, -1)
    }
}

/// The offsets to the four plots at the corners of a plot.
pub open spec fn corner_of(d: int) -> (int, int) {
    if d == 0 {
        (1, 1)
    } else if d == 1 {
        (1, -1)
    } else if d == 2 {
        (-1, 1)
    } else {
        (-1, -1)
    }
}

/// Whether a fence stands on side `d` of the plot `p`: no plot of the
/// region lies beyond it.
pub open spec fn fenced(plots: Seq<(i32, i32)>, p: (i32, i32), d: int) -> bool {
    !has_plot(plots, p.0 + side_of(d).0, p.1 + side_of(d).1)
}

/// Whether the fence turns at corner `d` of the plot `p`: the region
/// holds both plots beside the corner but not the one across it, or
/// neither of the plots beside it.
pub open spec fn turns(plots: Seq<(i32, i32)>, p: (i32, i32), d: int) -> bool {
    let beside_x = has_plot(plots, p.0 + corner_of(d).0, p.1 as int);
    let beside_y = has_plot(plots, p.0 as int, p.1 + corner_of(d).1);
    let across = has_plot(plots, p.0 + corner_of(d).0, p.1 + corner_of(d).1);
    (!across && beside_x && beside_y) || (!beside_x && !beside_y)
}

/// How many of the first `d` sides of the plot `p` are fenced.
pub open spec fn fences_of(plots: Seq<(i32, i32)>, p: (i32, i32), d: int) -> int
    decreases d,
{
    if d <= 0 {
        0
    } else {
        fences_of(plots, p, d - 1) + if fenced(plots, p, d - 1) {
            1int
        } else {
            0int
        }
    }
}

/// At how many of the first `d` corners of the plot `p` the fence turns.
pub open spec fn turns_of(plots: Seq<(i32, i32)>, p: (i32, i32), d: int) -> int
    decreases d,
{
    if d <= 0 {
        0
    } else {
        turns_of(plots, p, d - 1) + if turns(plots, p, d - 1) {
            1int
        } else {
            0int
        }
    }
}

/// The length of the fence around the first `n` plots of a region.
pub open spec fn perimeter_of(plots: Seq<(i32, i32)>, n: int) -> int
    decreases n,
{
    if n <= 0 {
        0
    } else {
        perimeter_of(plots, n - 1) + fences_of(plots, plots[n - 1], 4)
    }
}

/// The number of turns of the fence at the first `n` plots of a region,
/// which is the number of its straight sides.
pub open spec fn sides_of(plots: Seq<(i32, i32)>, n: int) -> int
    decreases n,
{
    if n <= 0 {
        0
    } else {
        sides_of(plots, n - 1) + turns_of(plots, plots[n - 1], 4)
    }
}

/// No plot has more than four fences or four turns.
pub proof fn lemma_counts(plots: Seq<(i32, i32)>, p: (i32, i32), d: int)
    requires
        0 <= d,
    ensures
        0 <= fences_of(plots, p, d) <= d,
        0 <= turns_of(plots, p, d) <= d,
    decreases d,
{
    if d > 0 {
        lemma_counts(plots, p, d - 1);
    }
}

/// A fence is no longer than four times the plots, and turns no more often.
pub proof fn lemma_totals(plots: Seq<(i32, i32)>, n: int)
    requires
        0 <= n,
    ensures
        0 <= perimeter_of(plots, n) <= 4 * n,
        0 <= sides_of(plots, n) <= 4 * n,
    decreases n,
{
    if n > 0 {
        lemma_totals(plots, n - 1);
        lemma_counts(plots, plots[n - 1], 4);
    }
}

/// Whether `plots` holds the plot `(x, y)`.
pub fn holds(plots: &Vec<(i32, i32)>, x: i64, y: i64) -> (found: bool)
    ensures
        found == has_plot(plots@, x as int, y as int),
{
    let mut i: usize = 0;
    while i < plots.len()
        invariant
            i <= plots.len(),
            forall|k: int| 0 <= k < i ==> !((#[trigger] plots[k]).0 == x && plots[k].1 == y),
        decreases plots.len() - i,
    {
        if plots[i].0 as i64 == x && plots[i].1 as i64 == y {
            return true;
        }
        i += 1;
    }
    false
}

impl Region {
    /// Measures the region that `plots` make up.
    pub fn new(plots: Vec<(i32, i32)>) -> (region: Self)
        requires
            4 * plots.len() <= u64::MAX,
        ensures
            region.area == plots.len(),
            region.perimeter == perimeter_of(plots@, plots.len() as int),
            region.sides == sides_of(plots@, plots.len() as int),
    {
        let mut perimeter: u64 = 0;
        let mut corners: u64 = 0;
        let mut n: usize = 0;
        while n < plots.len()
            invariant
                n <= plots.len(),
                plots.len() <= 0x3fff_ffff_ffff_ffff,
                perimeter == perimeter_of(plots@, n as int),
                corners == sides_of(plots@, n as int),
            decreases plots.len() - n,
        {
            let (x, y) = plots[n];
            let (x, y) = (x as i64, y as i64);
            proof {
                lemma_totals(plots@, n as int);
                lemma_totals(plots@, n + 1);
            }
            let mut fences: u64 = 0;
            let mut turns: u64 = 0;
            let mut d: usize = 0;
            while d < 4
                invariant
                    d <= 4,
                    n < plots.len(),
                    x == plots[n as int].0,
                    y == plots[n as int].1,
                    fences == fences_of(plots@, plots[n as int], d as int),
                    turns == turns_of(plots@, plots[n as int], d as int),
                    fences <= d,
                    turns <= d,
                decreases 4 - d,
            {
                let (sx, sy): (i64, i64) = if d == 0 {
                    (1, 0)
                } else if d == 1 {
                    (-1, 0)
                } else if d == 2 {
                    (0, 1)
                } else {
                    (0, -1)
                };
                let (cx, cy): (i64, i64) = if d == 0 {
                    (1, 1)
                } else if d == 1 {
                    (1, -1)
                } else if d == 2 {
                    (-1, 1)
                } else {
                    (-1, -1)
                };
                if !holds(&plots, x + sx, y + sy) {
                    fences += 1;
                }
                let p = holds(&plots, x + cx, y);
                let q = holds(&plots, x, y + cy);
                let r = holds(&plots, x + cx, y + cy);
                if (!r && p && q) || (!r && !p && !q) || (r && !p && !q) {
                    turns += 1;
                }
                d += 1;
            }
            perimeter += fences;
            corners += turns;
            n += 1;
        }
        Region { area: plots.len() as u64, perimeter, sides: corners }
    }
}

/// The plants as rows.
pub open spec fn plants_of(plots: Seq<Vec<Plant>>) -> Seq<Seq<Plant>> {
    plots.map_values(|row: Vec<Plant>| row@)
}

/// The cells that hold the plant `plant`.
pub open spec fn beds_of(plants: Seq<Seq<Plant>>, plant: Plant) -> Cells {
    plants.map_values(|row: Seq<Plant>| row.map_values(|p: Plant| p == plant))
}

/// Whether the plot `(x, y)` lies in the region of `src`: it can be walked
/// to from `src` over plots of the plant of `src`.
pub open spec fn in_region(plants: Seq<Seq<Plant>>, src: (usize, usize), x: int, y: int) -> bool {
    reachable(beds_of(plants, plants[src.0 as int][src.1 as int]), src, x, y)
}

/// Brings the plot `p` to the front of the list; the other plots keep
/// their order.
pub fn bring_first(plots: &mut Vec<(i32, i32)>, p: (i32, i32))
    requires
        old(plots)@.no_duplicates(),
        has_plot(old(plots)@, p.0 as int, p.1 as int),
    ensures
        final(plots).len() == old(plots).len(),
        final(plots).len() > 0,
        final(plots)[0] == p,
        final(plots)@.no_duplicates(),
        forall|q: (i32, i32)|
            #![trigger final(plots)@.contains(q)]
            #![trigger old(plots)@.contains(q)]
            final(plots)@.contains(q) <==> old(plots)@.contains(q),
        forall|x: int, y: int|
            #![trigger has_plot(final(plots)@, x, y)]
            #![trigger has_plot(old(plots)@, x, y)]
            has_plot(final(plots)@, x, y) <==> has_plot(old(plots)@, x, y),
        exists|i: int|
            0 <= i < old(plots).len() && old(plots)[i] == p && final(plots)@ == seq![p] + old(plots)@.remove(i),
{
    let ghost before = plots@;
    let mut i: usize = 0;
    while i < plots.len() && !(plots[i].0 == p.0 && plots[i].1 == p.1)
        invariant
            plots@ == before,
            i <= plots.len(),
            forall|k: int| 0 <= k < i ==> !((#[trigger] before[k]).0 == p.0 && before[k].1 == p.1),
        decreases plots.len() - i,
    {
        i += 1;
    }
    proof {
        let k = choose|k: int| 0 <= k < before.len() && (#[trigger] before[k]).0 == p.0 && before[k].1 == p.1;
        assert(i <= k);
    }
    let found = plots.remove(i);
    plots.insert(0, found);
    proof {
        let now = plots@;
        let at = i as int;
        assert(before[at] == p);
        assert(now =~= seq![p] + before.remove(at));
        assert forall|a: int| 0 <= a < now.len() implies now[a] == before[if a == 0 {
            at
        } else if a <= at {
            a - 1
        } else {
            a
        }] by {}
        assert forall|a: int, b: int| 0 <= a < now.len() && 0 <= b < now.len() && a != b implies now[a] != now[b] by {
            let a0 = if a == 0 {
                at
            } else if a <= at {
                a - 1
            } else {
                a
            };
            let b0 = if b == 0 {
                at
            } else if b <= at {
                b - 1
            } else {
                b
            };
            assert(now[a] == before[a0] && now[b] == before[b0]);
            assert(a0 != b0);
        }
        assert forall|q: (i32, i32)|
            #![trigger now.contains(q)]
            #![trigger before.contains(q)]
            now.contains(q) <==> before.contains(q) by {
            if now.contains(q) {
                let a = choose|a: int| 0 <= a < now.len() && now[a] == q;
                let a0 = if a == 0 {
                    at
                } else if a <= at {
                    a - 1
                } else {
                    a
                };
                assert(before[a0] == q);
            }
            if before.contains(q) {
                let a = choose|a: int| 0 <= a < before.len() && before[a] == q;
                let a0 = if a == at {
                    0
                } else if a < at {
                    a + 1
                } else {
                    a
                };
                assert(now[a0] == q);
            }
        }
        assert forall|x: int, y: int|
            #![trigger has_plot(now, x, y)]
            #![trigger has_plot(before, x, y)]
            has_plot(now, x, y) <==> has_plot(before, x, y) by {
            if has_plot(now, x, y) {
                let a = choose|a: int| 0 <= a < now.len() && (#[trigger] now[a]).0 == x && now[a].1 == y;
                assert(now.contains(now[a]));
                let b = choose|b: int| 0 <= b < before.len() && before[b] == now[a];
                assert(before[b].0 == x && before[b].1 == y);
            }
            if has_plot(before, x, y) {
                let a = choose|a: int| 0 <= a < before.len() && (#[trigger] before[a]).0 == x && before[a].1 == y;
                assert(before.contains(before[a]));
                let b = choose|b: int| 0 <= b < now.len() && now[b] == before[a];
                assert(now[b].0 == x && now[b].1 == y);
            }
        }
    }
}

impl Garden {
    /// The plants of the garden, row by row.
    pub open spec fn plants(&self) -> Seq<Seq<Plant>> {
        plants_of(self.plots@)
    }

    /// A garden is well formed when it has plots, its rows are of one
    /// length, and every plot can be named by 32-bit coordinates.
    pub open spec fn wf(&self) -> bool {
        &&& self.plots.len() > 0
        &&& self.plots.len() <= i32::MAX
        &&& self.plots[0].len() <= i32::MAX
        &&& forall|x: int| 0 <= x < self.plots.len() ==> (#[trigger] self.plots[x]).len() == self.plots[0].len()
        &&& self.plots.len() * self.plots[0].len() <= usize::MAX
        &&& self.plots.len() * self.plots[0].len() <= 0x3fff_ffff_ffff_ffff
    }

    /// The cells that hold the plant of `src`.
    pub fn beds(&self, src: (usize, usize)) -> (open: Vec<Vec<bool>>)
        requires
            self.wf(),
            src.0 < self.plots.len(),
            src.1 < self.plots[0].len(),
        ensures
            cells_of(open@) == beds_of(self.plants(), self.plants()[src.0 as int][src.1 as int]),
            has_width(cells_of(open@), self.plots[0].len() as int),
            open.len() == self.plots.len(),
    {
        let plant = self.plots[src.0][src.1];
        assert(self.plants()[src.0 as int] == self.plots[src.0 as int]@);
        let ghost beds = beds_of(self.plants(), plant);
        let mut open: Vec<Vec<bool>> = Vec::new();
        let mut x: usize = 0;
        while x < self.plots.len()
            invariant
                self.wf(),
                beds == beds_of(self.plants(), plant),
                x <= self.plots.len(),
                open.len() == x,
                forall|i: int| 0 <= i < x ==> (#[trigger] open[i])@ == beds[i],
            decreases self.plots.len() - x,
        {
            assert(self.plants()[x as int] == self.plots[x as int]@);
            let mut row: Vec<bool> = Vec::new();
            let mut y: usize = 0;
            while y < self.plots[x].len()
                invariant
                    self.wf(),
                    beds == beds_of(self.plants(), plant),
                    x < self.plots.len(),
                    y <= self.plots[x as int].len(),
                    self.plants()[x as int] == self.plots[x as int]@,
                    row.len() == y,
                    forall|j: int| 0 <= j < y ==> #[trigger] row[j] == beds[x as int][j],
                decreases self.plots[x as int].len() - y,
            {
                row.push(self.plots[x][y] == plant);
                y += 1;
            }
            assert(row@ =~= beds[x as int]);
            open.push(row);
            x += 1;
        }
        assert(cells_of(open@) =~= beds);
        assert forall|i: int| 0 <= i < beds.len() implies (#[trigger] beds[i]).len() == self.plots[0].len() by {
            assert(self.plants()[i] == self.plots[i]@);
        }
        open
    }

    /// The plots of the region of `src`, each once: first `src`, then
    /// the others in reading order; all of them are marked as visited.
    pub fn plots_in_a_same_region(&self, src: (usize, usize), visited: &mut Vec<Vec<bool>>) -> (res: Vec<
        (i32, i32),
    >)
        requires
            self.wf(),
            src.0 < self.plots.len(),
            src.1 < self.plots[0].len(),
            old(visited).len() == self.plots.len(),
            forall|x: int| 0 <= x < self.plots.len() ==> (#[trigger] old(visited)[x]).len() == self.plots[0].len(),
        ensures
            final(visited).len() == self.plots.len(),
            forall|x: int| 0 <= x < self.plots.len() ==> (#[trigger] final(visited)[x]).len() == self.plots[0].len(),
            forall|x: int, y: int|
                0 <= x < self.plots.len() && 0 <= y < self.plots[0].len() ==> (
                #[trigger] final(visited)[x][y]) == (old(visited)[x][y] || in_region(
                    self.plants(),
                    src,
                    x,
                    y,
                )),
            res@.no_duplicates(),
            res.len() <= self.plots.len() * self.plots[0].len(),
            res.len() > 0,
            res[0] == (src.0 as i32, src.1 as i32),
            in_region(self.plants(), src, src.0 as int, src.1 as int),
            forall|x: int, y: int|
                0 <= x < self.plots.len() && 0 <= y < self.plots[0].len() ==> (has_plot(res@, x, y)
                    <==> #[trigger] in_region(self.plants(), src, x, y)),
            forall|i: int|
                0 <= i < res.len() ==> 0 <= (#[trigger] res[i]).0 < self.plots.len() && 0 <= res[i].1
                    < self.plots[0].len(),
    {
        let h = self.plots.len();
        let w = self.plots[0].len();
        let open = self.beds(src);
        let dist = distances(&open, w, src);
        let ghost table = table_of(dist@);
        let ghost beds = cells_of(open@);
        let ghost plants = self.plants();
        proof {
            assert(beds[src.0 as int].len() == w);
            assert forall|x: int, y: int| 0 <= x < h && 0 <= y < w implies (in_region(plants, src, x, y)
                <==> (#[trigger] table[x][y]) is Some) by {
                assert(beds[x].len() == w);
                lemma_distance_iff_reachable(beds, src, table, x, y);
            }
            assert(table[src.0 as int][src.1 as int] is Some);
        }
        let mut res: Vec<(i32, i32)> = Vec::new();
        let mut x: usize = 0;
        while x < h
            invariant
                self.wf(),
                h == self.plots.len(),
                w == self.plots[0].len(),
                table == table_of(dist@),
                table.len() == h,
                forall|i: int| 0 <= i < h ==> (#[trigger] table[i]).len() == w,
                x <= h,
                visited.len() == h,
                forall|i: int| 0 <= i < h ==> (#[trigger] visited[i]).len() == w,
                forall|i: int, j: int|
                    0 <= i < h && 0 <= j < w ==> (#[trigger] visited[i][j]) == (old(visited)[i][j] || (i < x
                        && table[i][j] is Some)),
                res@.no_duplicates(),
                res.len() <= x * w,
                forall|i: int| 0 <= i < res.len() ==> 0 <= (#[trigger] res[i]).0 < x && 0 <= res[i].1 < w,
                forall|i: int, j: int|
                    0 <= i < h && 0 <= j < w ==> (has_plot(res@, i, j) <==> i < x && (#[trigger] table[i][j]) is Some),
            decreases h - x,
        {
            let mut y: usize = 0;
            assert(table[x as int] == dist[x as int]@);
            while y < w
                invariant
                    self.wf(),
                    h == self.plots.len(),
                    w == self.plots[0].len(),
                    table == table_of(dist@),
                    table.len() == h,
                    forall|i: int| 0 <= i < h ==> (#[trigger] table[i]).len() == w,
                    table[x as int] == dist[x as int]@,
                    x < h,
                    y <= w,
                    visited.len() == h,
                    forall|i: int| 0 <= i < h ==> (#[trigger] visited[i]).len() == w,
                    forall|i: int, j: int|
                        0 <= i < h && 0 <= j < w ==> (#[trigger] visited[i][j]) == (old(visited)[i][j] || ((i
                            < x || (i == x && j < y)) && table[i][j] is Some)),
                    res@.no_duplicates(),
                    res.len() <= x * w + y,
                    forall|i: int|
                        0 <= i < res.len() ==> 0 <= (#[trigger] res[i]).0 <= x && 0 <= res[i].1 < w && (res[i].0
                            == x ==> res[i].1 < y),
                    forall|i: int, j: int|
                        0 <= i < h && 0 <= j < w ==> (has_plot(res@, i, j) <==> (i < x || (i == x && j < y)) && (
                        #[trigger] table[i][j]) is Some),
                decreases w - y,
            {
                if dist[x][y].is_some() {
                    let ghost held = res@;
                    visited[x][y] = true;
                    res.push((x as i32, y as i32));
                    proof {
                        assert(res@[held.len() as int] == (x as i32, y as i32));
                        assert forall|i: int, j: int| 0 <= i < h && 0 <= j < w implies (has_plot(res@, i, j)
                            <==> (i < x || (i == x && j < y + 1)) && (#[trigger] table[i][j]) is Some) by {
                            if has_plot(held, i, j) {
                                let k = choose|k: int|
                                    0 <= k < held.len() && (#[trigger] held[k]).0 == i && held[k].1 == j;
                                assert(res@[k] == held[k]);
                            }
                            if has_plot(res@, i, j) {
                                let k = choose|k: int|
                                    0 <= k < res@.len() && (#[trigger] res@[k]).0 == i && res@[k].1 == j;
                                if k < held.len() {
                                    assert(held[k] == res@[k]);
                                }
                            }
                        }
                        assert forall|a: int, b: int| 0 <= a < res.len() && 0 <= b < res.len() && a != b implies res[a]
                            != res[b] by {
                            if a < held.len() && b < held.len() {
                                assert(held[a] != held[b]);
                            }
                        }
                    }
                }
                y += 1;
            }
            proof {
                assert(x * w + w == (x + 1) * w) by (nonlinear_arith);
            }
            x += 1;
        }
        proof {
            assert(x * w <= h * w) by (nonlinear_arith)
                requires
                    x <= h,
                    w >= 0,
            ;
            assert forall|i: int, j: int| 0 <= i < h && 0 <= j < w implies (has_plot(res@, i, j) <==> #[trigger] in_region(
                plants,
                src,
                i,
                j,
            )) by {
                assert(in_region(plants, src, i, j) <==> table[i][j] is Some);
            }
            assert forall|i: int, j: int| 0 <= i < h && 0 <= j < w implies (#[trigger] visited[i][j]) == (old(
                visited,
            )[i][j] || in_region(plants, src, i, j)) by {
                assert(in_region(plants, src, i, j) <==> table[i][j] is Some);
            }
            assert(has_plot(res@, src.0 as int, src.1 as int));
        }
        let ghost listed = res@;
        bring_first(&mut res, (src.0 as i32, src.1 as i32));
        proof {
            assert forall|i: int| 0 <= i < res.len() implies 0 <= (#[trigger] res[i]).0 < h && 0 <= res[i].1 < w by {
                assert(res@.contains(res[i]));
                assert(listed.contains(res[i]));
                let k = choose|k: int| 0 <= k < listed.len() && listed[k] == res[i];
                assert(0 <= listed[k].0 < h);
            }
        }
        res
    }

    /// The regions of the garden, in the reading order of their first
    /// plots: each is measured from the plots of the region of one plot,
    /// every plot lies in one of them, and no region is measured twice.
    pub fn regions(&self) -> (regions: Vec<Region>)
        requires
            self.wf(),
        ensures
            exists|firsts: Seq<(usize, usize)>| #[trigger]
                measured(self.plants(), firsts, regions@) && apart(self.plants(), firsts) && in_reading_order(firsts)
                    && forall|x: int, y: int|
                    0 <= x < self.plots.len() && 0 <= y < self.plots[0].len() ==> #[trigger] covered(
                        self.plants(),
                        firsts,
                        x,
                        y,
                    ),
    {
        let h = self.plots.len();
        let w = self.plots[0].len();
        let ghost plants = self.plants();
        let mut regions: Vec<Region> = Vec::new();
        let mut visited: Vec<Vec<bool>> = Vec::new();
        let mut x: usize = 0;
        while x < h
            invariant
                x <= h,
                visited.len() == x,
                forall|i: int| 0 <= i < x ==> (#[trigger] visited[i]).len() == w,
                forall|i: int, j: int| 0 <= i < x && 0 <= j < w ==> !(#[trigger] visited[i][j]),
            decreases h - x,
        {
            let mut row: Vec<bool> = Vec::new();
            let mut y: usize = 0;
            while y < w
                invariant
                    y <= w,
                    row.len() == y,
                    forall|j: int| 0 <= j < y ==> !(#[trigger] row[j]),
                decreases w - y,
            {
                row.push(false);
                y += 1;
            }
            visited.push(row);
            x += 1;
        }
        let ghost mut firsts: Seq<(usize, usize)> = Seq::empty();
        let mut i: usize = 0;
        while i < h
            invariant
                self.wf(),
                plants == self.plants(),
                h == self.plots.len(),
                w == self.plots[0].len(),
                i <= h,
                visited.len() == h,
                forall|k: int| 0 <= k < h ==> (#[trigger] visited[k]).len() == w,
                measured(plants, firsts, regions@),
                apart(plants, firsts),
                in_reading_order(firsts),
                forall|k: int| 0 <= k < firsts.len() ==> (#[trigger] firsts[k]).0 < i,
                forall|a: int, b: int|
                    0 <= a < h && 0 <= b < w ==> (#[trigger] visited[a][b] <==> covered(plants, firsts, a, b)),
                forall|a: int, b: int| 0 <= a < i && 0 <= b < w ==> #[trigger] visited[a][b],
            decreases h - i,
        {
            let mut j: usize = 0;
            while j < w
                invariant
                    self.wf(),
                    plants == self.plants(),
                    h == self.plots.len(),
                    w == self.plots[0].len(),
                    i < h,
                    j <= w,
                    visited.len() == h,
                    forall|k: int| 0 <= k < h ==> (#[trigger] visited[k]).len() == w,
                    measured(plants, firsts, regions@),
                    apart(plants, firsts),
                    in_reading_order(firsts),
                    forall|k: int|
                        0 <= k < firsts.len() ==> (#[trigger] firsts[k]).0 < i || (firsts[k].0 == i && firsts[k].1
                            < j),
                    forall|a: int, b: int|
                        0 <= a < h && 0 <= b < w ==> (#[trigger] visited[a][b] <==> covered(plants, firsts, a, b)),
                    forall|a: int, b: int|
                        0 <= a < h && 0 <= b < w && (a < i || (a == i && b < j)) ==> #[trigger] visited[a][b],
                decreases w - j,
            {
                if !visited[i][j] {
                    let ghost seen = visited@;
                    let ghost held = regions@;
                    let ghost known = firsts;
                    let plots = self.plots_in_a_same_region((i, j), &mut visited);
                    let ghost listed = plots@;
                    let region = Region::new(plots);
                    regions.push(region);
                    proof {
                        firsts = firsts.push((i, j));
                        assert(region_of(plants, (i, j), region)) by {
                            assert(lists_region(plants, (i, j), listed, region));
                        }
                        assert forall|k: int| 0 <= k < regions.len() implies region_of(
                            plants,
                            #[trigger] firsts[k],
                            regions[k],
                        ) by {
                            if k < held.len() {
                                assert(firsts[k] == known[k] && regions[k] == held[k]);
                            }
                        }
                        assert forall|a: int, b: int| 0 <= a < h && 0 <= b < w implies (#[trigger] visited[a][b]
                            <==> covered(plants, firsts, a, b)) by {
                            if seen[a][b] {
                                assert(covered(plants, known, a, b));
                                let k = choose|k: int|
                                    0 <= k < known.len() && in_region(plants, #[trigger] known[k], a, b);
                                assert(firsts[k] == known[k]);
                            } else if visited[a][b] {
                                assert(in_region(plants, (i, j), a, b));
                                assert(firsts[known.len() as int] == (i, j));
                            }
                            if covered(plants, firsts, a, b) {
                                let k = choose|k: int|
                                    0 <= k < firsts.len() && in_region(plants, #[trigger] firsts[k], a, b);
                                if k < known.len() {
                                    assert(firsts[k] == known[k]);
                                    assert(covered(plants, known, a, b));
                                }
                            }
                        }
                        assert(apart(plants, firsts)) by {
                            assert forall|k: int, l: int| 0 <= k < l < firsts.len() implies !in_region(
                                plants,
                                #[trigger] firsts[k],
                                (#[trigger] firsts[l]).0 as int,
                                firsts[l].1 as int,
                            ) by {
                                assert(firsts[k] == known[k]);
                                if l < known.len() {
                                    assert(firsts[l] == known[l]);
                                } else {
                                    assert(!covered(plants, known, i as int, j as int));
                                }
                            }
                        }
                        assert(in_reading_order(firsts)) by {
                            assert forall|k: int, l: int| 0 <= k < l < firsts.len() implies reads_before(
                                #[trigger] firsts[k],
                                #[trigger] firsts[l],
                            ) by {
                                assert(firsts[k] == known[k]);
                                if l < known.len() {
                                    assert(firsts[l] == known[l]);
                                }
                            }
                        }
                        assert forall|a: int, b: int|
                            0 <= a < h && 0 <= b < w && (a < i || (a == i && b < j + 1)) implies #[trigger] visited[a][b] by {
                            if a == i && b == j {
                            } else {
                                assert(seen[a][b]);
                            }
                        }
                    }
                }
                j += 1;
            }
            i += 1;
        }
        proof {
            assert forall|x: int, y: int| 0 <= x < h && 0 <= y < w implies #[trigger] covered(
                plants,
                firsts,
                x,
                y,
            ) by {
                assert(visited[x][y]);
            }
        }
        regions
    }
}

/// Whether `plots` lists the plots of the region of `first`, each once,
/// and `region` holds their measures.
pub open spec fn lists_region(
    plants: Seq<Seq<Plant>>,
    first: (usize, usize),
    plots: Seq<(i32, i32)>,
    region: Region,
) -> bool {
    &&& plots.no_duplicates()
    &&& forall|i: int|
        0 <= i < plots.len() ==> 0 <= (#[trigger] plots[i]).0 < plants.len() && 0 <= plots[i].1
            < plants[0].len()
    &&& forall|x: int, y: int|
        0 <= x < plants.len() && 0 <= y < plants[0].len() ==> (has_plot(plots, x, y) <==> #[trigger] in_region(
            plants,
            first,
            x,
            y,
        ))
    &&& region.area == plots.len()
    &&& region.perimeter == perimeter_of(plots, plots.len() as int)
    &&& region.sides == sides_of(plots, plots.len() as int)
}

/// Whether `region` holds the measures of the region of the plot `first`.
pub open spec fn region_of(plants: Seq<Seq<Plant>>, first: (usize, usize), region: Region) -> bool {
    exists|plots: Seq<(i32, i32)>| #[trigger] lists_region(plants, first, plots, region)
}

/// Whether each of `regions` holds the measures of the region of the
/// plot of `firsts` at its place.
pub open spec fn measured(plants: Seq<Seq<Plant>>, firsts: Seq<(usize, usize)>, regions: Seq<Region>) -> bool {
    &&& firsts.len() == regions.len()
    &&& forall|k: int| 0 <= k < regions.len() ==> region_of(plants, #[trigger] firsts[k], regions[k])
}

/// Whether none of `firsts` lies in the region of one that stands before
/// it: no two of them name one region.
pub open spec fn apart(plants: Seq<Seq<Plant>>, firsts: Seq<(usize, usize)>) -> bool {
    forall|k: int, l: int|
        0 <= k < l < firsts.len() ==> !in_region(
            plants,
            #[trigger] firsts[k],
            (#[trigger] firsts[l]).0 as int,
            firsts[l].1 as int,
        )
}

/// Whether `p` comes before `q` when the plots are read row by row.
pub open spec fn reads_before(p: (usize, usize), q: (usize, usize)) -> bool {
    p.0 < q.0 || (p.0 == q.0 && p.1 < q.1)
}

/// Whether the plots stand in the order in which they are read.
pub open spec fn in_reading_order(firsts: Seq<(usize, usize)>) -> bool {
    forall|k: int, l: int| 0 <= k < l < firsts.len() ==> reads_before(#[trigger] firsts[k], #[trigger] firsts[l])
}

/// Whether the plot `(x, y)` lies in the region of one of `firsts`.
pub open spec fn covered(plants: Seq<Seq<Plant>>, firsts: Seq<(usize, usize)>, x: int, y: int) -> bool {
    exists|k: int| 0 <= k < firsts.len() && in_region(plants, #[trigger] firsts[k], x, y)
}

/// What the fences of the first `n` regions cost: the area of each times
/// the length of its fence, or times the number of its sides where the
/// fence comes at a discount.
pub open spec fn price_of(regions: Seq<Region>, discount: bool, n: int) -> int
    decreases n,
{
    if n <= 0 {
        0
    } else {
        price_of(regions, discount, n - 1) + regions[n - 1].area * (if discount {
            regions[n - 1].sides
        } else {
            regions[n - 1].perimeter
        })
    }
}

/// The prices never fall with more regions.
pub proof fn lemma_price_grows(regions: Seq<Region>, discount: bool, m: int, n: int)
    requires
        m <= n,
    ensures
        price_of(regions, discount, m) <= price_of(regions, discount, n),
    decreases n - m,
{
    if m < n {
        lemma_price_grows(regions, discount, m, n - 1);
        let r = regions[n - 1];
        let factor = if discount {
            r.sides
        } else {
            r.perimeter
        };
        assert(r.area * factor >= 0) by (nonlinear_arith)
            requires
                r.area >= 0,
                factor >= 0,
        ;
    }
}

/// What the fences of all regions cost, or `None` where the price is
/// no integer of 128 bits.
pub fn total_price(regions: &Vec<Region>, discount: bool) -> (total: Option<u128>)
    ensures
        total is Some <==> price_of(regions@, discount, regions.len() as int) <= u128::MAX,
        total is Some ==> total.unwrap() == price_of(regions@, discount, regions.len() as int),
{
    let mut total: u128 = 0;
    let mut i: usize = 0;
    while i < regions.len()
        invariant
            i <= regions.len(),
            total == price_of(regions@, discount, i as int),
        decreases regions.len() - i,
    {
        let r = regions[i];
        let factor = if discount {
            r.sides
        } else {
            r.perimeter
        };
        assert(0 <= r.area * factor <= 0xffff_ffff_ffff_ffff * 0xffff_ffff_ffff_ffff) by (nonlinear_arith)
            requires
                0 <= r.area <= 0xffff_ffff_ffff_ffff,
                0 <= factor <= 0xffff_ffff_ffff_ffff,
        ;
        proof {
            lemma_price_grows(regions@, discount, i + 1, regions.len() as int);
        }
        let price = (r.area as u128) * (factor as u128);
        total = match total.checked_add(price) {
            Some(t) => t,
            None => {
                return None;
            },
        };
        i += 1;
    }
    Some(total)
}

} // verus!
