//! Walking distances on a grid of open and closed cells.

use crate::paths::{
    arc_ok, closed, graph_of, lists_of, relaxed, settled, shortest_paths, slot_ok, tight, tight_pred,
    Arc, Graph,
};
use vstd::prelude::*;

verus! {

/// A grid of cells, each open or closed.
pub type Cells = Seq<Seq<bool>>;

/// The cells that rows of flags stand for.
pub open spec fn cells_of(rows: Seq<Vec<bool>>) -> Cells {
    rows.map_values(|row: Vec<bool>| row@)
}

/// The distances that rows of entries stand for.
pub open spec fn table_of(rows: Seq<Vec<Option<usize>>>) -> Seq<Seq<Option<usize>>> {
    rows.map_values(|row: Vec<Option<usize>>| row@)
}

/// Whether every row is as wide as `w`.
pub open spec fn has_width<T>(rows: Seq<Seq<T>>, w: int) -> bool {
    forall|y: int| 0 <= y < rows.len() ==> (#[trigger] rows[y]).len() == w
}

/// Whether `(y, x)` is an open cell of the grid.
pub open spec fn open_cell(cells: Cells, y: int, x: int) -> bool {
    0 <= y < cells.len() && 0 <= x < cells[y].len() && cells[y][x]
}

/// Whether two cells share an edge.
pub open spec fn adjacent(y: int, x: int, ny: int, nx: int) -> bool {
    (ny == y && (nx == x + 1 || nx == x - 1)) || (nx == x && (ny == y + 1 || ny == y - 1))
}

/// Whether `dist` holds the walking distances from `src`: the source is at
/// distance nothing; from a cell with a distance, every open cell next to
/// it is at most one step further, as far as machine integers count; and
/// every other cell with a distance is open and one step further than some
/// cell next to it. A walk may start on a closed cell but never enters one.
pub open spec fn distances_from(
    cells: Cells,
    src: (usize, usize),
    dist: Seq<Seq<Option<usize>>>,
) -> bool {
    &&& dist.len() == cells.len()
    &&& forall|y: int| 0 <= y < cells.len() ==> (#[trigger] dist[y]).len() == cells[y].len()
    &&& dist[src.0 as int][src.1 as int] == Some(0usize)
    &&& forall|y: int, x: int, ny: int, nx: int|
        0 <= y < cells.len() && 0 <= x < cells[y].len() && (#[trigger] dist[y][x]) is Some
            && dist[y][x].unwrap() < usize::MAX && adjacent(y, x, ny, nx) && #[trigger] open_cell(
            cells,
            ny,
            nx,
        ) ==> dist[ny][nx] is Some && dist[ny][nx].unwrap() <= dist[y][x].unwrap() + 1
    &&& forall|y: int, x: int|
        0 <= y < cells.len() && 0 <= x < cells[y].len() && (#[trigger] dist[y][x]) is Some && (y, x)
            != (src.0 as int, src.1 as int) ==> open_cell(cells, y, x) && has_closer_neighbour(
            cells,
            dist,
            y,
            x,
        )
}

/// Whether a cell next to `(y, x)` is one step closer to the source.
pub open spec fn has_closer_neighbour(
    cells: Cells,
    dist: Seq<Seq<Option<usize>>>,
    y: int,
    x: int,
) -> bool {
    exists|py: int, px: int|
        0 <= py < cells.len() && 0 <= px < cells[py].len() && adjacent(py, px, y, x)
            && #[trigger] dist[py][px] == Some((dist[y][x].unwrap() - 1) as usize) && dist[y][x].unwrap()
            >= 1
}

/// The steps from `(y, x)` found so far, with the step to `(ny, nx)` added
/// where that cell is open.
pub open spec fn with_step(cells: Cells, w: int, steps: Seq<Arc>, ny: int, nx: int) -> Seq<Arc> {
    if open_cell(cells, ny, nx) {
        steps.push(Arc { to: (ny * w + nx) as usize, cost: 1 })
    } else {
        steps
    }
}

/// The steps from `(y, x)` to the open cells next to it.
pub open spec fn steps_from(cells: Cells, w: int, y: int, x: int) -> Seq<Arc> {
    with_step(
        cells,
        w,
        with_step(
            cells,
            w,
            with_step(cells, w, with_step(cells, w, Seq::empty(), y + 1, x), y - 1, x),
            y,
            x + 1,
        ),
        y,
        x - 1,
    )
}

/// Cells are numbered row by row, and every cell has a number of its own.
pub proof fn lemma_cell_number(h: int, w: int, y: int, x: int)
    requires
        0 <= y < h,
        0 <= x < w,
    ensures
        0 <= y * w + x < h * w,
        (y * w + x) / w == y,
        (y * w + x) % w == x,
{
    assert(y * w + x < h * w) by (nonlinear_arith)
        requires
            0 <= y < h,
            0 <= x < w,
    ;
    assert(0 <= y * w) by (nonlinear_arith)
        requires
            0 <= y,
            0 <= w,
    ;
    vstd::arithmetic::div_mod::lemma_fundamental_div_mod_converse(y * w + x, w, y, x);
}

/// Every number below the number of cells is the number of a cell.
pub proof fn lemma_number_cell(h: int, w: int, id: int)
    requires
        0 <= id < h * w,
        0 < w,
    ensures
        0 <= id / w < h,
        0 <= id % w < w,
        (id / w) * w + id % w == id,
{
    vstd::arithmetic::div_mod::lemma_fundamental_div_mod(id, w);
    vstd::arithmetic::div_mod::lemma_div_pos_is_pos(id, w);
    let q = id / w;
    assert(q < h) by (nonlinear_arith)
        requires
            w * q + id % w == id,
            0 <= id % w,
            id < h * w,
            w > 0,
    ;
    assert(q * w == w * q) by (nonlinear_arith);
}

/// Each step from a cell leads to an open cell next to it, and every open
/// cell next to it is reached by a step.
pub proof fn lemma_steps(cells: Cells, h: int, w: int, y: int, x: int)
    requires
        cells.len() == h,
        has_width(cells, w),
        0 <= y < h,
        0 <= x < w,
        h * w <= usize::MAX,
    ensures
        forall|k: int|
            0 <= k < steps_from(cells, w, y, x).len() ==> {
                let a = #[trigger] steps_from(cells, w, y, x)[k];
                &&& a.cost == 1
                &&& a.to < h * w
                &&& exists|ny: int, nx: int|
                    adjacent(y, x, ny, nx) && #[trigger] open_cell(cells, ny, nx) && a.to == ny * w + nx
            },
        forall|ny: int, nx: int|
            adjacent(y, x, ny, nx) && #[trigger] open_cell(cells, ny, nx) ==> exists|k: int|
                0 <= k < steps_from(cells, w, y, x).len() && (#[trigger] steps_from(
                    cells,
                    w,
                    y,
                    x,
                )[k]).to == ny * w + nx,
{
    let s1 = with_step(cells, w, Seq::empty(), y + 1, x);
    let s2 = with_step(cells, w, s1, y - 1, x);
    let s3 = with_step(cells, w, s2, y, x + 1);
    let s4 = with_step(cells, w, s3, y, x - 1);
    assert(s4 == steps_from(cells, w, y, x));
    if open_cell(cells, y + 1, x) {
        assert(cells[y + 1].len() == w);
        lemma_cell_number(h, w, y + 1, x);
    }
    if open_cell(cells, y - 1, x) {
        assert(cells[y - 1].len() == w);
        lemma_cell_number(h, w, y - 1, x);
    }
    if open_cell(cells, y, x + 1) {
        assert(cells[y].len() == w);
        lemma_cell_number(h, w, y, x + 1);
    }
    if open_cell(cells, y, x - 1) {
        assert(cells[y].len() == w);
        lemma_cell_number(h, w, y, x - 1);
    }
    assert forall|k: int| 0 <= k < s4.len() implies {
        let a = #[trigger] s4[k];
        &&& a.cost == 1
        &&& a.to < h * w
        &&& exists|ny: int, nx: int|
            adjacent(y, x, ny, nx) && #[trigger] open_cell(cells, ny, nx) && a.to == ny * w + nx
    } by {
        let a = s4[k];
        if k < s1.len() {
            assert(a == s1[k]);
            assert(adjacent(y, x, y + 1, x) && open_cell(cells, y + 1, x));
        } else if k < s2.len() {
            assert(a == s2[k]);
            assert(adjacent(y, x, y - 1, x) && open_cell(cells, y - 1, x));
        } else if k < s3.len() {
            assert(a == s3[k]);
            assert(adjacent(y, x, y, x + 1) && open_cell(cells, y, x + 1));
        } else {
            assert(adjacent(y, x, y, x - 1) && open_cell(cells, y, x - 1));
        }
    }
    assert forall|ny: int, nx: int| adjacent(y, x, ny, nx) && #[trigger] open_cell(cells, ny, nx) implies exists|
        k: int,
    |
        0 <= k < s4.len() && (#[trigger] s4[k]).to == ny * w + nx by {
        if ny == y + 1 {
            let k = s1.len() - 1;
            assert(s4[k] == s1[k]);
        } else if ny == y - 1 {
            let k = s2.len() - 1;
            assert(s4[k] == s2[k]);
        } else if nx == x + 1 {
            let k = s3.len() - 1;
            assert(s4[k] == s3[k]);
        } else {
            let k = s4.len() - 1;
            assert(s4[k].to == ny * w + nx);
        }
    }
}

/// A step from one cell to an open cell next to it is a relaxed arc.
pub proof fn lemma_step_relaxed(
    cells: Cells,
    h: int,
    w: int,
    src: int,
    flat: Seq<Option<usize>>,
    prev: Seq<Seq<usize>>,
    i: int,
    j: int,
    ni: int,
    nj: int,
)
    requires
        cells.len() == h,
        has_width(cells, w),
        0 < w,
        h * w <= usize::MAX,
        settled(grid_graph(cells, w), src, flat, prev),
        0 <= i < h,
        0 <= j < w,
        flat[i * w + j] is Some,
        flat[i * w + j].unwrap() < usize::MAX,
        adjacent(i, j, ni, nj),
        open_cell(cells, ni, nj),
    ensures
        0 <= ni * w + nj < h * w,
        flat[ni * w + nj] is Some,
        flat[ni * w + nj].unwrap() <= flat[i * w + j].unwrap() + 1,
{
    let g = grid_graph(cells, w);
    assert(cells[i].len() == w && cells[ni].len() == w);
    lemma_cell_number(h, w, i, j);
    lemma_cell_number(h, w, ni, nj);
    lemma_steps(cells, h, w, i, j);
    let u = i * w + j;
    let k = choose|k: int|
        0 <= k < steps_from(cells, w, i, j).len() && (#[trigger] steps_from(cells, w, i, j)[k]).to
            == ni * w + nj;
    assert(arc_ok(g, u, k));
    assert(relaxed(g, flat, u, k));
}

/// A cell with a distance other than the source is open and has a cell
/// next to it that is one step closer.
#[verifier::rlimit(80)]
pub proof fn lemma_step_before(
    cells: Cells,
    h: int,
    w: int,
    src: int,
    flat: Seq<Option<usize>>,
    prev: Seq<Seq<usize>>,
    i: int,
    j: int,
) -> (from: (int, int))
    requires
        cells.len() == h,
        has_width(cells, w),
        0 < w,
        h * w <= usize::MAX,
        settled(grid_graph(cells, w), src, flat, prev),
        0 <= i < h,
        0 <= j < w,
        flat[i * w + j] is Some,
        i * w + j != src,
    ensures
        open_cell(cells, i, j),
        0 <= from.0 < h,
        0 <= from.1 < w,
        adjacent(from.0, from.1, i, j),
        flat[i * w + j].unwrap() >= 1,
        0 <= from.0 * w + from.1 < h * w,
        flat[from.0 * w + from.1] == Some((flat[i * w + j].unwrap() - 1) as usize),
{
    let g = grid_graph(cells, w);
    assert(cells[i].len() == w);
    lemma_cell_number(h, w, i, j);
    let v = i * w + j;
    assert(prev[v].len() > 0);
    assert(slot_ok(prev, v, 0));
    let p = prev[v][0] as int;
    assert(tight_pred(g, flat, p, v));
    let k = choose|k: int| #[trigger] arc_ok(g, p, k) && g[p][k].to == v && tight(g, flat, p, k);
    lemma_number_cell(h, w, p);
    let py = p / w;
    let px = p % w;
    lemma_steps(cells, h, w, py, px);
    assert(g[p] == steps_from(cells, w, py, px));
    let a = steps_from(cells, w, py, px)[k];
    assert(a.to == v);
    let (ni, nj) = choose|ni: int, nj: int|
        adjacent(py, px, ni, nj) && #[trigger] open_cell(cells, ni, nj) && a.to == ni * w + nj;
    assert(cells[ni].len() == w);
    lemma_cell_number(h, w, ni, nj);
    assert(ni == v / w && nj == v % w);
    assert(ni == i && nj == j);
    assert(a.cost == 1);
    assert(tight(g, flat, p, k));
    (py, px)
}

/// A table that holds, cell by cell, what a settled search found on the
/// graph of the grid holds the walking distances.
pub proof fn lemma_table_holds_distances(
    cells: Cells,
    h: int,
    w: int,
    src: (usize, usize),
    flat: Seq<Option<usize>>,
    prev: Seq<Seq<usize>>,
    table: Seq<Seq<Option<usize>>>,
)
    requires
        cells.len() == h,
        has_width(cells, w),
        h * w <= usize::MAX,
        src.0 < h,
        src.1 < w,
        settled(grid_graph(cells, w), src.0 * w + src.1, flat, prev),
        table.len() == h,
        has_width(table, w),
        forall|i: int, j: int| 0 <= i < h && 0 <= j < w ==> (#[trigger] table[i][j]) == flat[i * w + j],
    ensures
        distances_from(cells, src, table),
{
    let s = src.0 * w + src.1;
    assert forall|y: int| 0 <= y < cells.len() implies (#[trigger] table[y]).len() == cells[y].len() by {
        assert(cells[y].len() == w);
    }
    assert forall|i: int, j: int, ni: int, nj: int|
        0 <= i < cells.len() && 0 <= j < cells[i].len() && (#[trigger] table[i][j]) is Some
            && table[i][j].unwrap() < usize::MAX && adjacent(i, j, ni, nj) && #[trigger] open_cell(
            cells,
            ni,
            nj,
        ) implies table[ni][nj] is Some && table[ni][nj].unwrap() <= table[i][j].unwrap() + 1 by {
        assert(cells[i].len() == w && cells[ni].len() == w);
        lemma_step_relaxed(cells, h, w, s, flat, prev, i, j, ni, nj);
    }
    assert forall|i: int, j: int|
        0 <= i < cells.len() && 0 <= j < cells[i].len() && (#[trigger] table[i][j]) is Some && (i, j)
            != (src.0 as int, src.1 as int) implies open_cell(cells, i, j) && has_closer_neighbour(
        cells,
        table,
        i,
        j,
    ) by {
        assert(cells[i].len() == w);
        lemma_cell_number(h, w, i, j);
        lemma_cell_number(h, w, src.0 as int, src.1 as int);
        let from = lemma_step_before(cells, h, w, s, flat, prev, i, j);
        assert(cells[from.0].len() == w);
        assert(table[from.0][from.1] == flat[from.0 * w + from.1]);
    }
}

/// The grid as a graph over the numbers of its cells.
pub open spec fn grid_graph(cells: Cells, w: int) -> Graph {
    Seq::new((cells.len() * w) as nat, |id: int| steps_from(cells, w, id / w, id % w))
}

/// The steps from one cell.
pub fn steps(open: &Vec<Vec<bool>>, w: usize, y: usize, x: usize) -> (out: Vec<Arc>)
    requires
        has_width(cells_of(open@), w as int),
        y < open.len(),
        x < w,
        open.len() * w <= usize::MAX,
    ensures
        out@ == steps_from(cells_of(open@), w as int, y as int, x as int),
{
    let ghost cells = cells_of(open@);
    let h = open.len();
    let mut out: Vec<Arc> = Vec::new();
    assert(cells[y as int] == open[y as int]@);
    if y + 1 < h {
        assert(cells[y + 1] == open[y + 1]@);
        if open[y + 1][x] {
            proof {
                lemma_cell_number(h as int, w as int, y + 1, x as int);
            }
            out.push(Arc { to: (y + 1) * w + x, cost: 1 });
        }
    }
    if y >= 1 {
        assert(cells[y - 1] == open[y - 1]@);
        if open[y - 1][x] {
            proof {
                lemma_cell_number(h as int, w as int, y - 1, x as int);
            }
            out.push(Arc { to: (y - 1) * w + x, cost: 1 });
        }
    }
    if x + 1 < w && open[y][x + 1] {
        proof {
            lemma_cell_number(h as int, w as int, y as int, x + 1);
        }
        out.push(Arc { to: y * w + (x + 1), cost: 1 });
    }
    if x >= 1 && open[y][x - 1] {
        proof {
            lemma_cell_number(h as int, w as int, y as int, x - 1);
        }
        out.push(Arc { to: y * w + (x - 1), cost: 1 });
    }
    out
}

/// Finds the walking distance from `src` to every cell that can be reached.
pub fn distances(open: &Vec<Vec<bool>>, w: usize, src: (usize, usize)) -> (dist: Vec<Vec<Option<usize>>>)
    requires
        has_width(cells_of(open@), w as int),
        open.len() * w <= usize::MAX,
        src.0 < open.len(),
        src.1 < w,
    ensures
        distances_from(cells_of(open@), src, table_of(dist@)),
{
    let ghost cells = cells_of(open@);
    let h = open.len();
    let ghost g = grid_graph(cells, w as int);
    let mut adj: Vec<Vec<Arc>> = Vec::new();
    let mut y: usize = 0;
    while y < h
        invariant
            cells == cells_of(open@),
            has_width(cells, w as int),
            h == open.len(),
            h * w <= usize::MAX,
            y <= h,
            adj.len() == y * w,
            forall|id: int| 0 <= id < adj.len() ==> (#[trigger] adj[id])@ == steps_from(cells, w as int, id / (w as int), id % (w as int)),
        decreases h - y,
    {
        let mut x: usize = 0;
        while x < w
            invariant
                cells == cells_of(open@),
                has_width(cells, w as int),
                h == open.len(),
                h * w <= usize::MAX,
                y < h,
                x <= w,
                adj.len() == y * w + x,
                forall|id: int| 0 <= id < adj.len() ==> (#[trigger] adj[id])@ == steps_from(cells, w as int, id / (w as int), id % (w as int)),
            decreases w - x,
        {
            proof {
                lemma_cell_number(h as int, w as int, y as int, x as int);
            }
            let out = steps(open, w, y, x);
            adj.push(out);
            x += 1;
        }
        proof {
            assert(y * w + w == (y + 1) * w) by (nonlinear_arith);
        }
        y += 1;
    }
    proof {
        lemma_cell_number(h as int, w as int, src.0 as int, src.1 as int);
        assert(graph_of(adj@) =~= g);
        assert forall|u: int, k: int| #[trigger] arc_ok(g, u, k) implies g[u][k].to < g.len() by {
            lemma_number_cell(h as int, w as int, u);
            lemma_steps(cells, h as int, w as int, u / (w as int), u % (w as int));
        }
    }
    let found = shortest_paths(&adj, src.0 * w + src.1);
    let flat = found.0;
    let ghost prev = lists_of(found.1@);
    let mut dist: Vec<Vec<Option<usize>>> = Vec::new();
    let mut y: usize = 0;
    while y < h
        invariant
            h == open.len(),
            h * w <= usize::MAX,
            flat.len() == h * w,
            y <= h,
            dist.len() == y,
            forall|i: int| 0 <= i < y ==> (#[trigger] dist[i]).len() == w,
            forall|i: int, j: int| 0 <= i < y && 0 <= j < w ==> (#[trigger] dist[i][j]) == flat[i * w + j],
        decreases h - y,
    {
        let mut row: Vec<Option<usize>> = Vec::new();
        let mut x: usize = 0;
        while x < w
            invariant
                h * w <= usize::MAX,
                flat.len() == h * w,
                y < h,
                x <= w,
                row.len() == x,
                forall|j: int| 0 <= j < x ==> (#[trigger] row[j]) == flat[y * w + j],
            decreases w - x,
        {
            proof {
                lemma_cell_number(h as int, w as int, y as int, x as int);
            }
            row.push(flat[y * w + x]);
            x += 1;
        }
        dist.push(row);
        y += 1;
    }
    proof {
        let table = table_of(dist@);
        assert forall|i: int| 0 <= i < cells.len() implies (#[trigger] table[i]).len() == w by {
            assert(table[i] == dist[i]@);
        }
        assert forall|i: int, j: int| 0 <= i < h && 0 <= j < w implies (#[trigger] table[i][j]) == flat[i
            * w + j] by {
            assert(table[i] == dist[i]@);
        }
        lemma_table_holds_distances(cells, h as int, w as int, src, flat@, prev, table);
    }
    dist
}

/// Two tables of walking distances from one source know the same cells.
pub proof fn lemma_same_reach(
    cells: Cells,
    src: (usize, usize),
    a: Seq<Seq<Option<usize>>>,
    b: Seq<Seq<Option<usize>>>,
    x: int,
    y: int,
    d: int,
)
    requires
        distances_from(cells, src, a),
        distances_from(cells, src, b),
        0 <= x < a.len(),
        0 <= y < a[x].len(),
        a[x][y] == Some(d as usize),
        0 <= d <= usize::MAX,
    ensures
        b[x][y] is Some,
        b[x][y].unwrap() <= d,
    decreases d,
{
    if (x, y) == (src.0 as int, src.1 as int) {
    } else {
        let (px, py) = choose|px: int, py: int|
            0 <= px < cells.len() && 0 <= py < cells[px].len() && adjacent(px, py, x, y)
                && #[trigger] a[px][py] == Some((a[x][y].unwrap() - 1) as usize) && a[x][y].unwrap() >= 1;
        lemma_same_reach(cells, src, a, b, px, py, d - 1);
    }
}

/// Whether `walk` is a walk from `src`: it starts there, and each
/// further cell is open and shares an edge with the cell before it. A walk
/// has no more steps than machine integers count.
pub open spec fn walks_from(cells: Cells, src: (usize, usize), walk: Seq<(int, int)>) -> bool {
    &&& 1 <= walk.len() <= usize::MAX + 1
    &&& walk[0] == (src.0 as int, src.1 as int)
    &&& forall|i: int|
        1 <= i < walk.len() ==> open_cell(cells, (#[trigger] walk[i]).0, walk[i].1) && adjacent(
            walk[i - 1].0,
            walk[i - 1].1,
            walk[i].0,
            walk[i].1,
        )
}

/// Whether a walk leads from `src` to `(y, x)`.
pub open spec fn reachable(cells: Cells, src: (usize, usize), y: int, x: int) -> bool {
    exists|walk: Seq<(int, int)>| #[trigger] walks_from(cells, src, walk) && walk.last() == (y, x)
}

/// Whether `dist` holds the walking distances from `src`: see
/// `distances_from`.
#[verifier::opaque]
pub open spec fn tabled(cells: Cells, src: (usize, usize), dist: Seq<Seq<Option<usize>>>) -> bool {
    distances_from(cells, src, dist)
}

/// A cell with a distance, other than the source, is open, and next to it
/// lies a cell that is one step closer.
pub proof fn lemma_closer_cell(cells: Cells, src: (usize, usize), dist: Seq<Seq<Option<usize>>>, y: int, x: int) -> (p:
    (int, int))
    requires
        tabled(cells, src, dist),
        0 <= y < dist.len(),
        0 <= x < dist[y].len(),
        dist[y][x] is Some,
        (y, x) != (src.0 as int, src.1 as int),
    ensures
        open_cell(cells, y, x),
        adjacent(p.0, p.1, y, x),
        0 <= p.0 < dist.len(),
        0 <= p.1 < dist[p.0].len(),
        dist[y][x].unwrap() >= 1,
        dist[p.0][p.1] == Some((dist[y][x].unwrap() - 1) as usize),
{
    reveal(tabled);
    assert(has_closer_neighbour(cells, dist, y, x));
    let (py, px) = choose|py: int, px: int|
        0 <= py < cells.len() && 0 <= px < cells[py].len() && adjacent(py, px, y, x)
            && #[trigger] dist[py][px] == Some((dist[y][x].unwrap() - 1) as usize) && dist[y][x].unwrap() >= 1;
    (py, px)
}

/// To a cell with a distance leads a walk of as many steps.
pub proof fn lemma_tabled_is_walked(cells: Cells, src: (usize, usize), dist: Seq<Seq<Option<usize>>>, y: int, x: int) -> (walk:
    Seq<(int, int)>)
    requires
        tabled(cells, src, dist),
        0 <= y < dist.len(),
        0 <= x < dist[y].len(),
        dist[y][x] is Some,
    ensures
        walks_from(cells, src, walk),
        walk.last() == (y, x),
        walk.len() == dist[y][x].unwrap() + 1,
    decreases dist[y][x].unwrap(),
{
    if (y, x) == (src.0 as int, src.1 as int) {
        assert(dist[y][x] == Some(0usize)) by {
            reveal(tabled);
        }
        seq![(y, x)]
    } else {
        let p = lemma_closer_cell(cells, src, dist, y, x);
        let before = lemma_tabled_is_walked(cells, src, dist, p.0, p.1);
        let walk = before.push((y, x));
        assert forall|i: int| 1 <= i < walk.len() implies open_cell(cells, (#[trigger] walk[i]).0, walk[i].1)
            && adjacent(walk[i - 1].0, walk[i - 1].1, walk[i].0, walk[i].1) by {
            if i < before.len() {
                assert(walk[i] == before[i] && walk[i - 1] == before[i - 1]);
            } else {
                assert(walk[i - 1] == before.last());
            }
        }
        walk
    }
}

/// To a cell with a distance leads a walk of as many steps.
pub proof fn lemma_distance_is_walked(
    cells: Cells,
    src: (usize, usize),
    dist: Seq<Seq<Option<usize>>>,
    y: int,
    x: int,
) -> (walk: Seq<(int, int)>)
    requires
        distances_from(cells, src, dist),
        0 <= y < dist.len(),
        0 <= x < dist[y].len(),
        dist[y][x] is Some,
    ensures
        walks_from(cells, src, walk),
        walk.last() == (y, x),
        walk.len() == dist[y][x].unwrap() + 1,
{
    assert(tabled(cells, src, dist)) by {
        reveal(tabled);
    }
    lemma_tabled_is_walked(cells, src, dist, y, x)
}

/// Every cell of a walk has a distance, no greater than the steps that
/// lead to it.
pub proof fn lemma_walked_has_distance(
    cells: Cells,
    src: (usize, usize),
    dist: Seq<Seq<Option<usize>>>,
    walk: Seq<(int, int)>,
    i: int,
)
    requires
        distances_from(cells, src, dist),
        src.0 < cells.len(),
        src.1 < cells[src.0 as int].len(),
        walks_from(cells, src, walk),
        0 <= i < walk.len(),
    ensures
        0 <= walk[i].0 < dist.len(),
        0 <= walk[i].1 < dist[walk[i].0].len(),
        dist[walk[i].0][walk[i].1] is Some,
        dist[walk[i].0][walk[i].1].unwrap() <= i,
    decreases i,
{
    if i > 0 {
        lemma_walked_has_distance(cells, src, dist, walk, i - 1);
        let p = walk[i - 1];
        let q = walk[i];
        assert(open_cell(cells, q.0, q.1) && adjacent(p.0, p.1, q.0, q.1));
        assert(dist[p.0][p.1].unwrap() < usize::MAX);
    }
}

/// A table of distances knows exactly the cells to which a walk leads.
pub proof fn lemma_distance_iff_reachable(
    cells: Cells,
    src: (usize, usize),
    dist: Seq<Seq<Option<usize>>>,
    y: int,
    x: int,
)
    requires
        distances_from(cells, src, dist),
        src.0 < cells.len(),
        src.1 < cells[src.0 as int].len(),
        0 <= y < dist.len(),
        0 <= x < dist[y].len(),
    ensures
        dist[y][x] is Some <==> reachable(cells, src, y, x),
{
    if dist[y][x] is Some {
        let walk = lemma_distance_is_walked(cells, src, dist, y, x);
        assert(walks_from(cells, src, walk) && walk.last() == (y, x));
    }
    if reachable(cells, src, y, x) {
        let walk = choose|walk: Seq<(int, int)>| #[trigger] walks_from(cells, src, walk) && walk.last() == (y, x);
        lemma_walked_has_distance(cells, src, dist, walk, walk.len() - 1);
    }
}

/// Where more cells are open, no fewer cells are reached.
pub proof fn lemma_more_open_reaches_more(fewer: Cells, more: Cells, src: (usize, usize), y: int, x: int)
    requires
        forall|a: int, b: int| open_cell(fewer, a, b) ==> #[trigger] open_cell(more, a, b),
        reachable(fewer, src, y, x),
    ensures
        reachable(more, src, y, x),
{
    let walk = choose|walk: Seq<(int, int)>| #[trigger] walks_from(fewer, src, walk) && walk.last() == (y, x);
    assert forall|i: int| 1 <= i < walk.len() implies open_cell(more, (#[trigger] walk[i]).0, walk[i].1) by {
        assert(open_cell(fewer, walk[i].0, walk[i].1));
    }
    assert(walks_from(more, src, walk));
}

/// Whether the shortest walks from `src` to `(y, x)` take `d` steps.
pub open spec fn steps_to(cells: Cells, src: (usize, usize), y: int, x: int, d: int) -> bool {
    &&& exists|walk: Seq<(int, int)>| #[trigger]
        walks_from(cells, src, walk) && walk.last() == (y, x) && walk.len() == d + 1
    &&& forall|walk: Seq<(int, int)>| #[trigger]
        walks_from(cells, src, walk) && walk.last() == (y, x) ==> walk.len() >= d + 1
}

/// The distance that a table holds for a cell is the number of steps of
/// the shortest walks to it.
pub proof fn lemma_distance_is_shortest(
    cells: Cells,
    src: (usize, usize),
    dist: Seq<Seq<Option<usize>>>,
    y: int,
    x: int,
)
    requires
        distances_from(cells, src, dist),
        src.0 < cells.len(),
        src.1 < cells[src.0 as int].len(),
        0 <= y < dist.len(),
        0 <= x < dist[y].len(),
        dist[y][x] is Some,
    ensures
        steps_to(cells, src, y, x, dist[y][x].unwrap() as int),
{
    let d = dist[y][x].unwrap() as int;
    let found = lemma_distance_is_walked(cells, src, dist, y, x);
    assert(walks_from(cells, src, found) && found.last() == (y, x) && found.len() == d + 1);
    assert forall|walk: Seq<(int, int)>| #[trigger] walks_from(cells, src, walk) && walk.last() == (y, x) implies walk.len()
        >= d + 1 by {
        lemma_walked_has_distance(cells, src, dist, walk, walk.len() - 1);
    }
}

} // verus!
