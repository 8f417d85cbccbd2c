//! A maze walked by a reindeer that pays one point for a step and a
//! thousand for a quarter turn.

use crate::paths::{
    arc_ok, back_closure, chain_ok, closed, follows_prev, graph_of, leads_back, leads_to_any,
    lemma_chain_is_on_cheapest_walk, lemma_cheapest_walk_exists, lemma_cheapest_walk_is_covered,
    lemma_cost_is_lowest, lists_closed, lists_of, settled, shortest_paths, slot_ok, walk_cost, walk_ok,
    Arc, Graph,
};
use crate::text;
use vstd::prelude::*;

verus! {

/// The direction that the reindeer faces.
#[derive(PartialEq, Eq, PartialOrd, Ord, Clone, Copy, Hash, Debug, Structural)]
pub enum Dir {
    North,
    South,
    East,
    West,
}

impl Dir {
    /// The row and column offsets of one step.
    pub open spec fn delta_spec(self) -> (int, int) {
        match self {
            Dir::North => (-1, 0),
            Dir::South => (1, 0),
            Dir::East => (0, 1),
            Dir::West => (0, -1),
        }
    }

    /// The direction after a quarter turn to the right.
    pub open spec fn right(self) -> Dir {
        match self {
            Dir::North => Dir::East,
            Dir::East => Dir::South,
            Dir::South => Dir::West,
            Dir::West => Dir::North,
        }
    }

    /// The direction after a quarter turn to the left.
    pub open spec fn left(self) -> Dir {
        match self {
            Dir::North => Dir::West,
            Dir::West => Dir::South,
            Dir::South => Dir::East,
            Dir::East => Dir::North,
        }
    }

    /// The place of a direction among the four nodes of a tile.
    pub open spec fn rank(self) -> int {
        match self {
            Dir::North => 0,
            Dir::South => 1,
            Dir::East => 2,
            Dir::West => 3,
        }
    }

    /// The row and column offsets of one step.
    pub fn delta(&self) -> (d: (i32, i32))
        ensures
            d.0 == self.delta_spec().0,
            d.1 == self.delta_spec().1,
    {
        match self {
            Dir::North => (-1, 0),
            Dir::South => (1, 0),
            Dir::East => (0, 1),
            Dir::West => (0, -1),
        }
    }

    /// The direction a quarter turn to the right.
    pub fn rotate_right(&self) -> (d: Self)
        ensures
            d == self.right(),
            d.left() == *self,
    {
        match self {
            Dir::North => Dir::East,
            Dir::East => Dir::South,
            Dir::South => Dir::West,
            Dir::West => Dir::North,
        }
    }

    /// The direction a quarter turn to the left.
    pub fn rotate_left(&self) -> (d: Self)
        ensures
            d == self.left(),
            d.right() == *self,
    {
        match self {
            Dir::North => Dir::West,
            Dir::West => Dir::South,
            Dir::South => Dir::East,
            Dir::East => Dir::North,
        }
    }

    /// The four directions.
    pub fn dirs() -> (all: Vec<Dir>)
        ensures
            all@ == seq![Dir::East, Dir::South, Dir::West, Dir::North],
    {
        let mut all: Vec<Dir> = Vec::new();
        all.push(Dir::East);
        all.push(Dir::South);
        all.push(Dir::West);
        all.push(Dir::North);
        assert(all@ =~= seq![Dir::East, Dir::South, Dir::West, Dir::North]);
        all
    }

    /// The place of a direction among the four nodes of a tile.
    pub fn place(&self) -> (r: usize)
        ensures
            r == self.rank(),
    {
        match self {
            Dir::North => 0,
            Dir::South => 1,
            Dir::East => 2,
            Dir::West => 3,
        }
    }
}

/// A tile together with the direction faced on it.
#[derive(PartialEq, Eq, PartialOrd, Ord, Clone, Copy, Hash, Debug)]
pub struct Node {
    pub p: (usize, usize),
    pub dir: Dir,
}

impl Node {
    /// The node on the same tile after a quarter turn to the right.
    pub fn rotate_right(&self) -> (n: Self)
        ensures
            n == (Node { p: self.p, dir: self.dir.right() }),
    {
        Node { p: self.p, dir: self.dir.rotate_right() }
    }

    /// The node on the same tile after a quarter turn to the left.
    pub fn rotate_left(&self) -> (n: Self)
        ensures
            n == (Node { p: self.p, dir: self.dir.left() }),
    {
        Node { p: self.p, dir: self.dir.rotate_left() }
    }
}

/// A move from one node to another, and what it costs.
#[derive(PartialEq, Eq, Clone, Copy, Debug)]
pub struct Edge {
    pub dst: Node,
    pub cost: usize,
}

/// The cost of a quarter turn.
pub const TURN_COST: usize = 1000;

/// The cost of a step.
pub const STEP_COST: usize = 1;

/// The number of the node `node` in a maze `width` tiles wide.
pub open spec fn index_of(width: int, node: Node) -> int {
    (node.p.0 * width + node.p.1) * 4 + node.dir.rank()
}

/// The nodes of a maze are numbered without gaps: every node of a tile in
/// the maze has a number below four times the number of tiles.
pub proof fn lemma_index_bound(height: int, width: int, node: Node)
    requires
        0 <= node.p.0 < height,
        0 <= node.p.1 < width,
    ensures
        0 <= index_of(width, node) < height * width * 4,
        0 <= node.p.0 * width + node.p.1 < height * width,
{
    assert(node.p.0 * width + node.p.1 < height * width) by (nonlinear_arith)
        requires
            0 <= node.p.0 < height,
            0 <= node.p.1 < width,
    ;
    assert(0 <= node.p.0 * width) by (nonlinear_arith)
        requires
            0 <= node.p.0,
            0 <= width,
    ;
}

/// Two nodes with the same number are the same node.
pub proof fn lemma_index_injective(width: int, a: Node, b: Node)
    requires
        0 <= a.p.1 < width,
        0 <= b.p.1 < width,
        index_of(width, a) == index_of(width, b),
    ensures
        a == b,
{
    assert(a.dir.rank() == b.dir.rank());
    assert(a.p.0 * width + a.p.1 == b.p.0 * width + b.p.1);
    assert(a.p.0 == b.p.0 && a.p.1 == b.p.1) by (nonlinear_arith)
        requires
            a.p.0 * width + a.p.1 == b.p.0 * width + b.p.1,
            0 <= a.p.1 < width,
            0 <= b.p.1 < width,
            a.p.0 >= 0,
            b.p.0 >= 0,
    ;
}

/// A maze: its start, its exit, its size, and the moves from each of its nodes.
pub struct Maze {
    pub src: Node,
    pub exit: (usize, usize),
    pub height: usize,
    pub width: usize,
    /// The moves from each node, in the order of the nodes' numbers.
    pub adj_list: Vec<Vec<Edge>>,
}

impl Maze {
    /// Whether `p` is a tile of the maze.
    pub open spec fn has_tile(&self, p: (usize, usize)) -> bool {
        p.0 < self.height && p.1 < self.width
    }

    /// The number of a node.
    pub open spec fn id(&self, node: Node) -> int {
        index_of(self.width as int, node)
    }

    /// A maze is well formed when it lists the moves of every node of every
    /// tile, its start, its exit and every move lie on its tiles, and every
    /// move costs something.
    pub open spec fn wf(&self) -> bool {
        &&& self.every_move_costs()
        &&& self.height * self.width * 4 <= usize::MAX
        &&& self.adj_list.len() == self.height * self.width * 4
        &&& self.has_tile(self.src.p)
        &&& self.has_tile(self.exit)
        &&& forall|u: int, k: int|
            0 <= u < self.adj_list.len() && 0 <= k < self.adj_list[u].len() ==> self.has_tile(
                (#[trigger] self.adj_list[u][k]).dst.p,
            )
    }

    /// Whether every move costs something.
    pub open spec fn every_move_costs(&self) -> bool {
        forall|u: int, k: int|
            0 <= u < self.adj_list.len() && 0 <= k < self.adj_list[u].len() ==> (
            #[trigger] self.adj_list[u][k]).cost >= 1
    }

    /// The maze as a graph over the numbers of its nodes.
    pub open spec fn graph(&self) -> Graph {
        Seq::new(
            self.adj_list.len() as nat,
            |u: int|
                Seq::new(
                    self.adj_list[u].len() as nat,
                    |k: int|
                        Arc {
                            to: self.id(self.adj_list[u][k].dst) as usize,
                            cost: self.adj_list[u][k].cost,
                        },
                ),
        )
    }

    /// Every move of a well-formed maze leads to a node of the maze.
    pub proof fn lemma_graph_closed(&self)
        requires
            self.wf(),
        ensures
            closed(self.graph()),
            self.graph().len() == self.adj_list.len(),
            0 <= self.id(self.src) < self.adj_list.len(),
    {
        let g = self.graph();
        assert forall|x: int, k: int| #[trigger] arc_ok(g, x, k) implies g[x][k].to < g.len() by {
            let e = self.adj_list[x][k];
            assert(self.has_tile(e.dst.p));
            lemma_index_bound(self.height as int, self.width as int, e.dst);
        }
        lemma_index_bound(self.height as int, self.width as int, self.src);
    }

    /// The number of a node on a tile of the maze.
    pub fn index(&self, node: Node) -> (r: usize)
        requires
            self.height * self.width * 4 <= usize::MAX,
            self.has_tile(node.p),
        ensures
            r == self.id(node),
            r < self.height * self.width * 4,
    {
        proof {
            lemma_index_bound(self.height as int, self.width as int, node);
        }
        (node.p.0 * self.width + node.p.1) * 4 + node.dir.place()
    }

    /// Finds the lowest score of reaching each node from the start, and for
    /// each node the nodes right before it on its cheapest paths. Both lists
    /// go by the numbers of the nodes.
    pub fn dijkstra(&self) -> (res: (Vec<Option<usize>>, Vec<Vec<usize>>))
        requires
            self.wf(),
        ensures
            settled(self.graph(), self.id(self.src), res.0@, lists_of(res.1@)),
            lists_closed(lists_of(res.1@)),
    {
        let mut arcs: Vec<Vec<Arc>> = Vec::new();
        let ghost g = self.graph();
        proof {
            self.lemma_graph_closed();
        }
        let mut u: usize = 0;
        while u < self.adj_list.len()
            invariant
                self.wf(),
                g == self.graph(),
                u <= self.adj_list.len(),
                arcs.len() == u,
                forall|x: int| 0 <= x < u ==> (#[trigger] arcs[x])@ == g[x],
            decreases self.adj_list.len() - u,
        {
            let mut row: Vec<Arc> = Vec::new();
            let mut k: usize = 0;
            while k < self.adj_list[u].len()
                invariant
                    self.wf(),
                    g == self.graph(),
                    u < self.adj_list.len(),
                    k <= self.adj_list[u as int].len(),
                    row.len() == k,
                    forall|i: int| 0 <= i < k ==> #[trigger] row[i] == g[u as int][i],
                decreases self.adj_list[u as int].len() - k,
            {
                let e = self.adj_list[u][k];
                assert(self.has_tile(e.dst.p));
                row.push(Arc { to: self.index(e.dst), cost: e.cost });
                k += 1;
            }
            assert(row@ =~= g[u as int]);
            arcs.push(row);
            u += 1;
        }
        assert(graph_of(arcs@) =~= g);
        let src = self.index(self.src);
        let res = shortest_paths(&arcs, src);
        proof {
            let lists = lists_of(res.1@);
            assert forall|v: int, i: int| #[trigger] slot_ok(lists, v, i) implies lists[v][i]
                < lists.len() by {}
        }
        res
    }

    /// The lowest score among the four nodes of the exit, if any of them
    /// can be reached.
    pub fn lowest_exit_cost(&self, dist: &Vec<Option<usize>>) -> (best: Option<usize>)
        requires
            self.wf(),
            dist.len() == self.adj_list.len(),
        ensures
            best is None <==> forall|dir: Dir| dist[self.id(Node { p: self.exit, dir })] is None,
            best is Some ==> exists|dir: Dir| dist[self.id(Node { p: self.exit, dir })] == best,
            best is Some ==> forall|dir: Dir|
                (#[trigger] dist[self.id(Node { p: self.exit, dir })]) is Some ==> best.unwrap()
                    <= dist[self.id(Node { p: self.exit, dir })].unwrap(),
    {
        let n = self.index(Node { p: self.exit, dir: Dir::North });
        let s = self.index(Node { p: self.exit, dir: Dir::South });
        let e = self.index(Node { p: self.exit, dir: Dir::East });
        let w = self.index(Node { p: self.exit, dir: Dir::West });
        let mut best: Option<usize> = None;
        best = lower_of(best, dist[n]);
        best = lower_of(best, dist[s]);
        best = lower_of(best, dist[e]);
        best = lower_of(best, dist[w]);
        proof {
            assert forall|dir: Dir| best is None implies dist[self.id(Node { p: self.exit, dir })] is None by {
                match dir {
                    Dir::North => {},
                    Dir::South => {},
                    Dir::East => {},
                    Dir::West => {},
                }
            }
            if best is Some {
                let d = if dist[n as int] == best {
                    Dir::North
                } else if dist[s as int] == best {
                    Dir::South
                } else if dist[e as int] == best {
                    Dir::East
                } else {
                    Dir::West
                };
                assert(dist[self.id(Node { p: self.exit, dir: d })] == best);
                assert forall|dir: Dir| (#[trigger] dist[self.id(Node { p: self.exit, dir })]) is Some implies best.unwrap()
                    <= dist[self.id(Node { p: self.exit, dir })].unwrap() by {
                    match dir {
                        Dir::North => {},
                        Dir::South => {},
                        Dir::East => {},
                        Dir::West => {},
                    }
                }
            } else {
                assert(dist[self.id(Node { p: self.exit, dir: Dir::North })] is None);
            }
        }
        best
    }
}

/// The lower of two scores, where a missing score is higher than any.
pub fn lower_of(a: Option<usize>, b: Option<usize>) -> (r: Option<usize>)
    ensures
        r is None <==> a is None && b is None,
        r is Some ==> r == a || r == b,
        a is Some ==> r is Some && r.unwrap() <= a.unwrap(),
        b is Some ==> r is Some && r.unwrap() <= b.unwrap(),
{
    match (a, b) {
        (Some(x), Some(y)) => if y < x {
            Some(y)
        } else {
            Some(x)
        },
        (Some(x), None) => Some(x),
        (None, y) => y,
    }
}

/// Whether `t` is the number of a node of the exit with the score `len`.
pub open spec fn best_exit(maze: Maze, dist: Seq<Option<usize>>, len: usize, t: int) -> bool {
    exists|dir: Dir| #[trigger]
        maze.id(Node { p: maze.exit, dir }) == t && dist[maze.id(Node { p: maze.exit, dir })]
            == Some(len)
}

/// Whether the node with the number `x` lies on a path that the
/// predecessor lists lead back along from an exit node with the score `len`.
pub open spec fn on_best_path(
    maze: Maze,
    dist: Seq<Option<usize>>,
    prev: Seq<Seq<usize>>,
    len: usize,
    x: int,
) -> bool {
    exists|t: int| #[trigger] best_exit(maze, dist, len, t) && leads_back(prev, x, t)
}

/// Whether the tile `p` lies on such a path, whatever the direction faced.
pub open spec fn tile_on_best_path(
    maze: Maze,
    dist: Seq<Option<usize>>,
    prev: Seq<Seq<usize>>,
    len: usize,
    p: (usize, usize),
) -> bool {
    exists|dir: Dir| #[trigger] on_best_path(maze, dist, prev, len, maze.id(Node { p, dir }))
}

/// Whether one of the four nodes of the tile `p` is marked.
pub open spec fn tile_marked(maze: Maze, marks: Seq<bool>, p: (usize, usize)) -> bool {
    exists|dir: Dir| #[trigger] marks[maze.id(Node { p, dir })]
}

/// Whether `(i, j)` comes before `(y, x)` in reading order.
pub open spec fn before(i: usize, j: usize, y: usize, x: usize) -> bool {
    i < y || (i == y && j < x)
}

/// The numbers of the exit nodes whose score is `len`.
pub fn best_exits(maze: &Maze, len: usize, dist: &Vec<Option<usize>>) -> (targets: Vec<usize>)
    requires
        maze.wf(),
        dist.len() == maze.adj_list.len(),
    ensures
        forall|i: int| 0 <= i < targets.len() ==> (#[trigger] targets[i]) < dist.len() && best_exit(*maze, dist@, len, targets[i] as int),
        forall|t: int| best_exit(*maze, dist@, len, t) ==> targets@.contains(t as usize) && 0 <= t < dist.len(),
{
    let dirs = Dir::dirs();
    let mut targets: Vec<usize> = Vec::new();
    let mut i: usize = 0;
    while i < dirs.len()
        invariant
            maze.wf(),
            dist.len() == maze.adj_list.len(),
            i <= dirs.len(),
            dirs@ == seq![Dir::East, Dir::South, Dir::West, Dir::North],
            forall|k: int| 0 <= k < targets.len() ==> (#[trigger] targets[k]) < dist.len() && best_exit(*maze, dist@, len, targets[k] as int),
            forall|k: int|
                0 <= k < i && dist[maze.id(Node { p: maze.exit, dir: #[trigger] dirs[k] })] == Some(len)
                    ==> targets@.contains(maze.id(Node { p: maze.exit, dir: dirs[k] }) as usize),
        decreases dirs.len() - i,
    {
        let node = Node { p: maze.exit, dir: dirs[i] };
        let t = maze.index(node);
        let ghost held = targets@;
        if dist[t] == Some(len) {
            targets.push(t);
            assert(targets@[held.len() as int] == t);
            assert(maze.id(Node { p: maze.exit, dir: dirs[i as int] }) == t);
        }
        assert forall|k: int|
            0 <= k < i + 1 && dist[maze.id(Node { p: maze.exit, dir: #[trigger] dirs[k] })] == Some(
                len,
            ) implies targets@.contains(maze.id(Node { p: maze.exit, dir: dirs[k] }) as usize) by {
            let id = maze.id(Node { p: maze.exit, dir: dirs[k] }) as usize;
            if k < i {
                assert(held.contains(id));
                let at = choose|at: int| 0 <= at < held.len() && held[at] == id;
                assert(targets@[at] == id);
            }
        }
        i += 1;
    }
    proof {
        assert forall|t: int| best_exit(*maze, dist@, len, t) implies targets@.contains(t as usize) && 0
            <= t < dist.len() by {
            let dir = choose|dir: Dir| #[trigger]
                maze.id(Node { p: maze.exit, dir }) == t && dist[maze.id(
                    Node { p: maze.exit, dir },
                )] == Some(len);
            lemma_index_bound(maze.height as int, maze.width as int, Node { p: maze.exit, dir });
            match dir {
                Dir::East => {
                    assert(dirs[0] == dir);
                },
                Dir::South => {
                    assert(dirs[1] == dir);
                },
                Dir::West => {
                    assert(dirs[2] == dir);
                },
                Dir::North => {
                    assert(dirs[3] == dir);
                },
            }
        }
    }
    targets
}

/// The tiles that lie on a path which the predecessor lists lead back along
/// from an exit node with the score `len_shortest_path`: with the lowest
/// score of the exit, the tiles of every cheapest path. Each tile comes once,
/// in reading order.
pub fn find_pos_on_shortest_path(
    maze: &Maze,
    len_shortest_path: usize,
    dist: &Vec<Option<usize>>,
    prev: &Vec<Vec<usize>>,
) -> (res: Vec<(usize, usize)>)
    requires
        maze.wf(),
        dist.len() == maze.adj_list.len(),
        prev.len() == maze.adj_list.len(),
        lists_closed(lists_of(prev@)),
    ensures
        res@.no_duplicates(),
        forall|p: (usize, usize)|
            #![trigger res@.contains(p)]
            res@.contains(p) <==> maze.has_tile(p) && tile_on_best_path(
                *maze,
                dist@,
                lists_of(prev@),
                len_shortest_path,
                p,
            ),
        settled(maze.graph(), maze.id(maze.src), dist@, lists_of(prev@)) && lowest(*maze, dist@, len_shortest_path)
            ==> forall|p: (usize, usize)|
            #![trigger res@.contains(p)]
            res@.contains(p) <==> maze.has_tile(p) && on_way_out(*maze, len_shortest_path, p),
{
    let targets = best_exits(maze, len_shortest_path, dist);
    let marks = back_closure(prev, &targets);
    let ghost lists = lists_of(prev@);
    let ghost len = len_shortest_path;
    proof {
        assert forall|x: int| 0 <= x < marks.len() implies (#[trigger] marks[x] <==> on_best_path(
            *maze,
            dist@,
            lists,
            len,
            x,
        )) by {
            if marks[x] {
                assert(leads_to_any(lists, x, targets@));
                let i = choose|i: int|
                    0 <= i < targets.len() && leads_back(lists, x, #[trigger] targets[i] as int);
                assert(best_exit(*maze, dist@, len, targets[i] as int));
            }
            if on_best_path(*maze, dist@, lists, len, x) {
                let t = choose|t: int| #[trigger]
                    best_exit(*maze, dist@, len, t) && leads_back(lists, x, t);
                assert(targets@.contains(t as usize));
                let i = choose|i: int| 0 <= i < targets.len() && targets[i] == t as usize;
                assert(leads_back(lists, x, targets[i] as int));
            }
        }
    }
    let mut res: Vec<(usize, usize)> = Vec::new();
    let mut y: usize = 0;
    while y < maze.height
        invariant
            maze.wf(),
            marks.len() == maze.adj_list.len(),
            y <= maze.height,
            res@.no_duplicates(),
            forall|i: int|
                0 <= i < res.len() ==> maze.has_tile(#[trigger] res[i]) && res[i].0 < y && tile_marked(
                    *maze,
                    marks@,
                    res[i],
                ),
            forall|p: (usize, usize)|
                maze.has_tile(p) && p.0 < y && #[trigger] tile_marked(*maze, marks@, p)
                    ==> res@.contains(p),
        decreases maze.height - y,
    {
        let mut x: usize = 0;
        while x < maze.width
            invariant
                maze.wf(),
                marks.len() == maze.adj_list.len(),
                y < maze.height,
                x <= maze.width,
                res@.no_duplicates(),
                forall|i: int|
                    0 <= i < res.len() ==> maze.has_tile(#[trigger] res[i]) && before(
                        res[i].0,
                        res[i].1,
                        y,
                        x,
                    ) && tile_marked(*maze, marks@, res[i]),
                forall|p: (usize, usize)|
                    maze.has_tile(p) && before(p.0, p.1, y, x) && #[trigger] tile_marked(
                        *maze,
                        marks@,
                        p,
                    ) ==> res@.contains(p),
            decreases maze.width - x,
        {
            let n = maze.index(Node { p: (y, x), dir: Dir::North });
            let s = maze.index(Node { p: (y, x), dir: Dir::South });
            let e = maze.index(Node { p: (y, x), dir: Dir::East });
            let w = maze.index(Node { p: (y, x), dir: Dir::West });
            let any = marks[n] || marks[s] || marks[e] || marks[w];
            proof {
                if tile_marked(*maze, marks@, (y, x)) {
                    let dir = choose|dir: Dir| #[trigger] marks[maze.id(Node { p: (y, x), dir })];
                    match dir {
                        Dir::North => {},
                        Dir::South => {},
                        Dir::East => {},
                        Dir::West => {},
                    }
                }
                if marks[n as int] {
                    assert(marks[maze.id(Node { p: (y, x), dir: Dir::North })]);
                }
                if marks[s as int] {
                    assert(marks[maze.id(Node { p: (y, x), dir: Dir::South })]);
                }
                if marks[e as int] {
                    assert(marks[maze.id(Node { p: (y, x), dir: Dir::East })]);
                }
                if marks[w as int] {
                    assert(marks[maze.id(Node { p: (y, x), dir: Dir::West })]);
                }
                assert(any == tile_marked(*maze, marks@, (y, x)));
            }
            let ghost held = res@;
            if any {
                res.push((y, x));
                assert(res@[held.len() as int] == (y, x));
            }
            proof {
                assert forall|p: (usize, usize)|
                    maze.has_tile(p) && before(p.0, p.1, y, (x + 1) as usize) && #[trigger] tile_marked(
                        *maze,
                        marks@,
                        p,
                    ) implies res@.contains(p) by {
                    if before(p.0, p.1, y, x) {
                        assert(held.contains(p));
                        let at = choose|at: int| 0 <= at < held.len() && held[at] == p;
                        assert(res@[at] == p);
                    } else {
                        assert(p == (y, x));
                    }
                }
                assert forall|i: int, j: int| 0 <= i < res.len() && 0 <= j < res.len() && i != j implies res[i]
                    != res[j] by {
                    if i < held.len() && j < held.len() {
                        assert(held[i] != held[j]);
                    } else if i < held.len() {
                        assert(before(held[i].0, held[i].1, y, x));
                    } else if j < held.len() {
                        assert(before(held[j].0, held[j].1, y, x));
                    }
                }
            }
            x += 1;
        }
        y += 1;
    }
    proof {
        assert forall|p: (usize, usize)|
            res@.contains(p) <==> maze.has_tile(p) && tile_on_best_path(*maze, dist@, lists, len, p) by {
            if res@.contains(p) {
                let at = choose|at: int| 0 <= at < res.len() && res[at] == p;
                assert(tile_marked(*maze, marks@, res[at]));
                let dir = choose|dir: Dir| #[trigger] marks[maze.id(Node { p, dir })];
                lemma_index_bound(maze.height as int, maze.width as int, Node { p, dir });
                assert(on_best_path(*maze, dist@, lists, len, maze.id(Node { p, dir })));
            }
            if maze.has_tile(p) && tile_on_best_path(*maze, dist@, lists, len, p) {
                let dir = choose|dir: Dir| #[trigger]
                    on_best_path(*maze, dist@, lists, len, maze.id(Node { p, dir }));
                lemma_index_bound(maze.height as int, maze.width as int, Node { p, dir });
                assert(marks[maze.id(Node { p, dir })]);
                assert(tile_marked(*maze, marks@, p));
            }
        }
        if settled(maze.graph(), maze.id(maze.src), dist@, lists) && lowest(*maze, dist@, len) {
            assert forall|p: (usize, usize)|
                #![trigger res@.contains(p)]
                res@.contains(p) <==> maze.has_tile(p) && on_way_out(*maze, len, p) by {
                lemma_best_tiles_are_on_ways_out(*maze, dist@, lists, len, p);
            }
        }
    }
    res
}

/// Whether `(y, x)` is a tile of the map that is no wall.
pub open spec fn open_at(rows: Seq<Seq<char>>, y: int, x: int) -> bool {
    0 <= y < rows.len() && 0 <= x < rows[y].len() && rows[y][x] != '#'
}

/// Whether every row of the map is as long as the first.
pub open spec fn even_rows(rows: Seq<Seq<char>>) -> bool {
    forall|y: int| 0 <= y < rows.len() ==> (#[trigger] rows[y]).len() == rows[0].len()
}

/// Whether walls enclose the map: no open tile lies on its edge.
pub open spec fn enclosed(rows: Seq<Seq<char>>) -> bool {
    forall|y: int, x: int| #[trigger]
        open_at(rows, y, x) ==> 0 < y < rows.len() - 1 && 0 < x < rows[0].len() - 1
}

/// Whether a maze can be built from the map: it has tiles, its rows are
/// even, walls enclose it, and its nodes can be numbered in machine integers.
pub open spec fn map_ok(rows: Seq<Seq<char>>) -> bool {
    &&& rows.len() > 0
    &&& rows[0].len() > 0
    &&& even_rows(rows)
    &&& rows.len() * rows[0].len() * 4 <= usize::MAX
    &&& enclosed(rows)
}

/// Whether `pos` is where the map shows `mark` last in reading order, or
/// the origin if the map does not show it.
pub open spec fn last_mark(rows: Seq<Seq<char>>, mark: char, pos: (usize, usize)) -> bool {
    let shown = 0 <= pos.0 < rows.len() && 0 <= pos.1 < rows[pos.0 as int].len()
        && rows[pos.0 as int][pos.1 as int] == mark;
    &&& shown || pos == (0usize, 0usize)
    &&& forall|y: int, x: int|
        0 <= y < rows.len() && 0 <= x < rows[y].len() && #[trigger] rows[y][x] == mark ==> shown && (y
            < pos.0 || (y == pos.0 && x <= pos.1))
}

/// The moves from a node: none from a wall; otherwise a quarter turn to
/// either side for a thousand points each, and a step ahead for one point
/// where the tile ahead is open.
pub open spec fn moves_of(rows: Seq<Seq<char>>, node: Node) -> Seq<Edge> {
    let turns = seq![
        Edge { dst: Node { p: node.p, dir: node.dir.right() }, cost: 1000 },
        Edge { dst: Node { p: node.p, dir: node.dir.left() }, cost: 1000 },
    ];
    let y = node.p.0 + node.dir.delta_spec().0;
    let x = node.p.1 + node.dir.delta_spec().1;
    if !open_at(rows, node.p.0 as int, node.p.1 as int) {
        Seq::empty()
    } else if open_at(rows, y, x) {
        turns.push(Edge { dst: Node { p: (y as usize, x as usize), dir: node.dir }, cost: 1 })
    } else {
        turns
    }
}

/// The direction with the rank `r`.
pub fn dir_at(r: usize) -> (dir: Dir)
    requires
        r < 4,
    ensures
        dir.rank() == r,
{
    if r == 0 {
        Dir::North
    } else if r == 1 {
        Dir::South
    } else if r == 2 {
        Dir::East
    } else {
        Dir::West
    }
}

/// Whether the lines form a map that a maze can be built from.
pub fn check_map(lines: &Vec<Vec<char>>) -> (ok: bool)
    ensures
        ok == map_ok(text::views(lines@)),
{
    let ghost rows = text::views(lines@);
    let h = lines.len();
    if h == 0 {
        return false;
    }
    assert(rows[0] == lines[0]@);
    let w = lines[0].len();
    if w == 0 {
        return false;
    }
    let cells = match h.checked_mul(w) {
        Some(cells) => cells,
        None => {
            return false;
        },
    };
    if cells.checked_mul(4).is_none() {
        return false;
    }
    let mut y: usize = 0;
    while y < h
        invariant
            rows == text::views(lines@),
            h == lines.len(),
            w == rows[0].len(),
            y <= h,
            forall|i: int| 0 <= i < y ==> (#[trigger] rows[i]).len() == w,
            forall|i: int, j: int| 0 <= i < y && #[trigger] open_at(rows, i, j) ==> 0 < i < h - 1 && 0 < j < w - 1,
        decreases h - y,
    {
        assert(rows[y as int] == lines[y as int]@);
        if lines[y].len() != w {
            return false;
        }
        let mut x: usize = 0;
        while x < w
            invariant
                rows == text::views(lines@),
                h == lines.len(),
                w == rows[0].len(),
                y < h,
                x <= w,
                rows[y as int] == lines[y as int]@,
                rows[y as int].len() == w,
                forall|j: int| 0 <= j < x && #[trigger] open_at(rows, y as int, j) ==> 0 < y < h - 1 && 0 < j < w - 1,
            decreases w - x,
        {
            if lines[y][x] != '#' && (y == 0 || y == h - 1 || x == 0 || x == w - 1) {
                assert(open_at(rows, y as int, x as int));
                return false;
            }
            x += 1;
        }
        y += 1;
    }
    true
}

impl Maze {
    /// Reads a maze from its map: `#` is a wall, `S` the start, where the
    /// reindeer faces east, and `E` the exit. Fails where `map_ok` does not hold.
    pub fn try_from(input: &str) -> (res: Result<Maze, &'static str>)
        ensures
            res is Ok <==> map_ok(text::lines_of(input@)),
            res is Ok ==> ({
                let rows = text::lines_of(input@);
                let maze = res->Ok_0;
                &&& maze.wf()
                &&& maze.every_move_costs()
                &&& maze.height == rows.len()
                &&& maze.width == rows[0].len()
                &&& maze.src.dir == Dir::East
                &&& last_mark(rows, 'S', maze.src.p)
                &&& last_mark(rows, 'E', maze.exit)
                &&& forall|node: Node|
                    maze.has_tile(node.p) ==> (#[trigger] maze.adj_list[maze.id(node)])@ == moves_of(
                        rows,
                        node,
                    )
            }),
    {
        let all = text::chars(input);
        let lines = text::lines(&all);
        let ghost rows = text::lines_of(input@);
        if !check_map(&lines) {
            return Err("the map is no enclosed rectangle");
        }
        let h = lines.len();
        assert(rows[0] == lines[0]@);
        let w = lines[0].len();
        let mut src: (usize, usize) = (0, 0);
        let mut exit: (usize, usize) = (0, 0);
        let mut adj: Vec<Vec<Edge>> = Vec::new();
        let mut y: usize = 0;
        while y < h
            invariant
                rows == text::views(lines@),
                map_ok(rows),
                h == lines.len(),
                w == rows[0].len(),
                y <= h,
                adj.len() == y * w * 4,
                built(rows, adj@, h, w),
                seen(rows, 'S', src, y as int, 0),
                seen(rows, 'E', exit, y as int, 0),
            decreases h - y,
        {
            assert(rows[y as int] == lines[y as int]@);
            let mut x: usize = 0;
            while x < w
                invariant
                    rows == text::views(lines@),
                    map_ok(rows),
                    h == lines.len(),
                    w == rows[0].len(),
                    y < h,
                    x <= w,
                    rows[y as int] == lines[y as int]@,
                    adj.len() == (y * w + x) * 4,
                    built(rows, adj@, h, w),
                    seen(rows, 'S', src, y as int, x as int),
                    seen(rows, 'E', exit, y as int, x as int),
                decreases w - x,
            {
                let c = lines[y][x];
                if c == 'E' {
                    exit = (y, x);
                }
                if c == 'S' {
                    src = (y, x);
                }
                let mut r: usize = 0;
                while r < 4
                    invariant
                        rows == text::views(lines@),
                        map_ok(rows),
                        h == lines.len(),
                        w == rows[0].len(),
                        y < h,
                        x < w,
                        r <= 4,
                        c == rows[y as int][x as int],
                        adj.len() == (y * w + x) * 4 + r,
                        built(rows, adj@, h, w),
                    decreases 4 - r,
                {
                    let dir = dir_at(r);
                    let node = Node { p: (y, x), dir };
                    let mut moves: Vec<Edge> = Vec::new();
                    if c != '#' {
                        assert(open_at(rows, y as int, x as int));
                        moves.push(Edge { dst: node.rotate_right(), cost: 1000 });
                        moves.push(Edge { dst: node.rotate_left(), cost: 1000 });
                        let (y1, x1) = match dir {
                            Dir::North => (y - 1, x),
                            Dir::South => (y + 1, x),
                            Dir::East => (y, x + 1),
                            Dir::West => (y, x - 1),
                        };
                        assert(rows[y1 as int] == lines[y1 as int]@);
                        assert(rows[y1 as int].len() == w);
                        if lines[y1][x1] != '#' {
                            moves.push(Edge { dst: Node { p: (y1, x1), dir }, cost: 1 });
                        }
                    }
                    assert(moves@ =~= moves_of(rows, node));
                    proof {
                        lemma_index_bound(h as int, w as int, node);
                        let held = adj@;
                        let grown = held.push(moves);
                        assert forall|other: Node|
                            other.p.0 < h && other.p.1 < w && index_of(w as int, other)
                                < grown.len() implies (#[trigger] grown[index_of(w as int, other)])@
                            == moves_of(rows, other) by {
                            if index_of(w as int, other) == held.len() {
                                lemma_index_injective(w as int, other, node);
                            } else {
                                assert(held[index_of(w as int, other)]@ == moves_of(rows, other));
                            }
                        }
                        assert forall|u: int, k: int|
                            0 <= u < grown.len() && 0 <= k < grown[u].len() implies (
                        #[trigger] grown[u][k]).dst.p.0 < h && grown[u][k].dst.p.1 < w
                            && grown[u][k].cost >= 1 by {
                            if u < held.len() {
                                assert(held[u][k].dst.p.0 < h);
                            }
                        }
                    }
                    adj.push(moves);
                    r += 1;
                }
                proof {
                    assert((y * w + x) * 4 + 4 == (y * w + (x + 1)) * 4) by (nonlinear_arith);
                }
                x += 1;
            }
            proof {
                assert((y * w + w) * 4 == (y + 1) * w * 4) by (nonlinear_arith);
                assert(y * w * 4 == (y * w + 0) * 4) by (nonlinear_arith);
            }
            y += 1;
        }
        let maze = Maze { src: Node { p: src, dir: Dir::East }, exit, height: h, width: w, adj_list: adj };
        proof {
            assert forall|node: Node| maze.has_tile(node.p) implies (#[trigger] maze.adj_list[maze.id(
                node,
            )])@ == moves_of(rows, node) by {
                lemma_index_bound(h as int, w as int, node);
            }
            assert forall|u: int, k: int|
                0 <= u < maze.adj_list.len() && 0 <= k < maze.adj_list[u].len() implies maze.has_tile(
                (#[trigger] maze.adj_list[u][k]).dst.p,
            ) by {}
        }
        Ok(maze)
    }
}

/// What holds of the lists of moves built so far: each node numbered so
/// far has its moves, and every move leads to a tile.
pub open spec fn built(rows: Seq<Seq<char>>, adj: Seq<Vec<Edge>>, h: usize, w: usize) -> bool {
    &&& forall|node: Node|
        node.p.0 < h && node.p.1 < w && index_of(w as int, node) < adj.len() ==> (#[trigger] adj[index_of(
            w as int,
            node,
        )])@ == moves_of(rows, node)
    &&& forall|u: int, k: int|
        0 <= u < adj.len() && 0 <= k < adj[u].len() ==> (#[trigger] adj[u][k]).dst.p.0 < h
            && adj[u][k].dst.p.1 < w && adj[u][k].cost >= 1
}

/// Whether `pos` is where `mark` was seen last among the tiles before
/// `(y, x)` in reading order, or the origin if it was not seen.
pub open spec fn seen(rows: Seq<Seq<char>>, mark: char, pos: (usize, usize), y: int, x: int) -> bool {
    let shown = 0 <= pos.0 < rows.len() && 0 <= pos.1 < rows[pos.0 as int].len()
        && rows[pos.0 as int][pos.1 as int] == mark;
    &&& shown || pos == (0usize, 0usize)
    &&& forall|i: int, j: int|
        0 <= i < rows.len() && 0 <= j < rows[i].len() && (i < y || (i == y && j < x))
            && #[trigger] rows[i][j] == mark ==> shown && (i < pos.0 || (i == pos.0 && j <= pos.1))
}

/// The score that the search reports for a node is the cost of a path that
/// can be read off the predecessor lists: a walk from the start to the node
/// in which every node is listed before the next.
pub proof fn lemma_score_is_a_path(
    maze: Maze,
    dist: Seq<Option<usize>>,
    prev: Seq<Seq<usize>>,
    v: int,
) -> (walk: (Seq<int>, Seq<int>))
    requires
        maze.wf(),
        settled(maze.graph(), maze.id(maze.src), dist, prev),
        0 <= v < maze.adj_list.len(),
        dist[v] is Some,
    ensures
        walk_ok(maze.graph(), walk.0, walk.1),
        walk.0[0] == maze.id(maze.src),
        walk.0.last() == v,
        walk_cost(maze.graph(), walk.0, walk.1) == dist[v].unwrap(),
        follows_prev(prev, walk.0),
{
    maze.lemma_graph_closed();
    let g = maze.graph();
    assert forall|x: int, k: int| #[trigger] arc_ok(g, x, k) implies g[x][k].cost >= 1 by {
        assert(maze.adj_list[x][k].cost >= 1);
    }
    lemma_cheapest_walk_exists(g, maze.id(maze.src), dist, prev, v)
}

/// No walk from the start to a node costs less than the score that the
/// search reports for the node.
pub proof fn lemma_score_is_lowest(
    maze: Maze,
    dist: Seq<Option<usize>>,
    prev: Seq<Seq<usize>>,
    nodes: Seq<int>,
    picks: Seq<int>,
)
    requires
        maze.wf(),
        settled(maze.graph(), maze.id(maze.src), dist, prev),
        walk_ok(maze.graph(), nodes, picks),
        nodes[0] == maze.id(maze.src),
        walk_cost(maze.graph(), nodes, picks) <= usize::MAX,
    ensures
        0 <= nodes.last() < maze.adj_list.len(),
        dist[nodes.last()] is Some,
        dist[nodes.last()].unwrap() <= walk_cost(maze.graph(), nodes, picks),
{
    maze.lemma_graph_closed();
    lemma_cost_is_lowest(maze.graph(), maze.id(maze.src), dist, prev, nodes, picks);
}

/// Every node of every walk from the start to an exit node that costs the
/// score `len` of that node lies on a best path: `find_pos_on_shortest_path`
/// misses no tile of a cheapest path.
pub proof fn lemma_cheapest_paths_are_found(
    maze: Maze,
    dist: Seq<Option<usize>>,
    prev: Seq<Seq<usize>>,
    len: usize,
    nodes: Seq<int>,
    picks: Seq<int>,
    i: int,
)
    requires
        maze.wf(),
        settled(maze.graph(), maze.id(maze.src), dist, prev),
        walk_ok(maze.graph(), nodes, picks),
        nodes[0] == maze.id(maze.src),
        best_exit(maze, dist, len, nodes.last()),
        walk_cost(maze.graph(), nodes, picks) == len,
        0 <= i < nodes.len(),
    ensures
        on_best_path(maze, dist, prev, len, nodes[i]),
{
    maze.lemma_graph_closed();
    let dir = choose|dir: Dir| #[trigger]
        maze.id(Node { p: maze.exit, dir }) == nodes.last() && dist[maze.id(
            Node { p: maze.exit, dir },
        )] == Some(len);
    lemma_index_bound(maze.height as int, maze.width as int, Node { p: maze.exit, dir });
    lemma_cheapest_walk_is_covered(maze.graph(), maze.id(maze.src), dist, prev, nodes, picks, i);
}

/// Every node on a best path lies on a walk from the start to an exit
/// node that costs the score `len` of that node:
/// `find_pos_on_shortest_path` finds no tile that is on no cheapest path.
/// The walk comes with the place of the node in it.
pub proof fn lemma_found_are_on_cheapest_paths(
    maze: Maze,
    dist: Seq<Option<usize>>,
    prev: Seq<Seq<usize>>,
    len: usize,
    x: int,
) -> (found: (Seq<int>, Seq<int>, int))
    requires
        maze.wf(),
        settled(maze.graph(), maze.id(maze.src), dist, prev),
        on_best_path(maze, dist, prev, len, x),
    ensures
        walk_ok(maze.graph(), found.0, found.1),
        found.0[0] == maze.id(maze.src),
        best_exit(maze, dist, len, found.0.last()),
        walk_cost(maze.graph(), found.0, found.1) == len,
        0 <= found.2 < found.0.len(),
        found.0[found.2] == x,
{
    maze.lemma_graph_closed();
    let g = maze.graph();
    assert forall|u: int, k: int| #[trigger] arc_ok(g, u, k) implies g[u][k].cost >= 1 by {
        assert(maze.adj_list[u][k].cost >= 1);
    }
    let t = choose|t: int| #[trigger] best_exit(maze, dist, len, t) && leads_back(prev, x, t);
    let c = choose|c: Seq<int>| #[trigger] chain_ok(prev, c) && c[0] == x && c.last() == t;
    lemma_chain_is_on_cheapest_walk(g, maze.id(maze.src), dist, prev, c)
}

/// Whether no node of the exit has a lower score than `len`.
pub open spec fn lowest(maze: Maze, dist: Seq<Option<usize>>, len: usize) -> bool {
    forall|dir: Dir|
        (#[trigger] dist[maze.id(Node { p: maze.exit, dir })]) is Some ==> len <= dist[maze.id(
            Node { p: maze.exit, dir },
        )].unwrap()
}

/// Whether `nodes` and `picks` describe a way through the maze from the
/// start to the exit, whatever the direction faced there.
pub open spec fn leads_out(maze: Maze, nodes: Seq<int>, picks: Seq<int>) -> bool {
    &&& walk_ok(maze.graph(), nodes, picks)
    &&& nodes[0] == maze.id(maze.src)
    &&& exists|dir: Dir| #[trigger] maze.id(Node { p: maze.exit, dir }) == nodes.last()
}

/// Whether a way passes over the tile `p`.
pub open spec fn passes(maze: Maze, nodes: Seq<int>, p: (usize, usize)) -> bool {
    exists|i: int, dir: Dir| 0 <= i < nodes.len() && #[trigger] nodes[i] == #[trigger] maze.id(Node { p, dir })
}

/// Whether a way from the start to the exit with the score `score`
/// passes over the tile `p`.
pub open spec fn on_way_out(maze: Maze, score: usize, p: (usize, usize)) -> bool {
    exists|nodes: Seq<int>, picks: Seq<int>| #[trigger]
        leads_out(maze, nodes, picks) && walk_cost(maze.graph(), nodes, picks) == score && passes(maze, nodes, p)
}

/// What `solve` finds, said of the ways through the maze: no way leads
/// out where it finds none; and else a way leads out with the score it
/// finds, none with a lower score, and it counts the tiles over which the
/// ways with that score pass.
pub open spec fn solved(maze: Maze, res: Option<(usize, usize)>) -> bool {
    match res {
        None => forall|nodes: Seq<int>, picks: Seq<int>| #[trigger]
            leads_out(maze, nodes, picks) ==> walk_cost(maze.graph(), nodes, picks) > usize::MAX,
        Some((score, count)) => {
            &&& exists|nodes: Seq<int>, picks: Seq<int>| #[trigger]
                leads_out(maze, nodes, picks) && walk_cost(maze.graph(), nodes, picks) == score
            &&& forall|nodes: Seq<int>, picks: Seq<int>| #[trigger]
                leads_out(maze, nodes, picks) ==> walk_cost(maze.graph(), nodes, picks) >= score
            &&& exists|tiles: Seq<(usize, usize)>|
                {
                    &&& #[trigger] tiles.no_duplicates()
                    &&& tiles.len() == count
                    &&& forall|p: (usize, usize)|
                        #![trigger tiles.contains(p)]
                        tiles.contains(p) <==> maze.has_tile(p) && on_way_out(maze, score, p)
                }
        },
    }
}

/// Where the search has found no score for the exit, no way leads out.
pub proof fn lemma_no_score_no_way(
    maze: Maze,
    dist: Seq<Option<usize>>,
    prev: Seq<Seq<usize>>,
    nodes: Seq<int>,
    picks: Seq<int>,
)
    requires
        maze.wf(),
        settled(maze.graph(), maze.id(maze.src), dist, prev),
        forall|dir: Dir| dist[maze.id(Node { p: maze.exit, dir })] is None,
        leads_out(maze, nodes, picks),
    ensures
        walk_cost(maze.graph(), nodes, picks) > usize::MAX,
{
    if walk_cost(maze.graph(), nodes, picks) <= usize::MAX {
        lemma_score_is_lowest(maze, dist, prev, nodes, picks);
        let dir = choose|dir: Dir| #[trigger] maze.id(Node { p: maze.exit, dir }) == nodes.last();
        assert(dist[maze.id(Node { p: maze.exit, dir })] is None);
    }
}

/// No way leads out with a lower score than the lowest that the search
/// has found for the exit.
pub proof fn lemma_best_score_is_lowest(
    maze: Maze,
    dist: Seq<Option<usize>>,
    prev: Seq<Seq<usize>>,
    best: usize,
    nodes: Seq<int>,
    picks: Seq<int>,
)
    requires
        maze.wf(),
        settled(maze.graph(), maze.id(maze.src), dist, prev),
        forall|dir: Dir|
            (#[trigger] dist[maze.id(Node { p: maze.exit, dir })]) is Some ==> best <= dist[maze.id(
                Node { p: maze.exit, dir },
            )].unwrap(),
        leads_out(maze, nodes, picks),
    ensures
        walk_cost(maze.graph(), nodes, picks) >= best,
        walk_cost(maze.graph(), nodes, picks) == best ==> best_exit(maze, dist, best, nodes.last()),
{
    if walk_cost(maze.graph(), nodes, picks) <= usize::MAX {
        lemma_score_is_lowest(maze, dist, prev, nodes, picks);
        let dir = choose|dir: Dir| #[trigger] maze.id(Node { p: maze.exit, dir }) == nodes.last();
        assert(dist[maze.id(Node { p: maze.exit, dir })] is Some);
        if walk_cost(maze.graph(), nodes, picks) == best {
            assert(dist[maze.id(Node { p: maze.exit, dir })] == Some(best));
        }
    }
}

/// The tiles on the best paths are the tiles over which the ways out
/// with the lowest score pass.
pub proof fn lemma_best_tiles_are_on_ways_out(
    maze: Maze,
    dist: Seq<Option<usize>>,
    prev: Seq<Seq<usize>>,
    best: usize,
    p: (usize, usize),
)
    requires
        maze.wf(),
        settled(maze.graph(), maze.id(maze.src), dist, prev),
        forall|dir: Dir|
            (#[trigger] dist[maze.id(Node { p: maze.exit, dir })]) is Some ==> best <= dist[maze.id(
                Node { p: maze.exit, dir },
            )].unwrap(),
    ensures
        tile_on_best_path(maze, dist, prev, best, p) <==> on_way_out(maze, best, p),
{
    if tile_on_best_path(maze, dist, prev, best, p) {
        let dir = choose|dir: Dir| #[trigger] on_best_path(maze, dist, prev, best, maze.id(Node { p, dir }));
        let found = lemma_found_are_on_cheapest_paths(maze, dist, prev, best, maze.id(Node { p, dir }));
        let t = found.0.last();
        let out = choose|out: Dir| #[trigger]
            maze.id(Node { p: maze.exit, dir: out }) == t && dist[maze.id(Node { p: maze.exit, dir: out })] == Some(
                best,
            );
        assert(maze.id(Node { p: maze.exit, dir: out }) == found.0.last());
        assert(leads_out(maze, found.0, found.1));
        assert(found.0[found.2] == maze.id(Node { p, dir }));
        assert(passes(maze, found.0, p));
        assert(leads_out(maze, found.0, found.1) && walk_cost(maze.graph(), found.0, found.1) == best && passes(
            maze,
            found.0,
            p,
        ));
    }
    if on_way_out(maze, best, p) {
        let (nodes, picks) = choose|nodes: Seq<int>, picks: Seq<int>| #[trigger]
            leads_out(maze, nodes, picks) && walk_cost(maze.graph(), nodes, picks) == best && passes(maze, nodes, p);
        let (i, dir) = choose|i: int, dir: Dir|
            0 <= i < nodes.len() && #[trigger] nodes[i] == #[trigger] maze.id(Node { p, dir });
        lemma_best_score_is_lowest(maze, dist, prev, best, nodes, picks);
        lemma_cheapest_paths_are_found(maze, dist, prev, best, nodes, picks, i);
        assert(on_best_path(maze, dist, prev, best, maze.id(Node { p, dir })));
    }
}

impl Maze {
    /// The lowest score of reaching the exit and the number of tiles on
    /// the paths with that score, or `None` if the exit cannot be reached:
    /// see `solved`.
    pub fn solve(&self) -> (res: Option<(usize, usize)>)
        requires
            self.wf(),
        ensures
            solved(*self, res),
            exists|dist: Seq<Option<usize>>, prev: Seq<Seq<usize>>|
                {
                    &&& #[trigger] settled(self.graph(), self.id(self.src), dist, prev)
                    &&& res is None <==> forall|dir: Dir| dist[self.id(Node { p: self.exit, dir })] is None
                    &&& res is Some ==> {
                        &&& exists|dir: Dir| dist[self.id(Node { p: self.exit, dir })] == Some(res.unwrap().0)
                        &&& forall|dir: Dir|
                            (#[trigger] dist[self.id(Node { p: self.exit, dir })]) is Some ==> res.unwrap().0
                                <= dist[self.id(Node { p: self.exit, dir })].unwrap()
                        &&& exists|tiles: Seq<(usize, usize)>|
                            {
                                &&& #[trigger] tiles.no_duplicates()
                                &&& tiles.len() == res.unwrap().1
                                &&& forall|p: (usize, usize)|
                                    #![trigger tiles.contains(p)]
                                    tiles.contains(p) <==> self.has_tile(p) && tile_on_best_path(
                                        *self,
                                        dist,
                                        prev,
                                        res.unwrap().0,
                                        p,
                                    )
                            }
                    }
                },
    {
        let (dist, prev) = self.dijkstra();
        let ghost lists = lists_of(prev@);
        proof {
            self.lemma_graph_closed();
        }
        match self.lowest_exit_cost(&dist) {
            Some(best) => {
                let tiles = find_pos_on_shortest_path(self, best, &dist, &prev);
                assert(settled(self.graph(), self.id(self.src), dist@, lists));
                assert(tiles@.no_duplicates());
                proof {
                    {
                        let dir = choose|dir: Dir| dist[self.id(Node { p: self.exit, dir })] == Some(best);
                        lemma_index_bound(self.height as int, self.width as int, Node { p: self.exit, dir });
                        let walk = lemma_score_is_a_path(*self, dist@, lists, self.id(Node { p: self.exit, dir }));
                        assert(leads_out(*self, walk.0, walk.1) && walk_cost(self.graph(), walk.0, walk.1) == best);
                        assert forall|nodes: Seq<int>, picks: Seq<int>| #[trigger]
                            leads_out(*self, nodes, picks) implies walk_cost(self.graph(), nodes, picks) >= best by {
                            lemma_best_score_is_lowest(*self, dist@, lists, best, nodes, picks);
                        }
                        assert forall|p: (usize, usize)|
                            #![trigger tiles@.contains(p)]
                            tiles@.contains(p) <==> self.has_tile(p) && on_way_out(*self, best, p) by {
                            lemma_best_tiles_are_on_ways_out(*self, dist@, lists, best, p);
                        }
                        assert(solved(*self, Some((best, tiles.len()))));
                    }
                }
                Some((best, tiles.len()))
            },
            None => {
                assert(settled(self.graph(), self.id(self.src), dist@, lists));
                proof {
                    assert forall|nodes: Seq<int>, picks: Seq<int>| #[trigger]
                        leads_out(*self, nodes, picks) implies walk_cost(self.graph(), nodes, picks) > usize::MAX by {
                        lemma_no_score_no_way(*self, dist@, lists, nodes, picks);
                    }
                }
                None
            },
        }
    }
}

} // verus!
