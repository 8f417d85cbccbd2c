//! A guard who patrols a map: straight ahead until something is in the
//! way, then a quarter turn to the right.

use crate::grid::lemma_cell_number;
use crate::maze::{last_mark, seen};
use crate::paths::{lemma_unmarked_nonnegative, lemma_unmarked_update, unmarked};
use crate::text;
use vstd::prelude::*;

verus! {

/// The direction that the guard faces.
#[derive(Debug, PartialEq, Eq, Hash, Clone, Copy, Structural)]
pub enum Dir {
    Up,
    Right,
    Down,
    Left,
}

impl Dir {
    /// The row and column offsets of one step.
    pub open spec fn delta_spec(self) -> (int, int) {
        match self {
            Dir::Up => (-1, 0),
            Dir::Right => (0, 1),
            Dir::Down => (1, 0),
            Dir::Left => (0, -1),
        }
    }

    /// The direction after a quarter turn to the right.
    pub open spec fn turned(self) -> Dir {
        match self {
            Dir::Up => Dir::Right,
            Dir::Right => Dir::Down,
            Dir::Down => Dir::Left,
            Dir::Left => Dir::Up,
        }
    }

    /// The place of a direction among the four ways to stand on a cell.
    pub open spec fn rank(self) -> int {
        match self {
            Dir::Up => 0,
            Dir::Right => 1,
            Dir::Down => 2,
            Dir::Left => 3,
        }
    }

    /// The row and column offsets of one step.
    pub fn delta(&self) -> (d: (i32, i32))
        ensures
            d.0 == self.delta_spec().0,
            d.1 == self.delta_spec().1,
    {
        match self {
            Dir::Up => (-1, 0),
            Dir::Right => (0, 1),
            Dir::Down => (1, 0),
            Dir::Left => (0, -1),
        }
    }

    /// The direction after a quarter turn to the right.
    pub fn next_dir(&self) -> (d: Self)
        ensures
            d == self.turned(),
    {
        match self {
            Dir::Up => Dir::Right,
            Dir::Right => Dir::Down,
            Dir::Down => Dir::Left,
            Dir::Left => Dir::Up,
        }
    }

    /// The place of a direction among the four ways to stand on a cell.
    pub fn place(&self) -> (r: usize)
        ensures
            r == self.rank(),
    {
        match self {
            Dir::Up => 0,
            Dir::Right => 1,
            Dir::Down => 2,
            Dir::Left => 3,
        }
    }
}

/// Whether something stands in the way on a cell.
#[derive(Debug, PartialEq, Eq, Clone, Copy, Structural)]
pub enum CellKind {
    Empty,
    Occupied,
}

/// A cell of the map.
#[derive(Debug, Clone, Copy)]
pub struct Cell {
    pub kind: CellKind,
}

/// What a step leads to: the patrol goes on, leaves the map, or runs in a loop.
#[derive(Debug, PartialEq, Eq, Clone, Copy, Structural)]
pub enum StepResult {
    Skip,
    OutOfMap,
    Loop,
}

/// The map as rows of cells.
pub open spec fn rows_of(map: Seq<Vec<Cell>>) -> Seq<Seq<Cell>> {
    map.map_values(|row: Vec<Cell>| row@)
}

/// Whether the map has `h` rows of `w` cells, few enough to number every
/// way of standing on a cell.
pub open spec fn map_ok(rows: Seq<Seq<Cell>>, h: int, w: int) -> bool {
    &&& rows.len() == h
    &&& forall|y: int| 0 <= y < h ==> (#[trigger] rows[y]).len() == w
    &&& h * w * 4 <= usize::MAX
}

/// The number of the way of standing at `(y, x)` facing `dir`.
pub open spec fn slot(w: int, y: int, x: int, dir: Dir) -> int {
    (y * w + x) * 4 + dir.rank()
}

/// Every way of standing on the map has a number below four times the
/// number of cells.
pub proof fn lemma_slot_bound(h: int, w: int, y: int, x: int, dir: Dir)
    requires
        0 <= y < h,
        0 <= x < w,
    ensures
        0 <= slot(w, y, x, dir) < h * w * 4,
        0 <= y * w + x < h * w,
{
    assert(y * w + x < h * w) by (nonlinear_arith)
        requires
            0 <= y < h,
            0 <= x < w,
    ;
    assert(0 <= y * w) by (nonlinear_arith)
        requires
            0 <= y,
            0 <= w,
    ;
}

/// Where a guard stands, where it faces, and how it has stood before.
pub struct Stand {
    pub at: (usize, usize),
    pub dir: Dir,
    pub visited: Seq<bool>,
}

/// What one step does. A guard that has stood this way before stays and
/// reports a loop. Otherwise it notes how it stands; then it reports that
/// the step ahead leaves the map, or steps ahead onto an empty cell, or
/// turns right before an occupied one.
pub open spec fn stepped(rows: Seq<Seq<Cell>>, w: int, s: Stand) -> (Stand, StepResult) {
    let here = slot(w, s.at.0 as int, s.at.1 as int, s.dir);
    let y = s.at.0 + s.dir.delta_spec().0;
    let x = s.at.1 + s.dir.delta_spec().1;
    let noted = Stand { visited: s.visited.update(here, true), ..s };
    if s.visited[here] {
        (s, StepResult::Loop)
    } else if !(0 <= y < rows.len() && 0 <= x < w) {
        (noted, StepResult::OutOfMap)
    } else if rows[y][x].kind == CellKind::Empty {
        (Stand { at: (y as usize, x as usize), ..noted }, StepResult::Skip)
    } else {
        (Stand { dir: s.dir.turned(), ..noted }, StepResult::Skip)
    }
}

/// How the guard stands after `n` steps.
pub open spec fn walked(rows: Seq<Seq<Cell>>, w: int, s: Stand, n: nat) -> Stand
    decreases n,
{
    if n == 0 {
        s
    } else {
        stepped(rows, w, walked(rows, w, s, (n - 1) as nat)).0
    }
}

/// Whether the patrol from `s` ends with step `n`: that step leaves the
/// map or finds a loop, and no step before it does.
pub open spec fn ends_at(rows: Seq<Seq<Cell>>, w: int, s: Stand, n: nat) -> bool {
    &&& stepped(rows, w, walked(rows, w, s, n)).1 != StepResult::Skip
    &&& forall|k: nat| k < n ==> stepped(rows, w, #[trigger] walked(rows, w, s, k)).1 == StepResult::Skip
}

/// How a patrol from `s` ends: how the guard stands then, and whether it
/// has left the map or found a loop.
pub open spec fn patrol_of(rows: Seq<Seq<Cell>>, w: int, s: Stand) -> (Stand, StepResult) {
    let n = choose|n: nat| ends_at(rows, w, s, n);
    stepped(rows, w, walked(rows, w, s, n))
}

/// A patrol ends with one step only.
pub proof fn lemma_one_end(rows: Seq<Seq<Cell>>, w: int, s: Stand, m: nat, n: nat)
    requires
        ends_at(rows, w, s, m),
        ends_at(rows, w, s, n),
    ensures
        m == n,
{
    if m < n {
        assert(stepped(rows, w, walked(rows, w, s, m)).1 == StepResult::Skip);
    }
    if n < m {
        assert(stepped(rows, w, walked(rows, w, s, n)).1 == StepResult::Skip);
    }
}

/// A guard on a map: where it stands, where it faces, and how it has stood before.
#[derive(Debug)]
pub struct Guard<'a> {
    pub at: (usize, usize),
    pub dir: Dir,
    /// Whether the guard has stood in each way, by the numbers of the ways.
    pub visited: Vec<bool>,
    pub map: &'a Vec<Vec<Cell>>,
}

impl<'a> Guard<'a> {
    /// The map, row by row.
    pub open spec fn rows(&self) -> Seq<Seq<Cell>> {
        rows_of(self.map@)
    }

    /// The number of rows of the map.
    pub open spec fn height(&self) -> int {
        self.map.len() as int
    }

    /// The number of columns of the map.
    pub open spec fn width(&self) -> int {
        if self.map.len() == 0 {
            0
        } else {
            self.map[0].len() as int
        }
    }

    /// How the guard stands.
    pub open spec fn stand(&self) -> Stand {
        Stand { at: self.at, dir: self.dir, visited: self.visited@ }
    }

    /// A guard is well formed when it stands on its map and keeps a note
    /// for every way of standing on it.
    pub open spec fn wf(&self) -> bool {
        &&& map_ok(self.rows(), self.height(), self.width())
        &&& self.at.0 < self.height()
        &&& self.at.1 < self.width()
        &&& self.visited.len() == self.height() * self.width() * 4
    }

    /// A guard at `at` who faces up and has stood nowhere yet.
    pub fn new(at: (usize, usize), map: &'a Vec<Vec<Cell>>) -> (guard: Self)
        requires
            map.len() > 0,
            map_ok(rows_of(map@), map.len() as int, map[0].len() as int),
        ensures
            guard.at == at,
            guard.dir == Dir::Up,
            guard.map == map,
            guard.visited.len() == map.len() * map[0].len() * 4,
            forall|i: int| 0 <= i < guard.visited.len() ==> !(#[trigger] guard.visited[i]),
    {
        let h = map.len();
        let w = map[0].len();
        assert(h * w <= h * w * 4) by (nonlinear_arith)
            requires
                h >= 0,
                w >= 0,
        ;
        let n = h * w * 4;
        let mut visited: Vec<bool> = Vec::new();
        let mut i: usize = 0;
        while i < n
            invariant
                i <= n,
                visited.len() == i,
                forall|k: int| 0 <= k < i ==> !(#[trigger] visited[k]),
            decreases n - i,
        {
            visited.push(false);
            i += 1;
        }
        Guard { at, dir: Dir::Up, visited, map }
    }

    /// Takes one step: see `stepped`.
    pub fn step(&mut self) -> (res: StepResult)
        requires
            old(self).wf(),
        ensures
            final(self).wf(),
            final(self).map == old(self).map,
            (final(self).stand(), res) == stepped(old(self).rows(), old(self).width(), old(self).stand()),
    {
        let h = self.map.len();
        assert(self.rows()[0] == self.map[0]@);
        let w = self.map[0].len();
        proof {
            lemma_slot_bound(h as int, w as int, self.at.0 as int, self.at.1 as int, self.dir);
        }
        let here = (self.at.0 * w + self.at.1) * 4 + self.dir.place();
        if self.visited[here] {
            return StepResult::Loop;
        }
        self.visited[here] = true;
        let d = self.dir.delta();
        let y = self.at.0 as i128 + d.0 as i128;
        let x = self.at.1 as i128 + d.1 as i128;
        if y < 0 || y >= h as i128 || x < 0 || x >= w as i128 {
            return StepResult::OutOfMap;
        }
        let next = (y as usize, x as usize);
        assert(self.rows()[y as int] == self.map[y as int]@);
        assert(self.rows()[y as int].len() == w);
        match self.map[next.0][next.1].kind {
            CellKind::Empty => {
                self.at = next;
            },
            CellKind::Occupied => {
                self.turn_right();
            },
        }
        StepResult::Skip
    }

    /// Turns a quarter to the right.
    pub fn turn_right(&mut self)
        ensures
            final(self).dir == old(self).dir.turned(),
            final(self).at == old(self).at,
            final(self).visited == old(self).visited,
            final(self).map == old(self).map,
    {
        self.dir = self.dir.next_dir();
    }

    /// Steps until the guard leaves the map or stands as it has stood
    /// before, and reports which of the two ended the patrol.
    pub fn patrol(&mut self) -> (res: StepResult)
        requires
            old(self).wf(),
        ensures
            final(self).wf(),
            final(self).map == old(self).map,
            res != StepResult::Skip,
            (final(self).stand(), res) == patrol_of(old(self).rows(), old(self).width(), old(self).stand()),
            exists|n: nat|
                {
                    let before = #[trigger] walked(old(self).rows(), old(self).width(), old(self).stand(), n);
                    &&& stepped(old(self).rows(), old(self).width(), before) == (final(self).stand(), res)
                    &&& forall|k: nat|
                        k < n ==> stepped(
                            old(self).rows(),
                            old(self).width(),
                            #[trigger] walked(old(self).rows(), old(self).width(), old(self).stand(), k),
                        ).1 == StepResult::Skip
                },
    {
        let ghost rows = self.rows();
        let ghost w = self.width();
        let ghost start = self.stand();
        let ghost mut n: nat = 0;
        loop
            invariant
                self.wf(),
                self.map == old(self).map,
                rows == old(self).rows(),
                w == old(self).width(),
                start == old(self).stand(),
                self.stand() == walked(rows, w, start, n),
                forall|k: nat| k < n ==> stepped(rows, w, #[trigger] walked(rows, w, start, k)).1 == StepResult::Skip,
            decreases unmarked(self.visited@),
        {
            let ghost before = self.stand();
            proof {
                lemma_slot_bound(
                    self.height(),
                    self.width(),
                    self.at.0 as int,
                    self.at.1 as int,
                    self.dir,
                );
                lemma_unmarked_nonnegative(self.visited@);
                let here = slot(w, self.at.0 as int, self.at.1 as int, self.dir);
                if !self.visited[here] {
                    lemma_unmarked_update(self.visited@, here);
                }
            }
            let res = self.step();
            match res {
                StepResult::Skip => {
                    proof {
                        assert(walked(rows, w, start, n + 1) == stepped(rows, w, walked(rows, w, start, n)).0);
                        n = n + 1;
                    }
                },
                _ => {
                    assert(stepped(rows, w, walked(rows, w, start, n)) == (self.stand(), res));
                    proof {
                        assert(ends_at(rows, w, start, n));
                        let m = choose|m: nat| ends_at(rows, w, start, m);
                        lemma_one_end(rows, w, start, m, n);
                    }
                    return res;
                },
            }
        }
    }
}

/// How many of the first `n` cells the guard has stood on, facing any way.
pub open spec fn stood_on(visited: Seq<bool>, n: int) -> int
    decreases n,
{
    if n <= 0 {
        0
    } else {
        stood_on(visited, n - 1) + if visited[4 * (n - 1)] || visited[4 * (n - 1) + 1] || visited[4 * (
        n - 1) + 2] || visited[4 * (n - 1) + 3] {
            1int
        } else {
            0int
        }
    }
}

impl<'a> Guard<'a> {
    /// On how many cells the guard has stood.
    pub fn count_positions(&self) -> (found: usize)
        requires
            self.visited.len() % 4 == 0,
        ensures
            found == stood_on(self.visited@, self.visited.len() as int / 4),
    {
        let n = self.visited.len() / 4;
        let mut found: usize = 0;
        let mut i: usize = 0;
        while i < n
            invariant
                n == self.visited.len() / 4,
                self.visited.len() % 4 == 0,
                i <= n,
                found == stood_on(self.visited@, i as int),
                found <= i,
            decreases n - i,
        {
            if self.visited[4 * i] || self.visited[4 * i + 1] || self.visited[4 * i + 2] || self.visited[4
                * i + 3] {
                found += 1;
            }
            i += 1;
        }
        found
    }
}

/// The map with something put in the way at `(y, x)`.
pub open spec fn blocked(rows: Seq<Seq<Cell>>, y: int, x: int) -> Seq<Seq<Cell>> {
    rows.update(y, rows[y].update(x, Cell { kind: CellKind::Occupied }))
}

/// A guard at `at` who faces up and has stood nowhere on a map of `n` cells.
pub open spec fn fresh(at: (usize, usize), n: int) -> Stand {
    Stand { at, dir: Dir::Up, visited: Seq::new((n * 4) as nat, |i: int| false) }
}

/// Whether the guard has stood on the cell with the number `c`.
pub open spec fn stood_at(visited: Seq<bool>, c: int) -> bool {
    visited[4 * c] || visited[4 * c + 1] || visited[4 * c + 2] || visited[4 * c + 3]
}

/// Whether something put in the way on the cell with the number `c` makes
/// the guard who starts at `at` walk in a loop.
pub open spec fn traps(rows: Seq<Seq<Cell>>, w: int, at: (usize, usize), c: int) -> bool {
    patrol_of(blocked(rows, c / w, c % w), w, fresh(at, rows.len() * w)).1 == StepResult::Loop
}

/// On how many of the first `n` cells on which the guard has stood
/// something in the way makes the guard walk in a loop.
pub open spec fn blockers(rows: Seq<Seq<Cell>>, w: int, at: (usize, usize), visited: Seq<bool>, n: int) -> int
    decreases n,
{
    if n <= 0 {
        0
    } else {
        blockers(rows, w, at, visited, n - 1) + if stood_at(visited, n - 1) && traps(rows, w, at, n - 1) {
            1int
        } else {
            0int
        }
    }
}

/// Whether the guard who starts at `at` walks in a loop once something
/// is put in the way at `(y, x)`. The map is left as it was.
pub fn is_blocker(at: (usize, usize), map: &mut Vec<Vec<Cell>>, y: usize, x: usize) -> (yes: bool)
    requires
        old(map).len() > 0,
        map_ok(rows_of(old(map)@), old(map).len() as int, old(map)[0].len() as int),
        at.0 < old(map).len(),
        at.1 < old(map)[0].len(),
        y < old(map).len(),
        x < old(map)[0].len(),
    ensures
        rows_of(final(map)@) == rows_of(old(map)@),
        yes == traps(rows_of(old(map)@), old(map)[0].len() as int, at, y * old(map)[0].len() + x),
{
    let ghost rows = rows_of(map@);
    let h = map.len();
    let w = map[0].len();
    assert(rows[0] == map[0]@);
    assert(rows[y as int] == map[y as int]@);
    proof {
        lemma_cell_number(h as int, w as int, y as int, x as int);
    }
    let kept = map[y][x];
    map[y][x] = Cell { kind: CellKind::Occupied };
    let ghost changed = rows_of(map@);
    proof {
        assert(changed =~= blocked(rows, y as int, x as int)) by {
            assert forall|i: int| 0 <= i < h implies #[trigger] changed[i] == blocked(rows, y as int, x as int)[i] by {
                assert(changed[i] == map[i]@);
                assert(rows[i] == old(map)[i]@);
                if i == y {
                    assert(changed[i] =~= rows[i].update(x as int, Cell { kind: CellKind::Occupied }));
                }
            }
        }
        assert forall|i: int| 0 <= i < h implies (#[trigger] changed[i]).len() == w by {
            assert(rows[i].len() == w);
        }
    }
    let mut again = Guard::new(at, map);
    proof {
        assert(again.stand().visited =~= fresh(at, h * w).visited);
        assert(again.stand() == fresh(at, h * w));
    }
    let res = again.patrol();
    map[y][x] = kept;
    proof {
        assert(rows_of(map@) =~= rows) by {
            assert forall|i: int| 0 <= i < h implies #[trigger] rows_of(map@)[i] == rows[i] by {
                assert(rows_of(map@)[i] == map[i]@);
                assert(rows[i] == old(map)[i]@);
                assert(changed[i] == blocked(rows, y as int, x as int)[i]);
                if i == y {
                    assert(map[i]@ =~= rows[i]);
                }
            }
        }
    }
    res == StepResult::Loop
}

/// On how many of the cells on which the guard who starts at `at` stands
/// during its patrol something in the way makes the guard walk in a loop.
/// The map is left as it was.
pub fn count_blockers(at: (usize, usize), map: &mut Vec<Vec<Cell>>) -> (found: usize)
    requires
        old(map).len() > 0,
        map_ok(rows_of(old(map)@), old(map).len() as int, old(map)[0].len() as int),
        at.0 < old(map).len(),
        at.1 < old(map)[0].len(),
    ensures
        rows_of(final(map)@) == rows_of(old(map)@),
        found == blockers(
            rows_of(old(map)@),
            old(map)[0].len() as int,
            at,
            patrol_of(
                rows_of(old(map)@),
                old(map)[0].len() as int,
                fresh(at, old(map).len() * old(map)[0].len()),
            ).0.visited,
            old(map).len() * old(map)[0].len(),
        ),
{
    let ghost rows = rows_of(map@);
    let h = map.len();
    let w = map[0].len();
    assert(rows[0] == map[0]@);
    let mut first = Guard::new(at, map);
    proof {
        assert(first.stand().visited =~= fresh(at, h * w).visited);
        assert(first.stand() == fresh(at, h * w));
    }
    let _ = first.patrol();
    let visited = first.visited;
    let mut found: usize = 0;
    let mut y: usize = 0;
    while y < h
        invariant
            rows == rows_of(old(map)@),
            rows_of(map@) == rows,
            map.len() == h,
            h > 0,
            map[0].len() == w,
            map_ok(rows, h as int, w as int),
            at.0 < h,
            at.1 < w,
            visited.len() == h * w * 4,
            y <= h,
            found == blockers(rows, w as int, at, visited@, y * w),
            found <= y * w,
        decreases h - y,
    {
        let mut x: usize = 0;
        while x < w
            invariant
                rows == rows_of(old(map)@),
                rows_of(map@) == rows,
                map.len() == h,
                h > 0,
                map[0].len() == w,
                map_ok(rows, h as int, w as int),
                at.0 < h,
                at.1 < w,
                visited.len() == h * w * 4,
                y < h,
                x <= w,
                found == blockers(rows, w as int, at, visited@, y * w + x),
                found <= y * w + x,
            decreases w - x,
        {
            proof {
                lemma_cell_number(h as int, w as int, y as int, x as int);
            }
            let c = y * w + x;
            if visited[4 * c] || visited[4 * c + 1] || visited[4 * c + 2] || visited[4 * c + 3] {
                if is_blocker(at, map, y, x) {
                    found += 1;
                }
                assert(rows_of(map@)[0] == map[0]@);
                assert(rows[0] == old(map)[0]@);
            }
            x += 1;
        }
        proof {
            assert(y * w + w == (y + 1) * w) by (nonlinear_arith);
        }
        y += 1;
    }
    found
}

/// The cell that a character of a map stands for: `#` is in the way,
/// anything else is not.
pub open spec fn cell_of(c: char) -> Cell {
    Cell {
        kind: if c == '#' {
            CellKind::Occupied
        } else {
            CellKind::Empty
        },
    }
}

/// Reads a map and the place of the guard, which `^` marks; where the
/// map shows no guard, the guard stands at the origin.
pub fn read_map(input: &str) -> (res: (Vec<Vec<Cell>>, (usize, usize)))
    ensures
        ({
            let rows = text::lines_of(input@);
            &&& res.0.len() == rows.len()
            &&& forall|y: int| 0 <= y < rows.len() ==> (#[trigger] res.0[y]).len() == rows[y].len()
            &&& forall|y: int, x: int|
                0 <= y < rows.len() && 0 <= x < rows[y].len() ==> #[trigger] res.0[y][x] == cell_of(rows[y][x])
            &&& last_mark(rows, '^', res.1)
        }),
{
    let all = text::chars(input);
    let lines = text::lines(&all);
    let ghost rows = text::lines_of(input@);
    let h = lines.len();
    let mut map: Vec<Vec<Cell>> = Vec::new();
    let mut at: (usize, usize) = (0, 0);
    let mut y: usize = 0;
    while y < h
        invariant
            rows == text::views(lines@),
            h == lines.len(),
            y <= h,
            map.len() == y,
            forall|i: int| 0 <= i < y ==> (#[trigger] map[i]).len() == rows[i].len(),
            forall|i: int, j: int| 0 <= i < y && 0 <= j < rows[i].len() ==> #[trigger] map[i][j] == cell_of(rows[i][j]),
            seen(rows, '^', at, y as int, 0),
        decreases h - y,
    {
        assert(rows[y as int] == lines[y as int]@);
        let mut row: Vec<Cell> = Vec::new();
        let mut x: usize = 0;
        while x < lines[y].len()
            invariant
                rows == text::views(lines@),
                h == lines.len(),
                y < h,
                rows[y as int] == lines[y as int]@,
                x <= lines[y as int].len(),
                row.len() == x,
                forall|j: int| 0 <= j < x ==> #[trigger] row[j] == cell_of(rows[y as int][j]),
                seen(rows, '^', at, y as int, x as int),
            decreases lines[y as int].len() - x,
        {
            let c = lines[y][x];
            if c == '^' {
                at = (y, x);
            }
            row.push(
                Cell {
                    kind: if c == '#' {
                        CellKind::Occupied
                    } else {
                        CellKind::Empty
                    },
                },
            );
            x += 1;
        }
        map.push(row);
        y += 1;
    }
    (map, at)
}

} // verus!
