//! A race track through walls, and the time that a cheat through the walls saves.

use crate::grid::{
    cells_of, distances, distances_from, has_width, lemma_distance_is_shortest, lemma_same_reach, steps_to,
    table_of, Cells,
};
use crate::text;
use vstd::prelude::*;

verus! {

/// A tile of the map: track or wall.
#[derive(Clone, Copy, PartialEq, Eq, Debug, Structural)]
pub enum Tile {
    Track,
    Wall,
}

/// A race track: its tiles, its start and end, and the times to the end once they are worked out.
pub struct RaceTrack {
    pub start: (usize, usize),
    pub end: (usize, usize),
    pub tiles: Vec<Vec<Tile>>,
    pub elapsed_ps_no_cheat: usize,
    /// The time from each tile to the end, where the end can be reached.
    pub dist_map: Vec<Vec<Option<usize>>>,
}

/// A cheat: the tiles where the walls stop and start to count again.
#[derive(PartialEq, Eq, Hash, Clone, Copy, Debug)]
pub struct Cheat {
    pub cheat_start: (usize, usize),
    pub cheat_end: (usize, usize),
}

/// The tiles as rows.
pub open spec fn rows_of(tiles: Seq<Vec<Tile>>) -> Seq<Seq<Tile>> {
    tiles.map_values(|row: Vec<Tile>| row@)
}

/// The cells that can be driven on: the track.
pub open spec fn track_of(rows: Seq<Seq<Tile>>) -> Cells {
    rows.map_values(|row: Seq<Tile>| row.map_values(|t: Tile| t == Tile::Track))
}

/// The distance between two numbers.
pub open spec fn gap(a: int, b: int) -> int {
    if a < b {
        b - a
    } else {
        a - b
    }
}

/// The number of steps between two tiles, walls or none.
pub open spec fn manhattan(p: (usize, usize), q: (usize, usize)) -> int {
    gap(p.0 as int, q.0 as int) + gap(p.1 as int, q.1 as int)
}

/// Whether `p` is a tile of the track.
pub open spec fn on_track(rows: Seq<Seq<Tile>>, p: (usize, usize)) -> bool {
    p.0 < rows.len() && p.1 < rows[p.0 as int].len() && rows[p.0 as int][p.1 as int] == Tile::Track
}

/// The tile that a character stands for.
pub open spec fn tile_of(c: char) -> Tile {
    if c == '#' {
        Tile::Wall
    } else {
        Tile::Track
    }
}

/// Whether `(y, x)` lies off the edge of a map of `h` rows, taken as square.
pub open spec fn inner(h: int, y: int, x: int) -> bool {
    0 < y < h - 1 && 0 < x < h - 1
}

/// Whether `pos` is where the map shows `mark` last in reading order off
/// its edge, or the origin if it does not show it there.
pub open spec fn last_inner(rows: Seq<Seq<char>>, mark: char, pos: (usize, usize), y: int, x: int) -> bool {
    let h = rows.len() as int;
    let shown = inner(h, pos.0 as int, pos.1 as int) && pos.1 < rows[pos.0 as int].len()
        && rows[pos.0 as int][pos.1 as int] == mark;
    &&& shown || pos == (0usize, 0usize)
    &&& forall|i: int, j: int|
        0 <= i < rows.len() && 0 <= j < rows[i].len() && (i < y || (i == y && j < x)) && inner(h, i, j)
            && #[trigger] rows[i][j] == mark ==> shown && (i < pos.0 || (i == pos.0 && j <= pos.1))
}

impl RaceTrack {
    /// The tiles, row by row.
    pub open spec fn rows(&self) -> Seq<Seq<Tile>> {
        rows_of(self.tiles@)
    }

    /// The number of rows of the map.
    pub open spec fn height(&self) -> int {
        self.tiles.len() as int
    }

    /// The number of columns of the map.
    pub open spec fn width(&self) -> int {
        if self.tiles.len() == 0 {
            0
        } else {
            self.tiles[0].len() as int
        }
    }

    /// A track is well formed when its rows are of one length and its
    /// tiles can be numbered.
    pub open spec fn wf(&self) -> bool {
        &&& self.tiles.len() > 0
        &&& forall|y: int| 0 <= y < self.tiles.len() ==> (#[trigger] self.tiles[y]).len() == self.tiles[0].len()
        &&& self.tiles.len() * self.tiles[0].len() <= usize::MAX
    }

    /// Whether the times to the end are worked out.
    pub open spec fn timed(&self) -> bool {
        &&& self.wf()
        &&& self.end.0 < self.height()
        &&& self.end.1 < self.width()
        &&& self.start.0 < self.height()
        &&& self.start.1 < self.width()
        &&& distances_from(track_of(self.rows()), self.end, table_of(self.dist_map@))
        &&& table_of(self.dist_map@)[self.start.0 as int][self.start.1 as int] == Some(
            self.elapsed_ps_no_cheat,
        )
    }

    /// The track as a grid of cells that can be driven on.
    pub fn open_cells(&self) -> (open: Vec<Vec<bool>>)
        requires
            self.wf(),
        ensures
            cells_of(open@) == track_of(self.rows()),
            has_width(cells_of(open@), self.width()),
            open.len() == self.tiles.len(),
    {
        let ghost cells = track_of(self.rows());
        let mut open: Vec<Vec<bool>> = Vec::new();
        let mut y: usize = 0;
        while y < self.tiles.len()
            invariant
                self.wf(),
                cells == track_of(self.rows()),
                y <= self.tiles.len(),
                open.len() == y,
                forall|i: int| 0 <= i < y ==> (#[trigger] open[i])@ == cells[i],
            decreases self.tiles.len() - y,
        {
            assert(self.rows()[y as int] == self.tiles[y as int]@);
            let mut row: Vec<bool> = Vec::new();
            let mut x: usize = 0;
            while x < self.tiles[y].len()
                invariant
                    self.wf(),
                    cells == track_of(self.rows()),
                    y < self.tiles.len(),
                    x <= self.tiles[y as int].len(),
                    self.rows()[y as int] == self.tiles[y as int]@,
                    row.len() == x,
                    forall|j: int| 0 <= j < x ==> #[trigger] row[j] == cells[y as int][j],
                decreases self.tiles[y as int].len() - x,
            {
                row.push(self.tiles[y][x] == Tile::Track);
                x += 1;
            }
            assert(row@ =~= cells[y as int]);
            open.push(row);
            y += 1;
        }
        assert(cells_of(open@) =~= cells);
        assert forall|i: int| 0 <= i < cells.len() implies (#[trigger] cells[i]).len() == self.width() by {
            assert(self.rows()[i] == self.tiles[i]@);
        }
        open
    }

    /// The time from `src` to every tile of the track that can be reached.
    pub fn bfs(&self, src: (usize, usize)) -> (dist: Vec<Vec<Option<usize>>>)
        requires
            self.wf(),
            src.0 < self.height(),
            src.1 < self.width(),
        ensures
            distances_from(track_of(self.rows()), src, table_of(dist@)),
    {
        let open = self.open_cells();
        distances(&open, self.tiles[0].len(), src)
    }

    /// Works out the time from every tile to the end, and the time of
    /// the race without a cheat: the steps of the shortest walks between
    /// the start and the end. Tells whether the race can be run at all.
    pub fn populate_dist_map(&mut self) -> (ok: bool)
        requires
            old(self).wf(),
            old(self).end.0 < old(self).height(),
            old(self).end.1 < old(self).width(),
            old(self).start.0 < old(self).height(),
            old(self).start.1 < old(self).width(),
        ensures
            final(self).tiles == old(self).tiles,
            final(self).start == old(self).start,
            final(self).end == old(self).end,
            distances_from(track_of(final(self).rows()), final(self).end, table_of(final(self).dist_map@)),
            ok ==> final(self).timed(),
            ok ==> steps_to(
                track_of(final(self).rows()),
                final(self).end,
                final(self).start.0 as int,
                final(self).start.1 as int,
                final(self).elapsed_ps_no_cheat as int,
            ),
            ok == table_of(final(self).dist_map@)[final(self).start.0 as int][final(self).start.1 as int] is Some,
    {
        self.dist_map = self.bfs(self.end);
        let ghost table = table_of(self.dist_map@);
        assert(table[self.start.0 as int] == self.dist_map[self.start.0 as int]@);
        assert(track_of(self.rows())[self.start.0 as int].len() == self.width()) by {
            assert(self.rows()[self.start.0 as int] == self.tiles[self.start.0 as int]@);
        }
        assert(track_of(self.rows())[self.end.0 as int].len() == self.width()) by {
            assert(self.rows()[self.end.0 as int] == self.tiles[self.end.0 as int]@);
        }
        match self.dist_map[self.start.0][self.start.1] {
            Some(t) => {
                self.elapsed_ps_no_cheat = t;
                proof {
                    lemma_distance_is_shortest(
                        track_of(self.rows()),
                        self.end,
                        table,
                        self.start.0 as int,
                        self.start.1 as int,
                    );
                }
                true
            },
            None => false,
        }
    }

    /// The tile of the track at `(y, x)`, if there is one.
    pub fn track_at(&self, y: i128, x: i128) -> (p: Option<(usize, usize)>)
        ensures
            p is Some <==> 0 <= y <= usize::MAX && 0 <= x <= usize::MAX && on_track(
                self.rows(),
                (y as usize, x as usize),
            ),
            p is Some ==> p.unwrap().0 == y && p.unwrap().1 == x,
    {
        if y < 0 || y >= self.tiles.len() as i128 || x < 0 {
            return None;
        }
        let row = &self.tiles[y as usize];
        assert(self.rows()[y as int] == row@);
        if x >= row.len() as i128 {
            return None;
        }
        if row[x as usize] == Tile::Track {
            Some((y as usize, x as usize))
        } else {
            None
        }
    }

    /// The tiles of the track that lie `dist` steps from `pos`, walls or
    /// none, each once.
    pub fn pos_at_dist(&self, pos: (usize, usize), dist: usize) -> (res: Vec<(usize, usize)>)
        ensures
            res@.no_duplicates(),
            forall|p: (usize, usize)|
                #![trigger res@.contains(p)]
                res@.contains(p) <==> on_track(self.rows(), p) && manhattan(pos, p) == dist,
    {
        let ghost rows = self.rows();
        let mut res: Vec<(usize, usize)> = Vec::new();
        let mut dy: i128 = -(dist as i128);
        while dy <= dist as i128
            invariant
                rows == self.rows(),
                -dist <= dy <= dist + 1,
                res@.no_duplicates(),
                forall|p: (usize, usize)|
                    #![trigger res@.contains(p)]
                    res@.contains(p) <==> on_track(rows, p) && manhattan(pos, p) == dist && p.0 - pos.0 < dy,
            decreases dist + 1 - dy,
        {
            let dx = if dy < 0 {
                dist as i128 + dy
            } else {
                dist as i128 - dy
            };
            let y = pos.0 as i128 + dy;
            let ghost held = res@;
            let first = self.track_at(y, pos.1 as i128 - dx);
            if let Some(p) = first {
                res.push(p);
            }
            let ghost mid = res@;
            if dx != 0 {
                if let Some(q) = self.track_at(y, pos.1 as i128 + dx) {
                    res.push(q);
                }
            }
            proof {
                assert forall|p: (usize, usize)|
                    #![trigger res@.contains(p)]
                    res@.contains(p) <==> on_track(rows, p) && manhattan(pos, p) == dist && p.0 - pos.0 < dy
                        + 1 by {
                    if res@.contains(p) {
                        let k = choose|k: int| 0 <= k < res@.len() && res@[k] == p;
                        if k < held.len() {
                            assert(held[k] == p);
                            assert(held.contains(p));
                        }
                    }
                    if held.contains(p) {
                        let k = choose|k: int| 0 <= k < held.len() && held[k] == p;
                        assert(res@[k] == p);
                    }
                    if on_track(rows, p) && manhattan(pos, p) == dist && p.0 - pos.0 == dy {
                        if p.1 == pos.1 - dx {
                            assert(first == Some(p));
                            assert(res@[held.len() as int] == p);
                        } else {
                            assert(p.1 == pos.1 + dx);
                            assert(res@[mid.len() as int] == p);
                        }
                    }
                }
                assert forall|a: int, b: int| 0 <= a < res.len() && 0 <= b < res.len() && a != b implies res[a]
                    != res[b] by {
                    if a < held.len() && b < held.len() {
                        assert(held[a] != held[b]);
                    } else if a < held.len() {
                        assert(held.contains(res[a]));
                    } else if b < held.len() {
                        assert(held.contains(res[b]));
                    }
                }
            }
            dy += 1;
        }
        res
    }

    /// The time that a cheat saves which starts `before_cheat` after
    /// the start and ends after `len_cheat` steps at `cheat_end`, if it
    /// saves any.
    pub fn saved_by(&self, before_cheat: usize, len_cheat: usize, cheat_end: (usize, usize)) -> (saved: Option<
        usize,
    >)
        requires
            self.timed(),
            on_track(self.rows(), cheat_end),
        ensures
            saved is Some ==> saved.unwrap() > 0 && table_of(
                self.dist_map@,
            )[cheat_end.0 as int][cheat_end.1 as int] is Some && saved.unwrap()
                == self.elapsed_ps_no_cheat - (before_cheat + len_cheat + table_of(
                self.dist_map@,
            )[cheat_end.0 as int][cheat_end.1 as int].unwrap()),
            saved is None ==> table_of(self.dist_map@)[cheat_end.0 as int][cheat_end.1 as int] is None
                || self.elapsed_ps_no_cheat <= before_cheat + len_cheat + table_of(
                self.dist_map@,
            )[cheat_end.0 as int][cheat_end.1 as int].unwrap(),
    {
        let ghost table = table_of(self.dist_map@);
        let ghost track = track_of(self.rows());
        assert(table[cheat_end.0 as int] == self.dist_map[cheat_end.0 as int]@);
        assert(table[cheat_end.0 as int].len() == track[cheat_end.0 as int].len());
        assert(track[cheat_end.0 as int].len() == self.rows()[cheat_end.0 as int].len());
        match self.dist_map[cheat_end.0][cheat_end.1] {
            Some(after_cheat) => {
                let total = before_cheat as u128 + len_cheat as u128 + after_cheat as u128;
                if total < self.elapsed_ps_no_cheat as u128 {
                    Some(self.elapsed_ps_no_cheat - total as usize)
                } else {
                    None
                }
            },
            None => None,
        }
    }

    /// The cheats of at most `budget` steps that save time, each once and
    /// with the time that it saves. A cheat starts on a tile that can be
    /// reached from the start and ends on a tile from which the end can be
    /// reached.
    pub fn cheats_to_saved_ps(&self, budget: usize) -> (res: Vec<(Cheat, usize)>)
        requires
            self.timed(),
        ensures
            forall|i: int|
                0 <= i < res.len() ==> saves(
                    self.rows(),
                    table_of(self.dist_map@),
                    self.start,
                    self.elapsed_ps_no_cheat,
                    budget,
                    (#[trigger] res[i]).0,
                    res[i].1,
                ),
            forall|c: Cheat, saved: usize| #[trigger]
                saves(
                    self.rows(),
                    table_of(self.dist_map@),
                    self.start,
                    self.elapsed_ps_no_cheat,
                    budget,
                    c,
                    saved,
                ) ==> res@.contains((c, saved)),
            forall|i: int, j: int| 0 <= i < j < res.len() ==> (#[trigger] res[i]).0 != (#[trigger] res[j]).0,
    {
        let from_start = self.bfs(self.start);
        let ghost rows = self.rows();
        let ghost table = table_of(self.dist_map@);
        let ghost begun = table_of(from_start@);
        let ghost elapsed = self.elapsed_ps_no_cheat;
        let ghost start = self.start;
        let h = self.tiles.len();
        let w = self.tiles[0].len();
        let mut res: Vec<(Cheat, usize)> = Vec::new();
        let mut y: usize = 0;
        proof {
            assert(begun.len() == h);
            assert forall|i: int| 0 <= i < h implies (#[trigger] begun[i]).len() == w by {
                assert(rows[i] == self.tiles[i]@);
                assert(track_of(rows)[i].len() == w);
            }
            reveal(covers);
            reveal(all_save);
            reveal(begins);
            reveal(each_once);
        }
        while y < h
            invariant
                self.timed(),
                rows == self.rows(),
                table == table_of(self.dist_map@),
                begun == table_of(from_start@),
                elapsed == self.elapsed_ps_no_cheat,
                start == self.start,
                begins(rows, start, begun),
                begun.len() == h,
                forall|i: int| 0 <= i < h ==> (#[trigger] begun[i]).len() == w,
                h == self.tiles.len(),
                w == self.tiles[0].len(),
                y <= h,
                all_save(rows, table, start, elapsed, budget, res@),
                covers(rows, table, start, elapsed, budget, res@, y as int, 0),
                each_once(res@, y as int, 0, 0, Seq::empty()),
            decreases h - y,
        {
            assert(begun[y as int] == from_start[y as int]@);
            let mut x: usize = 0;
            while x < w
                invariant
                    self.timed(),
                    rows == self.rows(),
                    table == table_of(self.dist_map@),
                    begun == table_of(from_start@),
                    elapsed == self.elapsed_ps_no_cheat,
                    start == self.start,
                    begins(rows, start, begun),
                    begun.len() == h,
                    forall|i: int| 0 <= i < h ==> (#[trigger] begun[i]).len() == w,
                    begun[y as int] == from_start[y as int]@,
                    h == self.tiles.len(),
                    w == self.tiles[0].len(),
                    y < h,
                    x <= w,
                    all_save(rows, table, start, elapsed, budget, res@),
                    covers(rows, table, start, elapsed, budget, res@, y as int, x as int),
                    each_once(res@, y as int, x as int, 0, Seq::empty()),
                decreases w - x,
            {
                let ghost held = res@;
                match from_start[y][x] {
                    Some(before_cheat) => {
                        self.cheats_from((y, x), before_cheat, budget, &mut res, Ghost(begun));
                        proof {
                            lemma_covers_on(rows, table, begun, start, elapsed, budget, held, res@, y as int, x as int);
                            lemma_once_moves_on(res@, y as int, x as int, budget + 1, y as int, x + 1);
                        }
                    },
                    None => {
                        proof {
                            lemma_covers_on(rows, table, begun, start, elapsed, budget, held, res@, y as int, x as int);
                            lemma_once_moves_on(res@, y as int, x as int, 0, y as int, x + 1);
                        }
                    },
                }
                x += 1;
            }
            proof {
                lemma_covers_row(rows, table, begun, start, elapsed, budget, res@, y as int, w as int);
                lemma_once_moves_on(res@, y as int, w as int, 0, y + 1, 0);
            }
            y += 1;
        }
        proof {
            lemma_covers_all(rows, table, begun, start, elapsed, budget, res@, h as int);
            reveal(all_save);
            reveal(each_once);
        }
        res
    }

    /// Adds to `res` the cheats that start at `cheat_start`, which lies
    /// `before_cheat` after the start, and save time.
    fn cheats_from(
        &self,
        cheat_start: (usize, usize),
        before_cheat: usize,
        budget: usize,
        res: &mut Vec<(Cheat, usize)>,
        Ghost(begun): Ghost<Seq<Seq<Option<usize>>>>,
    )
        requires
            self.timed(),
            begins(self.rows(), self.start, begun),
            cheat_start.0 < begun.len(),
            cheat_start.1 < begun[cheat_start.0 as int].len(),
            begun[cheat_start.0 as int][cheat_start.1 as int] == Some(before_cheat),
            all_save(
                self.rows(),
                table_of(self.dist_map@),
                self.start,
                self.elapsed_ps_no_cheat,
                budget,
                old(res)@,
            ),
            each_once(old(res)@, cheat_start.0 as int, cheat_start.1 as int, 0, Seq::empty()),
        ensures
            each_once(final(res)@, cheat_start.0 as int, cheat_start.1 as int, budget + 1, Seq::empty()),
            all_save(
                self.rows(),
                table_of(self.dist_map@),
                self.start,
                self.elapsed_ps_no_cheat,
                budget,
                final(res)@,
            ),
            forall|e: (Cheat, usize)| old(res)@.contains(e) ==> #[trigger] final(res)@.contains(e),
            starts_covered(
                self.rows(),
                table_of(self.dist_map@),
                self.start,
                self.elapsed_ps_no_cheat,
                budget,
                final(res)@,
                cheat_start,
                budget + 1,
                Seq::empty(),
            ),
    {
        let ghost rows = self.rows();
        let ghost table = table_of(self.dist_map@);
        let ghost elapsed = self.elapsed_ps_no_cheat;
        let ghost start = self.start;
        let mut len_cheat: usize = 0;
        proof {
            lemma_start_empty(rows, table, start, elapsed, budget, res@, cheat_start);
        }
        loop
            invariant_except_break
                len_cheat <= budget,
                starts_covered(rows, table, start, elapsed, budget, res@, cheat_start, len_cheat as int, Seq::empty()),
                each_once(res@, cheat_start.0 as int, cheat_start.1 as int, len_cheat as int, Seq::empty()),
            invariant
                self.timed(),
                rows == self.rows(),
                table == table_of(self.dist_map@),
                elapsed == self.elapsed_ps_no_cheat,
                start == self.start,
                begins(rows, start, begun),
                cheat_start.0 < begun.len(),
                cheat_start.1 < begun[cheat_start.0 as int].len(),
                begun[cheat_start.0 as int][cheat_start.1 as int] == Some(before_cheat),
                all_save(rows, table, start, elapsed, budget, res@),
                forall|e: (Cheat, usize)| old(res)@.contains(e) ==> #[trigger] res@.contains(e),
            ensures
                starts_covered(rows, table, start, elapsed, budget, res@, cheat_start, budget + 1, Seq::empty()),
                each_once(res@, cheat_start.0 as int, cheat_start.1 as int, budget + 1, Seq::empty()),
            decreases budget - len_cheat,
        {
            let ends = self.pos_at_dist(cheat_start, len_cheat);
            let mut k: usize = 0;
            assert(ends@.take(0) =~= Seq::<(usize, usize)>::empty());
            while k < ends.len()
                invariant
                    self.timed(),
                    rows == self.rows(),
                    table == table_of(self.dist_map@),
                    elapsed == self.elapsed_ps_no_cheat,
                    start == self.start,
                    begins(rows, start, begun),
                    cheat_start.0 < begun.len(),
                    cheat_start.1 < begun[cheat_start.0 as int].len(),
                    begun[cheat_start.0 as int][cheat_start.1 as int] == Some(before_cheat),
                    len_cheat <= budget,
                    k <= ends.len(),
                    forall|p: (usize, usize)|
                        #![trigger ends@.contains(p)]
                        ends@.contains(p) <==> on_track(rows, p) && manhattan(cheat_start, p) == len_cheat,
                    ends@.no_duplicates(),
                    each_once(
                        res@,
                        cheat_start.0 as int,
                        cheat_start.1 as int,
                        len_cheat as int,
                        ends@.take(k as int),
                    ),
                    all_save(rows, table, start, elapsed, budget, res@),
                    forall|e: (Cheat, usize)| old(res)@.contains(e) ==> #[trigger] res@.contains(e),
                    starts_covered(
                        rows,
                        table,
                        start,
                        elapsed,
                        budget,
                        res@,
                        cheat_start,
                        len_cheat as int,
                        ends@.take(k as int),
                    ),
                decreases ends.len() - k,
            {
                let cheat_end = ends[k];
                assert(ends@.contains(cheat_end));
                let ghost held = res@;
                let found = self.saved_by(before_cheat, len_cheat, cheat_end);
                if let Some(saved) = found {
                    res.push((Cheat { cheat_start, cheat_end }, saved));
                }
                proof {
                    lemma_end_done(
                        rows,
                        table,
                        begun,
                        start,
                        elapsed,
                        budget,
                        held,
                        res@,
                        cheat_start,
                        len_cheat as int,
                        ends@,
                        k as int,
                        found,
                    );
                    lemma_once_next_end(held, res@, cheat_start, len_cheat as int, ends@, k as int, found);
                    assert forall|e: (Cheat, usize)| old(res)@.contains(e) implies #[trigger] res@.contains(e) by {
                        assert(held.contains(e));
                    }
                }
                k += 1;
            }
            proof {
                assert(ends@.take(ends.len() as int) =~= ends@);
                lemma_length_done(rows, table, begun, start, elapsed, budget, res@, cheat_start, len_cheat as int, ends@);
                lemma_once_next_length(res@, cheat_start, len_cheat as int, ends@);
            }
            if len_cheat == budget {
                break ;
            }
            len_cheat += 1;
        }
    }

    /// Reads a track from its map: `#` is a wall and anything else
    /// track; `S` and `E` mark the start and the end where they stand off
    /// the edge of the map.
    pub fn try_from(input: &str) -> (res: Result<Self, &'static str>)
        ensures
            res is Ok,
            ({
                let rows = text::lines_of(input@);
                let track = res->Ok_0;
                &&& track.tiles.len() == rows.len()
                &&& forall|y: int| 0 <= y < rows.len() ==> (#[trigger] track.tiles[y]).len() == rows[y].len()
                &&& forall|y: int, x: int|
                    0 <= y < rows.len() && 0 <= x < rows[y].len() ==> #[trigger] track.tiles[y][x] == tile_of(
                        rows[y][x],
                    )
                &&& last_inner(rows, 'S', track.start, rows.len() as int, 0)
                &&& last_inner(rows, 'E', track.end, rows.len() as int, 0)
                &&& track.elapsed_ps_no_cheat == 0
                &&& track.dist_map.len() == 0
            }),
    {
        let all = text::chars(input);
        let lines = text::lines(&all);
        let ghost rows = text::lines_of(input@);
        let h = lines.len();
        let mut tiles: Vec<Vec<Tile>> = Vec::new();
        let mut start: (usize, usize) = (0, 0);
        let mut end: (usize, usize) = (0, 0);
        let mut y: usize = 0;
        while y < h
            invariant
                rows == text::views(lines@),
                h == lines.len(),
                y <= h,
                tiles.len() == y,
                forall|i: int| 0 <= i < y ==> (#[trigger] tiles[i]).len() == rows[i].len(),
                forall|i: int, j: int|
                    0 <= i < y && 0 <= j < rows[i].len() ==> #[trigger] tiles[i][j] == tile_of(rows[i][j]),
                last_inner(rows, 'S', start, y as int, 0),
                last_inner(rows, 'E', end, y as int, 0),
            decreases h - y,
        {
            assert(rows[y as int] == lines[y as int]@);
            let mut row: Vec<Tile> = Vec::new();
            let mut x: usize = 0;
            while x < lines[y].len()
                invariant
                    rows == text::views(lines@),
                    h == lines.len(),
                    y < h,
                    rows[y as int] == lines[y as int]@,
                    x <= lines[y as int].len(),
                    row.len() == x,
                    forall|j: int| 0 <= j < x ==> #[trigger] row[j] == tile_of(rows[y as int][j]),
                    last_inner(rows, 'S', start, y as int, x as int),
                    last_inner(rows, 'E', end, y as int, x as int),
                decreases lines[y as int].len() - x,
            {
                let c = lines[y][x];
                row.push(if c == '#' {
                    Tile::Wall
                } else {
                    Tile::Track
                });
                if !(y == 0 || y >= h - 1 || x == 0 || x >= h - 1) {
                    if c == 'S' {
                        start = (y, x);
                    } else if c == 'E' {
                        end = (y, x);
                    }
                }
                x += 1;
            }
            tiles.push(row);
            y += 1;
        }
        Ok(RaceTrack { start, end, tiles, elapsed_ps_no_cheat: 0, dist_map: Vec::new() })
    }
}

/// Whether the cheat `c` saves the time `saved`: it starts on a tile
/// that the start reaches, ends within `budget` steps on a tile of the
/// track from which the end is reached, and the race with it is shorter by
/// `saved` than the race of `elapsed` without it.
#[verifier::opaque]
pub open spec fn saves(
    rows: Seq<Seq<Tile>>,
    to_end: Seq<Seq<Option<usize>>>,
    start: (usize, usize),
    elapsed: usize,
    budget: usize,
    c: Cheat,
    saved: usize,
) -> bool {
    &&& reached_from(rows, start, c.cheat_start)
    &&& on_track(rows, c.cheat_end)
    &&& manhattan(c.cheat_start, c.cheat_end) <= budget
    &&& to_end[c.cheat_end.0 as int][c.cheat_end.1 as int] is Some
    &&& saved > 0
    &&& exists|begun: Seq<Seq<Option<usize>>>| #[trigger]
        begins(rows, start, begun) && c.cheat_start.0 < begun.len() && c.cheat_start.1
            < begun[c.cheat_start.0 as int].len() && begun[c.cheat_start.0 as int][c.cheat_start.1 as int] is Some
            && saved == elapsed - (begun[c.cheat_start.0 as int][c.cheat_start.1 as int].unwrap()
            + manhattan(c.cheat_start, c.cheat_end) + to_end[c.cheat_end.0 as int][c.cheat_end.1 as int].unwrap())
}

/// Whether `begun` holds the times from the start to the tiles of the track.
#[verifier::opaque]
pub open spec fn begins(rows: Seq<Seq<Tile>>, start: (usize, usize), begun: Seq<Seq<Option<usize>>>) -> bool {
    distances_from(track_of(rows), start, begun)
}

/// Whether every listed cheat saves the time listed with it.
#[verifier::opaque]
pub open spec fn all_save(
    rows: Seq<Seq<Tile>>,
    to_end: Seq<Seq<Option<usize>>>,
    start: (usize, usize),
    elapsed: usize,
    budget: usize,
    cheats: Seq<(Cheat, usize)>,
) -> bool {
    forall|i: int|
        0 <= i < cheats.len() ==> saves(rows, to_end, start, elapsed, budget, (#[trigger] cheats[i]).0, cheats[i].1)
}

/// Whether `cheats` lists every cheat that saves time and starts before
/// `(y, x)` in reading order.
#[verifier::opaque]
pub open spec fn covers(
    rows: Seq<Seq<Tile>>,
    to_end: Seq<Seq<Option<usize>>>,
    start: (usize, usize),
    elapsed: usize,
    budget: usize,
    cheats: Seq<(Cheat, usize)>,
    y: int,
    x: int,
) -> bool {
    forall|c: Cheat, saved: usize| #[trigger]
        saves(rows, to_end, start, elapsed, budget, c, saved) && (c.cheat_start.0 < y || (c.cheat_start.0
            == y && c.cheat_start.1 < x)) ==> cheats.contains((c, saved))
}

/// Whether `cheats` lists every cheat that saves time, starts at
/// `cheat_start` and is shorter than `len` steps, or `len` steps long with
/// its end among `ends`.
#[verifier::opaque]
pub open spec fn starts_covered(
    rows: Seq<Seq<Tile>>,
    to_end: Seq<Seq<Option<usize>>>,
    start: (usize, usize),
    elapsed: usize,
    budget: usize,
    cheats: Seq<(Cheat, usize)>,
    cheat_start: (usize, usize),
    len: int,
    ends: Seq<(usize, usize)>,
) -> bool {
    forall|c: Cheat, saved: usize| #[trigger]
        saves(rows, to_end, start, elapsed, budget, c, saved) && c.cheat_start == cheat_start && (manhattan(
            c.cheat_start,
            c.cheat_end,
        ) < len || (manhattan(c.cheat_start, c.cheat_end) == len && ends.contains(c.cheat_end)))
            ==> cheats.contains((c, saved))
}

/// Whether no cheat is listed twice, and every listed cheat starts before
/// `(y, x)` in reading order, or starts there and is shorter than `len`
/// steps, or `len` steps long with its end among `ends`.
#[verifier::opaque]
pub open spec fn each_once(cheats: Seq<(Cheat, usize)>, y: int, x: int, len: int, ends: Seq<(usize, usize)>) -> bool {
    &&& forall|i: int, j: int| 0 <= i < j < cheats.len() ==> (#[trigger] cheats[i]).0 != (#[trigger] cheats[j]).0
    &&& forall|i: int|
        0 <= i < cheats.len() ==> {
            let c = (#[trigger] cheats[i]).0;
            ||| c.cheat_start.0 < y
            ||| (c.cheat_start.0 == y && c.cheat_start.1 < x)
            ||| (c.cheat_start.0 == y && c.cheat_start.1 == x && manhattan(c.cheat_start, c.cheat_end) < len)
            ||| (c.cheat_start.0 == y && c.cheat_start.1 == x && manhattan(c.cheat_start, c.cheat_end) == len
                && ends.contains(c.cheat_end))
        }
}

/// Cheats that were listed once up to `(y, x)` are so up to any later
/// place.
pub proof fn lemma_once_moves_on(cheats: Seq<(Cheat, usize)>, y: int, x: int, len: int, ny: int, nx: int)
    requires
        each_once(cheats, y, x, len, Seq::empty()),
        y < ny || (y == ny && x < nx),
    ensures
        each_once(cheats, ny, nx, 0, Seq::empty()),
{
    reveal(each_once);
}

/// After one more end of a cheat is looked at, no cheat is listed twice.
pub proof fn lemma_once_next_end(
    held: Seq<(Cheat, usize)>,
    cheats: Seq<(Cheat, usize)>,
    cheat_start: (usize, usize),
    len: int,
    ends: Seq<(usize, usize)>,
    k: int,
    found: Option<usize>,
)
    requires
        0 <= k < ends.len(),
        ends.no_duplicates(),
        manhattan(cheat_start, ends[k]) == len,
        each_once(held, cheat_start.0 as int, cheat_start.1 as int, len, ends.take(k)),
        cheats == (if found is Some {
            held.push((Cheat { cheat_start, cheat_end: ends[k] }, found.unwrap()))
        } else {
            held
        }),
    ensures
        each_once(cheats, cheat_start.0 as int, cheat_start.1 as int, len, ends.take(k + 1)),
{
    reveal(each_once);
    let before = ends.take(k);
    let now = ends.take(k + 1);
    assert forall|p: (usize, usize)| before.contains(p) implies now.contains(p) by {
        let i = choose|i: int| 0 <= i < before.len() && before[i] == p;
        assert(now[i] == p);
    }
    assert(now[k] == ends[k]);
    assert(!before.contains(ends[k])) by {
        if before.contains(ends[k]) {
            let i = choose|i: int| 0 <= i < before.len() && before[i] == ends[k];
            assert(ends[i] == ends[k]);
        }
    }
    assert forall|i: int| 0 <= i < cheats.len() implies {
        let c = (#[trigger] cheats[i]).0;
        ||| c.cheat_start.0 < cheat_start.0
        ||| (c.cheat_start.0 == cheat_start.0 && c.cheat_start.1 < cheat_start.1)
        ||| (c.cheat_start.0 == cheat_start.0 && c.cheat_start.1 == cheat_start.1 && manhattan(
            c.cheat_start,
            c.cheat_end,
        ) < len)
        ||| (c.cheat_start.0 == cheat_start.0 && c.cheat_start.1 == cheat_start.1 && manhattan(
            c.cheat_start,
            c.cheat_end,
        ) == len && now.contains(c.cheat_end))
    } by {
        if i < held.len() {
            assert(cheats[i] == held[i]);
        }
    }
    assert forall|i: int, j: int| 0 <= i < j < cheats.len() implies (#[trigger] cheats[i]).0 != (
    #[trigger] cheats[j]).0 by {
        assert(cheats[i] == held[i]);
        if j < held.len() {
            assert(cheats[j] == held[j]);
        }
    }
}

/// After every end of one length is looked at, the next length begins.
pub proof fn lemma_once_next_length(
    cheats: Seq<(Cheat, usize)>,
    cheat_start: (usize, usize),
    len: int,
    ends: Seq<(usize, usize)>,
)
    requires
        each_once(cheats, cheat_start.0 as int, cheat_start.1 as int, len, ends),
    ensures
        each_once(cheats, cheat_start.0 as int, cheat_start.1 as int, len + 1, Seq::empty()),
{
    reveal(each_once);
}

/// Before any length is tried, nothing needs to be listed.
pub proof fn lemma_start_empty(
    rows: Seq<Seq<Tile>>,
    to_end: Seq<Seq<Option<usize>>>,
    start: (usize, usize),
    elapsed: usize,
    budget: usize,
    cheats: Seq<(Cheat, usize)>,
    cheat_start: (usize, usize),
)
    ensures
        starts_covered(rows, to_end, start, elapsed, budget, cheats, cheat_start, 0, Seq::empty()),
{
    reveal(starts_covered);
    assert forall|c: Cheat, saved: usize| #[trigger]
        saves(rows, to_end, start, elapsed, budget, c, saved) && c.cheat_start == cheat_start && (manhattan(
            c.cheat_start,
            c.cheat_end,
        ) < 0 || (manhattan(c.cheat_start, c.cheat_end) == 0 && Seq::<(usize, usize)>::empty().contains(
            c.cheat_end,
        ))) implies cheats.contains((c, saved)) by {}
}

/// After one more end of a cheat is looked at, the list covers it.
pub proof fn lemma_end_done(
    rows: Seq<Seq<Tile>>,
    to_end: Seq<Seq<Option<usize>>>,
    begun: Seq<Seq<Option<usize>>>,
    start: (usize, usize),
    elapsed: usize,
    budget: usize,
    held: Seq<(Cheat, usize)>,
    cheats: Seq<(Cheat, usize)>,
    cheat_start: (usize, usize),
    len: int,
    ends: Seq<(usize, usize)>,
    k: int,
    found: Option<usize>,
)
    requires
        begins(rows, start, begun),
        cheat_start.0 < begun.len(),
        cheat_start.1 < begun[cheat_start.0 as int].len(),
        begun[cheat_start.0 as int][cheat_start.1 as int] is Some,
        0 <= k < ends.len(),
        0 <= len <= budget,
        on_track(rows, ends[k]),
        manhattan(cheat_start, ends[k]) == len,
        all_save(rows, to_end, start, elapsed, budget, held),
        starts_covered(rows, to_end, start, elapsed, budget, held, cheat_start, len, ends.take(k)),
        found is Some ==> found.unwrap() > 0 && to_end[ends[k].0 as int][ends[k].1 as int] is Some
            && found.unwrap() == elapsed - (begun[cheat_start.0 as int][cheat_start.1 as int].unwrap() + len
            + to_end[ends[k].0 as int][ends[k].1 as int].unwrap()),
        found is None ==> to_end[ends[k].0 as int][ends[k].1 as int] is None || elapsed
            <= begun[cheat_start.0 as int][cheat_start.1 as int].unwrap() + len
            + to_end[ends[k].0 as int][ends[k].1 as int].unwrap(),
        cheats == match found {
            Some(saved) => held.push((Cheat { cheat_start, cheat_end: ends[k] }, saved)),
            None => held,
        },
    ensures
        all_save(rows, to_end, start, elapsed, budget, cheats),
        starts_covered(rows, to_end, start, elapsed, budget, cheats, cheat_start, len, ends.take(k + 1)),
        forall|e: (Cheat, usize)| held.contains(e) ==> #[trigger] cheats.contains(e),
{
    reveal(all_save);
    reveal(starts_covered);
    let cheat = Cheat { cheat_start, cheat_end: ends[k] };
    if found is Some {
        lemma_saves(rows, to_end, begun, start, elapsed, budget, cheat, found.unwrap());
        assert(cheats[held.len() as int] == (cheat, found.unwrap()));
    }
    assert forall|e: (Cheat, usize)| held.contains(e) implies #[trigger] cheats.contains(e) by {
        let i = choose|i: int| 0 <= i < held.len() && held[i] == e;
        assert(cheats[i] == e);
    }
    assert forall|i: int| 0 <= i < cheats.len() implies saves(
        rows,
        to_end,
        start,
        elapsed,
        budget,
        (#[trigger] cheats[i]).0,
        cheats[i].1,
    ) by {
        if i < held.len() {
            assert(cheats[i] == held[i]);
        }
    }
    assert(ends.take(k + 1) =~= ends.take(k).push(ends[k]));
    assert forall|c: Cheat, saved: usize| #[trigger]
        saves(rows, to_end, start, elapsed, budget, c, saved) && c.cheat_start == cheat_start && (manhattan(
            c.cheat_start,
            c.cheat_end,
        ) < len || (manhattan(c.cheat_start, c.cheat_end) == len && ends.take(k + 1).contains(c.cheat_end)))
            implies cheats.contains((c, saved)) by {
        if manhattan(c.cheat_start, c.cheat_end) == len && !ends.take(k).contains(c.cheat_end) {
            let longer = ends.take(k + 1);
            let m = choose|m: int| 0 <= m < longer.len() && longer[m] == c.cheat_end;
            if m < k {
                assert(ends.take(k)[m] == c.cheat_end);
            }
            assert(c.cheat_end == ends[k]);
            lemma_begun(rows, to_end, begun, start, elapsed, budget, c, saved);
            assert(c == cheat);
            assert(found == Some(saved));
        } else {
            assert(held.contains((c, saved)));
        }
    }
}

/// After every end at one length is looked at, the list covers the length.
pub proof fn lemma_length_done(
    rows: Seq<Seq<Tile>>,
    to_end: Seq<Seq<Option<usize>>>,
    begun: Seq<Seq<Option<usize>>>,
    start: (usize, usize),
    elapsed: usize,
    budget: usize,
    cheats: Seq<(Cheat, usize)>,
    cheat_start: (usize, usize),
    len: int,
    ends: Seq<(usize, usize)>,
)
    requires
        begins(rows, start, begun),
        forall|p: (usize, usize)|
            #![trigger ends.contains(p)]
            ends.contains(p) <==> on_track(rows, p) && manhattan(cheat_start, p) == len,
        starts_covered(rows, to_end, start, elapsed, budget, cheats, cheat_start, len, ends),
    ensures
        starts_covered(rows, to_end, start, elapsed, budget, cheats, cheat_start, len + 1, Seq::empty()),
{
    reveal(starts_covered);
    assert forall|c: Cheat, saved: usize| #[trigger]
        saves(rows, to_end, start, elapsed, budget, c, saved) && c.cheat_start == cheat_start && (manhattan(
            c.cheat_start,
            c.cheat_end,
        ) < len + 1 || (manhattan(c.cheat_start, c.cheat_end) == len + 1 && Seq::<(usize, usize)>::empty().contains(
            c.cheat_end,
        ))) implies cheats.contains((c, saved)) by {
        lemma_begun(rows, to_end, begun, start, elapsed, budget, c, saved);
        if manhattan(c.cheat_start, c.cheat_end) == len {
            assert(ends.contains(c.cheat_end));
        }
    }
}

/// After the cheats from one tile are added, the list covers the tile.
pub proof fn lemma_covers_on(
    rows: Seq<Seq<Tile>>,
    to_end: Seq<Seq<Option<usize>>>,
    begun: Seq<Seq<Option<usize>>>,
    start: (usize, usize),
    elapsed: usize,
    budget: usize,
    held: Seq<(Cheat, usize)>,
    cheats: Seq<(Cheat, usize)>,
    y: int,
    x: int,
)
    requires
        begins(rows, start, begun),
        0 <= y < begun.len(),
        0 <= x < begun[y].len(),
        covers(rows, to_end, start, elapsed, budget, held, y, x),
        forall|e: (Cheat, usize)| held.contains(e) ==> #[trigger] cheats.contains(e),
        begun[y][x] is None || starts_covered(
            rows,
            to_end,
            start,
            elapsed,
            budget,
            cheats,
            (y as usize, x as usize),
            budget + 1,
            Seq::empty(),
        ),
        y <= usize::MAX,
        x <= usize::MAX,
    ensures
        covers(rows, to_end, start, elapsed, budget, cheats, y, x + 1),
{
    reveal(covers);
    reveal(starts_covered);
    assert forall|c: Cheat, saved: usize| #[trigger]
        saves(rows, to_end, start, elapsed, budget, c, saved) && (c.cheat_start.0 < y || (c.cheat_start.0 == y
            && c.cheat_start.1 < x + 1)) implies cheats.contains((c, saved)) by {
        if c.cheat_start.0 == y && c.cheat_start.1 == x {
            lemma_begun(rows, to_end, begun, start, elapsed, budget, c, saved);
            assert(c.cheat_start == (y as usize, x as usize));
        } else {
            assert(held.contains((c, saved)));
        }
    }
}

/// A list that covers a whole row covers the start of the next.
pub proof fn lemma_covers_row(
    rows: Seq<Seq<Tile>>,
    to_end: Seq<Seq<Option<usize>>>,
    begun: Seq<Seq<Option<usize>>>,
    start: (usize, usize),
    elapsed: usize,
    budget: usize,
    cheats: Seq<(Cheat, usize)>,
    y: int,
    w: int,
)
    requires
        begins(rows, start, begun),
        0 <= y < begun.len(),
        begun[y].len() == w,
        covers(rows, to_end, start, elapsed, budget, cheats, y, w),
    ensures
        covers(rows, to_end, start, elapsed, budget, cheats, y + 1, 0),
{
    reveal(covers);
    assert forall|c: Cheat, saved: usize| #[trigger]
        saves(rows, to_end, start, elapsed, budget, c, saved) && (c.cheat_start.0 < y + 1 || (c.cheat_start.0
            == y + 1 && c.cheat_start.1 < 0)) implies cheats.contains((c, saved)) by {
        lemma_begun(rows, to_end, begun, start, elapsed, budget, c, saved);
    }
}

/// A list that covers every row lists every cheat that saves time.
pub proof fn lemma_covers_all(
    rows: Seq<Seq<Tile>>,
    to_end: Seq<Seq<Option<usize>>>,
    begun: Seq<Seq<Option<usize>>>,
    start: (usize, usize),
    elapsed: usize,
    budget: usize,
    cheats: Seq<(Cheat, usize)>,
    h: int,
)
    requires
        begins(rows, start, begun),
        begun.len() == h,
        covers(rows, to_end, start, elapsed, budget, cheats, h, 0),
    ensures
        forall|c: Cheat, saved: usize| #[trigger]
            saves(rows, to_end, start, elapsed, budget, c, saved) ==> cheats.contains((c, saved)),
{
    reveal(covers);
    assert forall|c: Cheat, saved: usize| #[trigger]
        saves(rows, to_end, start, elapsed, budget, c, saved) implies cheats.contains((c, saved)) by {
        lemma_begun(rows, to_end, begun, start, elapsed, budget, c, saved);
    }
}

/// The time that a cheat saves is counted from the one time that its
/// start lies after the start of the race.
pub proof fn lemma_begun(
    rows: Seq<Seq<Tile>>,
    to_end: Seq<Seq<Option<usize>>>,
    begun: Seq<Seq<Option<usize>>>,
    start: (usize, usize),
    elapsed: usize,
    budget: usize,
    c: Cheat,
    saved: usize,
)
    requires
        begins(rows, start, begun),
        saves(rows, to_end, start, elapsed, budget, c, saved),
    ensures
        c.cheat_start.0 < begun.len(),
        c.cheat_start.1 < begun[c.cheat_start.0 as int].len(),
        begun[c.cheat_start.0 as int][c.cheat_start.1 as int] is Some,
        on_track(rows, c.cheat_end),
        manhattan(c.cheat_start, c.cheat_end) <= budget,
        to_end[c.cheat_end.0 as int][c.cheat_end.1 as int] is Some,
        saved > 0,
        saved == elapsed - (begun[c.cheat_start.0 as int][c.cheat_start.1 as int].unwrap() + manhattan(
            c.cheat_start,
            c.cheat_end,
        ) + to_end[c.cheat_end.0 as int][c.cheat_end.1 as int].unwrap()),
{
    reveal(saves);
    reveal(begins);
    let other = choose|other: Seq<Seq<Option<usize>>>| #[trigger]
        distances_from(track_of(rows), start, other) && c.cheat_start.0 < other.len() && c.cheat_start.1
            < other[c.cheat_start.0 as int].len() && other[c.cheat_start.0 as int][c.cheat_start.1 as int] is Some
            && saved == elapsed - (other[c.cheat_start.0 as int][c.cheat_start.1 as int].unwrap()
            + manhattan(c.cheat_start, c.cheat_end) + to_end[c.cheat_end.0 as int][c.cheat_end.1 as int].unwrap());
    let y = c.cheat_start.0 as int;
    let x = c.cheat_start.1 as int;
    lemma_same_reach(track_of(rows), start, other, begun, y, x, other[y][x].unwrap() as int);
    lemma_same_reach(track_of(rows), start, begun, other, y, x, begun[y][x].unwrap() as int);
}

/// A cheat saves what is left of the time without it.
pub proof fn lemma_saves(
    rows: Seq<Seq<Tile>>,
    to_end: Seq<Seq<Option<usize>>>,
    begun: Seq<Seq<Option<usize>>>,
    start: (usize, usize),
    elapsed: usize,
    budget: usize,
    c: Cheat,
    saved: usize,
)
    requires
        begins(rows, start, begun),
        c.cheat_start.0 < begun.len(),
        c.cheat_start.1 < begun[c.cheat_start.0 as int].len(),
        begun[c.cheat_start.0 as int][c.cheat_start.1 as int] is Some,
        on_track(rows, c.cheat_end),
        manhattan(c.cheat_start, c.cheat_end) <= budget,
        to_end[c.cheat_end.0 as int][c.cheat_end.1 as int] is Some,
        saved > 0,
        saved == elapsed - (begun[c.cheat_start.0 as int][c.cheat_start.1 as int].unwrap() + manhattan(
            c.cheat_start,
            c.cheat_end,
        ) + to_end[c.cheat_end.0 as int][c.cheat_end.1 as int].unwrap()),
    ensures
        saves(rows, to_end, start, elapsed, budget, c, saved),
{
    reveal(saves);
    reveal(begins);
}

/// Whether the track leads from `start` to `p`.
pub open spec fn reached_from(rows: Seq<Seq<Tile>>, start: (usize, usize), p: (usize, usize)) -> bool {
    exists|begun: Seq<Seq<Option<usize>>>| #[trigger]
        begins(rows, start, begun) && p.0 < begun.len() && p.1 < begun[p.0 as int].len()
            && begun[p.0 as int][p.1 as int] is Some
}

/// How many of the first `n` cheats save at least `least`.
pub open spec fn saving(cheats: Seq<(Cheat, usize)>, least: usize, n: int) -> int
    decreases n,
{
    if n <= 0 {
        0
    } else {
        saving(cheats, least, n - 1) + if cheats[n - 1].1 >= least {
            1int
        } else {
            0int
        }
    }
}

/// How many of the cheats save at least `least`.
pub fn count_saving(cheats: &Vec<(Cheat, usize)>, least: usize) -> (found: usize)
    ensures
        found == saving(cheats@, least, cheats.len() as int),
{
    let mut found: usize = 0;
    let mut i: usize = 0;
    while i < cheats.len()
        invariant
            i <= cheats.len(),
            found == saving(cheats@, least, i as int),
            found <= i,
        decreases cheats.len() - i,
    {
        if cheats[i].1 >= least {
            found += 1;
        }
        i += 1;
    }
    found
}

} // verus!
