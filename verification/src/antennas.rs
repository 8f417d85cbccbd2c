//! Antennas on a map, and the antinodes that pairs of antennas of one
//! frequency cast.

use crate::combine::{all_choices, choices_of, combinations, rising};
use crate::points::add_unique;
use crate::text;
use vstd::prelude::*;

verus! {

/// A cell of the map: empty, or an antenna with its frequency.
#[derive(Debug, Clone, Copy, PartialEq, Eq, Structural)]
pub enum Cell {
    Antinode,
    Antenna(char),
    Empty,
}

/// The antennas of one frequency, in reading order.
#[derive(Debug)]
pub struct Group {
    pub frequency: char,
    pub locations: Vec<(usize, usize)>,
}

/// A map of antennas: its cells, and its antennas by frequency.
#[derive(Debug)]
pub struct AntennaMap {
    pub cells: Vec<Vec<Cell>>,
    pub antennas: Vec<Group>,
}

/// How antinodes are cast: one beyond each antenna of a pair, or all along
/// the line through the pair.
#[derive(Debug, Clone, Copy, PartialEq, Eq, Structural)]
pub enum Rule {
    Nearest,
    Line,
}

/// Whether `p` lies on a map of `h` rows and `w` columns.
pub open spec fn valid(h: int, w: int, p: (int, int)) -> bool {
    0 <= p.0 < h && 0 <= p.1 < w
}

/// The point `k` steps of `d` from `p`.
pub open spec fn along(p: (int, int), d: (int, int), k: int) -> (int, int) {
    (p.0 + k * d.0, p.1 + k * d.1)
}

/// How many of the points `p`, `p + d`, `p + 2d`, ... lie on the map
/// before the first that does not, counted from step `k` and at most up to
/// step `limit`.
pub open spec fn run(h: int, w: int, p: (int, int), d: (int, int), k: int, limit: int) -> int
    decreases limit - k,
{
    if k >= limit || !valid(h, w, along(p, d, k)) {
        k
    } else {
        run(h, w, p, d, k + 1, limit)
    }
}

/// The first `n` points of the ray from `p` in steps of `d`.
pub open spec fn ray(p: (int, int), d: (int, int), n: int) -> Seq<(usize, usize)>
    decreases n,
{
    if n <= 0 {
        Seq::empty()
    } else {
        ray(p, d, n - 1).push(((along(p, d, n - 1).0) as usize, (along(p, d, n - 1).1) as usize))
    }
}

/// `s` with the point `p` added where it lies on the map.
pub open spec fn with_valid(h: int, w: int, s: Seq<(usize, usize)>, p: (int, int)) -> Seq<(usize, usize)> {
    if valid(h, w, p) {
        s.push((p.0 as usize, p.1 as usize))
    } else {
        s
    }
}

/// The antinodes of the pair `p`, `q` under the rule `Nearest`: the point
/// as far beyond `p` as `q` lies before it, and the one beyond `q`, each
/// where it lies on the map.
pub open spec fn nearest(h: int, w: int, p: (int, int), q: (int, int)) -> Seq<(usize, usize)> {
    with_valid(
        h,
        w,
        with_valid(h, w, Seq::empty(), (2 * p.0 - q.0, 2 * p.1 - q.1)),
        (2 * q.0 - p.0, 2 * q.1 - p.1),
    )
}

/// The antinodes of the pair `p`, `q` under the rule `Line`: from `p` on
/// away from `q` in steps of their distance while the map lasts, at most
/// as many as the map has rows, and the same from `q` on away from `p`.
pub open spec fn line(h: int, w: int, p: (int, int), q: (int, int)) -> Seq<(usize, usize)> {
    let d = (p.0 - q.0, p.1 - q.1);
    let e = (q.0 - p.0, q.1 - p.1);
    ray(p, d, run(h, w, p, d, 0, h)) + ray(q, e, run(h, w, q, e, 0, h))
}

/// The antinodes of a pair under a rule.
pub open spec fn cast(rule: Rule, h: int, w: int, p: (usize, usize), q: (usize, usize)) -> Seq<
    (usize, usize),
> {
    match rule {
        Rule::Nearest => nearest(h, w, (p.0 as int, p.1 as int), (q.0 as int, q.1 as int)),
        Rule::Line => line(h, w, (p.0 as int, p.1 as int), (q.0 as int, q.1 as int)),
    }
}

/// The groups as sequences of locations.
pub open spec fn groups_of(antennas: Seq<Group>) -> Seq<Seq<(usize, usize)>> {
    antennas.map_values(|g: Group| g.locations@)
}

/// Whether some pair of antennas of one frequency casts an antinode at `p`.
pub open spec fn is_antinode(
    rule: Rule,
    h: int,
    w: int,
    groups: Seq<Seq<(usize, usize)>>,
    p: (usize, usize),
) -> bool {
    exists|g: int, i: int, j: int|
        0 <= g < groups.len() && 0 <= i < j < groups[g].len() && #[trigger] cast(
            rule,
            h,
            w,
            groups[g][i],
            groups[g][j],
        ).contains(p)
}

impl AntennaMap {
    /// The number of rows of the map.
    pub open spec fn height(&self) -> int {
        self.cells.len() as int
    }

    /// The number of columns of the map.
    pub open spec fn width(&self) -> int {
        if self.cells.len() == 0 {
            0
        } else {
            self.cells[0].len() as int
        }
    }

    /// Whether `p` lies on the map.
    pub fn is_valid_coord(&self, p: (i64, i64)) -> (ok: bool)
        ensures
            ok == valid(self.height(), self.width(), (p.0 as int, p.1 as int)),
    {
        0 <= p.0 && (p.0 as i128) < self.cells.len() as i128 && 0 <= p.1 && (p.1 as i128)
            < self.cells[0].len() as i128
    }

    /// Whether a point with wide coordinates lies on the map.
    pub fn on_map(&self, p: (i128, i128)) -> (ok: bool)
        ensures
            ok == valid(self.height(), self.width(), (p.0 as int, p.1 as int)),
    {
        0 <= p.0 && p.0 < self.cells.len() as i128 && 0 <= p.1 && p.1 < self.cells[0].len() as i128
    }

    /// The antinodes of a pair under the rule `Nearest`.
    pub fn antinodes1(&self, p: &(usize, usize), q: &(usize, usize)) -> (res: Vec<(usize, usize)>)
        ensures
            res@ == cast(Rule::Nearest, self.height(), self.width(), *p, *q),
    {
        let r = (2 * (p.0 as i128) - (q.0 as i128), 2 * (p.1 as i128) - (q.1 as i128));
        let s = (2 * (q.0 as i128) - (p.0 as i128), 2 * (q.1 as i128) - (p.1 as i128));
        let mut res: Vec<(usize, usize)> = Vec::new();
        if self.on_map(r) {
            res.push((r.0 as usize, r.1 as usize));
        }
        if self.on_map(s) {
            res.push((s.0 as usize, s.1 as usize));
        }
        res
    }

    /// The points of the ray from `p` in steps of `d` that lie on the map
    /// before the first that does not, at most as many as the map has rows.
    /// A step is the way from one place to another, and so no longer than
    /// machine integers count.
    pub fn cast_ray(&self, p: (usize, usize), d: (i128, i128)) -> (res: Vec<(usize, usize)>)
        requires
            -usize::MAX <= d.0 <= usize::MAX,
            -usize::MAX <= d.1 <= usize::MAX,
        ensures
            res@ == ray(
                (p.0 as int, p.1 as int),
                (d.0 as int, d.1 as int),
                run(
                    self.height(),
                    self.width(),
                    (p.0 as int, p.1 as int),
                    (d.0 as int, d.1 as int),
                    0,
                    self.height(),
                ),
            ),
    {
        let ghost h = self.height();
        let ghost w = self.width();
        let ghost start = (p.0 as int, p.1 as int);
        let ghost step = (d.0 as int, d.1 as int);
        let mut res: Vec<(usize, usize)> = Vec::new();
        let mut k: usize = 0;
        let mut at: (i128, i128) = (p.0 as i128, p.1 as i128);
        proof {
            let a = step.0;
            let b = step.1;
            assert(0 * a == 0 && 0 * b == 0) by (nonlinear_arith);
        }
        while k < self.cells.len()
            invariant
                h == self.height(),
                w == self.width(),
                start == (p.0 as int, p.1 as int),
                step == (d.0 as int, d.1 as int),
                k <= self.cells.len(),
                at.0 == along(start, step, k as int).0,
                at.1 == along(start, step, k as int).1,
                -0x1_0000_0000_0000_0000 <= d.0 <= 0x1_0000_0000_0000_0000,
                -0x1_0000_0000_0000_0000 <= d.1 <= 0x1_0000_0000_0000_0000,
                -0x2_0000_0000_0000_0000 <= at.0 <= 0x2_0000_0000_0000_0000,
                -0x2_0000_0000_0000_0000 <= at.1 <= 0x2_0000_0000_0000_0000,
                res@ == ray(start, step, k as int),
                run(h, w, start, step, 0, h) == run(h, w, start, step, k as int, h),
            decreases self.cells.len() - k,
        {
            if !self.on_map(at) {
                return res;
            }
            res.push((at.0 as usize, at.1 as usize));
            proof {
                let ki = k as int;
                let a = step.0;
                let b = step.1;
                assert((ki + 1) * a == ki * a + a && (ki + 1) * b == ki * b + b) by (nonlinear_arith);
                assert(self.cells[0].len() <= usize::MAX);
            }
            at = (at.0 + d.0, at.1 + d.1);
            k += 1;
        }
        res
    }

    /// The antinodes of a pair under the rule `Line`.
    pub fn antinodes_infinity(&self, p: &(usize, usize), q: &(usize, usize)) -> (res: Vec<
        (usize, usize),
    >)
        ensures
            res@ == cast(Rule::Line, self.height(), self.width(), *p, *q),
    {
        let d = (p.0 as i128 - q.0 as i128, p.1 as i128 - q.1 as i128);
        let e = (q.0 as i128 - p.0 as i128, q.1 as i128 - p.1 as i128);
        let mut res = self.cast_ray(*p, d);
        let mut right = self.cast_ray(*q, e);
        res.append(&mut right);
        res
    }

    /// The antinodes of a pair under a rule.
    pub fn antinodes(&self, rule: Rule, p: &(usize, usize), q: &(usize, usize)) -> (res: Vec<
        (usize, usize),
    >)
        ensures
            res@ == cast(rule, self.height(), self.width(), *p, *q),
    {
        match rule {
            Rule::Nearest => self.antinodes1(p, q),
            Rule::Line => self.antinodes_infinity(p, q),
        }
    }

    /// The points at which some pair of antennas of one frequency casts an
    /// antinode under the rule, each point once.
    pub fn find_unique_antinodes(&self, rule: Rule) -> (res: Vec<(usize, usize)>)
        ensures
            res@.no_duplicates(),
            forall|p: (usize, usize)|
                #![trigger res@.contains(p)]
                res@.contains(p) <==> is_antinode(
                    rule,
                    self.height(),
                    self.width(),
                    groups_of(self.antennas@),
                    p,
                ),
    {
        let ghost h = self.height();
        let ghost w = self.width();
        let ghost groups = groups_of(self.antennas@);
        let mut res: Vec<(usize, usize)> = Vec::new();
        let mut g: usize = 0;
        while g < self.antennas.len()
            invariant
                h == self.height(),
                w == self.width(),
                groups == groups_of(self.antennas@),
                g <= self.antennas.len(),
                res@.no_duplicates(),
                forall|p: (usize, usize)|
                    #![trigger res@.contains(p)]
                    res@.contains(p) <==> exists|a: int, i: int, j: int|
                        0 <= a < g && 0 <= i < j < groups[a].len() && #[trigger] cast(
                            rule,
                            h,
                            w,
                            groups[a][i],
                            groups[a][j],
                        ).contains(p),
            decreases self.antennas.len() - g,
        {
            let locations = &self.antennas[g].locations;
            assert(groups[g as int] == locations@);
            let n = locations.len();
            let pairs = combinations(n, 2);
            let ghost all = choices_of(pairs@);
            let ghost start = res@;
            let mut r: usize = 0;
            while r < pairs.len()
                invariant
                    h == self.height(),
                    w == self.width(),
                    groups == groups_of(self.antennas@),
                    g < self.antennas.len(),
                    locations == &self.antennas[g as int].locations,
                    groups[g as int] == locations@,
                    n == locations.len(),
                    all == choices_of(pairs@),
                    all_choices(all, n as int, 2),
                    r <= pairs.len(),
                    res@.no_duplicates(),
                    forall|p: (usize, usize)|
                        #![trigger res@.contains(p)]
                        #![trigger start.contains(p)]
                        res@.contains(p) <==> start.contains(p) || exists|s: int|
                            0 <= s < r && #[trigger] cast(
                                rule,
                                h,
                                w,
                                locations[all[s][0] as int],
                                locations[all[s][1] as int],
                            ).contains(p),
                decreases pairs.len() - r,
            {
                assert(all[r as int] == pairs[r as int]@);
                assert(rising(all[r as int], n as int));
                let pair = &pairs[r];
                let found = self.antinodes(rule, &locations[pair[0]], &locations[pair[1]]);
                let ghost before = res@;
                add_unique(&mut res, &found);
                proof {
                    let c = cast(
                        rule,
                        h,
                        w,
                        locations[all[r as int][0] as int],
                        locations[all[r as int][1] as int],
                    );
                    assert(found@ == c);
                    assert forall|p: (usize, usize)|
                        res@.contains(p) <==> start.contains(p) || exists|s: int|
                            0 <= s < r + 1 && #[trigger] cast(
                                rule,
                                h,
                                w,
                                locations[all[s][0] as int],
                                locations[all[s][1] as int],
                            ).contains(p) by {
                        if res@.contains(p) {
                            if before.contains(p) {
                            } else {
                                assert(c.contains(p));
                            }
                        }
                        if exists|s: int|
                            0 <= s < r + 1 && #[trigger] cast(
                                rule,
                                h,
                                w,
                                locations[all[s][0] as int],
                                locations[all[s][1] as int],
                            ).contains(p) {
                            let s = choose|s: int|
                                0 <= s < r + 1 && #[trigger] cast(
                                    rule,
                                    h,
                                    w,
                                    locations[all[s][0] as int],
                                    locations[all[s][1] as int],
                                ).contains(p);
                            if s < r {
                                assert(before.contains(p));
                            } else {
                                assert(found@.contains(p));
                            }
                        }
                    }
                }
                r += 1;
            }
            proof {
                assert forall|p: (usize, usize)|
                    res@.contains(p) <==> exists|a: int, i: int, j: int|
                        0 <= a < g + 1 && 0 <= i < j < groups[a].len() && #[trigger] cast(
                            rule,
                            h,
                            w,
                            groups[a][i],
                            groups[a][j],
                        ).contains(p) by {
                    if res@.contains(p) && !start.contains(p) {
                        let s = choose|s: int|
                            0 <= s < pairs.len() && #[trigger] cast(
                                rule,
                                h,
                                w,
                                locations[all[s][0] as int],
                                locations[all[s][1] as int],
                            ).contains(p);
                        assert(rising(all[s], n as int));
                        let i = all[s][0] as int;
                        let j = all[s][1] as int;
                        assert(cast(rule, h, w, groups[g as int][i], groups[g as int][j]).contains(p));
                    }
                    if exists|a: int, i: int, j: int|
                        0 <= a < g + 1 && 0 <= i < j < groups[a].len() && #[trigger] cast(
                            rule,
                            h,
                            w,
                            groups[a][i],
                            groups[a][j],
                        ).contains(p) {
                        let (a, i, j) = choose|a: int, i: int, j: int|
                            0 <= a < g + 1 && 0 <= i < j < groups[a].len() && #[trigger] cast(
                                rule,
                                h,
                                w,
                                groups[a][i],
                                groups[a][j],
                            ).contains(p);
                        if a == g {
                            let c = seq![i as usize, j as usize];
                            assert(rising(c, n as int));
                            assert(all.contains(c));
                            let s = choose|s: int| 0 <= s < all.len() && all[s] == c;
                            assert(all[s][0] == i && all[s][1] == j);
                            assert(cast(
                                rule,
                                h,
                                w,
                                locations[all[s][0] as int],
                                locations[all[s][1] as int],
                            ).contains(p));
                        }
                    }
                }
            }
            g += 1;
        }
        res
    }

    /// Reads a map: a dot is an empty cell, any other character an antenna
    /// of the frequency that the character names.
    pub fn try_from(value: &str) -> (res: Result<Self, &'static str>)
        ensures
            res is Ok,
            ({
                let rows = text::lines_of(value@);
                let map = res->Ok_0;
                &&& map.cells.len() == rows.len()
                &&& forall|y: int| 0 <= y < rows.len() ==> (#[trigger] map.cells[y]).len() == rows[y].len()
                &&& forall|y: int, x: int|
                    0 <= y < rows.len() && 0 <= x < rows[y].len() ==> #[trigger] map.cells[y][x] == cell_of(
                        rows[y][x],
                    )
                &&& forall|y: int, x: int|
                    0 <= y < rows.len() && 0 <= x < rows[y].len() && rows[y][x] != '.' ==> listed(
                        groups_view(map.antennas@),
                        #[trigger] rows[y][x],
                        (y as usize, x as usize),
                    )
                &&& forall|d: char, q: (usize, usize)| #[trigger]
                    listed(groups_view(map.antennas@), d, q) ==> shown(rows, d, q)
            }),
    {
        let all = text::chars(value);
        let lines = text::lines(&all);
        let ghost rows = text::lines_of(value@);
        let mut cells: Vec<Vec<Cell>> = Vec::new();
        let mut antennas: Vec<Group> = Vec::new();
        let mut y: usize = 0;
        while y < lines.len()
            invariant
                rows == text::views(lines@),
                y <= lines.len(),
                cells.len() == y,
                forall|i: int| 0 <= i < y ==> (#[trigger] cells[i]).len() == rows[i].len(),
                forall|i: int, j: int|
                    0 <= i < y && 0 <= j < rows[i].len() ==> #[trigger] cells[i][j] == cell_of(rows[i][j]),
                forall|i: int, j: int|
                    0 <= i < y && 0 <= j < rows[i].len() && rows[i][j] != '.' ==> listed(
                        groups_view(antennas@),
                        #[trigger] rows[i][j],
                        (i as usize, j as usize),
                    ),
                forall|d: char, q: (usize, usize)| #[trigger]
                    listed(groups_view(antennas@), d, q) ==> shown(rows, d, q),
            decreases lines.len() - y,
        {
            assert(rows[y as int] == lines[y as int]@);
            let mut row: Vec<Cell> = Vec::new();
            let mut x: usize = 0;
            while x < lines[y].len()
                invariant
                    rows == text::views(lines@),
                    y < lines.len(),
                    rows[y as int] == lines[y as int]@,
                    x <= lines[y as int].len(),
                    row.len() == x,
                    forall|j: int| 0 <= j < x ==> #[trigger] row[j] == cell_of(rows[y as int][j]),
                    forall|i: int, j: int|
                        0 <= i < y && 0 <= j < rows[i].len() && rows[i][j] != '.' ==> listed(
                            groups_view(antennas@),
                            #[trigger] rows[i][j],
                            (i as usize, j as usize),
                        ),
                    forall|j: int|
                        0 <= j < x && rows[y as int][j] != '.' ==> listed(
                            groups_view(antennas@),
                            #[trigger] rows[y as int][j],
                            (y, j as usize),
                        ),
                    forall|d: char, q: (usize, usize)| #[trigger]
                        listed(groups_view(antennas@), d, q) ==> shown(rows, d, q),
                decreases lines[y as int].len() - x,
            {
                let c = lines[y][x];
                if c == '.' {
                    row.push(Cell::Empty);
                } else {
                    let ghost before = groups_view(antennas@);
                    note(&mut antennas, c, (y, x));
                    row.push(Cell::Antenna(c));
                    assert(shown(rows, c, (y, x)));
                }
                x += 1;
            }
            cells.push(row);
            y += 1;
        }
        Ok(AntennaMap { cells, antennas })
    }
}

/// The cell that a character stands for.
pub open spec fn cell_of(c: char) -> Cell {
    if c == '.' {
        Cell::Empty
    } else {
        Cell::Antenna(c)
    }
}

/// The groups with their frequencies.
pub open spec fn groups_view(antennas: Seq<Group>) -> Seq<(char, Seq<(usize, usize)>)> {
    antennas.map_values(|g: Group| (g.frequency, g.locations@))
}

/// Whether the group of the frequency `c` lists the location `p`.
pub open spec fn listed(groups: Seq<(char, Seq<(usize, usize)>)>, c: char, p: (usize, usize)) -> bool {
    exists|g: int| 0 <= g < groups.len() && (#[trigger] groups[g]).0 == c && groups[g].1.contains(p)
}

/// Whether the map shows the character `c` at `p`.
pub open spec fn shown(rows: Seq<Seq<char>>, c: char, p: (usize, usize)) -> bool {
    p.0 < rows.len() && p.1 < rows[p.0 as int].len() && rows[p.0 as int][p.1 as int] == c
}

/// Adds a location to the group of its frequency, which is made where
/// there is none yet.
pub fn note(antennas: &mut Vec<Group>, c: char, p: (usize, usize))
    ensures
        listed(groups_view(final(antennas)@), c, p),
        forall|d: char, q: (usize, usize)|
            listed(groups_view(old(antennas)@), d, q) ==> listed(groups_view(final(antennas)@), d, q),
        forall|d: char, q: (usize, usize)| #[trigger]
            listed(groups_view(final(antennas)@), d, q) ==> listed(groups_view(old(antennas)@), d, q) || (d
                == c && q == p),
{
    let ghost before = groups_view(antennas@);
    let mut g: usize = 0;
    while g < antennas.len()
        invariant
            g <= antennas.len(),
            antennas@ == old(antennas)@,
            before == groups_view(antennas@),
            forall|k: int| 0 <= k < g ==> (#[trigger] antennas[k]).frequency != c,
        decreases antennas.len() - g,
    {
        if antennas[g].frequency == c {
            let ghost held = antennas[g as int].locations@;
            antennas[g].locations.push(p);
            proof {
                let after = groups_view(antennas@);
                assert(after[g as int].0 == c);
                assert(antennas[g as int].locations@[held.len() as int] == p);
                assert(after[g as int].1.contains(p));
                assert forall|d: char, q: (usize, usize)| listed(before, d, q) implies listed(
                    after,
                    d,
                    q,
                ) by {
                    let k = choose|k: int|
                        0 <= k < before.len() && (#[trigger] before[k]).0 == d && before[k].1.contains(q);
                    let m = choose|m: int| 0 <= m < before[k].1.len() && before[k].1[m] == q;
                    assert(after[k].0 == d);
                    assert(after[k].1[m] == q);
                }
                assert forall|d: char, q: (usize, usize)| #[trigger] listed(after, d, q) implies listed(
                    before,
                    d,
                    q,
                ) || (d == c && q == p) by {
                    let k = choose|k: int|
                        0 <= k < after.len() && (#[trigger] after[k]).0 == d && after[k].1.contains(q);
                    let m = choose|m: int| 0 <= m < after[k].1.len() && after[k].1[m] == q;
                    if k == g && m == held.len() {
                    } else {
                        assert(before[k].0 == d);
                        assert(before[k].1[m] == q);
                    }
                }
            }
            return ;
        }
        g += 1;
    }
    let mut locations: Vec<(usize, usize)> = Vec::new();
    locations.push(p);
    antennas.push(Group { frequency: c, locations });
    proof {
        let after = groups_view(antennas@);
        let last = before.len() as int;
        assert(after[last].0 == c);
        assert(after[last].1[0] == p);
        assert(after[last].1.contains(p));
        assert forall|d: char, q: (usize, usize)| listed(before, d, q) implies listed(after, d, q) by {
            let k = choose|k: int|
                0 <= k < before.len() && (#[trigger] before[k]).0 == d && before[k].1.contains(q);
            assert(after[k] == before[k]);
        }
        assert forall|d: char, q: (usize, usize)| #[trigger] listed(after, d, q) implies listed(
            before,
            d,
            q,
        ) || (d == c && q == p) by {
            let k = choose|k: int|
                0 <= k < after.len() && (#[trigger] after[k]).0 == d && after[k].1.contains(q);
            if k < last {
                assert(after[k] == before[k]);
            } else {
                let m = choose|m: int| 0 <= m < after[k].1.len() && after[k].1[m] == q;
                assert(m == 0);
            }
        }
    }
}

} // verus!
