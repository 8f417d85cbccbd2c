//! Hiking trails on a map of heights: paths that climb one step at a time
//! from height 0 to height 9.

use crate::points::add_unique;
use crate::text;
use vstd::prelude::*;

verus! {

/// A position of the map: its height, and what is known of the trails
/// from it: how many reach a peak, and which peaks they reach.
#[derive(Debug)]
pub struct Position {
    pub height: u32,
    pub rating: Option<u32>,
    pub reachable: Vec<(usize, usize)>,
}

impl Position {
    /// Whether trails start here.
    pub fn is_trailhead(&self) -> (yes: bool)
        ensures
            yes == (self.height == 0),
    {
        self.height == 0
    }
}

/// A map of heights, with what is known of the trails from each position.
#[derive(Debug)]
pub struct TopographicMap {
    pub positions: Vec<Vec<Position>>,
}

/// The heights of a map.
pub type Heights = Seq<Seq<u32>>;

/// The height of a peak.
pub const PEAK: u32 = 9;

/// The offsets of the four steps, in the order in which they are tried.
pub open spec fn step_of(d: int) -> (int, int) {
    if d == 0 {
        (1, 0)
    } else if d == 1 {
        (-1, 0)
    } else if d == 2 {
        (0, 1)
    } else {
        (0, -1)
    }
}

/// Whether `(x, y)` lies on the map.
pub open spec fn on_map(hs: Heights, x: int, y: int) -> bool {
    0 <= x < hs.len() && 0 <= y < hs[0].len()
}

/// Whether step `d` from `(x, y)` climbs by one.
pub open spec fn climbs(hs: Heights, x: int, y: int, d: int) -> bool {
    on_map(hs, x + step_of(d).0, y + step_of(d).1) && hs[x + step_of(d).0][y + step_of(d).1] == hs[x][y]
        + 1
}

/// The positions one climbing step from `(x, y)`, among the first `d` steps.
pub open spec fn next_of(hs: Heights, x: int, y: int, d: int) -> Seq<(usize, usize)>
    decreases d,
{
    if d <= 0 {
        Seq::empty()
    } else if climbs(hs, x, y, d - 1) {
        next_of(hs, x, y, d - 1).push(
            ((x + step_of(d - 1).0) as usize, (y + step_of(d - 1).1) as usize),
        )
    } else {
        next_of(hs, x, y, d - 1)
    }
}

/// How far `(x, y)` lies below a peak.
pub open spec fn below(hs: Heights, x: int, y: int) -> int {
    if hs[x][y] >= PEAK {
        0
    } else {
        PEAK - hs[x][y]
    }
}

/// How many trails lead from `(x, y)` to a peak: one from a peak itself,
/// and otherwise as many as from the positions one climbing step away
/// together. Counted over the first `d` steps from `(x, y)`.
pub open spec fn trails(hs: Heights, x: int, y: int, d: int) -> nat
    decreases below(hs, x, y), d,
{
    if hs[x][y] == PEAK {
        1
    } else if d <= 0 || hs[x][y] > PEAK {
        0
    } else {
        trails(hs, x, y, d - 1) + if climbs(hs, x, y, d - 1) {
            trails(hs, x + step_of(d - 1).0, y + step_of(d - 1).1, 4)
        } else {
            0
        }
    }
}

/// The peaks that trails from `(x, y)` reach: a peak itself, and
/// otherwise what the positions one climbing step away reach.
pub open spec fn peaks(hs: Heights, x: int, y: int, d: int) -> Set<(usize, usize)>
    decreases below(hs, x, y), d,
{
    if hs[x][y] == PEAK {
        set![(x as usize, y as usize)]
    } else if d <= 0 || hs[x][y] > PEAK {
        Set::empty()
    } else {
        peaks(hs, x, y, d - 1).union(
            if climbs(hs, x, y, d - 1) {
                peaks(hs, x + step_of(d - 1).0, y + step_of(d - 1).1, 4)
            } else {
                Set::empty()
            },
        )
    }
}

/// Four to the power of `e`.
pub open spec fn pow4(e: int) -> int
    decreases e,
{
    if e <= 0 {
        1
    } else {
        4 * pow4(e - 1)
    }
}

/// No more than four to the power of the climb trails lead to a peak.
pub proof fn lemma_trails_bound(hs: Heights, x: int, y: int, d: int)
    requires
        0 <= d <= 4,
    ensures
        trails(hs, x, y, d) <= pow4(below(hs, x, y)),
        hs[x][y] < PEAK ==> 4 * trails(hs, x, y, d) <= d * pow4(below(hs, x, y)),
    decreases below(hs, x, y), d,
{
    if hs[x][y] == PEAK {
    } else if d <= 0 || hs[x][y] > PEAK {
        lemma_pow4_positive(below(hs, x, y));
    } else {
        lemma_trails_bound(hs, x, y, d - 1);
        if climbs(hs, x, y, d - 1) {
            lemma_trails_bound(hs, x + step_of(d - 1).0, y + step_of(d - 1).1, 4);
        }
        lemma_pow4_positive(below(hs, x, y));
        let p = pow4(below(hs, x, y));
        assert(4 * pow4(below(hs, x, y) - 1) == p);
        assert((d - 1) * p + p == d * p) by (nonlinear_arith);
        assert(d * p <= 4 * p) by (nonlinear_arith)
            requires
                d <= 4,
                p >= 0,
        ;
    }
}

/// A power of four is positive, and that of nine fits in 32 bits.
pub proof fn lemma_pow4_positive(e: int)
    ensures
        pow4(e) >= 1,
        e <= 9 ==> pow4(e) <= 262144,
    decreases e,
{
    if e > 0 {
        lemma_pow4_positive(e - 1);
    }
    assert(pow4(0) == 1);
    assert(pow4(1) == 4);
    assert(pow4(2) == 16);
    assert(pow4(3) == 64);
    assert(pow4(4) == 256);
    assert(pow4(5) == 1024);
    assert(pow4(6) == 4096);
    assert(pow4(7) == 16384);
    assert(pow4(8) == 65536);
    assert(pow4(9) == 262144);
}

/// The heights of the positions.
pub open spec fn heights_of(positions: Seq<Vec<Position>>) -> Heights {
    positions.map_values(|row: Vec<Position>| row@.map_values(|p: Position| p.height))
}

/// Whether what a position at `(x, y)` knows is true.
pub open spec fn known(p: Position, hs: Heights, x: int, y: int) -> bool {
    p.rating is Some ==> p.rating.unwrap() == trails(hs, x, y, 4) && p.reachable@.to_set() == peaks(
        hs,
        x,
        y,
        4,
    ) && p.reachable@.no_duplicates()
}

impl TopographicMap {
    /// The heights of the map, row by row.
    pub open spec fn heights(&self) -> Heights {
        heights_of(self.positions@)
    }

    /// Whether what is known at `(x, y)` is true: the rating is the number
    /// of trails, and the peaks listed, each once, are those that the
    /// trails reach.
    pub open spec fn known_at(&self, x: int, y: int) -> bool {
        known(self.positions[x][y], self.heights(), x, y)
    }

    /// A map is well formed when its rows are of one length, no position
    /// is higher than a peak, and what is known of its positions is true.
    pub open spec fn wf(&self) -> bool {
        &&& self.positions.len() > 0
        &&& forall|x: int, y: int|
            0 <= x < self.positions.len() && 0 <= y < self.positions[x].len() ==> (
            #[trigger] self.positions[x][y]).height <= PEAK
        &&& forall|x: int|
            0 <= x < self.positions.len() ==> (#[trigger] self.positions[x]).len() == self.positions[0].len()
        &&& forall|x: int, y: int|
            0 <= x < self.positions.len() && 0 <= y < self.positions[0].len() ==> #[trigger] self.known_at(
                x,
                y,
            )
    }

    /// The height at `(x, y)`.
    pub fn height(&self, x: usize, y: usize) -> (h: u32)
        requires
            x < self.positions.len(),
            y < self.positions[x as int].len(),
        ensures
            h == self.positions[x as int][y as int].height,
    {
        self.positions[x][y].height
    }

    /// The number of trails from `(x, y)`, if it has been worked out.
    pub fn rating(&self, x: usize, y: usize) -> (r: Option<u32>)
        requires
            x < self.positions.len(),
            y < self.positions[x as int].len(),
        ensures
            r == self.positions[x as int][y as int].rating,
    {
        self.positions[x][y].rating
    }

    /// The positions one climbing step from `curr`.
    pub fn next_positions(&self, curr: (usize, usize)) -> (next: Vec<(usize, usize)>)
        requires
            self.wf(),
            curr.0 < self.positions.len(),
            curr.1 < self.positions[0].len(),
        ensures
            next@ == next_of(self.heights(), curr.0 as int, curr.1 as int, 4),
            forall|i: int|
                0 <= i < next.len() ==> (#[trigger] next[i]).0 < self.positions.len() && next[i].1
                    < self.positions[0].len(),
    {
        let ghost hs = self.heights();
        let h = self.positions.len();
        let w = self.positions[0].len();
        let here = self.positions[curr.0][curr.1].height;
        assert(hs[curr.0 as int] == self.positions[curr.0 as int]@.map_values(|p: Position| p.height));
        assert(hs[0] == self.positions[0]@.map_values(|p: Position| p.height));
        let mut next: Vec<(usize, usize)> = Vec::new();
        let mut d: usize = 0;
        while d < 4
            invariant
                self.wf(),
                hs == self.heights(),
                h == self.positions.len(),
                w == self.positions[0].len(),
                w == hs[0].len(),
                curr.0 < h,
                curr.1 < w,
                here == hs[curr.0 as int][curr.1 as int],
                d <= 4,
                next@ == next_of(hs, curr.0 as int, curr.1 as int, d as int),
                forall|i: int| 0 <= i < next.len() ==> (#[trigger] next[i]).0 < h && next[i].1 < w,
            decreases 4 - d,
        {
            let (dx, dy): (i128, i128) = if d == 0 {
                (1, 0)
            } else if d == 1 {
                (-1, 0)
            } else if d == 2 {
                (0, 1)
            } else {
                (0, -1)
            };
            let x = curr.0 as i128 + dx;
            let y = curr.1 as i128 + dy;
            if !(x < 0 || x >= h as i128 || y < 0 || y >= w as i128) {
                let x = x as usize;
                let y = y as usize;
                assert(hs[x as int] == self.positions[x as int]@.map_values(|p: Position| p.height));
                if self.height(x, y) as u64 == here as u64 + 1 {
                    next.push((x, y));
                }
            }
            d += 1;
        }
        next
    }

    /// Works out what is known of `curr`: its rating and the peaks that
    /// its trails reach. What is already known is kept.
    pub fn update(&mut self, curr: (usize, usize))
        requires
            old(self).wf(),
            curr.0 < old(self).positions.len(),
            curr.1 < old(self).positions[0].len(),
        ensures
            final(self).wf(),
            final(self).heights() == old(self).heights(),
            final(self).positions.len() == old(self).positions.len(),
            final(self).positions[0].len() == old(self).positions[0].len(),
            final(self).positions[curr.0 as int][curr.1 as int].rating is Some,
            forall|a: int, b: int|
                0 <= a < final(self).positions.len() && 0 <= b < final(self).positions[0].len() && (
                #[trigger] final(self).positions[a][b]).rating is Some && old(self).positions[a][b].rating is None
                    ==> old(self).heights()[a][b] >= old(self).heights()[curr.0 as int][curr.1 as int],
            forall|a: int, b: int|
                0 <= a < final(self).positions.len() && 0 <= b < final(self).positions[0].len()
                    && old(self).positions[a][b].rating is Some ==> #[trigger] final(self).positions[a][b]
                    == old(self).positions[a][b],
        decreases below(old(self).heights(), curr.0 as int, curr.1 as int),
    {
        let ghost hs = self.heights();
        let ghost x = curr.0 as int;
        let ghost y = curr.1 as int;
        assert(hs[x] == self.positions[x]@.map_values(|p: Position| p.height));
        assert(self.known_at(x, y));
        if self.positions[curr.0][curr.1].rating.is_some() {
            return ;
        }
        let mut rating: u32 = 0;
        let mut reachable: Vec<(usize, usize)> = Vec::new();
        if self.positions[curr.0][curr.1].height == 9 {
            reachable.push(curr);
            rating = 1;
            assert(reachable@[0] == curr);
            assert(reachable@.to_set() =~= set![curr]);
        } else {
            let next = self.next_positions(curr);
            let ghost here = hs[x][y];
            let mut k: usize = 0;
            let mut d: Ghost<int> = Ghost(0);
            assert(reachable@.to_set() =~= Set::<(usize, usize)>::empty());
            proof {
                lemma_covered(hs, x, y, 0, next@.len() as int);
                if next.len() == 0 {
                    lemma_none_climb(hs, x, y, 4);
                    d@ = 4;
                }
            }
            while k < next.len()
                invariant
                    self.wf(),
                    self.heights() == hs,
                    self.positions.len() == old(self).positions.len(),
                    self.positions[0].len() == old(self).positions[0].len(),
                    curr.0 < self.positions.len(),
                    curr.1 < self.positions[0].len(),
                    x == curr.0,
                    y == curr.1,
                    here == hs[x][y],
                    here < PEAK,
                    self.positions[x][y].rating is None,
                    forall|a: int, b: int|
                        0 <= a < self.positions.len() && 0 <= b < self.positions[0].len() && (
                        #[trigger] self.positions[a][b]).rating is Some && old(self).positions[a][b].rating is None
                            ==> hs[a][b] > here,
                    hs == old(self).heights(),
                    forall|a: int, b: int|
                        0 <= a < self.positions.len() && 0 <= b < self.positions[0].len()
                            && old(self).positions[a][b].rating is Some ==> #[trigger] self.positions[a][b]
                            == old(self).positions[a][b],
                    next@ == next_of(hs, x, y, 4),
                    forall|i: int|
                        0 <= i < next.len() ==> (#[trigger] next[i]).0 < self.positions.len() && next[i].1
                            < self.positions[0].len(),
                    k <= next.len(),
                    0 <= d@ <= 4,
                    next_of(hs, x, y, d@).len() == k,
                    k == next.len() ==> d@ == 4,
                    rating == trails(hs, x, y, d@),
                    reachable@.to_set() == peaks(hs, x, y, d@),
                    reachable@.no_duplicates(),
                decreases next.len() - k,
            {
                let n = next[k];
                proof {
                    let e = lemma_next_step(hs, x, y, d@, k as int);
                    assert(next[k as int] == ((x + step_of(e).0) as usize, (y + step_of(e).1) as usize));
                    assert(hs[n.0 as int][n.1 as int] == here + 1);
                    d@ = e + 1;
                    lemma_trails_bound(hs, x, y, e + 1);
                    lemma_pow4_positive(below(hs, x, y));
                    lemma_covered(hs, x, y, e + 1, next@.len() as int);
                }
                self.update(n);
                assert(self.known_at(n.0 as int, n.1 as int));
                let seen = &self.positions[n.0][n.1];
                rating = rating + seen.rating.unwrap();
                add_unique(&mut reachable, &seen.reachable);
                assert(reachable@.to_set() =~= peaks(hs, x, y, d@));
                k += 1;
                proof {
                    if k == next.len() {
                        lemma_rest(hs, x, y, d@);
                        d@ = 4;
                    }
                }
            }
        }
        let ghost before = self.positions@;
        assert(self.wf());
        assert forall|a: int, b: int| 0 <= a < before.len() && 0 <= b < before[0].len() implies known(
            #[trigger] before[a][b],
            hs,
            a,
            b,
        ) by {
            assert(self.known_at(a, b));
        }
        self.positions[curr.0][curr.1].rating = Some(rating);
        self.positions[curr.0][curr.1].reachable = reachable;
        proof {
            assert(self.heights() =~= hs) by {
                assert forall|i: int| 0 <= i < hs.len() implies #[trigger] self.heights()[i] =~= hs[i] by {
                    assert(hs[i] == before[i]@.map_values(|p: Position| p.height));
                    assert(self.heights()[i] == self.positions[i]@.map_values(|p: Position| p.height));
                }
            }
            assert forall|a: int, b: int|
                0 <= a < self.positions.len() && 0 <= b < self.positions[0].len() implies #[trigger] self.known_at(
                a,
                b,
            ) by {
                if a == x && b == y {
                } else {
                    assert(self.positions[a][b] == before[a][b]);
                    assert(known(before[a][b], hs, a, b));
                }
            }
        }
    }

    /// Reads a map from rows of digits. Fails where a character is no digit.
    pub fn try_from(input: &str) -> (res: Result<Self, &'static str>)
        ensures
            res is Ok <==> all_digits(text::lines_of(input@)),
            res is Ok ==> ({
                let rows = text::lines_of(input@);
                let map = res->Ok_0;
                &&& map.positions.len() == rows.len()
                &&& forall|x: int| 0 <= x < rows.len() ==> (#[trigger] map.positions[x]).len() == rows[x].len()
                &&& forall|x: int, y: int|
                    0 <= x < rows.len() && 0 <= y < rows[x].len() ==> (#[trigger] map.positions[x][y]).height
                        == text::digit_value(rows[x][y]) && map.positions[x][y].rating is None
                        && map.positions[x][y].reachable.len() == 0
            }),
    {
        let all = text::chars(input);
        let lines = text::lines(&all);
        let ghost rows = text::lines_of(input@);
        let mut positions: Vec<Vec<Position>> = Vec::new();
        let mut x: usize = 0;
        while x < lines.len()
            invariant
                rows == text::views(lines@),
                rows == text::lines_of(input@),
                x <= lines.len(),
                positions.len() == x,
                forall|i: int| 0 <= i < x ==> (#[trigger] positions[i]).len() == rows[i].len(),
                forall|i: int, j: int|
                    0 <= i < x && 0 <= j < rows[i].len() ==> text::is_digit(#[trigger] rows[i][j]),
                forall|i: int, j: int|
                    0 <= i < x && 0 <= j < rows[i].len() ==> (#[trigger] positions[i][j]).height
                        == text::digit_value(rows[i][j]) && positions[i][j].rating is None
                        && positions[i][j].reachable.len() == 0,
            decreases lines.len() - x,
        {
            assert(rows[x as int] == lines[x as int]@);
            let mut row: Vec<Position> = Vec::new();
            let mut y: usize = 0;
            while y < lines[x].len()
                invariant
                    rows == text::views(lines@),
                    rows == text::lines_of(input@),
                    x < lines.len(),
                    rows[x as int] == lines[x as int]@,
                    y <= lines[x as int].len(),
                    row.len() == y,
                    forall|j: int| 0 <= j < y ==> text::is_digit(#[trigger] rows[x as int][j]),
                    forall|j: int|
                        0 <= j < y ==> (#[trigger] row[j]).height == text::digit_value(rows[x as int][j])
                            && row[j].rating is None && row[j].reachable.len() == 0,
                decreases lines[x as int].len() - y,
            {
                let c = lines[x][y];
                if !('0' <= c && c <= '9') {
                    assert(!text::is_digit(rows[x as int][y as int]));
                    return Err("the map holds something that is no digit");
                }
                row.push(Position { height: c as u32 - '0' as u32, rating: None, reachable: Vec::new() });
                y += 1;
            }
            positions.push(row);
            x += 1;
        }
        Ok(TopographicMap { positions })
    }
}

/// Whether every character of every row is a digit.
pub open spec fn all_digits(rows: Seq<Seq<char>>) -> bool {
    forall|x: int, y: int| 0 <= x < rows.len() && 0 <= y < rows[x].len() ==> text::is_digit(#[trigger] rows[x][y])
}

/// The list of next positions grows by at most one with each step tried.
pub proof fn lemma_covered(hs: Heights, x: int, y: int, d: int, n: int)
    requires
        0 <= d <= 4,
    ensures
        next_of(hs, x, y, d).len() <= d,
        next_of(hs, x, y, d).len() <= next_of(hs, x, y, 4).len(),
    decreases 4 - d,
{
    lemma_next_len(hs, x, y, d);
    if d < 4 {
        lemma_covered(hs, x, y, d + 1, n);
    }
}

/// No more positions are listed than steps are tried.
pub proof fn lemma_next_len(hs: Heights, x: int, y: int, d: int)
    requires
        0 <= d,
    ensures
        next_of(hs, x, y, d).len() <= d,
    decreases d,
{
    if d > 0 {
        lemma_next_len(hs, x, y, d - 1);
    }
}

/// Where no step is listed, no step climbs: no trail, no peak.
pub proof fn lemma_none_climb(hs: Heights, x: int, y: int, d: int)
    requires
        0 <= d <= 4,
        next_of(hs, x, y, d).len() == 0,
        hs[x][y] != PEAK,
    ensures
        trails(hs, x, y, d) == 0,
        peaks(hs, x, y, d) =~= Set::<(usize, usize)>::empty(),
    decreases d,
{
    if d > 0 && hs[x][y] < PEAK {
        lemma_next_len(hs, x, y, d - 1);
        lemma_none_climb(hs, x, y, d - 1);
    }
}

/// The step that lists entry `k`: the first climbing step at or after
/// `d`, where the steps before `d` list `k` entries. The steps between
/// add no trail and no peak.
pub proof fn lemma_next_step(hs: Heights, x: int, y: int, d: int, k: int) -> (e: int)
    requires
        0 <= d <= 4,
        next_of(hs, x, y, d).len() == k,
        k < next_of(hs, x, y, 4).len(),
    ensures
        d <= e < 4,
        climbs(hs, x, y, e),
        next_of(hs, x, y, e).len() == k,
        next_of(hs, x, y, e + 1).len() == k + 1,
        next_of(hs, x, y, 4)[k] == ((x + step_of(e).0) as usize, (y + step_of(e).1) as usize),
        hs[x][y] < PEAK ==> trails(hs, x, y, e) == trails(hs, x, y, d),
        hs[x][y] < PEAK ==> peaks(hs, x, y, e) == peaks(hs, x, y, d),
    decreases 4 - d,
{
    if d >= 4 {
        arbitrary()
    } else if climbs(hs, x, y, d) {
        lemma_prefix(hs, x, y, d + 1, 4);
        d
    } else {
        let e = lemma_next_step(hs, x, y, d + 1, k);
        if hs[x][y] < PEAK {
            assert(trails(hs, x, y, d + 1) == trails(hs, x, y, d));
            assert(peaks(hs, x, y, d + 1) =~= peaks(hs, x, y, d));
        }
        e
    }
}

/// Once every next position is listed, the steps that are left add no
/// trail and no peak.
pub proof fn lemma_rest(hs: Heights, x: int, y: int, d: int)
    requires
        0 <= d <= 4,
        next_of(hs, x, y, d).len() == next_of(hs, x, y, 4).len(),
        hs[x][y] < PEAK,
    ensures
        trails(hs, x, y, 4) == trails(hs, x, y, d),
        peaks(hs, x, y, 4) == peaks(hs, x, y, d),
    decreases 4 - d,
{
    if d < 4 {
        lemma_prefix(hs, x, y, d + 1, 4);
        assert(!climbs(hs, x, y, d));
        assert(trails(hs, x, y, d + 1) == trails(hs, x, y, d));
        assert(peaks(hs, x, y, d + 1) =~= peaks(hs, x, y, d));
        lemma_rest(hs, x, y, d + 1);
    }
}

/// What the first steps list stands at the front of what more steps list.
pub proof fn lemma_prefix(hs: Heights, x: int, y: int, d: int, e: int)
    requires
        0 <= d <= e,
    ensures
        next_of(hs, x, y, d).len() <= next_of(hs, x, y, e).len(),
        forall|i: int|
            0 <= i < next_of(hs, x, y, d).len() ==> #[trigger] next_of(hs, x, y, e)[i] == next_of(
                hs,
                x,
                y,
                d,
            )[i],
    decreases e - d,
{
    if d < e {
        lemma_prefix(hs, x, y, d, e - 1);
    }
}

impl TopographicMap {
    /// Works out what is known of every position.
    pub fn update_all(&mut self)
        requires
            old(self).wf(),
        ensures
            final(self).wf(),
            final(self).heights() == old(self).heights(),
            forall|x: int, y: int|
                0 <= x < final(self).positions.len() && 0 <= y < final(self).positions[0].len() ==> (
                #[trigger] final(self).positions[x][y]).rating is Some,
    {
        let h = self.positions.len();
        let w = self.positions[0].len();
        let mut x: usize = 0;
        while x < h
            invariant
                self.wf(),
                self.heights() == old(self).heights(),
                h == self.positions.len(),
                w == self.positions[0].len(),
                x <= h,
                forall|a: int, b: int|
                    0 <= a < x && 0 <= b < w ==> (#[trigger] self.positions[a][b]).rating is Some,
            decreases h - x,
        {
            let mut y: usize = 0;
            while y < w
                invariant
                    self.wf(),
                    self.heights() == old(self).heights(),
                    h == self.positions.len(),
                    w == self.positions[0].len(),
                    x < h,
                    y <= w,
                    forall|a: int, b: int|
                        0 <= a < h && 0 <= b < w && (a < x || (a == x && b < y)) ==> (
                        #[trigger] self.positions[a][b]).rating is Some,
                decreases w - y,
            {
                let ghost before = self.positions@;
                self.update((x, y));
                proof {
                    assert forall|a: int, b: int|
                        0 <= a < h && 0 <= b < w && (a < x || (a == x && b < y + 1)) implies (
                    #[trigger] self.positions[a][b]).rating is Some by {
                        if a == x && b == y {
                        } else {
                            assert(before[a][b].rating is Some);
                        }
                    }
                }
                y += 1;
            }
            x += 1;
        }
    }

    /// The number of peaks that the trails from each trailhead reach, and
    /// the number of trails from each trailhead, both summed over the
    /// trailheads. Every position must be worked out. Returns `None`
    /// where a sum is no integer of 128 bits.
    pub fn sums(&self) -> (res: Option<(u128, u128)>)
        requires
            self.wf(),
            forall|x: int, y: int|
                0 <= x < self.positions.len() && 0 <= y < self.positions[0].len() ==> (
                #[trigger] self.positions[x][y]).rating is Some,
        ensures
            res is Some <==> scores_in(self.positions@, self.positions.len() as int) <= u128::MAX && ratings_in(
                self.positions@,
                self.positions.len() as int,
            ) <= u128::MAX,
            res is Some ==> res.unwrap().0 == scores_in(self.positions@, self.positions.len() as int)
                && res.unwrap().1 == ratings_in(self.positions@, self.positions.len() as int),
    {
        let h = self.positions.len();
        let w = self.positions[0].len();
        let mut scores: u128 = 0;
        let mut ratings: u128 = 0;
        let mut x: usize = 0;
        while x < h
            invariant
                self.wf(),
                h == self.positions.len(),
                w == self.positions[0].len(),
                x <= h,
                forall|a: int, b: int|
                    0 <= a < h && 0 <= b < w ==> (#[trigger] self.positions[a][b]).rating is Some,
                scores == scores_in(self.positions@, x as int),
                ratings == ratings_in(self.positions@, x as int),
            decreases h - x,
        {
            let mut y: usize = 0;
            proof {
                lemma_sums_grow(self.positions@, x + 1, h as int);
            }
            while y < w
                invariant
                    self.wf(),
                    h == self.positions.len(),
                    w == self.positions[0].len(),
                    x < h,
                    y <= w,
                    forall|a: int, b: int|
                        0 <= a < h && 0 <= b < w ==> (#[trigger] self.positions[a][b]).rating is Some,
                    scores == scores_in(self.positions@, x as int) + row_score(self.positions[x as int]@, y as int),
                    ratings == ratings_in(self.positions@, x as int) + row_rating(
                        self.positions[x as int]@,
                        y as int,
                    ),
                    scores_in(self.positions@, x + 1) <= scores_in(self.positions@, h as int),
                    ratings_in(self.positions@, x + 1) <= ratings_in(self.positions@, h as int),
                decreases w - y,
            {
                let p = &self.positions[x][y];
                assert(self.positions[x as int][y as int].rating is Some);
                proof {
                    lemma_row_sums_grow(self.positions[x as int]@, y + 1, w as int);
                }
                if p.is_trailhead() {
                    scores = match scores.checked_add(p.reachable.len() as u128) {
                        Some(t) => t,
                        None => {
                            return None;
                        },
                    };
                    ratings = match ratings.checked_add(p.rating.unwrap() as u128) {
                        Some(t) => t,
                        None => {
                            return None;
                        },
                    };
                }
                y += 1;
            }
            x += 1;
        }
        Some((scores, ratings))
    }
}

/// With more positions of a row, its sums are no less.
pub proof fn lemma_row_sums_grow(row: Seq<Position>, m: int, n: int)
    requires
        m <= n,
    ensures
        row_score(row, m) <= row_score(row, n),
        row_rating(row, m) <= row_rating(row, n),
    decreases n - m,
{
    if m < n {
        lemma_row_sums_grow(row, m, n - 1);
    }
}

/// With more rows, the sums are no less.
pub proof fn lemma_sums_grow(positions: Seq<Vec<Position>>, m: int, n: int)
    requires
        m <= n,
    ensures
        scores_in(positions, m) <= scores_in(positions, n),
        ratings_in(positions, m) <= ratings_in(positions, n),
    decreases n - m,
{
    if m < n {
        lemma_sums_grow(positions, m, n - 1);
        lemma_row_sums_grow(positions[n - 1]@, 0, positions[0].len() as int);
    }
}

/// The scores of the trailheads among the first `n` positions of a row.
pub open spec fn row_score(row: Seq<Position>, n: int) -> int
    decreases n,
{
    if n <= 0 {
        0
    } else {
        row_score(row, n - 1) + if row[n - 1].height == 0 {
            row[n - 1].reachable.len() as int
        } else {
            0int
        }
    }
}

/// The ratings of the trailheads among the first `n` positions of a row.
pub open spec fn row_rating(row: Seq<Position>, n: int) -> int
    decreases n,
{
    if n <= 0 {
        0
    } else {
        row_rating(row, n - 1) + if row[n - 1].height == 0 && row[n - 1].rating is Some {
            row[n - 1].rating.unwrap() as int
        } else {
            0int
        }
    }
}

/// The scores of the trailheads in the first `n` rows.
pub open spec fn scores_in(positions: Seq<Vec<Position>>, n: int) -> int
    decreases n,
{
    if n <= 0 {
        0
    } else {
        scores_in(positions, n - 1) + row_score(positions[n - 1]@, positions[0].len() as int)
    }
}

/// The ratings of the trailheads in the first `n` rows.
pub open spec fn ratings_in(positions: Seq<Vec<Position>>, n: int) -> int
    decreases n,
{
    if n <= 0 {
        0
    } else {
        ratings_in(positions, n - 1) + row_rating(positions[n - 1]@, positions[0].len() as int)
    }
}

} // verus!
