//! A square memory in which bytes fall and block the way from one corner to
//! the other.

use crate::grid::{
    cells_of, distances, distances_from, lemma_distance_iff_reachable, lemma_distance_is_shortest,
    lemma_more_open_reaches_more, open_cell, reachable, steps_to, table_of, Cells,
};
use crate::text;
use vstd::prelude::*;

verus! {

/// A byte of the memory: safe to step on, or corrupted.
#[derive(Clone, Copy, PartialEq, Eq, Structural, Debug)]
pub enum Byte {
    Safe,
    Corrupted,
}

/// A memory of `N` rows of `N` bytes.
pub struct Ram<const N: usize>(pub Vec<Vec<Byte>>);

/// The bytes as rows.
pub open spec fn bytes_of(rows: Seq<Vec<Byte>>) -> Seq<Seq<Byte>> {
    rows.map_values(|row: Vec<Byte>| row@)
}

/// The cells that can be entered: the safe bytes.
pub open spec fn safe_cells(bytes: Seq<Seq<Byte>>) -> Cells {
    bytes.map_values(|row: Seq<Byte>| row.map_values(|b: Byte| b == Byte::Safe))
}

/// The memory as text: a dot for a safe byte, a hash for a corrupted one,
/// and a line feed after each row.
pub open spec fn render(bytes: Seq<Seq<Byte>>, n: int) -> Seq<char>
    decreases n,
{
    if n <= 0 {
        Seq::empty()
    } else {
        render(bytes, n - 1) + bytes[n - 1].map_values(
            |b: Byte|
                if b == Byte::Safe {
                    '.'
                } else {
                    '#'
                },
        ).push('\n')
    }
}

impl<const N: usize> Ram<N> {
    /// The bytes of the memory.
    pub open spec fn bytes(&self) -> Seq<Seq<Byte>> {
        bytes_of(self.0@)
    }

    /// A memory is well formed when it has `N` rows of `N` bytes.
    pub open spec fn wf(&self) -> bool {
        &&& self.0.len() == N
        &&& forall|y: int| 0 <= y < N ==> (#[trigger] self.0[y]).len() == N
    }

    /// A memory in which every byte is safe.
    pub fn new() -> (ram: Self)
        ensures
            ram.wf(),
            forall|y: int, x: int| 0 <= y < N && 0 <= x < N ==> #[trigger] ram.bytes()[y][x] == Byte::Safe,
    {
        let mut rows: Vec<Vec<Byte>> = Vec::new();
        let mut y: usize = 0;
        while y < N
            invariant
                y <= N,
                rows.len() == y,
                forall|i: int| 0 <= i < y ==> (#[trigger] rows[i]).len() == N,
                forall|i: int, j: int| 0 <= i < y && 0 <= j < N ==> #[trigger] rows[i][j] == Byte::Safe,
            decreases N - y,
        {
            let mut row: Vec<Byte> = Vec::new();
            let mut x: usize = 0;
            while x < N
                invariant
                    x <= N,
                    row.len() == x,
                    forall|j: int| 0 <= j < x ==> #[trigger] row[j] == Byte::Safe,
                decreases N - x,
            {
                row.push(Byte::Safe);
                x += 1;
            }
            rows.push(row);
            y += 1;
        }
        let ram = Ram(rows);
        assert forall|y: int, x: int| 0 <= y < N && 0 <= x < N implies #[trigger] ram.bytes()[y][x]
            == Byte::Safe by {
            assert(ram.bytes()[y] == ram.0[y]@);
        }
        ram
    }

    /// The length of a side of the memory.
    pub fn capacity(&self) -> (n: usize)
        ensures
            n == N,
    {
        N
    }

    /// Corrupts the byte at row `y` and column `x`.
    pub fn corrupt(&mut self, y: usize, x: usize)
        requires
            old(self).wf(),
            y < N,
            x < N,
        ensures
            final(self).wf(),
            final(self).bytes() == old(self).bytes().update(
                y as int,
                old(self).bytes()[y as int].update(x as int, Byte::Corrupted),
            ),
    {
        self.0[y][x] = Byte::Corrupted;
        assert(self.bytes() =~= old(self).bytes().update(
            y as int,
            old(self).bytes()[y as int].update(x as int, Byte::Corrupted),
        ));
    }

    /// Finds the number of steps from the top left corner to every byte
    /// that can be reached over safe bytes.
    pub fn bfs(&self) -> (dist: Vec<Vec<Option<usize>>>)
        requires
            self.wf(),
            N >= 1,
            N * N <= usize::MAX,
        ensures
            distances_from(safe_cells(self.bytes()), (0, 0), table_of(dist@)),
    {
        let mut open: Vec<Vec<bool>> = Vec::new();
        let ghost cells = safe_cells(self.bytes());
        let mut y: usize = 0;
        while y < N
            invariant
                self.wf(),
                cells == safe_cells(self.bytes()),
                y <= N,
                open.len() == y,
                forall|i: int| 0 <= i < y ==> (#[trigger] open[i])@ == cells[i],
            decreases N - y,
        {
            let mut row: Vec<bool> = Vec::new();
            let mut x: usize = 0;
            assert(self.bytes()[y as int] == self.0[y as int]@);
            while x < N
                invariant
                    self.wf(),
                    cells == safe_cells(self.bytes()),
                    y < N,
                    x <= N,
                    row.len() == x,
                    self.bytes()[y as int] == self.0[y as int]@,
                    forall|j: int| 0 <= j < x ==> #[trigger] row[j] == cells[y as int][j],
                decreases N - x,
            {
                row.push(self.0[y][x] == Byte::Safe);
                x += 1;
            }
            assert(row@ =~= cells[y as int]);
            open.push(row);
            y += 1;
        }
        assert(cells_of(open@) =~= cells);
        assert forall|i: int| 0 <= i < cells.len() implies (#[trigger] cells[i]).len() == N by {
            assert(self.bytes()[i] == self.0[i]@);
        }
        distances(&open, N, (0, 0))
    }

    /// The memory as text, one line for each row.
    pub fn to_string(&self) -> (s: String)
        requires
            self.wf(),
        ensures
            s@ == render(self.bytes(), N as int),
    {
        let mut out: Vec<char> = Vec::new();
        let ghost bytes = self.bytes();
        let mut y: usize = 0;
        while y < N
            invariant
                self.wf(),
                bytes == self.bytes(),
                y <= N,
                out@ == render(bytes, y as int),
            decreases N - y,
        {
            let ghost before = out@;
            let ghost line = bytes[y as int].map_values(
                |b: Byte|
                    if b == Byte::Safe {
                        '.'
                    } else {
                        '#'
                    },
            );
            assert(bytes[y as int] == self.0[y as int]@);
            let mut x: usize = 0;
            while x < N
                invariant
                    self.wf(),
                    bytes == self.bytes(),
                    y < N,
                    x <= N,
                    bytes[y as int] == self.0[y as int]@,
                    line == bytes[y as int].map_values(
                        |b: Byte|
                            if b == Byte::Safe {
                                '.'
                            } else {
                                '#'
                            },
                    ),
                    out@ == before + line.take(x as int),
                decreases N - x,
            {
                let c = match self.0[y][x] {
                    Byte::Safe => '.',
                    Byte::Corrupted => '#',
                };
                out.push(c);
                assert(out@ =~= before + line.take(x + 1));
                x += 1;
            }
            out.push('\n');
            assert(out@ =~= before + line.push('\n'));
            y += 1;
        }
        text::string_of(&out)
    }
}

/// Whether one of the first `k` bytes fell on `(y, x)`.
pub open spec fn hit(bytes: Seq<(usize, usize)>, k: int, y: int, x: int) -> bool {
    exists|i: int| 0 <= i < k && (#[trigger] bytes[i]).0 == y && bytes[i].1 == x
}

/// The memory of side `n` after the first `k` bytes have fallen.
pub open spec fn fallen(bytes: Seq<(usize, usize)>, k: int, n: int) -> Seq<Seq<Byte>> {
    Seq::new(
        n as nat,
        |y: int|
            Seq::new(
                n as nat,
                |x: int|
                    if hit(bytes, k, y, x) {
                        Byte::Corrupted
                    } else {
                        Byte::Safe
                    },
            ),
    )
}

/// Whether the far corner of a memory can be reached from the near one:
/// a walk over safe bytes leads there.
pub open spec fn open_way(bytes: Seq<Seq<Byte>>, n: int) -> bool {
    reachable(safe_cells(bytes), (0, 0), n - 1, n - 1)
}

/// The byte that a line such as `5,4` names: its row, which the line
/// gives last, and its column.
pub open spec fn byte_of(line: Seq<char>) -> Option<(usize, usize)> {
    let parts = text::split_on(line, ',');
    if parts.len() < 2 {
        None
    } else {
        match (text::natural_of(parts[1]), text::natural_of(parts[0])) {
            (Some(y), Some(x)) => if y <= usize::MAX && x <= usize::MAX {
                Some((y as usize, x as usize))
            } else {
                None
            },
            _ => None,
        }
    }
}

/// Reads the byte that a line names.
pub fn parse_byte(line: &str) -> (res: Option<(usize, usize)>)
    ensures
        res == byte_of(line@),
{
    let all = text::chars(line);
    let parts = text::split(&all, ',');
    if parts.len() < 2 {
        return None;
    }
    assert(text::views(parts@)[0] == parts[0]@);
    assert(text::views(parts@)[1] == parts[1]@);
    match (text::parse_u64(&parts[1]), text::parse_u64(&parts[0])) {
        (Some(y), Some(x)) => {
            if y > usize::MAX as u64 || x > usize::MAX as u64 {
                None
            } else {
                Some((y as usize, x as usize))
            }
        },
        _ => None,
    }
}

/// The memory after the first `k` bytes have fallen.
pub fn after<const N: usize>(bytes: &Vec<(usize, usize)>, k: usize) -> (ram: Ram<N>)
    requires
        k <= bytes.len(),
        forall|i: int| 0 <= i < bytes.len() ==> (#[trigger] bytes[i]).0 < N && bytes[i].1 < N,
    ensures
        ram.wf(),
        ram.bytes() == fallen(bytes@, k as int, N as int),
{
    let mut ram: Ram<N> = Ram::new();
    assert(ram.bytes() =~= fallen(bytes@, 0, N as int)) by {
        assert forall|y: int| 0 <= y < N implies #[trigger] ram.bytes()[y] =~= fallen(bytes@, 0, N as int)[y] by {
            assert(ram.bytes()[y] == ram.0[y]@);
        }
    }
    let mut i: usize = 0;
    while i < k
        invariant
            i <= k <= bytes.len(),
            forall|j: int| 0 <= j < bytes.len() ==> (#[trigger] bytes[j]).0 < N && bytes[j].1 < N,
            ram.wf(),
            ram.bytes() == fallen(bytes@, i as int, N as int),
        decreases k - i,
    {
        let (y, x) = bytes[i];
        ram.corrupt(y, x);
        proof {
            let now = ram.bytes();
            let want = fallen(bytes@, i + 1, N as int);
            assert forall|a: int, b: int| 0 <= a < N && 0 <= b < N implies #[trigger] now[a][b] == want[a][b] by {
                if hit(bytes@, i as int, a, b) {
                    let j = choose|j: int| 0 <= j < i && (#[trigger] bytes@[j]).0 == a && bytes@[j].1 == b;
                    assert(bytes@[j].0 == a);
                }
                if a == y && b == x {
                    assert(bytes@[i as int].0 == a);
                }
                if hit(bytes@, i + 1, a, b) {
                    let j = choose|j: int| 0 <= j < i + 1 && (#[trigger] bytes@[j]).0 == a && bytes@[j].1 == b;
                    if j < i {
                        assert(hit(bytes@, i as int, a, b));
                    }
                }
            }
            assert forall|a: int| 0 <= a < N implies #[trigger] now[a] =~= want[a] by {
                assert(now[a] == ram.0[a]@);
            }
            assert(now =~= want);
        }
        i += 1;
    }
    ram
}

impl<const N: usize> Ram<N> {
    /// The number of steps of the shortest walks to the far corner, if it
    /// can be reached.
    pub fn exit_distance(&self) -> (d: Option<usize>)
        requires
            self.wf(),
            N >= 1,
            N * N <= usize::MAX,
        ensures
            d is Some <==> open_way(self.bytes(), N as int),
            d is Some ==> steps_to(safe_cells(self.bytes()), (0, 0), N - 1, N - 1, d.unwrap() as int),
            d is Some ==> exists|dist: Seq<Seq<Option<usize>>>| #[trigger]
                distances_from(safe_cells(self.bytes()), (0, 0), dist) && dist[N - 1][N - 1] == d,
    {
        let dist = self.bfs();
        let ghost table = table_of(dist@);
        assert(table[N - 1] == dist[N - 1]@);
        assert(safe_cells(self.bytes())[N - 1].len() == N) by {
            assert(self.bytes()[N - 1] == self.0[N - 1]@);
        }
        assert(safe_cells(self.bytes())[0].len() == N) by {
            assert(self.bytes()[0] == self.0[0]@);
        }
        let d = dist[N - 1][N - 1];
        proof {
            lemma_distance_iff_reachable(safe_cells(self.bytes()), (0, 0), table, N - 1, N - 1);
            if d is Some {
                lemma_distance_is_shortest(safe_cells(self.bytes()), (0, 0), table, N - 1, N - 1);
                assert(distances_from(safe_cells(self.bytes()), (0, 0), table) && table[N - 1][N - 1] == d);
            }
        }
        d
    }
}

/// Whether the way to the far corner is open once the first `k` bytes
/// have fallen.
pub open spec fn way_after(bytes: Seq<(usize, usize)>, k: int, n: int) -> bool {
    open_way(fallen(bytes, k, n), n)
}

/// A way that is open after some bytes have fallen was open before the
/// last of them fell.
pub proof fn lemma_way_closes_for_good(bytes: Seq<(usize, usize)>, j: int, k: int, n: int)
    requires
        j <= k,
        way_after(bytes, k, n),
    ensures
        way_after(bytes, j, n),
{
    let fewer = safe_cells(fallen(bytes, k, n));
    let more = safe_cells(fallen(bytes, j, n));
    assert forall|a: int, b: int| open_cell(fewer, a, b) implies #[trigger] open_cell(more, a, b) by {
        assert(fewer[a] == fallen(bytes, k, n)[a].map_values(|b: Byte| b == Byte::Safe));
        assert(more[a] == fallen(bytes, j, n)[a].map_values(|b: Byte| b == Byte::Safe));
        if hit(bytes, j, a, b) {
            let i = choose|i: int| 0 <= i < j && (#[trigger] bytes[i]).0 == a && bytes[i].1 == b;
            assert(hit(bytes, k, a, b));
        }
    }
    lemma_more_open_reaches_more(fewer, more, (0, 0), n - 1, n - 1);
}

/// Finds, by halving, the number of fallen bytes at which the way to the
/// far corner closes: with fewer bytes the way is open, and with this
/// many or more it is closed. Where the way stays open until the last
/// byte but one has fallen, that number is the number of all bytes.
pub fn closing_point<const N: usize>(bytes: &Vec<(usize, usize)>) -> (p: usize)
    requires
        N >= 1,
        N * N <= usize::MAX,
        forall|i: int| 0 <= i < bytes.len() ==> (#[trigger] bytes[i]).0 < N && bytes[i].1 < N,
    ensures
        p <= bytes.len(),
        forall|k: int| 0 <= k < p ==> #[trigger] way_after(bytes@, k, N as int),
        forall|k: int| p <= k < bytes.len() ==> !#[trigger] way_after(bytes@, k, N as int),
{
    let mut lo: usize = 0;
    let mut hi: usize = bytes.len();
    while lo < hi
        invariant
            N >= 1,
            N * N <= usize::MAX,
            forall|i: int| 0 <= i < bytes.len() ==> (#[trigger] bytes[i]).0 < N && bytes[i].1 < N,
            lo <= hi <= bytes.len(),
            lo > 0 ==> way_after(bytes@, lo - 1, N as int),
            hi < bytes.len() ==> !way_after(bytes@, hi as int, N as int),
        decreases hi - lo,
    {
        let mid = lo + (hi - lo) / 2;
        let ram: Ram<N> = after(bytes, mid);
        if ram.exit_distance().is_some() {
            lo = mid + 1;
        } else {
            hi = mid;
        }
    }
    proof {
        assert forall|k: int| 0 <= k < lo implies #[trigger] way_after(bytes@, k, N as int) by {
            lemma_way_closes_for_good(bytes@, k, lo - 1, N as int);
        }
        assert forall|k: int| lo <= k < bytes.len() implies !#[trigger] way_after(bytes@, k, N as int) by {
            if way_after(bytes@, k, N as int) {
                lemma_way_closes_for_good(bytes@, lo as int, k, N as int);
            }
        }
    }
    lo
}

} // verus!
