//! A word search for `XMAS` in eight directions, and for crosses of `MAS`.

use vstd::prelude::*;

verus! {

/// The letters of the puzzle as rows.
pub open spec fn letters_of(puzzle: Seq<Vec<char>>) -> Seq<Seq<char>> {
    puzzle.map_values(|row: Vec<char>| row@)
}

/// Whether every row is as long as the first.
pub open spec fn even(letters: Seq<Seq<char>>) -> bool {
    forall|y: int| 0 <= y < letters.len() ==> (#[trigger] letters[y]).len() == letters[0].len()
}

/// Whether `(row, col)` lies in the puzzle.
pub open spec fn within(letters: Seq<Seq<char>>, row: int, col: int) -> bool {
    0 <= row < letters.len() && 0 <= col < letters[0].len()
}

/// Whether the puzzle shows `c` at `(row, col)`.
pub open spec fn shows(letters: Seq<Seq<char>>, row: int, col: int, c: char) -> bool {
    within(letters, row, col) && letters[row][col] == c
}

/// Whether `XMAS` is spelled from `src` in the direction `dir`.
pub open spec fn spells(letters: Seq<Seq<char>>, src: (usize, usize), dir: (i32, i32)) -> bool {
    &&& shows(letters, src.0 as int, src.1 as int, 'X')
    &&& shows(letters, src.0 + dir.0, src.1 + dir.1, 'M')
    &&& shows(letters, src.0 + 2 * dir.0, src.1 + 2 * dir.1, 'A')
    &&& shows(letters, src.0 + 3 * dir.0, src.1 + 3 * dir.1, 'S')
}

/// Whether the two cells at opposite corners of `src`, one at the offset
/// `(dy, dx)`, hold an `M` and an `S`.
pub open spec fn arm(letters: Seq<Seq<char>>, src: (usize, usize), dy: int, dx: int) -> bool {
    (letters[src.0 + dy][src.1 + dx] == 'M' && letters[src.0 - dy][src.1 - dx] == 'S') || (
    letters[src.0 - dy][src.1 - dx] == 'M' && letters[src.0 + dy][src.1 + dx] == 'S')
}

/// Whether two `MAS` cross at `src`.
pub open spec fn crossed(letters: Seq<Seq<char>>, src: (usize, usize)) -> bool {
    letters[src.0 as int][src.1 as int] == 'A' && arm(letters, src, -1, -1) && arm(letters, src, -1, 1)
}

/// The letter one step from `curr` in the direction `dir`, with its place,
/// if the step stays in the puzzle.
pub fn peek_next(puzzle: &Vec<Vec<char>>, curr: (usize, usize), dir: &(i32, i32)) -> (res: Option<
    (char, (usize, usize)),
>)
    requires
        even(letters_of(puzzle@)),
    ensures
        res is Some <==> within(letters_of(puzzle@), curr.0 + dir.0, curr.1 + dir.1),
        res is Some ==> res.unwrap().1.0 == curr.0 + dir.0 && res.unwrap().1.1 == curr.1 + dir.1
            && res.unwrap().0 == letters_of(puzzle@)[curr.0 + dir.0][curr.1 + dir.1],
{
    let row: i128 = (curr.0 as i128) + (dir.0 as i128);
    let col: i128 = (curr.1 as i128) + (dir.1 as i128);
    if row < 0 || row >= puzzle.len() as i128 {
        return None;
    }
    assert(letters_of(puzzle@)[0] == puzzle[0]@);
    if col < 0 || col >= puzzle[0].len() as i128 {
        return None;
    }
    assert(letters_of(puzzle@)[row as int] == puzzle[row as int]@);
    Some((puzzle[row as usize][col as usize], (row as usize, col as usize)))
}

/// Whether `XMAS` is spelled from `src` in the direction `dir`.
pub fn search(puzzle: &Vec<Vec<char>>, src: (usize, usize), dir: &(i32, i32)) -> (found: bool)
    requires
        even(letters_of(puzzle@)),
        within(letters_of(puzzle@), src.0 as int, src.1 as int),
    ensures
        found == spells(letters_of(puzzle@), src, *dir),
{
    assert(letters_of(puzzle@)[src.0 as int] == puzzle[src.0 as int]@);
    assert(letters_of(puzzle@)[0] == puzzle[0]@);
    if puzzle[src.0][src.1] != 'X' {
        return false;
    }
    if let Some((c1, p)) = peek_next(puzzle, src, dir) {
        if c1 == 'M' {
            if let Some((c2, p)) = peek_next(puzzle, p, dir) {
                if c2 == 'A' {
                    if let Some((c3, _)) = peek_next(puzzle, p, dir) {
                        if c3 == 'S' {
                            return true;
                        }
                    }
                }
            }
        }
    }
    false
}

/// Whether two `MAS` cross at `src`, which lies off the edge of the puzzle.
pub fn search2(puzzle: &Vec<Vec<char>>, src: (usize, usize)) -> (found: bool)
    requires
        even(letters_of(puzzle@)),
        1 <= src.0 < puzzle.len() - 1,
        1 <= src.1 < letters_of(puzzle@)[0].len() - 1,
    ensures
        found == crossed(letters_of(puzzle@), src),
{
    let ghost letters = letters_of(puzzle@);
    assert(letters[src.0 as int] == puzzle[src.0 as int]@);
    assert(letters[src.0 - 1] == puzzle[src.0 - 1]@);
    assert(letters[src.0 + 1] == puzzle[src.0 + 1]@);
    assert(letters[0] == puzzle[0]@);
    let w = puzzle[0].len();
    assert(src.1 + 1 < w);
    assert(letters[src.0 as int].len() == letters[0].len());
    assert(letters[src.0 - 1].len() == letters[0].len());
    assert(letters[src.0 + 1].len() == letters[0].len());
    if puzzle[src.0][src.1] != 'A' {
        return false;
    }
    if (puzzle[src.0 - 1][src.1 - 1] == 'M' && puzzle[src.0 + 1][src.1 + 1] == 'S') || (puzzle[src.0
        + 1][src.1 + 1] == 'M' && puzzle[src.0 - 1][src.1 - 1] == 'S') {
        if (puzzle[src.0 - 1][src.1 + 1] == 'M' && puzzle[src.0 + 1][src.1 - 1] == 'S') || (
        puzzle[src.0 + 1][src.1 - 1] == 'M' && puzzle[src.0 - 1][src.1 + 1] == 'S') {
            return true;
        }
    }
    return false;
}

/// The eight directions in which a word can be read.
pub open spec fn direction(d: int) -> (i32, i32) {
    if d == 0 {
        (1i32, 0i32)
    } else if d == 1 {
        (-1i32, 0i32)
    } else if d == 2 {
        (0i32, 1i32)
    } else if d == 3 {
        (0i32, -1i32)
    } else if d == 4 {
        (1i32, 1i32)
    } else if d == 5 {
        (1i32, -1i32)
    } else if d == 6 {
        (-1i32, 1i32)
    } else {
        (-1i32, -1i32)
    }
}

/// In how many of the first `d` directions `XMAS` is spelled from `src`.
pub open spec fn words_at(letters: Seq<Seq<char>>, src: (usize, usize), d: int) -> int
    decreases d,
{
    if d <= 0 {
        0
    } else {
        words_at(letters, src, d - 1) + if spells(letters, src, direction(d - 1)) {
            1int
        } else {
            0int
        }
    }
}

/// How often `XMAS` is spelled from the first `n` cells in reading order.
pub open spec fn words_in(letters: Seq<Seq<char>>, n: int) -> int
    decreases n,
{
    if n <= 0 || letters.len() == 0 || letters[0].len() == 0 {
        0
    } else {
        let w = letters[0].len() as int;
        words_in(letters, n - 1) + words_at(letters, (((n - 1) / w) as usize, ((n - 1) % w) as usize), 8)
    }
}

/// How many of the first `n` inner cells in reading order hold a cross.
pub open spec fn crosses_in(letters: Seq<Seq<char>>, n: int) -> int
    decreases n,
{
    if n <= 0 || letters.len() < 3 || letters[0].len() < 3 {
        0
    } else {
        let w = letters[0].len() - 2;
        crosses_in(letters, n - 1) + if crossed(
            letters,
            (((n - 1) / w + 1) as usize, ((n - 1) % w + 1) as usize),
        ) {
            1int
        } else {
            0int
        }
    }
}

/// The direction with the number `d`.
pub fn dir_at(d: usize) -> (dir: (i32, i32))
    requires
        d < 8,
    ensures
        dir == direction(d as int),
{
    if d == 0 {
        (1, 0)
    } else if d == 1 {
        (-1, 0)
    } else if d == 2 {
        (0, 1)
    } else if d == 3 {
        (0, -1)
    } else if d == 4 {
        (1, 1)
    } else if d == 5 {
        (1, -1)
    } else if d == 6 {
        (-1, 1)
    } else {
        (-1, -1)
    }
}

/// How often `XMAS` is spelled in the puzzle, in any of the eight directions.
pub fn count_words(puzzle: &Vec<Vec<char>>) -> (found: usize)
    requires
        even(letters_of(puzzle@)),
        puzzle.len() > 0 ==> puzzle.len() * puzzle[0].len() * 8 <= usize::MAX,
    ensures
        found == words_in(
            letters_of(puzzle@),
            if puzzle.len() == 0 {
                0
            } else {
                puzzle.len() * puzzle[0].len()
            },
        ),
{
    if puzzle.len() == 0 {
        return 0;
    }
    let ghost letters = letters_of(puzzle@);
    assert(letters[0] == puzzle[0]@);
    let h = puzzle.len();
    let w = puzzle[0].len();
    if w == 0 {
        assert(h * w == 0) by (nonlinear_arith)
            requires
                w == 0,
        ;
        return 0;
    }
    let mut found: usize = 0;
    let mut i: usize = 0;
    while i < h
        invariant
            letters == letters_of(puzzle@),
            even(letters),
            h == puzzle.len(),
            w == puzzle[0].len(),
            w == letters[0].len(),
            w > 0,
            h * w * 8 <= usize::MAX,
            i <= h,
            found == words_in(letters, i * w),
            found <= i * w * 8,
        decreases h - i,
    {
        let mut j: usize = 0;
        while j < w
            invariant
                letters == letters_of(puzzle@),
                even(letters),
                h == puzzle.len(),
                w == puzzle[0].len(),
                w == letters[0].len(),
                w > 0,
                h * w * 8 <= usize::MAX,
                i < h,
                j <= w,
                found == words_in(letters, i * w + j),
                found <= (i * w + j) * 8,
            decreases w - j,
        {
            proof {
                crate::grid::lemma_cell_number(h as int, w as int, i as int, j as int);
            }
            assert(letters[i as int] == puzzle[i as int]@);
            let mut d: usize = 0;
            let ghost before = found;
            while d < 8
                invariant
                    letters == letters_of(puzzle@),
                    even(letters),
                    h == puzzle.len(),
                    w == letters[0].len(),
                    i < h,
                    j < w,
                    d <= 8,
                    within(letters, i as int, j as int),
                    found == before + words_at(letters, (i, j), d as int),
                    words_at(letters, (i, j), d as int) <= d,
                    before <= (i * w + j) * 8,
                    (i * w + j) * 8 + 8 <= h * w * 8,
                    h * w * 8 <= usize::MAX,
                decreases 8 - d,
            {
                let dir = dir_at(d);
                if search(puzzle, (i, j), &dir) {
                    found += 1;
                }
                d += 1;
            }
            j += 1;
        }
        proof {
            assert(i * w + w == (i + 1) * w) by (nonlinear_arith);
        }
        i += 1;
    }
    found
}

/// How many crosses of two `MAS` the puzzle holds.
pub fn count_crosses(puzzle: &Vec<Vec<char>>) -> (found: usize)
    requires
        even(letters_of(puzzle@)),
        puzzle.len() > 0 ==> puzzle.len() * puzzle[0].len() <= usize::MAX,
    ensures
        found == crosses_in(
            letters_of(puzzle@),
            if puzzle.len() < 3 || puzzle[0].len() < 3 {
                0
            } else {
                (puzzle.len() - 2) * (puzzle[0].len() - 2)
            },
        ),
{
    if puzzle.len() < 3 {
        return 0;
    }
    let ghost letters = letters_of(puzzle@);
    assert(letters[0] == puzzle[0]@);
    if puzzle[0].len() < 3 {
        return 0;
    }
    let h = puzzle.len() - 2;
    let w = puzzle[0].len() - 2;
    assert(h * w <= (h + 2) * (w + 2)) by (nonlinear_arith)
        requires
            h >= 0,
            w >= 0,
    ;
    let mut found: usize = 0;
    let mut i: usize = 0;
    while i < h
        invariant
            letters == letters_of(puzzle@),
            even(letters),
            h == puzzle.len() - 2,
            w == puzzle[0].len() - 2,
            w == letters[0].len() - 2,
            h > 0,
            w > 0,
            h * w <= usize::MAX,
            i <= h,
            found == crosses_in(letters, i * w),
            found <= i * w,
        decreases h - i,
    {
        let mut j: usize = 0;
        while j < w
            invariant
                letters == letters_of(puzzle@),
                even(letters),
                h == puzzle.len() - 2,
                w == puzzle[0].len() - 2,
                w == letters[0].len() - 2,
                h > 0,
                w > 0,
                h * w <= usize::MAX,
                i < h,
                j <= w,
                found == crosses_in(letters, i * w + j),
                found <= i * w + j,
            decreases w - j,
        {
            proof {
                crate::grid::lemma_cell_number(h as int, w as int, i as int, j as int);
            }
            if search2(puzzle, (i + 1, j + 1)) {
                found += 1;
            }
            j += 1;
        }
        proof {
            assert(i * w + w == (i + 1) * w) by (nonlinear_arith);
        }
        i += 1;
    }
    found
}

} // verus!
