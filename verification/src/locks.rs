//! Locks and keys drawn as columns of pins, and whether a key fits a lock.

use crate::text;
use vstd::prelude::*;

verus! {

/// A schematic `W` columns wide and `H` rows tall, with the height of each
/// column of pins.
#[derive(Debug)]
pub enum Schematic<const W: usize, const H: usize> {
    Lock(Vec<u32>),
    Key(Vec<u32>),
}

/// Whether a key and a lock fit: in no column do the pins overlap.
pub open spec fn fits(x: Seq<u32>, y: Seq<u32>, w: int, h: int) -> bool {
    forall|i: int| 0 <= i < w ==> (#[trigger] x[i]) + y[i] <= h - 2
}

/// How many of the first `n` rows hold a `#` in column `x`.
pub open spec fn filled(rows: Seq<Seq<char>>, x: int, n: int) -> int
    decreases n,
{
    if n <= 0 {
        0
    } else {
        filled(rows, x, n - 1) + if rows[n - 1][x] == '#' {
            1int
        } else {
            0int
        }
    }
}

/// Whether every character of `row` is `c`.
pub open spec fn all_are(row: Seq<char>, c: char) -> bool {
    forall|i: int| 0 <= i < row.len() ==> #[trigger] row[i] == c
}

/// Whether the rows hold a schematic: `h` rows of at least `w` characters
/// with a `#` in each of the first `w` columns, the first row all `#` for a
/// lock or all `.` for a key.
pub open spec fn drawn(rows: Seq<Seq<char>>, w: int, h: int) -> bool {
    &&& rows.len() == h
    &&& 1 <= h <= u32::MAX
    &&& forall|y: int| 0 <= y < h ==> (#[trigger] rows[y]).len() >= w
    &&& forall|x: int| 0 <= x < w ==> #[trigger] filled(rows, x, h) >= 1
    &&& all_are(rows[0], '#') || all_are(rows[0], '.')
}

/// A column never holds more filled cells than rows.
pub proof fn lemma_filled_bound(rows: Seq<Seq<char>>, x: int, n: int)
    requires
        0 <= n,
    ensures
        0 <= filled(rows, x, n) <= n,
    decreases n,
{
    if n > 0 {
        lemma_filled_bound(rows, x, n - 1);
    }
}

/// Whether every character of `row` is `c`.
pub fn row_is(row: &Vec<char>, c: char) -> (all: bool)
    ensures
        all == all_are(row@, c),
{
    let mut i: usize = 0;
    while i < row.len()
        invariant
            i <= row.len(),
            forall|k: int| 0 <= k < i ==> #[trigger] row[k] == c,
        decreases row.len() - i,
    {
        if row[i] != c {
            return false;
        }
        i += 1;
    }
    true
}

impl<const W: usize, const H: usize> Schematic<W, H> {
    /// The heights of the columns.
    pub open spec fn heights(&self) -> Seq<u32> {
        match self {
            Schematic::Lock(h) => h@,
            Schematic::Key(h) => h@,
        }
    }

    /// Whether a key and a lock with the heights `x` and `y` fit.
    pub fn fit(x: &[u32], y: &[u32]) -> (ok: bool)
        requires
            x.len() == W,
            y.len() == W,
            2 <= H <= u32::MAX,
        ensures
            ok == fits(x@, y@, W as int, H as int),
    {
        let mut i: usize = 0;
        while i < W
            invariant
                i <= W,
                x.len() == W,
                y.len() == W,
                2 <= H <= u32::MAX,
                forall|k: int| 0 <= k < i ==> (#[trigger] x[k]) + y[k] <= H - 2,
            decreases W - i,
        {
            if x[i] as u64 + y[i] as u64 > (H as u64) - 2 {
                return false;
            }
            i += 1;
        }
        true
    }

    /// Reads a schematic from its drawing. Fails where `drawn` does not hold.
    pub fn try_from(value: &str) -> (res: Result<Self, &'static str>)
        ensures
            res is Ok <==> drawn(text::lines_of(value@), W as int, H as int),
            res is Ok ==> ({
                let rows = text::lines_of(value@);
                &&& res->Ok_0 is Lock <==> all_are(rows[0], '#')
                &&& res->Ok_0.heights().len() == W
                &&& forall|x: int|
                    0 <= x < W ==> #[trigger] res->Ok_0.heights()[x] == filled(rows, x, H as int) - 1
            }),
    {
        let all = text::chars(value);
        let tiles = text::lines(&all);
        let ghost rows = text::lines_of(value@);
        if tiles.len() != H {
            return Err("meh");
        }
        if H == 0 || H > u32::MAX as usize {
            return Err("the schematic has no proper height");
        }
        let mut y: usize = 0;
        while y < H
            invariant
                rows == text::views(tiles@),
                rows == text::lines_of(value@),
                tiles.len() == H,
                y <= H,
                forall|i: int| 0 <= i < y ==> (#[trigger] rows[i]).len() >= W,
            decreases H - y,
        {
            assert(rows[y as int] == tiles[y as int]@);
            if tiles[y].len() < W {
                return Err("a row is too short");
            }
            y += 1;
        }
        let mut heights: Vec<u32> = Vec::new();
        let mut x: usize = 0;
        while x < W
            invariant
                rows == text::views(tiles@),
                rows == text::lines_of(value@),
                tiles.len() == H,
                1 <= H <= u32::MAX,
                x <= W,
                heights.len() == x,
                forall|i: int| 0 <= i < H ==> (#[trigger] rows[i]).len() >= W,
                forall|k: int| 0 <= k < x ==> #[trigger] filled(rows, k, H as int) >= 1,
                forall|k: int| 0 <= k < x ==> #[trigger] heights[k] == filled(rows, k, H as int) - 1,
            decreases W - x,
        {
            let mut count: u32 = 0;
            let mut y: usize = 0;
            while y < H
                invariant
                    rows == text::views(tiles@),
                    tiles.len() == H,
                    1 <= H <= u32::MAX,
                    x < W,
                    y <= H,
                    forall|i: int| 0 <= i < H ==> (#[trigger] rows[i]).len() >= W,
                    count == filled(rows, x as int, y as int),
                    count <= y,
                decreases H - y,
            {
                assert(rows[y as int] == tiles[y as int]@);
                if tiles[y][x] == '#' {
                    count += 1;
                }
                y += 1;
            }
            if count == 0 {
                return Err("a column holds no pin");
            }
            heights.push(count - 1);
            x += 1;
        }
        assert(rows[0] == tiles[0]@);
        if row_is(&tiles[0], '#') {
            Ok(Schematic::Lock(heights))
        } else if row_is(&tiles[0], '.') {
            Ok(Schematic::Key(heights))
        } else {
            Err("ding")
        }
    }
}

/// The heights as sequences.
pub open spec fn heights_of(all: Seq<Vec<u32>>) -> Seq<Seq<u32>> {
    all.map_values(|h: Vec<u32>| h@)
}

/// How many of the first `n` keys fit the lock `lock`.
pub open spec fn fitting_keys(lock: Seq<u32>, keys: Seq<Seq<u32>>, w: int, h: int, n: int) -> int
    decreases n,
{
    if n <= 0 {
        0
    } else {
        fitting_keys(lock, keys, w, h, n - 1) + if fits(keys[n - 1], lock, w, h) {
            1int
        } else {
            0int
        }
    }
}

/// How many pairs of one of the first `n` locks and a key fit.
pub open spec fn fitting_pairs(locks: Seq<Seq<u32>>, keys: Seq<Seq<u32>>, w: int, h: int, n: int) -> int
    decreases n,
{
    if n <= 0 {
        0
    } else {
        fitting_pairs(locks, keys, w, h, n - 1) + fitting_keys(locks[n - 1], keys, w, h, keys.len() as int)
    }
}

/// How many pairs of a lock and a key fit.
pub fn count_fits<const W: usize, const H: usize>(locks: &Vec<Vec<u32>>, keys: &Vec<Vec<u32>>) -> (found: u128)
    requires
        2 <= H <= u32::MAX,
        forall|i: int| 0 <= i < locks.len() ==> (#[trigger] locks[i]).len() == W,
        forall|i: int| 0 <= i < keys.len() ==> (#[trigger] keys[i]).len() == W,
    ensures
        found == fitting_pairs(
            heights_of(locks@),
            heights_of(keys@),
            W as int,
            H as int,
            locks.len() as int,
        ),
{
    let ghost ls = heights_of(locks@);
    let ghost ks = heights_of(keys@);
    let mut found: u128 = 0;
    let mut i: usize = 0;
    while i < locks.len()
        invariant
            2 <= H <= u32::MAX,
            forall|k: int| 0 <= k < locks.len() ==> (#[trigger] locks[k]).len() == W,
            forall|k: int| 0 <= k < keys.len() ==> (#[trigger] keys[k]).len() == W,
            ls == heights_of(locks@),
            ks == heights_of(keys@),
            i <= locks.len(),
            found == fitting_pairs(ls, ks, W as int, H as int, i as int),
            found <= i * 0x1_0000_0000_0000_0000,
        decreases locks.len() - i,
    {
        assert(ls[i as int] == locks[i as int]@);
        let mut here: usize = 0;
        let mut j: usize = 0;
        while j < keys.len()
            invariant
                2 <= H <= u32::MAX,
                forall|k: int| 0 <= k < locks.len() ==> (#[trigger] locks[k]).len() == W,
                forall|k: int| 0 <= k < keys.len() ==> (#[trigger] keys[k]).len() == W,
                ls == heights_of(locks@),
                ks == heights_of(keys@),
                i < locks.len(),
                ls[i as int] == locks[i as int]@,
                j <= keys.len(),
                here == fitting_keys(ls[i as int], ks, W as int, H as int, j as int),
                here <= j,
            decreases keys.len() - j,
        {
            assert(ks[j as int] == keys[j as int]@);
            if Schematic::<W, H>::fit(keys[j].as_slice(), locks[i].as_slice()) {
                here += 1;
            }
            j += 1;
        }
        found = found + here as u128;
        i += 1;
    }
    found
}

/// Whether `list` holds the heights `x`.
pub fn holds(list: &Vec<Vec<u32>>, x: &Vec<u32>) -> (found: bool)
    ensures
        found == heights_of(list@).contains(x@),
{
    let ghost all = heights_of(list@);
    let mut i: usize = 0;
    while i < list.len()
        invariant
            i <= list.len(),
            all == heights_of(list@),
            forall|k: int| 0 <= k < i ==> all[k] != x@,
        decreases list.len() - i,
    {
        assert(all[i as int] == list[i as int]@);
        let mut same = list[i].len() == x.len();
        let mut j: usize = 0;
        while same && j < x.len()
            invariant
                i < list.len(),
                list[i as int].len() == x.len() || !same,
                j <= x.len(),
                same ==> forall|k: int| 0 <= k < j ==> list[i as int][k] == x[k],
                !same ==> list[i as int]@ != x@,
            decreases x.len() - j + if same { 1int } else { 0int },
        {
            if list[i][j] != x[j] {
                same = false;
            } else {
                j += 1;
            }
        }
        if same {
            assert(list[i as int]@ =~= x@);
            return true;
        }
        i += 1;
    }
    false
}

/// The heights `x` added to `list`, unless the list holds them already.
pub open spec fn kept_once(list: Seq<Seq<u32>>, x: Seq<u32>) -> Seq<Seq<u32>> {
    if list.contains(x) {
        list
    } else {
        list.push(x)
    }
}

/// What a drawing shows, if it is a schematic: whether it is a lock, and
/// the heights of its columns.
pub open spec fn schematic_of(rows: Seq<Seq<char>>, w: int, h: int) -> Option<(bool, Seq<u32>)> {
    if drawn(rows, w, h) {
        Some((all_are(rows[0], '#'), Seq::new(w as nat, |x: int| (filled(rows, x, h) - 1) as u32)))
    } else {
        None
    }
}

/// The locks and the keys among the first `n` drawings, each once, in
/// the order in which they are first drawn.
pub open spec fn gathered(blocks: Seq<Seq<char>>, w: int, h: int, n: int) -> (Seq<Seq<u32>>, Seq<Seq<u32>>)
    decreases n,
{
    if n <= 0 {
        (Seq::empty(), Seq::empty())
    } else {
        let before = gathered(blocks, w, h, n - 1);
        match schematic_of(text::lines_of(blocks[n - 1]), w, h) {
            Some((true, heights)) => (kept_once(before.0, heights), before.1),
            Some((false, heights)) => (before.0, kept_once(before.1, heights)),
            None => before,
        }
    }
}

/// Gathers the locks and the keys that a text draws, parted by blank
/// lines, each once; drawings that are no schematic are passed over.
pub fn gather<const W: usize, const H: usize>(input: &str) -> (res: (Vec<Vec<u32>>, Vec<Vec<u32>>))
    ensures
        ({
            let blocks = text::blocks_of(input@);
            let all = gathered(blocks, W as int, H as int, blocks.len() as int);
            heights_of(res.0@) == all.0 && heights_of(res.1@) == all.1
        }),
        forall|i: int| 0 <= i < res.0.len() ==> (#[trigger] res.0[i]).len() == W,
        forall|i: int| 0 <= i < res.1.len() ==> (#[trigger] res.1[i]).len() == W,
{
    let all = text::chars(input);
    let pieces = text::blocks(&all);
    let ghost blocks = text::blocks_of(input@);
    let mut found_locks: Vec<Vec<u32>> = Vec::new();
    let mut found_keys: Vec<Vec<u32>> = Vec::new();
    let mut n: usize = 0;
    assert(heights_of(found_locks@) =~= Seq::<Seq<u32>>::empty());
    assert(heights_of(found_keys@) =~= Seq::<Seq<u32>>::empty());
    while n < pieces.len()
        invariant
            blocks == text::views(pieces@),
            n <= pieces.len(),
            heights_of(found_locks@) == gathered(blocks, W as int, H as int, n as int).0,
            heights_of(found_keys@) == gathered(blocks, W as int, H as int, n as int).1,
            forall|i: int| 0 <= i < found_locks.len() ==> (#[trigger] found_locks[i]).len() == W,
            forall|i: int| 0 <= i < found_keys.len() ==> (#[trigger] found_keys[i]).len() == W,
        decreases pieces.len() - n,
    {
        assert(blocks[n as int] == pieces[n as int]@);
        let drawing = text::string_of(&pieces[n]);
        let ghost rows = text::lines_of(blocks[n as int]);
        let ghost locks_before = heights_of(found_locks@);
        let ghost keys_before = heights_of(found_keys@);
        match Schematic::<W, H>::try_from(drawing.as_str()) {
            Ok(Schematic::Lock(heights)) => {
                assert(heights@ =~= schematic_of(rows, W as int, H as int).unwrap().1);
                if !holds(&found_locks, &heights) {
                    found_locks.push(heights);
                    assert(heights_of(found_locks@) =~= locks_before.push(heights@));
                }
            },
            Ok(Schematic::Key(heights)) => {
                assert(heights@ =~= schematic_of(rows, W as int, H as int).unwrap().1);
                if !holds(&found_keys, &heights) {
                    found_keys.push(heights);
                    assert(heights_of(found_keys@) =~= keys_before.push(heights@));
                }
            },
            Err(_) => {},
        }
        n += 1;
    }
    (found_locks, found_keys)
}

} // verus!
