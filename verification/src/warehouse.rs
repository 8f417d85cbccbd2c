//! A warehouse in which a robot pushes boxes around a walled grid.

use crate::text;
use vstd::prelude::*;

verus! {

/// A tile of the warehouse floor.
#[derive(PartialEq, Eq, Clone, Copy, Debug, Structural)]
pub enum Tile {
    Empty,
    Box,
    BoxL,
    BoxR,
    Wall,
}

/// The tile that a character stands for, if any.
pub open spec fn tile_of(c: char) -> Option<Tile> {
    if c == '.' {
        Some(Tile::Empty)
    } else if c == 'O' {
        Some(Tile::Box)
    } else if c == '[' {
        Some(Tile::BoxL)
    } else if c == ']' {
        Some(Tile::BoxR)
    } else if c == '#' {
        Some(Tile::Wall)
    } else {
        None
    }
}

/// The character that stands for a tile.
pub open spec fn char_of(tile: Tile) -> char {
    match tile {
        Tile::Box => 'O',
        Tile::BoxL => '[',
        Tile::BoxR => ']',
        Tile::Empty => '.',
        Tile::Wall => '#',
    }
}

impl Tile {
    /// Reads a tile from its character.
    pub fn try_from(c: char) -> (res: Result<Tile, &'static str>)
        ensures
            res is Ok <==> tile_of(c) is Some,
            res is Ok ==> Some(res->Ok_0) == tile_of(c),
    {
        if c == '.' {
            Ok(Tile::Empty)
        } else if c == 'O' {
            Ok(Tile::Box)
        } else if c == '[' {
            Ok(Tile::BoxL)
        } else if c == ']' {
            Ok(Tile::BoxR)
        } else if c == '#' {
            Ok(Tile::Wall)
        } else {
            Err("meheh")
        }
    }

    /// The character of a tile.
    pub fn to_char(self) -> (c: char)
        ensures
            c == char_of(self),
            tile_of(c) == Some(self),
    {
        match self {
            Tile::Box => 'O',
            Tile::BoxL => '[',
            Tile::BoxR => ']',
            Tile::Empty => '.',
            Tile::Wall => '#',
        }
    }

    /// The tile as a one-character string.
    pub fn to_string(&self) -> (s: String)
        ensures
            s@ == seq![char_of(*self)],
    {
        let mut chars: Vec<char> = Vec::new();
        chars.push(self.to_char());
        text::string_of(&chars)
    }
}

/// A move that the robot is told to make.
#[derive(PartialEq, Eq, Clone, Copy, Debug, Structural)]
pub enum Command {
    Up,
    Down,
    Left,
    Right,
}

/// The command that a character stands for, if any.
pub open spec fn command_of(c: char) -> Option<Command> {
    if c == '^' {
        Some(Command::Up)
    } else if c == 'v' {
        Some(Command::Down)
    } else if c == '<' {
        Some(Command::Left)
    } else if c == '>' {
        Some(Command::Right)
    } else {
        None
    }
}

impl Command {
    /// Reads a command from its character.
    pub fn try_from(c: char) -> (res: Result<Command, &'static str>)
        ensures
            res is Ok <==> command_of(c) is Some,
            res is Ok ==> Some(res->Ok_0) == command_of(c),
    {
        if c == '^' {
            Ok(Command::Up)
        } else if c == 'v' {
            Ok(Command::Down)
        } else if c == '<' {
            Ok(Command::Left)
        } else if c == '>' {
            Ok(Command::Right)
        } else {
            Err("meh")
        }
    }

    /// The row and column offsets of one move.
    pub open spec fn delta_spec(self) -> (int, int) {
        match self {
            Command::Up => (-1, 0),
            Command::Down => (1, 0),
            Command::Left => (0, -1),
            Command::Right => (0, 1),
        }
    }

    /// Whether the move goes along a row.
    pub open spec fn is_horizontal(self) -> bool {
        self == Command::Left || self == Command::Right
    }

    /// The row and column offsets of one move.
    pub fn delta(&self) -> (d: (i64, i64))
        ensures
            d.0 == self.delta_spec().0,
            d.1 == self.delta_spec().1,
    {
        match self {
            Command::Up => (-1, 0),
            Command::Down => (1, 0),
            Command::Left => (0, -1),
            Command::Right => (0, 1),
        }
    }
}

/// A grid as rows of tiles.
pub type Grid = Seq<Seq<Tile>>;

/// The grid that rows of tiles stand for.
pub open spec fn grid_of(tiles: Seq<Vec<Tile>>) -> Grid {
    tiles.map_values(|row: Vec<Tile>| row@)
}

/// Whether every row is as wide as the first.
pub open spec fn rectangular(g: Grid) -> bool {
    forall|i: int| 0 <= i < g.len() ==> (#[trigger] g[i]).len() == g[0].len()
}

/// The width of a grid: the length of its first row.
pub open spec fn width(g: Grid) -> int {
    if g.len() == 0 {
        0
    } else {
        g[0].len() as int
    }
}

/// Whether `(y, x)` lies in the grid.
pub open spec fn inside(g: Grid, y: int, x: int) -> bool {
    0 <= y < g.len() && 0 <= x < g[y].len()
}

/// The tile at `(y, x)`; everything outside the grid counts as wall.
pub open spec fn tile_at(g: Grid, y: int, x: int) -> Tile {
    if inside(g, y, x) {
        g[y][x]
    } else {
        Tile::Wall
    }
}

/// The grid with the tile at `(y, x)` replaced; outside the grid nothing changes.
pub open spec fn put(g: Grid, y: int, x: int, tile: Tile) -> Grid {
    if inside(g, y, x) {
        g.update(y, g[y].update(x, tile))
    } else {
        g
    }
}

/// Whether no tile of the grid is `tile`.
pub open spec fn free_of(g: Grid, tile: Tile) -> bool {
    forall|y: int, x: int| inside(g, y, x) ==> #[trigger] g[y][x] != tile
}

/// Whether two grids have rows of the same lengths.
pub open spec fn same_shape(g: Grid, h: Grid) -> bool {
    &&& g.len() == h.len()
    &&& forall|i: int| 0 <= i < g.len() ==> (#[trigger] g[i]).len() == h[i].len()
}

/// How many cells of an `h` by `w` grid lie at `(y, x)` and beyond it in the
/// direction of `cmd`.
pub open spec fn room(h: int, w: int, y: int, x: int, cmd: Command) -> int {
    match cmd {
        Command::Up => y + 1,
        Command::Down => h - y,
        Command::Left => x + 1,
        Command::Right => w - x,
    }
}

/// Whether a tile is one half of a wide box.
pub open spec fn is_wide_half(tile: Tile) -> bool {
    tile == Tile::BoxL || tile == Tile::BoxR
}

/// The column of the other half of the wide box whose half `tile` sits at column `x`.
pub open spec fn partner(tile: Tile, x: int) -> int {
    if tile == Tile::BoxL {
        x + 1
    } else {
        x - 1
    }
}

/// Whether the wide box with a half at `(y, x)` can be pushed one cell in the
/// direction of `cmd`. An empty cell can always be entered; a wall or a small
/// box cannot be pushed this way. Pushed sideways, a half needs the next cell
/// to give way; pushed up or down, both cells ahead of the box must.
pub open spec fn can_shove(g: Grid, h: int, w: int, y: int, x: int, cmd: Command) -> bool
    decreases room(h, w, y, x, cmd),
{
    let (dy, dx) = cmd.delta_spec();
    let tile = tile_at(g, y, x);
    if !(0 <= y < h && 0 <= x < w) {
        false
    } else if tile == Tile::Empty {
        true
    } else if !is_wide_half(tile) {
        false
    } else if cmd.is_horizontal() {
        tile_at(g, y, x + dx) != Tile::Wall && can_shove(g, h, w, y, x + dx, cmd)
    } else {
        let px = partner(tile, x);
        &&& tile_at(g, y + dy, x) != Tile::Wall
        &&& tile_at(g, y + dy, px) != Tile::Wall
        &&& can_shove(g, h, w, y + dy, x, cmd)
        &&& can_shove(g, h, w, y + dy, px, cmd)
    }
}

/// The grid after the tile at `(y, x)` has been copied to `(ty, tx)` and its
/// own cell emptied.
pub open spec fn shove_one(g: Grid, y: int, x: int, ty: int, tx: int) -> Grid {
    put(put(g, ty, tx, tile_at(g, y, x)), y, x, Tile::Empty)
}

/// The grid after the wide box with a half at `(y, x)` has been pushed one
/// cell in the direction of `cmd`, together with every box in its way. What
/// lies ahead is pushed first, then the box itself moves and leaves empty
/// cells behind. A cell that holds no half of a wide box is left alone.
pub open spec fn shoved(g: Grid, h: int, w: int, y: int, x: int, cmd: Command) -> Grid
    decreases room(h, w, y, x, cmd),
{
    let dy = cmd.delta_spec().0;
    let dx = cmd.delta_spec().1;
    let tile = tile_at(g, y, x);
    let px = partner(tile, x);
    if !(0 <= y < h && 0 <= x < w) {
        g
    } else if !is_wide_half(tile) {
        g
    } else if cmd.is_horizontal() {
        shove_one(shoved(g, h, w, y, x + dx, cmd), y, x, y, x + dx)
    } else {
        shove_one(
            shove_one(shoved(shoved(g, h, w, y + dy, x, cmd), h, w, y + dy, px, cmd), y, x, y + dy, x),
            y,
            px,
            y + dy,
            px,
        )
    }
}

/// The cell `i` moves away from `(y, x)` in the direction of `cmd`.
pub open spec fn ahead(y: int, x: int, cmd: Command, i: int) -> (int, int) {
    match cmd {
        Command::Up => (y - i, x),
        Command::Down => (y + i, x),
        Command::Left => (y, x - i),
        Command::Right => (y, x + i),
    }
}

/// Whether the cells `1..k` ahead of `(y, x)` all hold something that is
/// neither a wall nor empty: a chain of boxes.
pub open spec fn chain(g: Grid, y: int, x: int, cmd: Command, k: int) -> bool {
    forall|i: int|
        1 <= i < k ==> {
            let p = #[trigger] ahead(y, x, cmd, i);
            tile_at(g, p.0, p.1) != Tile::Wall && tile_at(g, p.0, p.1) != Tile::Empty
        }
}

/// The grid after a chain of small boxes that ends before cell `k` has been
/// pushed one cell: the first cell of the chain is emptied and a box enters
/// cell `k`, which shifts every box of the chain by one.
pub open spec fn chain_pushed(g: Grid, y: int, x: int, cmd: Command, k: int) -> Grid {
    let first = ahead(y, x, cmd, 1);
    let last = ahead(y, x, cmd, k);
    put(put(g, first.0, first.1, Tile::Empty), last.0, last.1, Tile::Box)
}

/// The GPS coordinate of a box at `(i, j)`, and nothing for any other tile.
pub open spec fn gps_of(tile: Tile, i: int, j: int) -> int {
    if tile == Tile::Box || tile == Tile::BoxL {
        100 * i + j
    } else {
        0
    }
}

/// The GPS coordinates of the boxes in the first `n` cells of row `i`, summed.
pub open spec fn row_gps(row: Seq<Tile>, i: int, n: int) -> int
    decreases n,
{
    if n <= 0 {
        0
    } else {
        row_gps(row, i, n - 1) + gps_of(row[n - 1], i, n - 1)
    }
}

/// The GPS coordinates of the boxes in the first `m` rows, summed.
pub open spec fn grid_gps(g: Grid, m: int) -> int
    decreases m,
{
    if m <= 0 {
        0
    } else {
        grid_gps(g, m - 1) + row_gps(g[m - 1], m - 1, width(g))
    }
}

/// The left half of what a tile becomes when the warehouse is widened.
pub open spec fn left_half(tile: Tile) -> Tile {
    if tile == Tile::Box {
        Tile::BoxL
    } else {
        tile
    }
}

/// The right half of what a tile becomes when the warehouse is widened.
pub open spec fn right_half(tile: Tile) -> Tile {
    if tile == Tile::Box {
        Tile::BoxR
    } else {
        tile
    }
}

/// Whether `wide` is `g` with every tile doubled sideways.
pub open spec fn widened(g: Grid, wide: Grid) -> bool {
    &&& wide.len() == g.len()
    &&& forall|i: int| 0 <= i < g.len() ==> (#[trigger] wide[i]).len() == 2 * g[i].len()
    &&& forall|i: int, j: int|
        0 <= i < g.len() && 0 <= j < g[i].len() ==> wide[i][2 * j] == left_half(#[trigger] g[i][j])
            && wide[i][2 * j + 1] == right_half(g[i][j])
}

/// The tile that a character of the map stands for; the robot's own mark,
/// like any other character that names no tile, leaves the cell empty.
pub open spec fn floor_of(c: char) -> Tile {
    match tile_of(c) {
        Some(tile) => tile,
        None => Tile::Empty,
    }
}

/// Whether `(i, j)` comes after `(y, x)` in reading order.
pub open spec fn after(i: int, j: int, y: int, x: int) -> bool {
    i > y || (i == y && j > x)
}

/// Whether `robot` is where the map marks the robot: at the last character in
/// reading order that names no tile, or at the origin if there is none.
pub open spec fn marks_robot(rows: Seq<Seq<char>>, robot: (usize, usize)) -> bool {
    let marked = 0 <= robot.0 < rows.len() && 0 <= robot.1 < rows[robot.0 as int].len() && tile_of(
        rows[robot.0 as int][robot.1 as int],
    ) is None;
    &&& marked || robot == (0usize, 0usize)
    &&& forall|i: int, j: int|
        0 <= i < rows.len() && 0 <= j < rows[i].len() && #[trigger] tile_of(rows[i][j]) is None
            ==> marked && !after(i, j, robot.0 as int, robot.1 as int)
}

/// Row `i` as text: the robot's mark where it stands, each other tile by its
/// character, and a line feed at the end.
pub open spec fn render_row(row: Seq<Tile>, i: int, robot: (usize, usize)) -> Seq<char> {
    Seq::new(
        row.len(),
        |j: int|
            if robot.0 == i && robot.1 == j {
                '@'
            } else {
                char_of(row[j])
            },
    ).push('\n')
}

/// The first `n` rows as text.
pub open spec fn render(g: Grid, robot: (usize, usize), n: int) -> Seq<char>
    decreases n,
{
    if n <= 0 {
        Seq::empty()
    } else {
        render(g, robot, n - 1) + render_row(g[n - 1], n - 1, robot)
    }
}

/// The rows summed so far never exceed the sum over more rows.
pub proof fn lemma_grid_gps_monotonic(g: Grid, m: int, n: int)
    requires
        0 <= m <= n,
    ensures
        0 <= grid_gps(g, m) <= grid_gps(g, n),
    decreases n,
{
    if m < n {
        lemma_grid_gps_monotonic(g, m, n - 1);
        lemma_row_gps_monotonic(g[n - 1], n - 1, 0, width(g));
    } else if n > 0 {
        lemma_grid_gps_monotonic(g, m - 1, n - 1);
        lemma_row_gps_monotonic(g[n - 1], n - 1, 0, width(g));
    }
}

/// The cells summed so far never exceed the sum over more cells.
pub proof fn lemma_row_gps_monotonic(row: Seq<Tile>, i: int, a: int, b: int)
    requires
        0 <= i,
        0 <= a <= b,
    ensures
        0 <= row_gps(row, i, a) <= row_gps(row, i, b),
    decreases b,
{
    if a < b {
        lemma_row_gps_monotonic(row, i, a, b - 1);
    } else if b > 0 {
        lemma_row_gps_monotonic(row, i, a - 1, b - 1);
    }
}

/// Whether the GPS coordinates of a floor of `h` rows and `w` columns sum
/// to a machine integer even if a box stands on every tile.
pub open spec fn gps_fit(h: int, w: int) -> bool {
    h * w * (100 * h + w) <= usize::MAX
}

/// The coordinates in the first `n` cells of row `i` sum to no more than
/// `n` times a bound on the coordinate of each.
pub proof fn lemma_row_gps_bound(row: Seq<Tile>, i: int, n: int, c: int)
    requires
        0 <= i,
        0 <= n,
        100 * i + n <= c,
    ensures
        row_gps(row, i, n) <= n * c,
    decreases n,
{
    if n > 0 {
        lemma_row_gps_bound(row, i, n - 1, c);
        assert((n - 1) * c + c == n * c) by (nonlinear_arith);
    } else {
        assert(0 * c == 0) by (nonlinear_arith);
    }
}

/// The coordinates on a floor whose size fits sum to a machine integer.
pub proof fn lemma_grid_gps_bound(g: Grid, m: int, h: int)
    requires
        0 <= m <= h,
        h == g.len(),
    ensures
        grid_gps(g, m) <= m * width(g) * (100 * h + width(g)),
    decreases m,
{
    let w = width(g);
    let c = 100 * h + w;
    if m > 0 {
        lemma_grid_gps_bound(g, m - 1, h);
        lemma_row_gps_bound(g[m - 1], m - 1, w, c);
        assert((m - 1) * w * c + w * c == m * w * c) by (nonlinear_arith);
    } else {
        assert(0 * w * c == 0) by (nonlinear_arith);
    }
}

/// Whether one step as `command` says turns the grid `g` with the robot
/// at `robot` into the grid `after` with the robot at `moved`. Before a
/// wall the robot stays and nothing changes. Onto an empty tile it goes.
/// Before a small box it looks along the chain of boxes: where the chain
/// ends at a wall nothing changes, and where it ends at an empty tile the
/// robot goes and the chain shifts by one. A wide box it shoves, with
/// every box in its way, where they can all give way.
pub open spec fn stepped(
    g: Grid,
    robot: (usize, usize),
    command: Command,
    after: Grid,
    moved: (usize, usize),
) -> bool {
    let ry = robot.0 as int;
    let rx = robot.1 as int;
    let n = ahead(ry, rx, command, 1);
    let stays = after == g && moved == robot;
    let goes = moved.0 == n.0 && moved.1 == n.1;
    match tile_at(g, n.0, n.1) {
        Tile::Wall => stays,
        Tile::Empty => after == g && goes,
        Tile::Box => exists|k: int|
            2 <= k && #[trigger] chain(g, ry, rx, command, k) && {
                let e = ahead(ry, rx, command, k);
                ||| tile_at(g, e.0, e.1) == Tile::Wall && stays
                ||| tile_at(g, e.0, e.1) == Tile::Empty && goes && after == chain_pushed(g, ry, rx, command, k)
            },
        _ => if can_shove(g, g.len() as int, width(g), n.0, n.1, command) {
            goes && after == shoved(g, g.len() as int, width(g), n.0, n.1, command)
        } else {
            stays
        },
    }
}

/// Whether the first `n` of the commands turn the grid `g` with the robot
/// at `robot` into the grid `after` with the robot at `moved`, step by step.
pub open spec fn ran(
    g: Grid,
    robot: (usize, usize),
    commands: Seq<Command>,
    n: int,
    after: Grid,
    moved: (usize, usize),
) -> bool
    decreases n,
{
    if n <= 0 {
        after == g && moved == robot
    } else {
        exists|mid: Grid, at: (usize, usize)|
            ran(g, robot, commands, n - 1, mid, at) && #[trigger] stepped(
                mid,
                at,
                commands[n - 1],
                after,
                moved,
            )
    }
}

/// A run goes on by one step.
pub proof fn lemma_ran_on(
    g: Grid,
    robot: (usize, usize),
    commands: Seq<Command>,
    n: int,
    mid: Grid,
    at: (usize, usize),
    after: Grid,
    moved: (usize, usize),
)
    requires
        n >= 1,
        ran(g, robot, commands, n - 1, mid, at),
        stepped(mid, at, commands[n - 1], after, moved),
    ensures
        ran(g, robot, commands, n, after, moved),
{
}

/// The commands that the first `n` characters name; characters that name
/// no command are passed over.
pub open spec fn commands_of(s: Seq<char>, n: int) -> Seq<Command>
    decreases n,
{
    if n <= 0 {
        Seq::empty()
    } else {
        match command_of(s[n - 1]) {
            Some(c) => commands_of(s, n - 1).push(c),
            None => commands_of(s, n - 1),
        }
    }
}

/// Reads the commands of a text.
pub fn read_commands(value: &str) -> (commands: Vec<Command>)
    ensures
        commands@ == commands_of(value@, value@.len() as int),
{
    let all = text::chars(value);
    let mut commands: Vec<Command> = Vec::new();
    let mut i: usize = 0;
    while i < all.len()
        invariant
            all@ == value@,
            i <= all.len(),
            commands@ == commands_of(all@, i as int),
        decreases all.len() - i,
    {
        match Command::try_from(all[i]) {
            Ok(c) => {
                commands.push(c);
            },
            Err(_) => {},
        }
        i += 1;
    }
    commands
}

/// A warehouse: the place of the robot and the tiles of the floor.
pub struct Warehouse {
    pub robot: (usize, usize),
    pub tiles: Vec<Vec<Tile>>,
}

impl Warehouse {
    /// The grid of tiles.
    pub open spec fn grid(&self) -> Grid {
        grid_of(self.tiles@)
    }

    /// The number of rows of the floor.
    pub open spec fn height(&self) -> int {
        self.grid().len() as int
    }

    /// The width of the floor.
    pub open spec fn width(&self) -> int {
        width(self.grid())
    }

    /// A warehouse is well formed when its grid is rectangular.
    pub open spec fn wf(&self) -> bool {
        rectangular(self.grid())
    }

    /// Whether the warehouse holds only small boxes, or only wide ones.
    pub open spec fn uniform(&self) -> bool {
        free_of(self.grid(), Tile::Box) || (free_of(self.grid(), Tile::BoxL) && free_of(
            self.grid(),
            Tile::BoxR,
        ))
    }

    /// Whether the floor is of a size for which `sum_gps_coordinates`
    /// can sum: see `gps_fit`.
    pub fn can_sum_gps(&self) -> (ok: bool)
        ensures
            ok == gps_fit(self.height(), self.width()),
    {
        let h = self.tiles.len();
        if h == 0 {
            assert(0 * self.width() * (100 * 0 + self.width()) == 0) by (nonlinear_arith);
            return true;
        }
        let w = self.tiles[0].len();
        assert(self.grid()[0] == self.tiles[0]@);
        if w == 0 {
            assert(h * 0 * (100 * h + 0) == 0) by (nonlinear_arith);
            return true;
        }
        let cells = match h.checked_mul(w) {
            Some(c) => c,
            None => {
                assert(h * w * (100 * h + w) >= h * w) by (nonlinear_arith)
                    requires
                        h >= 1,
                        w >= 1,
                ;
                return false;
            },
        };
        let most = match h.checked_mul(100) {
            Some(a) => a.checked_add(w),
            None => None,
        };
        let most = match most {
            Some(m) => m,
            None => {
                assert(h * w * (100 * h + w) >= 100 * h + w) by (nonlinear_arith)
                    requires
                        h >= 1,
                        w >= 1,
                ;
                return false;
            },
        };
        assert(cells * most == h * w * (100 * h + w)) by (nonlinear_arith)
            requires
                cells == h * w,
                most == 100 * h + w,
        ;
        cells.checked_mul(most).is_some()
    }

    /// Checks that the grid is rectangular.
    pub fn is_well_formed(&self) -> (ok: bool)
        ensures
            ok == self.wf(),
    {
        let mut i: usize = 0;
        while i < self.tiles.len()
            invariant
                i <= self.tiles.len(),
                forall|k: int| 0 <= k < i ==> (#[trigger] self.grid()[k]).len() == self.grid()[0].len(),
            decreases self.tiles.len() - i,
        {
            if self.tiles[i].len() != self.tiles[0].len() {
                assert(self.grid()[i as int].len() != self.grid()[0].len());
                return false;
            }
            i += 1;
        }
        true
    }

    /// Whether the grid holds `tile` anywhere.
    pub fn holds(&self, tile: Tile) -> (found: bool)
        ensures
            found == !free_of(self.grid(), tile),
    {
        let mut i: usize = 0;
        while i < self.tiles.len()
            invariant
                i <= self.tiles.len(),
                forall|y: int, x: int|
                    0 <= y < i && 0 <= x < self.grid()[y].len() ==> #[trigger] self.grid()[y][x]
                        != tile,
            decreases self.tiles.len() - i,
        {
            let mut j: usize = 0;
            while j < self.tiles[i].len()
                invariant
                    i < self.tiles.len(),
                    j <= self.tiles[i as int].len(),
                    forall|y: int, x: int|
                        0 <= y < i && 0 <= x < self.grid()[y].len() ==> #[trigger] self.grid()[y][x]
                            != tile,
                    forall|x: int| 0 <= x < j ==> #[trigger] self.grid()[i as int][x] != tile,
                decreases self.tiles[i as int].len() - j,
            {
                if self.tiles[i][j] == tile {
                    assert(inside(self.grid(), i as int, j as int));
                    assert(self.grid()[i as int][j as int] == tile);
                    return true;
                }
                j += 1;
            }
            i += 1;
        }
        false
    }

    /// Checks that the warehouse does not mix small and wide boxes.
    pub fn is_uniform(&self) -> (ok: bool)
        ensures
            ok == self.uniform(),
    {
        !self.holds(Tile::Box) || (!self.holds(Tile::BoxL) && !self.holds(Tile::BoxR))
    }

    /// The tile at `(y, x)`, or a wall outside the grid.
    pub fn get(&self, y: usize, x: usize) -> (tile: Tile)
        ensures
            tile == tile_at(self.grid(), y as int, x as int),
    {
        if y < self.tiles.len() && x < self.tiles[y].len() {
            self.tiles[y][x]
        } else {
            Tile::Wall
        }
    }

    /// Replaces the tile at `(y, x)`; does nothing outside the grid.
    pub fn set(&mut self, y: usize, x: usize, tile: Tile)
        ensures
            final(self).grid() == put(old(self).grid(), y as int, x as int, tile),
            final(self).robot == old(self).robot,
            same_shape(old(self).grid(), final(self).grid()),
    {
        if y < self.tiles.len() && x < self.tiles[y].len() {
            self.tiles[y][x] = tile;
            assert(self.grid() =~= put(old(self).grid(), y as int, x as int, tile));
        }
    }

    /// The cell at `(y + dy, x + dx)`, if it lies in the grid.
    pub fn next(&self, y: usize, x: usize, dy: i64, dx: i64) -> (p: Option<(usize, usize)>)
        requires
            -1 <= dy <= 1,
            -1 <= dx <= 1,
        ensures
            p is Some <==> inside(self.grid(), y + dy, x + dx),
            p is Some ==> p.unwrap().0 == y + dy && p.unwrap().1 == x + dx,
    {
        assert(self.grid().len() == self.tiles.len());
        assert(forall|i: int| 0 <= i < self.tiles.len() ==> (#[trigger] self.grid()[i]).len() == self.tiles[i].len());
        if (dy < 0 && y == 0) || (dx < 0 && x == 0) {
            return None;
        }
        if (dy > 0 && y == usize::MAX) || (dx > 0 && x == usize::MAX) {
            return None;
        }
        let ny = if dy < 0 {
            y - 1
        } else if dy > 0 {
            y + 1
        } else {
            y
        };
        let nx = if dx < 0 {
            x - 1
        } else if dx > 0 {
            x + 1
        } else {
            x
        };
        if ny < self.tiles.len() && nx < self.tiles[ny].len() {
            Some((ny, nx))
        } else {
            None
        }
    }

    /// The tile at a cell that `next` found, or a wall where it found none.
    pub fn tile_of_cell(&self, p: Option<(usize, usize)>) -> (tile: Tile)
        requires
            p is Some ==> inside(self.grid(), p.unwrap().0 as int, p.unwrap().1 as int),
        ensures
            p is Some ==> tile == self.grid()[p.unwrap().0 as int][p.unwrap().1 as int],
            p is None ==> tile == Tile::Wall,
    {
        match p {
            Some((y, x)) => self.tiles[y][x],
            None => Tile::Wall,
        }
    }

    /// Whether the wide box with a half at `pos` can be pushed by `command`.
    pub fn can_move_2x1_box(&self, pos: (usize, usize), command: &Command) -> (ok: bool)
        requires
            self.wf(),
            free_of(self.grid(), Tile::Box),
            tile_at(self.grid(), pos.0 as int, pos.1 as int) != Tile::Wall,
        ensures
            ok == can_shove(
                self.grid(),
                self.height(),
                self.width(),
                pos.0 as int,
                pos.1 as int,
                *command,
            ),
        decreases room(self.height(), self.width(), pos.0 as int, pos.1 as int, *command),
    {
        let (y, x) = pos;
        let (dy, dx) = command.delta();
        let tile = self.tiles[y][x];
        assert(self.grid()[y as int].len() == self.grid()[0].len());
        match tile {
            Tile::Empty => true,
            Tile::BoxL | Tile::BoxR => {
                let ahead = self.next(y, x, dy, dx);
                match command {
                    Command::Left | Command::Right => {
                        if self.tile_of_cell(ahead) == Tile::Wall {
                            return false;
                        }
                        self.can_move_2x1_box(ahead.unwrap(), command)
                    },
                    Command::Up | Command::Down => {
                        let side: i64 = if tile == Tile::BoxL {
                            1
                        } else {
                            -1
                        };
                        let beside = self.next(y, x, dy, side);
                        if self.tile_of_cell(ahead) == Tile::Wall || self.tile_of_cell(beside)
                            == Tile::Wall {
                            return false;
                        }
                        self.can_move_2x1_box(ahead.unwrap(), command) && self.can_move_2x1_box(
                            beside.unwrap(),
                            command,
                        )
                    },
                }
            },
            _ => false,
        }
    }

    /// Copies the tile at `(y, x)` to the cell `target` and empties `(y, x)`.
    fn shift_tile(&mut self, y: usize, x: usize, target: Option<(usize, usize)>, Ghost(ty): Ghost<int>, Ghost(tx): Ghost<int>)
        requires
            inside(old(self).grid(), y as int, x as int),
            target is Some <==> inside(old(self).grid(), ty, tx),
            target is Some ==> target.unwrap().0 == ty && target.unwrap().1 == tx,
        ensures
            final(self).grid() == shove_one(old(self).grid(), y as int, x as int, ty, tx),
            final(self).robot == old(self).robot,
            same_shape(old(self).grid(), final(self).grid()),
            forall|t: Tile|
                t != Tile::Empty && free_of(old(self).grid(), t) ==> free_of(final(self).grid(), t),
    {
        let ghost g = self.grid();
        let tile = self.get(y, x);
        match target {
            Some((a, b)) => {
                self.set(a, b, tile);
            },
            None => {},
        }
        let ghost g1 = self.grid();
        self.set(y, x, Tile::Empty);
        proof {
            assert forall|t: Tile| t != Tile::Empty && free_of(g, t) implies free_of(
                self.grid(),
                t,
            ) by {
                assert forall|a: int, b: int| inside(self.grid(), a, b) implies #[trigger] self.grid()[a][b]
                    != t by {
                    assert(inside(g, a, b));
                    assert(g[a][b] != t);
                    if inside(g, y as int, x as int) {
                        assert(g[y as int][x as int] != t);
                    }
                }
            }
        }
    }

    /// Pushes the wide box with a half at `pos`, and every box in its way,
    /// one cell in the direction of `command`.
    pub fn move_2x1_box(&mut self, pos: (usize, usize), command: &Command)
        requires
            old(self).wf(),
        ensures
            final(self).grid() == shoved(
                old(self).grid(),
                old(self).height(),
                old(self).width(),
                pos.0 as int,
                pos.1 as int,
                *command,
            ),
            final(self).robot == old(self).robot,
            same_shape(old(self).grid(), final(self).grid()),
            final(self).wf(),
            forall|t: Tile|
                t != Tile::Empty && free_of(old(self).grid(), t) ==> free_of(final(self).grid(), t),
        decreases room(old(self).height(), old(self).width(), pos.0 as int, pos.1 as int, *command),
    {
        let (y, x) = pos;
        let (dy, dx) = command.delta();
        let ghost g = self.grid();
        let ghost h = self.height();
        let ghost w = self.width();
        let tile = self.get(y, x);
        if tile != Tile::BoxL && tile != Tile::BoxR {
            return ;
        }
        assert(g[y as int].len() == g[0].len());
        match command {
            Command::Left | Command::Right => {
                let ahead = self.next(y, x, dy, dx);
                match ahead {
                    Some(p) => {
                        self.move_2x1_box(p, command);
                    },
                    None => {},
                }
                let ghost g1 = self.grid();
                assert(g1[y as int].len() == g1[0].len());
                assert(g1 == shoved(g, h, w, y as int, x + dx, *command));
                let ahead = self.next(y, x, dy, dx);
                self.shift_tile(y, x, ahead, Ghost(y as int), Ghost(x + dx));
            },
            Command::Up | Command::Down => {
                let side: i64 = if tile == Tile::BoxL {
                    1
                } else {
                    -1
                };
                let ahead = self.next(y, x, dy, 0);
                match ahead {
                    Some(p) => {
                        self.move_2x1_box(p, command);
                    },
                    None => {},
                }
                let ghost g1 = self.grid();
                assert(g1 == shoved(g, h, w, y + dy, x as int, *command));
                let beside = self.next(y, x, dy, side);
                match beside {
                    Some(p) => {
                        self.move_2x1_box(p, command);
                    },
                    None => {},
                }
                let ghost g2 = self.grid();
                assert(g2 == shoved(g1, h, w, y + dy, x + side, *command));
                let ahead = self.next(y, x, dy, 0);
                self.shift_tile(y, x, ahead, Ghost(y + dy), Ghost(x as int));
                let beside = self.next(y, x, dy, side);
                let partner = self.next(y, x, 0, side);
                match partner {
                    Some(p) => {
                        self.shift_tile(p.0, p.1, beside, Ghost(y + dy), Ghost(x + side));
                    },
                    None => {
                        proof {
                            let g3 = self.grid();
                            assert(same_shape(g, g3));
                            assert(g3[y as int].len() == g3[0].len());
                            if 0 <= y + dy < g3.len() {
                                assert(g3[y + dy].len() == g3[0].len());
                            }
                            assert(g3 == shove_one(g3, y as int, x + side, y + dy, x + side));
                        }
                    },
                }
            },
        }
    }

    /// Moves the robot one cell as `command` says, pushing the boxes in its
    /// way if they can give way, and staying put otherwise.
    pub fn step(&mut self, command: Command)
        requires
            old(self).wf(),
            old(self).uniform(),
        ensures
            final(self).wf(),
            final(self).uniform(),
            same_shape(old(self).grid(), final(self).grid()),
            stepped(old(self).grid(), old(self).robot, command, final(self).grid(), final(self).robot),
    {
        let (dy, dx) = command.delta();
        let ghost g = self.grid();
        let ghost ry = self.robot.0 as int;
        let ghost rx = self.robot.1 as int;
        let first = self.next(self.robot.0, self.robot.1, dy, dx);
        let (ny, nx) = match first {
            Some(p) => p,
            None => {
                return ;
            },
        };
        assert(g[ny as int].len() == g[0].len());
        match self.tiles[ny][nx] {
            Tile::Empty => {
                self.robot = (ny, nx);
            },
            Tile::Box => {
                let mut cur: (usize, usize) = (ny, nx);
                let ghost mut i: int = 1;
                let mut gap: Option<(usize, usize)> = None;
                loop
                    invariant_except_break
                        1 <= i,
                        gap is None,
                        chain(g, ry, rx, command, i),
                        cur.0 == ahead(ry, rx, command, i).0,
                        cur.1 == ahead(ry, rx, command, i).1,
                        inside(g, cur.0 as int, cur.1 as int),
                        i == 1 ==> g[cur.0 as int][cur.1 as int] == Tile::Box,
                    invariant
                        self.grid() == g,
                        self.wf(),
                        self.robot.0 == ry,
                        self.robot.1 == rx,
                        dy == command.delta_spec().0,
                        dx == command.delta_spec().1,
                    ensures
                        2 <= i,
                        chain(g, ry, rx, command, i),
                        gap is None ==> tile_at(
                            g,
                            ahead(ry, rx, command, i).0,
                            ahead(ry, rx, command, i).1,
                        ) == Tile::Wall,
                        gap is Some ==> gap.unwrap().0 == ahead(ry, rx, command, i).0 && gap.unwrap().1
                            == ahead(ry, rx, command, i).1 && inside(
                            g,
                            gap.unwrap().0 as int,
                            gap.unwrap().1 as int,
                        ) && g[gap.unwrap().0 as int][gap.unwrap().1 as int] == Tile::Empty,
                    decreases room(self.height(), self.width(), cur.0 as int, cur.1 as int, command),
                {
                    assert(g[cur.0 as int].len() == g[0].len());
                    let tile = self.tiles[cur.0][cur.1];
                    if tile == Tile::Wall {
                        break ;
                    }
                    if tile == Tile::Empty {
                        gap = Some(cur);
                        break ;
                    }
                    let following = self.next(cur.0, cur.1, dy, dx);
                    proof {
                        assert forall|m: int| 1 <= m < i + 1 implies {
                            let p = #[trigger] ahead(ry, rx, command, m);
                            tile_at(g, p.0, p.1) != Tile::Wall && tile_at(g, p.0, p.1)
                                != Tile::Empty
                        } by {
                            if m < i {
                                assert(chain(g, ry, rx, command, i));
                            }
                        }
                        i = i + 1;
                    }
                    match following {
                        Some(p) => {
                            assert(g[p.0 as int].len() == g[0].len());
                            cur = p;
                        },
                        None => {
                            break ;
                        },
                    }
                }
                if let Some((y, x)) = gap {
                    self.set(ny, nx, Tile::Empty);
                    self.robot = (ny, nx);
                    self.set(y, x, Tile::Box);
                    assert(self.grid() == chain_pushed(g, ry, rx, command, i));
                }
                proof {
                    assert(!free_of(g, Tile::Box)) by {
                        assert(inside(g, ny as int, nx as int));
                        assert(g[ny as int][nx as int] == Tile::Box);
                    }
                    assert(free_of(self.grid(), Tile::BoxL));
                    assert(free_of(self.grid(), Tile::BoxR));
                }
            },
            Tile::BoxL | Tile::BoxR => {
                proof {
                    assert(inside(g, ny as int, nx as int));
                    let t = g[ny as int][nx as int];
                    assert(!free_of(g, t));
                    assert(free_of(g, Tile::Box));
                }
                if self.can_move_2x1_box((ny, nx), &command) {
                    self.move_2x1_box((ny, nx), &command);
                    self.robot = (ny, nx);
                }
            },
            Tile::Wall => {},
        }
    }

    /// The sum of the GPS coordinates of all boxes: a hundred times the row
    /// plus the column, of each small box and of each wide box's left half.
    pub fn sum_gps_coordinates(&self) -> (res: usize)
        requires
            self.wf(),
            gps_fit(self.height(), self.width()),
        ensures
            res == grid_gps(self.grid(), self.height()),
    {
        let mut res: usize = 0;
        let ghost g = self.grid();
        let mut i: usize = 0;
        proof {
            lemma_grid_gps_bound(g, g.len() as int, g.len() as int);
        }
        while i < self.tiles.len()
            invariant
                i <= self.tiles.len(),
                g == self.grid(),
                self.wf(),
                res == grid_gps(g, i as int),
                grid_gps(g, g.len() as int) <= usize::MAX,
            decreases self.tiles.len() - i,
        {
            let mut j: usize = 0;
            assert(g[i as int].len() == g[0].len());
            let ghost before = res as int;
            while j < self.tiles[0].len()
                invariant
                    i < self.tiles.len(),
                    j <= self.tiles[0].len(),
                    g == self.grid(),
                    g[i as int].len() == g[0].len(),
                    width(g) == self.tiles[0].len(),
                    before == grid_gps(g, i as int),
                    res == before + row_gps(g[i as int], i as int, j as int),
                    grid_gps(g, g.len() as int) <= usize::MAX,
                decreases self.tiles[0].len() - j,
            {
                proof {
                    lemma_row_gps_monotonic(g[i as int], i as int, j + 1, width(g));
                    lemma_grid_gps_monotonic(g, i + 1, g.len() as int);
                }
                let tile = self.tiles[i][j];
                if tile == Tile::Box || tile == Tile::BoxL {
                    res += 100 * i + j;
                }
                j += 1;
            }
            i += 1;
        }
        res
    }

    /// Widens the warehouse: every tile becomes two, a small box becomes a
    /// wide one, and the robot's column doubles.
    pub fn expand(&mut self)
        requires
            free_of(old(self).grid(), Tile::BoxL),
            free_of(old(self).grid(), Tile::BoxR),
            old(self).robot.1 * 2 <= usize::MAX,
        ensures
            final(self).robot.0 == old(self).robot.0,
            final(self).robot.1 == old(self).robot.1 * 2,
            widened(old(self).grid(), final(self).grid()),
    {
        self.robot = (self.robot.0, self.robot.1 * 2);
        let ghost g = self.grid();
        let mut wide: Vec<Vec<Tile>> = Vec::new();
        let mut i: usize = 0;
        while i < self.tiles.len()
            invariant
                i <= self.tiles.len(),
                g == self.grid(),
                wide.len() == i,
                forall|a: int| 0 <= a < i ==> (#[trigger] wide[a]).len() == 2 * g[a].len(),
                forall|a: int, b: int|
                    0 <= a < i && 0 <= b < g[a].len() ==> wide[a][2 * b] == left_half(
                        #[trigger] g[a][b],
                    ) && wide[a][2 * b + 1] == right_half(g[a][b]),
            decreases self.tiles.len() - i,
        {
            let mut row: Vec<Tile> = Vec::new();
            let mut j: usize = 0;
            while j < self.tiles[i].len()
                invariant
                    i < self.tiles.len(),
                    j <= self.tiles[i as int].len(),
                    g == self.grid(),
                    row.len() == 2 * j,
                    forall|b: int|
                        0 <= b < j ==> row[2 * b] == left_half(#[trigger] g[i as int][b]) && row[2
                            * b + 1] == right_half(g[i as int][b]),
                decreases self.tiles[i as int].len() - j,
            {
                let tile = self.tiles[i][j];
                let ghost prev = row@;
                match tile {
                    Tile::Box => {
                        row.push(Tile::BoxL);
                        row.push(Tile::BoxR);
                    },
                    _ => {
                        row.push(tile);
                        row.push(tile);
                    },
                }
                assert forall|b: int| 0 <= b < j + 1 implies row[2 * b] == left_half(
                    #[trigger] g[i as int][b],
                ) && row[2 * b + 1] == right_half(g[i as int][b]) by {
                    if b < j {
                        assert(row[2 * b] == prev[2 * b]);
                        assert(row[2 * b + 1] == prev[2 * b + 1]);
                    }
                }
                j += 1;
            }
            wide.push(row);
            i += 1;
        }
        self.tiles = wide;
        assert(widened(g, self.grid()));
    }

    /// Reads a warehouse from its map. Every character that names a tile
    /// gives that tile; any other character leaves an empty cell and marks
    /// the robot.
    pub fn try_from(value: &str) -> (res: Result<Warehouse, &'static str>)
        ensures
            res is Ok,
            ({
                let rows = text::lines_of(value@);
                let w = res->Ok_0;
                &&& w.grid().len() == rows.len()
                &&& forall|i: int| 0 <= i < rows.len() ==> (#[trigger] w.grid()[i]).len() == rows[i].len()
                &&& forall|i: int, j: int|
                    0 <= i < rows.len() && 0 <= j < rows[i].len() ==> #[trigger] w.grid()[i][j]
                        == floor_of(rows[i][j])
                &&& marks_robot(rows, w.robot)
            }),
    {
        let all = text::chars(value);
        let lines = text::lines(&all);
        let ghost rows = text::lines_of(value@);
        assert(rows == text::views(lines@));
        let mut robot: (usize, usize) = (0, 0);
        let ghost mut marked = false;
        let mut tiles: Vec<Vec<Tile>> = Vec::new();
        let mut i: usize = 0;
        while i < lines.len()
            invariant
                i <= lines.len(),
                rows == text::views(lines@),
                tiles.len() == i,
                forall|a: int| 0 <= a < i ==> (#[trigger] tiles[a]).len() == rows[a].len(),
                forall|a: int, b: int|
                    0 <= a < i && 0 <= b < rows[a].len() ==> #[trigger] tiles[a][b] == floor_of(
                        rows[a][b],
                    ),
                marked ==> 0 <= robot.0 < i && 0 <= robot.1 < rows[robot.0 as int].len() && tile_of(
                    rows[robot.0 as int][robot.1 as int],
                ) is None,
                !marked ==> robot == (0usize, 0usize),
                forall|a: int, b: int|
                    0 <= a < i && 0 <= b < rows[a].len() && #[trigger] tile_of(rows[a][b]) is None
                        ==> marked && !after(a, b, robot.0 as int, robot.1 as int),
            decreases lines.len() - i,
        {
            let mut row: Vec<Tile> = Vec::new();
            let mut j: usize = 0;
            assert(rows[i as int] == lines[i as int]@);
            while j < lines[i].len()
                invariant
                    i < lines.len(),
                    j <= lines[i as int].len(),
                    rows == text::views(lines@),
                    rows[i as int] == lines[i as int]@,
                    row.len() == j,
                    forall|b: int| 0 <= b < j ==> #[trigger] row[b] == floor_of(rows[i as int][b]),
                    marked ==> 0 <= robot.0 <= i && 0 <= robot.1 < rows[robot.0 as int].len()
                        && tile_of(rows[robot.0 as int][robot.1 as int]) is None,
                    marked && robot.0 == i ==> robot.1 < j,
                    !marked ==> robot == (0usize, 0usize),
                    forall|a: int, b: int|
                        0 <= a < i && 0 <= b < rows[a].len() && #[trigger] tile_of(rows[a][b]) is None
                            ==> marked && !after(a, b, robot.0 as int, robot.1 as int),
                    forall|b: int|
                        0 <= b < j && #[trigger] tile_of(rows[i as int][b]) is None ==> marked
                            && !after(i as int, b, robot.0 as int, robot.1 as int),
                decreases lines[i as int].len() - j,
            {
                let c = lines[i][j];
                match Tile::try_from(c) {
                    Ok(tile) => {
                        row.push(tile);
                    },
                    Err(_) => {
                        robot = (i, j);
                        proof {
                            marked = true;
                        }
                        row.push(Tile::Empty);
                    },
                }
                j += 1;
            }
            tiles.push(row);
            i += 1;
        }
        let w = Warehouse { robot, tiles };
        assert(w.grid().len() == rows.len());
        Ok(w)
    }

    /// The warehouse as text, one line for each row.
    pub fn to_string(&self) -> (s: String)
        requires
            self.wf(),
        ensures
            s@ == render(self.grid(), self.robot, self.height()),
    {
        let mut out: Vec<char> = Vec::new();
        let ghost g = self.grid();
        let mut i: usize = 0;
        while i < self.tiles.len()
            invariant
                i <= self.tiles.len(),
                g == self.grid(),
                self.wf(),
                out@ == render(g, self.robot, i as int),
            decreases self.tiles.len() - i,
        {
            let mut j: usize = 0;
            assert(g[i as int].len() == g[0].len());
            let ghost before = out@;
            let ghost line = render_row(g[i as int], i as int, self.robot);
            while j < self.tiles[0].len()
                invariant
                    i < self.tiles.len(),
                    j <= self.tiles[0].len(),
                    g == self.grid(),
                    g[i as int].len() == g[0].len(),
                    g[0].len() == self.tiles[0].len(),
                    line == render_row(g[i as int], i as int, self.robot),
                    out@ == before + line.take(j as int),
                decreases self.tiles[0].len() - j,
            {
                let c = if self.robot.0 == i && self.robot.1 == j {
                    '@'
                } else {
                    self.tiles[i][j].to_char()
                };
                out.push(c);
                assert(out@ =~= before + line.take(j + 1));
                j += 1;
            }
            out.push('\n');
            assert(out@ =~= before + line);
            i += 1;
        }
        text::string_of(&out)
    }
}

impl Warehouse {
    /// Takes the steps that the commands say, one after the other.
    pub fn run(&mut self, commands: &Vec<Command>)
        requires
            old(self).wf(),
            old(self).uniform(),
        ensures
            final(self).wf(),
            final(self).uniform(),
            same_shape(old(self).grid(), final(self).grid()),
            ran(
                old(self).grid(),
                old(self).robot,
                commands@,
                commands.len() as int,
                final(self).grid(),
                final(self).robot,
            ),
    {
        let mut i: usize = 0;
        while i < commands.len()
            invariant
                i <= commands.len(),
                self.wf(),
                self.uniform(),
                same_shape(old(self).grid(), self.grid()),
                ran(old(self).grid(), old(self).robot, commands@, i as int, self.grid(), self.robot),
            decreases commands.len() - i,
        {
            let ghost mid = self.grid();
            let ghost at = self.robot;
            self.step(commands[i]);
            proof {
                lemma_ran_on(
                    old(self).grid(),
                    old(self).robot,
                    commands@,
                    i + 1,
                    mid,
                    at,
                    self.grid(),
                    self.robot,
                );
            }
            i += 1;
        }
    }
}

/// A step into a wall changes nothing: not the grid, not the place of
/// the robot.
pub proof fn lemma_wall_stops(g: Grid, robot: (usize, usize), command: Command, after: Grid, moved: (usize, usize))
    requires
        stepped(g, robot, command, after, moved),
        ({
            let n = ahead(robot.0 as int, robot.1 as int, command, 1);
            tile_at(g, n.0, n.1) == Tile::Wall
        }),
    ensures
        after == g,
        moved == robot,
{
}

/// A chain of boxes before a wall changes nothing either.
pub proof fn lemma_blocked_chain_stays(
    g: Grid,
    robot: (usize, usize),
    command: Command,
    after: Grid,
    moved: (usize, usize),
    k: int,
)
    requires
        stepped(g, robot, command, after, moved),
        k >= 2,
        forall|i: int|
            1 <= i < k ==> {
                let p = #[trigger] ahead(robot.0 as int, robot.1 as int, command, i);
                tile_at(g, p.0, p.1) == Tile::Box
            },
        ({
            let e = ahead(robot.0 as int, robot.1 as int, command, k);
            tile_at(g, e.0, e.1) == Tile::Wall
        }),
    ensures
        after == g,
        moved == robot,
{
    let ry = robot.0 as int;
    let rx = robot.1 as int;
    let first = ahead(ry, rx, command, 1);
    assert(tile_at(g, first.0, first.1) == Tile::Box);
    let j = choose|j: int|
        2 <= j && #[trigger] chain(g, ry, rx, command, j) && {
            let e = ahead(ry, rx, command, j);
            ||| tile_at(g, e.0, e.1) == Tile::Wall && after == g && moved == robot
            ||| tile_at(g, e.0, e.1) == Tile::Empty && moved.0 == first.0 && moved.1 == first.1 && after
                == chain_pushed(g, ry, rx, command, j)
        };
    lemma_first_gap(g, ry, rx, command, k, j);
}

/// A chain of boxes before an empty tile shifts by one: the robot takes
/// the place of the first box, every box of the chain stands one tile
/// further, and no other tile changes.
pub proof fn lemma_chain_shifts(
    g: Grid,
    robot: (usize, usize),
    command: Command,
    after: Grid,
    moved: (usize, usize),
    k: int,
)
    requires
        stepped(g, robot, command, after, moved),
        k >= 2,
        forall|i: int|
            1 <= i < k ==> {
                let p = #[trigger] ahead(robot.0 as int, robot.1 as int, command, i);
                tile_at(g, p.0, p.1) == Tile::Box
            },
        ({
            let e = ahead(robot.0 as int, robot.1 as int, command, k);
            tile_at(g, e.0, e.1) == Tile::Empty
        }),
    ensures
        ({
            let first = ahead(robot.0 as int, robot.1 as int, command, 1);
            moved.0 == first.0 && moved.1 == first.1 && tile_at(after, first.0, first.1) == Tile::Empty
        }),
        forall|i: int|
            1 <= i < k ==> {
                let p = #[trigger] ahead(robot.0 as int, robot.1 as int, command, i + 1);
                tile_at(after, p.0, p.1) == Tile::Box
            },
        forall|y: int, x: int|
            (forall|i: int| 1 <= i <= k ==> #[trigger] ahead(robot.0 as int, robot.1 as int, command, i) != (
                y,
                x,
            )) ==> #[trigger] tile_at(after, y, x) == tile_at(g, y, x),
{
    let ry = robot.0 as int;
    let rx = robot.1 as int;
    let first = ahead(ry, rx, command, 1);
    let last = ahead(ry, rx, command, k);
    assert(tile_at(g, first.0, first.1) == Tile::Box);
    let j = choose|j: int|
        2 <= j && #[trigger] chain(g, ry, rx, command, j) && {
            let e = ahead(ry, rx, command, j);
            ||| tile_at(g, e.0, e.1) == Tile::Wall && after == g && moved == robot
            ||| tile_at(g, e.0, e.1) == Tile::Empty && moved.0 == first.0 && moved.1 == first.1 && after
                == chain_pushed(g, ry, rx, command, j)
        };
    lemma_first_gap(g, ry, rx, command, k, j);
    assert(after == chain_pushed(g, ry, rx, command, k));
    assert(inside(g, first.0, first.1));
    assert(inside(g, last.0, last.1));
    let emptied = put(g, first.0, first.1, Tile::Empty);
    assert(after == put(emptied, last.0, last.1, Tile::Box));
    assert forall|i: int| 1 <= i < k implies {
        let p = #[trigger] ahead(ry, rx, command, i + 1);
        tile_at(after, p.0, p.1) == Tile::Box
    } by {
        let p = ahead(ry, rx, command, i + 1);
        if i + 1 < k {
            let q = ahead(ry, rx, command, i + 1);
            assert(tile_at(g, q.0, q.1) == Tile::Box);
        }
    }
    assert forall|y: int, x: int|
        (forall|i: int| 1 <= i <= k ==> #[trigger] ahead(ry, rx, command, i) != (y, x)) implies #[trigger] tile_at(
        after,
        y,
        x,
    ) == tile_at(g, y, x) by {
        assert(ahead(ry, rx, command, 1) != (y, x));
        assert(ahead(ry, rx, command, k) != (y, x));
    }
}

/// A chain of boxes ends where it ends: the first tile ahead that holds
/// neither wall nor box nor anything else is the same however it is found.
pub proof fn lemma_first_gap(g: Grid, y: int, x: int, command: Command, k: int, j: int)
    requires
        k >= 1,
        j >= 1,
        chain(g, y, x, command, j),
        forall|i: int|
            1 <= i < k ==> {
                let p = #[trigger] ahead(y, x, command, i);
                tile_at(g, p.0, p.1) == Tile::Box
            },
        ({
            let e = ahead(y, x, command, k);
            tile_at(g, e.0, e.1) == Tile::Wall || tile_at(g, e.0, e.1) == Tile::Empty
        }),
        ({
            let e = ahead(y, x, command, j);
            tile_at(g, e.0, e.1) == Tile::Wall || tile_at(g, e.0, e.1) == Tile::Empty
        }),
    ensures
        j == k,
{
    if j < k {
        let p = ahead(y, x, command, j);
        assert(tile_at(g, p.0, p.1) == Tile::Box);
    } else if k < j {
        let p = ahead(y, x, command, k);
        assert(tile_at(g, p.0, p.1) != Tile::Wall && tile_at(g, p.0, p.1) != Tile::Empty);
    }
}

/// Whether the grid `r` is the grid `g` with the `k` tiles from `(y, x)`
/// on in the direction of `cmd` shifted by one: the first of their cells
/// is empty, each of the tiles stands one cell further, and no other cell
/// has changed.
pub open spec fn row_shifted(g: Grid, r: Grid, y: int, x: int, cmd: Command, k: int) -> bool {
    &&& same_shape(g, r)
    &&& tile_at(r, y, x) == Tile::Empty
    &&& forall|i: int|
        0 <= i < k ==> {
            let to = #[trigger] ahead(y, x, cmd, i + 1);
            let from = ahead(y, x, cmd, i);
            tile_at(r, to.0, to.1) == tile_at(g, from.0, from.1)
        }
    &&& forall|a: int, b: int|
        (forall|i: int| 0 <= i <= k ==> #[trigger] ahead(y, x, cmd, i) != (a, b)) ==> #[trigger] tile_at(r, a, b)
            == tile_at(g, a, b)
}

/// A row of wide boxes before an empty tile can be shoved sideways, and
/// the shove shifts exactly that row by one.
pub proof fn lemma_row_shifts(g: Grid, y: int, x: int, cmd: Command, k: int)
    requires
        rectangular(g),
        cmd.is_horizontal(),
        k >= 1,
        forall|i: int|
            0 <= i < k ==> {
                let p = #[trigger] ahead(y, x, cmd, i);
                inside(g, p.0, p.1) && is_wide_half(g[p.0][p.1])
            },
        ({
            let e = ahead(y, x, cmd, k);
            inside(g, e.0, e.1) && g[e.0][e.1] == Tile::Empty
        }),
    ensures
        can_shove(g, g.len() as int, width(g), y, x, cmd),
        row_shifted(g, shoved(g, g.len() as int, width(g), y, x, cmd), y, x, cmd, k),
    decreases k,
{
    let h = g.len() as int;
    let w = width(g);
    let dx = cmd.delta_spec().1;
    let here = ahead(y, x, cmd, 0);
    let next = ahead(y, x, cmd, 1);
    assert(here == (y, x));
    assert(next == (y, x + dx));
    assert(inside(g, here.0, here.1) && is_wide_half(g[here.0][here.1]));
    assert(g[y].len() == g[0].len());
    assert(inside(g, next.0, next.1)) by {
        if k == 1 {
        } else {
            let p = ahead(y, x, cmd, 1);
            assert(inside(g, p.0, p.1));
        }
    }
    let g1 = shoved(g, h, w, y, x + dx, cmd);
    let r = shoved(g, h, w, y, x, cmd);
    assert(r == shove_one(g1, y, x, y, x + dx));
    if k == 1 {
        assert(g[next.0][next.1] == Tile::Empty);
        assert(g1 == g);
        assert(can_shove(g, h, w, y, x + dx, cmd));
    } else {
        assert forall|i: int| 0 <= i < k - 1 implies {
            let p = #[trigger] ahead(y, x + dx, cmd, i);
            inside(g, p.0, p.1) && is_wide_half(g[p.0][p.1])
        } by {
            let q = ahead(y, x, cmd, i + 1);
            assert(ahead(y, x + dx, cmd, i) == q);
            assert(inside(g, q.0, q.1));
        }
        assert(ahead(y, x + dx, cmd, k - 1) == ahead(y, x, cmd, k));
        lemma_row_shifts(g, y, x + dx, cmd, k - 1);
        assert(row_shifted(g, g1, y, x + dx, cmd, k - 1));
        assert(tile_at(g1, y, x) == tile_at(g, y, x)) by {
            assert forall|i: int| 0 <= i <= k - 1 implies #[trigger] ahead(y, x + dx, cmd, i) != (y, x) by {}
        }
    }
    assert(same_shape(g, g1));
    assert(inside(g1, y, x) && inside(g1, y, x + dx));
    assert(tile_at(g1, y, x + dx) == Tile::Empty);
    assert forall|i: int| 0 <= i < k implies {
        let to = #[trigger] ahead(y, x, cmd, i + 1);
        let from = ahead(y, x, cmd, i);
        tile_at(r, to.0, to.1) == tile_at(g, from.0, from.1)
    } by {
        if i >= 1 {
            let to = ahead(y, x + dx, cmd, i);
            assert(to == ahead(y, x, cmd, i + 1));
            assert(ahead(y, x + dx, cmd, i - 1) == ahead(y, x, cmd, i));
            let inner = ahead(y, x + dx, cmd, i - 1 + 1);
            assert(tile_at(g1, inner.0, inner.1) == tile_at(g, ahead(y, x, cmd, i).0, ahead(y, x, cmd, i).1));
        }
    }
    assert forall|a: int, b: int|
        (forall|i: int| 0 <= i <= k ==> #[trigger] ahead(y, x, cmd, i) != (a, b)) implies #[trigger] tile_at(r, a, b)
        == tile_at(g, a, b) by {
        assert(ahead(y, x, cmd, 0) != (a, b));
        assert(ahead(y, x, cmd, 1) != (a, b));
        let mid = put(g1, y, x + dx, tile_at(g1, y, x));
        assert(tile_at(mid, a, b) == tile_at(g1, a, b));
        assert(tile_at(r, a, b) == tile_at(mid, a, b));
        if k > 1 {
            assert forall|i: int| 0 <= i <= k - 1 implies #[trigger] ahead(y, x + dx, cmd, i) != (a, b) by {
                assert(ahead(y, x + dx, cmd, i) == ahead(y, x, cmd, i + 1));
            }
        }
    }
    assert(can_shove(g, h, w, y, x, cmd));
}

/// The other half of a wide box.
pub open spec fn other_half(tile: Tile) -> Tile {
    if tile == Tile::BoxL {
        Tile::BoxR
    } else {
        Tile::BoxL
    }
}

/// Whether `k` wide boxes stand in a straight stack from `(y, x)` on in
/// the direction of `cmd`, each with the half at column `x` that the first
/// has there, before two empty tiles.
pub open spec fn stacked(g: Grid, y: int, x: int, cmd: Command, k: int) -> bool {
    let half = tile_at(g, y, x);
    let px = partner(half, x);
    &&& is_wide_half(half)
    &&& forall|i: int|
        0 <= i < k ==> {
            let p = #[trigger] ahead(y, x, cmd, i);
            inside(g, p.0, p.1) && inside(g, p.0, px) && g[p.0][p.1] == half && g[p.0][px] == other_half(half)
        }
    &&& ({
        let e = ahead(y, x, cmd, k);
        inside(g, e.0, e.1) && inside(g, e.0, px) && g[e.0][e.1] == Tile::Empty && g[e.0][px] == Tile::Empty
    })
}

/// Whether the grid `r` is the grid `g` with the tiles of the `k` rows
/// from `y` on in the direction of `cmd`, at the columns `x` and `px`,
/// shifted by one: the first two of their cells are empty, each of the
/// tiles stands one row further, and no other cell has changed.
pub open spec fn stack_shifted(g: Grid, r: Grid, y: int, x: int, px: int, cmd: Command, k: int) -> bool {
    &&& same_shape(g, r)
    &&& tile_at(r, y, x) == Tile::Empty
    &&& tile_at(r, y, px) == Tile::Empty
    &&& forall|i: int|
        0 <= i < k ==> {
            let to = #[trigger] ahead(y, x, cmd, i + 1);
            let from = ahead(y, x, cmd, i);
            tile_at(r, to.0, to.1) == tile_at(g, from.0, from.1) && tile_at(r, to.0, px) == tile_at(g, from.0, px)
        }
    &&& forall|a: int, b: int|
        (forall|i: int| 0 <= i <= k ==> (#[trigger] ahead(y, x, cmd, i)).0 != a) || (b != x && b != px)
            ==> #[trigger] tile_at(r, a, b) == tile_at(g, a, b)
}

/// Seen from the column of its other halves, a stack is a stack.
pub proof fn lemma_stack_mirrored(g: Grid, y: int, x: int, cmd: Command, k: int)
    requires
        !cmd.is_horizontal(),
        k >= 1,
        stacked(g, y, x, cmd, k),
    ensures
        stacked(g, y, partner(tile_at(g, y, x), x), cmd, k),
        tile_at(g, y, partner(tile_at(g, y, x), x)) == other_half(tile_at(g, y, x)),
        partner(other_half(tile_at(g, y, x)), partner(tile_at(g, y, x), x)) == x,
{
    let half = tile_at(g, y, x);
    let px = partner(half, x);
    let first = ahead(y, x, cmd, 0);
    assert(first == (y, x));
    assert(inside(g, first.0, first.1) && g[first.0][px] == other_half(half));
    assert(tile_at(g, y, px) == other_half(half));
    assert forall|i: int| 0 <= i < k implies {
        let p = #[trigger] ahead(y, px, cmd, i);
        inside(g, p.0, p.1) && inside(g, p.0, x) && g[p.0][p.1] == other_half(half) && g[p.0][x] == other_half(
            other_half(half),
        )
    } by {
        let q = ahead(y, x, cmd, i);
        assert(ahead(y, px, cmd, i) == (q.0, px));
        assert(inside(g, q.0, q.1));
    }
    assert(ahead(y, px, cmd, k) == (ahead(y, x, cmd, k).0, px));
}

/// Without its first box, a stack is a stack.
pub proof fn lemma_stack_rest(g: Grid, y: int, x: int, cmd: Command, k: int)
    requires
        !cmd.is_horizontal(),
        k >= 2,
        stacked(g, y, x, cmd, k),
    ensures
        stacked(g, y + cmd.delta_spec().0, x, cmd, k - 1),
        tile_at(g, y + cmd.delta_spec().0, x) == tile_at(g, y, x),
{
    let dy = cmd.delta_spec().0;
    let half = tile_at(g, y, x);
    let px = partner(half, x);
    let p = ahead(y, x, cmd, 1);
    assert(p == (y + dy, x));
    assert(inside(g, p.0, p.1) && g[p.0][p.1] == half);
    assert forall|i: int| 0 <= i < k - 1 implies {
        let p = #[trigger] ahead(y + dy, x, cmd, i);
        inside(g, p.0, p.1) && inside(g, p.0, px) && g[p.0][p.1] == half && g[p.0][px] == other_half(half)
    } by {
        let q = ahead(y, x, cmd, i + 1);
        assert(ahead(y + dy, x, cmd, i) == q);
        assert(inside(g, q.0, q.1));
    }
    assert(ahead(y + dy, x, cmd, k - 1) == ahead(y, x, cmd, k));
}

/// The two cells behind the first box of a stack lie in the grid, and
/// hold the next box or nothing.
pub proof fn lemma_stack_second(g: Grid, y: int, x: int, cmd: Command, k: int)
    requires
        !cmd.is_horizontal(),
        k >= 1,
        stacked(g, y, x, cmd, k),
    ensures
        inside(g, y, x),
        inside(g, y, partner(tile_at(g, y, x), x)),
        inside(g, y + cmd.delta_spec().0, x),
        inside(g, y + cmd.delta_spec().0, partner(tile_at(g, y, x), x)),
        k == 1 ==> tile_at(g, y + cmd.delta_spec().0, x) == Tile::Empty && tile_at(
            g,
            y + cmd.delta_spec().0,
            partner(tile_at(g, y, x), x),
        ) == Tile::Empty,
        k > 1 ==> tile_at(g, y + cmd.delta_spec().0, x) == tile_at(g, y, x) && tile_at(
            g,
            y + cmd.delta_spec().0,
            partner(tile_at(g, y, x), x),
        ) == other_half(tile_at(g, y, x)),
{
    let dy = cmd.delta_spec().0;
    let first = ahead(y, x, cmd, 0);
    let p = ahead(y, x, cmd, 1);
    assert(first == (y, x));
    assert(p == (y + dy, x));
    assert(inside(g, first.0, first.1));
    if k > 1 {
        assert(inside(g, p.0, p.1));
    }
}

/// A straight stack of wide boxes before two empty tiles can be shoved up
/// or down.
pub proof fn lemma_stack_gives_way(g: Grid, y: int, x: int, cmd: Command, k: int)
    requires
        rectangular(g),
        !cmd.is_horizontal(),
        k >= 1,
        stacked(g, y, x, cmd, k),
    ensures
        can_shove(g, g.len() as int, width(g), y, x, cmd),
    decreases k,
{
    let h = g.len() as int;
    let w = width(g);
    let dy = cmd.delta_spec().0;
    let px = partner(tile_at(g, y, x), x);
    lemma_stack_second(g, y, x, cmd, k);
    assert(g[y].len() == g[0].len());
    assert(g[y + dy].len() == g[0].len());
    if k == 1 {
        assert(can_shove(g, h, w, y + dy, x, cmd));
        assert(can_shove(g, h, w, y + dy, px, cmd));
    } else {
        lemma_stack_rest(g, y, x, cmd, k);
        lemma_stack_gives_way(g, y + dy, x, cmd, k - 1);
        lemma_stack_mirrored(g, y + dy, x, cmd, k - 1);
        lemma_stack_gives_way(g, y + dy, px, cmd, k - 1);
    }
}

/// What two moves of one tile each leave: the two tiles at `(y, x)` and
/// `(y, px)` stand in the row `ny`, their own cells are empty, and no
/// other cell has changed.
pub proof fn lemma_pair_moved(g: Grid, y: int, x: int, px: int, ny: int)
    requires
        x != px,
        y != ny,
        inside(g, y, x),
        inside(g, y, px),
        inside(g, ny, x),
        inside(g, ny, px),
    ensures
        ({
            let r = shove_one(shove_one(g, y, x, ny, x), y, px, ny, px);
            &&& same_shape(g, r)
            &&& tile_at(r, y, x) == Tile::Empty
            &&& tile_at(r, y, px) == Tile::Empty
            &&& tile_at(r, ny, x) == tile_at(g, y, x)
            &&& tile_at(r, ny, px) == tile_at(g, y, px)
            &&& forall|a: int, b: int|
                (a != y && a != ny) || (b != x && b != px) ==> #[trigger] tile_at(r, a, b) == tile_at(g, a, b)
        }),
{
    let m1 = put(g, ny, x, tile_at(g, y, x));
    let g3 = put(m1, y, x, Tile::Empty);
    assert(g3 == shove_one(g, y, x, ny, x));
    let m2 = put(g3, ny, px, tile_at(g3, y, px));
    let r = put(m2, y, px, Tile::Empty);
    assert(r == shove_one(g3, y, px, ny, px));
    assert(same_shape(g, m1) && same_shape(g, g3) && same_shape(g, m2) && same_shape(g, r));
    assert forall|a: int, b: int| (a != y && a != ny) || (b != x && b != px) implies #[trigger] tile_at(r, a, b)
        == tile_at(g, a, b) by {
        assert(tile_at(m1, a, b) == tile_at(g, a, b));
        assert(tile_at(g3, a, b) == tile_at(m1, a, b));
        assert(tile_at(m2, a, b) == tile_at(g3, a, b));
    }
    assert(tile_at(m1, ny, x) == tile_at(g, y, x));
    assert(tile_at(g3, ny, x) == tile_at(g, y, x));
    assert(tile_at(g3, y, x) == Tile::Empty);
    assert(tile_at(m1, y, px) == tile_at(g, y, px));
    assert(tile_at(g3, y, px) == tile_at(g, y, px));
    assert(tile_at(m2, ny, px) == tile_at(g, y, px));
    assert(tile_at(m2, ny, x) == tile_at(g3, ny, x));
    assert(tile_at(m2, y, x) == tile_at(g3, y, x));
}

/// Shoved up or down, a straight stack of wide boxes before two empty
/// tiles is shifted by one, and nothing else changes.
pub proof fn lemma_stack_shifts(g: Grid, y: int, x: int, cmd: Command, k: int)
    requires
        rectangular(g),
        !cmd.is_horizontal(),
        k >= 1,
        stacked(g, y, x, cmd, k),
    ensures
        stack_shifted(
            g,
            shoved(g, g.len() as int, width(g), y, x, cmd),
            y,
            x,
            partner(tile_at(g, y, x), x),
            cmd,
            k,
        ),
    decreases k,
{
    let h = g.len() as int;
    let w = width(g);
    let dy = cmd.delta_spec().0;
    let half = tile_at(g, y, x);
    let px = partner(half, x);
    lemma_stack_second(g, y, x, cmd, k);
    assert(g[y].len() == g[0].len());
    assert(g[y + dy].len() == g[0].len());
    let g1 = shoved(g, h, w, y + dy, x, cmd);
    let g2 = shoved(g1, h, w, y + dy, px, cmd);
    let r = shoved(g, h, w, y, x, cmd);
    assert(r == shove_one(shove_one(g2, y, x, y + dy, x), y, px, y + dy, px));
    if k == 1 {
        assert(g1 == g);
        assert(g2 == g);
    } else {
        lemma_stack_rest(g, y, x, cmd, k);
        lemma_stack_shifts(g, y + dy, x, cmd, k - 1);
        assert(stack_shifted(g, g1, y + dy, x, px, cmd, k - 1));
        assert(g2 == g1);
        assert(tile_at(g1, y, x) == tile_at(g, y, x) && tile_at(g1, y, px) == tile_at(g, y, px)) by {
            assert forall|i: int| 0 <= i <= k - 1 implies (#[trigger] ahead(y + dy, x, cmd, i)).0 != y by {}
        }
    }
    assert(same_shape(g, g2));
    lemma_pair_moved(g2, y, x, px, y + dy);
    assert(ahead(y, x, cmd, 0) == (y, x));
    assert(ahead(y, x, cmd, 1) == (y + dy, x));
    assert forall|i: int| 0 <= i < k implies {
        let to = #[trigger] ahead(y, x, cmd, i + 1);
        let from = ahead(y, x, cmd, i);
        tile_at(r, to.0, to.1) == tile_at(g, from.0, from.1) && tile_at(r, to.0, px) == tile_at(g, from.0, px)
    } by {
        if i >= 1 {
            let to = ahead(y + dy, x, cmd, i);
            assert(to == ahead(y, x, cmd, i + 1));
            assert(ahead(y + dy, x, cmd, i - 1) == ahead(y, x, cmd, i));
            let inner = ahead(y + dy, x, cmd, i - 1 + 1);
            let from = ahead(y, x, cmd, i);
            assert(tile_at(g1, inner.0, inner.1) == tile_at(g, from.0, from.1));
            assert(tile_at(g1, inner.0, px) == tile_at(g, from.0, px));
            assert(to.0 != y && to.0 != y + dy);
            assert(tile_at(r, to.0, x) == tile_at(g2, to.0, x));
            assert(tile_at(r, to.0, px) == tile_at(g2, to.0, px));
        }
    }
    assert forall|a: int, b: int|
        (forall|i: int| 0 <= i <= k ==> (#[trigger] ahead(y, x, cmd, i)).0 != a) || (b != x && b != px)
        implies #[trigger] tile_at(r, a, b) == tile_at(g, a, b) by {
        if b != x && b != px {
        } else {
            assert(ahead(y, x, cmd, 0).0 != a);
            assert(ahead(y, x, cmd, 1).0 != a);
            if k > 1 {
                assert forall|i: int| 0 <= i <= k - 1 implies (#[trigger] ahead(y + dy, x, cmd, i)).0 != a by {
                    assert(ahead(y + dy, x, cmd, i) == ahead(y, x, cmd, i + 1));
                }
            }
        }
        assert(tile_at(g2, a, b) == tile_at(g, a, b));
        assert(tile_at(r, a, b) == tile_at(g2, a, b));
    }
}

/// A row of wide boxes before a wall cannot be shoved sideways.
pub proof fn lemma_row_blocked(g: Grid, y: int, x: int, cmd: Command, k: int)
    requires
        cmd.is_horizontal(),
        k >= 1,
        forall|i: int|
            0 <= i < k ==> {
                let p = #[trigger] ahead(y, x, cmd, i);
                inside(g, p.0, p.1) && is_wide_half(g[p.0][p.1])
            },
        ({
            let e = ahead(y, x, cmd, k);
            tile_at(g, e.0, e.1) == Tile::Wall
        }),
    ensures
        !can_shove(g, g.len() as int, width(g), y, x, cmd),
    decreases k,
{
    let dx = cmd.delta_spec().1;
    let here = ahead(y, x, cmd, 0);
    assert(here == (y, x));
    assert(inside(g, here.0, here.1) && is_wide_half(g[here.0][here.1]));
    assert(ahead(y, x, cmd, 1) == (y, x + dx));
    if k > 1 {
        assert forall|i: int| 0 <= i < k - 1 implies {
            let p = #[trigger] ahead(y, x + dx, cmd, i);
            inside(g, p.0, p.1) && is_wide_half(g[p.0][p.1])
        } by {
            let q = ahead(y, x, cmd, i + 1);
            assert(ahead(y, x + dx, cmd, i) == q);
            assert(inside(g, q.0, q.1));
        }
        assert(ahead(y, x + dx, cmd, k - 1) == ahead(y, x, cmd, k));
        lemma_row_blocked(g, y, x + dx, cmd, k - 1);
    }
}

/// A robot that steps sideways against a row of wide boxes before an
/// empty tile goes ahead, and shifts exactly that row by one.
pub proof fn lemma_wide_row_gives_way(
    g: Grid,
    robot: (usize, usize),
    command: Command,
    after: Grid,
    moved: (usize, usize),
    k: int,
)
    requires
        rectangular(g),
        stepped(g, robot, command, after, moved),
        command.is_horizontal(),
        k >= 1,
        ({
            let first = ahead(robot.0 as int, robot.1 as int, command, 1);
            &&& forall|i: int|
                0 <= i < k ==> {
                    let p = #[trigger] ahead(first.0, first.1, command, i);
                    inside(g, p.0, p.1) && is_wide_half(g[p.0][p.1])
                }
            &&& ({
                let e = ahead(first.0, first.1, command, k);
                inside(g, e.0, e.1) && g[e.0][e.1] == Tile::Empty
            })
        }),
    ensures
        ({
            let first = ahead(robot.0 as int, robot.1 as int, command, 1);
            moved.0 == first.0 && moved.1 == first.1 && row_shifted(g, after, first.0, first.1, command, k)
        }),
{
    let first = ahead(robot.0 as int, robot.1 as int, command, 1);
    let here = ahead(first.0, first.1, command, 0);
    assert(here == first);
    assert(inside(g, here.0, here.1) && is_wide_half(g[here.0][here.1]));
    lemma_row_shifts(g, first.0, first.1, command, k);
}

/// A robot that steps sideways against a row of wide boxes before a wall
/// stays where it is, and nothing changes.
pub proof fn lemma_wide_row_stays(
    g: Grid,
    robot: (usize, usize),
    command: Command,
    after: Grid,
    moved: (usize, usize),
    k: int,
)
    requires
        stepped(g, robot, command, after, moved),
        command.is_horizontal(),
        k >= 1,
        ({
            let first = ahead(robot.0 as int, robot.1 as int, command, 1);
            &&& forall|i: int|
                0 <= i < k ==> {
                    let p = #[trigger] ahead(first.0, first.1, command, i);
                    inside(g, p.0, p.1) && is_wide_half(g[p.0][p.1])
                }
            &&& ({
                let e = ahead(first.0, first.1, command, k);
                tile_at(g, e.0, e.1) == Tile::Wall
            })
        }),
    ensures
        after == g,
        moved == robot,
{
    let first = ahead(robot.0 as int, robot.1 as int, command, 1);
    let here = ahead(first.0, first.1, command, 0);
    assert(here == first);
    assert(inside(g, here.0, here.1) && is_wide_half(g[here.0][here.1]));
    lemma_row_blocked(g, first.0, first.1, command, k);
}

/// A robot that steps up or down against a straight stack of wide boxes
/// before two empty tiles goes ahead, and shifts exactly that stack by
/// one.
pub proof fn lemma_wide_stack_gives_way(
    g: Grid,
    robot: (usize, usize),
    command: Command,
    after: Grid,
    moved: (usize, usize),
    k: int,
)
    requires
        rectangular(g),
        stepped(g, robot, command, after, moved),
        !command.is_horizontal(),
        k >= 1,
        ({
            let first = ahead(robot.0 as int, robot.1 as int, command, 1);
            stacked(g, first.0, first.1, command, k)
        }),
    ensures
        ({
            let first = ahead(robot.0 as int, robot.1 as int, command, 1);
            moved.0 == first.0 && moved.1 == first.1 && stack_shifted(
                g,
                after,
                first.0,
                first.1,
                partner(tile_at(g, first.0, first.1), first.1),
                command,
                k,
            )
        }),
{
    let first = ahead(robot.0 as int, robot.1 as int, command, 1);
    lemma_stack_second(g, first.0, first.1, command, k);
    lemma_stack_gives_way(g, first.0, first.1, command, k);
    lemma_stack_shifts(g, first.0, first.1, command, k);
}

/// Whether `k` wide boxes stand in a straight stack from `(y, x)` on in
/// the direction of `cmd`, before a wall in one of their two columns.
pub open spec fn stacked_at_wall(g: Grid, y: int, x: int, cmd: Command, k: int) -> bool {
    let half = tile_at(g, y, x);
    let px = partner(half, x);
    &&& is_wide_half(half)
    &&& forall|i: int|
        0 <= i < k ==> {
            let p = #[trigger] ahead(y, x, cmd, i);
            inside(g, p.0, p.1) && inside(g, p.0, px) && g[p.0][p.1] == half && g[p.0][px] == other_half(half)
        }
    &&& ({
        let e = ahead(y, x, cmd, k);
        tile_at(g, e.0, e.1) == Tile::Wall || tile_at(g, e.0, px) == Tile::Wall
    })
}

/// A straight stack of wide boxes before a wall cannot be shoved up or
/// down.
pub proof fn lemma_stack_blocked(g: Grid, y: int, x: int, cmd: Command, k: int)
    requires
        !cmd.is_horizontal(),
        k >= 1,
        stacked_at_wall(g, y, x, cmd, k),
    ensures
        !can_shove(g, g.len() as int, width(g), y, x, cmd),
    decreases k,
{
    let dy = cmd.delta_spec().0;
    let half = tile_at(g, y, x);
    let px = partner(half, x);
    let here = ahead(y, x, cmd, 0);
    let next = ahead(y, x, cmd, 1);
    assert(here == (y, x));
    assert(next == (y + dy, x));
    assert(inside(g, here.0, here.1));
    if k > 1 {
        assert(inside(g, next.0, next.1) && g[next.0][next.1] == half);
        assert forall|i: int| 0 <= i < k - 1 implies {
            let p = #[trigger] ahead(y + dy, x, cmd, i);
            inside(g, p.0, p.1) && inside(g, p.0, px) && g[p.0][p.1] == half && g[p.0][px] == other_half(half)
        } by {
            let q = ahead(y, x, cmd, i + 1);
            assert(ahead(y + dy, x, cmd, i) == q);
            assert(inside(g, q.0, q.1));
        }
        assert(ahead(y + dy, x, cmd, k - 1) == ahead(y, x, cmd, k));
        lemma_stack_blocked(g, y + dy, x, cmd, k - 1);
    }
}

/// A robot that steps up or down against a straight stack of wide boxes
/// before a wall stays where it is, and nothing changes.
pub proof fn lemma_wide_stack_stays(
    g: Grid,
    robot: (usize, usize),
    command: Command,
    after: Grid,
    moved: (usize, usize),
    k: int,
)
    requires
        stepped(g, robot, command, after, moved),
        !command.is_horizontal(),
        k >= 1,
        ({
            let first = ahead(robot.0 as int, robot.1 as int, command, 1);
            stacked_at_wall(g, first.0, first.1, command, k)
        }),
    ensures
        after == g,
        moved == robot,
{
    let first = ahead(robot.0 as int, robot.1 as int, command, 1);
    lemma_stack_blocked(g, first.0, first.1, command, k);
}

} // verus!
