//! Keypads that are typed on through chains of robots: each robot works a
//! keypad of arrows that moves the arm of the next.

use crate::text;
use std::collections::HashMap;
use vstd::prelude::*;

verus! {

/// The keypad with the arrows and the activate button.
pub struct DirectionalKeypad;

/// The keypad with the digits and the activate button.
pub struct NumericKeypad;

/// The keypad of digits on the door.
pub const NUMERIC_KEYPAD: NumericKeypad = NumericKeypad;

/// The keypad of arrows that steers a robot.
pub const DIRECTIONAL_KEYPAD: DirectionalKeypad = DirectionalKeypad;

/// A button of the keypad of arrows.
#[derive(Clone, Copy, Debug, PartialEq, Eq, Hash, Structural)]
pub enum DirectionalKeypadButton {
    Up,
    Activate,
    Left,
    Down,
    Right,
}

/// A button of the keypad of digits.
#[derive(Clone, Copy, Debug, PartialEq, Eq, Structural)]
pub enum NumericKeypadButton {
    Num(u8),
    Activate,
}

/// The direction of a step of the arm.
#[derive(Clone, Copy, Debug, PartialEq, Eq, Structural)]
pub enum Dirs {
    Up,
    Down,
    Left,
    Right,
}

/// The two kinds of keypad.
#[derive(Clone, Copy, Debug, PartialEq, Eq, Structural)]
pub enum Pad {
    Numeric,
    Directional,
}

impl Default for DirectionalKeypadButton {
    fn default() -> (b: Self)
        ensures
            b == DirectionalKeypadButton::Activate,
    {
        Self::Activate
    }
}

impl Default for NumericKeypadButton {
    fn default() -> (b: Self)
        ensures
            b == NumericKeypadButton::Activate,
    {
        Self::Activate
    }
}

/// The character of an arrow button.
pub open spec fn arrow_char(b: DirectionalKeypadButton) -> char {
    match b {
        DirectionalKeypadButton::Down => 'v',
        DirectionalKeypadButton::Up => '^',
        DirectionalKeypadButton::Left => '<',
        DirectionalKeypadButton::Right => '>',
        DirectionalKeypadButton::Activate => 'A',
    }
}

/// Where a button of the arrow keypad lies: row and column.
pub open spec fn arrow_pos(b: DirectionalKeypadButton) -> (int, int) {
    match b {
        DirectionalKeypadButton::Activate => (0, 2),
        DirectionalKeypadButton::Up => (0, 1),
        DirectionalKeypadButton::Left => (1, 0),
        DirectionalKeypadButton::Down => (1, 1),
        DirectionalKeypadButton::Right => (1, 2),
    }
}

/// Where a button of the digit keypad lies: row and column.
pub open spec fn digit_pos(b: NumericKeypadButton) -> (int, int) {
    match b {
        NumericKeypadButton::Num(n) => if n == 0 {
            (3, 1)
        } else {
            (2 - (n - 1) / 3, (n - 1) % 3)
        },
        NumericKeypadButton::Activate => (3, 2),
    }
}

/// Whether a keypad has a button at `p`.
pub open spec fn on_pad(pad: Pad, p: (int, int)) -> bool {
    match pad {
        Pad::Numeric => 0 <= p.0 <= 3 && 0 <= p.1 <= 2 && p != (3int, 0int),
        Pad::Directional => 0 <= p.0 <= 1 && 0 <= p.1 <= 2 && p != (0int, 0int),
    }
}

/// The step of one towards `to`.
pub open spec fn toward(from: int, to: int) -> int {
    if to > from {
        1
    } else if to < from {
        -1
    } else {
        0
    }
}

/// The distance between two numbers.
pub open spec fn gap(a: int, b: int) -> int {
    if a < b {
        b - a
    } else {
        a - b
    }
}

/// The number of steps between two places.
pub open spec fn far(p: (int, int), q: (int, int)) -> int {
    gap(p.0, q.0) + gap(p.1, q.1)
}

/// Each route with `step` put before it.
pub open spec fn after_step(step: (int, int), routes: Seq<Seq<(int, int)>>) -> Seq<Seq<(int, int)>> {
    routes.map_values(|r: Seq<(int, int)>| seq![step] + r)
}

/// The routes on a keypad from `p` to `q` that never step away from `q`
/// and never leave the buttons: first those that start with a step along
/// the rows, then those that start with a step along the columns.
pub open spec fn routes(pad: Pad, p: (int, int), q: (int, int)) -> Seq<Seq<(int, int)>>
    decreases far(p, q),
{
    let v = toward(p.0, q.0);
    let h = toward(p.1, q.1);
    if p == q {
        seq![Seq::empty()]
    } else {
        (if v != 0 && on_pad(pad, (p.0 + v, p.1)) {
            after_step((v, 0), routes(pad, (p.0 + v, p.1), q))
        } else {
            Seq::empty()
        }) + (if h != 0 && on_pad(pad, (p.0, p.1 + h)) {
            after_step((0, h), routes(pad, (p.0, p.1 + h), q))
        } else {
            Seq::empty()
        })
    }
}

/// The arrow that makes a step.
pub open spec fn arrow_of(step: (int, int)) -> DirectionalKeypadButton {
    if step == (1int, 0int) {
        DirectionalKeypadButton::Down
    } else if step == (-1int, 0int) {
        DirectionalKeypadButton::Up
    } else if step == (0int, 1int) {
        DirectionalKeypadButton::Right
    } else {
        DirectionalKeypadButton::Left
    }
}

/// The buttons that make the arm walk a route and press: an arrow for
/// each step, and the activate button.
pub open spec fn presses(route: Seq<(int, int)>) -> Seq<DirectionalKeypadButton> {
    route.map_values(|s: (int, int)| arrow_of(s)).push(DirectionalKeypadButton::Activate)
}

/// The ways to make the arm go from `p` to `q` and press.
pub open spec fn press_ways(pad: Pad, p: (int, int), q: (int, int)) -> Seq<Seq<DirectionalKeypadButton>> {
    routes(pad, p, q).map_values(|r: Seq<(int, int)>| presses(r))
}

/// The steps as exact integers.
pub open spec fn steps_view(route: Seq<(i32, i32)>) -> Seq<(int, int)> {
    route.map_values(|s: (i32, i32)| (s.0 as int, s.1 as int))
}

/// The routes as sequences of exact steps.
pub open spec fn routes_view(all: Seq<Vec<(i32, i32)>>) -> Seq<Seq<(int, int)>> {
    all.map_values(|r: Vec<(i32, i32)>| steps_view(r@))
}

/// The sequences of buttons as sequences.
pub open spec fn ways_view(all: Seq<Vec<DirectionalKeypadButton>>) -> Seq<Seq<DirectionalKeypadButton>> {
    all.map_values(|w: Vec<DirectionalKeypadButton>| w@)
}

/// Whether a keypad has a button at `p`.
pub fn has_button(pad: Pad, p: (i32, i32)) -> (yes: bool)
    ensures
        yes == on_pad(pad, (p.0 as int, p.1 as int)),
{
    match pad {
        Pad::Numeric => 0 <= p.0 && p.0 <= 3 && 0 <= p.1 && p.1 <= 2 && !(p.0 == 3 && p.1 == 0),
        Pad::Directional => 0 <= p.0 && p.0 <= 1 && 0 <= p.1 && p.1 <= 2 && !(p.0 == 0 && p.1 == 0),
    }
}

/// Puts `step` before each of `tails` and adds the routes to `out`.
pub fn add_routes(out: &mut Vec<Vec<(i32, i32)>>, step: (i32, i32), tails: Vec<Vec<(i32, i32)>>)
    ensures
        routes_view(final(out)@) == routes_view(old(out)@) + after_step(
            (step.0 as int, step.1 as int),
            routes_view(tails@),
        ),
{
    let ghost before = routes_view(out@);
    let ghost s = (step.0 as int, step.1 as int);
    let ghost rest = routes_view(tails@);
    let mut i: usize = 0;
    while i < tails.len()
        invariant
            i <= tails.len(),
            rest == routes_view(tails@),
            routes_view(out@) == before + after_step(s, rest).take(i as int),
            s == (step.0 as int, step.1 as int),
        decreases tails.len() - i,
    {
        let mut route: Vec<(i32, i32)> = Vec::new();
        route.push(step);
        let tail = &tails[i];
        let mut k: usize = 0;
        while k < tail.len()
            invariant
                k <= tail.len(),
                route@ == seq![step] + tail@.take(k as int),
            decreases tail.len() - k,
        {
            route.push(tail[k]);
            assert(route@ =~= seq![step] + tail@.take(k + 1));
            k += 1;
        }
        assert(tail@.take(tail.len() as int) =~= tail@);
        assert(steps_view(route@) =~= seq![s] + steps_view(tail@));
        assert(rest[i as int] == steps_view(tail@));
        let ghost held = routes_view(out@);
        out.push(route);
        assert(routes_view(out@) =~= held.push(seq![s] + rest[i as int]));
        assert(after_step(s, rest).take(i + 1) =~= after_step(s, rest).take(i as int).push(
            seq![s] + rest[i as int],
        ));
        assert(routes_view(out@) =~= before + after_step(s, rest).take(i + 1));
        i += 1;
    }
    assert(after_step(s, rest).take(tails.len() as int) =~= after_step(s, rest));
}

/// The routes on a keypad from `p` to `q`: see `routes`.
pub fn find_routes(pad: Pad, p: (i32, i32), q: (i32, i32)) -> (all: Vec<Vec<(i32, i32)>>)
    ensures
        routes_view(all@) == routes(pad, (p.0 as int, p.1 as int), (q.0 as int, q.1 as int)),
    decreases far((p.0 as int, p.1 as int), (q.0 as int, q.1 as int)),
{
    let mut all: Vec<Vec<(i32, i32)>> = Vec::new();
    if p.0 == q.0 && p.1 == q.1 {
        all.push(Vec::new());
        assert(routes_view(all@) =~= seq![Seq::<(int, int)>::empty()]) by {
            assert(steps_view(all@[0]@) =~= Seq::<(int, int)>::empty());
        }
        return all;
    }
    let v: i32 = if q.0 > p.0 {
        1
    } else if q.0 < p.0 {
        -1
    } else {
        0
    };
    let h: i32 = if q.1 > p.1 {
        1
    } else if q.1 < p.1 {
        -1
    } else {
        0
    };
    assert(routes_view(all@) =~= Seq::<Seq<(int, int)>>::empty());
    if v != 0 && has_button(pad, (p.0 + v, p.1)) {
        let tails = find_routes(pad, (p.0 + v, p.1), q);
        add_routes(&mut all, (v, 0), tails);
    }
    let ghost first = routes_view(all@);
    if h != 0 && has_button(pad, (p.0, p.1 + h)) {
        let tails = find_routes(pad, (p.0, p.1 + h), q);
        add_routes(&mut all, (0, h), tails);
    }
    assert(routes_view(all@) =~= routes(pad, (p.0 as int, p.1 as int), (q.0 as int, q.1 as int))) by {
        assert(first + Seq::<Seq<(int, int)>>::empty() =~= first);
    }
    all
}

impl Dirs {
    /// The direction of a step of one.
    pub fn try_from(step: &(i32, i32)) -> (res: Result<Self, &'static str>)
        ensures
            res is Ok <==> gap(step.0 as int, 0) + gap(step.1 as int, 0) == 1,
            *step == (1i32, 0i32) ==> res == Ok::<Dirs, &'static str>(Dirs::Down),
            *step == (-1i32, 0i32) ==> res == Ok::<Dirs, &'static str>(Dirs::Up),
            *step == (0i32, 1i32) ==> res == Ok::<Dirs, &'static str>(Dirs::Right),
            *step == (0i32, -1i32) ==> res == Ok::<Dirs, &'static str>(Dirs::Left),
    {
        let (dy, dx) = *step;
        if dy == 1 && dx == 0 {
            Ok(Self::Down)
        } else if dy == -1 && dx == 0 {
            Ok(Self::Up)
        } else if dy == 0 && dx == 1 {
            Ok(Self::Right)
        } else if dy == 0 && dx == -1 {
            Ok(Self::Left)
        } else {
            Err("ding")
        }
    }
}

impl DirectionalKeypadButton {
    /// The button as a one-character string.
    pub fn to_string(&self) -> (s: String)
        ensures
            s@ == seq![arrow_char(*self)],
    {
        let c = match self {
            Self::Down => 'v',
            Self::Up => '^',
            Self::Left => '<',
            Self::Right => '>',
            Self::Activate => 'A',
        };
        let mut chars: Vec<char> = Vec::new();
        chars.push(c);
        text::string_of(&chars)
    }

    /// The place of a button among the five.
    pub open spec fn rank(self) -> int {
        match self {
            DirectionalKeypadButton::Up => 0,
            DirectionalKeypadButton::Activate => 1,
            DirectionalKeypadButton::Left => 2,
            DirectionalKeypadButton::Down => 3,
            DirectionalKeypadButton::Right => 4,
        }
    }

    /// The place of a button among the five.
    pub fn place(self) -> (r: u128)
        ensures
            r == self.rank(),
    {
        match self {
            DirectionalKeypadButton::Up => 0,
            DirectionalKeypadButton::Activate => 1,
            DirectionalKeypadButton::Left => 2,
            DirectionalKeypadButton::Down => 3,
            DirectionalKeypadButton::Right => 4,
        }
    }
}

impl NumericKeypadButton {
    /// Reads a button from its character.
    pub fn try_from(c: char) -> (res: Result<Self, &'static str>)
        ensures
            text::is_digit(c) ==> res == Ok::<Self, &'static str>(
                NumericKeypadButton::Num(text::digit_value(c) as u8),
            ),
            c == 'A' ==> res == Ok::<Self, &'static str>(NumericKeypadButton::Activate),
            res is Ok <==> text::is_digit(c) || c == 'A',
    {
        if '0' <= c && c <= '9' {
            Ok(NumericKeypadButton::Num((c as u32 - '0' as u32) as u8))
        } else if c == 'A' {
            Ok(NumericKeypadButton::Activate)
        } else {
            Err("ding")
        }
    }

    /// The button as text: its digit, or `A`.
    pub fn to_string(&self) -> (s: String)
        ensures
            s@ == match *self {
                NumericKeypadButton::Activate => seq!['A'],
                NumericKeypadButton::Num(n) => text::decimal_of(n as nat),
            },
    {
        match self {
            NumericKeypadButton::Activate => {
                let mut chars: Vec<char> = Vec::new();
                chars.push('A');
                text::string_of(&chars)
            },
            NumericKeypadButton::Num(n) => {
                let chars = text::decimal(*n as u64);
                text::string_of(&chars)
            },
        }
    }
}

impl DirectionalKeypad {
    /// Where a button lies.
    pub fn get_pos(button: &DirectionalKeypadButton) -> (p: (i32, i32))
        ensures
            (p.0 as int, p.1 as int) == arrow_pos(*button),
            on_pad(Pad::Directional, arrow_pos(*button)),
    {
        match button {
            DirectionalKeypadButton::Activate => (0, 2),
            DirectionalKeypadButton::Up => (0, 1),
            DirectionalKeypadButton::Left => (1, 0),
            DirectionalKeypadButton::Down => (1, 1),
            DirectionalKeypadButton::Right => (1, 2),
        }
    }

    /// The button at a place, if there is one.
    pub fn get_button(&self, pos: &(i32, i32)) -> (b: Option<DirectionalKeypadButton>)
        ensures
            b is Some <==> on_pad(Pad::Directional, (pos.0 as int, pos.1 as int)),
            b is Some ==> arrow_pos(b.unwrap()) == (pos.0 as int, pos.1 as int),
    {
        let (y, x) = *pos;
        if y == 0 && x == 1 {
            Some(DirectionalKeypadButton::Up)
        } else if y == 0 && x == 2 {
            Some(DirectionalKeypadButton::Activate)
        } else if y == 1 && x == 0 {
            Some(DirectionalKeypadButton::Left)
        } else if y == 1 && x == 1 {
            Some(DirectionalKeypadButton::Down)
        } else if y == 1 && x == 2 {
            Some(DirectionalKeypadButton::Right)
        } else {
            None
        }
    }

    /// The arrow that makes a step of one.
    pub fn step_to_cmd(step: &(i32, i32)) -> (b: DirectionalKeypadButton)
        requires
            gap(step.0 as int, 0) + gap(step.1 as int, 0) == 1,
        ensures
            b == arrow_of((step.0 as int, step.1 as int)),
    {
        match Dirs::try_from(step) {
            Ok(Dirs::Up) => DirectionalKeypadButton::Up,
            Ok(Dirs::Down) => DirectionalKeypadButton::Down,
            Ok(Dirs::Left) => DirectionalKeypadButton::Left,
            Ok(Dirs::Right) => DirectionalKeypadButton::Right,
            Err(_) => DirectionalKeypadButton::Activate,
        }
    }

    /// The routes between two buttons: see `routes`.
    pub fn find_shortest_paths_between(&self, src: &DirectionalKeypadButton, dst: &DirectionalKeypadButton) -> (all: Vec<
        Vec<(i32, i32)>,
    >)
        ensures
            routes_view(all@) == routes(Pad::Directional, arrow_pos(*src), arrow_pos(*dst)),
    {
        find_routes(Pad::Directional, Self::get_pos(src), Self::get_pos(dst))
    }

    /// The ways to go from one button to another and press it.
    pub fn find_shortest_cmd_seqs_between(&self, src: &DirectionalKeypadButton, dst: &DirectionalKeypadButton) -> (all: Vec<
        Vec<DirectionalKeypadButton>,
    >)
        ensures
            ways_view(all@) == press_ways(Pad::Directional, arrow_pos(*src), arrow_pos(*dst)),
    {
        let found = find_routes(Pad::Directional, Self::get_pos(src), Self::get_pos(dst));
        proof {
            lemma_unit_steps(found@, Pad::Directional, arrow_pos(*src), arrow_pos(*dst));
        }
        to_presses(&found)
    }
}

impl NumericKeypad {
    /// Where a button lies.
    pub fn get_pos(button: &NumericKeypadButton) -> (p: (i32, i32))
        requires
            *button is Num ==> button->Num_0 <= 9,
        ensures
            (p.0 as int, p.1 as int) == digit_pos(*button),
            on_pad(Pad::Numeric, digit_pos(*button)),
    {
        match button {
            NumericKeypadButton::Num(n) => {
                if *n == 0 {
                    (3, 1)
                } else {
                    ((2 - (*n - 1) / 3) as i32, ((*n - 1) % 3) as i32)
                }
            },
            NumericKeypadButton::Activate => (3, 2),
        }
    }

    /// The button at a place, if there is one.
    pub fn get_button(&self, pos: &(i32, i32)) -> (b: Option<NumericKeypadButton>)
        ensures
            b is Some <==> on_pad(Pad::Numeric, (pos.0 as int, pos.1 as int)),
            b is Some ==> digit_pos(b.unwrap()) == (pos.0 as int, pos.1 as int),
    {
        let (y, x) = *pos;
        if !has_button(Pad::Numeric, (y, x)) {
            None
        } else if y == 3 && x == 1 {
            Some(NumericKeypadButton::Num(0))
        } else if y == 3 {
            Some(NumericKeypadButton::Activate)
        } else {
            Some(NumericKeypadButton::Num(((2 - y) * 3 + x + 1) as u8))
        }
    }

    /// The routes between two buttons: see `routes`.
    pub fn find_shortest_paths_between(&self, src: &NumericKeypadButton, dst: &NumericKeypadButton) -> (all: Vec<
        Vec<(i32, i32)>,
    >)
        requires
            *src is Num ==> src->Num_0 <= 9,
            *dst is Num ==> dst->Num_0 <= 9,
        ensures
            routes_view(all@) == routes(Pad::Numeric, digit_pos(*src), digit_pos(*dst)),
    {
        find_routes(Pad::Numeric, Self::get_pos(src), Self::get_pos(dst))
    }

    /// The ways to go from one button to another and press it.
    pub fn find_shortest_cmd_seqs_between(&self, src: &NumericKeypadButton, dst: &NumericKeypadButton) -> (all: Vec<
        Vec<DirectionalKeypadButton>,
    >)
        requires
            *src is Num ==> src->Num_0 <= 9,
            *dst is Num ==> dst->Num_0 <= 9,
        ensures
            ways_view(all@) == press_ways(Pad::Numeric, digit_pos(*src), digit_pos(*dst)),
    {
        let found = find_routes(Pad::Numeric, Self::get_pos(src), Self::get_pos(dst));
        proof {
            lemma_unit_steps(found@, Pad::Numeric, digit_pos(*src), digit_pos(*dst));
        }
        to_presses(&found)
    }

    /// The ways to type `output`, starting from the activate button: for
    /// each button in turn every way to go there and press it.
    pub fn find_shortest_cmd_seqs_to_output(&self, output: &[NumericKeypadButton]) -> (all: Vec<
        Vec<DirectionalKeypadButton>,
    >)
        requires
            output.len() >= 1,
            forall|i: int| 0 <= i < output.len() && (#[trigger] output[i]) is Num ==> output[i]->Num_0 <= 9,
        ensures
            ways_view(all@) == typed(output@, output.len() as int),
    {
        let start = NumericKeypadButton::Activate;
        let mut all = self.find_shortest_cmd_seqs_between(&start, &output[0]);
        let mut i: usize = 1;
        proof {
            assert(typed(output@, 0) =~= seq![Seq::<DirectionalKeypadButton>::empty()]);
            lemma_joined_with_empty(press_ways(Pad::Numeric, digit_pos(start), digit_pos(output[0])));
        }
        while i < output.len()
            invariant
                1 <= i <= output.len(),
                forall|k: int| 0 <= k < output.len() && (#[trigger] output[k]) is Num ==> output[k]->Num_0 <= 9,
                ways_view(all@) == typed(output@, i as int),
            decreases output.len() - i,
        {
            let suffixes = self.find_shortest_cmd_seqs_between(&output[i - 1], &output[i]);
            all = join_all(&all, &suffixes);
            i += 1;
        }
        all
    }
}

/// Each of `prefixes` followed by each of `suffixes`, prefix by prefix.
pub open spec fn joined(
    prefixes: Seq<Seq<DirectionalKeypadButton>>,
    suffixes: Seq<Seq<DirectionalKeypadButton>>,
    n: int,
) -> Seq<Seq<DirectionalKeypadButton>>
    decreases n,
{
    if n <= 0 {
        Seq::empty()
    } else {
        joined(prefixes, suffixes, n - 1) + suffixes.map_values(
            |s: Seq<DirectionalKeypadButton>| prefixes[n - 1] + s,
        )
    }
}

/// The ways to type the first `n` buttons of `output` on the digit
/// keypad, starting from the activate button.
pub open spec fn typed(output: Seq<NumericKeypadButton>, n: int) -> Seq<Seq<DirectionalKeypadButton>>
    decreases n,
{
    if n <= 0 {
        seq![Seq::empty()]
    } else {
        let from = if n == 1 {
            NumericKeypadButton::Activate
        } else {
            output[n - 2]
        };
        let before = typed(output, n - 1);
        joined(
            before,
            press_ways(Pad::Numeric, digit_pos(from), digit_pos(output[n - 1])),
            before.len() as int,
        )
    }
}

/// Joined with the one empty way, the ways stay as they are.
pub proof fn lemma_joined_with_empty(ways: Seq<Seq<DirectionalKeypadButton>>)
    ensures
        joined(seq![Seq::empty()], ways, 1) == ways,
{
    let one = seq![Seq::<DirectionalKeypadButton>::empty()];
    assert(joined(one, ways, 0) =~= Seq::<Seq<DirectionalKeypadButton>>::empty());
    let block = ways.map_values(|s: Seq<DirectionalKeypadButton>| one[0] + s);
    assert forall|i: int| 0 <= i < ways.len() implies #[trigger] block[i] == ways[i] by {
        assert(one[0] + ways[i] =~= ways[i]);
    }
    assert(block =~= ways);
    assert(joined(one, ways, 1) =~= ways);
}

/// Every step of every route is a step of one.
pub proof fn lemma_routes_step(pad: Pad, p: (int, int), q: (int, int))
    ensures
        forall|r: int, k: int|
            0 <= r < routes(pad, p, q).len() && 0 <= k < routes(pad, p, q)[r].len() ==> gap(
                (#[trigger] routes(pad, p, q)[r][k]).0,
                0,
            ) + gap(routes(pad, p, q)[r][k].1, 0) == 1,
    decreases far(p, q),
{
    let v = toward(p.0, q.0);
    let h = toward(p.1, q.1);
    if p != q {
        let a = if v != 0 && on_pad(pad, (p.0 + v, p.1)) {
            after_step((v, 0), routes(pad, (p.0 + v, p.1), q))
        } else {
            Seq::empty()
        };
        let b = if h != 0 && on_pad(pad, (p.0, p.1 + h)) {
            after_step((0, h), routes(pad, (p.0, p.1 + h), q))
        } else {
            Seq::empty()
        };
        if v != 0 {
            lemma_routes_step(pad, (p.0 + v, p.1), q);
        }
        if h != 0 {
            lemma_routes_step(pad, (p.0, p.1 + h), q);
        }
        assert forall|r: int, k: int|
            0 <= r < routes(pad, p, q).len() && 0 <= k < routes(pad, p, q)[r].len() implies gap(
            (#[trigger] routes(pad, p, q)[r][k]).0,
            0,
        ) + gap(routes(pad, p, q)[r][k].1, 0) == 1 by {
            let all = routes(pad, p, q);
            assert(all == a + b);
            if r < a.len() {
                let tails = routes(pad, (p.0 + v, p.1), q);
                assert(all[r] == seq![(v, 0int)] + tails[r]);
                if k > 0 {
                    assert(all[r][k] == tails[r][k - 1]);
                }
            } else {
                let tails = routes(pad, (p.0, p.1 + h), q);
                assert(all[r] == seq![(0int, h)] + tails[r - a.len()]);
                if k > 0 {
                    assert(all[r][k] == tails[r - a.len()][k - 1]);
                }
            }
        }
    }
}

/// Whether a step moves the arm to a neighbouring place.
pub open spec fn unit(step: (int, int)) -> bool {
    step == (1int, 0int) || step == (-1int, 0int) || step == (0int, 1int) || step == (0int, -1int)
}

/// The place reached from `p` by a step.
pub open spec fn moved(p: (int, int), step: (int, int)) -> (int, int) {
    (p.0 + step.0, p.1 + step.1)
}

/// Whether the steps, taken from `p`, go from button to neighbouring
/// button and end at `q`.
pub open spec fn walks(pad: Pad, p: (int, int), q: (int, int), steps: Seq<(int, int)>) -> bool
    decreases steps.len(),
{
    if steps.len() == 0 {
        p == q
    } else {
        unit(steps[0]) && on_pad(pad, moved(p, steps[0])) && walks(pad, moved(p, steps[0]), q, steps.drop_first())
    }
}

/// No walk between two places is shorter than their distance.
pub proof fn lemma_walk_is_long(pad: Pad, p: (int, int), q: (int, int), steps: Seq<(int, int)>)
    requires
        walks(pad, p, q, steps),
    ensures
        steps.len() >= far(p, q),
    decreases steps.len(),
{
    if steps.len() > 0 {
        lemma_walk_is_long(pad, moved(p, steps[0]), q, steps.drop_first());
    }
}

/// Every route is a walk between the two places, and as short as their
/// distance.
pub proof fn lemma_routes_are_shortest(pad: Pad, p: (int, int), q: (int, int), r: int)
    requires
        0 <= r < routes(pad, p, q).len(),
    ensures
        walks(pad, p, q, routes(pad, p, q)[r]),
        routes(pad, p, q)[r].len() == far(p, q),
    decreases far(p, q),
{
    let v = toward(p.0, q.0);
    let h = toward(p.1, q.1);
    let all = routes(pad, p, q);
    if p != q {
        let a = if v != 0 && on_pad(pad, (p.0 + v, p.1)) {
            after_step((v, 0), routes(pad, (p.0 + v, p.1), q))
        } else {
            Seq::empty()
        };
        let b = if h != 0 && on_pad(pad, (p.0, p.1 + h)) {
            after_step((0, h), routes(pad, (p.0, p.1 + h), q))
        } else {
            Seq::empty()
        };
        assert(all == a + b);
        if r < a.len() {
            let next = (p.0 + v, p.1);
            let tails = routes(pad, next, q);
            lemma_routes_are_shortest(pad, next, q, r);
            assert(all[r] == seq![(v, 0int)] + tails[r]);
            assert(all[r].drop_first() =~= tails[r]);
            assert(moved(p, all[r][0]) == next);
        } else {
            let next = (p.0, p.1 + h);
            let tails = routes(pad, next, q);
            let t = r - a.len();
            lemma_routes_are_shortest(pad, next, q, t);
            assert(all[r] == seq![(0int, h)] + tails[t]);
            assert(all[r].drop_first() =~= tails[t]);
            assert(moved(p, all[r][0]) == next);
        }
    } else {
        assert(all[r] == Seq::<(int, int)>::empty());
    }
}

/// Every walk between two places that is as short as their distance is
/// one of the routes.
pub proof fn lemma_shortest_are_routes(pad: Pad, p: (int, int), q: (int, int), steps: Seq<(int, int)>)
    requires
        walks(pad, p, q, steps),
        steps.len() == far(p, q),
    ensures
        routes(pad, p, q).contains(steps),
    decreases steps.len(),
{
    let v = toward(p.0, q.0);
    let h = toward(p.1, q.1);
    let all = routes(pad, p, q);
    if steps.len() == 0 {
        assert(all[0] =~= steps);
    } else {
        let step = steps[0];
        let next = moved(p, step);
        let tail = steps.drop_first();
        lemma_walk_is_long(pad, next, q, tail);
        lemma_shortest_are_routes(pad, next, q, tail);
        let tails = routes(pad, next, q);
        let t = choose|t: int| 0 <= t < tails.len() && tails[t] == tail;
        assert(steps =~= seq![step] + tail);
        let a = if v != 0 && on_pad(pad, (p.0 + v, p.1)) {
            after_step((v, 0), routes(pad, (p.0 + v, p.1), q))
        } else {
            Seq::empty()
        };
        let b = if h != 0 && on_pad(pad, (p.0, p.1 + h)) {
            after_step((0, h), routes(pad, (p.0, p.1 + h), q))
        } else {
            Seq::empty()
        };
        assert(all == a + b);
        if step.1 == 0 {
            assert(step == (v, 0int));
            assert(a[t] == steps);
            assert(all[t] == steps);
        } else {
            assert(step == (0int, h));
            assert(b[t] == steps);
            assert(all[a.len() + t] == steps);
        }
    }
}

/// Every step of the routes that were found is a step of one.
pub proof fn lemma_unit_steps(found: Seq<Vec<(i32, i32)>>, pad: Pad, p: (int, int), q: (int, int))
    requires
        routes_view(found) == routes(pad, p, q),
    ensures
        forall|r: int, k: int|
            0 <= r < found.len() && 0 <= k < found[r].len() ==> gap((#[trigger] found[r][k]).0 as int, 0)
                + gap(found[r][k].1 as int, 0) == 1,
{
    lemma_routes_step(pad, p, q);
    assert forall|r: int, k: int| 0 <= r < found.len() && 0 <= k < found[r].len() implies gap(
        (#[trigger] found[r][k]).0 as int,
        0,
    ) + gap(found[r][k].1 as int, 0) == 1 by {
        assert(routes_view(found)[r] == steps_view(found[r]@));
        assert(steps_view(found[r]@)[k] == (found[r][k].0 as int, found[r][k].1 as int));
        assert(routes(pad, p, q)[r][k] == (found[r][k].0 as int, found[r][k].1 as int));
    }
}

/// The buttons for each route.
pub fn to_presses(found: &Vec<Vec<(i32, i32)>>) -> (all: Vec<Vec<DirectionalKeypadButton>>)
    requires
        forall|r: int, k: int|
            0 <= r < found.len() && 0 <= k < found[r].len() ==> gap((#[trigger] found[r][k]).0 as int, 0)
                + gap(found[r][k].1 as int, 0) == 1,
    ensures
        ways_view(all@) == routes_view(found@).map_values(|r: Seq<(int, int)>| presses(r)),
{
    let mut all: Vec<Vec<DirectionalKeypadButton>> = Vec::new();
    let mut r: usize = 0;
    while r < found.len()
        invariant
            r <= found.len(),
            forall|a: int, k: int|
                0 <= a < found.len() && 0 <= k < found[a].len() ==> gap((#[trigger] found[a][k]).0 as int, 0)
                    + gap(found[a][k].1 as int, 0) == 1,
            all.len() == r,
            forall|a: int| 0 <= a < r ==> (#[trigger] all[a])@ == presses(steps_view(found[a]@)),
        decreases found.len() - r,
    {
        let route = &found[r];
        let mut cmds: Vec<DirectionalKeypadButton> = Vec::new();
        let mut k: usize = 0;
        while k < route.len()
            invariant
                k <= route.len(),
                route == &found[r as int],
                r < found.len(),
                forall|a: int, b: int|
                    0 <= a < found.len() && 0 <= b < found[a].len() ==> gap((#[trigger] found[a][b]).0 as int, 0)
                        + gap(found[a][b].1 as int, 0) == 1,
                cmds.len() == k,
                forall|b: int| 0 <= b < k ==> #[trigger] cmds[b] == arrow_of((route[b].0 as int, route[b].1 as int)),
            decreases route.len() - k,
        {
            assert(gap(found[r as int][k as int].0 as int, 0) + gap(found[r as int][k as int].1 as int, 0) == 1);
            cmds.push(DirectionalKeypad::step_to_cmd(&route[k]));
            k += 1;
        }
        cmds.push(DirectionalKeypadButton::Activate);
        assert(cmds@ =~= presses(steps_view(route@)));
        all.push(cmds);
        r += 1;
    }
    assert(ways_view(all@) =~= routes_view(found@).map_values(|r: Seq<(int, int)>| presses(r)));
    all
}

/// Each of `prefixes` followed by each of `suffixes`.
pub fn join_all(prefixes: &Vec<Vec<DirectionalKeypadButton>>, suffixes: &Vec<Vec<DirectionalKeypadButton>>) -> (all: Vec<
    Vec<DirectionalKeypadButton>,
>)
    ensures
        ways_view(all@) == joined(ways_view(prefixes@), ways_view(suffixes@), prefixes.len() as int),
{
    let ghost ps = ways_view(prefixes@);
    let ghost ss = ways_view(suffixes@);
    let mut all: Vec<Vec<DirectionalKeypadButton>> = Vec::new();
    let mut p: usize = 0;
    assert(ways_view(all@) =~= joined(ps, ss, 0));
    while p < prefixes.len()
        invariant
            p <= prefixes.len(),
            ps == ways_view(prefixes@),
            ss == ways_view(suffixes@),
            ways_view(all@) == joined(ps, ss, p as int),
        decreases prefixes.len() - p,
    {
        let ghost before = ways_view(all@);
        let ghost block = ss.map_values(|s: Seq<DirectionalKeypadButton>| ps[p as int] + s);
        let mut s: usize = 0;
        while s < suffixes.len()
            invariant
                s <= suffixes.len(),
                p < prefixes.len(),
                ps == ways_view(prefixes@),
                ss == ways_view(suffixes@),
                block == ss.map_values(|s: Seq<DirectionalKeypadButton>| ps[p as int] + s),
                ways_view(all@) == before + block.take(s as int),
            decreases suffixes.len() - s,
        {
            let mut acc: Vec<DirectionalKeypadButton> = Vec::new();
            let prefix = &prefixes[p];
            let suffix = &suffixes[s];
            let mut k: usize = 0;
            while k < prefix.len()
                invariant
                    k <= prefix.len(),
                    acc@ == prefix@.take(k as int),
                decreases prefix.len() - k,
            {
                acc.push(prefix[k]);
                assert(acc@ =~= prefix@.take(k + 1));
                k += 1;
            }
            assert(prefix@.take(prefix.len() as int) =~= prefix@);
            let mut k: usize = 0;
            while k < suffix.len()
                invariant
                    k <= suffix.len(),
                    acc@ == prefix@ + suffix@.take(k as int),
                decreases suffix.len() - k,
            {
                acc.push(suffix[k]);
                assert(acc@ =~= prefix@ + suffix@.take(k + 1));
                k += 1;
            }
            assert(suffix@.take(suffix.len() as int) =~= suffix@);
            assert(ps[p as int] == prefix@ && ss[s as int] == suffix@);
            let ghost held = ways_view(all@);
            all.push(acc);
            assert(ways_view(all@) =~= held.push(prefix@ + suffix@));
            assert(block.take(s + 1) =~= block.take(s as int).push(ps[p as int] + ss[s as int]));
            assert(ways_view(all@) =~= before + block.take(s + 1));
            s += 1;
        }
        assert(block.take(suffixes.len() as int) =~= block);
        p += 1;
    }
    all
}

/// What it costs to make the arm of the last robot go from `src` to `dst`
/// on an arrow keypad and press, when `n` more arrow keypads stand before
/// the one that is typed on by hand: one press where there is none, and
/// otherwise the cheapest of the ways to go and press, each typed through
/// one keypad fewer.
pub open spec fn cost(src: DirectionalKeypadButton, dst: DirectionalKeypadButton, n: nat) -> nat
    decreases n, 0nat, 0nat,
{
    if n == 0 {
        1
    } else {
        let ways = press_ways(Pad::Directional, arrow_pos(src), arrow_pos(dst));
        cheapest(ways, ways.len(), (n - 1) as nat)
    }
}

/// The cost of the cheapest of the first `k` ways, typed through `n` keypads.
pub open spec fn cheapest(ways: Seq<Seq<DirectionalKeypadButton>>, k: nat, n: nat) -> nat
    decreases n, 2nat, k,
{
    if k == 0 {
        0
    } else if k == 1 {
        typing(ways[0], ways[0].len(), n)
    } else {
        let before = cheapest(ways, (k - 1) as nat, n);
        let this = typing(ways[k - 1], ways[k - 1].len(), n);
        if this < before {
            this
        } else {
            before
        }
    }
}

/// The cost of typing the first `k` buttons of `cmds` through `n`
/// keypads, the arm starting on the activate button.
pub open spec fn typing(cmds: Seq<DirectionalKeypadButton>, k: nat, n: nat) -> nat
    decreases n, 1nat, k,
{
    if k == 0 {
        0
    } else {
        let from = if k == 1 {
            DirectionalKeypadButton::Activate
        } else {
            cmds[k - 2]
        };
        typing(cmds, (k - 1) as nat, n) + cost(from, cmds[k - 1], n)
    }
}

/// A count as a machine integer, where it is one.
pub open spec fn within(count: nat) -> Option<usize> {
    if count <= usize::MAX {
        Some(count as usize)
    } else {
        None
    }
}

/// Typing more buttons costs no less.
pub proof fn lemma_typing_grows(cmds: Seq<DirectionalKeypadButton>, j: nat, k: nat, n: nat)
    requires
        j <= k,
    ensures
        typing(cmds, j, n) <= typing(cmds, k, n),
    decreases k - j,
{
    if j < k {
        lemma_typing_grows(cmds, j, (k - 1) as nat, n);
    }
}

/// Between two buttons of a keypad there is a route.
pub proof fn lemma_route_exists(pad: Pad, p: (int, int), q: (int, int))
    requires
        on_pad(pad, p),
        on_pad(pad, q),
    ensures
        routes(pad, p, q).len() >= 1,
    decreases far(p, q),
{
    let v = toward(p.0, q.0);
    let h = toward(p.1, q.1);
    if p != q {
        let a = if v != 0 && on_pad(pad, (p.0 + v, p.1)) {
            after_step((v, 0), routes(pad, (p.0 + v, p.1), q))
        } else {
            Seq::empty()
        };
        let b = if h != 0 && on_pad(pad, (p.0, p.1 + h)) {
            after_step((0, h), routes(pad, (p.0, p.1 + h), q))
        } else {
            Seq::empty()
        };
        assert(routes(pad, p, q) == a + b);
        if v != 0 && on_pad(pad, (p.0 + v, p.1)) {
            lemma_route_exists(pad, (p.0 + v, p.1), q);
        } else {
            assert(h != 0 && on_pad(pad, (p.0, p.1 + h)));
            lemma_route_exists(pad, (p.0, p.1 + h), q);
        }
    }
}

/// Every route between two buttons of a keypad has as many steps as the
/// buttons lie apart, passes over buttons only, and ends at the second
/// button; and there is such a route.
pub proof fn lemma_routes(pad: Pad, p: (int, int), q: (int, int))
    requires
        on_pad(pad, p),
        on_pad(pad, q),
    ensures
        routes(pad, p, q).len() >= 1,
        forall|r: int|
            0 <= r < routes(pad, p, q).len() ==> (#[trigger] routes(pad, p, q)[r]).len() == far(p, q) && walks(
                pad,
                p,
                q,
                routes(pad, p, q)[r],
            ),
{
    lemma_route_exists(pad, p, q);
    assert forall|r: int| 0 <= r < routes(pad, p, q).len() implies (#[trigger] routes(pad, p, q)[r]).len() == far(
        p,
        q,
    ) && walks(pad, p, q, routes(pad, p, q)[r]) by {
        lemma_routes_are_shortest(pad, p, q, r);
    }
}

/// Typed by hand, every button costs one press.
pub proof fn lemma_typing_by_hand(cmds: Seq<DirectionalKeypadButton>, k: nat)
    ensures
        typing(cmds, k, 0) == k,
    decreases k,
{
    if k > 0 {
        lemma_typing_by_hand(cmds, (k - 1) as nat);
        let from = if k == 1 {
            DirectionalKeypadButton::Activate
        } else {
            cmds[k - 2]
        };
        assert(cost(from, cmds[k - 1], 0) == 1);
    }
}

/// Where each of the first `k` ways costs `v`, the cheapest of them
/// costs `v`.
pub proof fn lemma_cheapest_of_equals(ways: Seq<Seq<DirectionalKeypadButton>>, k: nat, n: nat, v: nat)
    requires
        k >= 1,
        forall|i: int| 0 <= i < k ==> typing(#[trigger] ways[i], ways[i].len(), n) == v,
    ensures
        cheapest(ways, k, n) == v,
    decreases k,
{
    if k > 1 {
        lemma_cheapest_of_equals(ways, (k - 1) as nat, n, v);
    }
}

/// Through one keypad, going from a button to another and pressing costs
/// as many presses as the buttons lie apart, and one more.
pub proof fn lemma_cost_through_one_keypad(src: DirectionalKeypadButton, dst: DirectionalKeypadButton)
    ensures
        cost(src, dst, 1) == far(arrow_pos(src), arrow_pos(dst)) + 1,
{
    let p = arrow_pos(src);
    let q = arrow_pos(dst);
    let ways = press_ways(Pad::Directional, p, q);
    lemma_routes(Pad::Directional, p, q);
    assert forall|i: int| 0 <= i < ways.len() implies typing(#[trigger] ways[i], ways[i].len(), 0) == (far(p, q)
        + 1) as nat by {
        let route = routes(Pad::Directional, p, q)[i];
        assert(ways[i] == presses(route));
        assert(route.len() == far(p, q));
        lemma_typing_by_hand(ways[i], ways[i].len());
    }
    lemma_cheapest_of_equals(ways, ways.len(), 0, (far(p, q) + 1) as nat);
}

/// The key under which a cost is cached.
pub open spec fn key_of(src: DirectionalKeypadButton, dst: DirectionalKeypadButton, n: usize) -> u128 {
    (n as u128 * 25 + src.rank() * 5 + dst.rank()) as u128
}

/// Whether every entry of a cache holds the cost that its key asks for,
/// or nothing where that cost is no machine integer.
pub open spec fn consistent(cache: Map<u128, Option<usize>>) -> bool {
    forall|src: DirectionalKeypadButton, dst: DirectionalKeypadButton, n: usize| #[trigger]
        cache.contains_key(key_of(src, dst, n)) ==> cache[key_of(src, dst, n)] == within(
            cost(src, dst, n as nat),
        )
}

/// Whether the cache `now` holds every entry of the cache `before`, as it
/// was.
pub open spec fn keeps(before: Map<u128, Option<usize>>, now: Map<u128, Option<usize>>) -> bool {
    forall|k: u128|
        #![trigger before.contains_key(k)]
        #![trigger now.contains_key(k)]
        before.contains_key(k) ==> now.contains_key(k) && now[k] == before[k]
}

/// The cost of typing `cmds` through `n` keypads: see `typing`. Returns
/// `None` where the cost is no machine integer. The cache keeps what it
/// held, and without keypads nothing is added to it.
pub fn type_through(cmds: &Vec<DirectionalKeypadButton>, n: usize, cache: &mut HashMap<u128, Option<usize>>) -> (res:
    Option<usize>)
    requires
        consistent(old(cache)@),
    ensures
        consistent(final(cache)@),
        res == within(typing(cmds@, cmds.len() as nat, n as nat)),
        keeps(old(cache)@, final(cache)@),
        n == 0 ==> final(cache)@ == old(cache)@,
    decreases n, 1nat,
{
    let mut total: usize = 0;
    let mut k: usize = 0;
    while k < cmds.len()
        invariant
            k <= cmds.len(),
            consistent(cache@),
            total == typing(cmds@, k as nat, n as nat),
            keeps(old(cache)@, cache@),
            n == 0 ==> cache@ == old(cache)@,
        decreases cmds.len() - k,
    {
        let from = if k == 0 {
            DirectionalKeypadButton::Activate
        } else {
            cmds[k - 1]
        };
        proof {
            lemma_typing_grows(cmds@, (k + 1) as nat, cmds.len() as nat, n as nat);
        }
        let c = match len_shortest_cmd_seqs_with_n_indirections_between(from, cmds[k], n, cache) {
            Some(c) => c,
            None => {
                return None;
            },
        };
        total = match total.checked_add(c) {
            Some(t) => t,
            None => {
                return None;
            },
        };
        k += 1;
    }
    Some(total)
}

/// The cost of going from `src` to `dst` and pressing, typed through
/// `num_additional_directional_keypads` keypads: see `cost`. Returns
/// `None` where the cost is no machine integer. With a keypad or more,
/// the cache holds the result under the key of the call afterwards; it
/// keeps what it held, and with one keypad nothing else is added to it.
/// Without a keypad the cache is left as it is.
pub fn len_shortest_cmd_seqs_with_n_indirections_between(
    src: DirectionalKeypadButton,
    dst: DirectionalKeypadButton,
    num_additional_directional_keypads: usize,
    cache: &mut HashMap<u128, Option<usize>>,
) -> (res: Option<usize>)
    requires
        consistent(old(cache)@),
    ensures
        consistent(final(cache)@),
        res == within(cost(src, dst, num_additional_directional_keypads as nat)),
        keeps(old(cache)@, final(cache)@),
        num_additional_directional_keypads == 0 ==> final(cache)@ == old(cache)@,
        num_additional_directional_keypads >= 1 ==> final(cache)@.contains_key(
            key_of(src, dst, num_additional_directional_keypads),
        ) && final(cache)@[key_of(src, dst, num_additional_directional_keypads)] == res,
        num_additional_directional_keypads == 1 ==> final(cache)@ == old(cache)@.insert(key_of(src, dst, 1), res),
    decreases num_additional_directional_keypads, 0nat,
{
    broadcast use vstd::std_specs::hash::group_hash_axioms;

    let n = num_additional_directional_keypads;
    if n == 0 {
        return Some(1);
    }
    let key = n as u128 * 25 + src.place() * 5 + dst.place();
    assert(key == key_of(src, dst, n));
    if let Some(known) = cache.get(&key) {
        assert(cache@ =~= cache@.insert(key, *known));
        return *known;
    }
    let ways = DIRECTIONAL_KEYPAD.find_shortest_cmd_seqs_between(&src, &dst);
    let ghost all = ways_view(ways@);
    let mut best: Option<usize> = Some(0);
    let mut k: usize = 0;
    while k < ways.len()
        invariant
            k <= ways.len(),
            n >= 1,
            n == num_additional_directional_keypads,
            all == ways_view(ways@),
            consistent(cache@),
            best == within(cheapest(all, k as nat, (n - 1) as nat)),
            keeps(old(cache)@, cache@),
            n == 1 ==> cache@ == old(cache)@,
        decreases ways.len() - k,
    {
        assert(all[k as int] == ways[k as int]@);
        let this = type_through(&ways[k], n - 1, cache);
        best = if k == 0 {
            this
        } else {
            match (best, this) {
                (Some(b), Some(t)) => if t < b {
                    Some(t)
                } else {
                    Some(b)
                },
                (Some(b), None) => Some(b),
                (None, t) => t,
            }
        };
        k += 1;
    }
    let ghost before = cache@;
    cache.insert(key, best);
    proof {
        assert forall|s: DirectionalKeypadButton, d: DirectionalKeypadButton, m: usize| #[trigger]
            cache@.contains_key(key_of(s, d, m)) implies cache@[key_of(s, d, m)] == within(cost(s, d, m as nat)) by {
            if key_of(s, d, m) == key {
                assert(s == src && d == dst && m == n);
            } else {
                assert(before.contains_key(key_of(s, d, m)));
            }
        }
    }
    best
}

/// The cost of typing `cmd_seq` through the given number of keypads, or
/// `None` where the cost is no machine integer.
pub fn len_shortest_cmd_seqs_with_n_indirections(
    cmd_seq: &[DirectionalKeypadButton],
    num_additional_directional_keypads: usize,
) -> (res: Option<usize>)
    ensures
        res == within(typing(cmd_seq@, cmd_seq.len() as nat, num_additional_directional_keypads as nat)),
{
    let mut cache: HashMap<u128, Option<usize>> = HashMap::new();
    let mut cmds: Vec<DirectionalKeypadButton> = Vec::new();
    let mut i: usize = 0;
    while i < cmd_seq.len()
        invariant
            i <= cmd_seq.len(),
            cmds@ == cmd_seq@.take(i as int),
        decreases cmd_seq.len() - i,
    {
        cmds.push(cmd_seq[i]);
        assert(cmds@ =~= cmd_seq@.take(i + 1));
        i += 1;
    }
    assert(cmd_seq@.take(cmd_seq.len() as int) =~= cmd_seq@);
    proof {
        broadcast use vstd::std_specs::hash::group_hash_axioms;

    }
    type_through(&cmds, num_additional_directional_keypads, &mut cache)
}

/// The cost of the cheapest of the first `k` ways of typing, each typed
/// through `n` keypads of arrows; nothing where there is no way.
pub open spec fn cheapest_typing(ways: Seq<Seq<DirectionalKeypadButton>>, k: nat, n: nat) -> nat
    decreases k,
{
    if k == 0 {
        0
    } else if k == 1 {
        typing(ways[0], ways[0].len(), n)
    } else {
        let before = cheapest_typing(ways, (k - 1) as nat, n);
        let this = typing(ways[k - 1], ways[k - 1].len(), n);
        if this < before {
            this
        } else {
            before
        }
    }
}

/// The fewest presses by hand that type `code` on the digit keypad
/// through `keypads` keypads of arrows. Returns `None` where that number
/// is no machine integer.
pub fn fewest_presses(code: &[NumericKeypadButton], keypads: usize) -> (res: Option<usize>)
    requires
        code.len() >= 1,
        forall|i: int| 0 <= i < code.len() && (#[trigger] code[i]) is Num ==> code[i]->Num_0 <= 9,
    ensures
        res == within(
            cheapest_typing(typed(code@, code.len() as int), typed(code@, code.len() as int).len(), keypads as nat),
        ),
{
    let ways = NUMERIC_KEYPAD.find_shortest_cmd_seqs_to_output(code);
    let ghost all = ways_view(ways@);
    let mut best: Option<usize> = Some(0);
    let mut k: usize = 0;
    while k < ways.len()
        invariant
            k <= ways.len(),
            all == ways_view(ways@),
            best == within(cheapest_typing(all, k as nat, keypads as nat)),
        decreases ways.len() - k,
    {
        assert(all[k as int] == ways[k as int]@);
        let this = len_shortest_cmd_seqs_with_n_indirections(ways[k].as_slice(), keypads);
        best = if k == 0 {
            this
        } else {
            match (best, this) {
                (Some(b), Some(t)) => if t < b {
                    Some(t)
                } else {
                    Some(b)
                },
                (Some(b), None) => Some(b),
                (None, t) => t,
            }
        };
        k += 1;
    }
    best
}

/// Whether the first `n` buttons of a code are digits.
pub open spec fn digits_only(code: Seq<NumericKeypadButton>, n: int) -> bool {
    forall|i: int| 0 <= i < n ==> (#[trigger] code[i]) is Num && code[i]->Num_0 <= 9
}

/// The number that the first `n` buttons of a code spell.
pub open spec fn spelled(code: Seq<NumericKeypadButton>, n: int) -> nat
    decreases n,
{
    if n <= 0 {
        0
    } else {
        spelled(code, n - 1) * 10 + code[n - 1]->Num_0 as nat
    }
}

/// The number of a code: what its buttons but the last spell, where they
/// are digits and there is a last button.
pub open spec fn number_of(code: Seq<NumericKeypadButton>) -> Option<nat> {
    if code.len() >= 1 && digits_only(code, code.len() - 1) {
        Some(spelled(code, code.len() - 1))
    } else {
        None
    }
}

/// More digits spell no smaller number.
pub proof fn lemma_spelled_grows(code: Seq<NumericKeypadButton>, m: int, n: int)
    requires
        m <= n,
    ensures
        spelled(code, m) <= spelled(code, n),
    decreases n - m,
{
    if m < n {
        lemma_spelled_grows(code, m, n - 1);
    }
}

/// The number of a code as a machine integer: see `number_of`.
pub fn code_number(code: &[NumericKeypadButton]) -> (res: Option<usize>)
    ensures
        res == match number_of(code@) {
            Some(n) => within(n),
            None => None,
        },
{
    if code.len() == 0 {
        return None;
    }
    let last = code.len() - 1;
    let mut number: usize = 0;
    let mut fit = true;
    let mut i: usize = 0;
    while i < last
        invariant
            last == code.len() - 1,
            i <= last,
            digits_only(code@, i as int),
            fit ==> number == spelled(code@, i as int),
            !fit ==> spelled(code@, i as int) > usize::MAX,
        decreases last - i,
    {
        match code[i] {
            NumericKeypadButton::Num(d) => {
                if d > 9 {
                    return None;
                }
                if fit {
                    let grown = match number.checked_mul(10) {
                        Some(t) => t.checked_add(d as usize),
                        None => None,
                    };
                    match grown {
                        Some(g) => {
                            number = g;
                        },
                        None => {
                            fit = false;
                        },
                    }
                }
            },
            NumericKeypadButton::Activate => {
                return None;
            },
        }
        i += 1;
    }
    if fit {
        Some(number)
    } else {
        None
    }
}

/// The complexity of a code: its number times the fewest presses that
/// type it.
pub open spec fn complexity_of(code: Seq<NumericKeypadButton>, keypads: nat) -> Option<nat> {
    match number_of(code) {
        Some(n) => Some(
            n * cheapest_typing(typed(code, code.len() as int), typed(code, code.len() as int).len(), keypads),
        ),
        None => None,
    }
}

/// Whether a code has a complexity, and both it and the number of the
/// code are machine integers.
pub open spec fn fits_usize(code: Seq<NumericKeypadButton>, keypads: nat) -> bool {
    match complexity_of(code, keypads) {
        Some(c) => c <= usize::MAX && number_of(code).unwrap() <= usize::MAX,
        None => false,
    }
}

/// The complexity of a code, typed through `keypads` keypads of arrows:
/// see `complexity_of`. Returns `None` where the code has no number, or
/// the number or the complexity is no machine integer.
pub fn complexity(code: &[NumericKeypadButton], keypads: usize) -> (res: Option<usize>)
    requires
        code.len() >= 1,
        forall|i: int| 0 <= i < code.len() && (#[trigger] code[i]) is Num ==> code[i]->Num_0 <= 9,
    ensures
        res is Some <==> fits_usize(code@, keypads as nat),
        res is Some ==> complexity_of(code@, keypads as nat) == Some(res.unwrap() as nat),
{
    let number = match code_number(code) {
        Some(n) => n,
        None => {
            return None;
        },
    };
    let ghost presses = cheapest_typing(
        typed(code@, code.len() as int),
        typed(code@, code.len() as int).len(),
        keypads as nat,
    );
    if number == 0 {
        assert(0 * presses == 0) by (nonlinear_arith);
        return Some(0);
    }
    match fewest_presses(code, keypads) {
        Some(p) => {
            let product = number.checked_mul(p);
            product
        },
        None => {
            assert(number * presses >= presses) by (nonlinear_arith)
                requires
                    number >= 1,
                    presses >= 0,
            ;
            None
        },
    }
}

/// The complexities of the first `n` codes, summed.
pub open spec fn complexities(codes: Seq<Seq<NumericKeypadButton>>, keypads: nat, n: int) -> nat
    decreases n,
{
    if n <= 0 {
        0
    } else {
        complexities(codes, keypads, n - 1) + complexity_of(codes[n - 1], keypads).unwrap()
    }
}

/// The codes as sequences.
pub open spec fn codes_view(codes: Seq<Vec<NumericKeypadButton>>) -> Seq<Seq<NumericKeypadButton>> {
    codes.map_values(|c: Vec<NumericKeypadButton>| c@)
}

/// Whether the complexities of the codes can be summed: every code has
/// a button, and a number and a complexity that are machine integers, and
/// so is the sum.
pub open spec fn can_sum(codes: Seq<Seq<NumericKeypadButton>>, keypads: nat) -> bool {
    &&& forall|k: int| 0 <= k < codes.len() ==> (#[trigger] codes[k]).len() >= 1 && fits_usize(codes[k], keypads)
    &&& complexities(codes, keypads, codes.len() as int) <= usize::MAX
}

/// The complexities of more codes sum to no less.
pub proof fn lemma_complexities_grow(codes: Seq<Seq<NumericKeypadButton>>, keypads: nat, m: int, n: int)
    requires
        m <= n,
    ensures
        complexities(codes, keypads, m) <= complexities(codes, keypads, n),
    decreases n - m,
{
    if m < n {
        lemma_complexities_grow(codes, keypads, m, n - 1);
    }
}

/// The complexities of all codes, summed. Returns `None` where a code
/// has no button or no number, or a number, a complexity or the sum is no
/// machine integer: see `can_sum`.
pub fn total_complexity(codes: &Vec<Vec<NumericKeypadButton>>, keypads: usize) -> (res: Option<usize>)
    requires
        forall|k: int, i: int|
            0 <= k < codes.len() && 0 <= i < codes[k].len() && (#[trigger] codes[k][i]) is Num ==> codes[k][i]->Num_0
                <= 9,
    ensures
        res is Some <==> can_sum(codes_view(codes@), keypads as nat),
        res is Some ==> res.unwrap() == complexities(codes_view(codes@), keypads as nat, codes.len() as int),
{
    let ghost all = codes_view(codes@);
    let mut total: usize = 0;
    let mut k: usize = 0;
    while k < codes.len()
        invariant
            all == codes_view(codes@),
            k <= codes.len(),
            forall|j: int, i: int|
                0 <= j < codes.len() && 0 <= i < codes[j].len() && (#[trigger] codes[j][i]) is Num
                    ==> codes[j][i]->Num_0 <= 9,
            total == complexities(all, keypads as nat, k as int),
            forall|j: int| 0 <= j < k ==> (#[trigger] all[j]).len() >= 1 && fits_usize(all[j], keypads as nat),
        decreases codes.len() - k,
    {
        assert(all[k as int] == codes[k as int]@);
        proof {
            lemma_complexities_grow(all, keypads as nat, k + 1, codes.len() as int);
        }
        if codes[k].len() == 0 {
            return None;
        }
        let c = match complexity(codes[k].as_slice(), keypads) {
            Some(c) => c,
            None => {
                return None;
            },
        };
        total = match total.checked_add(c) {
            Some(t) => t,
            None => {
                return None;
            },
        };
        k += 1;
    }
    Some(total)
}

/// The buttons that the characters of a line name, if each names one.
pub open spec fn code_of(line: Seq<char>, n: int) -> Option<Seq<NumericKeypadButton>>
    decreases n,
{
    if n <= 0 {
        Some(Seq::empty())
    } else {
        match (code_of(line, n - 1), button_of(line[n - 1])) {
            (Some(before), Some(b)) => Some(before.push(b)),
            _ => None,
        }
    }
}

/// The button that a character names: a digit, or `A`.
pub open spec fn button_of(c: char) -> Option<NumericKeypadButton> {
    if text::is_digit(c) {
        Some(NumericKeypadButton::Num(text::digit_value(c) as u8))
    } else if c == 'A' {
        Some(NumericKeypadButton::Activate)
    } else {
        None
    }
}

/// Reads a code from a line: see `code_of`.
pub fn read_code(line: &str) -> (res: Option<Vec<NumericKeypadButton>>)
    ensures
        match code_of(line@, line@.len() as int) {
            Some(code) => res is Some && res.unwrap()@ == code,
            None => res is None,
        },
        res is Some ==> forall|i: int|
            0 <= i < res.unwrap().len() && (#[trigger] res.unwrap()[i]) is Num ==> res.unwrap()[i]->Num_0 <= 9,
{
    let chars = text::chars(line);
    let mut code: Vec<NumericKeypadButton> = Vec::new();
    let mut i: usize = 0;
    while i < chars.len()
        invariant
            chars@ == line@,
            i <= chars.len(),
            code_of(line@, i as int) == Some(code@),
            forall|k: int| 0 <= k < code.len() && (#[trigger] code[k]) is Num ==> code[k]->Num_0 <= 9,
        decreases chars.len() - i,
    {
        match NumericKeypadButton::try_from(chars[i]) {
            Ok(b) => {
                code.push(b);
            },
            Err(_) => {
                proof {
                    lemma_code_stays_none(line@, i + 1, line@.len() as int);
                }
                return None;
            },
        }
        i += 1;
    }
    Some(code)
}

/// A line that names no code up to some character names none at all.
pub proof fn lemma_code_stays_none(line: Seq<char>, m: int, n: int)
    requires
        m <= n,
        code_of(line, m) is None,
    ensures
        code_of(line, n) is None,
    decreases n - m,
{
    if m < n {
        lemma_code_stays_none(line, m, n - 1);
    }
}

} // verus!
