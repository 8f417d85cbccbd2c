//! Claw machines: two buttons that move the claw, and the cheapest way to
//! bring it over the prize.

use crate::text;
use vstd::prelude::*;

verus! {

/// The two buttons of a machine, with what each press moves the claw by.
/// A press of the first button costs `A` tokens, one of the second `B`.
#[derive(Debug)]
pub struct Buttons<const A: u64, const B: u64> {
    pub a: (i64, i64),
    pub b: (i64, i64),
}

/// The determinant of the two moves.
pub open spec fn det(a: (i64, i64), b: (i64, i64)) -> int {
    a.0 * b.1 - b.0 * a.1
}

/// The determinant times the number of presses of the first button.
pub open spec fn det_x(b: (i64, i64), prize: (i64, i64)) -> int {
    b.1 * prize.0 - b.0 * prize.1
}

/// The determinant times the number of presses of the second button.
pub open spec fn det_y(a: (i64, i64), prize: (i64, i64)) -> int {
    a.0 * prize.1 - a.1 * prize.0
}

/// `v` with its sign turned where `turn` says so.
pub open spec fn turned(turn: bool, v: int) -> int {
    if turn {
        -v
    } else {
        v
    }
}

/// How often each button is to be pressed to reach the prize, by Cramer's
/// rule: the whole, non-negative solution of the two linear equations, if
/// they have one. The signs are turned first where the determinant that
/// divides is negative.
pub open spec fn presses(a: (i64, i64), b: (i64, i64), prize: (i64, i64)) -> Option<(int, int)> {
    let turn = det(a, b) < 0;
    let d = turned(turn, det(a, b));
    let x = turned(turn, det_x(b, prize));
    let y = turned(turn, det_y(a, prize));
    if d != 0 && x >= 0 && y >= 0 && x % d == 0 && y % d == 0 {
        Some((x / d, y / d))
    } else {
        None
    }
}

/// The presses that `presses` finds bring the claw over the prize.
pub proof fn lemma_presses_reach_prize(a: (i64, i64), b: (i64, i64), prize: (i64, i64))
    requires
        presses(a, b, prize) is Some,
    ensures
        ({
            let (x, y) = presses(a, b, prize).unwrap();
            &&& x >= 0 && y >= 0
            &&& a.0 * x + b.0 * y == prize.0
            &&& a.1 * x + b.1 * y == prize.1
        }),
{
    let turn = det(a, b) < 0;
    let d = turned(turn, det(a, b));
    let nx = turned(turn, det_x(b, prize));
    let ny = turned(turn, det_y(a, prize));
    let x = nx / d;
    let y = ny / d;
    vstd::arithmetic::div_mod::lemma_fundamental_div_mod(nx, d);
    vstd::arithmetic::div_mod::lemma_fundamental_div_mod(ny, d);
    vstd::arithmetic::div_mod::lemma_div_pos_is_pos(nx, d);
    vstd::arithmetic::div_mod::lemma_div_pos_is_pos(ny, d);
    let a0 = a.0 as int;
    let a1 = a.1 as int;
    let b0 = b.0 as int;
    let b1 = b.1 as int;
    let px = prize.0 as int;
    let py = prize.1 as int;
    let d0 = a0 * b1 - b0 * a1;
    let x0 = b1 * px - b0 * py;
    let y0 = a0 * py - a1 * px;
    let dx = d0 * x;
    let dy = d0 * y;
    if turn {
        assert(d0 * x == x0) by (nonlinear_arith)
            requires
                (-d0) * x == -x0,
        ;
        assert(d0 * y == y0) by (nonlinear_arith)
            requires
                (-d0) * y == -y0,
        ;
    }
    assert(dx == x0 && dy == y0);
    assert(d0 * (a0 * x + b0 * y) == a0 * dx + b0 * dy) by (nonlinear_arith)
        requires
            dx == d0 * x,
            dy == d0 * y,
    ;
    assert(d0 * (a1 * x + b1 * y) == a1 * dx + b1 * dy) by (nonlinear_arith)
        requires
            dx == d0 * x,
            dy == d0 * y,
    ;
    assert(a0 * (b1 * px - b0 * py) + b0 * (a0 * py - a1 * px) == d0 * px) by (nonlinear_arith)
        requires
            d0 == a0 * b1 - b0 * a1,
    ;
    assert(a1 * (b1 * px - b0 * py) + b1 * (a0 * py - a1 * px) == d0 * py) by (nonlinear_arith)
        requires
            d0 == a0 * b1 - b0 * a1,
    ;
    vstd::arithmetic::mul::lemma_mul_equality_converse(d0, a0 * x + b0 * y, px);
    vstd::arithmetic::mul::lemma_mul_equality_converse(d0, a1 * x + b1 * y, py);
}

/// Whatever whole, non-negative presses bring the claw over the prize are
/// the presses that `presses` finds, where the two moves are independent.
pub proof fn lemma_presses_are_the_only(
    a: (i64, i64),
    b: (i64, i64),
    prize: (i64, i64),
    x: int,
    y: int,
)
    requires
        det(a, b) != 0,
        x >= 0,
        y >= 0,
        a.0 * x + b.0 * y == prize.0,
        a.1 * x + b.1 * y == prize.1,
    ensures
        presses(a, b, prize) == Some((x, y)),
{
    let turn = det(a, b) < 0;
    let d = turned(turn, det(a, b));
    let nx = turned(turn, det_x(b, prize));
    let ny = turned(turn, det_y(a, prize));
    let a0 = a.0 as int;
    let a1 = a.1 as int;
    let b0 = b.0 as int;
    let b1 = b.1 as int;
    let px = prize.0 as int;
    let py = prize.1 as int;
    let d0 = a0 * b1 - b0 * a1;
    assert(b1 * (a0 * x + b0 * y) - b0 * (a1 * x + b1 * y) == d0 * x) by (nonlinear_arith)
        requires
            d0 == a0 * b1 - b0 * a1,
    ;
    assert(a0 * (a1 * x + b1 * y) - a1 * (a0 * x + b0 * y) == d0 * y) by (nonlinear_arith)
        requires
            d0 == a0 * b1 - b0 * a1,
    ;
    assert(det_x(b, prize) == d0 * x);
    assert(det_y(a, prize) == d0 * y);
    if turn {
        assert(-(d0 * x) == x * (-d0) && -(d0 * y) == y * (-d0)) by (nonlinear_arith);
    } else {
        assert(d0 * x == x * d0 && d0 * y == y * d0) by (nonlinear_arith);
    }
    assert(nx == x * d && ny == y * d);
    assert(x * d >= 0 && y * d >= 0) by (nonlinear_arith)
        requires
            x >= 0,
            y >= 0,
            d > 0,
    ;
    vstd::arithmetic::div_mod::lemma_div_multiples_vanish(x, d);
    vstd::arithmetic::div_mod::lemma_div_multiples_vanish(y, d);
    vstd::arithmetic::div_mod::lemma_mod_multiples_basic(x, d);
    vstd::arithmetic::div_mod::lemma_mod_multiples_basic(y, d);
}

/// What the presses cost in tokens.
pub open spec fn cost_of(price_a: u64, price_b: u64, pressed: Option<(int, int)>) -> Option<int> {
    match pressed {
        Some((x, y)) => Some(price_a * x + price_b * y),
        None => None,
    }
}

/// The product of two 64-bit integers, which 128 bits always hold.
pub fn wide_product(x: i64, y: i64) -> (p: i128)
    ensures
        p == x * y,
        -0x4000_0000_0000_0000_0000_0000_0000_0000 + 0x8000_0000_0000_0000 <= p
            <= 0x4000_0000_0000_0000_0000_0000_0000_0000,
{
    assert(-0x4000_0000_0000_0000_0000_0000_0000_0000 + 0x8000_0000_0000_0000 <= x * y
        <= 0x4000_0000_0000_0000_0000_0000_0000_0000) by (nonlinear_arith)
        requires
            -0x8000_0000_0000_0000 <= x <= 0x7fff_ffff_ffff_ffff,
            -0x8000_0000_0000_0000 <= y <= 0x7fff_ffff_ffff_ffff,
    ;
    (x as i128) * (y as i128)
}

/// The presses by Cramer's rule, in machine integers.
pub fn find_presses(a: (i64, i64), b: (i64, i64), prize: (i64, i64)) -> (res: Option<(u128, u128)>)
    ensures
        match presses(a, b, prize) {
            Some((x, y)) => res == Some((x as u128, y as u128)) && 0 <= x <= u128::MAX && 0 <= y
                <= u128::MAX,
            None => res is None,
        },
{
    let d0 = wide_product(a.0, b.1) - wide_product(b.0, a.1);
    let x0 = wide_product(b.1, prize.0) - wide_product(b.0, prize.1);
    let y0 = wide_product(a.0, prize.1) - wide_product(a.1, prize.0);
    if d0 == 0 {
        return None;
    }
    let (d, x, y) = if d0 < 0 {
        (-d0, -x0, -y0)
    } else {
        (d0, x0, y0)
    };
    if x < 0 || y < 0 {
        return None;
    }
    let d = d as u128;
    let x = x as u128;
    let y = y as u128;
    if x % d == 0 && y % d == 0 {
        Some((x / d, y / d))
    } else {
        None
    }
}

impl<const A: u64, const B: u64> Buttons<A, B> {
    /// The tokens that it costs to bring the claw over `prize`, if whole
    /// numbers of presses can do so.
    pub fn solve(&self, prize: (i64, i64)) -> (res: Option<u64>)
        requires
            det(self.a, self.b) != 0,
            match cost_of(A, B, presses(self.a, self.b, prize)) {
                Some(cost) => cost <= u64::MAX,
                None => true,
            },
        ensures
            match cost_of(A, B, presses(self.a, self.b, prize)) {
                Some(cost) => res == Some(cost as u64),
                None => res is None,
            },
    {
        match find_presses(self.a, self.b, prize) {
            Some((x, y)) => {
                assert(A * x <= A * x + B * y && B * y <= A * x + B * y) by (nonlinear_arith)
                    requires
                        x >= 0,
                        y >= 0,
                        A >= 0,
                        B >= 0,
                ;
                let cost = (A as u128) * x + (B as u128) * y;
                Some(cost as u64)
            },
            None => None,
        }
    }
}

/// A machine: its buttons and where its prize lies.
#[derive(Debug)]
pub struct Eqn<const A: u64, const B: u64> {
    pub buttons: Buttons<A, B>,
    pub prize: (i64, i64),
}

/// The number in a word such as `X+94,` or `Y=5400`: what follows the first
/// two bytes, without the last byte where `trimmed` says so.
pub open spec fn number_in(word: Seq<char>, trimmed: bool) -> Option<i64> {
    let rest = text::after_two_bytes(word);
    let body = if trimmed {
        match rest {
            Some(r) => text::before_last_byte(r),
            None => None,
        }
    } else {
        rest
    };
    match body {
        Some(digits) => match text::integer_of(digits) {
            Some(n) => if i64::MIN <= n <= i64::MAX {
                Some(n as i64)
            } else {
                None
            },
            None => None,
        },
        None => None,
    }
}

/// The two numbers of a line, of which the first stands in word `at`.
pub open spec fn pair_in(line: Seq<char>, at: int) -> Option<(i64, i64)> {
    let parts = text::words_of(line);
    if parts.len() >= at + 2 {
        match (number_in(parts[at], true), number_in(parts[at + 1], false)) {
            (Some(x), Some(y)) => Some((x, y)),
            _ => None,
        }
    } else {
        None
    }
}

/// A machine as far as it has been read.
pub struct Draft {
    pub a: (i64, i64),
    pub b: (i64, i64),
    pub prize: (i64, i64),
}

/// The machine read from the first `n` lines: the first line gives the
/// first button, the second the second, and each later line the prize,
/// moved by `offset` in both directions. `None` where a line cannot be read.
pub open spec fn draft_of(lines: Seq<Seq<char>>, offset: i64, n: int) -> Option<Draft>
    decreases n,
{
    if n <= 0 {
        Some(Draft { a: (0, 0), b: (0, 0), prize: (0, 0) })
    } else {
        match draft_of(lines, offset, n - 1) {
            None => None,
            Some(d) => if n - 1 == 0 {
                match pair_in(lines[0], 2) {
                    Some(p) => Some(Draft { a: p, ..d }),
                    None => None,
                }
            } else if n - 1 == 1 {
                match pair_in(lines[1], 2) {
                    Some(p) => Some(Draft { b: p, ..d }),
                    None => None,
                }
            } else {
                match pair_in(lines[n - 1], 1) {
                    Some(p) => if i64::MIN <= p.0 + offset <= i64::MAX && i64::MIN <= p.1 + offset
                        <= i64::MAX {
                        Some(Draft { prize: ((p.0 + offset) as i64, (p.1 + offset) as i64), ..d })
                    } else {
                        None
                    },
                    None => None,
                }
            },
        }
    }
}

/// Reads the number of one word.
pub fn parse_number(word: &Vec<char>, trimmed: bool) -> (res: Option<i64>)
    ensures
        res == number_in(word@, trimmed),
{
    let rest = match text::drop_two_bytes(word) {
        Some(rest) => rest,
        None => {
            return None;
        },
    };
    let body = if trimmed {
        match text::drop_last_byte(&rest) {
            Some(body) => body,
            None => {
                return None;
            },
        }
    } else {
        rest
    };
    text::parse_i64(&body)
}

/// Reads the two numbers of a line.
pub fn parse_line(line: &Vec<char>, at: usize) -> (res: Option<(i64, i64)>)
    requires
        at <= 2,
    ensures
        res == pair_in(line@, at as int),
{
    let parts = text::words(line);
    if parts.len() < at + 2 {
        return None;
    }
    assert(text::views(parts@)[at as int] == parts[at as int]@);
    assert(text::views(parts@)[at + 1] == parts[at + 1]@);
    match (parse_number(&parts[at], true), parse_number(&parts[at + 1], false)) {
        (Some(x), Some(y)) => Some((x, y)),
        _ => None,
    }
}

impl<const A: u64, const B: u64> Eqn<A, B> {
    /// The tokens that the prize of this machine costs, if it can be won.
    pub fn solve(&self) -> (res: Option<u64>)
        requires
            det(self.buttons.a, self.buttons.b) != 0,
            match cost_of(A, B, presses(self.buttons.a, self.buttons.b, self.prize)) {
                Some(cost) => cost <= u64::MAX,
                None => true,
            },
        ensures
            match cost_of(A, B, presses(self.buttons.a, self.buttons.b, self.prize)) {
                Some(cost) => res == Some(cost as u64),
                None => res is None,
            },
    {
        self.buttons.solve(self.prize)
    }

    /// Whether `solve` can be asked: the two moves are independent, and
    /// the cost is a machine integer.
    pub fn solvable(&self) -> (ok: bool)
        ensures
            ok == (det(self.buttons.a, self.buttons.b) != 0 && match cost_of(
                A,
                B,
                presses(self.buttons.a, self.buttons.b, self.prize),
            ) {
                Some(cost) => cost <= u64::MAX,
                None => true,
            }),
    {
        let a = self.buttons.a;
        let b = self.buttons.b;
        let d = wide_product(a.0, b.1) - wide_product(b.0, a.1);
        if d == 0 {
            return false;
        }
        match find_presses(a, b, self.prize) {
            Some((x, y)) => {
                let ax = match (A as u128).checked_mul(x) {
                    Some(ax) => ax,
                    None => {
                        assert(B * y >= 0) by (nonlinear_arith)
                            requires
                                y >= 0,
                                B >= 0,
                        ;
                        return false;
                    },
                };
                let by = match (B as u128).checked_mul(y) {
                    Some(by) => by,
                    None => {
                        return false;
                    },
                };
                match ax.checked_add(by) {
                    Some(cost) => cost <= u64::MAX as u128,
                    None => false,
                }
            },
            None => true,
        }
    }

    /// Reads a machine from its three lines, and moves its prize by
    /// `offset` in both directions.
    pub fn try_from(value: &str, offset: i64) -> (res: Result<Self, &'static str>)
        ensures
            ({
                let lines = text::lines_of(value@);
                match draft_of(lines, offset, lines.len() as int) {
                    Some(d) => res is Ok && res->Ok_0.buttons.a == d.a && res->Ok_0.buttons.b == d.b
                        && res->Ok_0.prize == d.prize,
                    None => res is Err,
                }
            }),
    {
        let all = text::chars(value);
        let lines = text::lines(&all);
        let ghost rows = text::lines_of(value@);
        let mut a: (i64, i64) = (0, 0);
        let mut b: (i64, i64) = (0, 0);
        let mut prize: (i64, i64) = (0, 0);
        let mut i: usize = 0;
        while i < lines.len()
            invariant
                i <= lines.len(),
                rows == text::views(lines@),
                rows == text::lines_of(value@),
                draft_of(rows, offset, i as int) == Some(Draft { a, b, prize }),
            decreases lines.len() - i,
        {
            assert(rows[i as int] == lines[i as int]@);
            let ghost so_far = draft_of(rows, offset, i as int);
            if i < 2 {
                let p = match parse_line(&lines[i], 2) {
                    Some(p) => p,
                    None => {
                        proof {
                            lemma_draft_stays_none(rows, offset, i + 1, rows.len() as int);
                        }
                        return Err("a button line does not hold two numbers");
                    },
                };
                if i == 0 {
                    a = p;
                } else {
                    b = p;
                }
            } else {
                let p = match parse_line(&lines[i], 1) {
                    Some(p) => p,
                    None => {
                        proof {
                            lemma_draft_stays_none(rows, offset, i + 1, rows.len() as int);
                        }
                        return Err("a prize line does not hold two numbers");
                    },
                };
                match (p.0.checked_add(offset), p.1.checked_add(offset)) {
                    (Some(x), Some(y)) => {
                        prize = (x, y);
                    },
                    _ => {
                        proof {
                            lemma_draft_stays_none(rows, offset, i + 1, rows.len() as int);
                        }
                        return Err("the prize lies too far away");
                    },
                }
            }
            i += 1;
        }
        Ok(Eqn { buttons: Buttons { a, b }, prize })
    }
}

/// Once a line cannot be read, no later line mends it.
pub proof fn lemma_draft_stays_none(lines: Seq<Seq<char>>, offset: i64, m: int, n: int)
    requires
        0 <= m <= n,
        draft_of(lines, offset, m) is None,
    ensures
        draft_of(lines, offset, n) is None,
    decreases n - m,
{
    if m < n {
        assert(draft_of(lines, offset, m + 1) is None);
        lemma_draft_stays_none(lines, offset, m + 1, n);
    }
}

/// What the prizes of the first `n` machines that can be won cost in all.
pub open spec fn total_of<const A: u64, const B: u64>(machines: Seq<Eqn<A, B>>, n: int) -> int
    decreases n,
{
    if n <= 0 {
        0
    } else {
        let m = machines[n - 1];
        total_of(machines, n - 1) + match cost_of(A, B, presses(m.buttons.a, m.buttons.b, m.prize)) {
            Some(cost) => if det(m.buttons.a, m.buttons.b) != 0 && cost <= u64::MAX {
                cost
            } else {
                0int
            },
            None => 0int,
        }
    }
}

/// The tokens that all prizes cost which can be won. A machine whose
/// moves depend on each other, or whose cost is no machine integer, counts
/// as one that cannot be won.
pub fn total_cost<const A: u64, const B: u64>(machines: &Vec<Eqn<A, B>>) -> (total: u128)
    ensures
        total == total_of(machines@, machines.len() as int),
{
    let mut total: u128 = 0;
    let mut i: usize = 0;
    while i < machines.len()
        invariant
            i <= machines.len(),
            total == total_of(machines@, i as int),
            total <= i * 0x1_0000_0000_0000_0000,
        decreases machines.len() - i,
    {
        if machines[i].solvable() {
            match machines[i].solve() {
                Some(cost) => {
                    total = total + cost as u128;
                },
                None => {},
            }
        }
        i += 1;
    }
    total
}

} // verus!
