//! Robots that patrol a rectangular floor and wrap around at its edges.

use crate::text;
use vstd::arithmetic::div_mod::{lemma_add_mod_noop, lemma_mod_twice};
use vstd::prelude::*;

verus! {

/// A robot on a floor `W` tiles wide and `H` tiles tall, with its position
/// and its velocity in tiles per second.
#[derive(Clone, Copy, PartialEq, Eq, Debug)]
pub struct Robot<const W: usize, const H: usize> {
    pub p: (i64, i64),
    pub v: (i64, i64),
}

/// The coordinate that a robot reaches from `p` after `n` seconds at velocity
/// `v` on an axis of length `len`.
pub open spec fn wrapped(p: int, v: int, n: int, len: int) -> int {
    (p + n * v) % len
}

/// The coordinate after `n` single seconds, one after the other.
pub open spec fn stepped(p: int, v: int, n: nat, len: int) -> int
    decreases n,
{
    if n == 0 {
        p
    } else {
        wrapped(stepped(p, v, (n - 1) as nat, len), v, 1, len)
    }
}

/// Moving for `n` seconds at once ends where `n` moves of one second end.
pub proof fn lemma_stepped_is_wrapped(p: int, v: int, n: nat, len: int)
    requires
        len > 0,
        n > 0,
    ensures
        stepped(p, v, n, len) == wrapped(p, v, n as int, len),
    decreases n,
{
    if n == 1 {
        assert(stepped(p, v, 0, len) == p);
        assert(1 * v == v);
    } else {
        lemma_stepped_is_wrapped(p, v, (n - 1) as nat, len);
        let q = p + (n - 1) * v;
        assert(stepped(p, v, n, len) == (q % len + 1 * v) % len);
        assert(1 * v == v);
        lemma_add_mod_noop(q, v, len);
        lemma_add_mod_noop(q % len, v, len);
        lemma_mod_twice(q, len);
        assert(q + v == p + n * v) by (nonlinear_arith)
            requires
                q == p + (n - 1) * v,
        ;
    }
}

/// The quadrant of `(x, y)` on a floor whose middle column is `mw` and whose
/// middle row is `mh`: 1 and 2 above the middle row, 3 and 4 below it, and
/// none for a position on either middle line.
pub open spec fn quadrant_of(x: int, y: int, mw: int, mh: int) -> Option<u8> {
    if x < mw && y < mh {
        Some(1u8)
    } else if x > mw && y < mh {
        Some(2u8)
    } else if x < mw && y > mh {
        Some(3u8)
    } else if x > mw && y > mh {
        Some(4u8)
    } else {
        None
    }
}

/// The pair of numbers that a field such as `p=0,4` holds: what follows its
/// first two bytes up to the comma, and what follows the comma.
pub open spec fn pair_of(field: Seq<char>) -> Option<(i64, i64)> {
    let parts = text::split_on(field, ',');
    if parts.len() >= 2 && text::after_two_bytes(parts[0]) is Some {
        match (text::integer_of(text::after_two_bytes(parts[0]).unwrap()), text::integer_of(parts[1])) {
            (Some(a), Some(b)) => if i64::MIN <= a <= i64::MAX && i64::MIN <= b <= i64::MAX {
                Some((a as i64, b as i64))
            } else {
                None
            },
            _ => None,
        }
    } else {
        None
    }
}

/// The position and velocity that a line such as `p=0,4 v=3,-3` holds.
pub open spec fn robot_of(line: Seq<char>) -> Option<((i64, i64), (i64, i64))> {
    let fields = text::words_of(line);
    if fields.len() >= 2 {
        match (pair_of(fields[0]), pair_of(fields[1])) {
            (Some(p), Some(v)) => Some((p, v)),
            _ => None,
        }
    } else {
        None
    }
}

/// Reads the pair of numbers of one field.
pub fn parse_pair(field: &Vec<char>) -> (res: Option<(i64, i64)>)
    ensures
        res == pair_of(field@),
{
    let parts = text::split(field, ',');
    assert(text::views(parts@) == text::split_on(field@, ','));
    if parts.len() < 2 {
        return None;
    }
    assert(text::views(parts@)[0] == parts[0]@);
    assert(text::views(parts@)[1] == parts[1]@);
    let first = match text::drop_two_bytes(&parts[0]) {
        Some(first) => first,
        None => {
            return None;
        },
    };
    match (text::parse_i64(&first), text::parse_i64(&parts[1])) {
        (Some(a), Some(b)) => Some((a, b)),
        _ => None,
    }
}

impl<const W: usize, const H: usize> Robot<W, H> {
    /// Whether the floor has a size that positions can be wrapped to.
    pub open spec fn floor_ok() -> bool {
        0 < W <= i64::MAX && 0 < H <= i64::MAX
    }

    /// Moves the robot for one second.
    pub fn update(&mut self)
        requires
            Self::floor_ok(),
            i64::MIN <= old(self).p.0 + old(self).v.0 <= i64::MAX,
            i64::MIN <= old(self).p.1 + old(self).v.1 <= i64::MAX,
        ensures
            final(self).p.0 == wrapped(old(self).p.0 as int, old(self).v.0 as int, 1, W as int),
            final(self).p.1 == wrapped(old(self).p.1 as int, old(self).v.1 as int, 1, H as int),
            final(self).v == old(self).v,
            0 <= final(self).p.0 < W,
            0 <= final(self).p.1 < H,
    {
        let x = (self.p.0 + self.v.0).checked_rem_euclid(W as i64).unwrap();
        let y = (self.p.1 + self.v.1).checked_rem_euclid(H as i64).unwrap();
        self.p = (x, y);
    }

    /// Moves the robot for `n` seconds at once.
    pub fn update_n(&mut self, n: i64)
        requires
            Self::floor_ok(),
            i64::MIN <= n * old(self).v.0 <= i64::MAX,
            i64::MIN <= n * old(self).v.1 <= i64::MAX,
            i64::MIN <= old(self).p.0 + n * old(self).v.0 <= i64::MAX,
            i64::MIN <= old(self).p.1 + n * old(self).v.1 <= i64::MAX,
        ensures
            final(self).p.0 == wrapped(old(self).p.0 as int, old(self).v.0 as int, n as int, W as int),
            final(self).p.1 == wrapped(old(self).p.1 as int, old(self).v.1 as int, n as int, H as int),
            final(self).v == old(self).v,
            0 <= final(self).p.0 < W,
            0 <= final(self).p.1 < H,
    {
        let x = (self.p.0 + n * self.v.0).checked_rem_euclid(W as i64).unwrap();
        let y = (self.p.1 + n * self.v.1).checked_rem_euclid(H as i64).unwrap();
        self.p = (x, y);
    }

    /// The quadrant that the robot stands in, if it stands in one.
    pub fn quadrant(&self) -> (q: Option<u8>)
        requires
            W <= i64::MAX,
            H <= i64::MAX,
        ensures
            q == quadrant_of(self.p.0 as int, self.p.1 as int, W as int / 2, H as int / 2),
    {
        let mw = (W as i64) / 2;
        let mh = (H as i64) / 2;
        if self.p.0 < mw && self.p.1 < mh {
            Some(1)
        } else if self.p.0 > mw && self.p.1 < mh {
            Some(2)
        } else if self.p.0 < mw && self.p.1 > mh {
            Some(3)
        } else if self.p.0 > mw && self.p.1 > mh {
            Some(4)
        } else {
            None
        }
    }

    /// Reads a robot from a line such as `p=0,4 v=3,-3`.
    pub fn try_from(value: &str) -> (res: Result<Self, &'static str>)
        ensures
            res is Ok <==> robot_of(value@) is Some,
            res is Ok ==> res->Ok_0.p == robot_of(value@).unwrap().0 && res->Ok_0.v == robot_of(
                value@,
            ).unwrap().1,
    {
        let line = text::chars(value);
        let fields = text::words(&line);
        assert(text::views(fields@) == text::words_of(value@));
        if fields.len() < 2 {
            return Err("a robot needs a position and a velocity");
        }
        assert(text::views(fields@)[0] == fields[0]@);
        assert(text::views(fields@)[1] == fields[1]@);
        match (parse_pair(&fields[0]), parse_pair(&fields[1])) {
            (Some(p), Some(v)) => Ok(Robot { p, v }),
            _ => Err("a field does not hold two numbers"),
        }
    }
}

/// How many of the first `n` robots stand in quadrant `q` after
/// `seconds` seconds.
pub open spec fn in_quadrant<const W: usize, const H: usize>(
    robots: Seq<Robot<W, H>>,
    seconds: int,
    q: u8,
    n: int,
) -> int
    decreases n,
{
    if n <= 0 {
        0
    } else {
        let r = robots[n - 1];
        in_quadrant(robots, seconds, q, n - 1) + if quadrant_of(
            wrapped(r.p.0 as int, r.v.0 as int, seconds, W as int),
            wrapped(r.p.1 as int, r.v.1 as int, seconds, H as int),
            W as int / 2,
            H as int / 2,
        ) == Some(q) {
            1int
        } else {
            0int
        }
    }
}

/// Whether a robot can be moved for `seconds` seconds in 64 bits.
pub open spec fn can_move<const W: usize, const H: usize>(r: Robot<W, H>, seconds: int) -> bool {
    &&& i64::MIN <= seconds * r.v.0 <= i64::MAX
    &&& i64::MIN <= seconds * r.v.1 <= i64::MAX
    &&& i64::MIN <= r.p.0 + seconds * r.v.0 <= i64::MAX
    &&& i64::MIN <= r.p.1 + seconds * r.v.1 <= i64::MAX
}

/// How many robots stand in each of the four quadrants after `seconds`
/// seconds.
pub fn quadrant_counts<const W: usize, const H: usize>(robots: &Vec<Robot<W, H>>, seconds: i64) -> (counts: [usize; 4])
    requires
        Robot::<W, H>::floor_ok(),
        forall|i: int| 0 <= i < robots.len() ==> can_move(#[trigger] robots[i], seconds as int),
    ensures
        forall|q: int|
            0 <= q < 4 ==> #[trigger] counts[q] == in_quadrant(
                robots@,
                seconds as int,
                (q + 1) as u8,
                robots.len() as int,
            ),
{
    let mut counts: [usize; 4] = [0, 0, 0, 0];
    let mut i: usize = 0;
    while i < robots.len()
        invariant
            Robot::<W, H>::floor_ok(),
            forall|k: int| 0 <= k < robots.len() ==> can_move(#[trigger] robots[k], seconds as int),
            i <= robots.len(),
            forall|q: int|
                0 <= q < 4 ==> #[trigger] counts[q] == in_quadrant(
                    robots@,
                    seconds as int,
                    (q + 1) as u8,
                    i as int,
                ) && counts[q] <= i,
        decreases robots.len() - i,
    {
        let mut robot = robots[i];
        assert(can_move(robots[i as int], seconds as int));
        robot.update_n(seconds);
        let ghost before = counts@;
        match robot.quadrant() {
            Some(q) => {
                if 1 <= q && q <= 4 {
                    let at = (q - 1) as usize;
                    let c = counts[at];
                    counts[at] = c + 1;
                }
            },
            None => {},
        }
        assert forall|q: int| 0 <= q < 4 implies #[trigger] counts[q] == in_quadrant(
            robots@,
            seconds as int,
            (q + 1) as u8,
            i + 1,
        ) && counts[q] <= i + 1 by {
            assert(before[q] == in_quadrant(robots@, seconds as int, (q + 1) as u8, i as int));
        }
        i += 1;
    }
    counts
}

/// The product of those of the first `n` counts that are not nothing.
pub open spec fn product_of(counts: Seq<usize>, n: int) -> int
    decreases n,
{
    if n <= 0 {
        1
    } else {
        product_of(counts, n - 1) * if counts[n - 1] == 0 {
            1int
        } else {
            counts[n - 1] as int
        }
    }
}

/// The product is never less than one.
pub proof fn lemma_product_positive(counts: Seq<usize>, n: int)
    ensures
        product_of(counts, n) >= 1,
    decreases n,
{
    if n > 0 {
        lemma_product_positive(counts, n - 1);
        let f = if counts[n - 1] == 0 {
            1int
        } else {
            counts[n - 1] as int
        };
        assert(product_of(counts, n - 1) * f >= 1) by (nonlinear_arith)
            requires
                product_of(counts, n - 1) >= 1,
                f >= 1,
        ;
    }
}

/// With more counts, the product is no less.
pub proof fn lemma_product_grows(counts: Seq<usize>, m: int, n: int)
    requires
        m <= n,
    ensures
        product_of(counts, m) <= product_of(counts, n),
    decreases n - m,
{
    if m < n {
        lemma_product_grows(counts, m, n - 1);
        lemma_product_positive(counts, n - 1);
        if n > 0 {
            let f = if counts[n - 1] == 0 {
                1int
            } else {
                counts[n - 1] as int
            };
            assert(product_of(counts, n - 1) * f >= product_of(counts, n - 1)) by (nonlinear_arith)
                requires
                    product_of(counts, n - 1) >= 1,
                    f >= 1,
            ;
        }
    }
}

/// The safety factor: the numbers of robots in the quadrants that hold
/// any, multiplied. Returns `None` where the product is no machine integer.
pub fn safety_factor(counts: &[usize; 4]) -> (res: Option<usize>)
    ensures
        res is Some <==> product_of(counts@, 4) <= usize::MAX,
        res is Some ==> res.unwrap() == product_of(counts@, 4),
{
    let mut product: usize = 1;
    let mut q: usize = 0;
    while q < 4
        invariant
            q <= 4,
            product == product_of(counts@, q as int),
        decreases 4 - q,
    {
        let c = counts[q];
        if c != 0 {
            product = match product.checked_mul(c) {
                Some(p) => p,
                None => {
                    proof {
                        lemma_product_grows(counts@, q + 1, 4);
                    }
                    return None;
                },
            };
        }
        q += 1;
    }
    Some(product)
}

} // verus!
