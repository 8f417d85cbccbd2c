//! Equations whose operators are missing: can the operands reach the target?

use crate::stones::{digits, pow10};
use crate::text;
use vstd::prelude::*;

verus! {

/// The value that an equation must reach, and its operands.
pub struct Eqn {
    pub target: i64,
    pub operands: Vec<i64>,
}

/// An operator that may stand between two operands.
#[derive(Debug, PartialEq, Eq, Clone, Copy, Structural)]
pub enum BinOp {
    Add,
    Mul,
    Concat,
}

/// The digits of `rhs` written behind those of `lhs`, as a number; `rhs`
/// must not be negative.
pub open spec fn concat(lhs: int, rhs: int) -> int {
    if lhs >= 0 {
        lhs * pow10(digits(rhs as nat)) + rhs
    } else {
        lhs * pow10(digits(rhs as nat)) - rhs
    }
}

/// What an operator makes of two numbers.
pub open spec fn value_of(op: BinOp, lhs: int, rhs: int) -> int {
    match op {
        BinOp::Add => lhs + rhs,
        BinOp::Mul => lhs * rhs,
        BinOp::Concat => concat(lhs, rhs),
    }
}

/// Whether an operator can work on two numbers in 64 bits: a negative
/// number cannot be written behind another, and the value must fit.
pub open spec fn can_eval(op: BinOp, lhs: int, rhs: int) -> bool {
    &&& op == BinOp::Concat ==> rhs >= 0
    &&& i64::MIN <= value_of(op, lhs, rhs) <= i64::MAX
}

/// The values that `value` and `operand` give under each of the first `n`
/// operators, in their order, without those that cannot be computed.
pub open spec fn spread(binops: Seq<BinOp>, value: i64, operand: i64, n: int) -> Seq<i64>
    decreases n,
{
    if n <= 0 {
        Seq::empty()
    } else {
        let before = spread(binops, value, operand, n - 1);
        if can_eval(binops[n - 1], value as int, operand as int) {
            before.push(value_of(binops[n - 1], value as int, operand as int) as i64)
        } else {
            before
        }
    }
}

/// The values that the first `n` of `values` give with `operand` under
/// every operator.
pub open spec fn spread_all(binops: Seq<BinOp>, values: Seq<i64>, operand: i64, n: int) -> Seq<i64>
    decreases n,
{
    if n <= 0 {
        Seq::empty()
    } else {
        spread_all(binops, values, operand, n - 1) + spread(
            binops,
            values[n - 1],
            operand,
            binops.len() as int,
        )
    }
}

/// The values that the first `n` operands can reach, read from left to
/// right: the first operand alone, and then every value reached so far
/// combined with the next operand under every operator. A value that
/// cannot be computed is dropped, and where none is left nothing is
/// reached any more. Only without operators, where an operand combines
/// with nothing, the operand after it starts anew.
pub open spec fn reached(binops: Seq<BinOp>, operands: Seq<i64>, n: int) -> Seq<i64>
    decreases n,
{
    if n <= 0 {
        Seq::empty()
    } else {
        let before = reached(binops, operands, n - 1);
        if n == 1 || (binops.len() == 0 && before.len() == 0) {
            seq![operands[n - 1]]
        } else {
            spread_all(binops, before, operands[n - 1], before.len() as int)
        }
    }
}

/// The number of digits of `n`, and ten to that power if it fits in 64 bits.
pub fn shift_for(n: u64) -> (res: (u64, Option<u64>))
    ensures
        res.0 == digits(n as nat),
        res.1 is Some <==> pow10(digits(n as nat)) <= u64::MAX,
        res.1 is Some ==> res.1.unwrap() == pow10(digits(n as nat)),
{
    let mut m: u64 = n;
    let mut d: u64 = 1;
    let mut p: u64 = 1;
    while m >= 10
        invariant
            digits(n as nat) == d - 1 + digits(m as nat),
            p == pow10((d - 1) as nat),
            1 <= d <= p,
            m * p <= n,
            n >= 10 ==> m >= 1,
        decreases m,
    {
        assert((m / 10) * (p * 10) <= m * p) by (nonlinear_arith)
            requires
                m >= 0,
                p >= 0,
        ;
        assert(p * 10 <= m * p) by (nonlinear_arith)
            requires
                m >= 10,
                p >= 0,
        ;
        m = m / 10;
        d = d + 1;
        p = p * 10;
    }
    (d, p.checked_mul(10))
}

impl BinOp {
    /// The value of the operator on two numbers, or `None` where it
    /// cannot be computed.
    pub fn try_eval(&self, lhs: i64, rhs: i64) -> (res: Option<i64>)
        ensures
            res is Some <==> can_eval(*self, lhs as int, rhs as int),
            res is Some ==> res.unwrap() == value_of(*self, lhs as int, rhs as int),
    {
        match self {
            BinOp::Add => lhs.checked_add(rhs),
            BinOp::Mul => lhs.checked_mul(rhs),
            BinOp::Concat => {
                if rhs < 0 {
                    return None;
                }
                let (_, shift) = shift_for(rhs as u64);
                let shift = match shift {
                    Some(s) => s,
                    None => {
                        proof {
                            lemma_concat_leaves(lhs as int, rhs as int);
                        }
                        return if lhs == 0 {
                            Some(rhs)
                        } else {
                            None
                        };
                    },
                };
                assert(-0x7fff_ffff_ffff_ffff_8000_0000_0000_0000 <= lhs * shift
                    <= 0x7fff_ffff_ffff_fffe_8000_0000_0000_0001) by (nonlinear_arith)
                    requires
                        -0x8000_0000_0000_0000 <= lhs <= 0x7fff_ffff_ffff_ffff,
                        0 <= shift <= 0xffff_ffff_ffff_ffff,
                ;
                let wide = (lhs as i128) * (shift as i128);
                let value = if lhs >= 0 {
                    wide + rhs as i128
                } else {
                    wide - rhs as i128
                };
                if value < i64::MIN as i128 || value > i64::MAX as i128 {
                    None
                } else {
                    Some(value as i64)
                }
            },
        }
    }

    /// The value of the operator on two numbers.
    pub fn eval(&self, lhs: i64, rhs: i64) -> (res: i64)
        requires
            can_eval(*self, lhs as int, rhs as int),
        ensures
            res == value_of(*self, lhs as int, rhs as int),
    {
        self.try_eval(lhs, rhs).unwrap()
    }
}

/// Written behind a number other than zero, digits that shift it out of
/// 64 bits leave 64 bits with it.
pub proof fn lemma_concat_leaves(lhs: int, rhs: int)
    requires
        rhs >= 0,
        pow10(digits(rhs as nat)) > u64::MAX,
    ensures
        lhs == 0 ==> concat(lhs, rhs) == rhs,
        lhs != 0 ==> !(i64::MIN <= concat(lhs, rhs) <= i64::MAX),
{
    let p = pow10(digits(rhs as nat)) as int;
    if lhs > 0 {
        assert(lhs * p >= p) by (nonlinear_arith)
            requires
                lhs >= 1,
                p >= 0,
        ;
    } else if lhs < 0 {
        assert(lhs * p <= -p) by (nonlinear_arith)
            requires
                lhs <= -1,
                p >= 0,
        ;
    } else {
        assert(lhs * p == 0) by (nonlinear_arith)
            requires
                lhs == 0,
        ;
    }
}

impl Eqn {
    /// Whether the operands reach the target under some choice of the
    /// operators `binops`.
    pub fn is_sat(&self, binops: &Vec<BinOp>) -> (sat: bool)
        ensures
            sat == reached(binops@, self.operands@, self.operands.len() as int).contains(self.target),
    {
        let mut acc: Vec<i64> = Vec::new();
        let mut i: usize = 0;
        while i < self.operands.len()
            invariant
                i <= self.operands.len(),
                acc@ == reached(binops@, self.operands@, i as int),
            decreases self.operands.len() - i,
        {
            let operand = self.operands[i];
            if i == 0 || (binops.len() == 0 && acc.len() == 0) {
                acc = Vec::new();
                acc.push(operand);
                assert(acc@ =~= seq![operand]);
            } else {
                let mut next: Vec<i64> = Vec::new();
                let mut v: usize = 0;
                while v < acc.len()
                    invariant
                        v <= acc.len(),
                        next@ == spread_all(binops@, acc@, operand, v as int),
                    decreases acc.len() - v,
                {
                    let value = acc[v];
                    let ghost before = next@;
                    let mut b: usize = 0;
                    while b < binops.len()
                        invariant
                            b <= binops.len(),
                            next@ == before + spread(binops@, value, operand, b as int),
                        decreases binops.len() - b,
                    {
                        let ghost held = spread(binops@, value, operand, b as int);
                        match binops[b].try_eval(value, operand) {
                            Some(r) => {
                                next.push(r);
                                assert(next@ =~= before + held.push(r));
                            },
                            None => {},
                        }
                        b += 1;
                    }
                    v += 1;
                }
                acc = next;
            }
            i += 1;
        }
        holds(&acc, self.target)
    }

    /// Reads an equation such as `190: 10 19`: the target before the
    /// colon, the operands after it.
    pub fn try_from(value: &str) -> (res: Result<Self, &'static str>)
        ensures
            res is Ok <==> equation_of(value@) is Some,
            res is Ok ==> res->Ok_0.target == equation_of(value@).unwrap().0 && res->Ok_0.operands@
                == equation_of(value@).unwrap().1,
    {
        let line = text::chars(value);
        let parts = text::split(&line, ':');
        if parts.len() < 2 {
            return Err("an equation needs a colon");
        }
        assert(text::views(parts@)[0] == parts[0]@);
        assert(text::views(parts@)[1] == parts[1]@);
        let target = match text::parse_i64(&parts[0]) {
            Some(t) => t,
            None => {
                return Err("the target is no number");
            },
        };
        let fields = text::words(&parts[1]);
        let ghost names = text::words_of(parts[1]@);
        let mut operands: Vec<i64> = Vec::new();
        let mut i: usize = 0;
        while i < fields.len()
            invariant
                i <= fields.len(),
                names == text::views(fields@),
                text::split_on(value@, ':').len() >= 2,
                names == text::words_of(text::split_on(value@, ':')[1]),
                numbers_of(names, i as int) == Some(operands@),
            decreases fields.len() - i,
        {
            assert(names[i as int] == fields[i as int]@);
            match text::parse_i64(&fields[i]) {
                Some(n) => {
                    operands.push(n);
                },
                None => {
                    proof {
                        lemma_numbers_stay_none(names, i + 1, names.len() as int);
                    }
                    return Err("an operand is no number");
                },
            }
            i += 1;
        }
        Ok(Eqn { target, operands })
    }
}

/// The numbers that the first `n` words write, or `None` if one of them
/// writes no number of 64 bits.
pub open spec fn numbers_of(words: Seq<Seq<char>>, n: int) -> Option<Seq<i64>>
    decreases n,
{
    if n <= 0 {
        Some(Seq::empty())
    } else {
        match (numbers_of(words, n - 1), text::integer_of(words[n - 1])) {
            (Some(before), Some(v)) => if i64::MIN <= v <= i64::MAX {
                Some(before.push(v as i64))
            } else {
                None
            },
            _ => None,
        }
    }
}

/// Once a word writes no number, no later word mends it.
pub proof fn lemma_numbers_stay_none(words: Seq<Seq<char>>, m: int, n: int)
    requires
        0 <= m <= n,
        numbers_of(words, m) is None,
    ensures
        numbers_of(words, n) is None,
    decreases n - m,
{
    if m < n {
        assert(numbers_of(words, m + 1) is None);
        lemma_numbers_stay_none(words, m + 1, n);
    }
}

/// The target and the operands that a line such as `190: 10 19` holds.
pub open spec fn equation_of(line: Seq<char>) -> Option<(i64, Seq<i64>)> {
    let parts = text::split_on(line, ':');
    if parts.len() < 2 {
        None
    } else {
        let words = text::words_of(parts[1]);
        match (text::integer_of(parts[0]), numbers_of(words, words.len() as int)) {
            (Some(t), Some(operands)) => if i64::MIN <= t <= i64::MAX {
                Some((t as i64, operands))
            } else {
                None
            },
            _ => None,
        }
    }
}

/// Whether `list` holds `x`.
pub fn holds(list: &Vec<i64>, x: i64) -> (found: bool)
    ensures
        found == list@.contains(x),
{
    let mut i: usize = 0;
    while i < list.len()
        invariant
            i <= list.len(),
            forall|k: int| 0 <= k < i ==> list[k] != x,
        decreases list.len() - i,
    {
        if list[i] == x {
            return true;
        }
        i += 1;
    }
    false
}

/// The targets of those of the first `n` equations that can be met,
/// summed.
pub open spec fn met_total(eqns: Seq<Eqn>, binops: Seq<BinOp>, n: int) -> int
    decreases n,
{
    if n <= 0 {
        0
    } else {
        met_total(eqns, binops, n - 1) + if reached(
            binops,
            eqns[n - 1].operands@,
            eqns[n - 1].operands.len() as int,
        ).contains(eqns[n - 1].target) {
            eqns[n - 1].target as int
        } else {
            0int
        }
    }
}

/// The sum of the targets of the equations that can be met under some
/// choice of the operators.
pub fn calibration(eqns: &Vec<Eqn>, binops: &Vec<BinOp>) -> (total: i128)
    ensures
        total == met_total(eqns@, binops@, eqns.len() as int),
{
    let mut total: i128 = 0;
    let mut i: usize = 0;
    while i < eqns.len()
        invariant
            i <= eqns.len(),
            total == met_total(eqns@, binops@, i as int),
            -i * 0x8000_0000_0000_0000 <= total <= i * 0x8000_0000_0000_0000,
        decreases eqns.len() - i,
    {
        if eqns[i].is_sat(binops) {
            total = total + eqns[i].target as i128;
        }
        i += 1;
    }
    total
}

} // verus!
