//! Stones that change with every blink, and how many there are after a
//! number of blinks.

use std::collections::HashMap;
use vstd::prelude::*;

verus! {

/// What an odd-length stone other than zero is multiplied by.
pub const MAGIC: u64 = 2024;

/// How many decimal digits `n` has.
pub open spec fn digits(n: nat) -> nat
    decreases n,
{
    if n < 10 {
        1
    } else {
        1 + digits(n / 10)
    }
}

/// Ten to the power of `e`.
pub open spec fn pow10(e: nat) -> nat
    decreases e,
{
    if e == 0 {
        1
    } else {
        10 * pow10((e - 1) as nat)
    }
}

/// Whether a stone splits at a blink: it does when its number of digits is even.
pub open spec fn splits(n: nat) -> bool {
    digits(n) % 2 == 0
}

/// The upper half of the digits of a stone that splits.
pub open spec fn upper(n: nat) -> nat {
    n / pow10(digits(n) / 2)
}

/// The lower half of the digits of a stone that splits, without leading zeros.
pub open spec fn lower(n: nat) -> nat {
    n % pow10(digits(n) / 2)
}

/// What a stone that does not split becomes at a blink: a zero becomes a
/// one, and any other stone is multiplied by 2024.
pub open spec fn grown(n: nat) -> nat {
    if n == 0 {
        1
    } else {
        n * 2024
    }
}

/// How many stones the stone `n` has become after `k` blinks: one before any
/// blink, and then as many as its one or two successors become in one blink
/// less.
pub open spec fn count(n: nat, k: nat) -> nat
    decreases k,
{
    if k == 0 {
        1
    } else if splits(n) {
        count(upper(n), (k - 1) as nat) + count(lower(n), (k - 1) as nat)
    } else {
        count(grown(n), (k - 1) as nat)
    }
}

/// A stone counts as one before any blink, and after `k` blinks as many as
/// its successors count together after `k - 1`.
pub proof fn lemma_count_law(n: nat, k: nat)
    ensures
        count(n, 0) == 1,
        k > 0 && splits(n) ==> count(n, k) == count(upper(n), (k - 1) as nat) + count(
            lower(n),
            (k - 1) as nat,
        ),
        k > 0 && !splits(n) ==> count(n, k) == count(grown(n), (k - 1) as nat),
{
}

/// Whether the count of `n` after `k` blinks can be computed in machine
/// integers: every stone on the way fits in 64 bits and every count in `usize`.
pub open spec fn fits(n: nat, k: nat) -> bool
    decreases k,
{
    &&& n <= u64::MAX
    &&& count(n, k) <= usize::MAX
    &&& k > 0 ==> if splits(n) {
        fits(upper(n), (k - 1) as nat) && fits(lower(n), (k - 1) as nat)
    } else {
        fits(grown(n), (k - 1) as nat)
    }
}

/// The key under which the count of `n` after `k` blinks is cached.
pub open spec fn key_of(n: u64, k: usize) -> u128 {
    (n as u128 * 0x1_0000_0000_0000_0000 + k as u128) as u128
}

/// Whether every entry of a cache holds the count that its key asks for.
pub open spec fn consistent(cache: Map<u128, usize>) -> bool {
    forall|n: u64, k: usize| #[trigger]
        cache.contains_key(key_of(n, k)) ==> cache[key_of(n, k)] == count(n as nat, k as nat)
}

/// Powers of ten rise with the exponent.
pub proof fn lemma_pow10_monotonic(a: nat, b: nat)
    requires
        a <= b,
    ensures
        1 <= pow10(a) <= pow10(b),
    decreases b,
{
    if b == 0 {
    } else if a == b {
        lemma_pow10_monotonic((a - 1) as nat, (b - 1) as nat);
    } else {
        lemma_pow10_monotonic(a, (b - 1) as nat);
    }
}

/// The key of a cache entry.
pub fn cache_key(n: u64, k: usize) -> (key: u128)
    ensures
        key == key_of(n, k),
{
    n as u128 * 0x1_0000_0000_0000_0000 + k as u128
}

/// The number of digits of `n`, and ten to the power of half that number.
pub fn split_point(n: u64) -> (res: (u64, u64))
    ensures
        res.0 == digits(n as nat),
        res.1 == pow10(digits(n as nat) / 2),
        res.1 >= 1,
{
    let mut m: u64 = n;
    let mut d: u64 = 1;
    let mut p: u64 = 1;
    while m >= 10
        invariant
            digits(n as nat) == d - 1 + digits(m as nat),
            p == pow10((d - 1) as nat),
            1 <= d <= p,
            m * p <= n,
            n >= 10 ==> m >= 1,
        decreases m,
    {
        assert((m / 10) * (p * 10) <= m * p) by (nonlinear_arith)
            requires
                m >= 0,
                p >= 0,
        ;
        assert(p * 10 <= m * p) by (nonlinear_arith)
            requires
                m >= 10,
                p >= 0,
        ;
        m = m / 10;
        d = d + 1;
        p = p * 10;
    }
    let half = d / 2;
    let mut h: u64 = 1;
    let mut i: u64 = 0;
    while i < half
        invariant
            i <= half,
            half == d / 2,
            h == pow10(i as nat),
            p == pow10((d - 1) as nat),
            d >= 1,
        decreases half - i,
    {
        proof {
            lemma_pow10_monotonic((i + 1) as nat, (d - 1) as nat);
        }
        h = h * 10;
        i = i + 1;
    }
    proof {
        lemma_pow10_monotonic(0, half as nat);
    }
    (d, h)
}

/// A stone with the number engraved on it.
#[derive(Debug)]
pub struct Stone(pub u64);

/// Whether the cache `now` holds every entry of the cache `before`, as it
/// was.
pub open spec fn keeps(before: Map<u128, usize>, now: Map<u128, usize>) -> bool {
    forall|key: u128|
        #![trigger before.contains_key(key)]
        #![trigger now.contains_key(key)]
        before.contains_key(key) ==> now.contains_key(key) && now[key] == before[key]
}

impl Stone {
    /// How many stones this stone has become after `k` blinks. Counts that
    /// were worked out are kept in `cache` and looked up there first:
    /// after a blink or more the cache holds the count under the key of
    /// the call, and it keeps what it held; without a blink it is left as
    /// it is. Returns `None` where a stone or a count leaves the machine's
    /// integers before the answer is known.
    pub fn blink_k(&self, k: usize, cache: &mut HashMap<u128, usize>) -> (res: Option<usize>)
        requires
            consistent(old(cache)@),
        ensures
            consistent(final(cache)@),
            res is Some ==> res.unwrap() == count(self.0 as nat, k as nat),
            fits(self.0 as nat, k as nat) ==> res is Some,
            keeps(old(cache)@, final(cache)@),
            k == 0 ==> final(cache)@ == old(cache)@,
            res is Some && k >= 1 ==> final(cache)@.contains_key(key_of(self.0, k)) && final(cache)@[key_of(
                self.0,
                k,
            )] == res.unwrap(),
        decreases k,
    {
        broadcast use vstd::std_specs::hash::group_hash_axioms;

        let key = cache_key(self.0, k);
        if let Some(n) = cache.get(&key) {
            return Some(*n);
        }
        if k == 0 {
            return Some(1);
        }
        let (d, half) = split_point(self.0);
        let res: usize;
        if d % 2 == 0 {
            let upper = Stone(self.0 / half);
            let lower = Stone(self.0 % half);
            let a = match upper.blink_k(k - 1, cache) {
                Some(a) => a,
                None => {
                    return None;
                },
            };
            let b = match lower.blink_k(k - 1, cache) {
                Some(b) => b,
                None => {
                    return None;
                },
            };
            res = match a.checked_add(b) {
                Some(sum) => sum,
                None => {
                    return None;
                },
            };
        } else if self.0 == 0 {
            res = match Stone(1).blink_k(k - 1, cache) {
                Some(a) => a,
                None => {
                    return None;
                },
            };
        } else {
            let next = match self.0.checked_mul(MAGIC) {
                Some(next) => next,
                None => {
                    proof {
                        if fits(self.0 as nat, k as nat) {
                            assert(fits(grown(self.0 as nat), (k - 1) as nat));
                        }
                    }
                    return None;
                },
            };
            res = match Stone(next).blink_k(k - 1, cache) {
                Some(a) => a,
                None => {
                    return None;
                },
            };
        }
        let ghost before = cache@;
        cache.insert(key, res);
        proof {
            assert forall|n: u64, j: usize| #[trigger]
                cache@.contains_key(key_of(n, j)) implies cache@[key_of(n, j)] == count(
                n as nat,
                j as nat,
            ) by {
                if key_of(n, j) == key {
                    assert(n == self.0 && j == k);
                } else {
                    assert(before.contains_key(key_of(n, j)));
                }
            }
        }
        Some(res)
    }
}

/// How many stones the first `n` of `stones` have become after `k` blinks.
pub open spec fn count_of_all(stones: Seq<Stone>, k: nat, n: int) -> nat
    decreases n,
{
    if n <= 0 {
        0
    } else {
        count_of_all(stones, k, n - 1) + count(stones[n - 1].0 as nat, k)
    }
}

/// Whether the count of each of the stones can be worked out in machine
/// integers.
pub open spec fn all_fit(stones: Seq<Stone>, k: nat) -> bool {
    forall|i: int| 0 <= i < stones.len() ==> fits((#[trigger] stones[i]).0 as nat, k)
}

/// How many stones all of `stones` have become after `k` blinks. Returns
/// `None` where a stone or a count leaves the machine's integers.
pub fn count_all(stones: &Vec<Stone>, k: usize, cache: &mut HashMap<u128, usize>) -> (res: Option<usize>)
    requires
        consistent(old(cache)@),
    ensures
        consistent(final(cache)@),
        keeps(old(cache)@, final(cache)@),
        res is Some ==> res.unwrap() == count_of_all(stones@, k as nat, stones.len() as int),
        all_fit(stones@, k as nat) && count_of_all(stones@, k as nat, stones.len() as int) <= usize::MAX ==> res
            is Some,
{
    let mut total: usize = 0;
    let mut i: usize = 0;
    while i < stones.len()
        invariant
            i <= stones.len(),
            consistent(cache@),
            keeps(old(cache)@, cache@),
            total == count_of_all(stones@, k as nat, i as int),
        decreases stones.len() - i,
    {
        proof {
            lemma_count_of_all_grows(stones@, k as nat, i + 1, stones.len() as int);
        }
        let c = match stones[i].blink_k(k, cache) {
            Some(c) => c,
            None => {
                return None;
            },
        };
        total = match total.checked_add(c) {
            Some(t) => t,
            None => {
                return None;
            },
        };
        i += 1;
    }
    Some(total)
}

/// More stones become no fewer stones.
pub proof fn lemma_count_of_all_grows(stones: Seq<Stone>, k: nat, m: int, n: int)
    requires
        m <= n,
    ensures
        count_of_all(stones, k, m) <= count_of_all(stones, k, n),
    decreases n - m,
{
    if m < n {
        lemma_count_of_all_grows(stones, k, m, n - 1);
    }
}

} // verus!
