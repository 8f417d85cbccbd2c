//! Two lists of location numbers: how far they lie apart, and how alike
//! they are.

use vstd::prelude::*;
use vstd::relations::{sorted_by, total_ordering};
use vstd::seq_lib::lemma_sorted_unique;

verus! {

/// The order of the numbers.
pub open spec fn leq() -> spec_fn(i32, i32) -> bool {
    |a: i32, b: i32| a <= b
}

/// The numbers in rising order.
pub open spec fn sorted(s: Seq<i32>) -> Seq<i32> {
    s.sort_by(leq())
}

/// The distance between two numbers.
pub open spec fn apart(a: i32, b: i32) -> int {
    if a < b {
        b - a
    } else {
        a - b
    }
}

/// The distances between the first `n` pairs of two lists, summed.
pub open spec fn pair_sum(l: Seq<i32>, r: Seq<i32>, n: int) -> int
    decreases n,
{
    if n <= 0 {
        0
    } else {
        pair_sum(l, r, n - 1) + apart(l[n - 1], r[n - 1])
    }
}

/// How often `v` stands among the first `n` of `s`.
pub open spec fn count_of(s: Seq<i32>, v: i32, n: int) -> int
    decreases n,
{
    if n <= 0 {
        0
    } else {
        count_of(s, v, n - 1) + if s[n - 1] == v {
            1int
        } else {
            0int
        }
    }
}

/// The first `n` numbers of `left`, each times how often it stands in
/// `right`, summed.
pub open spec fn score(left: Seq<i32>, right: Seq<i32>, n: int) -> int
    decreases n,
{
    if n <= 0 {
        0
    } else {
        score(left, right, n - 1) + left[n - 1] * count_of(right, left[n - 1], right.len() as int)
    }
}

/// Sorts the numbers. Wraps the slice method `sort` of the standard
/// library, which puts the elements in rising order and keeps every one of
/// them.
#[verifier::external_body]
pub(crate) fn sort(v: &mut Vec<i32>)
    ensures
        sorted_by(final(v)@, leq()),
        final(v)@.to_multiset() == old(v)@.to_multiset(),
{
    v.sort();
}

/// A copy of the numbers in rising order.
pub fn sorted_copy(v: &Vec<i32>) -> (res: Vec<i32>)
    ensures
        res@ == sorted(v@),
{
    let mut res: Vec<i32> = Vec::new();
    let mut i: usize = 0;
    while i < v.len()
        invariant
            i <= v.len(),
            res@ == v@.take(i as int),
        decreases v.len() - i,
    {
        res.push(v[i]);
        assert(res@ =~= v@.take(i + 1));
        i += 1;
    }
    assert(v@.take(v.len() as int) =~= v@);
    sort(&mut res);
    proof {
        assert(total_ordering(leq()));
        v@.lemma_sort_by_ensures(leq());
        lemma_sorted_unique(res@, sorted(v@), leq());
    }
    res
}

/// The distance between the lists: the distances between their smallest
/// numbers, their second smallest, and so on, summed.
pub fn total_distance(left: &Vec<i32>, right: &Vec<i32>) -> (res: u128)
    requires
        left.len() == right.len(),
    ensures
        res == pair_sum(sorted(left@), sorted(right@), left.len() as int),
{
    let l = sorted_copy(left);
    let r = sorted_copy(right);
    proof {
        left@.lemma_sort_by_ensures(leq());
        right@.lemma_sort_by_ensures(leq());
        left@.to_multiset_ensures();
        right@.to_multiset_ensures();
        l@.to_multiset_ensures();
        r@.to_multiset_ensures();
    }
    let mut res: u128 = 0;
    let mut i: usize = 0;
    while i < l.len()
        invariant
            i <= l.len(),
            l.len() == r.len(),
            res == pair_sum(l@, r@, i as int),
            res <= i * 0x1_0000_0000,
        decreases l.len() - i,
    {
        let a = l[i] as i64;
        let b = r[i] as i64;
        let d = if a < b {
            b - a
        } else {
            a - b
        };
        res = res + d as u128;
        i += 1;
    }
    res
}

/// How often `v` stands in `list`.
pub fn count(list: &Vec<i32>, v: i32) -> (n: usize)
    ensures
        n == count_of(list@, v, list.len() as int),
        n <= list.len(),
{
    let mut n: usize = 0;
    let mut i: usize = 0;
    while i < list.len()
        invariant
            i <= list.len(),
            n == count_of(list@, v, i as int),
            n <= i,
        decreases list.len() - i,
    {
        if list[i] == v {
            n += 1;
        }
        i += 1;
    }
    n
}

/// Whether every pair of a number of the first list and a number of the
/// second can be counted in a machine integer.
pub open spec fn countable(left: Seq<i32>, right: Seq<i32>) -> bool {
    left.len() * right.len() <= usize::MAX
}

/// How alike two lists are: each number of the first list times how
/// often it stands in the second, summed. Returns `None` where the lists
/// are so long that their pairs cannot be counted.
pub fn similarity(left: &Vec<i32>, right: &Vec<i32>) -> (res: Option<i128>)
    ensures
        res is Some <==> countable(left@, right@),
        res is Some ==> res.unwrap() == score(left@, right@, left.len() as int),
{
    if left.len().checked_mul(right.len()).is_none() {
        return None;
    }
    let ghost cap = right.len() * 0x8000_0000;
    let mut res: i128 = 0;
    let mut i: usize = 0;
    assert(left.len() * cap <= 0xffff_ffff_ffff_ffff * 0x8000_0000) by (nonlinear_arith)
        requires
            left.len() * right.len() <= 0xffff_ffff_ffff_ffff,
            cap == right.len() * 0x8000_0000,
    ;
    assert(0 * cap == 0) by (nonlinear_arith);
    while i < left.len()
        invariant
            i <= left.len(),
            cap == right.len() * 0x8000_0000,
            left.len() * cap <= 0xffff_ffff_ffff_ffff * 0x8000_0000,
            res == score(left@, right@, i as int),
            -(i * cap) <= res <= i * cap,
        decreases left.len() - i,
    {
        let v = left[i];
        let n = count(right, v);
        assert(-cap <= v * n <= cap) by (nonlinear_arith)
            requires
                -0x8000_0000 <= v <= 0x7fff_ffff,
                0 <= n <= right.len(),
                cap == right.len() * 0x8000_0000,
        ;
        assert((i + 1) * cap == i * cap + cap && (i + 1) * cap <= left.len() * cap) by (nonlinear_arith)
            requires
                0 <= i < left.len(),
                cap >= 0,
        ;
        res = res + (v as i128) * (n as i128);
        i += 1;
    }
    Some(res)
}

/// The number in the middle of a list.
pub fn middle(update: &Vec<i32>) -> (page: i32)
    requires
        update.len() > 0,
    ensures
        page == update[update.len() as int / 2],
{
    update[update.len() / 2]
}

} // verus!
