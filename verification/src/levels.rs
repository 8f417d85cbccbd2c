//! Reports of levels that are safe when they rise or fall gently.

use crate::combine::{all_choices, choices_of, combinations, rising};
use vstd::prelude::*;

verus! {

/// Whether two neighbouring levels differ by at least one and at most three.
pub open spec fn gentle(a: i32, b: i32) -> bool {
    1 <= a - b <= 3 || 1 <= b - a <= 3
}

/// Whether the levels are safe: every two neighbours differ by one to
/// three, and the levels all rise or all fall.
pub open spec fn safe(levels: Seq<i32>) -> bool {
    &&& forall|i: int| 0 <= i < levels.len() - 1 ==> gentle(#[trigger] levels[i], levels[i + 1])
    &&& (forall|i: int| 0 <= i < levels.len() - 1 ==> (#[trigger] levels[i]) < levels[i + 1]) || (forall|
        i: int,
    |
        0 <= i < levels.len() - 1 ==> (#[trigger] levels[i]) > levels[i + 1])
}

/// The levels at the positions that `c` names, in the order of `c`.
pub open spec fn picked(levels: Seq<i32>, c: Seq<usize>) -> Seq<i32> {
    Seq::new(c.len(), |i: int| levels[c[i] as int])
}

/// Whether the levels are safe once one of them is left out: some choice
/// of all but one of the positions picks safe levels.
pub open spec fn safe_with_damper(levels: Seq<i32>) -> bool {
    exists|c: Seq<usize>|
        c.len() == levels.len() - 1 && #[trigger] rising(c, levels.len() as int) && safe(
            picked(levels, c),
        )
}

/// Whether the levels are safe.
pub fn is_path_safe(levels: &[i32]) -> (is_safe: bool)
    ensures
        is_safe == safe(levels@),
{
    let n = levels.len();
    let mut gently = true;
    let mut up = true;
    let mut down = true;
    let mut i: usize = 0;
    if n == 0 {
        return true;
    }
    while i < n - 1
        invariant
            n == levels.len(),
            n >= 1,
            i <= n - 1,
            gently == forall|k: int| 0 <= k < i ==> gentle(#[trigger] levels[k], levels[k + 1]),
            up == forall|k: int| 0 <= k < i ==> (#[trigger] levels[k]) < levels[k + 1],
            down == forall|k: int| 0 <= k < i ==> (#[trigger] levels[k]) > levels[k + 1],
        decreases n - 1 - i,
    {
        let a = levels[i] as i64;
        let b = levels[i + 1] as i64;
        let diff = if a < b {
            b - a
        } else {
            a - b
        };
        if !(1 <= diff && diff <= 3) {
            gently = false;
            assert(!gentle(levels[i as int], levels[i + 1]));
        }
        if !(a < b) {
            up = false;
            assert(!(levels[i as int] < levels[i + 1]));
        }
        if !(a > b) {
            down = false;
            assert(!(levels[i as int] > levels[i + 1]));
        }
        i += 1;
    }
    gently && (up || down)
}

/// The levels at the positions that `c` names.
pub fn pick(levels: &Vec<i32>, c: &Vec<usize>) -> (out: Vec<i32>)
    requires
        forall|i: int| 0 <= i < c.len() ==> (#[trigger] c[i]) < levels.len(),
    ensures
        out@ == picked(levels@, c@),
{
    let mut out: Vec<i32> = Vec::new();
    let mut i: usize = 0;
    while i < c.len()
        invariant
            i <= c.len(),
            out.len() == i,
            forall|k: int| 0 <= k < c.len() ==> (#[trigger] c[k]) < levels.len(),
            forall|k: int| 0 <= k < i ==> #[trigger] out[k] == levels[c[k] as int],
        decreases c.len() - i,
    {
        out.push(levels[c[i]]);
        i += 1;
    }
    assert(out@ =~= picked(levels@, c@));
    out
}

/// Whether the levels are safe once one of them is left out.
pub fn is_path_safe_with_damper(levels: &Vec<i32>) -> (is_safe: bool)
    requires
        levels.len() >= 1,
    ensures
        is_safe == safe_with_damper(levels@),
{
    let choices = combinations(levels.len(), levels.len() - 1);
    let ghost all = choices_of(choices@);
    let n = levels.len();
    let mut r: usize = 0;
    while r < choices.len()
        invariant
            n == levels.len(),
            n >= 1,
            r <= choices.len(),
            all == choices_of(choices@),
            all_choices(all, n as int, n - 1),
            forall|s: int| 0 <= s < r ==> !safe(picked(levels@, #[trigger] all[s])),
        decreases choices.len() - r,
    {
        assert(all[r as int] == choices[r as int]@);
        assert(rising(all[r as int], n as int));
        let sub = pick(levels, &choices[r]);
        if is_path_safe(sub.as_slice()) {
            return true;
        }
        r += 1;
    }
    proof {
        assert forall|c: Seq<usize>| c.len() == n - 1 && #[trigger] rising(c, n as int) implies !safe(
            picked(levels@, c),
        ) by {
            assert(all.contains(c));
            let s = choose|s: int| 0 <= s < all.len() && all[s] == c;
            assert(!safe(picked(levels@, all[s])));
        }
    }
    false
}

/// The reports as sequences.
pub open spec fn reports_of(reports: Seq<Vec<i32>>) -> Seq<Seq<i32>> {
    reports.map_values(|r: Vec<i32>| r@)
}

/// How many of the first `n` reports are safe; with `damper`, safe once
/// one level is left out. A report without a level has none to leave out.
pub open spec fn safe_among(reports: Seq<Seq<i32>>, damper: bool, n: int) -> int
    decreases n,
{
    if n <= 0 {
        0
    } else {
        let r = reports[n - 1];
        safe_among(reports, damper, n - 1) + if (if damper {
            r.len() > 0 && safe_with_damper(r)
        } else {
            safe(r)
        }) {
            1int
        } else {
            0int
        }
    }
}

/// How many reports are safe; with `damper`, safe once one level is left out.
pub fn count_safe(reports: &Vec<Vec<i32>>, damper: bool) -> (found: usize)
    ensures
        found == safe_among(reports_of(reports@), damper, reports.len() as int),
{
    let ghost all = reports_of(reports@);
    let mut found: usize = 0;
    let mut i: usize = 0;
    while i < reports.len()
        invariant
            all == reports_of(reports@),
            i <= reports.len(),
            found == safe_among(all, damper, i as int),
            found <= i,
        decreases reports.len() - i,
    {
        assert(all[i as int] == reports[i as int]@);
        let report = &reports[i];
        let ok = if damper {
            report.len() > 0 && is_path_safe_with_damper(report)
        } else {
            is_path_safe(report.as_slice())
        };
        if ok {
            found += 1;
        }
        i += 1;
    }
    found
}

} // verus!
