//! Choosing, grouping and joining items of a list.

use itertools::Itertools;
use vstd::prelude::*;

verus! {

/// Whether `c` names positions below `n` in rising order.
pub open spec fn rising(c: Seq<usize>, n: int) -> bool {
    &&& forall|i: int| 0 <= i < c.len() ==> (#[trigger] c[i]) < n
    &&& forall|i: int, j: int| 0 <= i < j < c.len() ==> c[i] < c[j]
}

/// Whether `a` comes before `b` among lists of one length read like words:
/// where they first differ, `a` is smaller.
pub open spec fn comes_before(a: Seq<usize>, b: Seq<usize>) -> bool {
    exists|i: int|
        0 <= i < a.len() && i < b.len() && a[i] < #[trigger] b[i] && forall|j: int|
            0 <= j < i ==> a[j] == b[j]
}

/// The lists of positions as sequences.
pub open spec fn choices_of(all: Seq<Vec<usize>>) -> Seq<Seq<usize>> {
    all.map_values(|c: Vec<usize>| c@)
}

/// Whether `all` lists every way of choosing `k` of the positions below
/// `n`: each entry names `k` positions in rising order, the entries come in
/// the order of words, and no choice is missing.
pub open spec fn all_choices(all: Seq<Seq<usize>>, n: int, k: int) -> bool {
    &&& forall|r: int| 0 <= r < all.len() ==> (#[trigger] all[r]).len() == k && rising(all[r], n)
    &&& forall|r: int, s: int| 0 <= r < s < all.len() ==> comes_before(#[trigger] all[r], #[trigger] all[s])
    &&& forall|c: Seq<usize>| c.len() == k && #[trigger] rising(c, n) ==> all.contains(c)
}

/// Every way of choosing `k` of the positions `0..n`. Wraps
/// `Itertools::combinations` on the range `0..n`, which yields each
/// combination of `k` positions once, as a list in rising order, and the
/// lists in lexicographic order.
#[verifier::external_body]
pub(crate) fn combinations(n: usize, k: usize) -> (all: Vec<Vec<usize>>)
    ensures
        all_choices(choices_of(all@), n as int, k as int),
{
    (0..n).combinations(k).collect()
}

/// The items of `items` in groups of `size`, the last group shorter where
/// the items run out.
pub open spec fn groups_of(items: Seq<u32>, size: int, groups: Seq<Seq<u32>>) -> bool {
    &&& groups.len() * size >= items.len() > (groups.len() - 1) * size
    &&& forall|g: int|
        0 <= g < groups.len() ==> #[trigger] groups[g] == items.subrange(
            g * size,
            if (g + 1) * size <= items.len() {
                (g + 1) * size
            } else {
                items.len() as int
            },
        )
}

/// The groups as sequences.
pub open spec fn groups_view(groups: Seq<Vec<u32>>) -> Seq<Seq<u32>> {
    groups.map_values(|g: Vec<u32>| g@)
}

/// Splits `items` into groups of `size`. Wraps `Itertools::chunks`, which
/// yields the items in order in chunks of `size`, the last chunk shorter if
/// there are not enough items, and panics if `size` is 0.
#[verifier::external_body]
pub(crate) fn chunks(items: &Vec<u32>, size: usize) -> (groups: Vec<Vec<u32>>)
    requires
        size > 0,
    ensures
        groups_of(items@, size as int, groups_view(groups@)),
{
    items.iter().copied().chunks(size).into_iter().map(|chunk| chunk.collect()).collect()
}

/// The parts written one after the other with `sep` between them.
pub open spec fn joined(parts: Seq<Seq<char>>, sep: Seq<char>) -> Seq<char>
    decreases parts.len(),
{
    if parts.len() == 0 {
        Seq::empty()
    } else if parts.len() == 1 {
        parts[0]
    } else {
        joined(parts.drop_last(), sep) + sep + parts.last()
    }
}

/// The strings as sequences of characters.
pub open spec fn strings_view(parts: Seq<String>) -> Seq<Seq<char>> {
    parts.map_values(|s: String| s@)
}

/// Joins the parts with `sep` between them. Wraps `Itertools::join`, which
/// writes the first item and then, for each further item, the separator and
/// the item.
#[verifier::external_body]
pub(crate) fn join(parts: &Vec<String>, sep: &str) -> (s: String)
    ensures
        s@ == joined(strings_view(parts@), sep@),
{
    parts.iter().join(sep)
}

} // verus!
