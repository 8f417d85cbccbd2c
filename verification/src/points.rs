//! Lists of points in which every point stands once.

use vstd::prelude::*;

verus! {

/// Whether `list` holds the point `p`.
pub fn holds(list: &Vec<(usize, usize)>, p: (usize, usize)) -> (found: bool)
    ensures
        found == list@.contains(p),
{
    let mut i: usize = 0;
    while i < list.len()
        invariant
            i <= list.len(),
            forall|k: int| 0 <= k < i ==> list[k] != p,
        decreases list.len() - i,
    {
        if list[i].0 == p.0 && list[i].1 == p.1 {
            return true;
        }
        i += 1;
    }
    false
}

/// Adds to `res` the points of `items` that it does not hold yet.
pub fn add_unique(res: &mut Vec<(usize, usize)>, items: &Vec<(usize, usize)>)
    requires
        old(res)@.no_duplicates(),
    ensures
        final(res)@.no_duplicates(),
        forall|p: (usize, usize)|
            #![trigger final(res)@.contains(p)]
            #![trigger old(res)@.contains(p)]
            #![trigger items@.contains(p)]
            final(res)@.contains(p) <==> old(res)@.contains(p) || items@.contains(p),
{
    let ghost before = res@;
    let mut k: usize = 0;
    while k < items.len()
        invariant
            k <= items.len(),
            res@.no_duplicates(),
            forall|p: (usize, usize)|
                #![trigger res@.contains(p)]
                #![trigger before.contains(p)]
                #![trigger items@.take(k as int).contains(p)]
                res@.contains(p) <==> before.contains(p) || items@.take(k as int).contains(p),
        decreases items.len() - k,
    {
        let ghost held = res@;
        let item = items[k];
        let ghost seen = items@.take(k as int);
        let ghost more = items@.take(k + 1);
        assert(more =~= seen.push(item));
        if !holds(res, item) {
            res.push(item);
        }
        proof {
            assert(more[k as int] == item);
            assert(more.contains(item));
            if !held.contains(item) {
                assert(res@[held.len() as int] == item);
            }
            assert(res@.contains(item));
            assert forall|p: (usize, usize)| res@.contains(p) implies before.contains(p) || more.contains(
                p,
            ) by {
                let m = choose|m: int| 0 <= m < res@.len() && res@[m] == p;
                if m < held.len() {
                    assert(held[m] == p);
                    assert(held.contains(p));
                    if seen.contains(p) {
                        let n = choose|n: int| 0 <= n < seen.len() && seen[n] == p;
                        assert(more[n] == p);
                    }
                } else {
                    assert(p == item);
                }
            }
            assert forall|p: (usize, usize)| before.contains(p) || more.contains(p) implies res@.contains(
                p,
            ) by {
                if more.contains(p) && !before.contains(p) {
                    let m = choose|m: int| 0 <= m < more.len() && more[m] == p;
                    if m < k {
                        assert(seen[m] == p);
                        assert(seen.contains(p));
                        assert(held.contains(p));
                    } else {
                        assert(p == item);
                    }
                }
                if held.contains(p) {
                    let m = choose|m: int| 0 <= m < held.len() && held[m] == p;
                    assert(res@[m] == p);
                }
            }
        }
        k += 1;
    }
    assert(items@.take(k as int) =~= items@);
    assert(before == old(res)@);
    assert forall|p: (usize, usize)| res@.contains(p) <==> before.contains(p) || items@.contains(p) by {
        assert(items@.take(k as int).contains(p) == items@.contains(p));
    }
}

} // verus!
