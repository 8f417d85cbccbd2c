//! Pages of a manual, and the rules that say which page goes before which.

use crate::lists;
use crate::text;
use std::cmp::Ordering;
use std::collections::HashMap;
use vstd::prelude::*;

verus! {

/// The rules: for each page, the pages that must come after it.
pub struct OrderingRules(pub HashMap<i32, Vec<i32>>);

/// A page, read under the rules that it points to.
pub struct Page<'a> {
    pub ctx: &'a OrderingRules,
    pub value: i32,
}

/// The pages that the rules put after `page`, if they speak of it.
pub open spec fn later_than(rules: Map<i32, Vec<i32>>, page: i32) -> Option<Seq<i32>> {
    if rules.contains_key(page) {
        Some(rules[page]@)
    } else {
        None
    }
}

/// How the rules order `a` and `b`. A page that the rules give no
/// followers comes after every page. Otherwise `a` comes first where `b` is
/// among its followers, or where `b` has no followers; it comes last where
/// it is among the followers of `b`; and else the rules leave the two
/// unordered.
pub open spec fn order_of(rules: Map<i32, Vec<i32>>, a: i32, b: i32) -> Option<Ordering> {
    match later_than(rules, a) {
        None => Some(Ordering::Greater),
        Some(after_a) => if after_a.contains(b) {
            Some(Ordering::Less)
        } else {
            match later_than(rules, b) {
                None => Some(Ordering::Less),
                Some(after_b) => if after_b.contains(a) {
                    Some(Ordering::Greater)
                } else {
                    None
                },
            }
        },
    }
}

/// Whether the rules put every page of an update before the next one.
pub open spec fn in_order(rules: Map<i32, Vec<i32>>, update: Seq<i32>) -> bool {
    forall|i: int|
        0 <= i < update.len() - 1 ==> order_of(rules, #[trigger] update[i], update[i + 1]) == Some(
            Ordering::Less,
        )
}

/// Whether `list` holds `x`.
pub fn holds(list: &Vec<i32>, x: i32) -> (found: bool)
    ensures
        found == list@.contains(x),
{
    let mut i: usize = 0;
    while i < list.len()
        invariant
            i <= list.len(),
            forall|k: int| 0 <= k < i ==> list[k] != x,
        decreases list.len() - i,
    {
        if list[i] == x {
            return true;
        }
        i += 1;
    }
    false
}

/// A page as text, such as `Page { 47 }`.
pub open spec fn page_text(value: i32) -> Seq<char> {
    "Page { "@ + text::signed_of(value as int) + " }"@
}

impl<'a> Page<'a> {
    /// The page as text: see `page_text`.
    pub fn to_string(&self) -> (s: String)
        ensures
            s@ == page_text(self.value),
    {
        let mut out: Vec<char> = Vec::new();
        text::append_str(&mut out, "Page { ");
        let digits = text::signed(self.value as i64);
        text::append(&mut out, &digits);
        text::append_str(&mut out, " }");
        assert(out@ =~= page_text(self.value));
        text::string_of(&out)
    }

    /// Whether two pages are the same page under the same rules.
    pub fn eq(&self, other: &Self) -> (same: bool)
        requires
            self.ctx == other.ctx,
        ensures
            same == (self.value == other.value),
    {
        self.value == other.value
    }

    /// How the rules order this page and `other`: see `order_of`.
    pub fn partial_cmp(&self, other: &Self) -> (res: Option<Ordering>)
        requires
            self.ctx == other.ctx,
        ensures
            res == order_of(self.ctx.0@, self.value, other.value),
    {
        broadcast use vstd::std_specs::hash::group_hash_axioms;

        if let Some(larger_than_self) = self.ctx.0.get(&self.value) {
            if holds(larger_than_self, other.value) {
                return Some(Ordering::Less);
            }
        } else {
            return Some(Ordering::Greater);
        }
        if let Some(larger_than_other) = other.ctx.0.get(&other.value) {
            if holds(larger_than_other, self.value) {
                return Some(Ordering::Greater);
            }
        } else {
            return Some(Ordering::Less);
        }
        None
    }
}

/// Whether the rules put every page of `update` before the next one.
pub fn is_sorted(rules: &OrderingRules, update: &Vec<i32>) -> (sorted: bool)
    ensures
        sorted == in_order(rules.0@, update@),
{
    if update.len() == 0 {
        return true;
    }
    let mut i: usize = 0;
    while i < update.len() - 1
        invariant
            update.len() > 0,
            i <= update.len() - 1,
            forall|k: int|
                0 <= k < i ==> order_of(rules.0@, #[trigger] update[k], update[k + 1]) == Some(
                    Ordering::Less,
                ),
        decreases update.len() - 1 - i,
    {
        let p = Page { ctx: rules, value: update[i] };
        let q = Page { ctx: rules, value: update[i + 1] };
        match p.partial_cmp(&q) {
            Some(Ordering::Less) => {},
            _ => {
                return false;
            },
        }
        i += 1;
    }
    true
}

/// How two pages compare when an update is sorted: a page is equal to
/// itself, and two pages that the rules leave unordered count as equal.
pub open spec fn settle_of(rules: Map<i32, Vec<i32>>, a: i32, b: i32) -> Ordering {
    if a == b {
        Ordering::Equal
    } else {
        match order_of(rules, a, b) {
            Some(o) => o,
            None => Ordering::Equal,
        }
    }
}

/// The order seen from the other side.
pub open spec fn flipped(o: Ordering) -> Ordering {
    match o {
        Ordering::Less => Ordering::Greater,
        Ordering::Equal => Ordering::Equal,
        Ordering::Greater => Ordering::Less,
    }
}

/// Whether two pages compare the same way from both sides.
pub open spec fn both_ways(rules: Map<i32, Vec<i32>>, a: i32, b: i32) -> bool {
    settle_of(rules, a, b) == flipped(settle_of(rules, b, a))
}

/// Whether, where `a` is no later than `b` and `b` no later than `c`,
/// `a` is no later than `c`.
pub open spec fn carries(rules: Map<i32, Vec<i32>>, a: i32, b: i32, c: i32) -> bool {
    settle_of(rules, a, b) != Ordering::Greater && settle_of(rules, b, c) != Ordering::Greater ==> settle_of(
        rules,
        a,
        c,
    ) != Ordering::Greater
}

/// Whether the rules order the pages of an update as a sort needs it:
/// every two pages compare the same way from both sides, and the order
/// carries over from page to page.
pub open spec fn total_on(rules: Map<i32, Vec<i32>>, pages: Seq<i32>) -> bool {
    &&& forall|i: int, j: int|
        0 <= i < pages.len() && 0 <= j < pages.len() ==> both_ways(rules, #[trigger] pages[i], #[trigger] pages[j])
    &&& forall|i: int, j: int, k: int|
        0 <= i < pages.len() && 0 <= j < pages.len() && 0 <= k < pages.len() ==> carries(
            rules,
            #[trigger] pages[i],
            #[trigger] pages[j],
            #[trigger] pages[k],
        )
}

/// How two pages compare when an update is sorted: see `settle_of`.
pub fn settle(rules: &OrderingRules, a: i32, b: i32) -> (o: Ordering)
    ensures
        o == settle_of(rules.0@, a, b),
{
    if a == b {
        return Ordering::Equal;
    }
    let p = Page { ctx: rules, value: a };
    let q = Page { ctx: rules, value: b };
    match p.partial_cmp(&q) {
        Some(o) => o,
        None => Ordering::Equal,
    }
}

/// Whether two pages compare the same way from both sides.
pub fn compares_both_ways(rules: &OrderingRules, a: i32, b: i32) -> (ok: bool)
    ensures
        ok == both_ways(rules.0@, a, b),
{
    let there = settle(rules, a, b);
    let back = settle(rules, b, a);
    match (there, back) {
        (Ordering::Less, Ordering::Greater) => true,
        (Ordering::Equal, Ordering::Equal) => true,
        (Ordering::Greater, Ordering::Less) => true,
        _ => false,
    }
}

/// Whether the page `a` is no later than the page `b`.
pub fn no_later(rules: &OrderingRules, a: i32, b: i32) -> (ok: bool)
    ensures
        ok == (settle_of(rules.0@, a, b) != Ordering::Greater),
{
    match settle(rules, a, b) {
        Ordering::Greater => false,
        _ => true,
    }
}

/// Whether the rules order the pages of an update as a sort needs it:
/// see `total_on`.
pub fn is_total(rules: &OrderingRules, update: &Vec<i32>) -> (ok: bool)
    ensures
        ok == total_on(rules.0@, update@),
{
    let n = update.len();
    let mut i: usize = 0;
    while i < n
        invariant
            n == update.len(),
            i <= n,
            forall|a: int, b: int| 0 <= a < i && 0 <= b < n ==> both_ways(rules.0@, #[trigger] update[a], #[trigger] update[b]),
        decreases n - i,
    {
        let first = update[i];
        let mut j: usize = 0;
        while j < n
            invariant
                n == update.len(),
                i < n,
                j <= n,
                forall|a: int| a == i ==> #[trigger] update[a] == first,
                forall|b: int| 0 <= b < j ==> both_ways(rules.0@, first, #[trigger] update[b]),
            decreases n - j,
        {
            if !compares_both_ways(rules, first, update[j]) {
                assert(!both_ways(rules.0@, update@[i + 0], update@[j + 0]));
                return false;
            }
            j += 1;
        }
        i += 1;
    }
    let mut i: usize = 0;
    while i < n
        invariant
            n == update.len(),
            i <= n,
            forall|a: int, b: int| 0 <= a < n && 0 <= b < n ==> both_ways(rules.0@, #[trigger] update[a], #[trigger] update[b]),
            forall|a: int, b: int, c: int|
                0 <= a < i && 0 <= b < n && 0 <= c < n ==> carries(
                    rules.0@,
                    #[trigger] update[a],
                    #[trigger] update[b],
                    #[trigger] update[c],
                ),
        decreases n - i,
    {
        let first = update[i];
        let mut j: usize = 0;
        while j < n
            invariant
                n == update.len(),
                i < n,
                j <= n,
                forall|a: int| a == i ==> #[trigger] update[a] == first,
                forall|b: int, c: int|
                    0 <= b < j && 0 <= c < n ==> carries(rules.0@, first, #[trigger] update[b], #[trigger] update[c]),
            decreases n - j,
        {
            let second = update[j];
            if no_later(rules, first, second) {
                let mut k: usize = 0;
                while k < n
                    invariant
                        n == update.len(),
                        i < n,
                        j < n,
                        k <= n,
                        forall|a: int| a == i ==> #[trigger] update[a] == first,
                        forall|b: int| b == j ==> #[trigger] update[b] == second,
                        settle_of(rules.0@, first, second) != Ordering::Greater,
                        forall|c: int| 0 <= c < k ==> carries(rules.0@, first, second, #[trigger] update[c]),
                    decreases n - k,
                {
                    if no_later(rules, second, update[k]) && !no_later(rules, first, update[k]) {
                        assert(!carries(rules.0@, update@[i + 0], update@[j + 0], update@[k + 0]));
                        return false;
                    }
                    k += 1;
                }
            }
            j += 1;
        }
        i += 1;
    }
    true
}

/// Sorts the pages of an update. Wraps std's `sort_by` on slices, called
/// with `settle` as the comparison. Where the comparison is a total order
/// on the elements, `sort_by` leaves the same elements in the slice, and
/// no element is greater than one that stands behind it.
#[verifier::external_body]
fn sort_by_rules(rules: &OrderingRules, update: &mut Vec<i32>)
    requires
        total_on(rules.0@, old(update)@),
    ensures
        final(update)@.to_multiset() == old(update)@.to_multiset(),
        forall|i: int, j: int|
            0 <= i < j < final(update)@.len() ==> settle_of(
                rules.0@,
                #[trigger] final(update)@[i],
                #[trigger] final(update)@[j],
            ) != Ordering::Greater,
{
    update.sort_by(|p, q| settle(rules, *p, *q));
}

/// Whether the rules order every two pages of an update, no page comes
/// twice, and a sort can go by the order.
pub open spec fn strictly_ordered(rules: Map<i32, Vec<i32>>, pages: Seq<i32>) -> bool {
    &&& total_on(rules, pages)
    &&& forall|i: int, j: int|
        0 <= i < pages.len() && 0 <= j < pages.len() && i != j ==> #[trigger] pages[i] != #[trigger] pages[j]
            && order_of(rules, pages[i], pages[j]) is Some
}

/// The pages of an update in the order that the rules ask for, if sorting
/// by the rules brings them into it. It does wherever the rules order the
/// pages strictly.
pub fn repair(rules: &OrderingRules, update: &Vec<i32>) -> (res: Option<Vec<i32>>)
    ensures
        res is Some ==> res.unwrap()@.to_multiset() == update@.to_multiset() && in_order(rules.0@, res.unwrap()@),
        strictly_ordered(rules.0@, update@) ==> res is Some,
{
    if !is_total(rules, update) {
        return None;
    }
    let mut pages: Vec<i32> = Vec::new();
    let mut i: usize = 0;
    while i < update.len()
        invariant
            i <= update.len(),
            pages@ == update@.take(i + 0),
        decreases update.len() - i,
    {
        pages.push(update[i]);
        assert(pages@ =~= update@.take(i + 1));
        i += 1;
    }
    assert(update@.take(update.len() + 0) =~= update@);
    sort_by_rules(rules, &mut pages);
    proof {
        if strictly_ordered(rules.0@, update@) {
            lemma_sorted_is_in_order(rules.0@, update@, pages@);
        }
    }
    if is_sorted(rules, &pages) {
        Some(pages)
    } else {
        None
    }
}

/// Pages that the rules order strictly are, once sorted by the rules, in
/// the order that the rules ask for.
pub proof fn lemma_sorted_is_in_order(rules: Map<i32, Vec<i32>>, pages: Seq<i32>, sorted: Seq<i32>)
    requires
        strictly_ordered(rules, pages),
        sorted.to_multiset() == pages.to_multiset(),
        forall|i: int, j: int|
            0 <= i < j < sorted.len() ==> settle_of(rules, #[trigger] sorted[i], #[trigger] sorted[j])
                != Ordering::Greater,
    ensures
        in_order(rules, sorted),
{
    broadcast use vstd::multiset::group_multiset_axioms;

    pages.to_multiset_ensures();
    sorted.to_multiset_ensures();
    assert(pages.no_duplicates());
    pages.lemma_multiset_has_no_duplicates();
    sorted.lemma_multiset_has_no_duplicates_conv();
    assert forall|i: int| 0 <= i < sorted.len() - 1 implies order_of(rules, #[trigger] sorted[i], sorted[i + 1])
        == Some(Ordering::Less) by {
        let a = sorted[i];
        let b = sorted[i + 1];
        assert(sorted.contains(a) && sorted.contains(b));
        assert(sorted.to_multiset().count(a) > 0 && sorted.to_multiset().count(b) > 0);
        assert(pages.to_multiset().count(a) > 0 && pages.to_multiset().count(b) > 0);
        assert(pages.contains(a) && pages.contains(b));
        let x = choose|x: int| 0 <= x < pages.len() && pages[x] == a;
        let y = choose|y: int| 0 <= y < pages.len() && pages[y] == b;
        assert(a != b);
        assert(x != y);
        assert(order_of(rules, pages[x], pages[y]) is Some);
        assert(settle_of(rules, sorted[i], sorted[i + 1]) != Ordering::Greater);
    }
}

/// The page that a word names: a decimal integer of 32 bits.
pub open spec fn page_of(word: Seq<char>) -> Option<i32> {
    match text::integer_of(word) {
        Some(v) => if i32::MIN <= v <= i32::MAX {
            Some(v as i32)
        } else {
            None
        },
        None => None,
    }
}

/// Reads a page: see `page_of`.
pub fn read_page(word: &Vec<char>) -> (res: Option<i32>)
    ensures
        res == page_of(word@),
{
    match text::parse_i64(word) {
        Some(v) => if -0x8000_0000 <= v && v <= 0x7fff_ffff {
            Some(v as i32)
        } else {
            None
        },
        None => None,
    }
}

/// The rule that a line such as `47|53` states: the page that goes
/// first, and the page that goes after it.
pub open spec fn rule_of(line: Seq<char>) -> Option<(i32, i32)> {
    let parts = text::split_on(line, '|');
    if parts.len() < 2 {
        None
    } else {
        match (page_of(parts[0]), page_of(parts[1])) {
            (Some(a), Some(b)) => Some((a, b)),
            _ => None,
        }
    }
}

/// Reads a rule: see `rule_of`.
pub fn read_rule(line: &Vec<char>) -> (res: Option<(i32, i32)>)
    ensures
        res == rule_of(line@),
{
    let parts = text::split(line, '|');
    if parts.len() < 2 {
        return None;
    }
    assert(text::views(parts@)[0] == parts[0]@);
    assert(text::views(parts@)[1] == parts[1]@);
    match (read_page(&parts[0]), read_page(&parts[1])) {
        (Some(a), Some(b)) => Some((a, b)),
        _ => None,
    }
}

/// The pages that go after `page` by the rules `m`, or none.
pub open spec fn after(m: Map<i32, Seq<i32>>, page: i32) -> Seq<i32> {
    if m.contains_key(page) {
        m[page]
    } else {
        Seq::empty()
    }
}

/// What the first `n` lines state together: for each page that goes
/// first in a rule, the pages that go after it, in the order of the lines.
/// `None` where a line states no rule.
pub open spec fn stated(lines: Seq<Seq<char>>, n: int) -> Option<Map<i32, Seq<i32>>>
    decreases n,
{
    if n <= 0 {
        Some(Map::empty())
    } else {
        match (stated(lines, n - 1), rule_of(lines[n - 1])) {
            (Some(m), Some((a, b))) => Some(m.insert(a, after(m, a).push(b))),
            _ => None,
        }
    }
}

/// The rules with each list of pages as a sequence.
pub open spec fn lists_of(rules: Map<i32, Vec<i32>>) -> Map<i32, Seq<i32>> {
    rules.map_values(|v: Vec<i32>| v@)
}

/// Lines of which the first few state no rules state none.
pub proof fn lemma_stated_stays_none(lines: Seq<Seq<char>>, m: int, n: int)
    requires
        m <= n,
        stated(lines, m) is None,
    ensures
        stated(lines, n) is None,
    decreases n - m,
{
    if m < n {
        lemma_stated_stays_none(lines, m, n - 1);
    }
}

/// Reads the rules that the lines state: see `stated`.
pub fn read_rules(lines: &Vec<Vec<char>>) -> (res: Option<OrderingRules>)
    ensures
        match stated(text::views(lines@), lines.len() as int) {
            Some(m) => res is Some && lists_of(res.unwrap().0@) == m,
            None => res is None,
        },
{
    broadcast use vstd::std_specs::hash::group_hash_axioms;

    let ghost rows = text::views(lines@);
    let mut map: HashMap<i32, Vec<i32>> = HashMap::new();
    let mut i: usize = 0;
    assert(lists_of(map@) =~= Map::<i32, Seq<i32>>::empty());
    while i < lines.len()
        invariant
            rows == text::views(lines@),
            i <= lines.len(),
            stated(rows, i as int) == Some(lists_of(map@)),
        decreases lines.len() - i,
    {
        assert(rows[i as int] == lines[i as int]@);
        let ghost before = lists_of(map@);
        match read_rule(&lines[i]) {
            Some((a, b)) => {
                let mut list = match map.remove(&a) {
                    Some(list) => list,
                    None => Vec::new(),
                };
                assert(list@ =~= after(before, a));
                list.push(b);
                map.insert(a, list);
                assert(lists_of(map@) =~= before.insert(a, after(before, a).push(b)));
            },
            None => {
                proof {
                    lemma_stated_stays_none(rows, i + 1, lines.len() as int);
                }
                return None;
            },
        }
        i += 1;
    }
    Some(OrderingRules(map))
}

/// The pages that the first `n` words name, if each names one.
pub open spec fn pages_of(words: Seq<Seq<char>>, n: int) -> Option<Seq<i32>>
    decreases n,
{
    if n <= 0 {
        Some(Seq::empty())
    } else {
        match (pages_of(words, n - 1), page_of(words[n - 1])) {
            (Some(before), Some(p)) => Some(before.push(p)),
            _ => None,
        }
    }
}

/// Words of which the first few name no pages name none.
pub proof fn lemma_pages_stay_none(words: Seq<Seq<char>>, m: int, n: int)
    requires
        m <= n,
        pages_of(words, m) is None,
    ensures
        pages_of(words, n) is None,
    decreases n - m,
{
    if m < n {
        lemma_pages_stay_none(words, m, n - 1);
    }
}

/// Reads an update, a line of pages parted by commas.
pub fn read_update(line: &Vec<char>) -> (res: Option<Vec<i32>>)
    ensures
        match pages_of(text::split_on(line@, ','), text::split_on(line@, ',').len() as int) {
            Some(pages) => res is Some && res.unwrap()@ == pages,
            None => res is None,
        },
{
    let words = text::split(line, ',');
    let ghost all = text::split_on(line@, ',');
    let mut pages: Vec<i32> = Vec::new();
    let mut i: usize = 0;
    while i < words.len()
        invariant
            all == text::views(words@),
            all == text::split_on(line@, ','),
            i <= words.len(),
            pages_of(all, i as int) == Some(pages@),
        decreases words.len() - i,
    {
        assert(all[i as int] == words[i as int]@);
        match read_page(&words[i]) {
            Some(p) => {
                pages.push(p);
            },
            None => {
                proof {
                    lemma_pages_stay_none(all, i + 1, words.len() as int);
                }
                return None;
            },
        }
        i += 1;
    }
    Some(pages)
}

/// The updates as sequences.
pub open spec fn updates_of(updates: Seq<Vec<i32>>) -> Seq<Seq<i32>> {
    updates.map_values(|u: Vec<i32>| u@)
}

/// Whether `fixed` holds the first `n` updates as the rules ask for
/// them: each with the pages of its update, in the order of the rules, and
/// as it was where it was in that order already. No update is empty.
pub open spec fn fixes(rules: Map<i32, Vec<i32>>, updates: Seq<Seq<i32>>, fixed: Seq<Seq<i32>>, n: int) -> bool {
    &&& fixed.len() == n
    &&& forall|k: int|
        0 <= k < n ==> {
            &&& (#[trigger] fixed[k]).len() > 0
            &&& fixed[k].to_multiset() == updates[k].to_multiset()
            &&& in_order(rules, fixed[k])
            &&& in_order(rules, updates[k]) ==> fixed[k] == updates[k]
        }
}

/// The middle pages of the first `n` of the fixed updates, summed: of
/// those that had to be repaired, or of those that had not.
pub open spec fn middles(
    rules: Map<i32, Vec<i32>>,
    updates: Seq<Seq<i32>>,
    fixed: Seq<Seq<i32>>,
    repaired: bool,
    n: int,
) -> int
    decreases n,
{
    if n <= 0 {
        0
    } else {
        middles(rules, updates, fixed, repaired, n - 1) + if in_order(rules, updates[n - 1]) != repaired {
            fixed[n - 1][fixed[n - 1].len() as int / 2] as int
        } else {
            0
        }
    }
}

/// The sums of the middle pages: first of the updates that are in the
/// order of the rules, then of the others, each repaired. Returns `None`
/// where an update is empty or cannot be repaired.
pub fn sum_middles(rules: &OrderingRules, updates: &Vec<Vec<i32>>) -> (res: Option<(i128, i128)>)
    ensures
        res is Some ==> exists|fixed: Seq<Seq<i32>>| #[trigger]
            fixes(rules.0@, updates_of(updates@), fixed, updates.len() as int) && res.unwrap().0 == middles(
                rules.0@,
                updates_of(updates@),
                fixed,
                false,
                updates.len() as int,
            ) && res.unwrap().1 == middles(rules.0@, updates_of(updates@), fixed, true, updates.len() as int),
        (forall|k: int|
            0 <= k < updates.len() ==> (#[trigger] updates[k]).len() > 0 && (in_order(rules.0@, updates[k]@)
                || strictly_ordered(rules.0@, updates[k]@))) ==> res is Some,
{
    let ghost all = updates_of(updates@);
    let ghost mut fixed: Seq<Seq<i32>> = Seq::empty();
    let mut sorted_sum: i128 = 0;
    let mut repaired_sum: i128 = 0;
    let mut k: usize = 0;
    while k < updates.len()
        invariant
            all == updates_of(updates@),
            k <= updates.len(),
            fixes(rules.0@, all, fixed, k as int),
            sorted_sum == middles(rules.0@, all, fixed, false, k as int),
            repaired_sum == middles(rules.0@, all, fixed, true, k as int),
            -0x8000_0000 * k <= sorted_sum <= 0x8000_0000 * k,
            -0x8000_0000 * k <= repaired_sum <= 0x8000_0000 * k,
        decreases updates.len() - k,
    {
        assert(all[k as int] == updates[k as int]@);
        let ghost before = fixed;
        if updates[k].len() == 0 {
            return None;
        }
        if is_sorted(rules, &updates[k]) {
            let page = lists::middle(&updates[k]);
            sorted_sum = sorted_sum + page as i128;
            proof {
                fixed = fixed.push(updates[k as int]@);
            }
        } else {
            let pages = match repair(rules, &updates[k]) {
                Some(pages) => pages,
                None => {
                    return None;
                },
            };
            proof {
                pages@.to_multiset_ensures();
                updates[k as int]@.to_multiset_ensures();
                fixed = fixed.push(pages@);
            }
            let page = lists::middle(&pages);
            repaired_sum = repaired_sum + page as i128;
        }
        proof {
            assert forall|j: int| 0 <= j < k + 1 implies {
                &&& (#[trigger] fixed[j]).len() > 0
                &&& fixed[j].to_multiset() == all[j].to_multiset()
                &&& in_order(rules.0@, fixed[j])
                &&& in_order(rules.0@, all[j]) ==> fixed[j] == all[j]
            } by {
                if j < k {
                    assert(fixed[j] == before[j]);
                }
            }
            lemma_middles_kept(rules.0@, all, before, fixed, false, k as int);
            lemma_middles_kept(rules.0@, all, before, fixed, true, k as int);
        }
        k += 1;
    }
    Some((sorted_sum, repaired_sum))
}

/// The sum over the first `n` updates looks at the first `n` of the
/// fixed updates only.
pub proof fn lemma_middles_kept(
    rules: Map<i32, Vec<i32>>,
    updates: Seq<Seq<i32>>,
    before: Seq<Seq<i32>>,
    fixed: Seq<Seq<i32>>,
    repaired: bool,
    n: int,
)
    requires
        n <= before.len(),
        n <= fixed.len(),
        forall|k: int| 0 <= k < n ==> before[k] == fixed[k],
    ensures
        middles(rules, updates, before, repaired, n) == middles(rules, updates, fixed, repaired, n),
    decreases n,
{
    if n > 0 {
        lemma_middles_kept(rules, updates, before, fixed, repaired, n - 1);
    }
}

} // verus!
