//! Designs laid out from towels with striped patterns, and in how many ways.

use crate::text;
use vstd::prelude::*;

verus! {

/// The patterns of the towels at hand.
#[derive(Debug)]
pub struct Patterns(pub Vec<Vec<char>>);

/// Lays out designs from patterns. The cache holds, for the design in
/// work, the number of ways to lay out what follows each position.
pub struct Parser {
    pub patterns: Patterns,
    pub cache: Vec<Option<usize>>,
}

/// In how many ways what follows position `i` of `design` can be laid out
/// from the first `n` patterns at its start and from all of them behind:
/// nothing is left in one way, and otherwise each pattern that stands at
/// `i` adds the ways for what follows it.
pub open spec fn ways(patterns: Seq<Seq<char>>, design: Seq<char>, i: int, n: int) -> nat
    decreases design.len() - i, n,
{
    if i >= design.len() {
        1
    } else if n <= 0 {
        0
    } else {
        let p = patterns[n - 1];
        ways(patterns, design, i, n - 1) + if p.len() > 0 && text::stands_at(design, i, p) {
            ways(patterns, design, i + p.len(), patterns.len() as int)
        } else {
            0
        }
    }
}

/// In how many ways `design` can be laid out from the patterns.
pub open spec fn layouts(patterns: Seq<Seq<char>>, design: Seq<char>) -> nat {
    ways(patterns, design, 0, patterns.len() as int)
}

impl Parser {
    /// The patterns as sequences.
    pub open spec fn towels(&self) -> Seq<Seq<char>> {
        text::views(self.patterns.0@)
    }

    /// Whether every cached count is the count for `design`.
    pub open spec fn cache_for(&self, design: Seq<char>) -> bool {
        &&& self.cache.len() == design.len()
        &&& forall|i: int|
            0 <= i < self.cache.len() && (#[trigger] self.cache[i]) is Some ==> self.cache[i].unwrap()
                == ways(self.towels(), design, i, self.towels().len() as int)
    }

    /// Prepares the cache for a design of `len` characters: no count is
    /// known yet but the one way in which nothing is left behind the end.
    pub fn warm_up(&mut self, len: usize)
        ensures
            final(self).patterns == old(self).patterns,
            final(self).cache.len() == len,
            forall|i: int| 0 <= i < len ==> (#[trigger] final(self).cache[i]) is None,
    {
        let mut cache: Vec<Option<usize>> = Vec::new();
        let mut i: usize = 0;
        while i < len
            invariant
                i <= len,
                cache.len() == i,
                forall|k: int| 0 <= k < i ==> (#[trigger] cache[k]) is None,
            decreases len - i,
        {
            cache.push(None);
            i += 1;
        }
        self.cache = cache;
    }

    /// In how many ways what follows position `at` of `design` can be
    /// laid out, or `None` where the count is no machine integer. A count
    /// that was worked out is kept in the cache at `at`, and the cache
    /// keeps the counts that it held.
    pub fn count_from(&mut self, design: &Vec<char>, at: usize) -> (res: Option<usize>)
        requires
            old(self).cache_for(design@),
            at <= design.len(),
        ensures
            final(self).cache_for(design@),
            final(self).patterns == old(self).patterns,
            res is Some ==> res.unwrap() == ways(
                old(self).towels(),
                design@,
                at as int,
                old(self).towels().len() as int,
            ),
            ways(old(self).towels(), design@, at as int, old(self).towels().len() as int) <= usize::MAX
                ==> res is Some,
            res is Some && at < design.len() ==> final(self).cache[at as int] == res,
            forall|i: int|
                0 <= i < design.len() && (#[trigger] old(self).cache[i]) is Some ==> final(self).cache[i] == old(
                    self,
                ).cache[i],
        decreases design.len() - at,
    {
        if at == design.len() {
            return Some(1);
        }
        if let Some(k) = self.cache[at] {
            return Some(k);
        }
        let ghost towels = self.towels();
        let mut total: usize = 0;
        let mut n: usize = 0;
        while n < self.patterns.0.len()
            invariant
                n <= self.patterns.0.len(),
                at < design.len(),
                self.cache_for(design@),
                self.patterns == old(self).patterns,
                towels == self.towels(),
                total == ways(towels, design@, at as int, n as int),
                old(self).cache[at as int] is None,
                forall|i: int|
                    0 <= i < design.len() && (#[trigger] old(self).cache[i]) is Some ==> self.cache[i] == old(
                        self,
                    ).cache[i],
            decreases self.patterns.0.len() - n,
        {
            assert(towels[n as int] == self.patterns.0[n as int]@);
            let len = self.patterns.0[n].len();
            proof {
                lemma_ways_grow(towels, design@, at as int, n + 1, towels.len() as int);
            }
            if len > 0 && text::starts_with_at(design, at, &self.patterns.0[n]) {
                let k = match self.count_from(design, at + len) {
                    Some(k) => k,
                    None => {
                        return None;
                    },
                };
                total = match total.checked_add(k) {
                    Some(t) => t,
                    None => {
                        return None;
                    },
                };
            }
            n += 1;
        }
        self.cache[at] = Some(total);
        Some(total)
    }

    /// Counts the ways to lay out `input` from the patterns. Fails with
    /// `"meh"` where there is no way, and with another message where there
    /// are more ways than a machine integer counts.
    pub fn try_parse(&mut self, input: &str) -> (res: Result<usize, &'static str>)
        ensures
            final(self).patterns == old(self).patterns,
            res is Ok <==> 0 < layouts(old(self).towels(), input@) <= usize::MAX,
            res is Ok ==> res->Ok_0 == layouts(old(self).towels(), input@),
            layouts(old(self).towels(), input@) == 0 ==> res == Err::<usize, &'static str>("meh"),
            layouts(old(self).towels(), input@) > usize::MAX ==> res == Err::<usize, &'static str>(
                "the ways cannot be counted",
            ),
            final(self).cache.len() == input@.len(),
            res is Ok && input@.len() > 0 ==> final(self).cache[0] == Some(res->Ok_0),
    {
        let design = text::chars(input);
        self.warm_up(design.len());
        match self.count_from(&design, 0) {
            Some(k) => if k > 0 {
                Ok(k)
            } else {
                Err("meh")
            },
            None => Err("the ways cannot be counted"),
        }
    }
}

/// The ways grow with the patterns that are tried.
pub proof fn lemma_ways_grow(patterns: Seq<Seq<char>>, design: Seq<char>, i: int, m: int, n: int)
    requires
        0 <= m <= n,
    ensures
        ways(patterns, design, i, m) <= ways(patterns, design, i, n),
    decreases n - m,
{
    if m < n {
        lemma_ways_grow(patterns, design, i, m + 1, n);
    }
}

impl Parser {
    /// How many of the designs can be laid out, and in how many ways all
    /// of them together. A design that allows more ways than a machine
    /// integer counts is passed over.
    pub fn count_layouts(&mut self, designs: &Vec<String>) -> (res: (usize, u128))
        ensures
            final(self).patterns == old(self).patterns,
            res.0 == possible(old(self).towels(), designs@, designs.len() as int),
            res.1 == all_ways(old(self).towels(), designs@, designs.len() as int),
    {
        let ghost towels = self.towels();
        let mut found: usize = 0;
        let mut ways: u128 = 0;
        let mut i: usize = 0;
        while i < designs.len()
            invariant
                i <= designs.len(),
                self.patterns == old(self).patterns,
                towels == old(self).towels(),
                found == possible(towels, designs@, i as int),
                ways == all_ways(towels, designs@, i as int),
                found <= i,
                ways <= i * 0x1_0000_0000_0000_0000,
            decreases designs.len() - i,
        {
            match self.try_parse(designs[i].as_str()) {
                Ok(k) => {
                    found += 1;
                    ways = ways + k as u128;
                },
                Err(_) => {},
            }
            i += 1;
        }
        (found, ways)
    }
}

/// How many of the first `n` designs can be laid out in a number of ways
/// that a machine integer counts.
pub open spec fn possible(patterns: Seq<Seq<char>>, designs: Seq<String>, n: int) -> int
    decreases n,
{
    if n <= 0 {
        0
    } else {
        possible(patterns, designs, n - 1) + if 0 < layouts(patterns, designs[n - 1]@) <= usize::MAX {
            1int
        } else {
            0int
        }
    }
}

/// In how many ways the first `n` designs can be laid out, summed.
pub open spec fn all_ways(patterns: Seq<Seq<char>>, designs: Seq<String>, n: int) -> int
    decreases n,
{
    if n <= 0 {
        0
    } else {
        all_ways(patterns, designs, n - 1) + if 0 < layouts(patterns, designs[n - 1]@) <= usize::MAX {
            layouts(patterns, designs[n - 1]@) as int
        } else {
            0int
        }
    }
}

} // verus!
