//! A scan of corrupted memory for instructions such as `mul(2,4)`, with and
//! without the switches `do()` and `don't()`.

use crate::text;
use vstd::prelude::*;

verus! {

/// The word that starts a multiplication.
pub open spec fn mul_word() -> Seq<char> {
    seq!['m', 'u', 'l', '(']
}

/// The word that switches multiplications on.
pub open spec fn do_word() -> Seq<char> {
    seq!['d', 'o', '(', ')']
}

/// The word that switches multiplications off.
pub open spec fn dont_word() -> Seq<char> {
    seq!['d', 'o', 'n', '\'', 't', '(', ')']
}

/// The number that stands in `s` from `from` up to the next `end`, with
/// the position of that `end`; `None` where no `end` follows or what
/// stands before it writes no number that fits.
pub open spec fn operand(s: Seq<char>, from: int, end: char) -> Option<(int, int)> {
    let j = text::first_index_of(s.skip(from), end);
    if j >= s.len() - from {
        None
    } else {
        match text::natural_of(s.subrange(from, from + j)) {
            Some(v) => if v <= usize::MAX {
                Some((v, from + j))
            } else {
                None
            },
            None => None,
        }
    }
}

/// The sum of the products of all multiplications found from position `i`
/// on. After `mul(` the first number runs up to the next comma and the
/// second up to the next closing bracket; where one of them cannot be read
/// the scan goes on behind what it has read so far. With `switches`, a
/// `do()` enables and a `don't()` disables the multiplications that follow.
pub open spec fn scan(s: Seq<char>, i: int, enabled: bool, switches: bool) -> int
    decreases s.len() - i,
{
    if i < 0 || i >= s.len() {
        0
    } else if switches && text::stands_at(s, i, do_word()) {
        scan(s, i + 4, true, switches)
    } else if switches && text::stands_at(s, i, dont_word()) {
        scan(s, i + 7, false, switches)
    } else if !text::stands_at(s, i, mul_word()) {
        scan(s, i + 1, enabled, switches)
    } else {
        match operand(s, i + 4, ',') {
            None => scan(s, i + 4, enabled, switches),
            Some((a, comma)) => match operand(s, comma + 1, ')') {
                None => scan(s, comma + 1, enabled, switches),
                Some((b, close)) => (if enabled {
                    a * b
                } else {
                    0
                }) + scan(s, close + 1, enabled, switches),
            },
        }
    }
}

/// A scan never sums to less than nothing.
pub proof fn lemma_scan_nonnegative(s: Seq<char>, i: int, enabled: bool, switches: bool)
    ensures
        scan(s, i, enabled, switches) >= 0,
    decreases s.len() - i,
{
    if i < 0 || i >= s.len() {
    } else if switches && text::stands_at(s, i, do_word()) {
        lemma_scan_nonnegative(s, i + 4, true, switches);
    } else if switches && text::stands_at(s, i, dont_word()) {
        lemma_scan_nonnegative(s, i + 7, false, switches);
    } else if !text::stands_at(s, i, mul_word()) {
        lemma_scan_nonnegative(s, i + 1, enabled, switches);
    } else {
        match operand(s, i + 4, ',') {
            None => {
                lemma_scan_nonnegative(s, i + 4, enabled, switches);
            },
            Some((a, comma)) => {
                match operand(s, comma + 1, ')') {
                    None => {
                        lemma_scan_nonnegative(s, comma + 1, enabled, switches);
                    },
                    Some((b, close)) => {
                        lemma_scan_nonnegative(s, close + 1, enabled, switches);
                        text::lemma_natural_nonnegative(
                            s.subrange(i + 4, i + 4 + text::first_index_of(s.skip(i + 4), ',')),
                        );
                        text::lemma_natural_nonnegative(
                            s.subrange(
                                comma + 1,
                                comma + 1 + text::first_index_of(s.skip(comma + 1), ')'),
                            ),
                        );
                        assert(a * b >= 0) by (nonlinear_arith)
                            requires
                                a >= 0,
                                b >= 0,
                        ;
                    },
                }
            },
        }
    }
}

/// Reads the number that stands from `from` up to the next `end`.
pub fn read_operand(program: &Vec<char>, from: usize, end: char) -> (res: Option<(usize, usize)>)
    requires
        from <= program.len(),
    ensures
        res is Some <==> operand(program@, from as int, end) is Some,
        res is Some ==> res.unwrap().0 == operand(program@, from as int, end).unwrap().0
            && res.unwrap().1 == operand(program@, from as int, end).unwrap().1 && from
            <= res.unwrap().1 < program.len(),
{
    let at = match text::find(program, from, end) {
        Some(at) => at,
        None => {
            return None;
        },
    };
    let digits = text::slice_of(program, from, at);
    match text::parse_u64(&digits) {
        Some(v) => {
            if v > usize::MAX as u64 {
                None
            } else {
                Some((v as usize, at))
            }
        },
        None => None,
    }
}

/// The characters of a word.
pub fn word(w: &str) -> (out: Vec<char>)
    ensures
        out@ == w@,
{
    text::chars(w)
}

/// Scans `program` and sums the products of its multiplications; with
/// `switches`, only of those that are enabled. Returns `None` where the
/// sum is no machine integer.
pub fn sum_products(program: &str, switches: bool) -> (res: Option<usize>)
    ensures
        res is Some <==> scan(program@, 0, true, switches) <= usize::MAX,
        res is Some ==> res.unwrap() == scan(program@, 0, true, switches),
{
    let text = text::chars(program);
    let mul = word("mul(");
    let on = word("do()");
    let off = word("don't()");
    proof {
        reveal_strlit("mul(");
        reveal_strlit("do()");
        reveal_strlit("don't()");
        assert(mul@ =~= mul_word());
        assert(on@ =~= do_word());
        assert(off@ =~= dont_word());
    }
    let ghost s = program@;
    let ghost whole = scan(s, 0, true, switches);
    let mut i: usize = 0;
    let mut res: usize = 0;
    let mut is_enabled = true;
    while i < text.len()
        invariant
            text@ == s,
            s == program@,
            mul@ == mul_word(),
            on@ == do_word(),
            off@ == dont_word(),
            i <= text.len(),
            whole == scan(s, 0, true, switches),
            whole == res + scan(s, i as int, is_enabled, switches),
        decreases text.len() - i,
    {
        proof {
            lemma_scan_nonnegative(s, i as int, is_enabled, switches);
        }
        if switches && text::starts_with_at(&text, i, &on) {
            is_enabled = true;
            i += 4;
            continue ;
        } else if switches && text::starts_with_at(&text, i, &off) {
            is_enabled = false;
            i += 7;
            continue ;
        }
        if !text::starts_with_at(&text, i, &mul) {
            i += 1;
            continue ;
        }
        i += 4;
        let (operand1, comma) = match read_operand(&text, i, ',') {
            Some(found) => found,
            None => {
                continue ;
            },
        };
        i = comma + 1;
        let (operand2, close) = match read_operand(&text, i, ')') {
            Some(found) => found,
            None => {
                continue ;
            },
        };
        i = close + 1;
        proof {
            lemma_scan_nonnegative(s, i as int, is_enabled, switches);
        }
        if is_enabled {
            let product = match operand1.checked_mul(operand2) {
                Some(p) => p,
                None => {
                    return None;
                },
            };
            res = match res.checked_add(product) {
                Some(sum) => sum,
                None => {
                    return None;
                },
            };
        }
    }
    Some(res)
}

/// The sum of the products of all multiplications in `program`.
pub fn part1(program: &str) -> (res: Option<usize>)
    ensures
        res is Some <==> scan(program@, 0, true, false) <= usize::MAX,
        res is Some ==> res.unwrap() == scan(program@, 0, true, false),
{
    sum_products(program, false)
}

/// The sum of the products of the enabled multiplications in `program`.
pub fn part2(program: &str) -> (res: Option<usize>)
    ensures
        res is Some <==> scan(program@, 0, true, true) <= usize::MAX,
        res is Some ==> res.unwrap() == scan(program@, 0, true, true),
{
    sum_products(program, true)
}

/// The sums of the products of the first `n` lines, each scanned by
/// itself, added up.
pub open spec fn lines_total(lines: Seq<Seq<char>>, n: int) -> int
    decreases n,
{
    if n <= 0 {
        0
    } else {
        lines_total(lines, n - 1) + scan(lines[n - 1], 0, true, false)
    }
}

/// More lines add up to no less.
pub proof fn lemma_lines_total_grows(lines: Seq<Seq<char>>, m: int, n: int)
    requires
        m <= n,
    ensures
        lines_total(lines, m) <= lines_total(lines, n),
    decreases n - m,
{
    if m < n {
        lemma_lines_total_grows(lines, m, n - 1);
        if n > 0 {
            lemma_scan_nonnegative(lines[n - 1], 0, true, false);
        }
    }
}

/// The sum of the products of all multiplications in `program`, where
/// no multiplication runs over the end of a line. Returns `None` where the
/// sum is no machine integer.
pub fn part1_by_lines(program: &str) -> (res: Option<usize>)
    ensures
        res is Some <==> lines_total(text::lines_of(program@), text::lines_of(program@).len() as int)
            <= usize::MAX,
        res is Some ==> res.unwrap() == lines_total(
            text::lines_of(program@),
            text::lines_of(program@).len() as int,
        ),
{
    let all = text::chars(program);
    let lines = text::lines(&all);
    let ghost rows = text::lines_of(program@);
    let mut total: usize = 0;
    let mut i: usize = 0;
    while i < lines.len()
        invariant
            rows == text::views(lines@),
            rows == text::lines_of(program@),
            i <= lines.len(),
            total == lines_total(rows, i as int),
        decreases lines.len() - i,
    {
        assert(rows[i as int] == lines[i as int]@);
        proof {
            lemma_lines_total_grows(rows, i + 1, rows.len() as int);
            lemma_scan_nonnegative(rows[i as int], 0, true, false);
            assert(lines_total(rows, i + 1) == lines_total(rows, i as int) + scan(rows[i as int], 0, true, false));
        }
        let line = text::string_of(&lines[i]);
        let sum = match part1(line.as_str()) {
            Some(s) => s,
            None => {
                return None;
            },
        };
        total = match total.checked_add(sum) {
            Some(t) => t,
            None => {
                return None;
            },
        };
        i += 1;
    }
    Some(total)
}

} // verus!
