//! Text handling shared by the puzzle parsers: characters, lines, fields and
//! decimal numbers.

use vstd::prelude::*;
use vstd::std_specs::iter::IteratorSpec;

verus! {

/// The characters of a string, in order.
pub fn chars(s: &str) -> (v: Vec<char>)
    ensures
        v@ == s@,
{
    let mut v: Vec<char> = Vec::new();
    let mut rest = s.chars();
    proof {
        broadcast use vstd::string::axiom_spec_iter;

    }
    loop
        invariant
            rest.obeys_prophetic_iter_laws(),
            rest.decrease() is Some,
            s@ == v@ + rest.remaining(),
        decreases rest.decrease()->0,
    {
        let ghost before = rest;
        let next = rest.next();
        proof {
            vstd::string::next_postcondition(&before, &rest, next);
        }
        match next {
            Some(c) => {
                assert(v@.push(c) + before.remaining().drop_first() =~= v@ + before.remaining());
                v.push(c);
            },
            None => {
                assert(v@ + before.remaining() =~= v@);
                return v;
            },
        }
    }
}

/// The contents of each row of a list of rows.
pub open spec fn views(rows: Seq<Vec<char>>) -> Seq<Seq<char>> {
    rows.map_values(|row: Vec<char>| row@)
}

/// The position of the first `sep` in `s`, or the length of `s` if it holds none.
pub open spec fn first_index_of(s: Seq<char>, sep: char) -> nat
    decreases s.len(),
{
    if s.len() == 0 {
        0
    } else if s[0] == sep {
        0
    } else {
        1 + first_index_of(s.drop_first(), sep)
    }
}

/// The pieces of `s` between occurrences of `sep`; a string without `sep`
/// is one piece, and the empty string is one empty piece.
pub open spec fn split_on(s: Seq<char>, sep: char) -> Seq<Seq<char>>
    decreases s.len(),
{
    let k = first_index_of(s, sep);
    if k >= s.len() {
        seq![s]
    } else {
        seq![s.take(k as int)] + split_on(s.skip(k as int + 1), sep)
    }
}

/// A line without the carriage return that may end it.
pub open spec fn strip_carriage_return(line: Seq<char>) -> Seq<char> {
    if line.len() > 0 && line.last() == '\r' {
        line.drop_last()
    } else {
        line
    }
}

/// The lines of a text. Each line ends at a line feed, which is dropped
/// together with a carriage return right before it; what follows the last
/// line feed is a line of its own unless it is empty.
pub open spec fn lines_of(s: Seq<char>) -> Seq<Seq<char>>
    decreases s.len(),
{
    let k = first_index_of(s, '\n');
    if s.len() == 0 {
        Seq::empty()
    } else if k >= s.len() {
        seq![s]
    } else {
        seq![strip_carriage_return(s.take(k as int))] + lines_of(s.skip(k as int + 1))
    }
}

/// `first_index_of` finds `j - start` in the suffix at `start` when `j` is
/// the first position at or after `start` that holds `sep`.
pub proof fn lemma_first_index_from(s: Seq<char>, sep: char, start: int, j: int)
    requires
        0 <= start <= j <= s.len(),
        forall|i: int| start <= i < j ==> s[i] != sep,
        j < s.len() ==> s[j] == sep,
    ensures
        first_index_of(s.skip(start), sep) == j - start,
    decreases j - start,
{
    let t = s.skip(start);
    if start == j {
        if j < s.len() {
            assert(t[0] == s[j]);
        }
    } else {
        assert(t[0] == s[start]);
        assert(t.drop_first() =~= s.skip(start + 1));
        lemma_first_index_from(s, sep, start + 1, j);
    }
}

/// `first_index_of` stays within the string and points at `sep` when inside.
pub proof fn lemma_first_index_bounds(s: Seq<char>, sep: char)
    ensures
        0 <= first_index_of(s, sep) <= s.len(),
        first_index_of(s, sep) < s.len() ==> s[first_index_of(s, sep) as int] == sep,
        forall|i: int| 0 <= i < first_index_of(s, sep) ==> s[i] != sep,
    decreases s.len(),
{
    if s.len() != 0 && s[0] != sep {
        lemma_first_index_bounds(s.drop_first(), sep);
        let k = first_index_of(s.drop_first(), sep);
        assert forall|i: int| 0 <= i < k + 1 implies s[i] != sep by {
            if i > 0 {
                assert(s.drop_first()[i - 1] == s[i]);
            }
        }
        if k < s.drop_first().len() {
            assert(s.drop_first()[k as int] == s[k as int + 1]);
        }
    }
}

/// A copy of `text[from..to]`.
pub fn slice_of(text: &Vec<char>, from: usize, to: usize) -> (piece: Vec<char>)
    requires
        from <= to <= text.len(),
    ensures
        piece@ == text@.subrange(from as int, to as int),
{
    let mut piece: Vec<char> = Vec::new();
    let mut i: usize = from;
    while i < to
        invariant
            from <= i <= to <= text.len(),
            piece@ == text@.subrange(from as int, i as int),
        decreases to - i,
    {
        piece.push(text[i]);
        assert(piece@ =~= text@.subrange(from as int, i + 1));
        i += 1;
    }
    piece
}

/// Splits `text` at every `sep`.
pub fn split(text: &Vec<char>, sep: char) -> (pieces: Vec<Vec<char>>)
    ensures
        views(pieces@) == split_on(text@, sep),
{
    let mut pieces: Vec<Vec<char>> = Vec::new();
    let mut start: usize = 0;
    let mut j: usize = 0;
    let n = text.len();
    assert(text@.skip(0) =~= text@);
    loop
        invariant_except_break
            start <= j <= n,
            forall|i: int| start <= i < j ==> text@[i] != sep,
            split_on(text@, sep) == views(pieces@) + split_on(text@.skip(start as int), sep),
        invariant
            n == text.len(),
        ensures
            views(pieces@) == split_on(text@, sep),
        decreases n - j,
    {
        let ghost rest = text@.skip(start as int);
        if j == n {
            proof {
                lemma_first_index_from(text@, sep, start as int, j as int);
                assert(text@.subrange(start as int, n as int) =~= rest);
            }
            let piece = slice_of(text, start, n);
            let ghost before = views(pieces@);
            pieces.push(piece);
            assert(views(pieces@) =~= before + seq![rest]);
            break ;
        }
        if text[j] == sep {
            proof {
                lemma_first_index_from(text@, sep, start as int, j as int);
                assert(rest.take(j - start) =~= text@.subrange(start as int, j as int));
                assert(rest.skip(j - start + 1) =~= text@.skip(j + 1));
            }
            let piece = slice_of(text, start, j);
            let ghost before = views(pieces@);
            pieces.push(piece);
            assert(views(pieces@) =~= before + seq![rest.take(j - start)]);
            start = j + 1;
        }
        j += 1;
    }
    pieces
}

/// Splits `text` into its lines.
pub fn lines(text: &Vec<char>) -> (rows: Vec<Vec<char>>)
    ensures
        views(rows@) == lines_of(text@),
{
    let mut rows: Vec<Vec<char>> = Vec::new();
    let mut start: usize = 0;
    let mut j: usize = 0;
    let n = text.len();
    assert(text@.skip(0) =~= text@);
    while j < n
        invariant
            start <= j <= n,
            n == text.len(),
            forall|i: int| start <= i < j ==> text@[i] != '\n',
            lines_of(text@) == views(rows@) + lines_of(text@.skip(start as int)),
        decreases n - j,
    {
        let ghost rest = text@.skip(start as int);
        if text[j] == '\n' {
            proof {
                lemma_first_index_from(text@, '\n', start as int, j as int);
                assert(rest.take(j - start) =~= text@.subrange(start as int, j as int));
                assert(rest.skip(j - start + 1) =~= text@.skip(j + 1));
            }
            let end = if j > start && text[j - 1] == '\r' {
                j - 1
            } else {
                j
            };
            let piece = slice_of(text, start, end);
            proof {
                let whole = text@.subrange(start as int, j as int);
                if j > start {
                    assert(whole.last() == text@[j - 1]);
                    assert(whole.drop_last() =~= text@.subrange(start as int, j - 1));
                }
                assert(piece@ == strip_carriage_return(whole));
            }
            let ghost before = views(rows@);
            rows.push(piece);
            assert(views(rows@) =~= before + seq![strip_carriage_return(rest.take(j - start))]);
            start = j + 1;
        }
        j += 1;
    }
    let ghost rest = text@.skip(start as int);
    if start < n {
        proof {
            lemma_first_index_from(text@, '\n', start as int, n as int);
            assert(text@.subrange(start as int, n as int) =~= rest);
        }
        let piece = slice_of(text, start, n);
        let ghost before = views(rows@);
        rows.push(piece);
        assert(views(rows@) =~= before + seq![rest]);
    } else {
        assert(views(rows@) + Seq::<Seq<char>>::empty() =~= views(rows@));
    }
    rows
}

/// Builds a `String` from characters. Wraps std's `String::from_iter`, which
/// yields the string made of exactly the characters it is given, in order.
#[verifier::external_body]
pub(crate) fn string_of(chars: &Vec<char>) -> (s: String)
    ensures
        s@ == chars@,
{
    String::from_iter(chars.iter())
}

/// Whether `c` is white space, as Unicode defines it.
pub open spec fn is_space(c: char) -> bool {
    let n = c as u32;
    ||| 9 <= n <= 13
    ||| n == 0x20
    ||| n == 0x85
    ||| n == 0xa0
    ||| n == 0x1680
    ||| 0x2000 <= n <= 0x200a
    ||| n == 0x2028
    ||| n == 0x2029
    ||| n == 0x202f
    ||| n == 0x205f
    ||| n == 0x3000
}

/// Whether `c` is white space.
pub fn space(c: char) -> (b: bool)
    ensures
        b == is_space(c),
{
    let n = c as u32;
    (9 <= n && n <= 13) || n == 0x20 || n == 0x85 || n == 0xa0 || n == 0x1680 || (0x2000 <= n && n
        <= 0x200a) || n == 0x2028 || n == 0x2029 || n == 0x202f || n == 0x205f || n == 0x3000
}

/// `cur` as a list of one word, or no word if it is empty.
pub open spec fn word_if_any(cur: Seq<char>) -> Seq<Seq<char>> {
    if cur.len() > 0 {
        seq![cur]
    } else {
        Seq::empty()
    }
}

/// The words of `s` when the word `cur` has been read just before it.
pub open spec fn words_after(s: Seq<char>, cur: Seq<char>) -> Seq<Seq<char>>
    decreases s.len(),
{
    if s.len() == 0 {
        word_if_any(cur)
    } else if is_space(s[0]) {
        word_if_any(cur) + words_after(s.drop_first(), Seq::empty())
    } else {
        words_after(s.drop_first(), cur.push(s[0]))
    }
}

/// The words of `s`: its longest runs of characters that are not white space.
pub open spec fn words_of(s: Seq<char>) -> Seq<Seq<char>> {
    words_after(s, Seq::empty())
}

/// Splits `text` into its words.
pub fn words(text: &Vec<char>) -> (out: Vec<Vec<char>>)
    ensures
        views(out@) == words_of(text@),
{
    let mut out: Vec<Vec<char>> = Vec::new();
    let mut cur: Vec<char> = Vec::new();
    let mut j: usize = 0;
    assert(text@.skip(0) =~= text@);
    assert(views(out@) + words_of(text@) =~= words_of(text@));
    while j < text.len()
        invariant
            j <= text.len(),
            words_of(text@) == views(out@) + words_after(text@.skip(j as int), cur@),
        decreases text.len() - j,
    {
        let c = text[j];
        let ghost rest = text@.skip(j as int);
        assert(rest[0] == c);
        assert(rest.drop_first() =~= text@.skip(j + 1));
        let ghost tail = words_after(text@.skip(j + 1), Seq::empty());
        if space(c) {
            assert(words_after(rest, cur@) == word_if_any(cur@) + tail);
            if cur.len() > 0 {
                let ghost before = views(out@);
                let ghost word = cur@;
                out.push(cur);
                cur = Vec::new();
                assert(views(out@) =~= before + seq![word]);
                assert((before + seq![word]) + words_after(text@.skip(j + 1), Seq::empty()) =~= before
                    + (seq![word] + words_after(text@.skip(j + 1), Seq::empty())));
            } else {
                assert(cur@ =~= Seq::<char>::empty());
                assert(Seq::<Seq<char>>::empty() + words_after(text@.skip(j + 1), Seq::empty())
                    =~= words_after(text@.skip(j + 1), Seq::empty()));
            }
        } else {
            assert(words_after(rest, cur@) == words_after(text@.skip(j + 1), cur@.push(c)));
            cur.push(c);
        }
        j += 1;
    }
    assert(text@.skip(j as int).len() == 0);
    if cur.len() > 0 {
        let ghost before = views(out@);
        let ghost word = cur@;
        out.push(cur);
        assert(views(out@) =~= before + seq![word]);
    } else {
        assert(views(out@) + Seq::<Seq<char>>::empty() =~= views(out@));
    }
    out
}

/// Whether `c` is a decimal digit.
pub open spec fn is_digit(c: char) -> bool {
    '0' <= c <= '9'
}

/// The value of a decimal digit.
pub open spec fn digit_value(c: char) -> int {
    c as int - '0' as int
}

/// Whether `s` is made of decimal digits, at least one.
pub open spec fn is_number(s: Seq<char>) -> bool {
    s.len() > 0 && forall|i: int| 0 <= i < s.len() ==> is_digit(#[trigger] s[i])
}

/// The number that a run of decimal digits writes.
pub open spec fn number_of(s: Seq<char>) -> int
    decreases s.len(),
{
    if s.len() == 0 {
        0
    } else {
        10 * number_of(s.drop_last()) + digit_value(s.last())
    }
}

/// The integer that `s` writes in decimal, with an optional sign in front
/// of the digits; `None` if `s` is not of that form.
pub open spec fn integer_of(s: Seq<char>) -> Option<int> {
    if s.len() > 0 && s[0] == '-' {
        if is_number(s.drop_first()) {
            Some(-number_of(s.drop_first()))
        } else {
            None
        }
    } else if s.len() > 0 && s[0] == '+' {
        if is_number(s.drop_first()) {
            Some(number_of(s.drop_first()))
        } else {
            None
        }
    } else if is_number(s) {
        Some(number_of(s))
    } else {
        None
    }
}

/// The unsigned integer that `s` writes: digits with an optional `+` in front.
pub open spec fn natural_of(s: Seq<char>) -> Option<int> {
    if s.len() > 0 && s[0] == '-' {
        None
    } else {
        integer_of(s)
    }
}

/// A run of digits never writes less than any of its prefixes does.
pub proof fn lemma_number_grows(s: Seq<char>, k: int)
    requires
        0 <= k <= s.len(),
        forall|i: int| 0 <= i < s.len() ==> is_digit(#[trigger] s[i]),
    ensures
        0 <= number_of(s.take(k)) <= number_of(s),
    decreases s.len() - k,
{
    if k == s.len() {
        assert(s.take(k) =~= s);
        lemma_number_nonnegative(s);
    } else {
        lemma_number_grows(s, k + 1);
        let t = s.take(k + 1);
        assert(t.drop_last() =~= s.take(k));
        assert(t.last() == s[k]);
        lemma_number_nonnegative(s.take(k));
    }
}

/// A run of digits writes no negative number.
pub proof fn lemma_number_nonnegative(s: Seq<char>)
    requires
        forall|i: int| 0 <= i < s.len() ==> is_digit(#[trigger] s[i]),
    ensures
        0 <= number_of(s),
    decreases s.len(),
{
    if s.len() > 0 {
        lemma_number_nonnegative(s.drop_last());
    }
}

/// Reads the digits `text[from..]` as a number no greater than `limit`.
pub fn parse_digits(text: &Vec<char>, from: usize, limit: u64) -> (res: Option<u64>)
    requires
        from <= text.len(),
    ensures
        res is Some <==> is_number(text@.skip(from as int)) && number_of(text@.skip(from as int))
            <= limit,
        res is Some ==> res.unwrap() == number_of(text@.skip(from as int)),
{
    let ghost s = text@.skip(from as int);
    if from == text.len() {
        return None;
    }
    let mut acc: u64 = 0;
    let mut j: usize = from;
    assert(s.take(0) =~= Seq::<char>::empty());
    while j < text.len()
        invariant
            from <= j <= text.len(),
            s == text@.skip(from as int),
            forall|i: int| 0 <= i < j - from ==> is_digit(#[trigger] s[i]),
            acc == number_of(s.take(j - from)),
            acc <= limit,
        decreases text.len() - j,
    {
        let c = text[j];
        assert(s[j - from] == c);
        if !('0' <= c && c <= '9') {
            return None;
        }
        let d = (c as u32 - '0' as u32) as u64;
        let ghost t = s.take(j - from + 1);
        assert(t.drop_last() =~= s.take(j - from));
        assert(t.last() == c);
        assert(number_of(t) == 10 * acc + d);
        if d > limit || acc > (limit - d) / 10 {
            proof {
                if forall|i: int| 0 <= i < s.len() ==> is_digit(#[trigger] s[i]) {
                    lemma_number_grows(s, j - from + 1);
                }
            }
            return None;
        }
        acc = acc * 10 + d;
        j += 1;
    }
    assert(s.take(j - from) =~= s);
    Some(acc)
}

/// Reads a signed decimal integer that fits in 64 bits.
pub fn parse_i64(text: &Vec<char>) -> (res: Option<i64>)
    ensures
        res is Some <==> integer_of(text@) is Some && i64::MIN <= integer_of(text@).unwrap()
            <= i64::MAX,
        res is Some ==> res.unwrap() == integer_of(text@).unwrap(),
{
    assert(text@.skip(0) =~= text@);
    assert(text@.skip(1) =~= text@.drop_first());
    if text.len() > 0 && text[0] == '-' {
        match parse_digits(text, 1, 0x8000_0000_0000_0000) {
            Some(n) => {
                if n == 0x8000_0000_0000_0000 {
                    Some(i64::MIN)
                } else {
                    Some(-(n as i64))
                }
            },
            None => None,
        }
    } else if text.len() > 0 && text[0] == '+' {
        match parse_digits(text, 1, 0x7fff_ffff_ffff_ffff) {
            Some(n) => Some(n as i64),
            None => None,
        }
    } else {
        proof {
            if is_number(text@) {
                lemma_number_nonnegative(text@);
            }
        }
        match parse_digits(text, 0, 0x7fff_ffff_ffff_ffff) {
            Some(n) => Some(n as i64),
            None => None,
        }
    }
}

/// Reads an unsigned decimal integer that fits in 64 bits.
pub fn parse_u64(text: &Vec<char>) -> (res: Option<u64>)
    ensures
        res is Some <==> natural_of(text@) is Some && natural_of(text@).unwrap() <= u64::MAX,
        res is Some ==> res.unwrap() == natural_of(text@).unwrap(),
{
    assert(text@.skip(0) =~= text@);
    assert(text@.skip(1) =~= text@.drop_first());
    if text.len() > 0 && text[0] == '-' {
        None
    } else if text.len() > 0 && text[0] == '+' {
        parse_digits(text, 1, u64::MAX)
    } else {
        parse_digits(text, 0, u64::MAX)
    }
}

/// What follows the first two bytes of `s` in UTF-8: two characters of one
/// byte each, or one character of two bytes. `None` where the second byte
/// ends no character, or `s` is shorter than two bytes.
pub open spec fn after_two_bytes(s: Seq<char>) -> Option<Seq<char>> {
    if s.len() >= 1 && 0x80 <= s[0] as u32 && (s[0] as u32) < 0x800 {
        Some(s.skip(1))
    } else if s.len() >= 2 && (s[0] as u32) < 0x80 && (s[1] as u32) < 0x80 {
        Some(s.skip(2))
    } else {
        None
    }
}

/// What comes before the last byte of `s` in UTF-8: all but the last
/// character, where that character is a single byte.
pub open spec fn before_last_byte(s: Seq<char>) -> Option<Seq<char>> {
    if s.len() >= 1 && (s.last() as u32) < 0x80 {
        Some(s.drop_last())
    } else {
        None
    }
}

/// Drops the first two bytes of a word.
pub fn drop_two_bytes(word: &Vec<char>) -> (res: Option<Vec<char>>)
    ensures
        res is Some <==> after_two_bytes(word@) is Some,
        res is Some ==> res.unwrap()@ == after_two_bytes(word@).unwrap(),
{
    if word.len() >= 1 && 0x80 <= word[0] as u32 && (word[0] as u32) < 0x800 {
        let rest = slice_of(word, 1, word.len());
        assert(rest@ =~= word@.skip(1));
        Some(rest)
    } else if word.len() >= 2 && (word[0] as u32) < 0x80 && (word[1] as u32) < 0x80 {
        let rest = slice_of(word, 2, word.len());
        assert(rest@ =~= word@.skip(2));
        Some(rest)
    } else {
        None
    }
}

/// Drops the last byte of a word.
pub fn drop_last_byte(word: &Vec<char>) -> (res: Option<Vec<char>>)
    ensures
        res is Some <==> before_last_byte(word@) is Some,
        res is Some ==> res.unwrap()@ == before_last_byte(word@).unwrap(),
{
    if word.len() >= 1 && (word[word.len() - 1] as u32) < 0x80 {
        let rest = slice_of(word, 0, word.len() - 1);
        assert(rest@ =~= word@.drop_last());
        Some(rest)
    } else {
        None
    }
}

/// The position of the first blank line in `s`: of the first line feed that
/// another line feed follows; the length of `s` if there is none.
pub open spec fn first_break(s: Seq<char>) -> nat
    decreases s.len(),
{
    if s.len() < 2 {
        s.len()
    } else if s[0] == '\n' && s[1] == '\n' {
        0
    } else {
        1 + first_break(s.drop_first())
    }
}

/// The blocks of a text that blank lines part: what stands between one
/// pair of line feeds and the next.
pub open spec fn blocks_of(s: Seq<char>) -> Seq<Seq<char>>
    decreases s.len(),
{
    let k = first_break(s);
    if k + 2 > s.len() {
        seq![s]
    } else {
        seq![s.take(k as int)] + blocks_of(s.skip(k as int + 2))
    }
}

/// `first_break` finds `j - start` in the suffix at `start` when `j` is the
/// first position at or after `start` where two line feeds stand.
pub proof fn lemma_first_break_from(s: Seq<char>, start: int, j: int)
    requires
        0 <= start <= j <= s.len(),
        forall|i: int| start <= i < j && i + 1 < s.len() ==> !(#[trigger] s[i] == '\n' && s[i + 1] == '\n'),
        j < s.len() ==> j + 1 < s.len() && s[j] == '\n' && s[j + 1] == '\n',
        j == s.len() || j + 1 < s.len(),
    ensures
        first_break(s.skip(start)) == j - start,
    decreases j - start,
{
    let t = s.skip(start);
    if start == j {
        if j < s.len() {
            assert(t[0] == s[j] && t[1] == s[j + 1]);
        }
    } else {
        if t.len() >= 2 {
            assert(t[0] == s[start] && t[1] == s[start + 1]);
            assert(t.drop_first() =~= s.skip(start + 1));
            lemma_first_break_from(s, start + 1, j);
        } else {
            assert(j == s.len());
        }
    }
}

/// Splits `text` into the blocks that blank lines part.
pub fn blocks(text: &Vec<char>) -> (pieces: Vec<Vec<char>>)
    ensures
        views(pieces@) == blocks_of(text@),
{
    let mut pieces: Vec<Vec<char>> = Vec::new();
    let mut start: usize = 0;
    let mut j: usize = 0;
    let n = text.len();
    assert(text@.skip(0) =~= text@);
    loop
        invariant_except_break
            start <= j <= n,
            forall|i: int| start <= i < j && i + 1 < n ==> !(#[trigger] text@[i] == '\n' && text@[i + 1] == '\n'),
            blocks_of(text@) == views(pieces@) + blocks_of(text@.skip(start as int)),
        invariant
            n == text.len(),
        ensures
            views(pieces@) == blocks_of(text@),
        decreases n - j,
    {
        let ghost rest = text@.skip(start as int);
        if j >= n || n - j < 2 {
            proof {
                lemma_first_break_from(text@, start as int, n as int);
                assert(text@.subrange(start as int, n as int) =~= rest);
            }
            let piece = slice_of(text, start, n);
            let ghost before = views(pieces@);
            pieces.push(piece);
            assert(views(pieces@) =~= before + seq![rest]);
            break ;
        }
        if text[j] == '\n' && text[j + 1] == '\n' {
            proof {
                lemma_first_break_from(text@, start as int, j as int);
                assert(rest.take(j - start) =~= text@.subrange(start as int, j as int));
                assert(rest.skip(j - start + 2) =~= text@.skip(j + 2));
            }
            let piece = slice_of(text, start, j);
            let ghost before = views(pieces@);
            pieces.push(piece);
            assert(views(pieces@) =~= before + seq![rest.take(j - start)]);
            start = j + 2;
            j = j + 2;
        } else {
            j += 1;
        }
    }
    pieces
}

/// Finds the first `c` at or after `from`.
pub fn find(text: &Vec<char>, from: usize, c: char) -> (at: Option<usize>)
    requires
        from <= text.len(),
    ensures
        at is Some <==> first_index_of(text@.skip(from as int), c) < text.len() - from,
        at is Some ==> at.unwrap() == from + first_index_of(text@.skip(from as int), c) && at.unwrap()
            < text.len() && text[at.unwrap() as int] == c,
{
    let mut j: usize = from;
    while j < text.len()
        invariant
            from <= j <= text.len(),
            forall|i: int| from <= i < j ==> text@[i] != c,
        decreases text.len() - j,
    {
        if text[j] == c {
            proof {
                lemma_first_index_from(text@, c, from as int, j as int);
            }
            return Some(j);
        }
        j += 1;
    }
    proof {
        lemma_first_index_from(text@, c, from as int, j as int);
    }
    None
}

/// Whether `word` stands in `s` at position `at`.
pub open spec fn stands_at(s: Seq<char>, at: int, word: Seq<char>) -> bool {
    at + word.len() <= s.len() && s.subrange(at, at + word.len()) == word
}

/// Whether `word` stands in `text` at position `at`.
pub fn starts_with_at(text: &Vec<char>, at: usize, word: &Vec<char>) -> (yes: bool)
    requires
        at <= text.len(),
    ensures
        yes == stands_at(text@, at as int, word@),
{
    if text.len() - at < word.len() {
        return false;
    }
    let mut i: usize = 0;
    while i < word.len()
        invariant
            i <= word.len(),
            at + word.len() <= text.len(),
            forall|k: int| 0 <= k < i ==> text@[at + k] == word@[k],
        decreases word.len() - i,
    {
        if text[at + i] != word[i] {
            assert(text@.subrange(at as int, at + word.len())[i as int] != word@[i as int]);
            return false;
        }
        i += 1;
    }
    assert(text@.subrange(at as int, at + word.len()) =~= word@);
    true
}

/// An unsigned integer is never negative.
pub proof fn lemma_natural_nonnegative(s: Seq<char>)
    requires
        natural_of(s) is Some,
    ensures
        natural_of(s).unwrap() >= 0,
{
    if s.len() > 0 && s[0] == '+' {
        lemma_number_nonnegative(s.drop_first());
    } else {
        lemma_number_nonnegative(s);
    }
}

/// The digit that writes `d`.
pub open spec fn digit_char(d: int) -> char {
    (d + '0' as int) as char
}

/// `n` written in decimal.
pub open spec fn decimal_of(n: nat) -> Seq<char>
    decreases n,
{
    if n < 10 {
        seq![digit_char(n as int)]
    } else {
        decimal_of(n / 10).push(digit_char((n % 10) as int))
    }
}

/// Writes `n` in decimal.
pub fn decimal(n: u64) -> (out: Vec<char>)
    ensures
        out@ == decimal_of(n as nat),
    decreases n,
{
    let last = ((n % 10) as u8 + 48u8) as char;
    assert(last == digit_char((n % 10) as int));
    if n < 10 {
        let mut out: Vec<char> = Vec::new();
        out.push(last);
        assert(out@ =~= seq![last]);
        out
    } else {
        let mut out = decimal(n / 10);
        out.push(last);
        out
    }
}

/// Adds the characters of `more` to the end of `out`.
pub fn append(out: &mut Vec<char>, more: &Vec<char>)
    ensures
        final(out)@ == old(out)@ + more@,
{
    let ghost before = out@;
    let mut i: usize = 0;
    assert(out@ =~= before + more@.take(0));
    while i < more.len()
        invariant
            i <= more.len(),
            out@ == before + more@.take(i as int),
        decreases more.len() - i,
    {
        out.push(more[i]);
        assert(out@ =~= before + more@.take(i + 1));
        i += 1;
    }
    assert(more@.take(more.len() as int) =~= more@);
}

/// Adds the characters of the string `more` to the end of `out`.
pub fn append_str(out: &mut Vec<char>, more: &str)
    ensures
        final(out)@ == old(out)@ + more@,
{
    let letters = chars(more);
    append(out, &letters);
}

/// `v` written in decimal, with a minus sign in front where it is
/// negative.
pub open spec fn signed_of(v: int) -> Seq<char> {
    if v < 0 {
        seq!['-'] + decimal_of((-v) as nat)
    } else {
        decimal_of(v as nat)
    }
}

/// Writes `v` in decimal, with a minus sign in front where it is negative.
pub fn signed(v: i64) -> (out: Vec<char>)
    ensures
        out@ == signed_of(v as int),
{
    if v < 0 {
        let mut out: Vec<char> = Vec::new();
        out.push('-');
        let size = (-(v as i128)) as u64;
        let digits = decimal(size);
        append(&mut out, &digits);
        out
    } else {
        decimal(v as u64)
    }
}

} // verus!
