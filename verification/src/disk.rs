//! A disk of files and free space, two ways of compacting it, and its checksum.

use crate::combine;
use crate::text;
use vstd::prelude::*;

verus! {

/// What a block holds: a file with its number, or free space.
#[derive(Clone, Copy, Debug, PartialEq, Eq, Structural)]
pub enum BlockKind {
    Id(u32),
    Free,
}

/// A run of disk cells of one kind.
#[derive(Clone, Copy, Debug, PartialEq, Eq, Structural)]
pub struct Block {
    pub kind: BlockKind,
    pub size: u32,
}

/// A disk as the list of its blocks.
#[derive(Clone, Debug)]
pub struct FileSystem(pub Vec<Block>);

/// The blocks without the free blocks at their end.
pub open spec fn trimmed(s: Seq<Block>) -> Seq<Block>
    decreases s.len(),
{
    if s.len() > 0 && s.last().kind is Free {
        trimmed(s.drop_last())
    } else {
        s
    }
}

/// The place of the first free block at or after `k`, or the number of
/// blocks if there is none.
pub open spec fn first_free(s: Seq<Block>, k: int) -> int
    decreases s.len() - k,
{
    if k < 0 || k >= s.len() {
        s.len() as int
    } else if s[k].kind is Free {
        k
    } else {
        first_free(s, k + 1)
    }
}

/// How many blocks stand at and behind the first free one.
pub open spec fn unsettled(s: Seq<Block>) -> int {
    s.len() - first_free(s, 0)
}

/// The disk after its last file has moved into the first free block, as
/// far as it fits, and whether anything moved. The free blocks at the end
/// are dropped first. A file that fits leaves what is left of the free
/// block behind it; of a file that does not fit, what does not fit stays at
/// the end. Without free space before the last file nothing moves.
pub open spec fn once1(s: Seq<Block>) -> (Seq<Block>, bool) {
    let t = trimmed(s);
    let tail = t.last();
    let body = t.drop_last();
    let i = first_free(body, 0);
    if i >= body.len() {
        (t, false)
    } else {
        let room = body[i].size;
        let rest = body.remove(i);
        if tail.size == room {
            (rest.insert(i, tail), true)
        } else if tail.size < room {
            (
                rest.insert(i, tail).insert(
                    i + 1,
                    Block { kind: BlockKind::Free, size: (room - tail.size) as u32 },
                ),
                true,
            )
        } else {
            (
                rest.insert(i, Block { kind: tail.kind, size: room }).push(
                    Block { kind: tail.kind, size: (tail.size - room) as u32 },
                ),
                true,
            )
        }
    }
}

/// The first free block at or after `k` is found by skipping the blocks
/// of files before it.
pub proof fn lemma_first_free(s: Seq<Block>, k: int, j: int)
    requires
        0 <= k <= j <= s.len(),
        forall|i: int| k <= i < j ==> !((#[trigger] s[i]).kind is Free),
        j < s.len() ==> s[j].kind is Free,
    ensures
        first_free(s, k) == j,
    decreases j - k,
{
    if k < j {
        lemma_first_free(s, k + 1, j);
    }
}

/// The first free block lies in the list or right behind it, and no free
/// block stands before it.
pub proof fn lemma_first_free_bounds(s: Seq<Block>, k: int)
    requires
        0 <= k <= s.len(),
    ensures
        k <= first_free(s, k) <= s.len(),
        first_free(s, k) < s.len() ==> s[first_free(s, k)].kind is Free,
        forall|i: int| k <= i < first_free(s, k) ==> !((#[trigger] s[i]).kind is Free),
    decreases s.len() - k,
{
    if k < s.len() && !(s[k].kind is Free) {
        lemma_first_free_bounds(s, k + 1);
    }
}

/// Trimming shortens a list at most, and leaves the first free block of
/// what stands before the last file where it was.
pub proof fn lemma_trimmed(s: Seq<Block>)
    ensures
        trimmed(s).len() <= s.len(),
        trimmed(s) == s.take(trimmed(s).len() as int),
        trimmed(s).len() > 0 ==> !(trimmed(s).last().kind is Free),
    decreases s.len(),
{
    if s.len() > 0 && s.last().kind is Free {
        lemma_trimmed(s.drop_last());
        let t = trimmed(s.drop_last());
        assert(s.drop_last().take(t.len() as int) =~= s.take(t.len() as int));
    } else {
        assert(s.take(s.len() as int) =~= s);
    }
}

/// Each move of `once1` leaves fewer blocks at and behind the first free one.
pub proof fn lemma_once1_settles(s: Seq<Block>)
    requires
        trimmed(s).len() > 0,
        once1(s).1,
    ensures
        0 <= unsettled(once1(s).0) < unsettled(s),
{
    lemma_trimmed(s);
    let t = trimmed(s);
    let tail = t.last();
    let body = t.drop_last();
    lemma_first_free_bounds(body, 0);
    let i = first_free(body, 0);
    let after = once1(s).0;
    assert forall|k: int| 0 <= k < i implies !((#[trigger] s[k]).kind is Free) by {
        assert(s[k] == body[k]);
    }
    assert(s[i] == body[i]);
    lemma_first_free(s, 0, i);
    assert forall|k: int| 0 <= k < i + 1 && k < after.len() implies !((#[trigger] after[k]).kind is Free) by {
        if k < i {
            assert(after[k] == body[k]);
        }
    }
    lemma_first_free_bounds(after, 0);
    assert(after.len() <= t.len());
    if first_free(after, 0) < i + 1 {
        assert(!(after[first_free(after, 0)].kind is Free));
    }
}

/// The place of the first free block at or after `k` and before `limit`
/// that has room for `required`, or `limit` if there is none.
pub open spec fn first_fit(s: Seq<Block>, required: u32, k: int, limit: int) -> int
    decreases limit - k,
{
    if k < 0 || k >= limit {
        limit
    } else if s[k].kind is Free && s[k].size >= required {
        k
    } else {
        first_fit(s, required, k + 1, limit)
    }
}

/// Whether block `i` is a file with a free block before it that has room for it.
pub open spec fn movable(s: Seq<Block>, i: int) -> bool {
    s[i].kind is Id && first_fit(s, s[i].size, 0, i) < i
}

/// The place of the last movable file among the first `n` blocks, or -1.
pub open spec fn last_movable(s: Seq<Block>, n: int) -> int
    decreases n,
{
    if n <= 0 {
        -1
    } else if movable(s, n - 1) {
        n - 1
    } else {
        last_movable(s, n - 1)
    }
}

/// The disk after the file at `i` has moved whole into the free block at
/// `j`: free space of its size stays where it was, and what is left of the
/// free block follows it.
pub open spec fn moved(s: Seq<Block>, i: int, j: int) -> Seq<Block> {
    let file = s[i];
    let room = s[j];
    let freed = s.update(i, Block { kind: BlockKind::Free, size: file.size });
    let placed = freed.remove(j).insert(j, file);
    if room.size > file.size {
        placed.insert(j + 1, Block { kind: BlockKind::Free, size: (room.size - file.size) as u32 })
    } else {
        placed
    }
}

/// The disk after its last movable file has moved whole into the first
/// free block that has room for it, and whether anything moved.
pub open spec fn once2(s: Seq<Block>) -> (Seq<Block>, bool) {
    let i = last_movable(s, s.len() as int);
    if i < 0 {
        (s, false)
    } else {
        (moved(s, i, first_fit(s, s[i].size, 0, i)), true)
    }
}

/// The disk after `once1` was tried `n` times.
pub open spec fn compacted1(s: Seq<Block>, n: nat) -> Seq<Block>
    decreases n,
{
    if n == 0 {
        s
    } else {
        once1(compacted1(s, (n - 1) as nat)).0
    }
}

/// The disk after `n` moves of `once2`, or as far as it moves.
pub open spec fn compacted2(s: Seq<Block>, n: nat) -> Seq<Block>
    decreases n,
{
    if n == 0 || !once2(s).1 {
        s
    } else {
        compacted2(once2(s).0, (n - 1) as nat)
    }
}

/// The sum of the positions from `from` up to `to`.
pub open spec fn span_sum(from: int, to: int) -> int
    decreases to - from,
{
    if to <= from {
        0
    } else {
        span_sum(from, to - 1) + (to - 1)
    }
}

/// Where the first `n` blocks end on the disk.
pub open spec fn end_of(s: Seq<Block>, n: int) -> int
    decreases n,
{
    if n <= 0 {
        0
    } else {
        end_of(s, n - 1) + s[n - 1].size
    }
}

/// The checksum of the first `n` blocks: each position that a file takes,
/// times the number of the file.
pub open spec fn checksum(s: Seq<Block>, n: int) -> int
    decreases n,
{
    if n <= 0 {
        0
    } else {
        checksum(s, n - 1) + match s[n - 1].kind {
            BlockKind::Id(id) => id * span_sum(end_of(s, n - 1), end_of(s, n)),
            BlockKind::Free => 0,
        }
    }
}

/// A checksum and an end are never negative, and grow with the blocks.
pub proof fn lemma_checksum_grows(s: Seq<Block>, m: int, n: int)
    requires
        0 <= m <= n,
    ensures
        0 <= checksum(s, m) <= checksum(s, n),
        0 <= end_of(s, m) <= end_of(s, n),
    decreases n,
{
    if m < n {
        lemma_checksum_grows(s, m, n - 1);
        lemma_checksum_grows(s, 0, n - 1);
        lemma_span_sum(end_of(s, n - 1), end_of(s, n));
        match s[n - 1].kind {
            BlockKind::Id(id) => {
                assert(id * span_sum(end_of(s, n - 1), end_of(s, n)) >= 0) by (nonlinear_arith)
                    requires
                        id >= 0,
                        span_sum(end_of(s, n - 1), end_of(s, n)) >= 0,
                ;
            },
            BlockKind::Free => {},
        }
    } else if n > 0 {
        lemma_checksum_grows(s, m - 1, n - 1);
        lemma_checksum_grows(s, 0, n - 1);
        lemma_span_sum(end_of(s, n - 1), end_of(s, n));
        match s[n - 1].kind {
            BlockKind::Id(id) => {
                assert(id * span_sum(end_of(s, n - 1), end_of(s, n)) >= 0) by (nonlinear_arith)
                    requires
                        id >= 0,
                        span_sum(end_of(s, n - 1), end_of(s, n)) >= 0,
                ;
            },
            BlockKind::Free => {},
        }
    }
}

/// A sum of positions that are not negative is not negative, and grows
/// with its span.
pub proof fn lemma_span_sum(from: int, to: int)
    requires
        0 <= from,
    ensures
        0 <= span_sum(from, to),
        from <= to ==> span_sum(from, to) <= span_sum(from, to + 1),
    decreases to - from,
{
    if to > from {
        lemma_span_sum(from, to - 1);
    }
}

/// The block that stands at place `i` of a disk map: the digits give the
/// sizes of a file and of free space in turn, and the files are numbered
/// from 0.
pub open spec fn block_at(digits: Seq<u32>, i: int) -> Block {
    if i % 2 == 0 {
        Block { kind: BlockKind::Id((i / 2) as u32), size: digits[i] }
    } else {
        Block { kind: BlockKind::Free, size: digits[i] }
    }
}

/// The digits that the characters write, or `None` if one of them is no digit.
pub open spec fn digits_of(s: Seq<char>, n: int) -> Option<Seq<u32>>
    decreases n,
{
    if n <= 0 {
        Some(Seq::empty())
    } else {
        match digits_of(s, n - 1) {
            Some(before) => if text::is_digit(s[n - 1]) {
                Some(before.push(text::digit_value(s[n - 1]) as u32))
            } else {
                None
            },
            None => None,
        }
    }
}

/// Once a character is no digit, no later character mends it.
pub proof fn lemma_digits_stay_none(s: Seq<char>, m: int, n: int)
    requires
        0 <= m <= n,
        digits_of(s, m) is None,
    ensures
        digits_of(s, n) is None,
    decreases n - m,
{
    if m < n {
        assert(digits_of(s, m + 1) is None);
        lemma_digits_stay_none(s, m + 1, n);
    }
}

/// The disk as text: each block of a file as the number of the file, once
/// for each position, and each free position as a dot.
pub open spec fn render(s: Seq<Block>, n: int) -> Seq<char>
    decreases n,
{
    if n <= 0 {
        Seq::empty()
    } else {
        render(s, n - 1) + repeated(
            match s[n - 1].kind {
                BlockKind::Id(id) => text::decimal_of(id as nat),
                BlockKind::Free => seq!['.'],
            },
            s[n - 1].size as int,
        )
    }
}

/// `word` written `n` times in a row.
pub open spec fn repeated(word: Seq<char>, n: int) -> Seq<char>
    decreases n,
{
    if n <= 0 {
        Seq::empty()
    } else {
        repeated(word, n - 1) + word
    }
}

impl FileSystem {
    /// Whether the disk holds a file.
    pub open spec fn has_file(&self) -> bool {
        trimmed(self.0@).len() > 0
    }

    /// Whether the disk holds a file.
    pub fn holds_file(&self) -> (yes: bool)
        ensures
            yes == self.has_file(),
    {
        let mut n: usize = self.0.len();
        assert(self.0@.take(n as int) =~= self.0@);
        while n > 0
            invariant
                n <= self.0.len(),
                trimmed(self.0@) == trimmed(self.0@.take(n as int)),
            decreases n,
        {
            let ghost head = self.0@.take(n as int);
            if let BlockKind::Id(_) = self.0[n - 1].kind {
                assert(head.last() == self.0[n - 1]);
                return true;
            }
            assert(head.last() == self.0[n - 1]);
            assert(head.drop_last() =~= self.0@.take(n - 1));
            n -= 1;
        }
        assert(self.0@.take(0).len() == 0);
        false
    }

    /// Moves the last file, as far as it fits, into the first free block:
    /// see `once1`. Returns an error where nothing can move.
    pub fn compress_once1(&mut self) -> (res: Result<(), &'static str>)
        requires
            old(self).has_file(),
        ensures
            final(self).0@ == once1(old(self).0@).0,
            res is Ok == once1(old(self).0@).1,
            res is Ok ==> 0 <= unsettled(final(self).0@) < unsettled(old(self).0@),
            final(self).has_file(),
    {
        let ghost start = self.0@;
        proof {
            lemma_trimmed(start);
        }
        let mut tail = Block { kind: BlockKind::Free, size: 0 };
        let ghost t = trimmed(start);
        loop
            invariant_except_break
                self.0.len() > 0,
                trimmed(self.0@) == t,
            invariant
                t == trimmed(start),
                t.len() > 0,
            ensures
                self.0@ == t.drop_last(),
                tail == t.last(),
            decreases self.0.len(),
        {
            let ghost before = self.0@;
            let block = self.0.pop().unwrap();
            assert(self.0@ =~= before.drop_last());
            assert(block == before.last());
            match block.kind {
                BlockKind::Free => {
                    assert(trimmed(before) == trimmed(self.0@));
                    proof {
                        if self.0.len() == 0 {
                            assert(trimmed(self.0@).len() == 0);
                        }
                    }
                },
                BlockKind::Id(_) => {
                    assert(trimmed(before) == before);
                    tail = block;
                    break ;
                },
            }
        }
        let ghost body = self.0@;
        let mut i: usize = 0;
        while i < self.0.len()
            invariant
                i <= self.0.len(),
                self.0@ == body,
                start == old(self).0@,
                t == trimmed(start),
                t.len() > 0,
                body == t.drop_last(),
                tail == t.last(),
                tail.kind is Id,
                forall|k: int| 0 <= k < i ==> !((#[trigger] body[k]).kind is Free),
            decreases self.0.len() - i,
        {
            if let BlockKind::Free = self.0[i].kind {
                proof {
                    lemma_first_free(body, 0, i as int);
                    assert(once1(start).1);
                    lemma_once1_settles(start);
                }
                let block = self.0.remove(i);
                if tail.size <= block.size {
                    self.0.insert(i, Block { kind: tail.kind, size: tail.size });
                    if tail.size < block.size {
                        self.0.insert(i + 1, Block { kind: BlockKind::Free, size: block.size - tail.size });
                    }
                } else {
                    self.0.insert(i, Block { kind: tail.kind, size: block.size });
                    self.0.push(Block { kind: tail.kind, size: tail.size - block.size });
                }
                proof {
                    lemma_keeps_file(self.0@, i as int);
                }
                return Ok(());
            }
            i += 1;
        }
        proof {
            lemma_first_free(body, 0, body.len() as int);
        }
        self.0.push(tail);
        assert(self.0@ =~= t);
        proof {
            lemma_keeps_file(self.0@, self.0.len() - 1);
        }
        Err("meh")
    }

    /// Moves files into free space block by block until nothing moves:
    /// the disk is what `once1`, tried some number of times, makes of it,
    /// and another try would change nothing.
    pub fn compress1(&mut self)
        requires
            old(self).has_file(),
        ensures
            final(self).has_file(),
            exists|n: nat| #[trigger] compacted1(old(self).0@, n) == final(self).0@,
            !once1(final(self).0@).1,
            once1(final(self).0@).0 == final(self).0@,
    {
        let ghost mut tried: nat = 0;
        loop
            invariant
                self.has_file(),
                self.0@ == compacted1(old(self).0@, tried),
            decreases unsettled(self.0@),
        {
            let ghost before = self.0@;
            proof {
                tried = tried + 1;
            }
            match self.compress_once1() {
                Ok(_) => {},
                Err(_) => {
                    proof {
                        lemma_trimmed_twice(before);
                        assert(compacted1(old(self).0@, tried) == self.0@);
                    }
                    return ;
                },
            }
        }
    }

    /// Moves the last movable file whole into the first free block that
    /// has room for it: see `once2`. Returns an error where nothing can move.
    pub fn compress_once2(&mut self) -> (res: Result<(), &'static str>)
        ensures
            final(self).0@ == once2(old(self).0@).0,
            res is Ok == once2(old(self).0@).1,
            res is Ok ==> settles(old(self).0@, final(self).0@),
    {
        let ghost s = self.0@;
        let mut i: usize = self.0.len();
        while i > 0
            invariant
                i <= self.0.len(),
                self.0@ == s,
                s == old(self).0@,
                last_movable(s, s.len() as int) == last_movable(s, i as int),
            decreases i,
        {
            i -= 1;
            let block = self.0[i];
            assert(last_movable(s, i + 1) == if movable(s, i as int) {
                i as int
            } else {
                last_movable(s, i as int)
            });
            if let BlockKind::Free = block.kind {
                continue ;
            }
            let required = block.size;
            let mut j: usize = 0;
            while j < i
                invariant
                    j <= i < self.0.len(),
                    self.0@ == s,
                    s == old(self).0@,
                    block == s[i as int],
                    block.kind is Id,
                    required == block.size,
                    last_movable(s, s.len() as int) == last_movable(s, i + 1),
                    last_movable(s, i + 1) == if movable(s, i as int) {
                        i as int
                    } else {
                        last_movable(s, i as int)
                    },
                    first_fit(s, required, 0, i as int) == first_fit(s, required, j as int, i as int),
                decreases i - j,
            {
                let curr = self.0[j];
                match curr.kind {
                    BlockKind::Id(_) => {},
                    BlockKind::Free => {
                        if curr.size >= required {
                            assert(first_fit(s, required, 0, i as int) == j);
                            assert(movable(s, i as int));
                            proof {
                                lemma_move_settles(s, i as int, j as int);
                            }
                            self.0[i] = Block { kind: BlockKind::Free, size: required };
                            let _ = self.0.remove(j);
                            self.0.insert(j, block);
                            if curr.size > required {
                                self.0.insert(j + 1, Block { kind: BlockKind::Free, size: curr.size - required });
                            }
                            return Ok(());
                        }
                    },
                }
                j += 1;
            }
        }
        Err("meheh")
    }

    /// Moves whole files into free space until nothing moves: the disk
    /// is what some number of moves of `once2` make of it, and no file can
    /// move any more.
    pub fn compress2(&mut self)
        ensures
            exists|n: nat| #[trigger] compacted2(old(self).0@, n) == final(self).0@,
            !once2(final(self).0@).1,
    {
        let ghost mut made: nat = 0;
        loop
            invariant
                forall|n: nat| #[trigger] compacted2(old(self).0@, made + n) == compacted2(self.0@, n),
            decreases weight(self.0@, self.0.len() as int), rank(self.0@, self.0.len() as int),
        {
            let ghost before = self.0@;
            proof {
                lemma_sums_bounds(before, 0, before.len() as int);
            }
            match self.compress_once2() {
                Ok(_) => {
                    proof {
                        lemma_sums_bounds(self.0@, 0, self.0.len() as int);
                        assert forall|n: nat| #[trigger]
                            compacted2(old(self).0@, made + 1 + n) == compacted2(self.0@, n) by {
                            assert(compacted2(old(self).0@, made + (n + 1) as nat) == compacted2(before, (n + 1) as nat));
                        }
                        made = made + 1;
                    }
                },
                Err(_) => {
                    proof {
                        assert(compacted2(old(self).0@, made + 0nat) == compacted2(self.0@, 0nat));
                        assert(compacted2(old(self).0@, made) == self.0@);
                    }
                    return ;
                },
            }
        }
    }

    /// The checksum of the disk: the position of each block of a file
    /// times the number of the file, summed. Returns `None` where the sum
    /// is no machine integer.
    pub fn csum(&self) -> (res: Option<usize>)
        ensures
            res is Some ==> res.unwrap() == checksum(self.0@, self.0.len() as int),
            checksum(self.0@, self.0.len() as int) <= usize::MAX && end_of(
                self.0@,
                self.0.len() as int,
            ) <= usize::MAX ==> res is Some,
    {
        let ghost s = self.0@;
        let mut pos: usize = 0;
        let mut sum: usize = 0;
        let mut n: usize = 0;
        while n < self.0.len()
            invariant
                n <= self.0.len(),
                s == self.0@,
                pos == end_of(s, n as int),
                sum == checksum(s, n as int),
            decreases self.0.len() - n,
        {
            let block = self.0[n];
            proof {
                lemma_checksum_grows(s, n + 1, s.len() as int);
                lemma_checksum_grows(s, 0, n as int);
            }
            let next_pos = match pos.checked_add(block.size as usize) {
                Some(p) => p,
                None => {
                    return None;
                },
            };
            if let BlockKind::Id(0) = block.kind {
                assert(0 * span_sum(pos as int, next_pos as int) == 0) by (nonlinear_arith);
            } else if let BlockKind::Id(id) = block.kind {
                let mut cells: usize = 0;
                let mut p: usize = pos;
                while p < next_pos
                    invariant
                        pos <= p <= next_pos,
                        cells == span_sum(pos as int, p as int),
                        s == self.0@,
                        n < s.len(),
                        s[n as int].kind == BlockKind::Id(id),
                        id != 0,
                        pos == end_of(s, n as int),
                        next_pos == end_of(s, n + 1),
                        sum == checksum(s, n as int),
                    decreases next_pos - p,
                {
                    cells = match cells.checked_add(p) {
                        Some(c) => c,
                        None => {
                            proof {
                                lemma_overflow(s, n as int, id, pos as int, p as int, next_pos as int);
                            }
                            return None;
                        },
                    };
                    p += 1;
                }
                let term = match (id as usize).checked_mul(cells) {
                    Some(t) => t,
                    None => {
                        return None;
                    },
                };
                sum = match sum.checked_add(term) {
                    Some(t) => t,
                    None => {
                        return None;
                    },
                };
            }
            pos = next_pos;
            n += 1;
        }
        Some(sum)
    }

    /// Reads a disk from its map of digits. Fails where a character is no digit.
    pub fn try_from(value: &str) -> (res: Result<Self, &'static str>)
        ensures
            res is Ok <==> digits_of(value@, value@.len() as int) is Some,
            res is Ok ==> ({
                let digits = digits_of(value@, value@.len() as int).unwrap();
                &&& res->Ok_0.0.len() == digits.len()
                &&& forall|i: int| 0 <= i < digits.len() ==> #[trigger] res->Ok_0.0[i] == block_at(digits, i)
            }),
    {
        let all = text::chars(value);
        let mut digits: Vec<u32> = Vec::new();
        let mut i: usize = 0;
        while i < all.len()
            invariant
                all@ == value@,
                i <= all.len(),
                digits_of(all@, i as int) == Some(digits@),
                digits.len() == i,
            decreases all.len() - i,
        {
            let c = all[i];
            if !('0' <= c && c <= '9') {
                proof {
                    lemma_digits_stay_none(all@, i + 1, all.len() as int);
                }
                return Err("the map holds something that is no digit");
            }
            digits.push(c as u32 - '0' as u32);
            i += 1;
        }
        let groups = combine::chunks(&digits, 2);
        let ghost parts = combine::groups_view(groups@);
        let mut blocks: Vec<Block> = Vec::new();
        let mut g: usize = 0;
        while g < groups.len()
            invariant
                g <= groups.len(),
                parts == combine::groups_view(groups@),
                combine::groups_of(digits@, 2, parts),
                blocks.len() == if 2 * g <= digits.len() {
                    2 * g
                } else {
                    digits.len() as int
                },
                forall|k: int| 0 <= k < blocks.len() ==> #[trigger] blocks[k] == block_at(digits@, k),
            decreases groups.len() - g,
        {
            assert(parts[g as int] == groups[g as int]@);
            let chunk = &groups[g];
            if chunk.len() > 0 {
                blocks.push(Block { kind: BlockKind::Id(#[verifier::truncate] (g as u32)), size: chunk[0] });
            }
            if chunk.len() > 1 {
                blocks.push(Block { kind: BlockKind::Free, size: chunk[1] });
            }
            g += 1;
        }
        Ok(FileSystem(blocks))
    }

    /// The disk as text: see `render`.
    pub fn to_string(&self) -> (out: String)
        ensures
            out@ == render(self.0@, self.0.len() as int),
    {
        let mut chars: Vec<char> = Vec::new();
        let mut n: usize = 0;
        while n < self.0.len()
            invariant
                n <= self.0.len(),
                chars@ == render(self.0@, n as int),
            decreases self.0.len() - n,
        {
            let block = self.0[n];
            let word = match block.kind {
                BlockKind::Free => {
                    let mut w: Vec<char> = Vec::new();
                    w.push('.');
                    assert(w@ =~= seq!['.']);
                    w
                },
                BlockKind::Id(id) => text::decimal(id as u64),
            };
            let ghost before = chars@;
            let mut k: u32 = 0;
            while k < block.size
                invariant
                    k <= block.size,
                    chars@ == before + repeated(word@, k as int),
                decreases block.size - k,
            {
                let ghost held = chars@;
                let mut c: usize = 0;
                while c < word.len()
                    invariant
                        c <= word.len(),
                        chars@ == held + word@.take(c as int),
                    decreases word.len() - c,
                {
                    chars.push(word[c]);
                    assert(chars@ =~= held + word@.take(c + 1));
                    c += 1;
                }
                assert(word@.take(word.len() as int) =~= word@);
                assert(chars@ =~= before + (repeated(word@, k as int) + word@));
                k += 1;
            }
            n += 1;
        }
        text::string_of(&chars)
    }
}

/// A disk with the block of a file at place `i` holds a file.
pub proof fn lemma_keeps_file(s: Seq<Block>, i: int)
    requires
        0 <= i < s.len(),
        s[i].kind is Id,
    ensures
        trimmed(s).len() > 0,
    decreases s.len(),
{
    if s.last().kind is Free {
        assert(s.drop_last()[i] == s[i]);
        lemma_keeps_file(s.drop_last(), i);
    }
}

/// A list that was trimmed has nothing left to trim.
pub proof fn lemma_trimmed_twice(s: Seq<Block>)
    ensures
        trimmed(trimmed(s)) == trimmed(s),
    decreases s.len(),
{
    if s.len() > 0 && s.last().kind is Free {
        lemma_trimmed_twice(s.drop_last());
    }
}

/// Where the sum of the positions of a file is no machine integer, its
/// checksum is none either, unless the file has the number 0.
pub proof fn lemma_overflow(s: Seq<Block>, n: int, id: u32, pos: int, p: int, next_pos: int)
    requires
        0 <= n < s.len(),
        s[n].kind == BlockKind::Id(id),
        pos == end_of(s, n),
        next_pos == end_of(s, n + 1),
        0 <= pos <= p < next_pos,
        span_sum(pos, p) + p > usize::MAX,
    ensures
        id != 0 ==> checksum(s, s.len() as int) > usize::MAX,
        id == 0 ==> id * span_sum(pos, next_pos) == 0,
{
    lemma_span_grows(pos, p + 1, next_pos);
    lemma_checksum_grows(s, n + 1, s.len() as int);
    lemma_checksum_grows(s, 0, n);
    if id != 0 {
        assert(id * span_sum(pos, next_pos) >= span_sum(pos, next_pos)) by (nonlinear_arith)
            requires
                id >= 1,
                span_sum(pos, next_pos) >= 0,
        ;
    } else {
        assert(id * span_sum(pos, next_pos) == 0) by (nonlinear_arith)
            requires
                id == 0,
        ;
    }
}

/// A sum of positions grows with its span.
pub proof fn lemma_span_grows(from: int, mid: int, to: int)
    requires
        0 <= from <= mid <= to,
    ensures
        0 <= span_sum(from, mid) <= span_sum(from, to),
    decreases to - mid,
{
    lemma_span_sum(from, mid);
    if mid < to {
        lemma_span_grows(from, mid + 1, to);
    }
}

/// Where the files among the first `n` blocks begin on the disk, summed.
pub open spec fn weight(s: Seq<Block>, n: int) -> int
    decreases n,
{
    if n <= 0 {
        0
    } else {
        weight(s, n - 1) + if s[n - 1].kind is Id {
            end_of(s, n - 1)
        } else {
            0
        }
    }
}

/// The places of the files among the first `n` blocks, summed.
pub open spec fn rank(s: Seq<Block>, n: int) -> int
    decreases n,
{
    if n <= 0 {
        0
    } else {
        rank(s, n - 1) + if s[n - 1].kind is Id {
            n - 1
        } else {
            0
        }
    }
}

/// Whether the files of `t` begin earlier on the disk than those of `s`,
/// taken together; or as early, and then stand earlier in the list.
pub open spec fn settles(s: Seq<Block>, t: Seq<Block>) -> bool {
    let before = weight(s, s.len() as int);
    let after = weight(t, t.len() as int);
    after < before || (after == before && rank(t, t.len() as int) < rank(s, s.len() as int))
}

/// The sums over the files are never negative, and the blocks end no
/// earlier than blocks before them.
pub proof fn lemma_sums_bounds(s: Seq<Block>, m: int, n: int)
    requires
        0 <= m <= n,
    ensures
        0 <= end_of(s, m) <= end_of(s, n),
        0 <= weight(s, n),
        0 <= rank(s, n),
    decreases n,
{
    if n > 0 {
        if m < n {
            lemma_sums_bounds(s, m, n - 1);
        } else {
            lemma_sums_bounds(s, n - 1, n - 1);
        }
    }
}

/// Lists that agree on their first `n` blocks agree on the sums over them.
pub proof fn lemma_sums_of_equals(s: Seq<Block>, t: Seq<Block>, n: int)
    requires
        forall|k: int| 0 <= k < n ==> s[k] == t[k],
    ensures
        end_of(s, n) == end_of(t, n),
        weight(s, n) == weight(t, n),
        rank(s, n) == rank(t, n),
    decreases n,
{
    if n > 0 {
        lemma_sums_of_equals(s, t, n - 1);
    }
}

/// Lists whose first `n` blocks are of the same sizes end at the same
/// place.
pub proof fn lemma_end_of_sizes(s: Seq<Block>, t: Seq<Block>, n: int)
    requires
        forall|k: int| 0 <= k < n ==> s[k].size == t[k].size,
    ensures
        end_of(s, n) == end_of(t, n),
    decreases n,
{
    if n > 0 {
        lemma_end_of_sizes(s, t, n - 1);
    }
}

/// What a block adds to the sum of the beginnings, at the place `p` of a
/// list.
pub open spec fn share(s: Seq<Block>, b: Block, p: int) -> int {
    if b.kind is Id {
        end_of(s, p)
    } else {
        0
    }
}

/// What a block adds to the sum of the places, at the place `p`.
pub open spec fn place_share(b: Block, p: int) -> int {
    if b.kind is Id {
        p
    } else {
        0
    }
}

/// Where a block gives way to one of its size, the sums change by what
/// the two blocks add to them.
pub proof fn lemma_sums_after_change(s: Seq<Block>, p: int, b: Block, n: int)
    requires
        0 <= p < s.len(),
        p < n <= s.len(),
        b.size == s[p].size,
    ensures
        weight(s.update(p, b), n) == weight(s, n) + share(s, b, p) - share(s, s[p], p),
        rank(s.update(p, b), n) == rank(s, n) + place_share(b, p) - place_share(s[p], p),
    decreases n,
{
    let t = s.update(p, b);
    if n == p + 1 {
        lemma_sums_of_equals(s, t, p);
    } else {
        lemma_sums_after_change(s, p, b, n - 1);
        assert(t[n - 1] == s[n - 1]);
        assert forall|k: int| 0 <= k < n - 1 implies s[k].size == t[k].size by {}
        lemma_end_of_sizes(s, t, n - 1);
    }
}

/// The list with the free block at `j` parted in two free blocks, the
/// first of them of size `first`.
pub open spec fn parted(s: Seq<Block>, j: int, first: u32) -> Seq<Block> {
    s.take(j) + seq![
        Block { kind: BlockKind::Free, size: first },
        Block { kind: BlockKind::Free, size: (s[j].size - first) as u32 },
    ] + s.skip(j + 1)
}

/// Parting a free block in two moves no file on the disk.
pub proof fn lemma_sums_after_parting(s: Seq<Block>, j: int, first: u32, n: int)
    requires
        0 <= j < s.len(),
        s[j].kind is Free,
        first <= s[j].size,
        j < n <= s.len(),
    ensures
        end_of(parted(s, j, first), n + 1) == end_of(s, n),
        weight(parted(s, j, first), n + 1) == weight(s, n),
    decreases n,
{
    let t = parted(s, j, first);
    if n == j + 1 {
        assert forall|k: int| 0 <= k < j implies s[k] == t[k] by {}
        lemma_sums_of_equals(s, t, j);
        assert(t[j] == Block { kind: BlockKind::Free, size: first });
        assert(t[j + 1] == Block { kind: BlockKind::Free, size: (s[j].size - first) as u32 });
        assert(end_of(t, j + 2) == end_of(t, j + 1) + t[j + 1].size);
        assert(end_of(t, j + 1) == end_of(t, j) + t[j].size);
        assert(weight(t, j + 2) == weight(t, j + 1));
        assert(weight(t, j + 1) == weight(t, j));
    } else {
        lemma_sums_after_parting(s, j, first, n - 1);
        assert(t[n] == s[n - 1]);
    }
}

/// A file that moves whole into a free block before it begins earlier on
/// the disk, or as early and earlier in the list; the other files stay
/// where they are on the disk.
pub proof fn lemma_move_settles(s: Seq<Block>, i: int, j: int)
    requires
        0 <= j < i < s.len(),
        s[i].kind is Id,
        s[j].kind is Free,
        s[j].size >= s[i].size,
    ensures
        settles(s, moved(s, i, j)),
{
    let file = s[i];
    let room = s[j];
    let n = s.len() as int;
    let gone = Block { kind: BlockKind::Free, size: file.size };
    let freed = s.update(i, gone);
    let t = moved(s, i, j);
    lemma_sums_after_change(s, i, gone, n);
    assert forall|k: int| 0 <= k < n implies s[k].size == freed[k].size by {}
    lemma_end_of_sizes(s, freed, j);
    lemma_sums_bounds(s, j, i);
    lemma_sums_bounds(s, j + 1, i);
    assert(end_of(s, j + 1) == end_of(s, j) + room.size);
    if room.size > file.size {
        let cut = parted(freed, j, file.size);
        lemma_sums_after_parting(freed, j, file.size, n);
        assert(cut.len() == n + 1);
        assert(cut[j].size == file.size);
        lemma_sums_after_change(cut, j, file, n + 1);
        assert(t =~= cut.update(j, file));
        assert forall|k: int| 0 <= k < j implies cut[k] == freed[k] by {}
        lemma_sums_of_equals(cut, freed, j);
    } else {
        lemma_sums_after_change(freed, j, file, n);
        assert(t =~= freed.update(j, file));
    }
}

} // verus!
