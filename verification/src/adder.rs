//! A circuit of gates that is meant to add two numbers, and the gates that
//! are not wired as a ripple-carry adder wires them.

use crate::text;
use vstd::prelude::*;

verus! {

/// The code that stands for a missing character of a name.
pub const NO_CHAR: u32 = 0x110000;

/// A wire: a bit of one of the two inputs, a bit of the output, or an
/// inner wire known by the characters of its name.
#[derive(PartialEq, Eq, Hash, Clone, Copy, Debug, Structural)]
pub enum Wire {
    X(usize),
    Y(usize),
    Z(usize),
    Other(u32, u32, u32),
}

/// The operation of a gate.
#[derive(PartialEq, Eq, Hash, Clone, Copy, Debug, Structural)]
pub enum GateKind {
    And,
    Or,
    Xor,
}

/// A gate: its two inputs, its kind and its output.
#[derive(PartialEq, Eq, Hash, Clone, Copy, Debug, Structural)]
pub struct Gate {
    pub kind: GateKind,
    pub a: Wire,
    pub b: Wire,
    pub o: Wire,
}

/// How many bytes a character takes in UTF-8.
pub open spec fn bytes_in(c: char) -> int {
    if (c as u32) < 0x80 {
        1
    } else if (c as u32) < 0x800 {
        2
    } else if (c as u32) < 0x10000 {
        3
    } else {
        4
    }
}

/// How many bytes a name takes in UTF-8.
pub open spec fn bytes_of(name: Seq<char>) -> int
    decreases name.len(),
{
    if name.len() == 0 {
        0
    } else {
        bytes_of(name.drop_last()) + bytes_in(name.last())
    }
}

/// The code of the character at `i`, or of no character.
pub open spec fn code_at(name: Seq<char>, i: int) -> u32 {
    if i < name.len() {
        name[i] as u32
    } else {
        NO_CHAR
    }
}

/// The number of a bit that two bytes write: two digits, or a plus sign
/// and a digit.
pub open spec fn bit_of(hi: char, lo: char) -> Option<usize> {
    if text::is_digit(hi) && text::is_digit(lo) {
        Some((10 * text::digit_value(hi) + text::digit_value(lo)) as usize)
    } else if hi == '+' && text::is_digit(lo) {
        Some(text::digit_value(lo) as usize)
    } else {
        None
    }
}

/// The wire that a name of three bytes stands for. A name that starts with
/// `x`, `y` or `z` must go on with the number of a bit.
pub open spec fn wire_of(name: Seq<char>) -> Option<Wire> {
    if bytes_of(name) != 3 {
        None
    } else if name[0] == 'x' || name[0] == 'y' || name[0] == 'z' {
        if name.len() == 3 {
            match bit_of(name[1], name[2]) {
                Some(n) => Some(
                    if name[0] == 'x' {
                        Wire::X(n)
                    } else if name[0] == 'y' {
                        Wire::Y(n)
                    } else {
                        Wire::Z(n)
                    },
                ),
                None => None,
            }
        } else {
            None
        }
    } else {
        Some(Wire::Other(code_at(name, 0), code_at(name, 1), code_at(name, 2)))
    }
}

/// The kind of gate that a word names.
pub open spec fn kind_of(word: Seq<char>) -> Option<GateKind> {
    if word == seq!['A', 'N', 'D'] {
        Some(GateKind::And)
    } else if word == seq!['O', 'R'] {
        Some(GateKind::Or)
    } else if word == seq!['X', 'O', 'R'] {
        Some(GateKind::Xor)
    } else {
        None
    }
}

/// What a line such as `x00 AND y00 -> z00` describes: a gate.
pub open spec fn gate_of(line: Seq<char>) -> Option<Gate> {
    let parts = text::words_of(line);
    if parts.len() < 5 {
        None
    } else {
        match (wire_of(parts[0]), kind_of(parts[1]), wire_of(parts[2]), wire_of(parts[4])) {
            (Some(a), Some(kind), Some(b), Some(o)) => Some(Gate { kind, a, b, o }),
            _ => None,
        }
    }
}

/// A name never takes fewer bytes than it has characters.
pub proof fn lemma_bytes_of(name: Seq<char>)
    ensures
        bytes_of(name) >= name.len(),
        name.len() == 3 ==> bytes_of(name) == bytes_in(name[0]) + bytes_in(name[1]) + bytes_in(name[2]),
        name.len() == 2 ==> bytes_of(name) == bytes_in(name[0]) + bytes_in(name[1]),
        name.len() == 1 ==> bytes_of(name) == bytes_in(name[0]),
        name.len() == 0 ==> bytes_of(name) == 0,
    decreases name.len(),
{
    if name.len() > 0 {
        lemma_bytes_of(name.drop_last());
        let front = name.drop_last();
        if name.len() == 3 {
            assert(front[0] == name[0] && front[1] == name[1]);
        } else if name.len() == 2 {
            assert(front[0] == name[0]);
        }
    }
}

/// How many bytes a character takes in UTF-8.
pub fn utf8_len(c: char) -> (n: usize)
    ensures
        n == bytes_in(c),
{
    let code = c as u32;
    if code < 0x80 {
        1
    } else if code < 0x800 {
        2
    } else if code < 0x10000 {
        3
    } else {
        4
    }
}

impl Wire {
    /// Reads a wire from its name.
    pub fn try_from(name: &Vec<char>) -> (res: Result<Wire, &'static str>)
        ensures
            res is Ok <==> wire_of(name@) is Some,
            res is Ok ==> Some(res->Ok_0) == wire_of(name@),
    {
        proof {
            lemma_bytes_of(name@);
        }
        if name.len() == 0 || name.len() > 3 {
            return Err("meh");
        }
        let mut size: usize = 0;
        let mut i: usize = 0;
        while i < name.len()
            invariant
                i <= name.len() <= 3,
                size == bytes_of(name@.take(i as int)),
                size <= 4 * i,
            decreases name.len() - i,
        {
            assert(name@.take(i + 1).drop_last() =~= name@.take(i as int));
            size += utf8_len(name[i]);
            i += 1;
        }
        assert(name@.take(name.len() as int) =~= name@);
        if size != 3 {
            return Err("meh");
        }
        let first = name[0];
        if first == 'x' || first == 'y' || first == 'z' {
            if name.len() != 3 {
                return Err("a bit has no number");
            }
            let hi = name[1];
            let lo = name[2];
            let n: usize = if '0' <= hi && hi <= '9' && '0' <= lo && lo <= '9' {
                (10 * (hi as u32 - '0' as u32) + (lo as u32 - '0' as u32)) as usize
            } else if hi == '+' && '0' <= lo && lo <= '9' {
                (lo as u32 - '0' as u32) as usize
            } else {
                return Err("a bit has no number");
            };
            if first == 'x' {
                Ok(Wire::X(n))
            } else if first == 'y' {
                Ok(Wire::Y(n))
            } else {
                Ok(Wire::Z(n))
            }
        } else {
            let c1 = if name.len() > 1 {
                name[1] as u32
            } else {
                NO_CHAR
            };
            let c2 = if name.len() > 2 {
                name[2] as u32
            } else {
                NO_CHAR
            };
            Ok(Wire::Other(first as u32, c1, c2))
        }
    }
}

impl Gate {
    /// Reads a gate from a line such as `x00 AND y00 -> z00`.
    pub fn try_from(line: &Vec<char>) -> (res: Result<Gate, &'static str>)
        ensures
            res is Ok <==> gate_of(line@) is Some,
            res is Ok ==> Some(res->Ok_0) == gate_of(line@),
    {
        let parts = text::words(line);
        if parts.len() < 5 {
            return Err("a gate needs five words");
        }
        let ghost names = text::words_of(line@);
        assert(names[0] == parts[0]@ && names[1] == parts[1]@ && names[2] == parts[2]@ && names[4]
            == parts[4]@);
        let a = match Wire::try_from(&parts[0]) {
            Ok(w) => w,
            Err(e) => {
                return Err(e);
            },
        };
        let b = match Wire::try_from(&parts[2]) {
            Ok(w) => w,
            Err(e) => {
                return Err(e);
            },
        };
        let o = match Wire::try_from(&parts[4]) {
            Ok(w) => w,
            Err(e) => {
                return Err(e);
            },
        };
        let word = &parts[1];
        let kind = if word.len() == 3 && word[0] == 'A' && word[1] == 'N' && word[2] == 'D' {
            assert(word@ =~= seq!['A', 'N', 'D']);
            GateKind::And
        } else if word.len() == 2 && word[0] == 'O' && word[1] == 'R' {
            assert(word@ =~= seq!['O', 'R']);
            GateKind::Or
        } else if word.len() == 3 && word[0] == 'X' && word[1] == 'O' && word[2] == 'R' {
            assert(word@ =~= seq!['X', 'O', 'R']);
            GateKind::Xor
        } else {
            proof {
                let and = seq!['A', 'N', 'D'];
                let or = seq!['O', 'R'];
                let xor = seq!['X', 'O', 'R'];
                assert(and.len() == 3 && and[0] == 'A' && and[1] == 'N' && and[2] == 'D');
                assert(or.len() == 2 && or[0] == 'O' && or[1] == 'R');
                assert(xor.len() == 3 && xor[0] == 'X' && xor[1] == 'O' && xor[2] == 'R');
            }
            return Err("ding");
        };
        Ok(Gate { kind, a, b, o })
    }
}

/// Whether a gate reads `wire`.
pub open spec fn reads(g: Gate, wire: Wire) -> bool {
    g.a == wire || g.b == wire
}

/// The gates among the first `n` that read `wire`, in their order.
pub open spec fn consumers(gates: Seq<Gate>, wire: Wire, n: int) -> Seq<Gate>
    decreases n,
{
    if n <= 0 {
        Seq::empty()
    } else if reads(gates[n - 1], wire) {
        consumers(gates, wire, n - 1).push(gates[n - 1])
    } else {
        consumers(gates, wire, n - 1)
    }
}

/// Whether two wires are the same bit of the two inputs, but not bit 0.
pub open spec fn input_pair(a: Wire, b: Wire) -> bool {
    match (a, b) {
        (Wire::X(i), Wire::Y(j)) => i == j && i != 0,
        (Wire::Y(j), Wire::X(i)) => i == j && i != 0,
        _ => false,
    }
}

/// Whether two wires are both inner wires.
pub open spec fn inner_pair(a: Wire, b: Wire) -> bool {
    a is Other && b is Other
}

/// Whether an exclusive-or gate that drives a bit of the output is among `gs`.
pub open spec fn has_sum_gate(gs: Seq<Gate>) -> bool {
    exists|i: int| 0 <= i < gs.len() && (#[trigger] gs[i]).kind == GateKind::Xor && gs[i].o is Z
}

/// Whether an and gate is among `gs`.
pub open spec fn has_and_gate(gs: Seq<Gate>) -> bool {
    exists|i: int| 0 <= i < gs.len() && (#[trigger] gs[i]).kind == GateKind::And
}

/// Whether an output feeds one or gate and nothing else, as a carry does.
pub open spec fn feeds_carry(gs: Seq<Gate>) -> bool {
    gs.len() == 1 && gs[0].kind == GateKind::Or
}

/// Whether an output feeds the two gates of the next bit: the
/// exclusive-or gate of its sum and an and gate.
pub open spec fn feeds_next_bit(gs: Seq<Gate>) -> bool {
    gs.len() == 2 && has_sum_gate(gs) && has_and_gate(gs)
}

/// Whether a gate is not wired as a ripple-carry adder with an output of
/// `bits` bits wires it. An and gate of two input bits other than bit 0, or
/// of two inner wires, must feed a carry. An or gate must read two inner
/// wires and, unless it drives the highest bit of the output, feed the next
/// bit. An exclusive-or gate of two input bits other than bit 0 must feed
/// the next bit.
pub open spec fn suspicious(gates: Seq<Gate>, bits: int, g: Gate) -> bool {
    let gs = consumers(gates, g.o, gates.len() as int);
    match g.kind {
        GateKind::And => (input_pair(g.a, g.b) || inner_pair(g.a, g.b)) && !feeds_carry(gs),
        GateKind::Or => if inner_pair(g.a, g.b) {
            g.o != Wire::Z((bits - 1) as usize) && !feeds_next_bit(gs)
        } else {
            true
        },
        GateKind::Xor => input_pair(g.a, g.b) && !feeds_next_bit(gs),
    }
}

/// The suspicious gates among the first `n`, in their order.
pub open spec fn suspects(gates: Seq<Gate>, bits: int, n: int) -> Seq<Gate>
    decreases n,
{
    if n <= 0 {
        Seq::empty()
    } else if suspicious(gates, bits, gates[n - 1]) {
        suspects(gates, bits, n - 1).push(gates[n - 1])
    } else {
        suspects(gates, bits, n - 1)
    }
}

/// Whether `g` is one of the first `n` gates, and suspicious.
pub open spec fn suspect_among(gates: Seq<Gate>, bits: int, n: int, g: Gate) -> bool {
    suspicious(gates, bits, g) && exists|i: int| 0 <= i < n && #[trigger] gates[i] == g
}

/// The suspects are the gates that are suspicious, and where no gate is
/// listed twice, no suspect is.
pub proof fn lemma_suspects(gates: Seq<Gate>, bits: int, n: int)
    requires
        0 <= n <= gates.len(),
    ensures
        forall|g: Gate| #[trigger] suspects(gates, bits, n).contains(g) <==> suspect_among(gates, bits, n, g),
        gates.no_duplicates() ==> suspects(gates, bits, n).no_duplicates(),
    decreases n,
{
    let now = suspects(gates, bits, n);
    if n > 0 {
        lemma_suspects(gates, bits, n - 1);
        let before = suspects(gates, bits, n - 1);
        let last = gates[n - 1];
        assert forall|g: Gate| #[trigger] now.contains(g) <==> suspect_among(gates, bits, n, g) by {
            if now.contains(g) {
                let k = choose|k: int| 0 <= k < now.len() && now[k] == g;
                if k < before.len() {
                    assert(before[k] == g);
                    assert(before.contains(g));
                    assert(suspect_among(gates, bits, n - 1, g));
                    let i = choose|i: int| 0 <= i < n - 1 && #[trigger] gates[i] == g;
                    assert(gates[i] == g);
                } else {
                    assert(g == last);
                }
            }
            if suspect_among(gates, bits, n, g) {
                let i = choose|i: int| 0 <= i < n && #[trigger] gates[i] == g;
                if i < n - 1 {
                    assert(suspect_among(gates, bits, n - 1, g));
                    assert(before.contains(g));
                    let k = choose|k: int| 0 <= k < before.len() && before[k] == g;
                    assert(now[k] == g);
                } else {
                    assert(now[before.len() as int] == g);
                }
            }
        }
        if gates.no_duplicates() && suspicious(gates, bits, last) {
            assert(!before.contains(last)) by {
                if before.contains(last) {
                    assert(suspect_among(gates, bits, n - 1, last));
                    let i = choose|i: int| 0 <= i < n - 1 && #[trigger] gates[i] == last;
                    assert(gates[i] == gates[n - 1]);
                }
            }
            assert forall|a: int, b: int| 0 <= a < now.len() && 0 <= b < now.len() && a != b implies now[a] != now[b] by {
                if a < before.len() && b < before.len() {
                    assert(before[a] != before[b]);
                } else if a < before.len() {
                    assert(before.contains(before[a]));
                } else {
                    assert(before.contains(before[b]));
                }
            }
        }
    } else {
        assert forall|g: Gate| #[trigger] now.contains(g) <==> suspect_among(gates, bits, n, g) by {}
    }
}

/// The circuit: its wires and its gates, each listed once. It adds two
/// numbers of `I` bits to one of `O` bits.
pub struct FruitMonitor<const I: usize, const O: usize> {
    pub wires: Vec<Wire>,
    pub gates: Vec<Gate>,
}

/// Whether `list` holds the wire `w`.
pub fn holds_wire(list: &Vec<Wire>, w: Wire) -> (found: bool)
    ensures
        found == list@.contains(w),
{
    let mut i: usize = 0;
    while i < list.len()
        invariant
            i <= list.len(),
            forall|k: int| 0 <= k < i ==> list[k] != w,
        decreases list.len() - i,
    {
        if list[i] == w {
            return true;
        }
        i += 1;
    }
    false
}

/// Whether `list` holds `g`.
pub fn holds_gate(list: &Vec<Gate>, g: Gate) -> (found: bool)
    ensures
        found == list@.contains(g),
{
    let mut i: usize = 0;
    while i < list.len()
        invariant
            i <= list.len(),
            forall|k: int| 0 <= k < i ==> list[k] != g,
        decreases list.len() - i,
    {
        if list[i] == g {
            return true;
        }
        i += 1;
    }
    false
}

impl<const I: usize, const O: usize> FruitMonitor<I, O> {
    /// The gates that read `wire`, in the order of the circuit.
    pub fn find_consumers(&self, wire: &Wire) -> (res: Vec<Gate>)
        ensures
            res@ == consumers(self.gates@, *wire, self.gates.len() as int),
    {
        let mut res: Vec<Gate> = Vec::new();
        let mut i: usize = 0;
        while i < self.gates.len()
            invariant
                i <= self.gates.len(),
                res@ == consumers(self.gates@, *wire, i as int),
            decreases self.gates.len() - i,
        {
            let gate = self.gates[i];
            if *wire == gate.a || *wire == gate.b {
                res.push(gate);
            }
            i += 1;
        }
        res
    }

    /// The gates that are not wired as a ripple-carry adder wires them, in
    /// the order of the circuit.
    pub fn find_sus(&self) -> (sus: Vec<Gate>)
        requires
            O >= 1,
        ensures
            sus@ == suspects(self.gates@, O as int, self.gates.len() as int),
            forall|g: Gate| #[trigger]
                sus@.contains(g) <==> self.gates@.contains(g) && suspicious(self.gates@, O as int, g),
            self.gates@.no_duplicates() ==> sus@.no_duplicates(),
    {
        proof {
            lemma_suspects(self.gates@, O as int, self.gates.len() as int);
            assert forall|g: Gate|
                suspect_among(self.gates@, O as int, self.gates.len() as int, g) <==> self.gates@.contains(g)
                    && suspicious(self.gates@, O as int, g) by {
                if self.gates@.contains(g) {
                    let i = choose|i: int| 0 <= i < self.gates@.len() && self.gates@[i] == g;
                    assert(self.gates@[i] == g);
                }
            }
        }
        let mut sus: Vec<Gate> = Vec::new();
        let mut i: usize = 0;
        while i < self.gates.len()
            invariant
                O >= 1,
                i <= self.gates.len(),
                sus@ == suspects(self.gates@, O as int, i as int),
            decreases self.gates.len() - i,
        {
            let gate = self.gates[i];
            let gs = self.find_consumers(&gate.o);
            let input_pair = match (gate.a, gate.b) {
                (Wire::X(i), Wire::Y(j)) => i == j && i != 0,
                (Wire::Y(j), Wire::X(i)) => i == j && i != 0,
                _ => false,
            };
            let inner_pair = match (gate.a, gate.b) {
                (Wire::Other(_, _, _), Wire::Other(_, _, _)) => true,
                _ => false,
            };
            let feeds_carry = gs.len() == 1 && gs[0].kind == GateKind::Or;
            let feeds_next_bit = gs.len() == 2 && has_kind(&gs, GateKind::Xor, true) && has_kind(
                &gs,
                GateKind::And,
                false,
            );
            let is_sus = match gate.kind {
                GateKind::And => (input_pair || inner_pair) && !feeds_carry,
                GateKind::Or => if inner_pair {
                    gate.o != Wire::Z(O - 1) && !feeds_next_bit
                } else {
                    true
                },
                GateKind::Xor => input_pair && !feeds_next_bit,
            };
            if is_sus {
                sus.push(gate);
            }
            i += 1;
        }
        sus
    }

    /// Reads the circuit from the second block of a text, one gate on each
    /// line. Fails where there is no second block or a line describes no gate.
    pub fn try_from(value: &str) -> (res: Result<Self, &'static str>)
        ensures
            ({
                let parts = text::blocks_of(value@);
                match circuit_of(parts) {
                    Some(gates) => res is Ok && res->Ok_0.gates@.to_set() == gates.to_set()
                        && res->Ok_0.gates@.no_duplicates() && res->Ok_0.wires@.no_duplicates()
                        && forall|w: Wire|
                        #![trigger res->Ok_0.wires@.contains(w)]
                        res->Ok_0.wires@.contains(w) <==> exists|i: int|
                            0 <= i < gates.len() && touches(#[trigger] gates[i], w),
                    None => res is Err,
                }
            }),
    {
        let all = text::chars(value);
        let parts = text::blocks(&all);
        if parts.len() < 2 {
            return Err("the circuit is missing");
        }
        assert(text::views(parts@)[1] == parts[1]@);
        let lines = text::lines(&parts[1]);
        let ghost rows = text::lines_of(parts[1]@);
        let mut wires: Vec<Wire> = Vec::new();
        let mut gates: Vec<Gate> = Vec::new();
        let ghost mut read: Seq<Gate> = Seq::empty();
        let mut i: usize = 0;
        while i < lines.len()
            invariant
                i <= lines.len(),
                rows == text::views(lines@),
                text::blocks_of(value@).len() >= 2,
                rows == text::lines_of(text::blocks_of(value@)[1]),
                gates_of(rows, i as int) == Some(read),
                gates@.to_set() == read.to_set(),
                gates@.no_duplicates(),
                wires@.no_duplicates(),
                forall|w: Wire|
                    wires@.contains(w) <==> exists|k: int| 0 <= k < read.len() && touches(#[trigger] read[k], w),
            decreases lines.len() - i,
        {
            assert(rows[i as int] == lines[i as int]@);
            let gate = match Gate::try_from(&lines[i]) {
                Ok(g) => g,
                Err(e) => {
                    proof {
                        lemma_gates_stay_none(rows, i + 1, rows.len() as int);
                    }
                    return Err(e);
                },
            };
            let ghost before = read;
            let ghost old_wires = wires@;
            let ghost old_gates = gates@;
            proof {
                read = read.push(gate);
            }
            add_wire(&mut wires, gate.a);
            add_wire(&mut wires, gate.b);
            add_wire(&mut wires, gate.o);
            if !holds_gate(&gates, gate) {
                gates.push(gate);
            }
            proof {
                assert forall|w: Wire|
                    wires@.contains(w) <==> exists|k: int| 0 <= k < read.len() && touches(#[trigger] read[k], w) by {
                    if wires@.contains(w) {
                        if old_wires.contains(w) {
                            let k = choose|k: int| 0 <= k < before.len() && touches(#[trigger] before[k], w);
                            assert(read[k] == before[k]);
                        } else {
                            assert(touches(read[before.len() as int], w));
                        }
                    }
                    if exists|k: int| 0 <= k < read.len() && touches(#[trigger] read[k], w) {
                        let k = choose|k: int| 0 <= k < read.len() && touches(#[trigger] read[k], w);
                        if k < before.len() {
                            assert(read[k] == before[k]);
                            assert(old_wires.contains(w));
                        }
                    }
                }
                assert(gates@.to_set() =~= read.to_set()) by {
                    assert forall|g: Gate| gates@.to_set().contains(g) <==> read.to_set().contains(g) by {
                        if gates@.contains(g) {
                            if old_gates.contains(g) {
                                assert(old_gates.to_set().contains(g));
                                assert(before.contains(g));
                                let k = choose|k: int| 0 <= k < before.len() && before[k] == g;
                                assert(read[k] == g);
                            } else {
                                assert(read[before.len() as int] == g);
                            }
                        }
                        if read.contains(g) {
                            let k = choose|k: int| 0 <= k < read.len() && read[k] == g;
                            if k < before.len() {
                                assert(before[k] == g);
                                assert(before.to_set().contains(g));
                                assert(old_gates.contains(g));
                                let j = choose|j: int| 0 <= j < old_gates.len() && old_gates[j] == g;
                                assert(gates@[j] == g);
                            } else {
                                assert(g == gate);
                                if old_gates.contains(g) {
                                    let j = choose|j: int| 0 <= j < old_gates.len() && old_gates[j] == g;
                                    assert(gates@[j] == g);
                                } else {
                                    assert(gates@[old_gates.len() as int] == g);
                                }
                            }
                        }
                    }
                }
            }
            i += 1;
        }
        Ok(FruitMonitor { wires, gates })
    }
}

/// Whether a gate reads or drives `w`.
pub open spec fn touches(g: Gate, w: Wire) -> bool {
    g.a == w || g.b == w || g.o == w
}

/// The gates that the first `n` lines describe, or `None` if one of them
/// describes no gate.
pub open spec fn gates_of(lines: Seq<Seq<char>>, n: int) -> Option<Seq<Gate>>
    decreases n,
{
    if n <= 0 {
        Some(Seq::empty())
    } else {
        match (gates_of(lines, n - 1), gate_of(lines[n - 1])) {
            (Some(before), Some(g)) => Some(before.push(g)),
            _ => None,
        }
    }
}

/// The gates that the second block of a text describes.
pub open spec fn circuit_of(parts: Seq<Seq<char>>) -> Option<Seq<Gate>> {
    if parts.len() < 2 {
        None
    } else {
        gates_of(text::lines_of(parts[1]), text::lines_of(parts[1]).len() as int)
    }
}

/// Once a line describes no gate, no later line mends it.
pub proof fn lemma_gates_stay_none(lines: Seq<Seq<char>>, m: int, n: int)
    requires
        0 <= m <= n,
        gates_of(lines, m) is None,
    ensures
        gates_of(lines, n) is None,
    decreases n - m,
{
    if m < n {
        assert(gates_of(lines, m + 1) is None);
        lemma_gates_stay_none(lines, m + 1, n);
    }
}

/// Adds a wire to a list unless the list holds it.
pub fn add_wire(wires: &mut Vec<Wire>, w: Wire)
    requires
        old(wires)@.no_duplicates(),
    ensures
        final(wires)@.no_duplicates(),
        forall|v: Wire|
            #![trigger final(wires)@.contains(v)]
            #![trigger old(wires)@.contains(v)]
            final(wires)@.contains(v) <==> old(wires)@.contains(v) || v == w,
{
    let ghost before = wires@;
    if !holds_wire(wires, w) {
        wires.push(w);
        assert(wires@[before.len() as int] == w);
        assert forall|v: Wire| before.contains(v) implies wires@.contains(v) by {
            let k = choose|k: int| 0 <= k < before.len() && before[k] == v;
            assert(wires@[k] == v);
        }
    }
}

/// Whether a gate of the kind `kind` is among `gs`, one that drives a bit
/// of the output where `to_output` asks for it.
pub fn has_kind(gs: &Vec<Gate>, kind: GateKind, to_output: bool) -> (found: bool)
    ensures
        found == exists|i: int| 0 <= i < gs.len() && (#[trigger] gs[i]).kind == kind && (to_output ==> gs[i].o is Z),
        kind == GateKind::Xor && to_output ==> found == has_sum_gate(gs@),
        kind == GateKind::And && !to_output ==> found == has_and_gate(gs@),
{
    let mut i: usize = 0;
    while i < gs.len()
        invariant
            i <= gs.len(),
            forall|k: int|
                0 <= k < i ==> !((#[trigger] gs[k]).kind == kind && (to_output ==> gs[k].o is Z)),
        decreases gs.len() - i,
    {
        let is_z = match gs[i].o {
            Wire::Z(_) => true,
            _ => false,
        };
        if gs[i].kind == kind && (!to_output || is_z) {
            return true;
        }
        i += 1;
    }
    false
}

/// Whether a code is the code of a character.
pub open spec fn is_scalar(code: u32) -> bool {
    code < 0xD800 || 0xE000 <= code <= 0x10FFFF
}

/// The character with the code `code`.
pub open spec fn char_for(code: u32) -> char {
    code as char
}

/// The character with the code `code` as text, or nothing where the code
/// stands for no character.
pub open spec fn letter(code: u32) -> Seq<char> {
    if is_scalar(code) {
        seq![char_for(code)]
    } else {
        Seq::empty()
    }
}

/// A wire as text: a bit of a number as `x[3]`, an inner wire by its name.
pub open spec fn wire_text(w: Wire) -> Seq<char> {
    match w {
        Wire::X(n) => seq!['x', '['] + text::decimal_of(n as nat) + seq![']'],
        Wire::Y(n) => seq!['y', '['] + text::decimal_of(n as nat) + seq![']'],
        Wire::Z(n) => seq!['z', '['] + text::decimal_of(n as nat) + seq![']'],
        Wire::Other(a, b, c) => letter(a) + letter(b) + letter(c),
    }
}

/// The sign of a kind of gate.
pub open spec fn kind_char(kind: GateKind) -> char {
    match kind {
        GateKind::And => '&',
        GateKind::Or => '|',
        GateKind::Xor => '^',
    }
}

/// A gate as an assignment, such as `assign z[0] = x[0] ^ y[0];`.
pub open spec fn gate_text(g: Gate) -> Seq<char> {
    "assign "@ + wire_text(g.o) + " = "@ + wire_text(g.a) + seq![' ', kind_char(g.kind), ' '] + wire_text(g.b)
        + seq![';']
}

/// The declarations of the inner wires among the first `n` wires, a line
/// each.
pub open spec fn wires_text(wires: Seq<Wire>, n: int) -> Seq<char>
    decreases n,
{
    if n <= 0 {
        Seq::empty()
    } else if wires[n - 1] is Other {
        wires_text(wires, n - 1) + "    wire "@ + wire_text(wires[n - 1]) + seq![';', '\n']
    } else {
        wires_text(wires, n - 1)
    }
}

/// The assignments of the first `n` gates, a line each.
pub open spec fn gates_text(gates: Seq<Gate>, n: int) -> Seq<char>
    decreases n,
{
    if n <= 0 {
        Seq::empty()
    } else {
        gates_text(gates, n - 1) + "    "@ + gate_text(gates[n - 1]) + seq!['\n']
    }
}

/// The head of the module: its name and its three ports, for inputs of
/// `i` bits and an output of `o` bits.
pub open spec fn head_text(i: int, o: int) -> Seq<char> {
    "module FruitMonitor (\n    input wire ["@ + text::decimal_of((i - 1) as nat) + ":0] x,\n    input wire ["@
        + text::decimal_of((i - 1) as nat) + ":0] y,\n    output wire ["@ + text::decimal_of((o - 1) as nat)
        + ":0] z\n);\n\n"@
}

/// The circuit as a module: its head, the declarations of its inner
/// wires, an empty line, its assignments, and its end.
pub open spec fn module_text(i: int, o: int, wires: Seq<Wire>, gates: Seq<Gate>) -> Seq<char> {
    head_text(i, o) + wires_text(wires, wires.len() as int) + seq!['\n'] + gates_text(gates, gates.len() as int)
        + "\nendmodule\n"@
}

/// The code of a character stands for that character.
pub proof fn lemma_letter(c: char)
    ensures
        is_scalar(c as u32),
        letter(c as u32) == seq![c],
{
    vstd::utf8::char_u32_cast(c, c as u32);
}

/// An inner wire is written as the name that it was read from.
pub proof fn lemma_inner_wire_keeps_its_name(name: Seq<char>)
    requires
        wire_of(name) is Some,
        wire_of(name).unwrap() is Other,
    ensures
        wire_text(wire_of(name).unwrap()) == name,
{
    lemma_bytes_of(name);
    assert(name.len() <= 3);
    assert(name.len() >= 1) by {
        if name.len() == 0 {
            assert(bytes_of(name) == 0);
        }
    }
    if name.len() >= 1 {
        lemma_letter(name[0]);
    }
    if name.len() >= 2 {
        lemma_letter(name[1]);
    }
    if name.len() >= 3 {
        lemma_letter(name[2]);
    }
    assert(!is_scalar(NO_CHAR));
    assert(wire_text(wire_of(name).unwrap()) =~= name);
}

/// The character with the code `code`, if there is one. Wraps std's
/// `char::from_u32`, which gives the character whose code is the number,
/// and nothing for the numbers that are the code of no character.
#[verifier::external_body]
fn scalar_char(code: u32) -> (c: Option<char>)
    ensures
        c is Some <==> is_scalar(code),
        c is Some ==> c.unwrap() as u32 == code,
{
    char::from_u32(code)
}

/// Adds the character with the code `code` to `out`, where there is one.
pub fn push_letter(out: &mut Vec<char>, code: u32)
    ensures
        final(out)@ == old(out)@ + letter(code),
{
    match scalar_char(code) {
        Some(c) => {
            proof {
                vstd::utf8::char_u32_cast(c, code);
            }
            assert(c == char_for(code));
            out.push(c);
            assert(out@ =~= old(out)@ + letter(code));
        },
        None => {
            assert(out@ =~= old(out)@ + letter(code));
        },
    }
}

impl Wire {
    /// Adds the wire as text to `out`: see `wire_text`.
    pub fn write(&self, out: &mut Vec<char>)
        ensures
            final(out)@ == old(out)@ + wire_text(*self),
    {
        let ghost before = out@;
        match *self {
            Wire::X(n) => {
                out.push('x');
                out.push('[');
                let digits = text::decimal(n as u64);
                text::append(out, &digits);
                out.push(']');
                assert(out@ =~= before + wire_text(*self));
            },
            Wire::Y(n) => {
                out.push('y');
                out.push('[');
                let digits = text::decimal(n as u64);
                text::append(out, &digits);
                out.push(']');
                assert(out@ =~= before + wire_text(*self));
            },
            Wire::Z(n) => {
                out.push('z');
                out.push('[');
                let digits = text::decimal(n as u64);
                text::append(out, &digits);
                out.push(']');
                assert(out@ =~= before + wire_text(*self));
            },
            Wire::Other(a, b, c) => {
                push_letter(out, a);
                push_letter(out, b);
                push_letter(out, c);
                assert(out@ =~= before + wire_text(*self));
            },
        }
    }

    /// The wire as text: see `wire_text`.
    pub fn to_string(&self) -> (s: String)
        ensures
            s@ == wire_text(*self),
    {
        let mut out: Vec<char> = Vec::new();
        self.write(&mut out);
        assert(out@ =~= wire_text(*self));
        text::string_of(&out)
    }
}

impl GateKind {
    /// The sign of the kind: see `kind_char`.
    pub fn to_char(&self) -> (c: char)
        ensures
            c == kind_char(*self),
    {
        match self {
            GateKind::And => '&',
            GateKind::Or => '|',
            GateKind::Xor => '^',
        }
    }

    /// The sign of the kind as text.
    pub fn to_string(&self) -> (s: String)
        ensures
            s@ == seq![kind_char(*self)],
    {
        let mut out: Vec<char> = Vec::new();
        out.push(self.to_char());
        text::string_of(&out)
    }
}

impl Gate {
    /// Adds the assignment of this gate to `out`: see `gate_text`.
    pub fn write(&self, out: &mut Vec<char>)
        ensures
            final(out)@ == old(out)@ + gate_text(*self),
    {
        let ghost before = out@;
        text::append_str(out, "assign ");
        self.o.write(out);
        text::append_str(out, " = ");
        self.a.write(out);
        out.push(' ');
        out.push(self.kind.to_char());
        out.push(' ');
        self.b.write(out);
        out.push(';');
        assert(out@ =~= before + gate_text(*self));
    }

    /// The assignment of this gate: see `gate_text`.
    pub fn to_string(&self) -> (s: String)
        ensures
            s@ == gate_text(*self),
    {
        let mut out: Vec<char> = Vec::new();
        self.write(&mut out);
        assert(out@ =~= gate_text(*self));
        text::string_of(&out)
    }
}

impl<const I: usize, const O: usize> FruitMonitor<I, O> {
    /// The circuit as a module: see `module_text`.
    pub fn to_string(&self) -> (s: String)
        requires
            I >= 1,
            O >= 1,
        ensures
            s@ == module_text(I as int, O as int, self.wires@, self.gates@),
    {
        let mut out: Vec<char> = Vec::new();
        let ins = text::decimal((I - 1) as u64);
        let outs = text::decimal((O - 1) as u64);
        text::append_str(&mut out, "module FruitMonitor (\n    input wire [");
        text::append(&mut out, &ins);
        text::append_str(&mut out, ":0] x,\n    input wire [");
        text::append(&mut out, &ins);
        text::append_str(&mut out, ":0] y,\n    output wire [");
        text::append(&mut out, &outs);
        text::append_str(&mut out, ":0] z\n);\n\n");
        assert(out@ =~= head_text(I as int, O as int));
        let ghost head = out@;
        let mut i: usize = 0;
        assert(out@ =~= head + wires_text(self.wires@, 0));
        while i < self.wires.len()
            invariant
                i <= self.wires.len(),
                out@ == head + wires_text(self.wires@, i as int),
            decreases self.wires.len() - i,
        {
            let ghost before = out@;
            match self.wires[i] {
                Wire::Other(_, _, _) => {
                    text::append_str(&mut out, "    wire ");
                    self.wires[i].write(&mut out);
                    out.push(';');
                    out.push('\n');
                    assert(out@ =~= head + wires_text(self.wires@, i + 1));
                },
                _ => {
                    assert(out@ =~= head + wires_text(self.wires@, i + 1));
                },
            }
            i += 1;
        }
        out.push('\n');
        let ghost middle = out@;
        let mut k: usize = 0;
        assert(out@ =~= middle + gates_text(self.gates@, 0));
        while k < self.gates.len()
            invariant
                k <= self.gates.len(),
                out@ == middle + gates_text(self.gates@, k as int),
            decreases self.gates.len() - k,
        {
            text::append_str(&mut out, "    ");
            self.gates[k].write(&mut out);
            out.push('\n');
            assert(out@ =~= middle + gates_text(self.gates@, k + 1));
            k += 1;
        }
        text::append_str(&mut out, "\nendmodule\n");
        assert(out@ =~= module_text(I as int, O as int, self.wires@, self.gates@));
        text::string_of(&out)
    }
}

} // verus!
