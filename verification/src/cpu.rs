//! A register machine with three-bit instructions, and the search for the
//! register value that makes a program print itself.

use crate::combine;
use crate::text;
use vstd::prelude::*;

verus! {

/// The registers: three general ones and the last value put out.
#[derive(Clone, Copy, Debug)]
pub struct Regfile {
    pub a: u64,
    pub b: u64,
    pub c: u64,
    pub o: u8,
}

impl Default for Regfile {
    fn default() -> (res: Self)
        ensures
            res == (Regfile { a: 0, b: 0, c: 0, o: 0 }),
    {
        Regfile { a: 0, b: 0, c: 0, o: 0 }
    }
}

impl Regfile {
    /// Registers that hold `a` in the first register and nothing else.
    pub fn with_a(a: u64) -> (res: Self)
        ensures
            res == (Regfile { a, b: 0, c: 0, o: 0 }),
    {
        Regfile { a, b: 0, c: 0, o: 0 }
    }
}

/// The instruction memory.
pub struct Memory<'a>(pub &'a [u8]);

/// The machine: an instruction pointer, the registers and the program.
#[derive(Clone, Copy)]
pub struct Cpu<'a, 'memory> {
    pub ip: usize,
    pub regs: Regfile,
    pub mem: Option<&'a Memory<'memory>>,
}

/// The opcode of the conditional jump.
pub const JNZ: u8 = 3;

/// The value of a combo operand: the operand itself up to 3, then the
/// registers a, b and c.
pub open spec fn combo_of(operand: u8, regs: Regfile) -> u64 {
    if operand <= 3 {
        operand as u64
    } else if operand == 4 {
        regs.a
    } else if operand == 5 {
        regs.b
    } else {
        regs.c
    }
}

/// Whether the instruction `opcode` reads its operand as a combo operand.
pub open spec fn reads_combo(opcode: u8) -> bool {
    opcode == 0 || opcode == 2 || opcode == 5 || opcode == 6 || opcode == 7
}

/// Whether the instruction `opcode` divides register a by a power of two.
pub open spec fn divides(opcode: u8) -> bool {
    opcode == 0 || opcode == 6 || opcode == 7
}

/// Register a divided by two to the power of `shift`.
pub open spec fn quotient(a: u64, shift: u64) -> u64 {
    a / (1u64 << shift)
}

/// The registers after the instruction `opcode` with `operand` has worked on them.
pub open spec fn regs_after(opcode: u8, operand: u8, regs: Regfile) -> Regfile {
    let combo = combo_of(operand, regs);
    if opcode == 0 {
        Regfile { a: quotient(regs.a, combo), ..regs }
    } else if opcode == 1 {
        Regfile { b: regs.b ^ (operand as u64), ..regs }
    } else if opcode == 2 {
        Regfile { b: combo & 0b111, ..regs }
    } else if opcode == 4 {
        Regfile { b: regs.b ^ regs.c, ..regs }
    } else if opcode == 5 {
        Regfile { o: (combo & 0b111) as u8, ..regs }
    } else if opcode == 6 {
        Regfile { b: quotient(regs.a, combo), ..regs }
    } else if opcode == 7 {
        Regfile { c: quotient(regs.a, combo), ..regs }
    } else {
        regs
    }
}

/// The state of a machine apart from its program.
pub struct State {
    pub ip: int,
    pub regs: Regfile,
}

/// Whether the machine can execute the instruction at `s.ip`: the
/// instruction and its operand lie in the program, the opcode has three
/// bits, a combo operand is not the reserved 7, a division shifts by less
/// than 64 bits, and a jump that is taken lands in the program.
pub open spec fn can_step(program: Seq<u8>, s: State) -> bool {
    &&& 0 <= s.ip && s.ip + 1 < program.len()
    &&& program[s.ip] < 8
    &&& reads_combo(program[s.ip]) ==> program[s.ip + 1] <= 6
    &&& divides(program[s.ip]) ==> combo_of(program[s.ip + 1], s.regs) < 64
    &&& program[s.ip] == JNZ && s.regs.a != 0 ==> program[s.ip + 1] < program.len()
}

/// The instruction pointer after the instruction at `s.ip`: a jump that is
/// taken goes to its operand; then, unless the pointer rests on a jump, it
/// advances by two.
pub open spec fn ip_after(program: Seq<u8>, s: State) -> int {
    let landed = if program[s.ip] == JNZ && s.regs.a != 0 {
        program[s.ip + 1] as int
    } else {
        s.ip
    };
    if program[landed] != JNZ {
        landed + 2
    } else {
        landed
    }
}

/// The state after one instruction.
pub open spec fn step_of(program: Seq<u8>, s: State) -> State {
    State { ip: ip_after(program, s), regs: regs_after(program[s.ip], program[s.ip + 1], s.regs) }
}

/// How far a pass through the program is from its end: a machine that rests
/// on a jump has the whole pass before it.
pub open spec fn pass_room(program: Seq<u8>, ip: int) -> int {
    if 0 <= ip < program.len() && program[ip] == JNZ {
        2 * (program.len() as int) + 2
    } else if ip <= program.len() {
        program.len() as int - ip + 1
    } else {
        0
    }
}

/// The registers at the end of one pass through the program: instructions
/// run until the pointer rests on a jump. `None` if an instruction cannot
/// run or the pointer leaves the program first.
pub open spec fn pass_of(program: Seq<u8>, s: State) -> Option<Regfile>
    decreases pass_room(program, s.ip),
{
    if !can_step(program, s) {
        None
    } else {
        let t = step_of(program, s);
        if !(t.ip < program.len()) {
            None
        } else if program[t.ip] == JNZ {
            Some(t.regs)
        } else {
            pass_of(program, t)
        }
    }
}

/// `out` in front of what follows, where anything follows.
pub open spec fn then_outputs(out: Seq<u8>, rest: Option<Seq<u8>>) -> Option<Seq<u8>> {
    match rest {
        Some(more) => Some(out + more),
        None => None,
    }
}

/// What a machine puts out when it runs passes from the start of the
/// program until register a is zero at the end of one: the value of
/// register o after each pass. `None` if a pass fails or more than `fuel`
/// passes are needed.
pub open spec fn outputs_of(program: Seq<u8>, s: State, fuel: nat) -> Option<Seq<u8>>
    decreases fuel,
{
    if fuel == 0 {
        None
    } else {
        match pass_of(program, s) {
            None => None,
            Some(regs) => if regs.a == 0 {
                Some(seq![regs.o])
            } else {
                then_outputs(
                    seq![regs.o],
                    outputs_of(program, State { ip: 0, regs }, (fuel - 1) as nat),
                )
            },
        }
    }
}

/// The registers with which such a run ends: those at the end of the
/// pass that leaves register a at zero. `None` if a pass fails or more
/// than `fuel` passes are needed.
pub open spec fn rests_with(program: Seq<u8>, s: State, fuel: nat) -> Option<Regfile>
    decreases fuel,
{
    if fuel == 0 {
        None
    } else {
        match pass_of(program, s) {
            None => None,
            Some(regs) => if regs.a == 0 {
                Some(regs)
            } else {
                rests_with(program, State { ip: 0, regs }, (fuel - 1) as nat)
            },
        }
    }
}

/// `a` with `low` appended as its three lowest bits.
pub open spec fn extended(a: u64, low: u64) -> u64 {
    (a << 3) | low
}

impl<'a, 'memory> Cpu<'a, 'memory> {
    /// The program, or nothing where no memory is attached.
    pub open spec fn program(&self) -> Seq<u8> {
        match self.mem {
            Some(m) => m.0@,
            None => Seq::empty(),
        }
    }

    /// The machine's state.
    pub open spec fn state(&self) -> State {
        State { ip: self.ip as int, regs: self.regs }
    }

    /// Whether an operand follows the instruction pointer.
    pub open spec fn has_operand(&self) -> bool {
        self.mem is Some && self.ip + 1 < self.program().len()
    }

    /// A machine at the start, with empty registers and no program.
    pub fn new() -> (res: Self)
        ensures
            res.ip == 0,
            res.regs == (Regfile { a: 0, b: 0, c: 0, o: 0 }),
            res.mem is None,
    {
        Self { ip: 0, regs: Regfile::default(), mem: None }
    }

    /// The machine with the registers `regs`.
    pub fn with_regs(self, regs: Regfile) -> (res: Self)
        ensures
            res.ip == self.ip,
            res.regs == regs,
            res.mem == self.mem,
    {
        Self { ip: self.ip, regs, mem: self.mem }
    }

    /// The machine with the program `mem`.
    pub fn with_mem(self, mem: &'a Memory<'memory>) -> (res: Self)
        ensures
            res.ip == self.ip,
            res.regs == self.regs,
            res.mem == Some(mem),
    {
        Self { ip: self.ip, regs: self.regs, mem: Some(mem) }
    }

    /// The operand as a literal.
    pub fn literal(&self) -> (v: u64)
        requires
            self.has_operand(),
        ensures
            v == self.program()[self.ip + 1],
    {
        let mem = self.mem.unwrap().0;
        assert(self.ip + 1 < mem.len());
        mem[self.ip + 1] as u64
    }

    /// The operand as a combo operand.
    pub fn combo(&self) -> (v: u64)
        requires
            self.has_operand(),
            self.program()[self.ip + 1] <= 6,
        ensures
            v == combo_of(self.program()[self.ip + 1], self.regs),
    {
        let mem = self.mem.unwrap().0;
        assert(self.ip + 1 < mem.len());
        let operand = mem[self.ip + 1];
        if operand <= 3 {
            operand as u64
        } else if operand == 4 {
            self.regs.a
        } else if operand == 5 {
            self.regs.b
        } else {
            self.regs.c
        }
    }

    /// Whether `step` can run: see `can_step`.
    pub fn ready(&self) -> (ok: bool)
        ensures
            ok == (self.mem is Some && can_step(self.program(), self.state())),
    {
        let mem = match self.mem {
            Some(m) => m.0,
            None => {
                return false;
            },
        };
        if self.ip >= mem.len() || mem.len() - self.ip < 2 {
            return false;
        }
        let opcode = mem[self.ip];
        let operand = mem[self.ip + 1];
        if opcode >= 8 {
            return false;
        }
        let combo = opcode == 0 || opcode == 2 || opcode == 5 || opcode == 6 || opcode == 7;
        if combo && operand > 6 {
            return false;
        }
        if (opcode == 0 || opcode == 6 || opcode == 7) && self.combo() >= 64 {
            return false;
        }
        if opcode == 3 && self.regs.a != 0 && operand as usize >= mem.len() {
            return false;
        }
        true
    }

    /// Executes the instruction at the instruction pointer and moves the
    /// pointer on.
    pub fn step(&mut self)
        requires
            old(self).mem is Some,
            can_step(old(self).program(), old(self).state()),
        ensures
            final(self).state() == step_of(old(self).program(), old(self).state()),
            final(self).mem == old(self).mem,
    {
        let opcode = self.mem.unwrap().0[self.ip];
        if opcode == 0b000 {
            self.adv();
        } else if opcode == 0b001 {
            self.bxl();
        } else if opcode == 0b010 {
            self.bst();
        } else if opcode == 0b011 {
            self.jnz();
        } else if opcode == 0b100 {
            self.bxc();
        } else if opcode == 0b101 {
            self.out();
        } else if opcode == 0b110 {
            self.bdv();
        } else {
            self.cdv();
        }
        if self.mem.unwrap().0[self.ip] != 0b011 {
            self.ip = self.ip + 2;
        }
    }

    /// Divides register a by two to the power of the combo operand.
    pub fn adv(&mut self)
        requires
            old(self).has_operand(),
            old(self).program()[old(self).ip + 1] <= 6,
            combo_of(old(self).program()[old(self).ip + 1], old(self).regs) < 64,
        ensures
            final(self).regs == regs_after(0, old(self).program()[old(self).ip + 1], old(self).regs),
            final(self).ip == old(self).ip,
            final(self).mem == old(self).mem,
    {
        let shift = self.combo();
        assert((1u64 << shift) != 0) by (bit_vector)
            requires
                shift < 64,
        ;
        self.regs.a = self.regs.a / (1u64 << shift);
    }

    /// Mixes the literal operand into register b by exclusive or.
    pub fn bxl(&mut self)
        requires
            old(self).has_operand(),
        ensures
            final(self).regs == regs_after(1, old(self).program()[old(self).ip + 1], old(self).regs),
            final(self).ip == old(self).ip,
            final(self).mem == old(self).mem,
    {
        self.regs.b = self.regs.b ^ self.literal();
    }

    /// Stores the low three bits of the combo operand in register b.
    pub fn bst(&mut self)
        requires
            old(self).has_operand(),
            old(self).program()[old(self).ip + 1] <= 6,
        ensures
            final(self).regs == regs_after(2, old(self).program()[old(self).ip + 1], old(self).regs),
            final(self).ip == old(self).ip,
            final(self).mem == old(self).mem,
    {
        self.regs.b = self.combo() & 0b111;
    }

    /// Jumps to the literal operand unless register a is zero.
    pub fn jnz(&mut self)
        requires
            old(self).has_operand(),
        ensures
            final(self).regs == old(self).regs,
            final(self).ip == if old(self).regs.a != 0 {
                old(self).program()[old(self).ip + 1] as usize
            } else {
                old(self).ip
            },
            final(self).mem == old(self).mem,
    {
        if self.regs.a != 0 {
            self.ip = self.literal() as usize;
        }
    }

    /// Mixes register c into register b by exclusive or.
    pub fn bxc(&mut self)
        ensures
            final(self).regs == (Regfile { b: old(self).regs.b ^ old(self).regs.c, ..old(self).regs }),
            final(self).ip == old(self).ip,
            final(self).mem == old(self).mem,
    {
        self.regs.b = self.regs.b ^ self.regs.c;
    }

    /// Puts out the low three bits of the combo operand.
    pub fn out(&mut self)
        requires
            old(self).has_operand(),
            old(self).program()[old(self).ip + 1] <= 6,
        ensures
            final(self).regs == regs_after(5, old(self).program()[old(self).ip + 1], old(self).regs),
            final(self).ip == old(self).ip,
            final(self).mem == old(self).mem,
    {
        let combo = self.combo();
        let v = combo & 0b111;
        assert(v < 8) by (bit_vector)
            requires
                v == combo & 0b111,
        ;
        self.regs.o = v as u8;
    }

    /// Stores register a divided by two to the power of the combo operand in register b.
    pub fn bdv(&mut self)
        requires
            old(self).has_operand(),
            old(self).program()[old(self).ip + 1] <= 6,
            combo_of(old(self).program()[old(self).ip + 1], old(self).regs) < 64,
        ensures
            final(self).regs == regs_after(6, old(self).program()[old(self).ip + 1], old(self).regs),
            final(self).ip == old(self).ip,
            final(self).mem == old(self).mem,
    {
        let shift = self.combo();
        assert((1u64 << shift) != 0) by (bit_vector)
            requires
                shift < 64,
        ;
        self.regs.b = self.regs.a / (1u64 << shift);
    }

    /// Stores register a divided by two to the power of the combo operand in register c.
    pub fn cdv(&mut self)
        requires
            old(self).has_operand(),
            old(self).program()[old(self).ip + 1] <= 6,
            combo_of(old(self).program()[old(self).ip + 1], old(self).regs) < 64,
        ensures
            final(self).regs == regs_after(7, old(self).program()[old(self).ip + 1], old(self).regs),
            final(self).ip == old(self).ip,
            final(self).mem == old(self).mem,
    {
        let shift = self.combo();
        assert((1u64 << shift) != 0) by (bit_vector)
            requires
                shift < 64,
        ;
        self.regs.c = self.regs.a / (1u64 << shift);
    }

    /// Runs one pass through the program and returns the registers at its
    /// end, with the instruction pointer back at the start. Returns `None`,
    /// with the machine where it stopped, if an instruction cannot run.
    pub fn run_single_loop(&mut self) -> (res: Option<Regfile>)
        ensures
            final(self).mem == old(self).mem,
            old(self).mem is None ==> res is None,
            old(self).mem is Some ==> res == pass_of(old(self).program(), old(self).state()),
            res is Some ==> final(self).ip == 0 && final(self).regs == res.unwrap(),
    {
        if self.mem.is_none() {
            return None;
        }
        let ghost program = self.program();
        loop
            invariant
                self.mem is Some,
                self.mem == old(self).mem,
                program == self.program(),
                pass_of(program, self.state()) == pass_of(program, old(self).state()),
            decreases pass_room(program, self.ip as int),
        {
            if !self.ready() {
                return None;
            }
            self.step();
            let mem = self.mem.unwrap().0;
            if self.ip >= mem.len() {
                return None;
            }
            if mem[self.ip] == 0b011 {
                self.ip = 0;
                return Some(self.regs);
            }
        }
    }

    /// Runs passes until register a is zero at the end of one, and returns
    /// what the passes put out; the machine then rests at the start of the
    /// program with the registers of the last pass. Returns `None` if a pass
    /// fails or the machine is still running after `fuel` passes.
    pub fn run(&mut self, fuel: usize) -> (res: Option<Vec<u8>>)
        ensures
            final(self).mem == old(self).mem,
            old(self).mem is None ==> res is None,
            old(self).mem is Some ==> match outputs_of(
                old(self).program(),
                old(self).state(),
                fuel as nat,
            ) {
                Some(out) => res is Some && res.unwrap()@ == out,
                None => res is None,
            },
            res is Some ==> final(self).ip == 0 && final(self).regs.a == 0 && Some(final(self).regs) == rests_with(
                old(self).program(),
                old(self).state(),
                fuel as nat,
            ),
    {
        let mut outputs: Vec<u8> = Vec::new();
        let ghost program = self.program();
        let ghost start = self.state();
        let mut left = fuel;
        assert(then_outputs(outputs@, outputs_of(program, start, fuel as nat)) =~= outputs_of(
            program,
            start,
            fuel as nat,
        ));
        while left > 0
            invariant
                self.mem == old(self).mem,
                program == self.program(),
                program == old(self).program(),
                start == old(self).state(),
                old(self).mem is Some ==> outputs_of(program, start, fuel as nat) == then_outputs(
                    outputs@,
                    outputs_of(program, self.state(), left as nat),
                ),
                old(self).mem is Some ==> rests_with(program, start, fuel as nat) == rests_with(
                    program,
                    self.state(),
                    left as nat,
                ),
            decreases left,
        {
            let ghost before = outputs@;
            let ghost s = self.state();
            assert(outputs_of(program, s, left as nat) == match pass_of(program, s) {
                None => None,
                Some(regs) => if regs.a == 0 {
                    Some(seq![regs.o])
                } else {
                    then_outputs(
                        seq![regs.o],
                        outputs_of(program, State { ip: 0, regs }, (left - 1) as nat),
                    )
                },
            });
            assert(rests_with(program, s, left as nat) == match pass_of(program, s) {
                None => None,
                Some(regs) => if regs.a == 0 {
                    Some(regs)
                } else {
                    rests_with(program, State { ip: 0, regs }, (left - 1) as nat)
                },
            });
            let regs = match self.run_single_loop() {
                Some(regs) => regs,
                None => {
                    return None;
                },
            };
            outputs.push(regs.o);
            if regs.a == 0 {
                assert(before + seq![regs.o] =~= outputs@);
                return Some(outputs);
            }
            left -= 1;
            proof {
                let rest = outputs_of(program, self.state(), left as nat);
                assert(self.state() == (State { ip: 0, regs }));
                if rest is Some {
                    assert(before + (seq![regs.o] + rest.unwrap()) =~= outputs@ + rest.unwrap());
                }
            }
        }
        None
    }
}

/// Whether a tape read so far is the tape `goal`.
pub fn equals_tape(tape: &Vec<u8>, goal: &[u8]) -> (same: bool)
    ensures
        same == (tape@ == goal@),
{
    if tape.len() != goal.len() {
        return false;
    }
    let mut i: usize = 0;
    while i < tape.len()
        invariant
            i <= tape.len(),
            tape.len() == goal.len(),
            forall|k: int| 0 <= k < i ==> tape[k] == goal[k],
        ensures
            i == tape.len() || tape@ != goal@,
        decreases tape.len() - i,
    {
        if tape[i] != goal[i] {
            assert(tape@[i as int] != goal@[i as int]);
            break ;
        }
        i += 1;
    }
    if i == tape.len() {
        assert(tape@ =~= goal@);
        true
    } else {
        false
    }
}

/// Compares an output with a tape.
pub fn same_tape(out: &Option<Vec<u8>>, goal: &[u8]) -> (same: bool)
    ensures
        same == match out {
            Some(v) => v@ == goal@,
            None => false,
        },
{
    match out {
        None => false,
        Some(v) => equals_tape(v, goal),
    }
}

/// Whether the machine `cpu`, started with register a set to `a` and the
/// others cleared, puts out exactly `goal` within `fuel` passes.
pub open spec fn reproduces(cpu: Cpu, a: u64, goal: Seq<u8>, fuel: nat) -> bool {
    cpu.mem is Some && outputs_of(
        cpu.program(),
        State { ip: cpu.ip as int, regs: Regfile { a, b: 0, c: 0, o: 0 } },
        fuel,
    ) == Some(goal)
}

/// The values among `extended(a, 0)`, ... , `extended(a, n - 1)` that make
/// the machine put out `goal`, in rising order of the bits appended.
pub open spec fn extensions(cpu: Cpu, a: u64, goal: Seq<u8>, fuel: nat, n: nat) -> Seq<u64>
    decreases n,
{
    if n == 0 {
        Seq::empty()
    } else {
        let found = extensions(cpu, a, goal, fuel, (n - 1) as nat);
        let candidate = extended(a, (n - 1) as u64);
        if reproduces(cpu, candidate, goal, fuel) {
            found.push(candidate)
        } else {
            found
        }
    }
}

/// The values that extend `a` by three low bits and make the machine put
/// out `goal`, each pass counted against `fuel`.
pub fn extend_a<'a, 'memory>(cpu: &Cpu<'a, 'memory>, a: u64, goal: &[u8], fuel: usize) -> (res: Vec<
    u64,
>)
    ensures
        res@ == extensions(*cpu, a, goal@, fuel as nat, 8),
        forall|i: int| 0 <= i < res.len() ==> reproduces(*cpu, #[trigger] res[i], goal@, fuel as nat),
{
    let mut extended_as: Vec<u64> = Vec::new();
    let mut low: u64 = 0;
    while low < 8
        invariant
            low <= 8,
            extended_as@ == extensions(*cpu, a, goal@, fuel as nat, low as nat),
            forall|i: int|
                0 <= i < extended_as.len() ==> reproduces(
                    *cpu,
                    #[trigger] extended_as[i],
                    goal@,
                    fuel as nat,
                ),
        decreases 8 - low,
    {
        let extended_a = (a << 3) | low;
        let mut cpu1 = cpu.with_regs(Regfile::with_a(extended_a));
        let out = cpu1.run(fuel);
        if same_tape(&out, goal) {
            extended_as.push(extended_a);
        }
        low += 1;
    }
    extended_as
}

/// The outputs written in decimal, one after the other.
pub open spec fn written(outputs: Seq<u8>) -> Seq<Seq<char>> {
    outputs.map_values(|o: u8| text::decimal_of(o as nat))
}

/// The outputs as text: in decimal, with commas between them.
pub fn render_outputs(outputs: &Vec<u8>) -> (s: String)
    ensures
        s@ == combine::joined(written(outputs@), seq![',']),
{
    let mut parts: Vec<String> = Vec::new();
    let mut i: usize = 0;
    while i < outputs.len()
        invariant
            i <= outputs.len(),
            combine::strings_view(parts@) == written(outputs@).take(i as int),
        decreases outputs.len() - i,
    {
        let digits = text::decimal(outputs[i] as u64);
        let part = text::string_of(&digits);
        let ghost held = combine::strings_view(parts@);
        parts.push(part);
        assert(combine::strings_view(parts@) =~= held.push(text::decimal_of(outputs[i as int] as nat)));
        assert(written(outputs@).take(i + 1) =~= written(outputs@).take(i as int).push(
            text::decimal_of(outputs[i as int] as nat),
        ));
        i += 1;
    }
    assert(written(outputs@).take(outputs.len() as int) =~= written(outputs@));
    proof {
        reveal_strlit(",");
        assert(","@ =~= seq![',']);
    }
    combine::join(&parts, ",")
}

/// The last `k` values of a program.
pub open spec fn last_of(program: Seq<u8>, k: int) -> Seq<u8> {
    program.skip(program.len() - k)
}

/// Whether `b` extends `a` by three bits and makes the machine put out
/// the last `k + 1` values of the program.
pub open spec fn grows(cpu: Cpu, program: Seq<u8>, fuel: nat, a: u64, k: int, b: u64) -> bool {
    exists|low: u64| #[trigger]
        extended(a, low) == b && low < 8 && reproduces(cpu, b, last_of(program, k + 1), fuel)
}

/// Whether `s` is reached from `a`, which makes the machine put out the
/// last `k` values of the program, by extending it three bits at a time so
/// that each extension makes the machine put out one more of the last
/// values, until it puts out the whole program.
pub open spec fn descends(cpu: Cpu, program: Seq<u8>, fuel: nat, a: u64, k: int, s: u64) -> bool
    decreases program.len() - k,
{
    if k >= program.len() {
        s == a
    } else {
        exists|b: u64| #[trigger] grows(cpu, program, fuel, a, k, b) && descends(cpu, program, fuel, b, k + 1, s)
    }
}

/// Whether `s` is a seed that the search finds: it is reached from zero.
pub open spec fn is_seed(cpu: Cpu, program: Seq<u8>, fuel: nat, s: u64) -> bool {
    descends(cpu, program, fuel, 0, 0, s)
}

/// A seed that the search finds makes the machine put out the program
/// itself.
pub proof fn lemma_seed_reproduces(cpu: Cpu, program: Seq<u8>, fuel: nat, a: u64, k: int, s: u64)
    requires
        0 <= k < program.len(),
        descends(cpu, program, fuel, a, k, s),
    ensures
        reproduces(cpu, s, program, fuel),
    decreases program.len() - k,
{
    let b = choose|b: u64| #[trigger]
        grows(cpu, program, fuel, a, k, b) && descends(cpu, program, fuel, b, k + 1, s);
    if k + 1 >= program.len() {
        assert(s == b);
        assert(last_of(program, k + 1) =~= program);
    } else {
        lemma_seed_reproduces(cpu, program, fuel, b, k + 1, s);
    }
}

/// The extensions are the values that grow from `a`.
pub proof fn lemma_extensions(cpu: Cpu, a: u64, goal: Seq<u8>, fuel: nat, n: nat, b: u64)
    ensures
        extensions(cpu, a, goal, fuel, n).contains(b) <==> exists|low: u64| #[trigger]
            extended(a, low) == b && low < n && reproduces(cpu, b, goal, fuel),
    decreases n,
{
    if n > 0 {
        lemma_extensions(cpu, a, goal, fuel, (n - 1) as nat, b);
        let found = extensions(cpu, a, goal, fuel, (n - 1) as nat);
        let candidate = extended(a, (n - 1) as u64);
        let all = extensions(cpu, a, goal, fuel, n);
        if reproduces(cpu, candidate, goal, fuel) {
            assert(all == found.push(candidate));
            assert(all[found.len() as int] == candidate);
            if found.contains(b) {
                let i = choose|i: int| 0 <= i < found.len() && found[i] == b;
                assert(all[i] == b);
            }
            if all.contains(b) {
                let i = choose|i: int| 0 <= i < all.len() && all[i] == b;
                if i < found.len() {
                    assert(found[i] == b);
                } else {
                    assert(extended(a, (n - 1) as u64) == b);
                }
            }
        }
        if exists|low: u64| #[trigger] extended(a, low) == b && low < n && reproduces(cpu, b, goal, fuel) {
            let low = choose|low: u64| #[trigger]
                extended(a, low) == b && low < n && reproduces(cpu, b, goal, fuel);
            if low < n - 1 {
                assert(extended(a, low) == b && low < n - 1);
            } else {
                assert(candidate == b);
            }
        }
    }
}

/// The last `k` values of a program.
pub fn tail_of(program: &[u8], k: usize) -> (tail: Vec<u8>)
    requires
        k <= program.len(),
    ensures
        tail@ == last_of(program@, k as int),
{
    let start = program.len() - k;
    let mut tail: Vec<u8> = Vec::new();
    let mut i: usize = start;
    while i < program.len()
        invariant
            start <= i <= program.len(),
            tail@ == program@.subrange(start as int, i as int),
        decreases program.len() - i,
    {
        tail.push(program[i]);
        assert(tail@ =~= program@.subrange(start as int, i + 1));
        i += 1;
    }
    assert(program@.subrange(start as int, program.len() as int) =~= program@.skip(start as int));
    tail
}

/// Adds to `found` every seed that is reached from `a`, which makes the
/// machine put out the last `k` values of the program.
pub fn collect_seeds<'a, 'memory>(
    cpu: &Cpu<'a, 'memory>,
    a: u64,
    k: usize,
    program: &[u8],
    fuel: usize,
    found: &mut Vec<u64>,
)
    requires
        k <= program.len(),
    ensures
        forall|s: u64|
            #![trigger final(found)@.contains(s)]
            final(found)@.contains(s) <==> old(found)@.contains(s) || descends(
                *cpu,
                program@,
                fuel as nat,
                a,
                k as int,
                s,
            ),
    decreases program.len() - k,
{
    let ghost before = found@;
    if k >= program.len() {
        found.push(a);
        assert(found@[before.len() as int] == a);
        assert forall|s: u64| #![trigger found@.contains(s)] found@.contains(s) <==> before.contains(s) || s
            == a by {
            if before.contains(s) {
                let i = choose|i: int| 0 <= i < before.len() && before[i] == s;
                assert(found@[i] == s);
            }
            if found@.contains(s) {
                let i = choose|i: int| 0 <= i < found@.len() && found@[i] == s;
                if i < before.len() {
                    assert(before[i] == s);
                }
            }
        }
        return ;
    }
    let goal = tail_of(program, k + 1);
    let extended_as = extend_a(cpu, a, goal.as_slice(), fuel);
    let mut i: usize = 0;
    while i < extended_as.len()
        invariant
            i <= extended_as.len(),
            k < program.len(),
            goal@ == last_of(program@, k + 1),
            extended_as@ == extensions(*cpu, a, goal@, fuel as nat, 8),
            forall|s: u64|
                #![trigger found@.contains(s)]
                found@.contains(s) <==> before.contains(s) || exists|j: int|
                    0 <= j < i && #[trigger] descends(
                        *cpu,
                        program@,
                        fuel as nat,
                        extended_as[j],
                        k + 1,
                        s,
                    ),
        decreases extended_as.len() - i,
    {
        let ghost held = found@;
        collect_seeds(cpu, extended_as[i], k + 1, program, fuel, found);
        assert forall|s: u64|
            #![trigger found@.contains(s)]
            found@.contains(s) <==> before.contains(s) || exists|j: int|
                0 <= j < i + 1 && #[trigger] descends(
                    *cpu,
                    program@,
                    fuel as nat,
                    extended_as[j],
                    k + 1,
                    s,
                ) by {
            if found@.contains(s) && !held.contains(s) {
                assert(descends(*cpu, program@, fuel as nat, extended_as[i as int], k + 1, s));
            }
            if held.contains(s) {
                assert(found@.contains(s));
            }
        }
        i += 1;
    }
    proof {
        assert forall|s: u64|
            #![trigger found@.contains(s)]
            found@.contains(s) <==> before.contains(s) || descends(
                *cpu,
                program@,
                fuel as nat,
                a,
                k as int,
                s,
            ) by {
            if found@.contains(s) && !before.contains(s) {
                let j = choose|j: int|
                    0 <= j < extended_as.len() && #[trigger] descends(
                        *cpu,
                        program@,
                        fuel as nat,
                        extended_as[j],
                        k + 1,
                        s,
                    );
                let b = extended_as[j];
                lemma_extensions(*cpu, a, goal@, fuel as nat, 8, b);
                assert(extended_as@.contains(b));
                assert(grows(*cpu, program@, fuel as nat, a, k as int, b));
            }
            if descends(*cpu, program@, fuel as nat, a, k as int, s) {
                let b = choose|b: u64| #[trigger]
                    grows(*cpu, program@, fuel as nat, a, k as int, b) && descends(
                        *cpu,
                        program@,
                        fuel as nat,
                        b,
                        k + 1,
                        s,
                    );
                lemma_extensions(*cpu, a, goal@, fuel as nat, 8, b);
                assert(extended_as@.contains(b));
                let j = choose|j: int| 0 <= j < extended_as.len() && extended_as[j] == b;
                assert(descends(*cpu, program@, fuel as nat, extended_as[j], k + 1, s));
            }
        }
    }
}

/// The lowest seed that the search finds, if it finds one: see `is_seed`.
pub fn find_seed<'a, 'memory>(cpu: &Cpu<'a, 'memory>, program: &[u8], fuel: usize) -> (res: Option<u64>)
    ensures
        match res {
            Some(seed) => is_seed(*cpu, program@, fuel as nat, seed) && forall|s: u64| #[trigger]
                is_seed(*cpu, program@, fuel as nat, s) ==> seed <= s,
            None => forall|s: u64| !#[trigger] is_seed(*cpu, program@, fuel as nat, s),
        },
        res is Some && program.len() > 0 ==> reproduces(*cpu, res.unwrap(), program@, fuel as nat),
{
    let mut found: Vec<u64> = Vec::new();
    collect_seeds(cpu, 0, 0, program, fuel, &mut found);
    assert forall|s: u64| #![trigger found@.contains(s)] found@.contains(s) <==> is_seed(
        *cpu,
        program@,
        fuel as nat,
        s,
    ) by {
        assert(!Seq::<u64>::empty().contains(s));
    }
    if found.len() == 0 {
        assert forall|s: u64| !#[trigger] is_seed(*cpu, program@, fuel as nat, s) by {
            if is_seed(*cpu, program@, fuel as nat, s) {
                assert(found@.contains(s));
            }
        }
        return None;
    }
    let mut best = found[0];
    let mut i: usize = 1;
    while i < found.len()
        invariant
            1 <= i <= found.len(),
            found@.contains(best),
            forall|j: int| 0 <= j < i ==> best <= found[j],
        decreases found.len() - i,
    {
        if found[i] < best {
            best = found[i];
        }
        i += 1;
    }
    proof {
        assert forall|s: u64| #[trigger] is_seed(*cpu, program@, fuel as nat, s) implies best <= s by {
            assert(found@.contains(s));
            let j = choose|j: int| 0 <= j < found.len() && found[j] == s;
            assert(best <= found[j]);
        }
        if program.len() > 0 {
            lemma_seed_reproduces(*cpu, program@, fuel as nat, 0, 0, best);
        }
    }
    Some(best)
}

} // verus!
