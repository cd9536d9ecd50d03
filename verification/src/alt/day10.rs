//! Cathode-ray tube again, with the signal strengths and the picture that the processor
//! draws while it runs.

use std::collections::VecDeque;
use vstd::prelude::*;
use vstd::string::StringExecFns;
use crate::day10::{
    abs, fetched, lemma_run_load, lemma_ticked_load, lemma_weights_not_negative, load,
    program_weight, queue_weight, run, started, ticked, CpuModel, Op,
};
use crate::text::{gather, i64_value, lines, lines_seq, parse_i64, split_once, split_once_seq,
    str_eq, texts};

verus! {

/// An instruction.
#[derive(Copy, Clone, Debug, PartialEq)]
pub enum Instruction {
    Noop,
    Addx(i64),
}

/// What an instruction is to specifications.
pub open spec fn op_of(i: Instruction) -> Op {
    match i {
        Instruction::Noop => Op::Noop,
        Instruction::Addx(x) => Op::Addx(x as int),
    }
}

/// What a program is to specifications.
pub open spec fn ops_of(program: Seq<Instruction>) -> Seq<Op> {
    Seq::new(program.len(), |i: int| op_of(program[i]))
}

/// Numbers as unbounded integers.
pub open spec fn ints(q: Seq<i64>) -> Seq<int> {
    Seq::new(q.len(), |i: int| q[i] as int)
}

/// The processor.
pub struct Cpu {
    pub instructions: VecDeque<Instruction>,
    pub cycle: i64,
    pub register: i64,
    pub tick_queue: VecDeque<i64>,
}

impl View for Cpu {
    type V = CpuModel;

    open spec fn view(&self) -> CpuModel {
        CpuModel {
            instructions: ops_of(self.instructions@),
            cycle: self.cycle as int,
            register: self.register as int,
            tick_queue: ints(self.tick_queue@),
        }
    }
}

/// The strength of the signal: the register times the number of the cycle.
pub open spec fn strength(m: CpuModel) -> int {
    m.register * m.cycle
}

/// Whether the sprite, three pixels wide around the register, covers the pixel that the
/// cycle draws; a row has 40 pixels.
pub open spec fn lit(m: CpuModel) -> bool {
    let crt = (m.cycle - 1) % 40;
    m.register - 1 <= crt <= m.register + 1
}

/// The cycles at which the signal is measured.
pub open spec fn measured() -> Seq<i64> {
    seq![20i64, 60i64, 100i64, 140i64, 180i64, 220i64]
}

/// The strength of the signal during cycle `cycle` of a program.
pub open spec fn strength_at(program: Seq<Op>, cycle: int) -> int {
    strength(run(started(program, 1), cycle - 1))
}

/// The sum of the signal strengths of a program at the first `n` of the given cycles.
pub open spec fn strength_sum(program: Seq<Op>, cycles: Seq<i64>, n: int) -> int
    decreases n,
{
    if n <= 0 {
        0
    } else {
        strength_sum(program, cycles, n - 1) + strength_at(program, cycles[n - 1] as int)
    }
}

/// The pixel that a program draws as its `p`-th, counting from 0.
pub open spec fn pixel(program: Seq<Op>, p: int) -> char {
    if lit(run(started(program, 1), p)) {
        '#'
    } else {
        '.'
    }
}

/// Row `r` of the picture, with the line feed that ends it.
pub open spec fn row_text(program: Seq<Op>, r: int) -> Seq<char> {
    Seq::new(
        41,
        |j: int|
            if j == 40 {
                '\n'
            } else {
                pixel(program, 40 * r + j)
            },
    )
}

/// The first `rows` rows of the picture.
pub open spec fn picture(program: Seq<Op>, rows: int) -> Seq<char>
    decreases rows,
{
    if rows <= 0 {
        Seq::empty()
    } else {
        picture(program, rows - 1) + row_text(program, rows - 1)
    }
}

/// What a line says: `noop`, whatever follows it after a space, or `addx`, a space and a
/// number.
pub open spec fn parse_instruction(line: Seq<char>) -> Option<Instruction> {
    let (ins, val) = match split_once_seq(line, seq![' ']) {
        Some(parts) => parts,
        None => (line, Seq::empty()),
    };
    if ins == seq!['n', 'o', 'o', 'p'] {
        Some(Instruction::Noop)
    } else if ins == seq!['a', 'd', 'd', 'x'] {
        match i64_value(val) {
            Some(x) => Some(Instruction::Addx(x)),
            None => None,
        }
    } else {
        None
    }
}

/// The program that the lines say.
pub open spec fn parse_program(input: Seq<char>) -> Option<Seq<Instruction>> {
    let ls = lines_seq(input);
    gather(Seq::new(ls.len(), |i: int| parse_instruction(ls[i])))
}

impl Cpu {
    /// The processor's invariant: its cycles count from 1, and nothing that is still to
    /// come can move the register out of the range of its type.
    pub open spec fn wf(&self) -> bool {
        self.cycle >= 1 && load(self@) < i64::MAX
    }

    /// A processor that is to run `instructions`, with 1 in its register and its first
    /// cycle before it.
    pub fn new(instructions: &[Instruction]) -> (cpu: Cpu)
        requires
            program_weight(ops_of(instructions@)) + 1 < i64::MAX,
        ensures
            cpu@ == started(ops_of(instructions@), 1),
            cpu.wf(),
    {
        let mut queue: VecDeque<Instruction> = VecDeque::new();
        let mut i: usize = 0;
        while i < instructions.len()
            invariant
                i <= instructions.len(),
                queue@ == instructions@.take(i as int),
            decreases instructions.len() - i,
        {
            queue.push_back(instructions[i]);
            assert(queue@ =~= instructions@.take(i + 1));
            i += 1;
        }
        assert(queue@ =~= instructions@);
        let cpu = Cpu { instructions: queue, cycle: 1, register: 1, tick_queue: VecDeque::new() };
        assert(cpu@.tick_queue =~= Seq::empty());
        cpu
    }

    /// One cycle.
    pub fn tick(&mut self)
        requires
            old(self).wf(),
            old(self).cycle < i64::MAX,
        ensures
            final(self)@ == ticked(old(self)@),
            final(self).wf(),
    {
        let ghost before = self@;
        proof {
            lemma_ticked_load(before);
            lemma_weights_not_negative(fetched(CpuModel { cycle: before.cycle + 1, ..before }));
            lemma_weights_not_negative(ticked(before));
        }
        self.cycle += 1;

        if self.tick_queue.len() == 0 {
            if let Some(instruction) = self.instructions.pop_front() {
                match instruction {
                    Instruction::Noop => self.tick_queue.push_back(0),
                    Instruction::Addx(x) => {
                        self.tick_queue.push_back(0);
                        self.tick_queue.push_back(x);
                    },
                }
            }
        }
        proof {
            let next = fetched(CpuModel { cycle: before.cycle + 1, ..before });
            assert(self@.instructions =~= next.instructions);
            assert(self@.tick_queue =~= next.tick_queue);
            lemma_ticked_load(CpuModel { cycle: before.cycle + 1, ..before });
            if next.tick_queue.len() > 0 {
                assert(abs(next.tick_queue[0]) <= queue_weight(next.tick_queue)) by {
                    lemma_weights_not_negative(
                        CpuModel {
                            tick_queue: next.tick_queue.subrange(1, next.tick_queue.len() as int),
                            ..next
                        },
                    );
                }
            }
        }
        if let Some(delta) = self.tick_queue.pop_front() {
            self.register += delta;
        }
        proof {
            assert(self@.tick_queue =~= ticked(before).tick_queue);
        }
    }

    /// The strength of the signal.
    pub fn signal_strength(&self) -> (s: i64)
        requires
            i64::MIN <= strength(self@) <= i64::MAX,
        ensures
            s == strength(self@),
    {
        self.register * self.cycle
    }

    /// Runs until cycle `cycle` has begun; does nothing if it has begun already.
    pub fn advance_to(&mut self, cycle: i64)
        requires
            old(self).wf(),
        ensures
            final(self)@ == run(old(self)@, cycle - old(self).cycle),
            final(self).wf(),
            final(self).cycle == if cycle > old(self).cycle { cycle } else { old(self).cycle },
    {
        let ghost start = self@;
        while self.cycle < cycle
            invariant
                self.wf(),
                start.cycle <= self.cycle,
                self.cycle <= cycle || self.cycle == start.cycle,
                self@ == run(start, self.cycle - start.cycle),
            decreases cycle - self.cycle,
        {
            self.tick();
        }
    }

    /// Whether the sprite covers the pixel that the present cycle draws.
    pub fn sprite_visible(&self) -> (r: bool)
        requires
            self.wf(),
        ensures
            r == lit(self@),
    {
        proof {
            lemma_weights_not_negative(self@);
        }
        let crt = (self.cycle - 1) % 40;
        let spr = self.register;

        crt >= spr - 1 && crt <= spr + 1
    }
}

fn read_instruction(line: &str) -> (r: Option<Instruction>)
    ensures
        r == parse_instruction(line@),
{
    proof {
        reveal_strlit(" ");
        reveal_strlit("");
        reveal_strlit("noop");
        reveal_strlit("addx");
        assert(" "@ =~= seq![' ']);
        assert(""@ =~= Seq::<char>::empty());
        assert("noop"@ =~= seq!['n', 'o', 'o', 'p']);
        assert("addx"@ =~= seq!['a', 'd', 'd', 'x']);
    }
    let (ins, val) = match split_once(line, " ") {
        Some(parts) => parts,
        None => (line, ""),
    };
    if str_eq(ins, "noop") {
        Some(Instruction::Noop)
    } else if str_eq(ins, "addx") {
        match parse_i64(val) {
            Some(x) => Some(Instruction::Addx(x)),
            None => None,
        }
    } else {
        None
    }
}

/// Reads a program, an instruction from each line; `None` where a line is no instruction.
pub fn parse(input: &str) -> (r: Option<Vec<Instruction>>)
    ensures
        match r {
            Some(program) => parse_program(input@) == Some(program@),
            None => parse_program(input@) is None,
        },
{
    let ls = lines(input);
    let ghost items = Seq::new(texts(ls@).len(), |i: int| parse_instruction(texts(ls@)[i]));
    let mut program: Vec<Instruction> = Vec::new();
    let mut i: usize = 0;
    while i < ls.len()
        invariant
            i <= ls.len(),
            texts(ls@) == lines_seq(input@),
            items == Seq::new(texts(ls@).len(), |i: int| parse_instruction(texts(ls@)[i])),
            program.len() == i,
            forall|j: int| 0 <= j < i ==> (#[trigger] items[j]) == Some(program[j]),
        decreases ls.len() - i,
    {
        assert(texts(ls@)[i as int] == ls[i as int]@);
        match read_instruction(ls[i]) {
            Some(instruction) => {
                program.push(instruction);
            },
            None => {
                assert(items[i as int] is None);
                return None;
            },
        }
        i += 1;
    }
    proof {
        assert(items.len() == program.len());
        assert forall|j: int| 0 <= j < items.len() implies (#[trigger] items[j]) is Some by {
            assert(items[j] == Some(program[j]));
        }
        assert(gather(items)->0 =~= program@);
    }
    Some(program)
}

/// The strength of a signal is bounded by the bounds of its factors.
proof fn lemma_strength_bound(r: int, c: int, b: int)
    requires
        -b <= r <= b,
        0 <= c <= 220,
    ensures
        -220 * b <= r * c <= 220 * b,
{
    assert(-220 * b <= r * c <= 220 * b) by (nonlinear_arith)
        requires
            -b <= r <= b,
            0 <= c <= 220,
    ;
}

/// The sum of the signal strengths during the cycles 20, 60, 100, 140, 180 and 220.
pub fn part_one(instructions: &[Instruction]) -> (total: i64)
    requires
        (program_weight(ops_of(instructions@)) + 1) * 1320 <= i64::MAX,
    ensures
        total == strength_sum(ops_of(instructions@), measured(), 6),
{
    let ghost program = ops_of(instructions@);
    let ghost bound = program_weight(program) + 1;
    let ghost cap = 220 * bound;
    proof {
        lemma_weights_not_negative(started(program, 1));
        assert(started(program, 1).tick_queue.len() == 0);
        assert(load(started(program, 1)) == bound);
    }
    let mut cpu = Cpu::new(instructions);
    let cycles: Vec<i64> = vec![20, 60, 100, 140, 180, 220];
    assert(cycles@ =~= measured());
    let mut total: i64 = 0;
    let mut k: usize = 0;
    while k < cycles.len()
        invariant
            k <= cycles.len(),
            cycles@ == measured(),
            program == ops_of(instructions@),
            bound == program_weight(program) + 1,
            bound >= 1,
            bound * 1320 <= i64::MAX,
            cap == 220 * bound,
            cpu.wf(),
            cpu.cycle == if k == 0 { 1 } else { cycles[k - 1] as int },
            cpu@ == run(started(program, 1), cpu.cycle - 1),
            total == strength_sum(program, measured(), k as int),
            -(cap * k) <= total <= cap * k,
        decreases cycles.len() - k,
    {
        let cycle = cycles[k];
        let ghost reached = cpu@;
        cpu.advance_to(cycle);
        proof {
            lemma_run_load(started(program, 1), cycle - 1);
            lemma_weights_not_negative(cpu@);
            lemma_run_compose(started(program, 1), reached.cycle - 1, cycle - reached.cycle);
            lemma_strength_bound(cpu@.register, cpu@.cycle, bound);
            assert(cap * (k + 1) == cap * k + cap) by (nonlinear_arith);
            assert(cap * (k + 1) <= cap * 6) by (nonlinear_arith)
                requires
                    k + 1 <= 6,
                    cap >= 0,
            ;
        }
        total = total + cpu.signal_strength();
        k += 1;
    }
    total
}

/// Running on after some cycles is running the sum of the cycles.
pub proof fn lemma_run_compose(m: CpuModel, a: int, b: int)
    requires
        0 <= a,
        0 <= b,
    ensures
        run(run(m, a), b) == run(m, a + b),
    decreases b,
{
    if b > 0 {
        lemma_run_compose(m, a, b - 1);
    }
}

/// The picture that the processor draws in 240 cycles: six rows of 40 pixels, `#` where
/// the sprite is and `.` elsewhere, each row ended by a line feed.
pub fn part_two(instructions: &[Instruction]) -> (out: String)
    requires
        program_weight(ops_of(instructions@)) + 1 < i64::MAX,
    ensures
        out@ == picture(ops_of(instructions@), 6),
{
    let ghost program = ops_of(instructions@);
    let mut cpu = Cpu::new(instructions);
    let mut out: String = String::new();
    proof {
        reveal_strlit("#");
        reveal_strlit(".");
        reveal_strlit("\n");
        assert("#"@ =~= seq!['#']);
        assert("."@ =~= seq!['.']);
        assert("\n"@ =~= seq!['\n']);
    }

    let mut row: usize = 0;
    while row < 6
        invariant
            row <= 6,
            "#"@ == seq!['#'],
            "."@ == seq!['.'],
            "\n"@ == seq!['\n'],
            program == ops_of(instructions@),
            cpu.wf(),
            cpu@ == run(started(program, 1), 40 * row),
            cpu.cycle == 1 + 40 * row,
            out@ == picture(program, row as int),
        decreases 6 - row,
    {
        let ghost done = out@;
        let mut col: usize = 0;
        assert(row_text(program, row as int).take(0) =~= Seq::empty());
        assert(done + Seq::<char>::empty() =~= done);
        while col < 40
            invariant
                col <= 40,
                row < 6,
                "#"@ == seq!['#'],
                "."@ == seq!['.'],
                cpu.wf(),
                cpu@ == run(started(program, 1), 40 * row + col),
                cpu.cycle == 1 + 40 * row + col,
                out@ == done + row_text(program, row as int).take(col as int),
            decreases 40 - col,
        {
            let ghost line = out@;
            if cpu.sprite_visible() {
                out.append("#");
            } else {
                out.append(".");
            }
            cpu.tick();
            proof {
                assert(row_text(program, row as int).take(col + 1) =~= row_text(
                    program,
                    row as int,
                ).take(col as int).push(pixel(program, 40 * row + col)));
                assert(out@ =~= done + row_text(program, row as int).take(col + 1));
            }
            col += 1;
        }
        out.append("\n");
        proof {
            assert(row_text(program, row as int) =~= row_text(program, row as int).take(40).push(
                '\n',
            ));
            assert(out@ =~= done + row_text(program, row as int));
        }
        row += 1;
    }
    out
}

} // verus!
