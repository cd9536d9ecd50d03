//! Cathode-ray tube: a processor with one register, which takes one cycle for `noop` and
//! two for `addx`.

use std::collections::VecDeque;
use vstd::prelude::*;

verus! {

/// An instruction as specifications see it.
pub enum Op {
    Noop,
    Addx(int),
}

/// The processor as specifications see it.
pub struct CpuModel {
    /// The instructions not yet begun.
    pub instructions: Seq<Op>,
    pub cycle: int,
    pub register: int,
    /// What the coming cycles add to the register, the next cycle first.
    pub tick_queue: Seq<int>,
}

/// The processor before its first cycle, with the cycle counter at `cycle`.
pub open spec fn started(program: Seq<Op>, cycle: int) -> CpuModel {
    CpuModel { instructions: program, cycle: cycle, register: 1, tick_queue: Seq::empty() }
}

/// The processor after it has taken up its next instruction, if it is idle and there is
/// one: `noop` adds nothing in one cycle, `addx` nothing in the first and its number in
/// the second.
pub open spec fn fetched(m: CpuModel) -> CpuModel {
    if m.tick_queue.len() == 0 && m.instructions.len() > 0 {
        CpuModel {
            instructions: m.instructions.subrange(1, m.instructions.len() as int),
            tick_queue: match m.instructions[0] {
                Op::Noop => seq![0int],
                Op::Addx(x) => seq![0int, x],
            },
            ..m
        }
    } else {
        m
    }
}

/// The processor after what the present cycle adds has reached the register.
pub open spec fn settled(m: CpuModel) -> CpuModel {
    if m.tick_queue.len() > 0 {
        CpuModel {
            register: m.register + m.tick_queue[0],
            tick_queue: m.tick_queue.subrange(1, m.tick_queue.len() as int),
            ..m
        }
    } else {
        m
    }
}

/// The processor one cycle later.
pub open spec fn ticked(m: CpuModel) -> CpuModel {
    settled(fetched(CpuModel { cycle: m.cycle + 1, ..m }))
}

/// The processor `n` cycles later.
pub open spec fn run(m: CpuModel, n: int) -> CpuModel
    decreases n,
{
    if n <= 0 {
        m
    } else {
        ticked(run(m, n - 1))
    }
}

/// The distance of a number from 0.
pub open spec fn abs(x: int) -> int {
    if x < 0 {
        -x
    } else {
        x
    }
}

/// How far an instruction can move the register.
pub open spec fn op_weight(op: Op) -> int {
    match op {
        Op::Noop => 0,
        Op::Addx(x) => abs(x),
    }
}

/// How far a program can move the register.
pub open spec fn program_weight(ops: Seq<Op>) -> int
    decreases ops.len(),
{
    if ops.len() == 0 {
        0
    } else {
        op_weight(ops[0]) + program_weight(ops.subrange(1, ops.len() as int))
    }
}

/// How far the waiting additions can move the register.
pub open spec fn queue_weight(q: Seq<int>) -> int
    decreases q.len(),
{
    if q.len() == 0 {
        0
    } else {
        abs(q[0]) + queue_weight(q.subrange(1, q.len() as int))
    }
}

/// A bound on the distance of the register from 0, now and ever after.
pub open spec fn load(m: CpuModel) -> int {
    abs(m.register) + queue_weight(m.tick_queue) + program_weight(m.instructions)
}

/// Weights are not negative.
pub proof fn lemma_weights_not_negative(m: CpuModel)
    ensures
        queue_weight(m.tick_queue) >= 0,
        program_weight(m.instructions) >= 0,
        abs(m.register) <= load(m),
    decreases m.tick_queue.len() + m.instructions.len(),
{
    if m.tick_queue.len() > 0 {
        lemma_weights_not_negative(
            CpuModel { tick_queue: m.tick_queue.subrange(1, m.tick_queue.len() as int), ..m },
        );
    } else if m.instructions.len() > 0 {
        lemma_weights_not_negative(
            CpuModel {
                instructions: m.instructions.subrange(1, m.instructions.len() as int),
                ..m
            },
        );
    }
}

/// A cycle does not raise the load.
pub proof fn lemma_ticked_load(m: CpuModel)
    ensures
        load(ticked(m)) <= load(m),
        load(fetched(m)) == load(m),
        ticked(m).cycle == m.cycle + 1,
{
    if m.tick_queue.len() == 0 && m.instructions.len() > 0 {
        let q = fetched(m).tick_queue;
        match m.instructions[0] {
            Op::Noop => {
                assert(queue_weight(q.subrange(1, 1)) == 0);
            },
            Op::Addx(x) => {
                let tail = q.subrange(1, 2);
                assert(tail[0] == x);
                assert(queue_weight(tail.subrange(1, 1)) == 0);
                assert(queue_weight(tail) == abs(x));
            },
        }
    }
}

/// No number of cycles raises the load.
pub proof fn lemma_run_load(m: CpuModel, n: int)
    ensures
        load(run(m, n)) <= load(m),
        run(m, n).cycle == m.cycle + if n <= 0 { 0 } else { n },
    decreases n,
{
    if n > 0 {
        lemma_run_load(m, n - 1);
        lemma_ticked_load(run(m, n - 1));
    }
}

/// An instruction.
pub enum Instruction {
    Noop,
    Addx(i32),
}

/// What an instruction is to specifications.
pub open spec fn op_of(i: Instruction) -> Op {
    match i {
        Instruction::Noop => Op::Noop,
        Instruction::Addx(x) => Op::Addx(x as int),
    }
}

/// What a program is to specifications.
pub open spec fn ops_of(program: Seq<Instruction>) -> Seq<Op> {
    Seq::new(program.len(), |i: int| op_of(program[i]))
}

/// Numbers as unbounded integers.
pub open spec fn ints(q: Seq<i32>) -> Seq<int> {
    Seq::new(q.len(), |i: int| q[i] as int)
}

/// The processor.
pub struct Cpu {
    pub instructions: VecDeque<Instruction>,
    pub cycle: usize,
    pub register: i32,
    pub tick_queue: VecDeque<i32>,
}

impl View for Cpu {
    type V = CpuModel;

    open spec fn view(&self) -> CpuModel {
        CpuModel {
            instructions: ops_of(self.instructions@),
            cycle: self.cycle as int,
            register: self.register as int,
            tick_queue: ints(self.tick_queue@),
        }
    }
}

impl Cpu {
    /// The processor's invariant: nothing that is still to come can move the register out
    /// of the range of its type.
    pub open spec fn wf(&self) -> bool {
        load(self@) < i32::MAX
    }

    /// A processor that is to run `instructions`, with 1 in its register and no cycle
    /// behind it.
    pub fn new(instructions: Vec<Instruction>) -> (cpu: Cpu)
        requires
            program_weight(ops_of(instructions@)) + 1 < i32::MAX,
        ensures
            cpu@ == started(ops_of(instructions@), 0),
            cpu.wf(),
    {
        let ghost program = instructions@;
        let mut rest = instructions;
        let mut queue: VecDeque<Instruction> = VecDeque::new();
        while rest.len() > 0
            invariant
                queue@ + rest@ == program,
            decreases rest.len(),
        {
            let ghost before = rest@;
            let instruction = rest.remove(0);
            queue.push_back(instruction);
            assert(queue@ + rest@ =~= (queue@.drop_last() + before));
        }
        assert(queue@ =~= program);
        let cpu = Cpu { instructions: queue, cycle: 0, register: 1, tick_queue: VecDeque::new() };
        assert(cpu@.tick_queue =~= Seq::empty());
        cpu
    }

    /// One cycle.
    pub fn tick(&mut self)
        requires
            old(self).wf(),
            old(self).cycle < usize::MAX,
        ensures
            final(self)@ == ticked(old(self)@),
            final(self).wf(),
    {
        let ghost before = self@;
        proof {
            lemma_ticked_load(before);
            lemma_weights_not_negative(fetched(CpuModel { cycle: before.cycle + 1, ..before }));
            lemma_weights_not_negative(ticked(before));
        }
        self.cycle += 1;

        if self.tick_queue.len() == 0 {
            if let Some(instruction) = self.instructions.pop_front() {
                match instruction {
                    Instruction::Noop => self.tick_queue.push_back(0),
                    Instruction::Addx(x) => {
                        self.tick_queue.push_back(0);
                        self.tick_queue.push_back(x);
                    },
                }
            }
        }
        proof {
            let next = fetched(CpuModel { cycle: before.cycle + 1, ..before });
            assert(self@.instructions =~= next.instructions);
            assert(self@.tick_queue =~= next.tick_queue);
            lemma_ticked_load(CpuModel { cycle: before.cycle + 1, ..before });
            if next.tick_queue.len() > 0 {
                assert(abs(next.tick_queue[0]) <= queue_weight(next.tick_queue)) by {
                    lemma_weights_not_negative(
                        CpuModel {
                            tick_queue: next.tick_queue.subrange(1, next.tick_queue.len() as int),
                            ..next
                        },
                    );
                }
            }
        }
        if let Some(delta) = self.tick_queue.pop_front() {
            self.register += delta;
        }
        proof {
            assert(self@.tick_queue =~= ticked(before).tick_queue);
        }
    }
}

} // verus!
