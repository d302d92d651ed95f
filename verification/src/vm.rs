//! Programs, and the bookkeeping of a program run.
//!
//! The machine that executes a single instruction is not part of this
//! crate. Whoever drives it hands every step's outcome to a [`Simulation`],
//! which records the trace.

use crate::trace::{trace_wf, AlgebraicExecutionTrace, ProcessorRow};
use vstd::prelude::*;

verus! {

/// One instruction: its opcode and, for an instruction of two words, its
/// argument.
#[derive(Clone, Copy, Debug, PartialEq, Eq, Structural)]
pub struct Instruction {
    pub opcode: u64,
    pub arg: Option<u64>,
}

impl Instruction {
    /// The number of words that the instruction takes up: two with an
    /// argument, one without.
    pub open spec fn spec_size(self) -> nat {
        if self.arg is Some {
            2
        } else {
            1
        }
    }

    /// The number of words that the instruction takes up.
    pub fn size(&self) -> (n: usize)
        ensures
            n == self.spec_size(),
    {
        match self.arg {
            Some(_) => 2,
            None => 1,
        }
    }

    /// The words of the instruction: its opcode, then its argument if it
    /// has one.
    pub open spec fn words(self) -> Seq<u64> {
        match self.arg {
            Some(arg) => seq![self.opcode, arg],
            None => seq![self.opcode],
        }
    }
}

/// The instructions with every instruction of two words written twice, so
/// that the place of an instruction is the address of its first word.
pub open spec fn expanded(input: Seq<Instruction>) -> Seq<Instruction>
    decreases input.len(),
{
    if input.len() == 0 {
        Seq::empty()
    } else if input.last().arg is Some {
        expanded(input.drop_last()).push(input.last()).push(input.last())
    } else {
        expanded(input.drop_last()).push(input.last())
    }
}

/// The instructions that are met from place `from` on when every
/// instruction is followed by the one that stands its own size further on.
pub open spec fn visited(instructions: Seq<Instruction>, from: int) -> Seq<Instruction>
    decreases
            if from < instructions.len() {
                instructions.len() - from
            } else {
                0
            },
{
    if 0 <= from < instructions.len() {
        seq![instructions[from]] + visited(
            instructions,
            from + instructions[from].spec_size(),
        )
    } else {
        Seq::empty()
    }
}

/// The words of a sequence of instructions, one instruction after the
/// other.
pub open spec fn words_of(instructions: Seq<Instruction>) -> Seq<u64>
    decreases instructions.len(),
{
    if instructions.len() == 0 {
        Seq::empty()
    } else {
        words_of(instructions.drop_last()) + instructions.last().words()
    }
}

/// The expansion of the first instructions is the beginning of the
/// expansion of all of them.
pub proof fn lemma_expanded_prefix(input: Seq<Instruction>, j: int)
    requires
        0 <= j <= input.len(),
    ensures
        expanded(input.take(j)).len() <= expanded(input).len(),
        forall|i: int|
            0 <= i < expanded(input.take(j)).len() ==> expanded(input)[i] == #[trigger] expanded(
                input.take(j),
            )[i],
    decreases input.len() - j,
{
    if j == input.len() {
        assert(input.take(j) =~= input);
    } else {
        lemma_expanded_prefix(input, j + 1);
        assert(input.take(j + 1).drop_last() =~= input.take(j));
        assert forall|i: int| 0 <= i < expanded(input.take(j)).len() implies expanded(input)[i]
            == #[trigger] expanded(input.take(j))[i] by {
            assert(expanded(input.take(j + 1))[i] == expanded(input.take(j))[i]);
        }
    }
}

/// Walking over an expansion from the place where the first `k`
/// instructions end meets the other instructions, each one once.
pub proof fn lemma_visited_expanded(input: Seq<Instruction>, k: int)
    requires
        0 <= k <= input.len(),
    ensures
        visited(expanded(input), expanded(input.take(k)).len() as int) == input.skip(k),
    decreases input.len() - k,
{
    let all = expanded(input);
    let from = expanded(input.take(k)).len() as int;
    if k == input.len() {
        assert(input.take(k) =~= input);
        assert(input.skip(k) =~= Seq::<Instruction>::empty());
    } else {
        lemma_visited_expanded(input, k + 1);
        lemma_expanded_prefix(input, k + 1);
        assert(input.take(k + 1).drop_last() =~= input.take(k));
        let longer = expanded(input.take(k + 1));
        assert(longer[from] == input[k]);
        assert(all[from] == longer[from]);
        assert(longer.len() == from + input[k].spec_size());
        assert(input.skip(k) =~= seq![input[k]] + input.skip(k + 1));
    }
}

/// Walking over the expansion of a sequence of instructions meets these
/// instructions, each one once.
pub proof fn law_expansion_is_walked_once(input: Seq<Instruction>)
    ensures
        visited(expanded(input), 0) == input,
{
    lemma_visited_expanded(input, 0);
    assert(input.take(0) =~= Seq::<Instruction>::empty());
    assert(input.skip(0) =~= input);
}

/// A program: its instructions, each at the address of its first word. An
/// instruction of two words stands at both of its addresses.
#[derive(Clone, Debug, PartialEq, Eq)]
pub struct Program {
    pub instructions: Vec<Instruction>,
}

/// Walks over the instructions of a program, each one once.
#[derive(Debug)]
pub struct SkippyIter {
    instructions: Vec<Instruction>,
    position: usize,
}

impl SkippyIter {
    /// The instructions that the iterator walks over.
    pub closed spec fn instructions(&self) -> Seq<Instruction> {
        self.instructions@
    }

    /// The place of the instruction that comes next.
    pub closed spec fn position(&self) -> int {
        self.position as int
    }

    /// The instructions that are still to come.
    pub open spec fn remaining(&self) -> Seq<Instruction> {
        visited(self.instructions(), self.position())
    }

    /// The next instruction, if there is one. The iterator moves on by the
    /// size of the instruction.
    pub fn next(&mut self) -> (r: Option<Instruction>)
        ensures
            final(self).instructions() == old(self).instructions(),
            match r {
                Some(instruction) => {
                    &&& 0 <= old(self).position() < old(self).instructions().len()
                    &&& instruction == old(self).instructions()[old(self).position()]
                    &&& old(self).remaining() == seq![instruction] + final(self).remaining()
                },
                None => {
                    &&& old(self).position() >= old(self).instructions().len()
                    &&& final(self).position() == old(self).position()
                    &&& old(self).remaining() == Seq::<Instruction>::empty()
                },
            },
    {
        if self.position >= self.instructions.len() {
            return None;
        }
        let instruction = self.instructions[self.position];
        self.position = step_over(
            self.position,
            &instruction,
            self.instructions.len(),
            Ghost(self.instructions@),
        );
        Some(instruction)
    }
}

/// The place that follows an instruction at `position`: its size further
/// on, but no further than `limit`, the number of places.
fn step_over(position: usize, instruction: &Instruction, limit: usize, Ghost(all): Ghost<
    Seq<Instruction>,
>) -> (next: usize)
    requires
        position < limit == all.len(),
    ensures
        position < next <= limit,
        visited(all, next as int) == visited(all, position + instruction.spec_size()),
{
    let size = instruction.size();
    if size <= limit - position {
        position + size
    } else {
        limit
    }
}

impl Default for Program {
    /// The program without instructions.
    fn default() -> (program: Program)
        ensures
            program.instructions@ == Seq::<Instruction>::empty(),
    {
        Program { instructions: Vec::new() }
    }
}

impl Program {
    /// The program of the given instructions.
    pub fn new(input: &[Instruction]) -> (program: Program)
        ensures
            program.instructions@ == expanded(input@),
            visited(program.instructions@, 0) == input@,
    {
        let mut instructions: Vec<Instruction> = Vec::new();
        let mut i: usize = 0;
        assert(input@.take(0) =~= Seq::empty());
        while i < input.len()
            invariant
                i <= input.len(),
                instructions@ == expanded(input@.take(i as int)),
            decreases input.len() - i,
        {
            let instruction = input[i];
            proof {
                assert(input@.take(i + 1).drop_last() =~= input@.take(i as int));
            }
            instructions.push(instruction);
            if instruction.size() == 2 {
                instructions.push(instruction);
            }
            i += 1;
        }
        proof {
            assert(input@.take(input.len() as int) =~= input@);
            law_expansion_is_walked_once(input@);
        }
        Program { instructions }
    }

    /// An iterator over the instructions of the program, each one once.
    pub fn into_iter(self) -> (iter: SkippyIter)
        ensures
            iter.instructions() == self.instructions@,
            iter.position() == 0,
    {
        SkippyIter { instructions: self.instructions, position: 0 }
    }

    /// The words of the program: for every instruction its opcode and, if
    /// it has one, its argument.
    pub fn to_bwords(&self) -> (words: Vec<u64>)
        ensures
            words@ == words_of(visited(self.instructions@, 0)),
    {
        let mut words: Vec<u64> = Vec::new();
        let mut position: usize = 0;
        let ghost mut seen: Seq<Instruction> = Seq::empty();
        while position < self.instructions.len()
            invariant
                position <= self.instructions.len(),
                words@ == words_of(seen),
                visited(self.instructions@, 0) == seen + visited(
                    self.instructions@,
                    position as int,
                ),
            decreases self.instructions.len() - position,
        {
            let instruction = self.instructions[position];
            proof {
                let rest = visited(
                    self.instructions@,
                    position as int + instruction.spec_size(),
                );
                assert(seen + (seq![instruction] + rest) =~= seen.push(instruction) + rest);
                assert(seen.push(instruction).drop_last() =~= seen);
                seen = seen.push(instruction);
            }
            words.push(instruction.opcode);
            match instruction.arg {
                Some(arg) => {
                    words.push(arg);
                },
                None => {},
            }
            position = step_over(
                position,
                &instruction,
                self.instructions.len(),
                Ghost(self.instructions@),
            );
        }
        proof {
            assert(seen + Seq::<Instruction>::empty() =~= seen);
        }
        words
    }

    /// The number of words of the program.
    pub fn len(&self) -> (n: usize)
        ensures
            n == self.instructions@.len(),
    {
        self.instructions.len()
    }

    /// Whether the program has no instruction.
    pub fn is_empty(&self) -> (empty: bool)
        ensures
            empty == (self.instructions@.len() == 0),
    {
        self.instructions.len() == 0
    }
}

/// What a step of the machine may hand out besides the next state.
#[derive(Clone, Debug)]
pub enum VMOutput {
    /// A word for the output stream.
    WriteOutputSymbol(u64),
    /// Rows for the trace of the hash coprocessor.
    XlixTrace(Vec<Vec<u64>>),
}

/// The record of a program run while it is under way: the trace so far and
/// the words written to the output stream so far.
#[derive(Clone, Debug)]
pub struct Simulation {
    pub aet: AlgebraicExecutionTrace,
    pub stdout: Vec<u64>,
}

/// The hash rows that a step hands out.
pub open spec fn hash_rows_of(output: Option<VMOutput>) -> Seq<Vec<u64>> {
    match output {
        Some(VMOutput::XlixTrace(rows)) => rows@,
        _ => Seq::empty(),
    }
}

/// The words that a step writes to the output stream.
pub open spec fn written_by(output: Option<VMOutput>) -> Seq<u64> {
    match output {
        Some(VMOutput::WriteOutputSymbol(word)) => seq![word],
        _ => Seq::empty(),
    }
}

/// Appends to the output stream what a step has written to it. Rows for the
/// hash coprocessor are not output.
pub fn route_output(stdout: &mut Vec<u64>, output: &Option<VMOutput>)
    ensures
        final(stdout)@ == old(stdout)@ + written_by(*output),
{
    match output {
        Some(VMOutput::WriteOutputSymbol(word)) => {
            stdout.push(*word);
            assert(stdout@ =~= old(stdout)@ + seq![*word]);
        },
        _ => {
            assert(stdout@ =~= old(stdout)@ + Seq::<u64>::empty());
        },
    }
}

impl Simulation {
    /// The record of a run that has not made a step yet: the trace holds
    /// the initial state, and nothing else is recorded.
    pub fn start(initial: ProcessorRow) -> (simulation: Simulation)
        ensures
            simulation.aet.processor_matrix@ == seq![initial],
            simulation.aet.hash_matrix@ == Seq::<Vec<u64>>::empty(),
            simulation.stdout@ == Seq::<u64>::empty(),
    {
        let mut processor_matrix: Vec<ProcessorRow> = Vec::new();
        processor_matrix.push(initial);
        Simulation {
            aet: AlgebraicExecutionTrace { processor_matrix, hash_matrix: Vec::new() },
            stdout: Vec::new(),
        }
    }

    /// Records a step that went well: what it handed out goes to the output
    /// stream or to the hash trace, and the state that it led to is
    /// appended to the processor trace.
    pub fn record_step(&mut self, output: Option<VMOutput>, state: ProcessorRow)
        ensures
            final(self).aet.processor_matrix@ == old(self).aet.processor_matrix@.push(state),
            final(self).aet.hash_matrix@ == old(self).aet.hash_matrix@ + hash_rows_of(output),
            final(self).stdout@ == old(self).stdout@ + written_by(output),
            trace_wf(old(self).aet.processor_matrix@) && state.wf() ==> trace_wf(
                final(self).aet.processor_matrix@,
            ),
    {
        match output {
            Some(VMOutput::XlixTrace(mut rows)) => {
                self.aet.hash_matrix.append(&mut rows);
                assert(self.stdout@ =~= old(self).stdout@ + Seq::<u64>::empty());
            },
            Some(VMOutput::WriteOutputSymbol(word)) => {
                self.stdout.push(word);
                assert(self.stdout@ =~= old(self).stdout@ + seq![word]);
                assert(self.aet.hash_matrix@ =~= old(self).aet.hash_matrix@ + Seq::<
                    Vec<u64>,
                >::empty());
            },
            None => {
                assert(self.stdout@ =~= old(self).stdout@ + Seq::<u64>::empty());
                assert(self.aet.hash_matrix@ =~= old(self).aet.hash_matrix@ + Seq::<
                    Vec<u64>,
                >::empty());
            },
        }
        self.aet.processor_matrix.push(state);
    }

    /// Records the outcome of a step. A step that went well is recorded as
    /// `record_step` does it. A step that failed ends the run: the record
    /// stays as it is, and the fault is handed back.
    pub fn after_step<E>(
        &mut self,
        outcome: Result<(Option<VMOutput>, ProcessorRow), E>,
    ) -> (fault: Option<E>)
        ensures
            match outcome {
                Ok((output, state)) => {
                    &&& fault is None
                    &&& final(self).aet.processor_matrix@ == old(self).aet.processor_matrix@.push(
                        state,
                    )
                    &&& final(self).aet.hash_matrix@ == old(self).aet.hash_matrix@
                        + hash_rows_of(output)
                    &&& final(self).stdout@ == old(self).stdout@ + written_by(output)
                },
                Err(e) => {
                    &&& fault == Some(e)
                    &&& final(self).aet.processor_matrix@ == old(self).aet.processor_matrix@
                    &&& final(self).aet.hash_matrix@ == old(self).aet.hash_matrix@
                    &&& final(self).stdout@ == old(self).stdout@
                },
            },
    {
        match outcome {
            Ok((output, state)) => {
                self.record_step(output, state);
                None
            },
            Err(e) => Some(e),
        }
    }

    /// Ends the run: the trace, the output stream, and the fault that
    /// stopped the run, if one did.
    pub fn finish<E>(self, fault: Option<E>) -> (r: (AlgebraicExecutionTrace, Vec<u64>, Option<E>))
        ensures
            r.0 == self.aet,
            r.1 == self.stdout,
            r.2 == fault,
    {
        (self.aet, self.stdout, fault)
    }
}

} // verus!
