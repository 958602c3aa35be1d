use vstd::prelude::*;

use crate::instruction::BfError;
use crate::instruction::BfInstruction;

verus! {

/// The mathematical state of the machine: the two immutable program
/// artifacts, the three pointers, the tape and the two byte streams.  Input
/// already consumed sits before `input_pointer`; everything written so far
/// sits in `output`.
#[verifier::ext_equal]
pub ghost struct MachineModel {
    pub instructions: Seq<BfInstruction>,
    pub instruction_pointer: int,
    pub jump_table: Seq<int>,
    pub tape: Seq<u8>,
    pub tape_pointer: int,
    pub input: Seq<u8>,
    pub input_pointer: int,
    pub output: Seq<u8>,
}

/// A loop start at `i` has a jump-table entry pointing right, at a loop end
/// whose entry points back at `i`.
pub open spec fn matched_start(insts: Seq<BfInstruction>, table: Seq<int>, i: int) -> bool {
    &&& 0 <= i < table.len()
    &&& i < table[i] < insts.len()
    &&& insts[table[i]] == BfInstruction::LoopEnd
    &&& 0 <= table[i] < table.len()
    &&& table[table[i]] == i
}

/// A loop end at `i` has a jump-table entry pointing left, at a loop start
/// whose entry points back at `i`.
pub open spec fn matched_end(insts: Seq<BfInstruction>, table: Seq<int>, i: int) -> bool {
    &&& 0 <= i < table.len()
    &&& 0 <= table[i] < i
    &&& insts[table[i]] == BfInstruction::LoopStart
    &&& table[table[i]] == i
    &&& 0 <= table[i] < table.len()
}

/// Every bracket instruction carries a mutual-inverse jump-table entry.
pub open spec fn jump_table_matches(insts: Seq<BfInstruction>, table: Seq<int>) -> bool {
    forall|i: int|
        0 <= i < insts.len() ==> match #[trigger] insts[i] {
            BfInstruction::LoopStart => matched_start(insts, table, i),
            BfInstruction::LoopEnd => matched_end(insts, table, i),
            _ => true,
        }
}

impl MachineModel {
    /// Every bracket instruction carries a mutual-inverse jump-table entry.
    pub open spec fn jump_table_wf(self) -> bool {
        jump_table_matches(self.instructions, self.jump_table)
    }

    /// Well-formedness of the whole state: pointers in range, a non-empty
    /// tape, and a correct jump table.
    pub open spec fn wf(self) -> bool {
        &&& 0 <= self.instruction_pointer <= self.instructions.len()
        &&& self.tape.len() >= 1
        &&& 0 <= self.tape_pointer < self.tape.len()
        &&& 0 <= self.input_pointer <= self.input.len()
        &&& self.jump_table_wf()
    }

    /// The machine has run past its last instruction.
    pub open spec fn is_terminated(self) -> bool {
        self.instruction_pointer >= self.instructions.len()
    }
}

/// The current cell plus one, wrapping modulo 256.
pub open spec fn increment_cell(b: u8) -> u8 {
    if b == 255 {
        0
    } else {
        (b + 1) as u8
    }
}

/// The current cell minus one, wrapping modulo 256.
pub open spec fn decrement_cell(b: u8) -> u8 {
    if b == 0 {
        255
    } else {
        (b - 1) as u8
    }
}

/// `increment_cell` applied `n` times over.
pub open spec fn iterate_increment(b: u8, n: nat) -> u8
    decreases n,
{
    if n == 0 {
        b
    } else {
        increment_cell(iterate_increment(b, (n - 1) as nat))
    }
}

/// One machine transition: the effect of the instruction under the
/// instruction pointer, followed by the unconditional increment of that
/// pointer (a bracket jump first sets it on the matched partner, so
/// execution resumes just past the partner).
pub open spec fn step_model(m: MachineModel) -> Result<MachineModel, BfError>
    recommends
        m.wf(),
        !m.is_terminated(),
{
    let ip = m.instruction_pointer;
    match m.instructions[ip] {
        BfInstruction::GoRight => {
            let tp = m.tape_pointer + 1;
            Ok(
                MachineModel {
                    instruction_pointer: ip + 1,
                    tape_pointer: tp,
                    tape: if tp >= m.tape.len() {
                        m.tape.push(0u8)
                    } else {
                        m.tape
                    },
                    ..m
                },
            )
        },
        BfInstruction::GoLeft => {
            if m.tape_pointer == 0 {
                Err(BfError::SeekOverLeftmost)
            } else {
                Ok(
                    MachineModel {
                        instruction_pointer: ip + 1,
                        tape_pointer: m.tape_pointer - 1,
                        ..m
                    },
                )
            }
        },
        BfInstruction::Increment => Ok(
            MachineModel {
                instruction_pointer: ip + 1,
                tape: m.tape.update(m.tape_pointer, increment_cell(m.tape[m.tape_pointer])),
                ..m
            },
        ),
        BfInstruction::Decrement => Ok(
            MachineModel {
                instruction_pointer: ip + 1,
                tape: m.tape.update(m.tape_pointer, decrement_cell(m.tape[m.tape_pointer])),
                ..m
            },
        ),
        BfInstruction::GetInput => {
            if m.input_pointer >= m.input.len() {
                Err(BfError::LackOfInput)
            } else {
                Ok(
                    MachineModel {
                        instruction_pointer: ip + 1,
                        tape: m.tape.update(m.tape_pointer, m.input[m.input_pointer]),
                        input_pointer: m.input_pointer + 1,
                        ..m
                    },
                )
            }
        },
        BfInstruction::PutOutput => Ok(
            MachineModel {
                instruction_pointer: ip + 1,
                output: m.output.push(m.tape[m.tape_pointer]),
                ..m
            },
        ),
        BfInstruction::LoopStart => Ok(
            MachineModel {
                instruction_pointer: if m.tape[m.tape_pointer] == 0 {
                    m.jump_table[ip] + 1
                } else {
                    ip + 1
                },
                ..m
            },
        ),
        BfInstruction::LoopEnd => Ok(
            MachineModel {
                instruction_pointer: if m.tape[m.tape_pointer] != 0 {
                    m.jump_table[ip] + 1
                } else {
                    ip + 1
                },
                ..m
            },
        ),
    }
}

/// At most `n` transitions from `m`: iteration stops early at termination
/// and propagates the first failure.
pub open spec fn steps_model(m: MachineModel, n: nat) -> Result<MachineModel, BfError>
    decreases n,
{
    if n == 0 {
        Ok(m)
    } else {
        match steps_model(m, (n - 1) as nat) {
            Err(e) => Err(e),
            Ok(prev) => if prev.is_terminated() {
                Ok(prev)
            } else {
                step_model(prev)
            },
        }
    }
}

/// A transition leaves the program artifacts alone and keeps the state
/// well formed.
pub proof fn lemma_step_model_wf(m: MachineModel)
    requires
        m.wf(),
        !m.is_terminated(),
    ensures
        step_model(m) matches Ok(next) ==> {
            &&& next.wf()
            &&& next.instructions == m.instructions
            &&& next.jump_table == m.jump_table
        },
{
}

/// So does any number of transitions.
pub proof fn lemma_steps_model_wf(m: MachineModel, n: nat)
    requires
        m.wf(),
    ensures
        steps_model(m, n) matches Ok(next) ==> {
            &&& next.wf()
            &&& next.instructions == m.instructions
            &&& next.jump_table == m.jump_table
        },
    decreases n,
{
    if n > 0 {
        lemma_steps_model_wf(m, (n - 1) as nat);
        match steps_model(m, (n - 1) as nat) {
            Ok(prev) => {
                if !prev.is_terminated() {
                    lemma_step_model_wf(prev);
                }
            },
            Err(_) => {},
        }
    }
}

/// Once the iteration reaches a terminated state it stays there, whatever
/// larger budget it is given.
pub proof fn lemma_steps_model_stable(m: MachineModel, k: nat, n: nat)
    requires
        k <= n,
        steps_model(m, k) matches Ok(t) && t.is_terminated(),
    ensures
        steps_model(m, n) == steps_model(m, k),
    decreases n - k,
{
    if k < n {
        lemma_steps_model_stable(m, k, (n - 1) as nat);
    }
}

/// Taking `a + b` transitions is taking `a` and then `b` more: driving the
/// machine in separate bursts composes.
pub proof fn lemma_steps_model_add(m: MachineModel, a: nat, b: nat)
    requires
        steps_model(m, a) matches Ok(mid),
    ensures
        steps_model(m, a + b) == steps_model(steps_model(m, a).unwrap(), b),
    decreases b,
{
    if b > 0 {
        lemma_steps_model_add(m, a, (b - 1) as nat);
        assert(a + b - 1 == a + (b - 1) as nat);
    }
}

} // verus!
