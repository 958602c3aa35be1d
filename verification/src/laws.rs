use vstd::prelude::*;

use crate::instruction::lowered;
use crate::instruction::symbol_count;
use crate::instruction::BfError;
use crate::instruction::BfInstruction;
use crate::semantics::decrement_cell;
use crate::semantics::increment_cell;
use crate::semantics::iterate_increment;
use crate::semantics::lemma_steps_model_stable;
use crate::semantics::lemma_steps_model_wf;
use crate::semantics::step_model;
use crate::semantics::steps_model;
use crate::semantics::MachineModel;

verus! {

/// Law: a source text lowers to exactly one instruction per recognized
/// symbol, so a program's length is the count of the eight symbols in its
/// source.
pub proof fn lemma_lowered_length(s: Seq<char>)
    ensures
        lowered(s).len() == symbol_count(s),
    decreases s.len(),
{
    if s.len() > 0 {
        lemma_lowered_length(s.drop_last());
    }
}

/// Law: tape growth is monotonic to the right.  No transition shrinks the
/// tape, and a `<` executed at tape pointer 0 always fails with
/// `SeekOverLeftmost` (so, by `step`'s contract, without touching the tape).
pub proof fn lemma_step_tape_monotonic(m: MachineModel)
    requires
        m.wf(),
        !m.is_terminated(),
    ensures
        step_model(m) matches Ok(next) ==> next.tape.len() >= m.tape.len(),
        m.instructions[m.instruction_pointer] == BfInstruction::GoLeft && m.tape_pointer == 0
            ==> step_model(m) == Err::<MachineModel, BfError>(BfError::SeekOverLeftmost),
{
}

/// Law: the tape never shrinks over a whole run, however many transitions
/// it is given.
pub proof fn lemma_run_tape_monotonic(m: MachineModel, n: nat)
    requires
        m.wf(),
    ensures
        steps_model(m, n) matches Ok(next) ==> next.tape.len() >= m.tape.len(),
    decreases n,
{
    if n > 0 {
        lemma_run_tape_monotonic(m, (n - 1) as nat);
        lemma_steps_model_wf(m, (n - 1) as nat);
        match steps_model(m, (n - 1) as nat) {
            Ok(prev) => {
                if !prev.is_terminated() {
                    lemma_step_tape_monotonic(prev);
                }
            },
            Err(_) => {},
        }
    }
}

/// Law: Increment and Decrement are mutual inverses on a cell value,
/// modulo 256.
pub proof fn lemma_increment_decrement_inverse(b: u8)
    ensures
        decrement_cell(increment_cell(b)) == b,
        increment_cell(decrement_cell(b)) == b,
{
}

/// Iterated increments amount to addition modulo 256.
proof fn lemma_iterate_increment_mod(b: u8, n: nat)
    ensures
        iterate_increment(b, n) == (((b + n) % 256) as u8),
    decreases n,
{
    if n > 0 {
        lemma_iterate_increment_mod(b, (n - 1) as nat);
    }
}

/// Law: applying Increment 256 times returns a cell to its original value.
pub proof fn lemma_increment_cycle(b: u8)
    ensures
        iterate_increment(b, 256) == b,
{
    lemma_iterate_increment_mod(b, 256);
}

/// Law: driving the machine step by step and running it to completion agree.
/// The transition relation is a function, and it freezes at termination: any
/// two step budgets that both reach a terminated state reach the same one,
/// with the same tape and the same output.
pub proof fn lemma_run_result_unique(m: MachineModel, n1: nat, n2: nat)
    requires
        steps_model(m, n1) matches Ok(m1) && m1.is_terminated(),
        steps_model(m, n2) matches Ok(m2) && m2.is_terminated(),
    ensures
        steps_model(m, n1) == steps_model(m, n2),
{
    if n1 <= n2 {
        lemma_steps_model_stable(m, n1, n2);
    } else {
        lemma_steps_model_stable(m, n2, n1);
    }
}

} // verus!
