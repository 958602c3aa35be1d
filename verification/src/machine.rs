use vstd::prelude::*;

use crate::instruction::balanced;
use crate::instruction::instruction_for;
use crate::instruction::lemma_lowered_append;
use crate::instruction::lemma_open_loops_none_extends;
use crate::instruction::lowered;
use crate::instruction::open_loops;
use crate::instruction::BfError;
use crate::instruction::BfInstruction;
use crate::semantics::lemma_step_model_wf;
use crate::semantics::lemma_steps_model_stable;
use crate::semantics::matched_end;
use crate::semantics::matched_start;
use crate::semantics::step_model;
use crate::semantics::steps_model;
use crate::semantics::MachineModel;

verus! {

/// The interpreter: the two program artifacts produced by loading, the
/// machine state they drive, and the two in-memory byte streams.  The input
/// bytes are handed over at construction; the output bytes accumulate and
/// can be read back at any point.
#[derive(Clone, Debug)]
pub struct BfInterpreter {
    instructions: Vec<BfInstruction>,
    instruction_pointer: usize,
    jump_memo: Vec<usize>,
    tape: Vec<u8>,
    tape_pointer: usize,
    input: Vec<u8>,
    input_pointer: usize,
    output: Vec<u8>,
}

/// A sequence of machine words read as mathematical integers.
pub open spec fn indices_view(s: Seq<usize>) -> Seq<int> {
    s.map_values(|x: usize| x as int)
}

impl View for BfInterpreter {
    type V = MachineModel;

    closed spec fn view(&self) -> MachineModel {
        MachineModel {
            instructions: self.instructions@,
            instruction_pointer: self.instruction_pointer as int,
            jump_table: indices_view(self.jump_memo@),
            tape: self.tape@,
            tape_pointer: self.tape_pointer as int,
            input: self.input@,
            input_pointer: self.input_pointer as int,
            output: self.output@,
        }
    }
}

/// Mid-scan shape of the jump table: every loop end is already matched, and
/// every loop start is either matched or still waiting on the open stack.
spec fn partial_table_wf(insts: Seq<BfInstruction>, table: Seq<int>, open: Seq<int>) -> bool {
    forall|i: int|
        0 <= i < insts.len() ==> match #[trigger] insts[i] {
            BfInstruction::LoopStart => open.contains(i) || matched_start(insts, table, i),
            BfInstruction::LoopEnd => matched_end(insts, table, i),
            _ => true,
        }
}

/// The open stack holds strictly increasing positions of loop starts.
spec fn open_stack_wf(insts: Seq<BfInstruction>, open: Seq<int>) -> bool {
    &&& forall|k: int|
        0 <= k < open.len() ==> 0 <= #[trigger] open[k] < insts.len() && insts[open[k]]
            == BfInstruction::LoopStart
    &&& forall|k1: int, k2: int|
        #![trigger open[k1], open[k2]]
        0 <= k1 < k2 < open.len() ==> open[k1] < open[k2]
}

/// No loop end is paired with a loop start that is still open.
spec fn open_unclaimed(insts: Seq<BfInstruction>, table: Seq<int>, open: Seq<int>) -> bool {
    forall|j: int, k: int|
        #![trigger insts[j], open[k]]
        0 <= j < insts.len() && 0 <= k < open.len() && insts[j] == BfInstruction::LoopEnd
            ==> table[j] != open[k]
}

/// Scanning one non-bracket instruction changes neither the open stack nor
/// any of the loader's invariants.
proof fn lemma_loader_plain(
    insts: Seq<BfInstruction>,
    table: Seq<int>,
    open: Seq<int>,
    inst: BfInstruction,
)
    requires
        !(inst is LoopStart),
        !(inst is LoopEnd),
        open_loops(insts) == Some(open),
        open_stack_wf(insts, open),
        partial_table_wf(insts, table, open),
        open_unclaimed(insts, table, open),
    ensures
        open_loops(insts.push(inst)) == Some(open),
        open_stack_wf(insts.push(inst), open),
        partial_table_wf(insts.push(inst), table, open),
        open_unclaimed(insts.push(inst), table, open),
{
    let insts2 = insts.push(inst);
    assert(insts2.drop_last() =~= insts);
    assert(open_loops(insts2) == Some(open));
    assert forall|i: int| #![trigger insts2[i]]
        0 <= i < insts2.len() implies match insts2[i] {
        BfInstruction::LoopStart => open.contains(i) || matched_start(insts2, table, i),
        BfInstruction::LoopEnd => matched_end(insts2, table, i),
        _ => true,
    } by {
        if i < insts.len() {
            assert(insts2[i] == insts[i]);
            match insts[i] {
                BfInstruction::LoopStart => {
                    if !open.contains(i) {
                        assert(matched_start(insts, table, i));
                        assert(insts2[table[i]] == insts[table[i]]);
                    }
                },
                BfInstruction::LoopEnd => {
                    assert(matched_end(insts, table, i));
                    assert(insts2[table[i]] == insts[table[i]]);
                },
                _ => {},
            }
        }
    }
}

/// Scanning `[` pushes its position on the open stack; nothing else moves.
proof fn lemma_loader_open(insts: Seq<BfInstruction>, table: Seq<int>, open: Seq<int>)
    requires
        open_loops(insts) == Some(open),
        open_stack_wf(insts, open),
        partial_table_wf(insts, table, open),
        open_unclaimed(insts, table, open),
    ensures
        open_loops(insts.push(BfInstruction::LoopStart)) == Some(open.push(insts.len() as int)),
        open_stack_wf(insts.push(BfInstruction::LoopStart), open.push(insts.len() as int)),
        partial_table_wf(insts.push(BfInstruction::LoopStart), table, open.push(insts.len() as int)),
        open_unclaimed(insts.push(BfInstruction::LoopStart), table, open.push(insts.len() as int)),
{
    let e = insts.len() as int;
    let insts2 = insts.push(BfInstruction::LoopStart);
    let open2 = open.push(e);
    assert(insts2.drop_last() =~= insts);
    assert(open_loops(insts2) == Some(open2));
    assert forall|i: int| #![trigger insts2[i]]
        0 <= i < insts2.len() implies match insts2[i] {
        BfInstruction::LoopStart => open2.contains(i) || matched_start(insts2, table, i),
        BfInstruction::LoopEnd => matched_end(insts2, table, i),
        _ => true,
    } by {
        if i < e {
            assert(insts2[i] == insts[i]);
            match insts[i] {
                BfInstruction::LoopStart => {
                    if open.contains(i) {
                        let k = choose|k: int| 0 <= k < open.len() && open[k] == i;
                        assert(open2[k] == i);
                        assert(open2.contains(i));
                    } else {
                        assert(matched_start(insts, table, i));
                        assert(insts2[table[i]] == insts[table[i]]);
                    }
                },
                BfInstruction::LoopEnd => {
                    assert(matched_end(insts, table, i));
                    assert(insts2[table[i]] == insts[table[i]]);
                },
                _ => {},
            }
        } else {
            assert(open2[open2.len() - 1] == e);
            assert(open2.contains(e));
        }
    }
    assert forall|j: int, k: int| #![trigger insts2[j], open2[k]]
        0 <= j < insts2.len() && 0 <= k < open2.len() && insts2[j]
            == BfInstruction::LoopEnd implies table[j] != open2[k] by {
        assert(insts2[e] == BfInstruction::LoopStart);
        assert(j < e);
        assert(insts[j] == BfInstruction::LoopEnd);
        assert(matched_end(insts, table, j));
        if k < open.len() {
            assert(open2[k] == open[k]);
            assert(table[j] != open[k]);
        } else {
            assert(open2[k] == e);
            assert(table[j] < j);
        }
    }
}

/// Scanning `]` pops the innermost open `[` and records the pair in the
/// table, leaving every earlier pair exactly as it was.
proof fn lemma_loader_close(
    insts: Seq<BfInstruction>,
    table: Seq<int>,
    open: Seq<int>,
    table2: Seq<int>,
    b: int,
)
    requires
        open_loops(insts) == Some(open),
        open_stack_wf(insts, open),
        partial_table_wf(insts, table, open),
        open_unclaimed(insts, table, open),
        open.len() > 0,
        b == open.last(),
        table.len() <= insts.len(),
        table2.len() == insts.len() + 1,
        table2[b] == insts.len(),
        table2[insts.len() as int] == b,
        forall|t: int| 0 <= t < table.len() && t != b ==> #[trigger] table2[t] == table[t],
    ensures
        open_loops(insts.push(BfInstruction::LoopEnd)) == Some(open.drop_last()),
        open_stack_wf(insts.push(BfInstruction::LoopEnd), open.drop_last()),
        partial_table_wf(insts.push(BfInstruction::LoopEnd), table2, open.drop_last()),
        open_unclaimed(insts.push(BfInstruction::LoopEnd), table2, open.drop_last()),
{
    let e = insts.len() as int;
    let insts2 = insts.push(BfInstruction::LoopEnd);
    let open2 = open.drop_last();
    assert(insts2.drop_last() =~= insts);
    assert(open_loops(insts2) == Some(open2));
    assert(open[open.len() - 1] == b);
    assert(0 <= b < e && insts[b] == BfInstruction::LoopStart);
    assert forall|k: int| #![trigger open2[k]] 0 <= k < open2.len() implies open2[k] == open[k]
        && open[k] < b by {
        assert(open[k] < open[open.len() - 1]);
    }
    assert(matched_start(insts2, table2, b));
    assert(matched_end(insts2, table2, e));
    assert forall|i: int| #![trigger insts2[i]]
        0 <= i < insts2.len() implies match insts2[i] {
        BfInstruction::LoopStart => open2.contains(i) || matched_start(insts2, table2, i),
        BfInstruction::LoopEnd => matched_end(insts2, table2, i),
        _ => true,
    } by {
        if i < e {
            assert(insts2[i] == insts[i]);
            match insts[i] {
                BfInstruction::LoopStart => {
                    if open.contains(i) {
                        let k = choose|k: int| 0 <= k < open.len() && open[k] == i;
                        if k < open.len() - 1 {
                            assert(open2[k] == i);
                            assert(open2.contains(i));
                        } else {
                            assert(i == b);
                            assert(matched_start(insts2, table2, b));
                        }
                    } else {
                        assert(matched_start(insts, table, i));
                        let j = table[i];
                        assert(insts[j] == BfInstruction::LoopEnd);
                        assert(table[j] == i);
                        assert(table[j] != open[open.len() - 1]);
                        assert(i != b);
                        assert(table2[i] == table[i]);
                        assert(j != b);
                        assert(table2[j] == table[j]);
                        assert(insts2[j] == insts[j]);
                        assert(matched_start(insts2, table2, i));
                    }
                },
                BfInstruction::LoopEnd => {
                    assert(matched_end(insts, table, i));
                    let s = table[i];
                    assert(insts[s] == BfInstruction::LoopStart);
                    assert(table[i] != open[open.len() - 1]);
                    assert(s != b);
                    assert(i != b);
                    assert(table2[i] == table[i]);
                    assert(table2[s] == table[s]);
                    assert(insts2[s] == insts[s]);
                    assert(matched_end(insts2, table2, i));
                },
                _ => {},
            }
        } else {
            assert(matched_end(insts2, table2, e));
        }
    }
    assert forall|j: int, k: int| #![trigger insts2[j], open2[k]]
        0 <= j < insts2.len() && 0 <= k < open2.len() && insts2[j]
            == BfInstruction::LoopEnd implies table2[j] != open2[k] by {
        assert(open2[k] == open[k] && open[k] < b);
        if j < e {
            assert(insts[j] == BfInstruction::LoopEnd);
            assert(matched_end(insts, table, j));
            assert(j != b);
            assert(table2[j] == table[j]);
            assert(table[j] != open[k]);
        } else {
            assert(table2[j] == b);
        }
    }
}

impl BfInterpreter {
    /// The machine state is well formed as a [`MachineModel`].
    pub open spec fn wf(&self) -> bool {
        self@.wf()
    }

    /// The loader: scans the source text, lowers every recognized symbol to
    /// its instruction, and pairs loop brackets by stack discipline into the
    /// bidirectional jump table.  Succeeds exactly on balanced sources and
    /// hands back a machine at instruction 0, on a one-cell zero tape, with
    /// the given bytes as its untouched input stream and an empty output.
    pub fn new(source: &str, input: Vec<u8>) -> (r: Result<BfInterpreter, BfError>)
        ensures
            r is Ok <==> balanced(lowered(source@)),
            match r {
                Ok(m) => {
                    &&& m.wf()
                    &&& m@.instructions == lowered(source@)
                    &&& m@.instruction_pointer == 0
                    &&& m@.tape == seq![0u8]
                    &&& m@.tape_pointer == 0
                    &&& m@.input == input@
                    &&& m@.input_pointer == 0
                    &&& m@.output == Seq::<u8>::empty()
                },
                Err(e) => match open_loops(lowered(source@)) {
                    None => e == BfError::LoopNotStarted,
                    Some(st) => st.len() > 0 && e == BfError::LoopNotEnded,
                },
            },
    {
        let source_len = source.unicode_len();
        let mut instructions: Vec<BfInstruction> = Vec::new();
        let mut loop_stack: Vec<usize> = Vec::new();
        let mut jump_memo: Vec<usize> = Vec::new();
        let mut idx: usize = 0;
        while idx < source_len
            invariant
                source_len == source@.len(),
                idx <= source_len,
                instructions@ == lowered(source@.take(idx as int)),
                instructions@.len() <= idx,
                jump_memo@.len() <= instructions@.len(),
                open_loops(instructions@) == Some(indices_view(loop_stack@)),
                open_stack_wf(instructions@, indices_view(loop_stack@)),
                partial_table_wf(
                    instructions@,
                    indices_view(jump_memo@),
                    indices_view(loop_stack@),
                ),
                open_unclaimed(instructions@, indices_view(jump_memo@), indices_view(loop_stack@)),
            decreases source_len - idx,
        {
            let c = source.get_char(idx);
            let ghost pre_insts = instructions@;
            let ghost pre_stack = indices_view(loop_stack@);
            let ghost pre_table = indices_view(jump_memo@);
            proof {
                assert(source@.take(idx as int + 1).drop_last() =~= source@.take(idx as int));
                assert(source@.take(idx as int + 1).last() == c);
            }
            match instruction_for(c) {
                None => {
                    proof {
                        assert(lowered(source@.take(idx as int + 1)) =~= pre_insts);
                    }
                },
                Some(inst) => {
                    match inst {
                        BfInstruction::LoopStart => {
                            loop_stack.push(instructions.len());
                            instructions.push(inst);
                            proof {
                                lemma_loader_open(pre_insts, pre_table, pre_stack);
                                assert(instructions@ =~= pre_insts.push(inst));
                                assert(indices_view(loop_stack@) =~= pre_stack.push(
                                    pre_insts.len() as int,
                                ));
                                assert(lowered(source@.take(idx as int + 1)) =~= instructions@);
                            }
                        },
                        BfInstruction::LoopEnd => {
                            let ending = instructions.len();
                            let popped = loop_stack.pop();
                            match popped {
                                None => {
                                    proof {
                                        assert(pre_stack.len() == 0);
                                        assert(indices_view(loop_stack@) =~= pre_stack);
                                        assert(pre_insts.push(inst).drop_last() =~= pre_insts);
                                        assert(open_loops(pre_insts.push(inst)) is None);
                                        assert(lowered(source@.take(idx as int + 1)) =~= pre_insts.push(inst));
                                        lemma_lowered_append(
                                            source@.take(idx as int + 1),
                                            source@.skip(idx as int + 1),
                                        );
                                        assert(source@.take(idx as int + 1) + source@.skip(
                                            idx as int + 1,
                                        ) =~= source@);
                                        lemma_open_loops_none_extends(
                                            pre_insts.push(inst),
                                            lowered(source@.skip(idx as int + 1)),
                                        );
                                        assert(open_loops(lowered(source@)) is None);
                                    }
                                    return Err(BfError::LoopNotStarted);
                                },
                                Some(beginning) => {
                                    let ghost pre_memo = jump_memo@;
                                    while jump_memo.len() < ending + 1
                                        invariant
                                            ending < usize::MAX,
                                            jump_memo@.len() <= ending + 1,
                                            pre_memo.len() <= jump_memo@.len(),
                                            jump_memo@.take(pre_memo.len() as int) == pre_memo,
                                        decreases ending + 1 - jump_memo@.len(),
                                    {
                                        let ghost before = jump_memo@;
                                        jump_memo.push(0);
                                        proof {
                                            assert(jump_memo@.take(pre_memo.len() as int)
                                                =~= before.take(pre_memo.len() as int));
                                        }
                                    }
                                    let ghost grown = jump_memo@;
                                    proof {
                                        assert(pre_stack[pre_stack.len() - 1] == beginning as int);
                                        assert(0 <= (beginning as int) < pre_insts.len());
                                        assert(grown.len() == ending + 1);
                                    }
                                    jump_memo[beginning] = ending;
                                    jump_memo[ending] = beginning;
                                    instructions.push(inst);
                                    proof {
                                        let gb = beginning as int;
                                        let ge = ending as int;
                                        let table2 = indices_view(jump_memo@);
                                        assert(jump_memo@ =~= grown.update(gb, ending).update(
                                            ge,
                                            beginning,
                                        ));
                                        assert(table2.len() == ge + 1);
                                        assert(table2[ge] == gb);
                                        assert(gb != ge);
                                        assert(table2[gb] == ge);
                                        assert forall|t: int|
                                            0 <= t < pre_table.len() && t != gb implies #[trigger] table2[t]
                                            == pre_table[t] by {
                                            assert(t < pre_memo.len());
                                            assert(t <= ge);
                                            assert(grown.take(pre_memo.len() as int)[t]
                                                == grown[t]);
                                            assert(grown[t] == pre_memo[t]);
                                            assert(t != ge);
                                        }
                                        lemma_loader_close(
                                            pre_insts,
                                            pre_table,
                                            pre_stack,
                                            table2,
                                            gb,
                                        );
                                        assert(instructions@ =~= pre_insts.push(inst));
                                        assert(indices_view(loop_stack@) =~= pre_stack.drop_last());
                                        assert(lowered(source@.take(idx as int + 1))
                                            =~= instructions@);
                                    }
                                },
                            }
                        },
                        _ => {
                            instructions.push(inst);
                            proof {
                                lemma_loader_plain(pre_insts, pre_table, pre_stack, inst);
                                assert(instructions@ =~= pre_insts.push(inst));
                                assert(lowered(source@.take(idx as int + 1)) =~= instructions@);
                            }
                        },
                    }
                },
            }
            idx = idx + 1;
        }
        proof {
            assert(source@.take(source_len as int) =~= source@);
        }
        if loop_stack.len() > 0 {
            return Err(BfError::LoopNotEnded);
        }
        let mut tape: Vec<u8> = Vec::new();
        tape.push(0);
        let machine = BfInterpreter {
            instructions,
            instruction_pointer: 0,
            jump_memo,
            tape,
            tape_pointer: 0,
            input,
            input_pointer: 0,
            output: Vec::new(),
        };
        proof {
            assert(indices_view(loop_stack@) =~= Seq::<int>::empty());
            assert(balanced(machine@.instructions));
            assert forall|i: int| #![trigger machine@.instructions[i]]
                0 <= i < machine@.instructions.len() implies match machine@.instructions[i] {
                BfInstruction::LoopStart => matched_start(
                    machine@.instructions,
                    machine@.jump_table,
                    i,
                ),
                BfInstruction::LoopEnd => matched_end(machine@.instructions, machine@.jump_table, i),
                _ => true,
            } by {
                assert(!indices_view(loop_stack@).contains(i));
            }
            assert(machine@.tape =~= seq![0u8]);
            assert(machine@.output =~= Seq::<u8>::empty());
        }
        Ok(machine)
    }

    /// Executes exactly one instruction, as one [`step_model`] transition:
    /// the instruction's effect, then the unconditional advance of the
    /// instruction pointer.  A failing step leaves the machine exactly as it
    /// was.
    pub fn step(&mut self) -> (r: Result<(), BfError>)
        requires
            old(self).wf(),
            !old(self)@.is_terminated(),
        ensures
            final(self).wf(),
            r is Ok ==> step_model(old(self)@) == Ok::<MachineModel, BfError>(final(self)@),
            r matches Err(e) ==> step_model(old(self)@) == Err::<MachineModel, BfError>(e)
                && final(self)@ == old(self)@,
    {
        proof {
            assert(0 <= old(self)@.tape_pointer < old(self)@.tape.len());
            assert(0 <= old(self)@.instruction_pointer < old(self)@.instructions.len());
        }
        let program_len = self.instructions.len();
        let inst = self.instructions[self.instruction_pointer];
        match inst {
            BfInstruction::GoRight => {
                let tape_len = self.tape.len();
                self.tape_pointer = self.tape_pointer + 1;
                if self.tape_pointer >= tape_len {
                    self.tape.push(0);
                }
            },
            BfInstruction::GoLeft => {
                if self.tape_pointer == 0 {
                    return Err(BfError::SeekOverLeftmost);
                }
                self.tape_pointer = self.tape_pointer - 1;
            },
            BfInstruction::Increment => {
                let v = self.tape[self.tape_pointer];
                let incremented: u8 = if v == 255 {
                    0
                } else {
                    v + 1
                };
                self.tape[self.tape_pointer] = incremented;
            },
            BfInstruction::Decrement => {
                let v = self.tape[self.tape_pointer];
                let decremented: u8 = if v == 0 {
                    255
                } else {
                    v - 1
                };
                self.tape[self.tape_pointer] = decremented;
            },
            BfInstruction::GetInput => {
                if self.input_pointer >= self.input.len() {
                    return Err(BfError::LackOfInput);
                }
                let b = self.input[self.input_pointer];
                self.tape[self.tape_pointer] = b;
                self.input_pointer = self.input_pointer + 1;
            },
            BfInstruction::PutOutput => {
                let v = self.tape[self.tape_pointer];
                self.output.push(v);
            },
            BfInstruction::LoopStart => {
                proof {
                    assert(matched_start(
                        old(self)@.instructions,
                        old(self)@.jump_table,
                        old(self)@.instruction_pointer,
                    ));
                }
                if self.tape[self.tape_pointer] == 0 {
                    self.instruction_pointer = self.jump_memo[self.instruction_pointer];
                    proof {
                        assert(self@.instruction_pointer < self@.instructions.len());
                    }
                }
            },
            BfInstruction::LoopEnd => {
                proof {
                    assert(matched_end(
                        old(self)@.instructions,
                        old(self)@.jump_table,
                        old(self)@.instruction_pointer,
                    ));
                }
                if self.tape[self.tape_pointer] != 0 {
                    self.instruction_pointer = self.jump_memo[self.instruction_pointer];
                    proof {
                        assert(self@.instruction_pointer < self@.instructions.len());
                    }
                }
            },
        }
        proof {
            assert(self@.instruction_pointer < program_len as int);
        }
        self.instruction_pointer = self.instruction_pointer + 1;
        proof {
            lemma_step_model_wf(old(self)@);
            match step_model(old(self)@) {
                Ok(m) => {
                    assert(self@ =~= m);
                },
                Err(_) => {
                    assert(false);
                },
            }
        }
        Ok(())
    }

    /// Runs the machine for at most `max_steps` single steps, stopping early
    /// at termination or on the first failure.  On success the machine is
    /// exactly the state that `max_steps` iterated transitions reach (the
    /// iteration freezes once terminated, so a generous budget means a
    /// finished run); on failure the machine is the state just before the
    /// instruction that failed.
    pub fn execute(&mut self, max_steps: u64) -> (r: Result<(), BfError>)
        requires
            old(self).wf(),
        ensures
            final(self).wf(),
            r is Ok ==> steps_model(old(self)@, max_steps as nat) == Ok::<MachineModel, BfError>(
                final(self)@,
            ),
            r matches Err(e) ==> {
                &&& !final(self)@.is_terminated()
                &&& step_model(final(self)@) == Err::<MachineModel, BfError>(e)
                &&& exists|n: nat|
                    n < max_steps && #[trigger] steps_model(old(self)@, n) == Ok::<
                        MachineModel,
                        BfError,
                    >(final(self)@)
            },
    {
        let ghost init = self@;
        let mut done: u64 = 0;
        #[verifier::loop_isolation(false)]
        while done < max_steps && self.instruction_pointer < self.instructions.len()
            invariant
                self.wf(),
                done <= max_steps,
                steps_model(init, done as nat) == Ok::<MachineModel, BfError>(self@),
            decreases max_steps - done,
        {
            let ghost before = self@;
            match self.step() {
                Ok(()) => {},
                Err(e) => {
                    proof {
                        assert(init == old(self)@);
                        assert(steps_model(old(self)@, done as nat) == Ok::<MachineModel, BfError>(
                            self@,
                        ));
                        assert(step_model(before) == Err::<MachineModel, BfError>(e));
                    }
                    return Err(e);
                },
            }
            proof {
                assert(steps_model(init, done as nat + 1) == Ok::<MachineModel, BfError>(self@));
            }
            done = done + 1;
        }
        proof {
            if self@.is_terminated() && done < max_steps {
                lemma_steps_model_stable(init, done as nat, max_steps as nat);
            }
        }
        Ok(())
    }

    /// True iff the instruction pointer has run past the last instruction.
    pub fn is_end(&self) -> (r: bool)
        ensures
            r == self@.is_terminated(),
    {
        self.instruction_pointer >= self.instructions.len()
    }

    /// The value of the tape cell under the tape pointer.
    pub fn head_value(&self) -> (r: u8)
        requires
            self.wf(),
        ensures
            r == self@.tape[self@.tape_pointer],
    {
        self.tape[self.tape_pointer]
    }

    /// The instruction under the instruction pointer.
    pub fn current_instruction(&self) -> (r: &BfInstruction)
        requires
            self.wf(),
            !self@.is_terminated(),
        ensures
            *r == self@.instructions[self@.instruction_pointer],
    {
        &self.instructions[self.instruction_pointer]
    }

    /// Everything the machine has written so far.
    pub fn output(&self) -> (r: &Vec<u8>)
        ensures
            r@ == self@.output,
    {
        &self.output
    }
}

} // verus!
