//! A verified interpreter for an eight-symbol, byte-oriented esoteric
//! language.
//!
//! The loader turns source text into an instruction sequence together with a
//! bidirectional jump table for matched loop brackets; the machine steps a
//! tape / instruction-pointer state to completion against in-memory byte
//! streams.  Every transition is specified against a mathematical model of
//! the machine state, so single-stepping and running to completion provably
//! agree.

mod instruction;
mod laws;
mod machine;
mod semantics;

pub use instruction::balanced;
pub use instruction::instruction_of_char;
pub use instruction::lemma_lowered_append;
pub use instruction::lemma_open_loops_none_extends;
pub use instruction::lowered;
pub use instruction::open_loops;
pub use instruction::symbol_count;
pub use instruction::BfError;
pub use instruction::BfInstruction;
pub use laws::lemma_increment_cycle;
pub use laws::lemma_increment_decrement_inverse;
pub use laws::lemma_lowered_length;
pub use laws::lemma_run_result_unique;
pub use laws::lemma_run_tape_monotonic;
pub use laws::lemma_step_tape_monotonic;
pub use machine::indices_view;
pub use machine::BfInterpreter;
pub use semantics::decrement_cell;
pub use semantics::increment_cell;
pub use semantics::iterate_increment;
pub use semantics::jump_table_matches;
pub use semantics::lemma_step_model_wf;
pub use semantics::lemma_steps_model_add;
pub use semantics::lemma_steps_model_stable;
pub use semantics::lemma_steps_model_wf;
pub use semantics::matched_end;
pub use semantics::matched_start;
pub use semantics::step_model;
pub use semantics::steps_model;
pub use semantics::MachineModel;
