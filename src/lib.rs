//! A small tape machine for the eight-instruction bracket language: bracket
//! resolution into a jump table, and an engine that executes a program over a
//! byte tape with explicit input and output.

mod error;
mod jumps;
mod machine;

pub use error::VmError;
pub use jumps::{
    balanced, delta, depth, is_bracket, lemma_jump_table_well_nested, lemma_target_is_partner,
    lemma_unmatched_is_unbalanced, pairs, partner, resolve, resolves, unmatched, JumpTable,
    CLOSE, OPEN,
};
pub use machine::{
    emitted, execute, initial, lemma_cell_wraps, lemma_move_off_single_cell_tape, run_spec, step_spec, Execution, Machine, MachineView, Status, Trace,
    DEC, DEFAULT_TAPE_SIZE, INC, LEFT, READ, RIGHT, WRITE,
};
