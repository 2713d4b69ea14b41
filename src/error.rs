use vstd::prelude::*;

verus! {

/// What can stop a program: a structural defect found before anything runs,
/// or a pointer move off either end of the tape while running.
#[derive(Debug, Clone, Copy, PartialEq, Eq, Structural)]
pub enum VmError {
    /// A `[` without its `]`, or a `]` without its `[`.
    UnbalancedBrackets,
    /// The instruction at `pc` would move the tape pointer outside the tape.
    PointerOutOfBounds { pc: usize },
}

} // verus!
