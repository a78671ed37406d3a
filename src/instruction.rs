use vstd::prelude::*;

verus! {

/// One decoded command. The loop markers carry the index, within the
/// program, of their partner.
#[derive(Clone, Copy, Debug, PartialEq, Eq, Structural)]
pub enum Instruction {
    MoveRight,
    MoveLeft,
    Increment,
    Decrement,
    Output,
    Input,
    LoopOpen(usize),
    LoopClose(usize),
}

/// The ways decoding or running a program can fail.
#[derive(Clone, Copy, Debug, PartialEq, Eq, Structural)]
pub enum VmError {
    /// A `]` without an open `[` before it, or a `[` that is never closed.
    MismatchedBracket,
    /// A move would take the data pointer off the tape.
    OutOfBounds,
}

/// Every loop marker points at a partner of the other kind that points back,
/// and an open marker's partner lies after it.
pub open spec fn matched(p: Seq<Instruction>) -> bool {
    &&& p.len() <= usize::MAX
    &&& forall|i: int|
        0 <= i < p.len() ==> match #[trigger] p[i] {
            Instruction::LoopOpen(j) => i < j < p.len() && p[j as int] == Instruction::LoopClose(
                i as usize,
            ),
            Instruction::LoopClose(j) => j < i && p[j as int] == Instruction::LoopOpen(i as usize),
            _ => true,
        }
}

} // verus!
