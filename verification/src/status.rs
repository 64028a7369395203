use vstd::prelude::*;

verus! {

use crate::Num;

/// The ways a run can fail. Every error is fatal to the `execute` call that
/// raised it; none is recovered from internally.
#[derive(Debug, Clone, PartialEq)]
pub enum ErrorStatus {
    /// The program counter ran past the end of virtual memory without a halt.
    UnterminatedProgram,
    /// The decoded operation selector is not one of the known operations.
    UnrecognizedOp(Num),
    /// An address computation cannot be satisfied (for example, a parameter
    /// resolved to a negative address, or the relative base would leave the
    /// address space).
    IllegalMemoryAccess,
    /// An address fell outside the range the memory is willing to page in.
    OutOfBounds,
}

/// The two normal ways a call to `execute` can end: the machine halted for
/// good, or it is waiting for more input and may be resumed.
#[derive(Debug, Clone, PartialEq)]
pub enum ExecutionStatus {
    Blocking,
    Halted,
}

} // verus!
