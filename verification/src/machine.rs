use vstd::prelude::*;

verus! {

use crate::memory::MemModel;
use crate::memory::Memory;
use crate::op::decoded_mode_len;
use crate::op::deconstruct_opcode;
use crate::op::param_mode;
use crate::op::spec_decode_op;
use crate::op::Op;
use crate::op::ParamMode;
use crate::status::ErrorStatus;
use crate::status::ExecutionStatus;
use crate::Num;

/// The mathematical state of a machine: its memory, program counter, input
/// queue with its read cursor, output queue, terminal flags, and the count of
/// instructions executed so far.
#[verifier::ext_equal]
pub ghost struct MState {
    pub mem: MemModel,
    pub ip: nat,
    pub input: Seq<Num>,
    pub cursor: nat,
    pub output: Seq<Num>,
    pub halt: bool,
    pub blocking: bool,
    pub iteration: nat,
}

/// The mode list the decoder produces for a raw opcode word when the scratch
/// buffer starts empty, as `execute` always arranges.
pub open spec fn spec_modes(code: Num) -> Seq<ParamMode> {
    Seq::new(decoded_mode_len(0, code), |k: int| param_mode(code as int, k as nat))
}

/// The value an arithmetic or comparison instruction stores: sums and
/// products wrap around the machine word, comparisons store one or zero.
pub open spec fn bin_value(op: Op, p1: Num, p2: Num) -> Num {
    match op {
        Op::Add => p1.wrapping_add(p2),
        Op::Mul => p1.wrapping_mul(p2),
        Op::LT => if p1 < p2 {
            1
        } else {
            0
        },
        Op::EQ => if p1 == p2 {
            1
        } else {
            0
        },
        _ => 0,
    }
}

/// The effect of one operation on the machine state, given the decoded
/// parameter modes (at least three): either the number of cells the
/// instruction consumed (zero meaning the program counter was repositioned or
/// must stay put) together with the successor state, or the error that
/// aborted it, in which case the state is unchanged.
pub open spec fn spec_apply(op: Op, modes: Seq<ParamMode>, s: MState) -> Result<
    (nat, MState),
    ErrorStatus,
> {
    match op {
        Op::Add | Op::Mul | Op::LT | Op::EQ => match s.mem.load((s.ip + 1) as nat, modes[0]) {
            Err(e) => Err(e),
            Ok(p1) => match s.mem.load((s.ip + 2) as nat, modes[1]) {
                Err(e) => Err(e),
                Ok(p2) => match s.mem.store((s.ip + 3) as nat, bin_value(op, p1, p2), modes[2]) {
                    Err(e) => Err(e),
                    Ok(mm) => Ok((4nat, MState { mem: mm, ..s })),
                },
            },
        },
        Op::Input => if s.cursor < s.input.len() {
            match s.mem.store((s.ip + 1) as nat, s.input[s.cursor as int], modes[0]) {
                Err(e) => Err(e),
                Ok(mm) => Ok((2nat, MState { mem: mm, cursor: (s.cursor + 1) as nat, ..s })),
            }
        } else {
            Ok((0nat, MState { blocking: true, ..s }))
        },
        Op::Output => match s.mem.load((s.ip + 1) as nat, modes[0]) {
            Err(e) => Err(e),
            Ok(v) => Ok((2nat, MState { output: s.output.push(v), ..s })),
        },
        Op::JNZ => match s.mem.load((s.ip + 1) as nat, modes[0]) {
            Err(e) => Err(e),
            Ok(p1) => match s.mem.load((s.ip + 2) as nat, modes[1]) {
                Err(e) => Err(e),
                Ok(t) => if p1 != 0 {
                    if t < 0 {
                        Err(ErrorStatus::IllegalMemoryAccess)
                    } else {
                        Ok((0nat, MState { ip: t as nat, ..s }))
                    }
                } else {
                    Ok((3nat, s))
                },
            },
        },
        Op::JZ => match s.mem.load((s.ip + 1) as nat, modes[0]) {
            Err(e) => Err(e),
            Ok(p1) => match s.mem.load((s.ip + 2) as nat, modes[1]) {
                Err(e) => Err(e),
                Ok(t) => if p1 == 0 {
                    if t < 0 {
                        Err(ErrorStatus::IllegalMemoryAccess)
                    } else {
                        Ok((0nat, MState { ip: t as nat, ..s }))
                    }
                } else {
                    Ok((3nat, s))
                },
            },
        },
        Op::ARB => match s.mem.load((s.ip + 1) as nat, modes[0]) {
            Err(e) => Err(e),
            Ok(v) => match s.mem.adjust(v) {
                Err(e) => Err(e),
                Ok(mm) => Ok((2nat, MState { mem: mm, ..s })),
            },
        },
        Op::Halt => Ok((1nat, MState { halt: true, ..s })),
    }
}

/// What one fetch-decode-execute iteration leaves behind.
#[verifier::ext_equal]
pub ghost enum RunOutcome {
    /// No terminal condition fired; the loop goes around again.
    Running(MState),
    /// The machine executed Halt; it will never run again.
    Halted(MState),
    /// An Input instruction found the queue exhausted; the machine can be
    /// resumed once more input is supplied.
    Blocked(MState),
    /// An error aborted the iteration; the state is the one the failing
    /// iteration started from.
    Failed(MState, ErrorStatus),
}

/// One iteration of the fetch-decode-execute loop. The machine refuses to
/// execute more than `usize::MAX` instructions over its lifetime; fetching at
/// or past the virtual size is an error, since no valid program runs off the
/// end of its memory.
pub open spec fn spec_step(s: MState) -> RunOutcome {
    if s.iteration >= usize::MAX {
        RunOutcome::Failed(s, ErrorStatus::OutOfBounds)
    } else if s.ip >= s.mem.virtual_size() {
        RunOutcome::Failed(s, ErrorStatus::UnterminatedProgram)
    } else {
        let raw = s.mem.cell(s.ip);
        match spec_decode_op(raw) {
            Err(e) => RunOutcome::Failed(s, e),
            Ok(op) => match spec_apply(op, spec_modes(raw), s) {
                Err(e) => RunOutcome::Failed(s, e),
                Ok((w, s2)) => {
                    let s3 = MState {
                        ip: (s2.ip + w) as nat,
                        iteration: (s.iteration + 1) as nat,
                        ..s2
                    };
                    if s3.halt {
                        RunOutcome::Halted(s3)
                    } else if s3.blocking {
                        RunOutcome::Blocked(s3)
                    } else {
                        RunOutcome::Running(s3)
                    }
                },
            },
        }
    }
}

/// `n` iterations of the loop from `s`, stopping early at the first terminal
/// outcome.
pub open spec fn run_n(s: MState, n: nat) -> RunOutcome
    decreases n,
{
    if n == 0 {
        RunOutcome::Running(s)
    } else {
        match run_n(s, (n - 1) as nat) {
            RunOutcome::Running(s2) => spec_step(s2),
            done => done,
        }
    }
}

/// Facts every successful operation guarantees: the width is at most four
/// cells, only width-zero operations reposition the program counter, the
/// input queue itself is never modified, the cursor never moves backward, and
/// the output queue only grows at the end.
pub proof fn lemma_spec_apply_props(op: Op, modes: Seq<ParamMode>, s: MState)
    ensures
        match spec_apply(op, modes, s) {
            Ok(ws) => {
                &&& ws.0 <= 4
                &&& (ws.0 != 0 ==> ws.1.ip == s.ip)
                &&& ws.1.input == s.input
                &&& s.cursor <= ws.1.cursor
                &&& s.output.is_prefix_of(ws.1.output)
                &&& ws.1.halt == (s.halt || op is Halt)
                &&& ws.1.iteration == s.iteration
            },
            Err(_) => true,
        },
{
    match spec_apply(op, modes, s) {
        Ok(ws) => {
            assert(s.output.is_prefix_of(ws.1.output)) by {
                if ws.1.output != s.output {
                    assert(s.output.is_prefix_of(s.output.push(ws.1.output.last())));
                }
                assert(s.output.is_prefix_of(s.output));
            }
        },
        Err(_) => {},
    }
}

/// Law: Add, Multiply, LessThan and Equals never move the program counter
/// themselves, and each reports exactly its own width of four cells, so the
/// counter only ever advances past them.
pub proof fn lemma_arithmetic_keeps_counter(op: Op, modes: Seq<ParamMode>, s: MState)
    requires
        op is Add || op is Mul || op is LT || op is EQ,
    ensures
        match spec_apply(op, modes, s) {
            Ok(ws) => ws.0 == 4 && ws.1.ip == s.ip,
            Err(_) => true,
        },
{
}

/// Law: an Input instruction on an exhausted queue blocks: it consumes no
/// cells and leaves everything, the program counter and cursor included,
/// untouched except for the blocked flag, so the same instruction is retried
/// on the next call once input arrives.
pub proof fn lemma_input_blocks_on_exhausted_queue(modes: Seq<ParamMode>, s: MState)
    requires
        s.input.len() <= s.cursor,
    ensures
        spec_apply(Op::Input, modes, s) == Ok::<(nat, MState), ErrorStatus>(
            (0nat, MState { blocking: true, ..s }),
        ),
{
}

/// Law: an Input instruction that finds a value consumes exactly the one at
/// the cursor, in queue order: the cursor advances by one, that value is
/// stored where the first parameter points, and nothing else changes.
pub proof fn lemma_input_consumes_in_fifo_order(modes: Seq<ParamMode>, s: MState, t: nat)
    requires
        s.cursor < s.input.len(),
        s.mem.write_target((s.ip + 1) as nat, modes[0]) == Ok::<nat, ErrorStatus>(t),
        spec_apply(Op::Input, modes, s) is Ok,
    ensures
        ({
            let ws = spec_apply(Op::Input, modes, s)->Ok_0;
            &&& ws.0 == 2
            &&& ws.1.cursor == s.cursor + 1
            &&& ws.1.mem == s.mem.store_raw(t, s.input[s.cursor as int])->Ok_0
            &&& ws.1.ip == s.ip
            &&& ws.1.output == s.output
        }),
{
}

/// Law: across one loop iteration the input cursor advances by at most one,
/// and it advances exactly when the fetched instruction is an Input that
/// found an unconsumed value: a run consumes one queued value per Input
/// instruction encountered, in queue order, and nothing else touches the
/// cursor.
pub proof fn lemma_step_consumes_at_most_one_input(s: MState)
    ensures
        match spec_step(s) {
            RunOutcome::Running(s2) | RunOutcome::Halted(s2) | RunOutcome::Blocked(s2) => {
                &&& s.cursor <= s2.cursor <= s.cursor + 1
                &&& (s2.cursor == s.cursor + 1 <==> (spec_decode_op(s.mem.cell(s.ip))
                    == Ok::<Op, ErrorStatus>(Op::Input) && s.cursor < s.input.len()))
            },
            RunOutcome::Failed(_, _) => true,
        },
{
}

/// Law: a conditional jump whose condition fires relocates the program
/// counter to the resolved target and consumes no cells, so no width-based
/// advancement ever follows it; one whose condition does not fire changes
/// nothing and falls through by its own width. A negative target is an
/// illegal access.
pub proof fn lemma_jumps_relocate_counter(op: Op, modes: Seq<ParamMode>, s: MState, p1: Num, t: Num)
    requires
        op is JNZ || op is JZ,
        s.mem.load((s.ip + 1) as nat, modes[0]) == Ok::<Num, ErrorStatus>(p1),
        s.mem.load((s.ip + 2) as nat, modes[1]) == Ok::<Num, ErrorStatus>(t),
    ensures
        ({
            let taken = if op is JNZ {
                p1 != 0
            } else {
                p1 == 0
            };
            &&& (taken && t >= 0 ==> spec_apply(op, modes, s) == Ok::<(nat, MState), ErrorStatus>(
                (0nat, MState { ip: t as nat, ..s }),
            ))
            &&& (taken && t < 0 ==> spec_apply(op, modes, s) == Err::<(nat, MState), ErrorStatus>(
                ErrorStatus::IllegalMemoryAccess,
            ))
            &&& (!taken ==> spec_apply(op, modes, s) == Ok::<(nat, MState), ErrorStatus>((3nat, s)))
        }),
{
}

/// A complete Intcode machine: memory, both queues, the program counter, the
/// terminal flags, and the instruction counter. All fields are deliberately
/// public: collaborators and tests inspect them directly.
#[derive(Debug, Clone, PartialEq)]
pub struct IntCodeMachine {
    pub memory: Memory,
    pub input_pointer: usize,
    pub input_buffer: Vec<Num>,
    pub output_buffer: Vec<Num>,
    pub ip: usize,
    pub blocking: bool,
    pub halt: bool,
    pub iteration: usize,
}

impl IntCodeMachine {
    pub open spec fn wf(self) -> bool {
        self.memory.wf()
    }

    /// The mathematical state this machine value represents.
    pub open spec fn model(self) -> MState {
        MState {
            mem: self.memory.model(),
            ip: self.ip as nat,
            input: self.input_buffer@,
            cursor: self.input_pointer as nat,
            output: self.output_buffer@,
            halt: self.halt,
            blocking: self.blocking,
            iteration: self.iteration as nat,
        }
    }

    /// Builds a machine over `code`, pre-loading `input_buffer`, with memory
    /// paged in chunks of `page_size` cells.
    pub fn new(code: Vec<Num>, input_buffer: Vec<Num>, page_size: usize) -> (m: IntCodeMachine)
        requires
            1 <= page_size,
            code@.len() + page_size <= usize::MAX - 4,
        ensures
            m.wf(),
            m.model() == (MState {
                mem: MemModel::init(code@, page_size as nat),
                ip: 0,
                input: input_buffer@,
                cursor: 0,
                output: Seq::<Num>::empty(),
                halt: false,
                blocking: false,
                iteration: 0,
            }),
    {
        let m = IntCodeMachine {
            ip: 0,
            input_pointer: 0,
            input_buffer,
            output_buffer: Vec::new(),
            memory: Memory::from_vec(page_size, code),
            blocking: false,
            halt: false,
            iteration: 0,
        };
        proof {
            assert(m.model() =~= MState {
                mem: MemModel::init(code@, page_size as nat),
                ip: 0,
                input: m.input_buffer@,
                cursor: 0,
                output: Seq::<Num>::empty(),
                halt: false,
                blocking: false,
                iteration: 0,
            });
        }
        m
    }

    /// Runs the fetch-decode-execute loop until the machine halts, blocks on
    /// exhausted input, or fails. The result is exactly what iterating
    /// `spec_step` from this machine's state (with the blocked flag cleared,
    /// as every call starts) produces after some number of iterations.
    #[verifier::loop_isolation(false)]
    pub fn execute(&mut self) -> (r: Result<ExecutionStatus, ErrorStatus>)
        requires
            old(self).wf(),
        ensures
            final(self).wf(),
            final(self).input_buffer@ == old(self).input_buffer@,
            old(self).input_pointer <= final(self).input_pointer,
            old(self).output_buffer@.is_prefix_of(final(self).output_buffer@),
            ({
                let s0 = MState { blocking: false, ..old(self).model() };
                match r {
                    Ok(ExecutionStatus::Halted) => final(self).halt && exists|n: nat|
                        #[trigger] run_n(s0, n) == RunOutcome::Halted(
                        final(self).model(),
                    ),
                    Ok(ExecutionStatus::Blocking) => final(self).blocking && !final(self).halt
                        && exists|n: nat| #[trigger] run_n(s0, n) == RunOutcome::Blocked(
                        final(self).model(),
                    ),
                    Err(e) => exists|n: nat| #[trigger] run_n(s0, n) == RunOutcome::Failed(
                        final(self).model(),
                        e,
                    ),
                }
            }),
    {
        let mut modes: Vec<ParamMode> = Vec::with_capacity(5);
        self.blocking = false;
        let ghost s0 = self.model();
        let ghost mut steps: nat = 0;
        proof {
            assert(s0 =~= MState { blocking: false, ..old(self).model() });
        }
        loop
            invariant
                self.wf(),
                steps >= 0,
                run_n(s0, steps) == RunOutcome::Running(self.model()),
                self.input_buffer@ == old(self).input_buffer@,
                old(self).input_pointer <= self.input_pointer,
                old(self).output_buffer@.is_prefix_of(self.output_buffer@),
            decreases usize::MAX - self.iteration,
        {
            let ghost s_head = self.model();
            if self.iteration == usize::MAX {
                proof {
                    assert(run_n(s0, steps + 1) == RunOutcome::Failed(
                        self.model(),
                        ErrorStatus::OutOfBounds,
                    ));
                }
                return Err(ErrorStatus::OutOfBounds);
            }
            if self.ip >= self.memory.virtual_size() {
                proof {
                    assert(run_n(s0, steps + 1) == RunOutcome::Failed(
                        self.model(),
                        ErrorStatus::UnterminatedProgram,
                    ));
                }
                return Err(ErrorStatus::UnterminatedProgram);
            }
            modes.clear();
            let raw = match self.memory.read_raw(self.ip) {
                Ok(v) => v,
                Err(e) => return Err(e),
            };
            let op = match deconstruct_opcode(raw, &mut modes) {
                Ok(op) => op,
                Err(e) => {
                    proof {
                        assert(run_n(s0, steps + 1) == RunOutcome::Failed(self.model(), e));
                    }
                    return Err(e);
                },
            };
            proof {
                assert(modes@ =~= spec_modes(raw));
                lemma_spec_apply_props(op, modes@, s_head);
            }
            let cons = match op.apply(modes.as_slice(), self) {
                Ok(c) => c,
                Err(e) => {
                    proof {
                        assert(run_n(s0, steps + 1) == RunOutcome::Failed(self.model(), e));
                    }
                    return Err(e);
                },
            };
            self.iteration = self.iteration + 1;
            self.ip = self.ip + cons;
            proof {
                let stepped = spec_step(s_head);
                assert(stepped matches RunOutcome::Running(s3) ==> s3 =~= self.model());
                assert(stepped matches RunOutcome::Halted(s3) ==> s3 =~= self.model());
                assert(stepped matches RunOutcome::Blocked(s3) ==> s3 =~= self.model());
            }
            if self.halt {
                proof {
                    assert(run_n(s0, steps + 1) == RunOutcome::Halted(self.model()));
                }
                return Ok(ExecutionStatus::Halted);
            }
            if self.blocking {
                proof {
                    assert(run_n(s0, steps + 1) == RunOutcome::Blocked(self.model()));
                }
                return Ok(ExecutionStatus::Blocking);
            }
            proof {
                steps = steps + 1;
            }
        }
    }
}

} // verus!
