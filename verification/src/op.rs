use vstd::prelude::*;

verus! {

use crate::machine::spec_apply;
use crate::machine::IntCodeMachine;
use crate::Num;
use crate::status::ErrorStatus;
use vstd::arithmetic::div_mod::lemma_basic_div;
use vstd::arithmetic::div_mod::lemma_div_denominator;
use vstd::arithmetic::div_mod::lemma_div_pos_is_pos;

/// How one instruction parameter is interpreted: as an address, as the value
/// itself, or as an offset from the relative base.
#[derive(Debug, Clone, Copy, PartialEq)]
pub enum ParamMode {
    Immediate,
    Relative,
    Position,
}

/// A decoded parameter: the raw cell value paired with its addressing mode.
#[derive(Debug, Clone, PartialEq)]
pub struct Operand {
    #[allow(dead_code)]
    val: Num,
    #[allow(dead_code)]
    mode: ParamMode,
}

/// The closed set of operations the machine understands.
#[derive(Debug, Clone, PartialEq)]
pub enum Op {
    Add,
    Mul,
    Input,
    Output,
    JNZ,
    JZ,
    LT,
    EQ,
    ARB,
    Halt,
}

/// Truncating remainder of `code` by 100: the two low decimal digits of the
/// raw opcode word select the operation. Negative words keep their sign, so
/// they can never select a valid operation.
pub open spec fn opcode_selector(code: int) -> int {
    if code >= 0 {
        code % 100
    } else {
        -((-code) % 100)
    }
}

/// Truncating quotient of `code` by 100: the remaining high decimal digits
/// carry the per-parameter addressing modes, least significant digit first.
pub open spec fn mode_digits(code: int) -> int {
    if code >= 0 {
        code / 100
    } else {
        -((-code) / 100)
    }
}

/// The operation selected by a raw selector value, if any.
pub open spec fn op_from_selector(n: int) -> Option<Op> {
    if n == 1 {
        Some(Op::Add)
    } else if n == 2 {
        Some(Op::Mul)
    } else if n == 3 {
        Some(Op::Input)
    } else if n == 4 {
        Some(Op::Output)
    } else if n == 5 {
        Some(Op::JNZ)
    } else if n == 6 {
        Some(Op::JZ)
    } else if n == 7 {
        Some(Op::LT)
    } else if n == 8 {
        Some(Op::EQ)
    } else if n == 9 {
        Some(Op::ARB)
    } else if n == 99 {
        Some(Op::Halt)
    } else {
        None
    }
}

/// What decoding a raw opcode word yields: the operation, or the error that
/// names the unrecognized selector.
pub open spec fn spec_decode_op(code: Num) -> Result<Op, ErrorStatus> {
    match op_from_selector(opcode_selector(code as int)) {
        Some(op) => Ok(op),
        None => Err(ErrorStatus::UnrecognizedOp(opcode_selector(code as int) as Num)),
    }
}

/// A mode digit maps to a parameter mode; any digit other than 1 or 2 falls
/// back to Position.
pub open spec fn mode_of_digit(d: int) -> ParamMode {
    if d == 1 {
        ParamMode::Immediate
    } else if d == 2 {
        ParamMode::Relative
    } else {
        ParamMode::Position
    }
}

pub open spec fn pow10(k: nat) -> int
    decreases k,
{
    if k == 0 {
        1
    } else {
        10 * pow10((k - 1) as nat)
    }
}

/// How many decimal digits of `t` remain to be read (zero for `t <= 0`,
/// matching the convention that leading zero digits are never written).
pub open spec fn mode_digit_count(t: int) -> nat
    decreases t,
{
    if t <= 0 {
        0nat
    } else {
        1 + mode_digit_count(t / 10)
    }
}

/// The addressing mode of parameter `k` (0-based) of the raw opcode word
/// `code`: the `k`-th decimal digit of the mode digits, Position once the
/// digits are exhausted or the word is negative.
pub open spec fn param_mode(code: int, k: nat) -> ParamMode {
    let t = mode_digits(code);
    if t <= 0 {
        ParamMode::Position
    } else {
        mode_of_digit((t / pow10(k)) % 10)
    }
}

/// The number of modes `deconstruct_opcode` leaves in a buffer that held
/// `base` entries: one per explicit digit, padded so at least three modes are
/// present in the buffer.
pub open spec fn decoded_mode_len(base: nat, code: Num) -> nat {
    let c = base + mode_digit_count(mode_digits(code as int));
    if c >= 3 {
        c
    } else {
        3
    }
}

pub proof fn lemma_pow10_pos(k: nat)
    ensures
        pow10(k) >= 1,
    decreases k,
{
    if k > 0 {
        lemma_pow10_pos((k - 1) as nat);
    }
}

/// Past the last explicit digit the quotient is zero, so the implied mode is
/// Position.
pub proof fn lemma_digits_exhausted(t: int, j: nat)
    requires
        t >= 0,
        j >= mode_digit_count(t),
    ensures
        t / pow10(j) == 0,
    decreases j,
{
    lemma_pow10_pos(j);
    if t < pow10(j) {
        lemma_basic_div(t, pow10(j));
    } else {
        // t >= pow10(j) >= 1, so at least one digit remains and j >= 1
        lemma_pow10_pos((j - 1) as nat);
        lemma_div_denominator(t, 10, pow10((j - 1) as nat));
        lemma_div_pos_is_pos(t, 10);
        lemma_digits_exhausted(t / 10, (j - 1) as nat);
    }
}

/// Before the last explicit digit the quotient is still positive.
pub proof fn lemma_digits_remain(t: int, j: nat)
    requires
        t >= 1,
        j < mode_digit_count(t),
    ensures
        t / pow10(j) >= 1,
    decreases j,
{
    lemma_pow10_pos(j);
    if j == 0 {
        assert(pow10(0) == 1);
        lemma_basic_div_by_one(t);
    } else {
        lemma_pow10_pos((j - 1) as nat);
        lemma_div_denominator(t, 10, pow10((j - 1) as nat));
        lemma_div_pos_is_pos(t, 10);
        if t / 10 <= 0 {
            assert(mode_digit_count(t / 10) == 0);
            assert(mode_digit_count(t) == 1);
            assert(false);
        }
        lemma_digits_remain(t / 10, (j - 1) as nat);
    }
}

proof fn lemma_basic_div_by_one(t: int)
    requires
        t >= 0,
    ensures
        t / 1 == t,
{
    vstd::arithmetic::div_mod::lemma_fundamental_div_mod(t, 1);
}

/// Splits a raw opcode word into its operation and pushes the per-parameter
/// addressing modes onto `modes` (which is not cleared first): one mode per
/// explicit digit, then Position until the buffer holds at least three.
pub fn deconstruct_opcode(opcode: Num, modes: &mut Vec<ParamMode>) -> (r: Result<Op, ErrorStatus>)
    ensures
        r == spec_decode_op(opcode),
        final(modes)@.len() == decoded_mode_len(old(modes)@.len(), opcode),
        forall|k: int| 0 <= k < old(modes)@.len() ==> final(modes)@[k] == old(modes)@[k],
        forall|k: int|
            old(modes)@.len() <= k < final(modes)@.len() ==> final(modes)@[k] == param_mode(
                opcode as int,
                (k - old(modes)@.len()) as nat,
            ),
{
    let sel = opcode.checked_rem(100).unwrap();
    let o_signed = opcode.checked_div(100).unwrap();
    let ghost base = modes@.len();
    let ghost t = mode_digits(opcode as int);
    proof {
        assert(sel as int == opcode_selector(opcode as int));
        assert(o_signed as int == t);
    }
    if o_signed > 0 {
        let mut o = o_signed as usize;
        let ghost mut j: nat = 0;
        proof {
            assert(pow10(0) == 1);
            lemma_basic_div_by_one(t);
        }
        while o > 0
            invariant
                base == old(modes)@.len(),
                t == mode_digits(opcode as int),
                t >= 1,
                o as int == t / pow10(j),
                j <= mode_digit_count(t),
                modes@.len() == base + j,
                forall|k: int| 0 <= k < base ==> modes@[k] == old(modes)@[k],
                forall|k: int|
                    base <= k < modes@.len() ==> modes@[k] == param_mode(
                        opcode as int,
                        (k - base) as nat,
                    ),
            decreases o,
        {
            proof {
                if j >= mode_digit_count(t) {
                    lemma_digits_exhausted(t, j);
                    assert(false);
                }
                assert(param_mode(opcode as int, j) == mode_of_digit((t / pow10(j)) % 10));
            }
            let d = o % 10;
            if d == 1 {
                modes.push(ParamMode::Immediate);
            } else if d == 2 {
                modes.push(ParamMode::Relative);
            } else {
                modes.push(ParamMode::Position);
            }
            proof {
                lemma_pow10_pos(j);
                lemma_div_denominator(t, pow10(j), 10);
                assert(pow10(j) * 10 == 10 * pow10(j));
                assert(pow10(j + 1) == 10 * pow10(j));
                j = j + 1;
            }
            o = o / 10;
        }
        proof {
            if j < mode_digit_count(t) {
                lemma_digits_remain(t, j);
                assert(false);
            }
            assert(j == mode_digit_count(t));
        }
    } else {
        proof {
            assert(mode_digit_count(t) == 0);
        }
    }
    while modes.len() < 3
        invariant
            base == old(modes)@.len(),
            t == mode_digits(opcode as int),
            modes@.len() >= base + mode_digit_count(t),
            modes@.len() <= (if base + mode_digit_count(t) >= 3 {
                base + mode_digit_count(t)
            } else {
                3nat
            }),
            forall|k: int| 0 <= k < base ==> modes@[k] == old(modes)@[k],
            forall|k: int|
                base <= k < modes@.len() ==> modes@[k] == param_mode(
                    opcode as int,
                    (k - base) as nat,
                ),
        decreases 3 - modes@.len(),
    {
        proof {
            let ghost k = (modes@.len() - base) as nat;
            if t >= 1 {
                lemma_digits_exhausted(t, k);
            }
            assert(param_mode(opcode as int, k) == ParamMode::Position);
        }
        modes.push(ParamMode::Position);
    }
    Op::new(sel)
}

impl Op {
    /// Looks up the operation for a selector value.
    pub fn new(n: Num) -> (r: Result<Op, ErrorStatus>)
        ensures
            r == (match op_from_selector(n as int) {
                Some(op) => Ok::<Op, ErrorStatus>(op),
                None => Err::<Op, ErrorStatus>(ErrorStatus::UnrecognizedOp(n)),
            }),
    {
        match n {
            1 => Ok(Op::Add),
            2 => Ok(Op::Mul),
            3 => Ok(Op::Input),
            4 => Ok(Op::Output),
            5 => Ok(Op::JNZ),
            6 => Ok(Op::JZ),
            7 => Ok(Op::LT),
            8 => Ok(Op::EQ),
            9 => Ok(Op::ARB),
            99 => Ok(Op::Halt),
            _ => Err(ErrorStatus::UnrecognizedOp(n)),
        }
    }

    /// Performs this operation's effect on `machine`: reads its parameters
    /// under the decoded modes, mutates memory, the queues, the flags or the
    /// program counter as the semantics table prescribes, and returns how
    /// many cells the instruction consumed. Zero means the program counter
    /// was already repositioned (jumps) or must stay put (a blocked Input).
    pub fn apply(&self, modes: &[ParamMode], machine: &mut IntCodeMachine) -> (r: Result<
        usize,
        ErrorStatus,
    >)
        requires
            old(machine).wf(),
            modes@.len() >= 3,
            old(machine).ip <= usize::MAX - 3,
        ensures
            final(machine).wf(),
            match spec_apply(*self, modes@, old(machine).model()) {
                Ok(ws) => r is Ok && r->Ok_0 as nat == ws.0 && final(machine).model() == ws.1,
                Err(e) => r == Err::<usize, ErrorStatus>(e) && *final(machine) == *old(machine),
            },
    {
        let ghost s = old(machine).model();
        match self {
            Op::Add | Op::Mul | Op::LT | Op::EQ => {
                let p1 = match machine.memory.read(machine.ip + 1, modes[0]) {
                    Ok(v) => v,
                    Err(e) => return Err(e),
                };
                let p2 = match machine.memory.read(machine.ip + 2, modes[1]) {
                    Ok(v) => v,
                    Err(e) => return Err(e),
                };
                let value = match self {
                    Op::Add => p1.wrapping_add(p2),
                    Op::Mul => p1.wrapping_mul(p2),
                    Op::LT => crate::to_num(p1 < p2),
                    _ => crate::to_num(p1 == p2),
                };
                match machine.memory.write(machine.ip + 3, value, modes[2]) {
                    Ok(_) => {},
                    Err(e) => return Err(e),
                }
                proof {
                    let ws = spec_apply(*self, modes@, s)->Ok_0;
                    assert(machine.model() =~= ws.1);
                }
                Ok(self.size())
            },
            Op::Input => {
                if machine.input_pointer < machine.input_buffer.len() {
                    let n = machine.input_buffer[machine.input_pointer];
                    match machine.memory.write(machine.ip + 1, n, modes[0]) {
                        Ok(_) => {},
                        Err(e) => return Err(e),
                    }
                    machine.input_pointer = machine.input_pointer + 1;
                    proof {
                        let ws = spec_apply(*self, modes@, s)->Ok_0;
                        assert(machine.model() =~= ws.1);
                    }
                    Ok(self.size())
                } else {
                    machine.blocking = true;
                    proof {
                        let ws = spec_apply(*self, modes@, s)->Ok_0;
                        assert(machine.model() =~= ws.1);
                    }
                    Ok(0)
                }
            },
            Op::Output => {
                let v = match machine.memory.read(machine.ip + 1, modes[0]) {
                    Ok(v) => v,
                    Err(e) => return Err(e),
                };
                machine.output_buffer.push(v);
                proof {
                    let ws = spec_apply(*self, modes@, s)->Ok_0;
                    assert(machine.model() =~= ws.1);
                }
                Ok(self.size())
            },
            Op::JNZ => {
                let p1 = match machine.memory.read(machine.ip + 1, modes[0]) {
                    Ok(v) => v,
                    Err(e) => return Err(e),
                };
                let target = match machine.memory.read(machine.ip + 2, modes[1]) {
                    Ok(v) => v,
                    Err(e) => return Err(e),
                };
                if p1 != 0 {
                    if target < 0 {
                        return Err(ErrorStatus::IllegalMemoryAccess);
                    }
                    machine.ip = target as usize;
                    proof {
                        let ws = spec_apply(*self, modes@, s)->Ok_0;
                        assert(machine.model() =~= ws.1);
                    }
                    Ok(0)
                } else {
                    Ok(self.size())
                }
            },
            Op::JZ => {
                let p1 = match machine.memory.read(machine.ip + 1, modes[0]) {
                    Ok(v) => v,
                    Err(e) => return Err(e),
                };
                let target = match machine.memory.read(machine.ip + 2, modes[1]) {
                    Ok(v) => v,
                    Err(e) => return Err(e),
                };
                if p1 == 0 {
                    if target < 0 {
                        return Err(ErrorStatus::IllegalMemoryAccess);
                    }
                    machine.ip = target as usize;
                    proof {
                        let ws = spec_apply(*self, modes@, s)->Ok_0;
                        assert(machine.model() =~= ws.1);
                    }
                    Ok(0)
                } else {
                    Ok(self.size())
                }
            },
            Op::ARB => {
                let p1 = match machine.memory.read(machine.ip + 1, modes[0]) {
                    Ok(v) => v,
                    Err(e) => return Err(e),
                };
                match machine.memory.adjust_relative_base(p1) {
                    Ok(_) => {},
                    Err(e) => return Err(e),
                }
                proof {
                    let ws = spec_apply(*self, modes@, s)->Ok_0;
                    assert(machine.model() =~= ws.1);
                }
                Ok(self.size())
            },
            Op::Halt => {
                machine.halt = true;
                proof {
                    let ws = spec_apply(*self, modes@, s)->Ok_0;
                    assert(machine.model() =~= ws.1);
                }
                Ok(self.size())
            },
        }
    }

    /// The fixed width of an instruction: the opcode word plus its parameters.
    pub open spec fn spec_size(self) -> nat {
        match self {
            Op::Add => 4,
            Op::Mul => 4,
            Op::Input => 2,
            Op::Output => 2,
            Op::JNZ => 3,
            Op::JZ => 3,
            Op::LT => 4,
            Op::EQ => 4,
            Op::ARB => 2,
            Op::Halt => 1,
        }
    }

    /// The number of memory cells this instruction occupies.
    pub fn size(&self) -> (r: usize)
        ensures
            r as nat == self.spec_size(),
            1 <= r <= 4,
    {
        match self {
            Op::Add => 4,
            Op::Mul => 4,
            Op::Input => 2,
            Op::Output => 2,
            Op::JNZ => 3,
            Op::JZ => 3,
            Op::LT => 4,
            Op::EQ => 4,
            Op::ARB => 2,
            Op::Halt => 1,
        }
    }
}

} // verus!
