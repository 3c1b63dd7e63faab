//! What each instruction does, stated from the bytes of its operation code
//! alone: the registers, memory, index register, stack and program counter
//! that running it leaves, and what it asks of the platform.
use vstd::prelude::*;
use crate::chip8::data::{nibble_at, OpCode, RegisterIndex};
use crate::chip8::interpreter::{
    advanced, decodes_to, execute, known_opcode, opcode_at, platform_step, steps, MachineState, Operation,
    Reply,
};
use crate::chip8::managed_interpreter::drawn;
use crate::chip8::platform::{Platform, Point};
use crate::chip8::Error;

verus! {

/// The state `s` with the program counter moved past a two-byte
/// instruction and the registers replaced by `regs`.
pub open spec fn next_with_registers(s: MachineState, regs: Seq<u8>) -> MachineState {
    MachineState { registers: regs, pc: (s.pc + 2) % 4096, ..s }
}

/// `8xyN`, for `N` one of 0 to 7 or E, computes with registers `x` and `y`:
/// 0 copies `y` into `x`; 1, 2 and 3 store the or, and, exclusive or of the
/// two into `x` and clear register F; 4 adds `y` to `x` (modulo 256) with
/// the carry in F; 5 subtracts `y` from `x` and 7 `x` from `y` into `x`,
/// with F set when no borrow was needed; 6 stores half of `y` in `x` with the
/// low bit of `x` in F; E stores twice `y` (modulo 256) in `x` with the high
/// bit of `x` in F. The platform is left alone.
#[verifier::spinoff_prover]
#[verifier::rlimit(40)]
pub proof fn lemma_register_arithmetic<P: Platform>(
    s: MachineState,
    p: P,
    t: MachineState,
    q: P,
    r: Result<(), Error>,
    x: int,
    y: int,
    n: int,
)
    requires
        steps(s, p, t, q, r),
        0 <= x < 16,
        0 <= y < 16,
        0 <= n < 8 || n == 14,
        opcode_at(s) == 0x8000 + 256 * x + 16 * y + n,
    ensures
        r is Ok,
        q == p,
        ({
            let vx = s.registers[x];
            let vy = s.registers[y];
            let regs = s.registers;
            &&& n == 0 ==> t == next_with_registers(s, regs.update(x, vy))
            &&& n == 1 ==> t == next_with_registers(s, regs.update(x, vx | vy).update(15, 0))
            &&& n == 2 ==> t == next_with_registers(s, regs.update(x, vx & vy).update(15, 0))
            &&& n == 3 ==> t == next_with_registers(s, regs.update(x, vx ^ vy).update(15, 0))
            &&& n == 4 ==> t == next_with_registers(
                s,
                regs.update(x, ((vx + vy) % 256) as u8).update(15, if vx + vy > 255 { 1 } else { 0 }),
            )
            &&& n == 5 ==> t == next_with_registers(
                s,
                regs.update(x, ((vx - vy + 256) % 256) as u8).update(15, if vx >= vy { 1 } else { 0 }),
            )
            &&& n == 6 ==> t == next_with_registers(s, regs.update(x, (vy / 2) as u8).update(15, (vx % 2) as u8))
            &&& n == 7 ==> t == next_with_registers(
                s,
                regs.update(x, ((vy - vx + 256) % 256) as u8).update(15, if vy >= vx { 1 } else { 0 }),
            )
            &&& n == 14 ==> t == next_with_registers(
                s,
                regs.update(x, ((vy * 2) % 256) as u8).update(15, if vx >= 128 { 1 } else { 0 }),
            )
        }),
{
    let code = opcode_at(s);
    lemma_nibbles(code, 8, x, y, n);
    assert(known_opcode(code));
    let (op, rep) = lemma_step_parts(s, p, t, q, r);
    lemma_decodes_arithmetic(code, op, x, y, n);
    match op {
        Operation::SetToRegister(a, b) => lemma_run_copy(s, a, b, rep),
        Operation::Or(a, b) => lemma_run_or(s, a, b, rep),
        Operation::And(a, b) => lemma_run_and(s, a, b, rep),
        Operation::Xor(a, b) => lemma_run_xor(s, a, b, rep),
        Operation::AddRegister(a, b) => lemma_run_add(s, a, b, rep),
        Operation::SubRegister(a, b) => lemma_run_sub(s, a, b, rep),
        Operation::ShiftRight(a, b) => lemma_run_shift_right(s, a, b, rep),
        Operation::SubRegisterReversed(a, b) => lemma_run_sub_reversed(s, a, b, rep),
        Operation::ShiftLeft(a, b) => lemma_run_shift_left(s, a, b, rep),
        _ => {},
    }
}

/// The nibbles of `code`, highest first, are `a`, `b`, `c` and `d`.
proof fn lemma_nibbles(code: u16, a: int, b: int, c: int, d: int)
    requires
        0 <= a < 16,
        0 <= b < 16,
        0 <= c < 16,
        0 <= d < 16,
        code == 4096 * a + 256 * b + 16 * c + d,
    ensures
        nibble_at(code, 3) == a,
        nibble_at(code, 2) == b,
        nibble_at(code, 1) == c,
        nibble_at(code, 0) == d,
        code as int % 256 == 16 * c + d,
        code as int % 4096 == 256 * b + 16 * c + d,
{
    let v = code as int;
    assert(v / 4096 == a) by (nonlinear_arith)
        requires v == 4096 * a + 256 * b + 16 * c + d, 0 <= b < 16, 0 <= c < 16, 0 <= d < 16;
    assert(v % 4096 == 256 * b + 16 * c + d) by (nonlinear_arith)
        requires v == 4096 * a + 256 * b + 16 * c + d, 0 <= b < 16, 0 <= c < 16, 0 <= d < 16;
    assert(v / 256 == 16 * a + b) by (nonlinear_arith)
        requires v == 4096 * a + 256 * b + 16 * c + d, 0 <= c < 16, 0 <= d < 16;
    assert((16 * a + b) % 16 == b) by (nonlinear_arith)
        requires 0 <= b < 16, 0 <= a;
    assert(v / 16 == 256 * a + 16 * b + c) by (nonlinear_arith)
        requires v == 4096 * a + 256 * b + 16 * c + d, 0 <= d < 16;
    assert((256 * a + 16 * b + c) % 16 == c) by (nonlinear_arith)
        requires 0 <= c < 16, 0 <= a, 0 <= b;
    assert(v % 16 == d) by (nonlinear_arith)
        requires v == 4096 * a + 256 * b + 16 * c + d, 0 <= d < 16, 0 <= a, 0 <= b, 0 <= c;
    assert(v % 256 == 16 * c + d) by (nonlinear_arith)
        requires v == 4096 * a + 256 * b + 16 * c + d, 0 <= d < 16, 0 <= c < 16, 0 <= a, 0 <= b;
}

/// A known instruction ran: the instruction it decodes to, and the reply
/// of the platform.
proof fn lemma_step_parts<P: Platform>(s: MachineState, p: P, t: MachineState, q: P, r: Result<(), Error>) -> (res: (
    Operation,
    Reply,
))
    requires
        steps(s, p, t, q, r),
        known_opcode(opcode_at(s)),
    ensures
        r is Ok,
        decodes_to(opcode_at(s), res.0),
        t == execute(advanced(s), res.0, res.1),
        platform_step(advanced(s), res.0, res.1, p, q),
{
    choose|op: Operation, rep: Reply|
        decodes_to(opcode_at(s), op) && t == execute(advanced(s), op, rep) && platform_step(advanced(s), op, rep, p, q)
}

/// An operation code made of the high nibble `hi`, the nibble `x` and the
/// low byte `low`.
proof fn lemma_code_parts(code: u16, hi: int, x: int, low: int)
    requires
        0 <= hi < 16,
        0 <= x < 16,
        0 <= low < 256,
        code == 4096 * hi + 256 * x + low,
    ensures
        nibble_at(code, 3) == hi,
        nibble_at(code, 2) == x,
        nibble_at(code, 1) == low / 16,
        nibble_at(code, 0) == low % 16,
        code as int % 256 == low,
        code as int % 4096 == 256 * x + low,
{
    lemma_nibbles(code, hi, x, low / 16, low % 16);
}

/// Two instructions on from `pc`.
proof fn lemma_two_on(pc: int)
    ensures
        ((pc + 2) % 4096 + 2) % 4096 == (pc + 4) % 4096,
        0 <= pc < 4096 ==> ((pc + 2) % 4096 - 2) % 4096 == pc,
{
    assert(((pc + 2) % 4096 + 2) % 4096 == (pc + 4) % 4096) by (nonlinear_arith);
    assert(0 <= pc < 4096 ==> ((pc + 2) % 4096 - 2) % 4096 == pc) by (nonlinear_arith);
}

// Running each arithmetic instruction, once the program counter moved.

proof fn lemma_run_copy(s: MachineState, a: RegisterIndex, b: RegisterIndex, rep: Reply)
    ensures
        execute(advanced(s), Operation::SetToRegister(a, b), rep) == next_with_registers(
            s,
            s.registers.update(a.value(), s.registers[b.value()]),
        ),
{
    assert(execute(advanced(s), Operation::SetToRegister(a, b), rep) =~= next_with_registers(
        s,
        s.registers.update(a.value(), s.registers[b.value()]),
    ));
}

proof fn lemma_run_or(s: MachineState, a: RegisterIndex, b: RegisterIndex, rep: Reply)
    ensures
        execute(advanced(s), Operation::Or(a, b), rep) == next_with_registers(
            s,
            s.registers.update(a.value(), s.registers[a.value()] | s.registers[b.value()]).update(15, 0),
        ),
{
    assert(execute(advanced(s), Operation::Or(a, b), rep) =~= next_with_registers(
        s,
        s.registers.update(a.value(), s.registers[a.value()] | s.registers[b.value()]).update(15, 0),
    ));
}

proof fn lemma_run_and(s: MachineState, a: RegisterIndex, b: RegisterIndex, rep: Reply)
    ensures
        execute(advanced(s), Operation::And(a, b), rep) == next_with_registers(
            s,
            s.registers.update(a.value(), s.registers[a.value()] & s.registers[b.value()]).update(15, 0),
        ),
{
    assert(execute(advanced(s), Operation::And(a, b), rep) =~= next_with_registers(
        s,
        s.registers.update(a.value(), s.registers[a.value()] & s.registers[b.value()]).update(15, 0),
    ));
}

proof fn lemma_run_xor(s: MachineState, a: RegisterIndex, b: RegisterIndex, rep: Reply)
    ensures
        execute(advanced(s), Operation::Xor(a, b), rep) == next_with_registers(
            s,
            s.registers.update(a.value(), s.registers[a.value()] ^ s.registers[b.value()]).update(15, 0),
        ),
{
    assert(execute(advanced(s), Operation::Xor(a, b), rep) =~= next_with_registers(
        s,
        s.registers.update(a.value(), s.registers[a.value()] ^ s.registers[b.value()]).update(15, 0),
    ));
}

proof fn lemma_run_add(s: MachineState, a: RegisterIndex, b: RegisterIndex, rep: Reply)
    ensures
        execute(advanced(s), Operation::AddRegister(a, b), rep) == next_with_registers(
            s,
            s.registers.update(a.value(), ((s.registers[a.value()] + s.registers[b.value()]) % 256) as u8).update(15, if s.registers[a.value()] + s.registers[b.value()] > 255 { 1 } else { 0 }),
        ),
{
    assert(execute(advanced(s), Operation::AddRegister(a, b), rep) =~= next_with_registers(
        s,
        s.registers.update(a.value(), ((s.registers[a.value()] + s.registers[b.value()]) % 256) as u8).update(15, if s.registers[a.value()] + s.registers[b.value()] > 255 { 1 } else { 0 }),
    ));
}

proof fn lemma_run_sub(s: MachineState, a: RegisterIndex, b: RegisterIndex, rep: Reply)
    ensures
        execute(advanced(s), Operation::SubRegister(a, b), rep) == next_with_registers(
            s,
            s.registers.update(a.value(), ((s.registers[a.value()] - s.registers[b.value()] + 256) % 256) as u8).update(15, if s.registers[a.value()] >= s.registers[b.value()] { 1 } else { 0 }),
        ),
{
    assert(execute(advanced(s), Operation::SubRegister(a, b), rep) =~= next_with_registers(
        s,
        s.registers.update(a.value(), ((s.registers[a.value()] - s.registers[b.value()] + 256) % 256) as u8).update(15, if s.registers[a.value()] >= s.registers[b.value()] { 1 } else { 0 }),
    ));
}

proof fn lemma_run_shift_right(s: MachineState, a: RegisterIndex, b: RegisterIndex, rep: Reply)
    ensures
        execute(advanced(s), Operation::ShiftRight(a, b), rep) == next_with_registers(
            s,
            s.registers.update(a.value(), (s.registers[b.value()] / 2) as u8).update(15, (s.registers[a.value()] % 2) as u8),
        ),
{
    let vx = s.registers[a.value()];
    let vy = s.registers[b.value()];
    assert((vy >> 1u8) == (vy / 2) as u8) by (bit_vector);
    assert((vx & 1u8) == (vx % 2) as u8) by (bit_vector);
    assert(execute(advanced(s), Operation::ShiftRight(a, b), rep) =~= next_with_registers(
        s,
        s.registers.update(a.value(), (s.registers[b.value()] / 2) as u8).update(15, (s.registers[a.value()] % 2) as u8),
    ));
}

proof fn lemma_run_sub_reversed(s: MachineState, a: RegisterIndex, b: RegisterIndex, rep: Reply)
    ensures
        execute(advanced(s), Operation::SubRegisterReversed(a, b), rep) == next_with_registers(
            s,
            s.registers.update(a.value(), ((s.registers[b.value()] - s.registers[a.value()] + 256) % 256) as u8).update(15, if s.registers[b.value()] >= s.registers[a.value()] { 1 } else { 0 }),
        ),
{
    assert(execute(advanced(s), Operation::SubRegisterReversed(a, b), rep) =~= next_with_registers(
        s,
        s.registers.update(a.value(), ((s.registers[b.value()] - s.registers[a.value()] + 256) % 256) as u8).update(15, if s.registers[b.value()] >= s.registers[a.value()] { 1 } else { 0 }),
    ));
}

proof fn lemma_run_shift_left(s: MachineState, a: RegisterIndex, b: RegisterIndex, rep: Reply)
    ensures
        execute(advanced(s), Operation::ShiftLeft(a, b), rep) == next_with_registers(
            s,
            s.registers.update(a.value(), ((s.registers[b.value()] * 2) % 256) as u8).update(15, if s.registers[a.value()] >= 128 { 1 } else { 0 }),
        ),
{
    let vx = s.registers[a.value()];
    let vy = s.registers[b.value()];
    assert((vy << 1u8) == ((vy * 2) % 256) as u8) by (bit_vector);
    assert(((vx & 0x80u8) != 0) == (vx >= 128)) by (bit_vector);
    assert(execute(advanced(s), Operation::ShiftLeft(a, b), rep) =~= next_with_registers(
        s,
        s.registers.update(a.value(), ((s.registers[b.value()] * 2) % 256) as u8).update(15, if s.registers[a.value()] >= 128 { 1 } else { 0 }),
    ));
}

/// An `8xyN` code decodes to the arithmetic instruction `N` on registers
/// `x` and `y`.
proof fn lemma_decodes_arithmetic(code: u16, op: Operation, x: int, y: int, n: int)
    requires
        decodes_to(code, op),
        nibble_at(code, 3) == 8,
        nibble_at(code, 2) == x,
        nibble_at(code, 1) == y,
        nibble_at(code, 0) == n,
    ensures
        n == 0 ==> (op matches Operation::SetToRegister(a, b) && a.value() == x && b.value() == y),
        n == 1 ==> (op matches Operation::Or(a, b) && a.value() == x && b.value() == y),
        n == 2 ==> (op matches Operation::And(a, b) && a.value() == x && b.value() == y),
        n == 3 ==> (op matches Operation::Xor(a, b) && a.value() == x && b.value() == y),
        n == 4 ==> (op matches Operation::AddRegister(a, b) && a.value() == x && b.value() == y),
        n == 5 ==> (op matches Operation::SubRegister(a, b) && a.value() == x && b.value() == y),
        n == 6 ==> (op matches Operation::ShiftRight(a, b) && a.value() == x && b.value() == y),
        n == 7 ==> (op matches Operation::SubRegisterReversed(a, b) && a.value() == x && b.value() == y),
        n == 14 ==> (op matches Operation::ShiftLeft(a, b) && a.value() == x && b.value() == y),
{
}

/// `1nnn` jumps to `nnn`.
#[verifier::spinoff_prover]
#[verifier::rlimit(40)]
pub proof fn lemma_jump<P: Platform>(
    s: MachineState,
    p: P,
    t: MachineState,
    q: P,
    r: Result<(), Error>,
    nnn: int,
)
    requires
        steps(s, p, t, q, r),
        0 <= nnn < 4096,
        opcode_at(s) == 0x1000 + nnn,
    ensures
        r is Ok,
        q == p,
        t == (MachineState { pc: nnn, ..s }),
{
    let code = opcode_at(s);
    lemma_code_parts(code, 1, nnn / 256, nnn % 256);
    assert(known_opcode(code));
    let (op, rep) = lemma_step_parts(s, p, t, q, r);
    lemma_two_on(s.pc);
    match op {
        Operation::Jump(a) => {
            assert(t =~= MachineState { pc: nnn, ..s });
        },
        _ => {},
    }
}

/// `2nnn` pushes the address of the next instruction on the call stack
/// and jumps to `nnn`.
#[verifier::spinoff_prover]
#[verifier::rlimit(40)]
pub proof fn lemma_call<P: Platform>(
    s: MachineState,
    p: P,
    t: MachineState,
    q: P,
    r: Result<(), Error>,
    nnn: int,
)
    requires
        steps(s, p, t, q, r),
        0 <= nnn < 4096,
        opcode_at(s) == 0x2000 + nnn,
    ensures
        r is Ok,
        q == p,
        t == (MachineState { stack: s.stack.push((s.pc + 2) % 4096), pc: nnn, ..s }),
{
    let code = opcode_at(s);
    lemma_code_parts(code, 2, nnn / 256, nnn % 256);
    assert(known_opcode(code));
    let (op, rep) = lemma_step_parts(s, p, t, q, r);
    lemma_two_on(s.pc);
    match op {
        Operation::Call(a) => {
            assert(t =~= MachineState { stack: s.stack.push((s.pc + 2) % 4096), pc: nnn, ..s });
        },
        _ => {},
    }
}

/// `00EE` returns to the address on top of the call stack, which it pops.
#[verifier::spinoff_prover]
#[verifier::rlimit(40)]
pub proof fn lemma_return<P: Platform>(
    s: MachineState,
    p: P,
    t: MachineState,
    q: P,
    r: Result<(), Error>,
)
    requires
        steps(s, p, t, q, r),
        opcode_at(s) == 0x00EE,
    ensures
        r is Ok,
        q == p,
        t == (MachineState { stack: s.stack.drop_last(), pc: s.stack.last(), ..s }),
{
    let code = opcode_at(s);
    lemma_code_parts(code, 0, 0, 0xEE);
    assert(known_opcode(code));
    let (op, rep) = lemma_step_parts(s, p, t, q, r);
    lemma_two_on(s.pc);
    match op {
        Operation::Return => {
            assert(t =~= MachineState { stack: s.stack.drop_last(), pc: s.stack.last(), ..s });
        },
        _ => {},
    }
}

/// `00E0` clears the screen and changes nothing else.
#[verifier::spinoff_prover]
#[verifier::rlimit(40)]
pub proof fn lemma_clear<P: Platform>(
    s: MachineState,
    p: P,
    t: MachineState,
    q: P,
    r: Result<(), Error>,
)
    requires
        steps(s, p, t, q, r),
        opcode_at(s) == 0x00E0,
    ensures
        r is Ok,
        p.clears(q),
        t == (MachineState { pc: (s.pc + 2) % 4096, ..s }),
{
    let code = opcode_at(s);
    lemma_code_parts(code, 0, 0, 0xE0);
    assert(known_opcode(code));
    let (op, rep) = lemma_step_parts(s, p, t, q, r);
    lemma_two_on(s.pc);
    match op {
        Operation::ClearScreen => {
            assert(t =~= MachineState { pc: (s.pc + 2) % 4096, ..s });
        },
        _ => {},
    }
}

/// `3xkk` skips the next instruction when register `x` holds `kk`.
#[verifier::spinoff_prover]
#[verifier::rlimit(40)]
pub proof fn lemma_skip_if_equal<P: Platform>(
    s: MachineState,
    p: P,
    t: MachineState,
    q: P,
    r: Result<(), Error>,
    x: int,
    kk: int,
)
    requires
        steps(s, p, t, q, r),
        0 <= x < 16,
        0 <= kk < 256,
        opcode_at(s) == 0x3000 + 256 * x + kk,
    ensures
        r is Ok,
        q == p,
        t == (MachineState { pc: if s.registers[x] == kk { (s.pc + 4) % 4096 } else { (s.pc + 2) % 4096 }, ..s }),
{
    let code = opcode_at(s);
    lemma_code_parts(code, 3, x, kk);
    assert(known_opcode(code));
    let (op, rep) = lemma_step_parts(s, p, t, q, r);
    lemma_two_on(s.pc);
    match op {
        Operation::SkipIfEqual(a, w) => {
            assert(t =~= MachineState { pc: if s.registers[x] == kk { (s.pc + 4) % 4096 } else { (s.pc + 2) % 4096 }, ..s });
        },
        _ => {},
    }
}

/// `4xkk` skips the next instruction when register `x` does not hold `kk`.
#[verifier::spinoff_prover]
#[verifier::rlimit(40)]
pub proof fn lemma_skip_if_not_equal<P: Platform>(
    s: MachineState,
    p: P,
    t: MachineState,
    q: P,
    r: Result<(), Error>,
    x: int,
    kk: int,
)
    requires
        steps(s, p, t, q, r),
        0 <= x < 16,
        0 <= kk < 256,
        opcode_at(s) == 0x4000 + 256 * x + kk,
    ensures
        r is Ok,
        q == p,
        t == (MachineState { pc: if s.registers[x] != kk { (s.pc + 4) % 4096 } else { (s.pc + 2) % 4096 }, ..s }),
{
    let code = opcode_at(s);
    lemma_code_parts(code, 4, x, kk);
    assert(known_opcode(code));
    let (op, rep) = lemma_step_parts(s, p, t, q, r);
    lemma_two_on(s.pc);
    match op {
        Operation::SkipIfNotEqual(a, w) => {
            assert(t =~= MachineState { pc: if s.registers[x] != kk { (s.pc + 4) % 4096 } else { (s.pc + 2) % 4096 }, ..s });
        },
        _ => {},
    }
}

/// `5xy0` skips the next instruction when registers `x` and `y` are equal.
#[verifier::spinoff_prover]
#[verifier::rlimit(40)]
pub proof fn lemma_skip_if_registers_equal<P: Platform>(
    s: MachineState,
    p: P,
    t: MachineState,
    q: P,
    r: Result<(), Error>,
    x: int,
    y: int,
)
    requires
        steps(s, p, t, q, r),
        0 <= x < 16,
        0 <= y < 16,
        opcode_at(s) == 0x5000 + 256 * x + 16 * y,
    ensures
        r is Ok,
        q == p,
        t == (MachineState { pc: if s.registers[x] == s.registers[y] { (s.pc + 4) % 4096 } else { (s.pc + 2) % 4096 }, ..s }),
{
    let code = opcode_at(s);
    lemma_code_parts(code, 5, x, 16 * y);
    assert(known_opcode(code));
    let (op, rep) = lemma_step_parts(s, p, t, q, r);
    lemma_two_on(s.pc);
    match op {
        Operation::SkipIfRegistersEqual(a, b) => {
            assert(t =~= MachineState { pc: if s.registers[x] == s.registers[y] { (s.pc + 4) % 4096 } else { (s.pc + 2) % 4096 }, ..s });
        },
        _ => {},
    }
}

/// `9xy0` skips the next instruction when registers `x` and `y` differ.
#[verifier::spinoff_prover]
#[verifier::rlimit(40)]
pub proof fn lemma_skip_if_registers_not_equal<P: Platform>(
    s: MachineState,
    p: P,
    t: MachineState,
    q: P,
    r: Result<(), Error>,
    x: int,
    y: int,
)
    requires
        steps(s, p, t, q, r),
        0 <= x < 16,
        0 <= y < 16,
        opcode_at(s) == 0x9000 + 256 * x + 16 * y,
    ensures
        r is Ok,
        q == p,
        t == (MachineState { pc: if s.registers[x] != s.registers[y] { (s.pc + 4) % 4096 } else { (s.pc + 2) % 4096 }, ..s }),
{
    let code = opcode_at(s);
    lemma_code_parts(code, 9, x, 16 * y);
    assert(known_opcode(code));
    let (op, rep) = lemma_step_parts(s, p, t, q, r);
    lemma_two_on(s.pc);
    match op {
        Operation::SkipIfRegistersNotEqual(a, b) => {
            assert(t =~= MachineState { pc: if s.registers[x] != s.registers[y] { (s.pc + 4) % 4096 } else { (s.pc + 2) % 4096 }, ..s });
        },
        _ => {},
    }
}

/// `6xkk` stores `kk` in register `x`.
#[verifier::spinoff_prover]
#[verifier::rlimit(40)]
pub proof fn lemma_set_register<P: Platform>(
    s: MachineState,
    p: P,
    t: MachineState,
    q: P,
    r: Result<(), Error>,
    x: int,
    kk: int,
)
    requires
        steps(s, p, t, q, r),
        0 <= x < 16,
        0 <= kk < 256,
        opcode_at(s) == 0x6000 + 256 * x + kk,
    ensures
        r is Ok,
        q == p,
        t == next_with_registers(s, s.registers.update(x, kk as u8)),
{
    let code = opcode_at(s);
    lemma_code_parts(code, 6, x, kk);
    assert(known_opcode(code));
    let (op, rep) = lemma_step_parts(s, p, t, q, r);
    lemma_two_on(s.pc);
    match op {
        Operation::SetRegister(a, w) => {
            assert(t =~= next_with_registers(s, s.registers.update(x, kk as u8)));
        },
        _ => {},
    }
}

/// `7xkk` adds `kk` to register `x`, modulo 256, leaving register F alone.
#[verifier::spinoff_prover]
#[verifier::rlimit(40)]
pub proof fn lemma_add_value<P: Platform>(
    s: MachineState,
    p: P,
    t: MachineState,
    q: P,
    r: Result<(), Error>,
    x: int,
    kk: int,
)
    requires
        steps(s, p, t, q, r),
        0 <= x < 16,
        0 <= kk < 256,
        opcode_at(s) == 0x7000 + 256 * x + kk,
    ensures
        r is Ok,
        q == p,
        t == next_with_registers(s, s.registers.update(x, ((s.registers[x] + kk) % 256) as u8)),
{
    let code = opcode_at(s);
    lemma_code_parts(code, 7, x, kk);
    assert(known_opcode(code));
    let (op, rep) = lemma_step_parts(s, p, t, q, r);
    lemma_two_on(s.pc);
    match op {
        Operation::AddValue(a, w) => {
            assert(t =~= next_with_registers(s, s.registers.update(x, ((s.registers[x] + kk) % 256) as u8)));
        },
        _ => {},
    }
}

/// `Annn` sets the index register to `nnn`.
#[verifier::spinoff_prover]
#[verifier::rlimit(40)]
pub proof fn lemma_set_index<P: Platform>(
    s: MachineState,
    p: P,
    t: MachineState,
    q: P,
    r: Result<(), Error>,
    nnn: int,
)
    requires
        steps(s, p, t, q, r),
        0 <= nnn < 4096,
        opcode_at(s) == 0xA000 + nnn,
    ensures
        r is Ok,
        q == p,
        t == (MachineState { index: nnn, pc: (s.pc + 2) % 4096, ..s }),
{
    let code = opcode_at(s);
    lemma_code_parts(code, 10, nnn / 256, nnn % 256);
    assert(known_opcode(code));
    let (op, rep) = lemma_step_parts(s, p, t, q, r);
    lemma_two_on(s.pc);
    match op {
        Operation::SetIndexRegister(a) => {
            assert(t =~= MachineState { index: nnn, pc: (s.pc + 2) % 4096, ..s });
        },
        _ => {},
    }
}

/// `Bnnn` jumps to `nnn` plus register 0 (within memory).
#[verifier::spinoff_prover]
#[verifier::rlimit(40)]
pub proof fn lemma_jump_v0<P: Platform>(
    s: MachineState,
    p: P,
    t: MachineState,
    q: P,
    r: Result<(), Error>,
    nnn: int,
)
    requires
        steps(s, p, t, q, r),
        0 <= nnn < 4096,
        opcode_at(s) == 0xB000 + nnn,
    ensures
        r is Ok,
        q == p,
        t == (MachineState { pc: (nnn + s.registers[0]) % 4096, ..s }),
{
    let code = opcode_at(s);
    lemma_code_parts(code, 11, nnn / 256, nnn % 256);
    assert(known_opcode(code));
    let (op, rep) = lemma_step_parts(s, p, t, q, r);
    lemma_two_on(s.pc);
    match op {
        Operation::JumpV0(a) => {
            assert(t =~= MachineState { pc: (nnn + s.registers[0]) % 4096, ..s });
        },
        _ => {},
    }
}

/// `Cxkk` stores in register `x` a random word (one the platform may give)
/// masked with `kk`.
#[verifier::spinoff_prover]
#[verifier::rlimit(40)]
pub proof fn lemma_random<P: Platform>(
    s: MachineState,
    p: P,
    t: MachineState,
    q: P,
    r: Result<(), Error>,
    x: int,
    kk: int,
)
    requires
        steps(s, p, t, q, r),
        0 <= x < 16,
        0 <= kk < 256,
        opcode_at(s) == 0xC000 + 256 * x + kk,
    ensures
        r is Ok,
        (exists|w: u8| #[trigger] p.draws_random(q, w) && t == next_with_registers(s, s.registers.update(x, (kk as u8) & w))),
{
    let code = opcode_at(s);
    lemma_code_parts(code, 12, x, kk);
    assert(known_opcode(code));
    let (op, rep) = lemma_step_parts(s, p, t, q, r);
    lemma_two_on(s.pc);
    match op {
        Operation::SetToRandom(a, b) => {
            assert(t =~= next_with_registers(s, s.registers.update(x, (kk as u8) & rep.random)));
        },
        _ => {},
    }
}

/// `Dxyn` draws the `n` rows in memory at the index register at the position
/// in registers `x` and `y`, and stores in register F whether a lit pixel
/// was turned off.
#[verifier::spinoff_prover]
#[verifier::rlimit(40)]
pub proof fn lemma_draw<P: Platform>(
    s: MachineState,
    p: P,
    t: MachineState,
    q: P,
    r: Result<(), Error>,
    x: int,
    y: int,
    n: int,
)
    requires
        steps(s, p, t, q, r),
        0 <= x < 16,
        0 <= y < 16,
        0 <= n < 16,
        opcode_at(s) == 0xD000 + 256 * x + 16 * y + n,
    ensures
        r is Ok,
        (exists|c: bool| #[trigger] p.draws(Point { x: s.registers[x], y: s.registers[y] }, s.memory.subrange(s.index, s.index + n), q, c) && t == next_with_registers(s, s.registers.update(15, if c { 1u8 } else { 0u8 }))),
{
    let code = opcode_at(s);
    lemma_code_parts(code, 13, x, 16 * y + n);
    assert(known_opcode(code));
    let (op, rep) = lemma_step_parts(s, p, t, q, r);
    lemma_two_on(s.pc);
    match op {
        Operation::Draw(a, b, m) => {
            assert(t =~= next_with_registers(s, s.registers.update(15, if rep.collision { 1u8 } else { 0u8 })));
        },
        _ => {},
    }
}

/// `Ex9E` skips the next instruction when the key in register `x` is down.
#[verifier::spinoff_prover]
#[verifier::rlimit(40)]
pub proof fn lemma_skip_if_key_down<P: Platform>(
    s: MachineState,
    p: P,
    t: MachineState,
    q: P,
    r: Result<(), Error>,
    x: int,
)
    requires
        steps(s, p, t, q, r),
        0 <= x < 16,
        opcode_at(s) == 0xE000 + 256 * x + 0x9E,
    ensures
        r is Ok,
        q == p,
        t == (MachineState { pc: if p.key_is_down(s.registers[x] as int) { (s.pc + 4) % 4096 } else { (s.pc + 2) % 4096 }, ..s }),
{
    let code = opcode_at(s);
    lemma_code_parts(code, 14, x, 0x9E);
    assert(known_opcode(code));
    let (op, rep) = lemma_step_parts(s, p, t, q, r);
    lemma_two_on(s.pc);
    match op {
        Operation::SkipIfKeyDown(a) => {
            assert(t =~= MachineState { pc: if p.key_is_down(s.registers[x] as int) { (s.pc + 4) % 4096 } else { (s.pc + 2) % 4096 }, ..s });
        },
        _ => {},
    }
}

/// `ExA1` skips the next instruction when the key in register `x` is up.
#[verifier::spinoff_prover]
#[verifier::rlimit(40)]
pub proof fn lemma_skip_if_key_up<P: Platform>(
    s: MachineState,
    p: P,
    t: MachineState,
    q: P,
    r: Result<(), Error>,
    x: int,
)
    requires
        steps(s, p, t, q, r),
        0 <= x < 16,
        opcode_at(s) == 0xE000 + 256 * x + 0xA1,
    ensures
        r is Ok,
        q == p,
        t == (MachineState { pc: if !p.key_is_down(s.registers[x] as int) { (s.pc + 4) % 4096 } else { (s.pc + 2) % 4096 }, ..s }),
{
    let code = opcode_at(s);
    lemma_code_parts(code, 14, x, 0xA1);
    assert(known_opcode(code));
    let (op, rep) = lemma_step_parts(s, p, t, q, r);
    lemma_two_on(s.pc);
    match op {
        Operation::SkipIfKeyUp(a) => {
            assert(t =~= MachineState { pc: if !p.key_is_down(s.registers[x] as int) { (s.pc + 4) % 4096 } else { (s.pc + 2) % 4096 }, ..s });
        },
        _ => {},
    }
}

/// `Fx07` stores the delay timer in register `x`.
#[verifier::spinoff_prover]
#[verifier::rlimit(40)]
pub proof fn lemma_get_delay<P: Platform>(
    s: MachineState,
    p: P,
    t: MachineState,
    q: P,
    r: Result<(), Error>,
    x: int,
)
    requires
        steps(s, p, t, q, r),
        0 <= x < 16,
        opcode_at(s) == 0xF007 + 256 * x,
    ensures
        r is Ok,
        q == p,
        t == next_with_registers(s, s.registers.update(x, p.delay_timer())),
{
    let code = opcode_at(s);
    lemma_code_parts(code, 15, x, 0x07);
    assert(known_opcode(code));
    let (op, rep) = lemma_step_parts(s, p, t, q, r);
    lemma_two_on(s.pc);
    match op {
        Operation::GetDelayTimer(a) => {
            assert(t =~= next_with_registers(s, s.registers.update(x, p.delay_timer())));
        },
        _ => {},
    }
}

/// `Fx15` sets the delay timer to register `x`.
#[verifier::spinoff_prover]
#[verifier::rlimit(40)]
pub proof fn lemma_set_delay<P: Platform>(
    s: MachineState,
    p: P,
    t: MachineState,
    q: P,
    r: Result<(), Error>,
    x: int,
)
    requires
        steps(s, p, t, q, r),
        0 <= x < 16,
        opcode_at(s) == 0xF015 + 256 * x,
    ensures
        r is Ok,
        p.sets_delay(s.registers[x], q),
        t == (MachineState { pc: (s.pc + 2) % 4096, ..s }),
{
    let code = opcode_at(s);
    lemma_code_parts(code, 15, x, 0x15);
    assert(known_opcode(code));
    let (op, rep) = lemma_step_parts(s, p, t, q, r);
    lemma_two_on(s.pc);
    match op {
        Operation::SetDelayTimer(a) => {
            assert(t =~= MachineState { pc: (s.pc + 2) % 4096, ..s });
        },
        _ => {},
    }
}

/// `Fx1E` adds register `x` to the index register (within memory).
#[verifier::spinoff_prover]
#[verifier::rlimit(40)]
pub proof fn lemma_add_to_index<P: Platform>(
    s: MachineState,
    p: P,
    t: MachineState,
    q: P,
    r: Result<(), Error>,
    x: int,
)
    requires
        steps(s, p, t, q, r),
        0 <= x < 16,
        opcode_at(s) == 0xF01E + 256 * x,
    ensures
        r is Ok,
        q == p,
        t == (MachineState { index: (s.index + s.registers[x]) % 4096, pc: (s.pc + 2) % 4096, ..s }),
{
    let code = opcode_at(s);
    lemma_code_parts(code, 15, x, 0x1E);
    assert(known_opcode(code));
    let (op, rep) = lemma_step_parts(s, p, t, q, r);
    lemma_two_on(s.pc);
    match op {
        Operation::IncrementIndexRegister(a) => {
            assert(t =~= MachineState { index: (s.index + s.registers[x]) % 4096, pc: (s.pc + 2) % 4096, ..s });
        },
        _ => {},
    }
}

/// `Fx33` writes the hundreds, tens and units of register `x` to memory
/// at the index register.
#[verifier::spinoff_prover]
#[verifier::rlimit(40)]
pub proof fn lemma_to_decimal<P: Platform>(
    s: MachineState,
    p: P,
    t: MachineState,
    q: P,
    r: Result<(), Error>,
    x: int,
)
    requires
        steps(s, p, t, q, r),
        0 <= x < 16,
        opcode_at(s) == 0xF033 + 256 * x,
    ensures
        r is Ok,
        q == p,
        t == (MachineState { memory: s.memory.update(s.index, s.registers[x] / 100).update(s.index + 1, s.registers[x] / 10 % 10).update(s.index + 2, s.registers[x] % 10), pc: (s.pc + 2) % 4096, ..s }),
{
    let code = opcode_at(s);
    lemma_code_parts(code, 15, x, 0x33);
    assert(known_opcode(code));
    let (op, rep) = lemma_step_parts(s, p, t, q, r);
    lemma_two_on(s.pc);
    match op {
        Operation::ToDecimal(a) => {
            assert(t =~= MachineState { memory: s.memory.update(s.index, s.registers[x] / 100).update(s.index + 1, s.registers[x] / 10 % 10).update(s.index + 2, s.registers[x] % 10), pc: (s.pc + 2) % 4096, ..s });
        },
        _ => {},
    }
}

/// `Fx55` stores registers 0 to `x` in memory from the index register on,
/// and moves the index register past them.
#[verifier::spinoff_prover]
#[verifier::rlimit(40)]
pub proof fn lemma_write_memory<P: Platform>(
    s: MachineState,
    p: P,
    t: MachineState,
    q: P,
    r: Result<(), Error>,
    x: int,
)
    requires
        steps(s, p, t, q, r),
        0 <= x < 16,
        opcode_at(s) == 0xF055 + 256 * x,
    ensures
        r is Ok,
        q == p,
        t == (MachineState { memory: Seq::new(4096, |i: int| if s.index <= i <= s.index + x { s.registers[i - s.index] } else { s.memory[i] }), index: (s.index + x + 1) % 4096, pc: (s.pc + 2) % 4096, ..s }),
{
    let code = opcode_at(s);
    lemma_code_parts(code, 15, x, 0x55);
    assert(known_opcode(code));
    let (op, rep) = lemma_step_parts(s, p, t, q, r);
    lemma_two_on(s.pc);
    match op {
        Operation::WriteMemory(a) => {
            assert(t =~= MachineState { memory: Seq::new(4096, |i: int| if s.index <= i <= s.index + x { s.registers[i - s.index] } else { s.memory[i] }), index: (s.index + x + 1) % 4096, pc: (s.pc + 2) % 4096, ..s });
        },
        _ => {},
    }
}

/// `Fx65` loads registers 0 to `x` from memory from the index register on,
/// and moves the index register past them.
#[verifier::spinoff_prover]
#[verifier::rlimit(40)]
pub proof fn lemma_read_memory<P: Platform>(
    s: MachineState,
    p: P,
    t: MachineState,
    q: P,
    r: Result<(), Error>,
    x: int,
)
    requires
        steps(s, p, t, q, r),
        0 <= x < 16,
        opcode_at(s) == 0xF065 + 256 * x,
    ensures
        r is Ok,
        q == p,
        t == (MachineState { registers: Seq::new(16, |i: int| if i <= x { s.memory[s.index + i] } else { s.registers[i] }), index: (s.index + x + 1) % 4096, pc: (s.pc + 2) % 4096, ..s }),
{
    let code = opcode_at(s);
    lemma_code_parts(code, 15, x, 0x65);
    assert(known_opcode(code));
    let (op, rep) = lemma_step_parts(s, p, t, q, r);
    lemma_two_on(s.pc);
    match op {
        Operation::ReadMemory(a) => {
            assert(t =~= MachineState { registers: Seq::new(16, |i: int| if i <= x { s.memory[s.index + i] } else { s.registers[i] }), index: (s.index + x + 1) % 4096, pc: (s.pc + 2) % 4096, ..s });
        },
        _ => {},
    }
}

/// What a wait for a key leaves, from state `s` with register `x`, once the
/// key `key` (or none) is in hand on a platform `p`: with no key it waits
/// (the program counter stays); with a key still held down it keeps the key
/// and waits; with a key released it stores the key in register `x` and
/// goes on.
pub open spec fn waited<P: Platform>(s: MachineState, x: int, key: Option<int>, p: P) -> MachineState {
    match key {
        None => MachineState { last_key: None, ..s },
        Some(k) => if p.key_is_down(k) {
            MachineState { last_key: Some(k), ..s }
        } else {
            MachineState { registers: s.registers.update(x, k as u8), last_key: None, pc: (s.pc + 2) % 4096, ..s }
        },
    }
}

/// `Fx0A` waits for a key: it takes the key it kept from before, or else a
/// key press from the platform, and stores it in register `x` once the key
/// is released.
#[verifier::spinoff_prover]
#[verifier::rlimit(40)]
pub proof fn lemma_wait_for_key<P: Platform>(
    s: MachineState,
    p: P,
    t: MachineState,
    q: P,
    r: Result<(), Error>,
    x: int,
)
    requires
        steps(s, p, t, q, r),
        0 <= x < 16,
        0 <= s.pc < 4096,
        opcode_at(s) == 0xF00A + 256 * x,
    ensures
        r is Ok,
        s.last_key is Some ==> q == p && t == waited(s, x, s.last_key, p),
        s.last_key is None ==> (exists|key: Option<int>| #[trigger] p.takes_key_press(q, key) && t == waited(s, x, key, q)),
{
    let code = opcode_at(s);
    lemma_code_parts(code, 15, x, 0x0A);
    assert(known_opcode(code));
    let (op, rep) = lemma_step_parts(s, p, t, q, r);
    lemma_two_on(s.pc);
    match op {
        Operation::WaitForKey(a) => {
            match s.last_key {
                Some(k) => {
                    assert(t =~= waited(s, x, s.last_key, p));
                },
                None => {
                    assert(t =~= waited(s, x, rep.pressed, q));
                },
            }
        },
        _ => {},
    }
}

/// Drawing flips exactly the screen pixels under a set bit of the sprite:
/// with the sprite's top-left corner at `pos` (taken modulo the screen
/// size), pixel `(x, y)` flips when row `y - pos.y` of the sprite exists and
/// its bit for column `x - pos.x`, counted from the highest bit, is set.
pub proof fn lemma_drawn_pixel(f: Seq<Seq<bool>>, pos: Point, rows: Seq<u8>, x: int, y: int)
    requires
        0 <= x < 64,
        0 <= y < 32,
    ensures
        ({
            let dx = x - pos.x as int % 64;
            let dy = y - pos.y as int % 32;
            let set = 0 <= dy < rows.len() && 0 <= dx < 8 && (rows[dy] >> ((7 - dx) as u8)) & 1u8 == 1u8;
            drawn(f, pos, rows)[y][x] == (f[y][x] != set)
        }),
{
    let dx = x - pos.x as int % 64;
    let dy = y - pos.y as int % 32;
    if 0 <= dy < rows.len() && 0 <= dx < 8 {
        let row = rows[dy];
        let k = dx as u8;
        let j = (7 - dx) as u8;
        assert(((row & (0x80u8 >> k)) != 0) == ((row >> j) & 1u8 == 1u8)) by (bit_vector)
            requires
                k < 8,
                j == 7 - k,
        ;
    }
}

/// The codes that name no instruction: `0nnn` but `00E0` and `00EE`;
/// `5xyN` and `9xyN` with `N` not 0; `8xyN` with `N` from 8 to D or F;
/// `ExKK` but `Ex9E` and `ExA1`; `FxKK` but `Fx07`, `Fx0A`, `Fx15`, `Fx1E`,
/// `Fx33`, `Fx55` and `Fx65`. Here `hi` is the high nibble, `x` the next
/// one and `low` the low byte.
pub open spec fn names_no_instruction(hi: int, x: int, low: int) -> bool {
    ||| hi == 0 && !(x == 0 && (low == 0xE0 || low == 0xEE))
    ||| (hi == 5 || hi == 9) && low % 16 != 0
    ||| hi == 8 && (8 <= low % 16 <= 13 || low % 16 == 15)
    ||| hi == 14 && low != 0x9E && low != 0xA1
    ||| hi == 15 && low != 0x07 && low != 0x0A && low != 0x15 && low != 0x1E && low != 0x33 && low != 0x55
        && low != 0x65
}

/// A code that names no instruction gives `UnknownOpCode` with that code,
/// moves the program counter past it, and changes nothing else.
#[verifier::spinoff_prover]
#[verifier::rlimit(40)]
pub proof fn lemma_unknown_code<P: Platform>(
    s: MachineState,
    p: P,
    t: MachineState,
    q: P,
    r: Result<(), Error>,
    hi: int,
    x: int,
    low: int,
)
    requires
        steps(s, p, t, q, r),
        0 <= hi < 16,
        0 <= x < 16,
        0 <= low < 256,
        opcode_at(s) == 4096 * hi + 256 * x + low,
        names_no_instruction(hi, x, low),
    ensures
        r == Err::<(), Error>(Error::UnknownOpCode(OpCode(opcode_at(s)))),
        q == p,
        t == (MachineState { pc: (s.pc + 2) % 4096, ..s }),
{
    let code = opcode_at(s);
    lemma_code_parts(code, hi, x, low);
    assert(!known_opcode(code));
    assert(t =~= MachineState { pc: (s.pc + 2) % 4096, ..s });
}

} // verus!
