//! The CHIP-8 interpreter: decoding operation codes and running them
//! against a platform.
use vstd::prelude::*;
use crate::chip8::data::{Address, Nibble, OpCode, RegisterIndex, Word, Offset};
use crate::chip8::data;
use crate::chip8::image::Image;
use crate::chip8::platform::{Key, Platform, Point, Sprite};
use crate::chip8::Error;

verus! {

pub const SCREEN_WIDTH: usize = 64;

pub const SCREEN_HEIGHT: usize = 32;

/// An instruction.
#[derive(Debug, Clone, Copy)]
pub enum Operation {
    ClearScreen,
    Return,
    Jump(Address),
    Call(Address),
    SkipIfEqual(RegisterIndex, Word),
    SkipIfNotEqual(RegisterIndex, Word),
    SkipIfRegistersEqual(RegisterIndex, RegisterIndex),
    SetRegister(RegisterIndex, Word),
    AddValue(RegisterIndex, Word),
    SetToRegister(RegisterIndex, RegisterIndex),
    Or(RegisterIndex, RegisterIndex),
    And(RegisterIndex, RegisterIndex),
    Xor(RegisterIndex, RegisterIndex),
    AddRegister(RegisterIndex, RegisterIndex),
    SubRegister(RegisterIndex, RegisterIndex),
    ShiftRight(RegisterIndex, RegisterIndex),
    SubRegisterReversed(RegisterIndex, RegisterIndex),
    ShiftLeft(RegisterIndex, RegisterIndex),
    SkipIfRegistersNotEqual(RegisterIndex, RegisterIndex),
    SetIndexRegister(Address),
    JumpV0(Address),
    SetToRandom(RegisterIndex, Word),
    Draw(RegisterIndex, RegisterIndex, Nibble),
    SkipIfKeyDown(RegisterIndex),
    SkipIfKeyUp(RegisterIndex),
    GetDelayTimer(RegisterIndex),
    WaitForKey(RegisterIndex),
    SetDelayTimer(RegisterIndex),
    SetSoundTimer(RegisterIndex),
    IncrementIndexRegister(RegisterIndex),
    SetIndexRegisterToSprite(Nibble),
    ToDecimal(RegisterIndex),
    WriteMemory(Nibble),
    ReadMemory(Nibble),
}

/// The code's low byte.
pub open spec fn low_byte(code: u16) -> int {
    code as int % 256
}

/// The operation code names an instruction.
pub open spec fn known_opcode(code: u16) -> bool {
    let n3 = data::nibble_at(code, 3);
    let n0 = data::nibble_at(code, 0);
    let low = low_byte(code);
    ||| code == 0x00E0
    ||| code == 0x00EE
    ||| n3 == 0x1 || n3 == 0x2 || n3 == 0x3 || n3 == 0x4 || n3 == 0x6 || n3 == 0x7
    ||| n3 == 0xA || n3 == 0xB || n3 == 0xC || n3 == 0xD
    ||| n3 == 0x5 && n0 == 0x0
    ||| n3 == 0x8 && (0 <= n0 <= 7 || n0 == 0xE)
    ||| n3 == 0x9 && n0 == 0x0
    ||| n3 == 0xE && (low == 0x9E || low == 0xA1)
    ||| n3 == 0xF && (low == 0x07 || low == 0x0A || low == 0x15 || low == 0x1E || low == 0x33
        || low == 0x55 || low == 0x65)
}

/// `op` is the instruction that `code` names: the high nibble (and for some
/// instructions the low nibble or byte) picks the instruction; registers are
/// nibbles 2 (`x`) and 1 (`y`), a word is the low byte, an address the low
/// twelve bits.
pub open spec fn decodes_to(code: u16, op: Operation) -> bool {
    let n3 = data::nibble_at(code, 3);
    let n2 = data::nibble_at(code, 2);
    let n1 = data::nibble_at(code, 1);
    let n0 = data::nibble_at(code, 0);
    let low = low_byte(code);
    let addr = code as int % 4096;
    match op {
        Operation::ClearScreen => code == 0x00E0,
        Operation::Return => code == 0x00EE,
        Operation::Jump(a) => n3 == 0x1 && a.value() == addr,
        Operation::Call(a) => n3 == 0x2 && a.value() == addr,
        Operation::SkipIfEqual(x, w) => n3 == 0x3 && x.value() == n2 && w == low,
        Operation::SkipIfNotEqual(x, w) => n3 == 0x4 && x.value() == n2 && w == low,
        Operation::SkipIfRegistersEqual(x, y) => n3 == 0x5 && n0 == 0 && x.value() == n2 && y.value() == n1,
        Operation::SetRegister(x, w) => n3 == 0x6 && x.value() == n2 && w == low,
        Operation::AddValue(x, w) => n3 == 0x7 && x.value() == n2 && w == low,
        Operation::SetToRegister(x, y) => n3 == 0x8 && n0 == 0x0 && x.value() == n2 && y.value() == n1,
        Operation::Or(x, y) => n3 == 0x8 && n0 == 0x1 && x.value() == n2 && y.value() == n1,
        Operation::And(x, y) => n3 == 0x8 && n0 == 0x2 && x.value() == n2 && y.value() == n1,
        Operation::Xor(x, y) => n3 == 0x8 && n0 == 0x3 && x.value() == n2 && y.value() == n1,
        Operation::AddRegister(x, y) => n3 == 0x8 && n0 == 0x4 && x.value() == n2 && y.value() == n1,
        Operation::SubRegister(x, y) => n3 == 0x8 && n0 == 0x5 && x.value() == n2 && y.value() == n1,
        Operation::ShiftRight(x, y) => n3 == 0x8 && n0 == 0x6 && x.value() == n2 && y.value() == n1,
        Operation::SubRegisterReversed(x, y) => n3 == 0x8 && n0 == 0x7 && x.value() == n2 && y.value() == n1,
        Operation::ShiftLeft(x, y) => n3 == 0x8 && n0 == 0xE && x.value() == n2 && y.value() == n1,
        Operation::SkipIfRegistersNotEqual(x, y) => n3 == 0x9 && n0 == 0x0 && x.value() == n2 && y.value() == n1,
        Operation::SetIndexRegister(a) => n3 == 0xA && a.value() == addr,
        Operation::JumpV0(a) => n3 == 0xB && a.value() == addr,
        Operation::SetToRandom(x, w) => n3 == 0xC && x.value() == n2 && w == low,
        Operation::Draw(x, y, n) => n3 == 0xD && x.value() == n2 && y.value() == n1 && n.value() == n0,
        Operation::SkipIfKeyDown(x) => n3 == 0xE && low == 0x9E && x.value() == n2,
        Operation::SkipIfKeyUp(x) => n3 == 0xE && low == 0xA1 && x.value() == n2,
        Operation::GetDelayTimer(x) => n3 == 0xF && low == 0x07 && x.value() == n2,
        Operation::WaitForKey(x) => n3 == 0xF && low == 0x0A && x.value() == n2,
        Operation::SetDelayTimer(x) => n3 == 0xF && low == 0x15 && x.value() == n2,
        Operation::IncrementIndexRegister(x) => n3 == 0xF && low == 0x1E && x.value() == n2,
        Operation::ToDecimal(x) => n3 == 0xF && low == 0x33 && x.value() == n2,
        Operation::WriteMemory(n) => n3 == 0xF && low == 0x55 && n.value() == n2,
        Operation::ReadMemory(n) => n3 == 0xF && low == 0x65 && n.value() == n2,
        Operation::SetSoundTimer(_) => false,
        Operation::SetIndexRegisterToSprite(_) => false,
    }
}

proof fn lemma_low_byte(code: u16)
    ensures
        low_byte(code) == data::nibble_at(code, 1) * 16 + data::nibble_at(code, 0),
{
}

impl Operation {
    /// The instruction that `code` names, or `Err(())` when it names none.
    pub fn try_from(code: OpCode) -> (r: Result<Operation, ()>)
        ensures
            r is Ok <==> known_opcode(code.0),
            r matches Ok(op) ==> decodes_to(code.0, op),
    {
        let op_code_as_nibbles = (
            code.extract_nibble(3).as_u8(),
            code.extract_nibble(2).as_u8(),
            code.extract_nibble(1).as_u8(),
            code.extract_nibble(0).as_u8(),
        );
        proof {
            lemma_low_byte(code.0);
            assert(code.0 as int == data::nibble_at(code.0, 3) * 4096 + data::nibble_at(code.0, 2) * 256
                + low_byte(code.0));
        }
        let op = match op_code_as_nibbles {
            (0x0, 0x0, 0xE, 0x0) => Operation::ClearScreen,
            (0x6, _, _, _) => Operation::SetRegister(code.extract_nibble(2), code.extract_word(0)),
            (0xA, _, _, _) => Operation::SetIndexRegister(code.extract_address()),
            (0x1, _, _, _) => Operation::Jump(code.extract_address()),
            (0xD, _, _, _) => Operation::Draw(
                code.extract_nibble(2),
                code.extract_nibble(1),
                code.extract_nibble(0),
            ),
            (0x7, _, _, _) => Operation::AddValue(code.extract_nibble(2), code.extract_word(0)),
            (0x3, _, _, _) => Operation::SkipIfEqual(code.extract_nibble(2), code.extract_word(0)),
            (0x4, _, _, _) => Operation::SkipIfNotEqual(code.extract_nibble(2), code.extract_word(0)),
            (0x5, _, _, 0x0) => Operation::SkipIfRegistersEqual(
                code.extract_nibble(2),
                code.extract_nibble(1),
            ),
            (0x8, _, _, 0x0) => Operation::SetToRegister(code.extract_nibble(2), code.extract_nibble(1)),
            (0x8, _, _, 0x1) => Operation::Or(code.extract_nibble(2), code.extract_nibble(1)),
            (0x8, _, _, 0x2) => Operation::And(code.extract_nibble(2), code.extract_nibble(1)),
            (0x8, _, _, 0x3) => Operation::Xor(code.extract_nibble(2), code.extract_nibble(1)),
            (0x8, _, _, 0x4) => Operation::AddRegister(code.extract_nibble(2), code.extract_nibble(1)),
            (0x8, _, _, 0x5) => Operation::SubRegister(code.extract_nibble(2), code.extract_nibble(1)),
            (0x8, _, _, 0x6) => Operation::ShiftRight(code.extract_nibble(2), code.extract_nibble(1)),
            (0x8, _, _, 0x7) => Operation::SubRegisterReversed(
                code.extract_nibble(2),
                code.extract_nibble(1),
            ),
            (0x8, _, _, 0xE) => Operation::ShiftLeft(code.extract_nibble(2), code.extract_nibble(1)),
            (0x9, _, _, 0x0) => Operation::SkipIfRegistersNotEqual(
                code.extract_nibble(2),
                code.extract_nibble(1),
            ),
            (0xF, _, 0x6, 0x5) => Operation::ReadMemory(code.extract_nibble(2)),
            (0xF, _, 0x5, 0x5) => Operation::WriteMemory(code.extract_nibble(2)),
            (0xF, _, 0x3, 0x3) => Operation::ToDecimal(code.extract_nibble(2)),
            (0xF, _, 0x1, 0xE) => Operation::IncrementIndexRegister(code.extract_nibble(2)),
            (0x2, _, _, _) => Operation::Call(code.extract_address()),
            (0x0, 0x0, 0xE, 0xE) => Operation::Return,
            (0xF, _, 0x1, 0x5) => Operation::SetDelayTimer(code.extract_nibble(2)),
            (0xF, _, 0x0, 0xA) => Operation::WaitForKey(code.extract_nibble(2)),
            (0xF, _, 0x0, 0x7) => Operation::GetDelayTimer(code.extract_nibble(2)),
            (0xE, _, 0xA, 0x1) => Operation::SkipIfKeyUp(code.extract_nibble(2)),
            (0xE, _, 0x9, 0xE) => Operation::SkipIfKeyDown(code.extract_nibble(2)),
            (0xC, _, _, _) => Operation::SetToRandom(code.extract_nibble(2), code.extract_word(0)),
            (0xB, _, _, _) => Operation::JumpV0(code.extract_address()),
            _ => {
                return Err(());
            },
        };
        Ok(op)
    }
}


/// What the machine holds, as numbers: memory, the index register, the
/// sixteen registers, the call stack (return addresses, oldest first), the
/// program counter, and the key a `WaitForKey` saw held down.
#[verifier::ext_equal]
pub struct MachineState {
    pub memory: Seq<u8>,
    pub index: int,
    pub registers: Seq<u8>,
    pub stack: Seq<int>,
    pub pc: int,
    pub last_key: Option<int>,
}

/// What the platform answered during an instruction: whether a drawing
/// turned a pixel off, the random word, the delay timer, whether the key
/// asked about is down, and the key press taken.
pub struct Reply {
    pub collision: bool,
    pub random: u8,
    pub delay: u8,
    pub key_down: bool,
    pub pressed: Option<int>,
}

/// The operation code at the program counter.
pub open spec fn opcode_at(s: MachineState) -> u16 {
    (s.memory[s.pc] as int * 256 + s.memory[s.pc + 1] as int) as u16
}

/// The state with the program counter moved past the current instruction.
pub open spec fn advanced(s: MachineState) -> MachineState {
    MachineState { pc: (s.pc + 2) % 4096, ..s }
}

/// The current instruction can run without failing: the program counter
/// leaves room for two bytes; a drawing reads its rows from memory, a
/// register load or store and a decimal conversion stay inside memory; a
/// return has somewhere to return to; a key test names a key.
pub open spec fn can_run(s: MachineState) -> bool {
    let code = opcode_at(s);
    let n3 = data::nibble_at(code, 3);
    let n2 = data::nibble_at(code, 2);
    let n0 = data::nibble_at(code, 0);
    let low = low_byte(code);
    &&& 0 <= s.pc < 4095
    &&& s.memory.len() == 4096
    &&& s.registers.len() == 16
    &&& 0 <= s.index < 4096
    &&& n3 == 0xD ==> s.index + n0 <= 4096
    &&& code == 0x00EE ==> s.stack.len() > 0
    &&& n3 == 0xF && (low == 0x55 || low == 0x65) ==> s.index + n2 < 4096
    &&& n3 == 0xF && low == 0x33 ==> s.index + 2 < 4096
    &&& n3 == 0xE && (low == 0x9E || low == 0xA1) ==> s.registers[n2] < 16
}

pub open spec fn set_register(s: MachineState, x: int, v: u8) -> MachineState {
    MachineState { registers: s.registers.update(x, v), ..s }
}

pub open spec fn skip_if(s: MachineState, cond: bool) -> MachineState {
    if cond {
        MachineState { pc: (s.pc + 2) % 4096, ..s }
    } else {
        s
    }
}

/// Registers 0 to `last` loaded from memory at the index register, which
/// moves past them.
pub open spec fn read_memory(s: MachineState, last: int) -> MachineState {
    MachineState {
        registers: Seq::new(
            16,
            |i: int|
                if i <= last {
                    s.memory[s.index + i]
                } else {
                    s.registers[i]
                },
        ),
        index: (s.index + last + 1) % 4096,
        ..s
    }
}

/// Registers 0 to `last` stored to memory at the index register, which
/// moves past them.
pub open spec fn write_memory(s: MachineState, last: int) -> MachineState {
    MachineState {
        memory: Seq::new(
            4096,
            |i: int|
                if s.index <= i <= s.index + last {
                    s.registers[i - s.index]
                } else {
                    s.memory[i]
                },
        ),
        index: (s.index + last + 1) % 4096,
        ..s
    }
}

/// What running `op` does to `s` (the program counter already past it),
/// when the platform answers `r`.
pub open spec fn execute(s: MachineState, op: Operation, r: Reply) -> MachineState {
    let regs = s.registers;
    match op {
        Operation::ClearScreen => s,
        Operation::SetIndexRegister(a) => MachineState { index: a.value(), ..s },
        Operation::SetRegister(x, w) => set_register(s, x.value(), w),
        Operation::Jump(a) => MachineState { pc: a.value(), ..s },
        Operation::Draw(_, _, _) => set_register(s, 15, if r.collision { 1 } else { 0 }),
        Operation::AddValue(x, w) => set_register(s, x.value(), regs[x.value()].wrapping_add(w)),
        Operation::SkipIfEqual(x, w) => skip_if(s, regs[x.value()] == w),
        Operation::SkipIfNotEqual(x, w) => skip_if(s, regs[x.value()] != w),
        Operation::SkipIfRegistersEqual(x, y) => skip_if(s, regs[x.value()] == regs[y.value()]),
        Operation::SkipIfRegistersNotEqual(x, y) => skip_if(s, regs[x.value()] != regs[y.value()]),
        Operation::Call(a) => MachineState { stack: s.stack.push(s.pc), pc: a.value(), ..s },
        Operation::Return => MachineState { stack: s.stack.drop_last(), pc: s.stack.last(), ..s },
        Operation::SetToRegister(x, y) => set_register(s, x.value(), regs[y.value()]),
        Operation::Or(x, y) => set_register(
            set_register(s, x.value(), regs[x.value()] | regs[y.value()]),
            15,
            0,
        ),
        Operation::And(x, y) => set_register(
            set_register(s, x.value(), regs[x.value()] & regs[y.value()]),
            15,
            0,
        ),
        Operation::Xor(x, y) => set_register(
            set_register(s, x.value(), regs[x.value()] ^ regs[y.value()]),
            15,
            0,
        ),
        Operation::AddRegister(x, y) => {
            let v1 = regs[x.value()];
            let sum = v1.wrapping_add(regs[y.value()]);
            set_register(set_register(s, x.value(), sum), 15, if sum >= v1 { 0 } else { 1 })
        },
        Operation::SubRegister(x, y) => {
            let v1 = regs[x.value()];
            let v2 = regs[y.value()];
            set_register(
                set_register(s, x.value(), v1.wrapping_sub(v2)),
                15,
                if v1 >= v2 { 1 } else { 0 },
            )
        },
        Operation::SubRegisterReversed(x, y) => {
            let v1 = regs[x.value()];
            let v2 = regs[y.value()];
            set_register(
                set_register(s, x.value(), v2.wrapping_sub(v1)),
                15,
                if v2 >= v1 { 1 } else { 0 },
            )
        },
        Operation::ShiftRight(x, y) => set_register(
            set_register(s, x.value(), regs[y.value()] >> 1u8),
            15,
            regs[x.value()] & 1u8,
        ),
        Operation::ShiftLeft(x, y) => set_register(
            set_register(s, x.value(), regs[y.value()] << 1u8),
            15,
            if regs[x.value()] & 0x80u8 != 0 { 1 } else { 0 },
        ),
        Operation::ReadMemory(n) => read_memory(s, n.value()),
        Operation::WriteMemory(n) => write_memory(s, n.value()),
        Operation::ToDecimal(x) => {
            let w = regs[x.value()];
            MachineState {
                memory: s.memory.update(s.index, w / 100).update(s.index + 1, w / 10 % 10).update(
                    s.index + 2,
                    w % 10,
                ),
                ..s
            }
        },
        Operation::IncrementIndexRegister(x) => MachineState {
            index: (s.index + regs[x.value()]) % 4096,
            ..s
        },
        Operation::SetDelayTimer(_) => s,
        Operation::SetToRandom(x, w) => set_register(s, x.value(), w & r.random),
        Operation::GetDelayTimer(x) => set_register(s, x.value(), r.delay),
        Operation::JumpV0(a) => MachineState { pc: (a.value() + regs[0]) % 4096, ..s },
        Operation::SkipIfKeyDown(_) => skip_if(s, r.key_down),
        Operation::SkipIfKeyUp(_) => skip_if(s, !r.key_down),
        Operation::WaitForKey(x) => {
            let key = match s.last_key {
                Some(k) => Some(k),
                None => r.pressed,
            };
            match key {
                Some(k) => if !r.key_down {
                    MachineState { registers: regs.update(x.value(), k as u8), last_key: None, ..s }
                } else {
                    MachineState { last_key: Some(k), pc: (s.pc - 2) % 4096, ..s }
                },
                None => MachineState { last_key: None, pc: (s.pc - 2) % 4096, ..s },
            }
        },
        Operation::SetSoundTimer(_) => s,
        Operation::SetIndexRegisterToSprite(_) => s,
    }
}

/// What running `op` in the state `s` does to the platform `p`, leading to
/// `q`, where the platform answered `r`: a drawing gets the position in the
/// two registers and the rows in memory at the index register; the timers
/// are set from a register; key tests ask about the key in a register; a
/// wait for a key asks about the key it saw before, or else takes a key
/// press and asks about that key. Other operations leave the platform alone.
pub open spec fn platform_step<P: Platform>(s: MachineState, op: Operation, r: Reply, p: P, q: P) -> bool {
    let regs = s.registers;
    match op {
        Operation::ClearScreen => p.clears(q),
        Operation::Draw(x, y, n) => p.draws(
            Point { x: regs[x.value()], y: regs[y.value()] },
            s.memory.subrange(s.index, s.index + n.value()),
            q,
            r.collision,
        ),
        Operation::SetDelayTimer(x) => p.sets_delay(regs[x.value()], q),
        Operation::GetDelayTimer(_) => r.delay == p.delay_timer() && q == p,
        Operation::SetToRandom(_, _) => p.draws_random(q, r.random),
        Operation::SkipIfKeyDown(x) => r.key_down == p.key_is_down(regs[x.value()] as int) && q == p,
        Operation::SkipIfKeyUp(x) => r.key_down == p.key_is_down(regs[x.value()] as int) && q == p,
        Operation::WaitForKey(_) => match s.last_key {
            Some(k) => r.key_down == p.key_is_down(k) && q == p,
            None => p.takes_key_press(q, r.pressed) && (r.pressed matches Some(k) ==> r.key_down
                == q.key_is_down(k)),
        },
        _ => q == p,
    }
}

/// One instruction, from state `s` on platform `p` to state `t` on platform
/// `q`, with result `res`: a known instruction runs as `execute` says, with
/// the platform answering as `platform_step` says; an unknown one only moves
/// the program counter past it.
pub open spec fn steps<P: Platform>(s: MachineState, p: P, t: MachineState, q: P, res: Result<(), Error>) -> bool {
    if known_opcode(opcode_at(s)) {
        &&& res is Ok
        &&& exists|op: Operation, rep: Reply|
            #![trigger decodes_to(opcode_at(s), op), execute(advanced(s), op, rep)]
            decodes_to(opcode_at(s), op) && t == execute(advanced(s), op, rep) && platform_step(
                advanced(s),
                op,
                rep,
                p,
                q,
            )
    } else {
        &&& res == Err::<(), Error>(Error::UnknownOpCode(OpCode(opcode_at(s))))
        &&& t == advanced(s)
        &&& q == p
    }
}

/// A `Return` run after a `Call` (whatever ran in between, as long as it
/// left the call stack as the call did) resumes after the call, with the
/// call stack as it was before it.
pub proof fn lemma_call_then_return(
    s: MachineState,
    target: Address,
    between: MachineState,
    r1: Reply,
    r2: Reply,
)
    requires
        between.stack == execute(s, Operation::Call(target), r1).stack,
    ensures
        execute(between, Operation::Return, r2).pc == s.pc,
        execute(between, Operation::Return, r2).stack == s.stack,
        execute(s, Operation::Call(target), r1).pc == target.value(),
{
    assert(s.stack.push(s.pc).drop_last() =~= s.stack);
}

/// A CHIP-8 machine running on the platform `P`.
pub struct Interpreter<P: Platform> {
    platform: P,
    bytes: [u8; 4096],
    register: Address,
    registers: [Word; 16],
    stack: Vec<Address>,
    ptr: Address,
    last_key: Option<Key>,
}

pub open spec fn key_number(k: Option<Key>) -> Option<int> {
    match k {
        Some(k) => Some(k.value()),
        None => None,
    }
}

pub open spec fn address_values(s: Seq<Address>) -> Seq<int> {
    s.map_values(|a: Address| a.value())
}

impl<P: Platform> Interpreter<P> {
    /// The machine's state.
    pub closed spec fn state(&self) -> MachineState {
        MachineState {
            memory: self.bytes@,
            index: self.register.value(),
            registers: self.registers@,
            stack: address_values(self.stack@),
            pc: self.ptr.value(),
            last_key: key_number(self.last_key),
        }
    }

    /// The platform.
    pub closed spec fn spec_platform(&self) -> P {
        self.platform
    }

    /// Memory always has 4096 bytes and there are sixteen registers; the
    /// index register and the program counter lie in memory.
    pub proof fn lemma_state_valid(&self)
        ensures
            self.state().memory.len() == 4096,
            self.state().registers.len() == 16,
            0 <= self.state().index < 4096,
            0 <= self.state().pc < 4096,
    {
        self.register.lemma_in_memory();
        self.ptr.lemma_in_memory();
    }

    /// A machine with the image loaded into zeroed memory and the program
    /// counter at its entry point; registers zero, call stack empty.
    pub fn new<I: Image>(image: I, platform: P) -> (interp: Self)
        ensures
            interp.state().memory == image.loaded(Seq::new(4096, |i: int| 0u8)),
            interp.state().pc == image.entry(),
            interp.state().memory.len() == 4096,
            interp.state().index == 0,
            interp.state().registers == Seq::new(16, |i: int| 0u8),
            interp.state().stack == Seq::<int>::empty(),
            interp.state().last_key == None::<int>,
            interp.spec_platform() == platform,
    {
        let mut tmp = [0u8; 4096];
        proof {
            broadcast use vstd::array::axiom_spec_array_fill_for_copy_type;

            assert(tmp == vstd::array::spec_array_fill_for_copy_type::<u8, 4096>(0u8));
            assert(tmp@ =~= Seq::new(4096, |i: int| 0u8));
        }
        image.load_into_memory(&mut tmp);
        let interp = Self {
            platform,
            bytes: tmp,
            register: Address::new(0),
            ptr: image.entry_point(),
            registers: [0u8; 16],
            stack: Vec::new(),
            last_key: None,
        };
        assert(interp.state().registers =~= Seq::new(16, |i: int| 0u8));
        assert(interp.state().stack =~= Seq::<int>::empty());
        interp
    }

    /// Runs the instruction at the program counter. The program counter
    /// moves past it first; an operation code that names no instruction
    /// gives `UnknownOpCode` and changes nothing else.
    #[verifier::rlimit(50)]
    pub fn run_next_instruction(&mut self) -> (r: Result<(), Error>)
        requires
            can_run(old(self).state()),
        ensures
            steps(old(self).state(), old(self).spec_platform(), final(self).state(), final(self).spec_platform(), r),
    {
        let ghost s0 = self.state();
        let ghost p0 = self.platform;
        let pc = self.ptr.as_usize();
        let byte1 = self.bytes[pc];
        let byte2 = self.bytes[pc + 1];
        self.ptr = self.ptr.add(2);
        let code = OpCode::from_bytes(byte1, byte2);
        let ghost adv = advanced(s0);
        assert(code.0 == opcode_at(s0));
        assert(self.state() =~= adv);
        match Operation::try_from(code) {
            Ok(op) => {
                let ghost mut rep = Reply {
                    collision: false,
                    random: 0,
                    delay: 0,
                    key_down: false,
                    pressed: None,
                };
                match op {
                    Operation::ClearScreen => {
                        self.platform.clear_screen();
                    },
                    Operation::SetIndexRegister(index) => {
                        self.register = index;
                    },
                    Operation::SetRegister(index, word) => {
                        self.registers[index.as_usize()] = word;
                    },
                    Operation::Jump(address) => {
                        self.ptr = address;
                    },
                    Operation::Draw(index1, index2, address) => {
                        let x_point = self.registers[index1.as_usize()];
                        let y_point = self.registers[index2.as_usize()];
                        let xy = Point { x: x_point, y: y_point };
                        let start = self.register.as_usize();
                        let count = address.as_usize();
                        let mut rows: Vec<u8> = Vec::new();
                        let mut i: usize = 0;
                        while i < count
                            invariant
                                start + count <= 4096,
                                i <= count,
                                rows@ == self.bytes@.subrange(start as int, start + i),
                            decreases count - i,
                        {
                            rows.push(self.bytes[start + i]);
                            i = i + 1;
                        }
                        let collision = self.platform.draw_sprite(xy, Sprite::new(rows));
                        self.registers[15] = if collision {
                            1
                        } else {
                            0
                        };
                        proof {
                            rep = Reply { collision, ..rep };
                        }
                    },
                    Operation::AddValue(index, word) => {
                        let v = self.registers[index.as_usize()].wrapping_add(word);
                        self.registers[index.as_usize()] = v;
                    },
                    Operation::SkipIfEqual(index, word) => {
                        if self.registers[index.as_usize()] == word {
                            self.ptr = self.ptr.add(2);
                        }
                    },
                    Operation::SkipIfNotEqual(index, word) => {
                        if self.registers[index.as_usize()] != word {
                            self.ptr = self.ptr.add(2);
                        }
                    },
                    Operation::SkipIfRegistersEqual(index1, index2) => {
                        if self.registers[index1.as_usize()] == self.registers[index2.as_usize()] {
                            self.ptr = self.ptr.add(2);
                        }
                    },
                    Operation::SkipIfRegistersNotEqual(index1, index2) => {
                        if self.registers[index1.as_usize()] != self.registers[index2.as_usize()] {
                            self.ptr = self.ptr.add(2);
                        }
                    },
                    Operation::Call(address) => {
                        let ghost before = self.stack@;
                        self.stack.push(self.ptr);
                        self.ptr = address;
                        assert(address_values(self.stack@) =~= address_values(before).push(adv.pc));
                    },
                    Operation::Return => {
                        let ghost before = self.stack@;
                        match self.stack.pop() {
                            Some(address) => {
                                self.ptr = address;
                                assert(address_values(self.stack@) =~= address_values(before).drop_last());
                            },
                            None => {},
                        }
                    },
                    Operation::SetToRegister(index1, index2) => {
                        let v = self.registers[index2.as_usize()];
                        self.registers[index1.as_usize()] = v;
                    },
                    Operation::Or(index1, index2) => {
                        let v = self.registers[index1.as_usize()] | self.registers[index2.as_usize()];
                        self.registers[index1.as_usize()] = v;
                        self.registers[15] = 0;
                    },
                    Operation::And(index1, index2) => {
                        let v = self.registers[index1.as_usize()] & self.registers[index2.as_usize()];
                        self.registers[index1.as_usize()] = v;
                        self.registers[15] = 0;
                    },
                    Operation::Xor(index1, index2) => {
                        let v = self.registers[index1.as_usize()] ^ self.registers[index2.as_usize()];
                        self.registers[index1.as_usize()] = v;
                        self.registers[15] = 0;
                    },
                    Operation::AddRegister(index1, index2) => {
                        let val1 = self.registers[index1.as_usize()];
                        let val2 = self.registers[index2.as_usize()];
                        let add_result = val1.wrapping_add(val2);
                        self.registers[index1.as_usize()] = add_result;
                        self.registers[15] = if add_result >= val1 {
                            0
                        } else {
                            1
                        };
                    },
                    Operation::SubRegister(index1, index2) => {
                        let val1 = self.registers[index1.as_usize()];
                        let val2 = self.registers[index2.as_usize()];
                        let subtract_result = match val1.checked_sub(val2) {
                            Some(result) => {
                                self.registers[index1.as_usize()] = result;
                                1
                            },
                            None => {
                                self.registers[index1.as_usize()] = val1.wrapping_sub(val2);
                                0
                            },
                        };
                        self.registers[15] = subtract_result;
                    },
                    Operation::SubRegisterReversed(index1, index2) => {
                        let val1 = self.registers[index1.as_usize()];
                        let val2 = self.registers[index2.as_usize()];
                        let subtract_result = val2.wrapping_sub(val1);
                        self.registers[index1.as_usize()] = subtract_result;
                        self.registers[15] = if val2 >= val1 {
                            1
                        } else {
                            0
                        };
                    },
                    Operation::ShiftRight(index1, index2) => {
                        let tmp = self.registers[index1.as_usize()];
                        let v = self.registers[index2.as_usize()] >> 1u8;
                        self.registers[index1.as_usize()] = v;
                        self.registers[15] = tmp & 0x01u8;
                    },
                    Operation::ShiftLeft(index1, index2) => {
                        let tmp = self.registers[index1.as_usize()];
                        let v = self.registers[index2.as_usize()] << 1u8;
                        self.registers[index1.as_usize()] = v;
                        self.registers[15] = if (tmp & 0x80u8) != 0 {
                            1
                        } else {
                            0
                        };
                    },
                    Operation::ReadMemory(index) => {
                        self.load_registers(index);
                    },
                    Operation::WriteMemory(index) => {
                        self.store_registers(index);
                    },
                    Operation::ToDecimal(index) => {
                        let word = self.registers[index.as_usize()];
                        let at = self.register.as_usize();
                        self.bytes[at] = word / 100;
                        self.bytes[at + 1] = word / 10 % 10;
                        self.bytes[at + 2] = word % 10;
                    },
                    Operation::IncrementIndexRegister(index) => {
                        self.register = self.register.add(self.registers[index.as_usize()] as Offset);
                    },
                    Operation::SetDelayTimer(index) => {
                        self.platform.set_delay_timer(self.registers[index.as_usize()]);
                    },
                    Operation::SetToRandom(index, word) => {
                        let random = self.platform.get_random_word();
                        self.registers[index.as_usize()] = word & random;
                        proof {
                            rep = Reply { random, ..rep };
                        }
                    },
                    Operation::GetDelayTimer(index) => {
                        let delay = self.platform.get_delay_timer();
                        self.registers[index.as_usize()] = delay;
                        proof {
                            rep = Reply { delay, ..rep };
                        }
                    },
                    Operation::JumpV0(address) => {
                        self.ptr = address.add(self.registers[0] as Offset);
                    },
                    Operation::SkipIfKeyDown(index) => {
                        match Key::try_from(self.registers[index.as_usize()]) {
                            Ok(key) => {
                                let down = self.platform.is_key_down(key);
                                if down {
                                    self.ptr = self.ptr.add(2);
                                }
                                proof {
                                    rep = Reply { key_down: down, ..rep };
                                }
                            },
                            Err(_) => {},
                        }
                    },
                    Operation::SkipIfKeyUp(index) => {
                        match Key::try_from(self.registers[index.as_usize()]) {
                            Ok(key) => {
                                let down = self.platform.is_key_down(key);
                                if !down {
                                    self.ptr = self.ptr.add(2);
                                }
                                proof {
                                    rep = Reply { key_down: down, ..rep };
                                }
                            },
                            Err(_) => {},
                        }
                    },
                    Operation::WaitForKey(index) => {
                        let taken = self.last_key;
                        self.last_key = None;
                        let key = match taken {
                            Some(k) => Some(k),
                            None => {
                                let pressed = self.platform.consume_key_press();
                                proof {
                                    rep = Reply { pressed: key_number(pressed), ..rep };
                                }
                                pressed
                            },
                        };
                        if let Some(last_key) = key {
                            let down = self.platform.is_key_down(last_key);
                            proof {
                                rep = Reply { key_down: down, ..rep };
                            }
                            if !down {
                                self.registers[index.as_usize()] = last_key.as_u8();
                                self.last_key = None;
                                self.ptr = self.ptr.add(2);
                            } else {
                                self.last_key = Some(last_key);
                            }
                        }
                        self.ptr = self.ptr.add(-2);
                    },
                    Operation::SetSoundTimer(_) | Operation::SetIndexRegisterToSprite(_) => {
                        return Err(Error::UnknownOpCode(code));
                    },
                }
                assert(self.state() =~= execute(adv, op, rep));
                assert(platform_step(adv, op, rep, p0, self.platform));
                Ok(())
            },
            Err(_) => Err(Error::UnknownOpCode(code)),
        }
    }

    /// Whether the instruction at the program counter can run (see
    /// `can_run`), and the operation code there if the program counter
    /// leaves room for it.
    pub fn can_run_next(&self) -> (r: (bool, Option<OpCode>))
        ensures
            r.0 == can_run(self.state()),
            self.state().pc < 4095 ==> r.1 == Some(OpCode(opcode_at(self.state()))),
            self.state().pc >= 4095 ==> r.1 is None,
    {
        let pc = self.ptr.as_usize();
        if pc >= 4095 {
            return (false, None);
        }
        let code = OpCode::from_bytes(self.bytes[pc], self.bytes[pc + 1]);
        assert(code.0 == opcode_at(self.state()));
        let n3 = code.extract_nibble(3).as_u8();
        let n2 = code.extract_nibble(2).as_usize();
        let n0 = code.extract_nibble(0).as_usize();
        let low = code.extract_word(0);
        let index = self.register.as_usize();
        let ok = if n3 == 0xD {
            index + n0 <= 4096
        } else if code.0 == 0x00EE {
            self.stack.len() > 0
        } else if n3 == 0xF && (low == 0x55 || low == 0x65) {
            index + n2 < 4096
        } else if n3 == 0xF && low == 0x33 {
            index + 2 < 4096
        } else if n3 == 0xE && (low == 0x9E || low == 0xA1) {
            self.registers[n2] < 16
        } else {
            true
        };
        (ok, Some(code))
    }

    fn load_registers(&mut self, index: Nibble)
        requires
            old(self).state().index + index.value() < 4096,
        ensures
            final(self).state() == read_memory(old(self).state(), index.value()),
            final(self).spec_platform() == old(self).spec_platform(),
    {
        let ghost s0 = self.state();
        let start = self.register.as_usize();
        let last = index.as_usize();
        let mut i: usize = 0;
        while i <= last
            invariant
                start == s0.index,
                start + last < 4096,
                last < 16,
                i <= last + 1,
                self.bytes@ == s0.memory,
                self.register == old(self).register,
                self.stack == old(self).stack,
                self.ptr == old(self).ptr,
                self.last_key == old(self).last_key,
                self.platform == old(self).platform,
                forall|k: int| 0 <= k < 16 ==> #[trigger] self.registers@[k] == if k < i {
                    s0.memory[start + k]
                } else {
                    s0.registers[k]
                },
            decreases last + 1 - i,
        {
            self.registers[i] = self.bytes[start + i];
            i = i + 1;
        }
        self.register = self.register.add(index.as_offset() + 1);
        assert(self.state() =~= read_memory(s0, index.value()));
    }

    fn store_registers(&mut self, index: Nibble)
        requires
            old(self).state().index + index.value() < 4096,
        ensures
            final(self).state() == write_memory(old(self).state(), index.value()),
            final(self).spec_platform() == old(self).spec_platform(),
    {
        let ghost s0 = self.state();
        let start = self.register.as_usize();
        let last = index.as_usize();
        let mut i: usize = 0;
        while i <= last
            invariant
                start == s0.index,
                start + last < 4096,
                last < 16,
                i <= last + 1,
                self.registers@ == s0.registers,
                self.register == old(self).register,
                self.stack == old(self).stack,
                self.ptr == old(self).ptr,
                self.last_key == old(self).last_key,
                self.platform == old(self).platform,
                forall|k: int| 0 <= k < 4096 ==> #[trigger] self.bytes@[k] == if start <= k < start + i {
                    s0.registers[k - start]
                } else {
                    s0.memory[k]
                },
            decreases last + 1 - i,
        {
            self.bytes[start + i] = self.registers[i];
            i = i + 1;
        }
        self.register = self.register.add(index.as_offset() + 1);
        assert(self.state() =~= write_memory(s0, index.value()));
    }

    pub fn platform(&self) -> (p: &P)
        ensures
            *p == self.spec_platform(),
    {
        &self.platform
    }

    pub fn platform_mut(&mut self) -> (p: &mut P)
        ensures
            *p == old(self).spec_platform(),
            final(self).spec_platform() == *final(p),
            final(self).state() == old(self).state(),
    {
        &mut self.platform
    }
}

} // verus!
