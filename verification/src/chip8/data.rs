//! The machine's basic values: words, 12-bit addresses, nibbles and
//! two-byte operation codes.
use vstd::prelude::*;

verus! {

/// A byte of memory or a register's value.
pub type Word = u8;

/// A signed distance between addresses.
pub type Offset = i16;

/// Number of addressable bytes.
pub const ADDRESS_DOMAIN_SIZE: usize = 4096;

/// An address in memory: a value below 4096.
#[derive(Clone, Copy, Debug, PartialEq, Eq, Structural)]
pub struct Address(u16);

impl Address {
    #[verifier::type_invariant]
    closed spec fn in_domain(&self) -> bool {
        self.0 < 4096
    }

    /// The address as a number.
    pub closed spec fn value(&self) -> int {
        self.0 as int % 4096
    }

    /// An address lies in memory.
    pub proof fn lemma_in_memory(&self)
        ensures
            0 <= self.value() < 4096,
    {
    }

    /// The address `value` wraps to.
    pub fn new(value: u16) -> (a: Self)
        ensures
            a.value() == value as int % 4096,
    {
        Address(value % 4096)
    }

    pub fn as_usize(&self) -> (u: usize)
        ensures
            u == self.value(),
            u < 4096,
    {
        proof {
            use_type_invariant(self);
        }
        self.0 as usize
    }

    /// The address `offset` bytes further, wrapping around the end of
    /// memory.
    pub fn add(self, offset: Offset) -> (a: Self)
        ensures
            a.value() == (self.value() + offset) % 4096,
    {
        proof {
            use_type_invariant(self);
        }
        let s: i32 = self.0 as i32 + offset as i32 + 65536;
        Address((s % 4096) as u16)
    }
}

/// A four-bit value; it also names one of the sixteen registers.
#[derive(Clone, Copy, Debug, PartialEq, Eq, Structural)]
pub struct Nibble(u8);

/// The name of a register.
pub type RegisterIndex = Nibble;

impl Nibble {
    #[verifier::type_invariant]
    closed spec fn in_range(&self) -> bool {
        self.0 < 16
    }

    /// The nibble as a number.
    pub closed spec fn value(&self) -> int {
        self.0 as int % 16
    }

    /// The low four bits of `value`.
    pub fn new(value: u8) -> (n: Self)
        ensures
            n.value() == value as int % 16,
    {
        let v = value & 0xF;
        assert(v == value % 16) by (bit_vector)
            requires
                v == value & 0xF,
        ;
        Nibble(v)
    }

    pub fn as_u8(&self) -> (v: u8)
        ensures
            v == self.value(),
            v < 16,
    {
        proof {
            use_type_invariant(self);
        }
        self.0
    }

    pub fn as_usize(&self) -> (v: usize)
        ensures
            v == self.value(),
            v < 16,
    {
        proof {
            use_type_invariant(self);
        }
        self.0 as usize
    }

    pub fn as_offset(&self) -> (v: Offset)
        ensures
            v == self.value(),
            0 <= v < 16,
    {
        proof {
            use_type_invariant(self);
        }
        self.0 as Offset
    }
}

/// A two-byte operation code, first byte high.
#[derive(Clone, Copy, Debug, PartialEq, Eq, Structural)]
pub struct OpCode(pub u16);

/// Nibble `i` of `code`, counting from the lowest.
pub open spec fn nibble_at(code: u16, i: int) -> int {
    if i == 0 {
        code as int % 16
    } else if i == 1 {
        (code as int / 16) % 16
    } else if i == 2 {
        (code as int / 256) % 16
    } else {
        code as int / 4096
    }
}

impl OpCode {
    /// The operation code made of the bytes `byte1` (high) and `byte2` (low).
    pub fn from_bytes(byte1: u8, byte2: u8) -> (code: Self)
        ensures
            code.0 == byte1 as int * 256 + byte2 as int,
    {
        OpCode((byte1 as u16) * 256 + byte2 as u16)
    }

    /// Nibble `index` of the code, counting from the lowest.
    pub fn extract_nibble(&self, index: u8) -> (n: Nibble)
        requires
            index < 4,
        ensures
            n.value() == nibble_at(self.0, index as int),
    {
        let c = self.0;
        let shifted: u16 = if index == 0 {
            c
        } else if index == 1 {
            c >> 4u16
        } else if index == 2 {
            c >> 8u16
        } else {
            c >> 12u16
        };
        let low = (shifted & 0xF) as u8;
        proof {
            if index == 0 {
                assert((c & 0xF) == c % 16) by (bit_vector);
            } else if index == 1 {
                assert(((c >> 4u16) & 0xF) == (c / 16) % 16) by (bit_vector);
            } else if index == 2 {
                assert(((c >> 8u16) & 0xF) == (c / 256) % 16) by (bit_vector);
            } else {
                assert(((c >> 12u16) & 0xF) == c / 4096) by (bit_vector);
            }
        }
        Nibble::new(low)
    }

    /// Byte `index` of the code, counting from the lowest.
    pub fn extract_word(&self, index: u8) -> (w: Word)
        requires
            index < 2,
        ensures
            w == (if index == 0 { self.0 as int % 256 } else { self.0 as int / 256 }),
    {
        let c = self.0;
        if index == 0 {
            assert((c & 0xFF) == c % 256) by (bit_vector);
            (c & 0xFF) as u8
        } else {
            assert((c >> 8u16) == c / 256) by (bit_vector);
            (c >> 8u16) as u8
        }
    }

    /// The low twelve bits of the code, as an address.
    pub fn extract_address(&self) -> (a: Address)
        ensures
            a.value() == self.0 as int % 4096,
    {
        let c = self.0;
        assert((c & 0xFFF) % 4096 == c % 4096) by (bit_vector);
        Address::new(c & 0xFFF)
    }
}

} // verus!
