//! Permission bits of a table entry.
use vstd::prelude::*;

verus! {

/// The entry is in use.
pub const VALID: u8 = 0x01;

/// Loads are allowed.
pub const READABLE: u8 = 0x02;

/// Stores are allowed.
pub const WRITABLE: u8 = 0x04;

/// Instruction fetches are allowed.
pub const EXECUTABLE: u8 = 0x08;

/// User mode may use the page.
pub const USER: u8 = 0x10;

/// The mapping exists in every address space.
pub const GLOBAL: u8 = 0x20;

/// The page has been read, written or fetched from.
pub const ACCESSED: u8 = 0x40;

/// The page has been written.
pub const DIRTY: u8 = 0x80;

/// A set of permission bits, in the bit positions the hardware uses.
#[derive(Clone, Copy, Debug, PartialEq, Eq, Structural)]
pub struct Flags {
    pub bits: u8,
}

impl Flags {
    /// The set that holds exactly the given bits.
    pub fn new(bits: u8) -> (flags: Flags)
        ensures
            flags == (Flags { bits }),
    {
        Flags { bits }
    }

    /// No bit set.
    pub fn empty() -> (flags: Flags)
        ensures
            flags.bits == 0,
    {
        Flags { bits: 0 }
    }

    /// Whether every bit of `other` is set in `self`.
    pub open spec fn includes(self, other: Flags) -> bool {
        self.bits & other.bits == other.bits
    }

    /// The bits of both sets.
    pub fn union(self, other: Flags) -> (flags: Flags)
        ensures
            flags.bits == self.bits | other.bits,
    {
        Flags { bits: self.bits | other.bits }
    }

    /// Whether every bit of `other` is set in `self`.
    pub fn contains(self, other: Flags) -> (held: bool)
        ensures
            held == self.includes(other),
    {
        self.bits & other.bits == other.bits
    }

    /// Valid, readable and executable: code.
    pub open spec fn spec_text() -> Flags {
        Flags { bits: 0x0b }
    }

    /// Valid and readable: constants.
    pub open spec fn spec_read_only() -> Flags {
        Flags { bits: 0x03 }
    }

    /// Valid, readable and writable: data.
    pub open spec fn spec_read_write() -> Flags {
        Flags { bits: 0x07 }
    }

    /// Valid, readable and executable: code.
    #[verifier::when_used_as_spec(spec_text)]
    pub fn text() -> (flags: Flags)
        ensures
            flags == Flags::spec_text(),
            flags.bits == VALID | READABLE | EXECUTABLE,
    {
        assert(0x01u8 | 0x02u8 | 0x08u8 == 0x0bu8) by (bit_vector);
        Flags { bits: VALID | READABLE | EXECUTABLE }
    }

    /// Valid and readable: constants.
    #[verifier::when_used_as_spec(spec_read_only)]
    pub fn read_only() -> (flags: Flags)
        ensures
            flags == Flags::spec_read_only(),
            flags.bits == VALID | READABLE,
    {
        assert(0x01u8 | 0x02u8 == 0x03u8) by (bit_vector);
        Flags { bits: VALID | READABLE }
    }

    /// Valid, readable and writable: data.
    #[verifier::when_used_as_spec(spec_read_write)]
    pub fn read_write() -> (flags: Flags)
        ensures
            flags == Flags::spec_read_write(),
            flags.bits == VALID | READABLE | WRITABLE,
    {
        assert(0x01u8 | 0x02u8 | 0x04u8 == 0x07u8) by (bit_vector);
        Flags { bits: VALID | READABLE | WRITABLE }
    }
}

} // verus!
