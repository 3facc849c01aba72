//! Activation: which value the translation-control register must hold for
//! an address space, and whether it has to be written.
//!
//! The library reads the register and decides. Writing it and flushing the
//! cached translations is the caller's part: where [`Mapping::activate`]
//! answers with a value, the caller writes that value and flushes.
use vstd::prelude::*;
use crate::address::PhysicalPageNumber;
use crate::mapping::Mapping;

verus! {

/// The mode field of the register for three-level translation.
pub const SV39_MODE: u64 = 8;

/// The register value that selects three-level translation with the root
/// table in frame `root`: the mode in the top four bits, the frame's number
/// in the low 44.
pub open spec fn satp_value(root: int) -> int {
    0x8000_0000_0000_0000 + root
}

/// What activation has to do when the register holds `current`: nothing if
/// it already holds the value for `root`, else write that value and flush.
pub open spec fn activation(root: int, current: u64) -> Option<u64> {
    if current == satp_value(root) {
        None
    } else {
        Some(satp_value(root) as u64)
    }
}

/// What activation has to do once the register has been read: what
/// `activation` says of the value read, and where no value could be read,
/// write the value for `root` and flush.
pub open spec fn activation_after(root: int, read: Option<u64>) -> Option<u64> {
    match read {
        Some(current) => activation(root, current),
        None => Some(satp_value(root) as u64),
    }
}

/// What the register holds after `action` has been carried out.
pub open spec fn register_after(current: u64, action: Option<u64>) -> u64 {
    match action {
        Some(value) => value,
        None => current,
    }
}

/// The register value for the root table in frame `root`.
pub fn satp_for(root: PhysicalPageNumber) -> (value: u64)
    requires
        root.0 < 0x1000_0000_0000,
    ensures
        value == satp_value(root.0 as int),
{
    let page: u64 = root.0;
    assert(page | (8u64 << 60) == 0x8000_0000_0000_0000 + page) by (bit_vector)
        requires
            page < 0x1000_0000_0000,
    ;
    page | (SV39_MODE << 60)
}

/// Reads the translation-control register of this hart.
///
/// Calls `riscv::register::satp::try_read`, which reads the register on a
/// RISC-V target and reports `Unimplemented` on any other, and
/// `Satp::bits`, which gives the value read. Nothing is claimed of the
/// value: it is whatever the hart holds at that moment. `None` stands for
/// a target without the register.
#[verifier::external_body]
fn read_satp() -> (value: Option<u64>) {
    match riscv::register::satp::try_read() {
        Ok(register) => Some(register.bits() as u64),
        Err(_) => None,
    }
}

impl Mapping {
    /// The register value that makes this address space the active one.
    pub fn satp(&self) -> (value: u64)
        requires
            self.wf(),
        ensures
            value == satp_value(self.root()),
    {
        satp_for(self.root_page_number())
    }

    /// Decides what activation has to do, given the value `current` that the
    /// register holds: `Some(value)` if `value` has to be written and the
    /// cached translations flushed, `None` if the register already selects
    /// this address space and nothing is to be done.
    pub fn activation(&self, current: u64) -> (action: Option<u64>)
        requires
            self.wf(),
        ensures
            action == activation(self.root(), current),
    {
        let value: u64 = self.satp();
        if current != value {
            Some(value)
        } else {
            None
        }
    }

    /// Decides what activation has to do, given what reading the register
    /// gave: for a value read, what `activation` decides; where the register
    /// could not be read, its value counts as unknown, and the write and the
    /// flush are asked for.
    pub fn activation_after(&self, read: Option<u64>) -> (action: Option<u64>)
        requires
            self.wf(),
        ensures
            action == activation_after(self.root(), read),
    {
        match read {
            Some(current) => self.activation(current),
            None => Some(self.satp()),
        }
    }

    /// Reads the register and decides what activation has to do: `Some(value)`
    /// if `value` has to be written and the cached translations flushed,
    /// `None` if the register already selects this address space.
    ///
    /// What the register holds is not known before the call, so all that is
    /// stated here is which value can be asked for;
    /// [`Mapping::activation_after`] says what is decided for each outcome of
    /// the read.
    pub fn activate(&self) -> (action: Option<u64>)
        requires
            self.wf(),
        ensures
            action is None || action == Some(satp_value(self.root()) as u64),
    {
        self.activation_after(read_satp())
    }
}

} // verus!
