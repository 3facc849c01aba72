//! The two ways in which building a mapping can fail.
use vstd::prelude::*;

verus! {

/// Why a mapping operation failed.
#[derive(Clone, Copy, Debug, PartialEq, Eq, Structural)]
pub enum MapError {
    /// No physical frame was free when one was needed, for a table node or
    /// for the frame that backs a page.
    ResourceExhausted,
    /// The virtual page already has a terminal entry.
    MappingConflict,
}

impl MapError {
    /// A short description of the failure.
    pub fn message(&self) -> (text: &'static str)
        ensures
            text@ == (match *self {
                MapError::ResourceExhausted => "no available frame to allocate"@,
                MapError::MappingConflict => "virtual address is already mapped"@,
            }),
    {
        match self {
            MapError::ResourceExhausted => "no available frame to allocate",
            MapError::MappingConflict => "virtual address is already mapped",
        }
    }
}

} // verus!
