//! Sv39 address-space mapping: a three-level radix page table kept as an arena
//! of table nodes, the segments that describe what has been mapped, and the
//! decision that activation of an address space comes down to.
//!
//! Physical frames come from an explicitly passed [`frame::FrameAllocator`].
//! Every operation states how it leaves the table tree, the segment list and
//! the free pool, on success and on failure.
//!
//! Mappings are only added, never removed. A page is mapped or not at all:
//! a table joins the tree only when the walk of its page succeeds, so a page
//! that fails leaves the address space and the pool as they were. A call on
//! a range is not rolled back: the pages before the one that failed stay
//! mapped, with the tables created for them. No frame is lost on the way:
//! the frames of an address space and those of the pool are together always
//! the same, until [`mapping::Mapping::release`] gives the former back.
pub mod activation;
pub mod address;
pub mod error;
pub mod flags;
pub mod frame;
pub mod kernel;
pub mod laws;
pub mod mapping;
pub mod model;
pub mod page_table;
pub mod ranges;
pub mod segment;
mod tree;
