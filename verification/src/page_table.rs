//! Table nodes and their entries.
use vstd::prelude::*;
use crate::address::PhysicalPageNumber;
use crate::flags::Flags;
use crate::frame::FrameTracker;

verus! {

/// One slot of a table node.
#[derive(Clone, Copy, Debug, PartialEq, Eq, Structural)]
pub enum PageTableEntry {
    /// Nothing is mapped under this slot.
    Empty,
    /// The slot points to the table of the next level: `page_number` is the
    /// frame that table lives in, `node` its place among the tables of the
    /// address space.
    Interior { page_number: PhysicalPageNumber, node: usize },
    /// The slot maps a page to `page_number` with the permissions `flags`.
    Leaf { page_number: PhysicalPageNumber, flags: Flags },
}

impl PageTableEntry {
    /// The entry as the hardware reads it: the permission bits in the low
    /// eight bits, the low 44 bits of the page number from bit 10 on. An
    /// interior entry has the valid bit and no other; an empty one is zero.
    pub open spec fn encoding(self) -> u64 {
        match self {
            PageTableEntry::Empty => 0,
            PageTableEntry::Interior { page_number, .. } => ((page_number.0 & 0xfff_ffff_ffff)
                << 10) | 1,
            PageTableEntry::Leaf { page_number, flags } => ((page_number.0 & 0xfff_ffff_ffff)
                << 10) | (flags.bits as u64),
        }
    }

    /// The place, among the tables of the address space, of the table that
    /// the entry points to, if it points to one.
    pub open spec fn child(self) -> Option<int> {
        match self {
            PageTableEntry::Interior { node, .. } => Some(node as int),
            _ => None,
        }
    }

    /// Whether nothing is mapped under this slot.
    pub fn is_empty(&self) -> (empty: bool)
        ensures
            empty == (*self is Empty),
    {
        match self {
            PageTableEntry::Empty => true,
            _ => false,
        }
    }

    /// The entry as the hardware reads it.
    pub fn bits(&self) -> (bits: u64)
        ensures
            bits == self.encoding(),
    {
        match self {
            PageTableEntry::Empty => 0,
            PageTableEntry::Interior { page_number, .. } => ((page_number.0 & 0xfff_ffff_ffff)
                << 10) | 1,
            PageTableEntry::Leaf { page_number, flags } => ((page_number.0 & 0xfff_ffff_ffff)
                << 10) | (flags.bits as u64),
        }
    }

    /// The fields of an encoded entry: the low eight bits are the
    /// permissions, the 44 bits from bit 10 on are the page number, and an
    /// entry with the valid bit is not zero.
    pub proof fn lemma_encoding(self)
        ensures
            self matches PageTableEntry::Leaf { page_number, flags } ==> {
                &&& self.encoding() & 0xff == flags.bits
                &&& (self.encoding() >> 10) & 0xfff_ffff_ffff == page_number.0 & 0xfff_ffff_ffff
                &&& (flags.bits & 1 == 1 ==> self.encoding() != 0)
            },
            self matches PageTableEntry::Interior { page_number, .. } ==> {
                &&& self.encoding() & 0xff == 1
                &&& (self.encoding() >> 10) & 0xfff_ffff_ffff == page_number.0 & 0xfff_ffff_ffff
                &&& self.encoding() != 0
            },
    {
        match self {
            PageTableEntry::Empty => {},
            PageTableEntry::Interior { page_number, .. } => {
                let page: u64 = page_number.0;
                assert((((page & 0xfff_ffff_ffff) << 10) | 1) & 0xff == 1) by (bit_vector);
                assert(((((page & 0xfff_ffff_ffff) << 10) | 1) >> 10) & 0xfff_ffff_ffff == page
                    & 0xfff_ffff_ffff) by (bit_vector);
                assert((((page & 0xfff_ffff_ffff) << 10) | 1) != 0) by (bit_vector);
            },
            PageTableEntry::Leaf { page_number, flags } => {
                let page: u64 = page_number.0;
                let low: u8 = flags.bits;
                assert((((page & 0xfff_ffff_ffff) << 10) | (low as u64)) & 0xff == low)
                    by (bit_vector);
                assert(((((page & 0xfff_ffff_ffff) << 10) | (low as u64)) >> 10)
                    & 0xfff_ffff_ffff == page & 0xfff_ffff_ffff) by (bit_vector);
                assert(low & 1 == 1 ==> (((page & 0xfff_ffff_ffff) << 10) | (low as u64)) != 0)
                    by (bit_vector);
            },
        }
    }
}

/// A table node: the frame it lives in and its 512 entries.
pub struct PageTable {
    pub(crate) frame: FrameTracker,
    pub(crate) entries: Vec<PageTableEntry>,
    pub(crate) level: Ghost<nat>,
}

impl PageTable {
    /// The entries of the node, by slot.
    pub closed spec fn slots(&self) -> Seq<PageTableEntry> {
        self.entries@
    }

    /// The number of the frame the node lives in.
    pub closed spec fn number(&self) -> int {
        self.frame.number()
    }

    /// The number of the node is that of its frame, and its slots are its
    /// entries.
    pub(crate) proof fn lemma_number(&self)
        ensures
            self.number() == self.frame.number(),
            self.slots() == self.entries@,
    {
    }

    /// A node in `frame` with every slot empty.
    pub(crate) fn new(frame: FrameTracker, level: Ghost<nat>) -> (table: PageTable)
        ensures
            table.entries@.len() == 512,
            forall|index: int| 0 <= index < 512 ==> (#[trigger] table.entries@[index]) is Empty,
            table.frame == frame,
            table.level@ == level@,
    {
        let mut entries: Vec<PageTableEntry> = Vec::new();
        let mut filled: usize = 0;
        while filled < 512
            invariant
                filled <= 512,
                entries@.len() == filled,
                forall|index: int| 0 <= index < filled ==> (#[trigger] entries@[index]) is Empty,
            decreases 512 - filled,
        {
            entries.push(PageTableEntry::Empty);
            filled = filled + 1;
        }
        PageTable { frame, entries, level }
    }

    /// The number of the frame the node lives in.
    pub fn page_number(&self) -> (page: PhysicalPageNumber)
        ensures
            page.0 == self.number(),
    {
        self.frame.page_number()
    }

    /// Gives up the node for the frame it lived in.
    pub(crate) fn into_frame(self) -> (frame: FrameTracker)
        ensures
            frame == self.frame,
    {
        self.frame
    }

    /// The node as the hardware reads it: one word for each slot.
    pub fn words(&self) -> (words: Vec<u64>)
        ensures
            words@.len() == self.slots().len(),
            forall|index: int|
                0 <= index < words@.len() ==> (#[trigger] words@[index])
                    == self.slots()[index].encoding(),
    {
        let mut words: Vec<u64> = Vec::new();
        let mut index: usize = 0;
        while index < self.entries.len()
            invariant
                index <= self.entries@.len(),
                words@.len() == index,
                forall|done: int|
                    0 <= done < index ==> (#[trigger] words@[done])
                        == self.entries@[done].encoding(),
            decreases self.entries@.len() - index,
        {
            words.push(self.entries[index].bits());
            index = index + 1;
        }
        words
    }

    /// The entries of the node, by slot.
    pub fn entries(&self) -> (entries: &Vec<PageTableEntry>)
        ensures
            entries@ == self.slots(),
    {
        &self.entries
    }
}

} // verus!
