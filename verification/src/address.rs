//! Page numbers, page ranges and the way a virtual page number is cut into
//! the three indices of a table walk.
use vstd::prelude::*;

verus! {

/// Bytes in a page.
pub const PAGE_SIZE: u64 = 4096;

/// Entries in one table node.
pub const ENTRIES: usize = 512;

/// Virtual pages that a three-level table tells apart: `512 * 512 * 512`.
pub const SLOTS: u64 = 0x800_0000;

/// Pages under one entry of the root table: `512 * 512`.
pub const DIRECTORY_SPAN: u64 = 0x4_0000;

/// One more than the largest physical page number an entry can hold.
pub const PAGE_NUMBER_LIMIT: u64 = 0x1000_0000_0000;

/// The place of a page in the table: its number without the bits above the
/// three indices. Two pages with the same slot share one terminal entry.
pub open spec fn slot_of(page: int) -> int {
    page % 0x800_0000
}

/// The entry of the root table under which a slot lies.
pub open spec fn directory_of(slot: int) -> int {
    slot / 0x4_0000
}

/// The last-level table in which a slot lies, counted over the whole tree.
pub open spec fn leaf_table_of(slot: int) -> int {
    slot / 512
}

/// The number of pages from page `start` to the first page at or behind it
/// that has the slot `slot`.
#[verifier::opaque]
pub open spec fn distance(start: int, slot: int) -> int {
    (slot - start) % 0x800_0000
}

/// The distance to a slot is less than the number of slots, and leads from
/// `start` to a page with that slot.
pub proof fn lemma_distance(start: int, slot: int)
    ensures
        0 <= distance(start, slot) < 0x800_0000,
        0 <= slot < 0x800_0000 ==> slot_of(start + distance(start, slot)) == slot,
{
    reveal(distance);
}

/// A page less than the number of slots behind `start` is the first page
/// with its slot.
pub proof fn lemma_distance_of_page(start: int, page: int)
    requires
        start <= page < start + 0x800_0000,
    ensures
        0 <= slot_of(page) < 0x800_0000,
        distance(start, slot_of(page)) == page - start,
{
    reveal(distance);
}

/// One page on, every slot is one page nearer, but for the slot of `start`,
/// which is a whole round away.
pub proof fn lemma_distance_next(start: int, slot: int)
    requires
        0 <= slot < 0x800_0000,
    ensures
        distance(start, slot) == 0 <==> slot == slot_of(start),
        distance(start + 1, slot) == (if slot == slot_of(start) {
            0x800_0000 - 1
        } else {
            distance(start, slot) - 1
        }),
{
    reveal(distance);
}

/// Whether one of the `count` pages from `start` on has the slot `slot`.
pub open spec fn covers(start: int, count: int, slot: int) -> bool {
    0 <= slot < 0x800_0000 && distance(start, slot) < count
}

/// A byte address in virtual memory.
#[derive(Clone, Copy, Debug, PartialEq, Eq, Structural)]
pub struct VirtualAddress(pub u64);

/// The number of a virtual page: its address divided by the page size.
#[derive(Clone, Copy, Debug, PartialEq, Eq, Structural)]
pub struct VirtualPageNumber(pub u64);

/// The number of a physical page.
#[derive(Clone, Copy, Debug, PartialEq, Eq, Structural)]
pub struct PhysicalPageNumber(pub u64);

impl VirtualAddress {
    /// The page that holds this address.
    pub fn page_number(self) -> (page: VirtualPageNumber)
        ensures
            page.0 == self.0 / 4096,
    {
        VirtualPageNumber(self.0 / PAGE_SIZE)
    }
}

impl VirtualPageNumber {
    /// The slot of this page.
    pub open spec fn slot(self) -> int {
        slot_of(self.0 as int)
    }

    /// The index into the table at `level`, the root being level 0.
    pub open spec fn index(self, level: int) -> int {
        if level == 0 {
            directory_of(self.slot())
        } else if level == 1 {
            leaf_table_of(self.slot()) % 512
        } else {
            self.slot() % 512
        }
    }

    /// The three indices of the walk, root first.
    pub fn levels(self) -> (indices: [usize; 3])
        ensures
            forall|level: int| 0 <= level < 3 ==> indices[level] == self.index(level),
            forall|level: int| 0 <= level < 3 ==> indices[level] < 512,
    {
        let page: u64 = self.0;
        let top: u64 = (page / DIRECTORY_SPAN) % 512;
        let middle: u64 = (page / 512) % 512;
        let bottom: u64 = page % 512;
        assert((page / 0x4_0000) % 512 == (page % 0x800_0000) / 0x4_0000) by (bit_vector);
        assert((page / 512) % 512 == ((page % 0x800_0000) / 512) % 512) by (bit_vector);
        assert(page % 512 == (page % 0x800_0000) % 512) by (bit_vector);
        let indices: [usize; 3] = [top as usize, middle as usize, bottom as usize];
        assert(indices[0] == self.index(0));
        assert(indices[1] == self.index(1));
        assert(indices[2] == self.index(2));
        indices
    }

    /// The physical page with the same number.
    pub fn identity(self) -> (page: PhysicalPageNumber)
        ensures
            page.0 == self.0,
    {
        PhysicalPageNumber(self.0)
    }
}

/// The range from the page that holds `start` up to the page that holds
/// `end`.
pub open spec fn pages_between(start: VirtualAddress, end: VirtualAddress) -> PageRange {
    PageRange {
        start: VirtualPageNumber((start.0 / 4096) as u64),
        end: VirtualPageNumber((end.0 / 4096) as u64),
    }
}

/// A half-open range of virtual pages: `start` is in it, `end` is not.
#[derive(Clone, Copy, Debug, PartialEq, Eq, Structural)]
pub struct PageRange {
    pub start: VirtualPageNumber,
    pub end: VirtualPageNumber,
}

impl PageRange {
    /// The range from `start` up to `end`.
    pub fn new(start: VirtualPageNumber, end: VirtualPageNumber) -> (range: PageRange)
        ensures
            range == (PageRange { start, end }),
    {
        PageRange { start, end }
    }

    /// The range from the page that holds `start` up to the page that holds
    /// `end`.
    pub fn from_addresses(start: VirtualAddress, end: VirtualAddress) -> (range: PageRange)
        ensures
            range == pages_between(start, end),
    {
        PageRange { start: start.page_number(), end: end.page_number() }
    }

    /// The number of pages in the range.
    pub open spec fn count(self) -> int {
        if self.start.0 <= self.end.0 {
            self.end.0 - self.start.0
        } else {
            0
        }
    }

    /// Whether `page` lies in the range.
    pub open spec fn holds(self, page: int) -> bool {
        self.start.0 <= page < self.end.0
    }

    /// The number of pages in the range.
    pub fn len(&self) -> (count: u64)
        ensures
            count == self.count(),
    {
        if self.start.0 <= self.end.0 {
            self.end.0 - self.start.0
        } else {
            0
        }
    }

    /// Whether `page` lies in the range.
    pub fn contains(&self, page: VirtualPageNumber) -> (held: bool)
        ensures
            held == self.holds(page.0 as int),
    {
        self.start.0 <= page.0 && page.0 < self.end.0
    }
}

} // verus!
