//! The mathematical model of a table tree and of what mapping does to it.
//!
//! A tree is described by its [`Shape`], which says which tables and which
//! terminal entries exist, and by its leaves, a map from slots to
//! [`Translation`]s. Whether a mapping call succeeds depends on the shape and
//! on the number of free frames alone; [`map_page`] and [`map_range`] say how.
use vstd::prelude::*;
use crate::address::{
    covers, directory_of, distance, leaf_table_of, lemma_distance, lemma_distance_of_page, slot_of,
    PhysicalPageNumber,
};
use crate::error::MapError;
use crate::flags::Flags;

verus! {

/// What a virtual page is bound to.
#[derive(Clone, Copy, Debug, PartialEq, Eq, Structural)]
pub struct Translation {
    pub page_number: PhysicalPageNumber,
    pub flags: Flags,
}

/// Which parts of a table tree exist.
pub struct Shape {
    /// The root entries that point to a second-level table.
    pub directories: Set<int>,
    /// The last-level tables that exist, each named by the slots under it
    /// divided by 512.
    pub leaf_tables: Set<int>,
    /// The slots that have a terminal entry.
    pub mapped: Set<int>,
}

impl Shape {
    /// The tree that is a root and nothing else.
    pub open spec fn empty() -> Shape {
        Shape { directories: Set::empty(), leaf_tables: Set::empty(), mapped: Set::empty() }
    }

    /// Every table hangs under an existing one, and every terminal entry
    /// lies in an existing table.
    #[verifier::opaque]
    pub open spec fn wf(self) -> bool {
        &&& forall|d: int| #[trigger] self.directories.contains(d) ==> 0 <= d < 512
        &&& forall|t: int| #[trigger]
            self.leaf_tables.contains(t) ==> 0 <= t < 0x4_0000 && self.directories.contains(
                t / 512,
            )
        &&& forall|s: int| #[trigger]
            self.mapped.contains(s) ==> 0 <= s < 0x800_0000 && self.leaf_tables.contains(
                leaf_table_of(s),
            )
    }

    /// How many tables a walk to `slot` has to create.
    pub open spec fn missing(self, slot: int) -> nat {
        if !self.directories.contains(directory_of(slot)) {
            2
        } else if !self.leaf_tables.contains(leaf_table_of(slot)) {
            1
        } else {
            0
        }
    }

    /// The tree with both tables above `slot` and a terminal entry at it.
    pub open spec fn with_page(self, slot: int) -> Shape {
        Shape {
            directories: self.directories.insert(directory_of(slot)),
            leaf_tables: self.leaf_tables.insert(leaf_table_of(slot)),
            mapped: self.mapped.insert(slot),
        }
    }
}

/// How a mapping call leaves the tree and the pool.
pub struct Outcome {
    /// The shape of the tree after the call.
    pub shape: Shape,
    /// The number of free frames after the call.
    pub free: nat,
    /// The number of pages that the call has given a terminal entry.
    pub pages: nat,
    /// What the call returns.
    pub result: Result<(), MapError>,
}

/// Mapping the page at `slot` with `free` frames in the pool.
///
/// The call takes a frame for each table that is missing above the slot,
/// and fails if the pool does not hold them. With the tables in hand it
/// fails if the slot has a terminal entry, and else gives it one. A call
/// that fails changes nothing: neither the tree nor the pool.
pub open spec fn map_page(shape: Shape, free: nat, slot: int) -> Outcome {
    if free < shape.missing(slot) {
        Outcome { shape, free, pages: 0, result: Err(MapError::ResourceExhausted) }
    } else if shape.mapped.contains(slot) {
        Outcome { shape, free, pages: 0, result: Err(MapError::MappingConflict) }
    } else {
        Outcome {
            shape: shape.with_page(slot),
            free: (free - shape.missing(slot)) as nat,
            pages: 1,
            result: Ok(()),
        }
    }
}

/// Mapping the page at `slot` to a frame taken from the pool.
///
/// The frame is taken before the walk. If the walk fails the frame goes
/// back, so that nothing has changed; if it succeeds the caller holds it.
pub open spec fn map_alloc_page(shape: Shape, free: nat, slot: int) -> Outcome {
    if free == 0 {
        Outcome { shape, free, pages: 0, result: Err(MapError::ResourceExhausted) }
    } else {
        let walked = map_page(shape, (free - 1) as nat, slot);
        if walked.result is Ok {
            walked
        } else {
            Outcome { shape, free, pages: 0, result: walked.result }
        }
    }
}

/// Mapping the pages from `next` up to `end`, in ascending order, as the
/// rest of a call on the range that began at `first`.
///
/// The call stops at the first page that fails and returns its error. That
/// page changes nothing, and the pages mapped before it stay mapped. If
/// `framed`, each page takes a frame from the pool, and on failure the
/// frames taken for the pages before go back.
pub open spec fn map_range_from(
    shape: Shape,
    free: nat,
    first: int,
    next: int,
    end: int,
    framed: bool,
) -> Outcome
    decreases end - next,
{
    if next >= end {
        Outcome { shape, free, pages: (next - first) as nat, result: Ok(()) }
    } else {
        let page = if framed {
            map_alloc_page(shape, free, slot_of(next))
        } else {
            map_page(shape, free, slot_of(next))
        };
        if page.result is Ok {
            map_range_from(page.shape, page.free, first, next + 1, end, framed)
        } else {
            Outcome {
                shape: page.shape,
                free: if framed {
                    (page.free + (next - first)) as nat
                } else {
                    page.free
                },
                pages: (next - first) as nat,
                result: page.result,
            }
        }
    }
}

/// Mapping the pages from `start` up to `end`, in ascending order.
pub open spec fn map_range(shape: Shape, free: nat, start: int, end: int, framed: bool) -> Outcome {
    map_range_from(shape, free, start, start, end, framed)
}

/// The leaves after each of the `count` pages from `start` on has been bound
/// to the physical page with its own number.
#[verifier::opaque]
pub open spec fn bind_linear(
    leaves: Map<int, Translation>,
    start: int,
    count: int,
    flags: Flags,
) -> Map<int, Translation> {
    Map::new(
        |slot: int| leaves.dom().contains(slot) || covers(start, count, slot),
        |slot: int|
            if covers(start, count, slot) {
                Translation {
                    page_number: PhysicalPageNumber((start + distance(start, slot)) as u64),
                    flags,
                }
            } else {
                leaves[slot]
            },
    )
}

/// The leaves after the pages from `start` on have been bound to `frames`,
/// one each, in order.
#[verifier::opaque]
pub open spec fn bind_framed(
    leaves: Map<int, Translation>,
    start: int,
    frames: Seq<int>,
    flags: Flags,
) -> Map<int, Translation> {
    Map::new(
        |slot: int| leaves.dom().contains(slot) || covers(start, frames.len() as int, slot),
        |slot: int|
            if covers(start, frames.len() as int, slot) {
                Translation {
                    page_number: PhysicalPageNumber(frames[distance(start, slot)] as u64),
                    flags,
                }
            } else {
                leaves[slot]
            },
    )
}

/// Binding no page changes nothing.
pub proof fn lemma_bind_none(leaves: Map<int, Translation>, start: int, flags: Flags)
    ensures
        bind_linear(leaves, start, 0, flags) == leaves,
        bind_framed(leaves, start, Seq::empty(), flags) == leaves,
{
    reveal(bind_linear);
    reveal(bind_framed);
    assert forall|slot: int| !covers(start, 0, slot) by {
        lemma_distance(start, slot);
    }
    assert(bind_linear(leaves, start, 0, flags) =~= leaves);
    assert(bind_framed(leaves, start, Seq::empty(), flags) =~= leaves);
}

/// The page `count` pages behind `start`, if its slot is not among those
/// of the pages before it, is less than a full table behind `start`, and
/// its slot is the one that a range one page longer covers besides.
pub proof fn lemma_covers_one_more(start: int, count: int)
    requires
        0 <= count,
        !covers(start, count, slot_of(start + count)),
    ensures
        count < 0x800_0000,
        0 <= slot_of(start + count) < 0x800_0000,
        distance(start, slot_of(start + count)) == count,
        forall|slot: int|
            covers(start, count + 1, slot) <==> covers(start, count, slot) || slot == slot_of(
                start + count,
            ),
{
    let next = slot_of(start + count);
    lemma_distance(start, next);
    if count < 0x800_0000 {
        lemma_distance_of_page(start, start + count);
    }
    assert forall|slot: int|
        covers(start, count + 1, slot) <==> covers(start, count, slot) || slot == next by {
        lemma_distance(start, slot);
    }
}

/// Binding one more page to its own number is an insertion.
pub proof fn lemma_bind_linear_next(
    leaves: Map<int, Translation>,
    start: int,
    count: int,
    flags: Flags,
)
    requires
        0 <= count,
        0 <= start,
        start + count <= u64::MAX,
        !bind_linear(leaves, start, count, flags).dom().contains(slot_of(start + count)),
    ensures
        count < 0x800_0000,
        bind_linear(leaves, start, count + 1, flags) == bind_linear(
            leaves,
            start,
            count,
            flags,
        ).insert(
            slot_of(start + count),
            Translation { page_number: PhysicalPageNumber((start + count) as u64), flags },
        ),
{
    reveal(bind_linear);
    lemma_covers_one_more(start, count);
    assert(bind_linear(leaves, start, count + 1, flags) =~= bind_linear(
        leaves,
        start,
        count,
        flags,
    ).insert(
        slot_of(start + count),
        Translation { page_number: PhysicalPageNumber((start + count) as u64), flags },
    ));
}

/// Binding one more page to one more frame is an insertion.
pub proof fn lemma_bind_framed_next(
    leaves: Map<int, Translation>,
    start: int,
    frames: Seq<int>,
    frame: int,
    flags: Flags,
)
    requires
        0 <= start,
        !bind_framed(leaves, start, frames, flags).dom().contains(slot_of(start + frames.len())),
    ensures
        frames.len() < 0x800_0000,
        bind_framed(leaves, start, frames.push(frame), flags) == bind_framed(
            leaves,
            start,
            frames,
            flags,
        ).insert(
            slot_of(start + frames.len()),
            Translation { page_number: PhysicalPageNumber(frame as u64), flags },
        ),
{
    reveal(bind_framed);
    lemma_covers_one_more(start, frames.len() as int);
    assert forall|slot: int| 0 <= #[trigger] distance(start, slot) by {
        lemma_distance(start, slot);
    }
    assert(bind_framed(leaves, start, frames.push(frame), flags) =~= bind_framed(
        leaves,
        start,
        frames,
        flags,
    ).insert(
        slot_of(start + frames.len()),
        Translation { page_number: PhysicalPageNumber(frame as u64), flags },
    ));
}

/// A page of a range that is no longer than the table is wide is covered by
/// the range, at its distance from the start.
pub proof fn lemma_page_covered(start: int, count: int, page: int)
    requires
        start <= page < start + count,
        count <= 0x800_0000,
    ensures
        covers(start, count, slot_of(page)),
        distance(start, slot_of(page)) == page - start,
{
    lemma_distance_of_page(start, page);
}

/// After a linear binding of no more pages than the table has slots, each
/// page of the range is bound to the physical page with its own number.
pub proof fn lemma_bind_linear_at(
    leaves: Map<int, Translation>,
    start: int,
    count: int,
    flags: Flags,
    page: int,
)
    requires
        0 <= start <= page < start + count,
        count <= 0x800_0000,
    ensures
        bind_linear(leaves, start, count, flags).dom().contains(slot_of(page)),
        bind_linear(leaves, start, count, flags)[slot_of(page)] == (Translation {
            page_number: PhysicalPageNumber(page as u64),
            flags,
        }),
{
    reveal(bind_linear);
    lemma_page_covered(start, count, page);
}

/// After a framed binding of no more pages than the table has slots, each
/// page of the range is bound to the frame at its place.
pub proof fn lemma_bind_framed_at(
    leaves: Map<int, Translation>,
    start: int,
    frames: Seq<int>,
    flags: Flags,
    page: int,
)
    requires
        0 <= start <= page < start + frames.len(),
        frames.len() <= 0x800_0000,
    ensures
        bind_framed(leaves, start, frames, flags).dom().contains(slot_of(page)),
        bind_framed(leaves, start, frames, flags)[slot_of(page)] == (Translation {
            page_number: PhysicalPageNumber(frames[page - start] as u64),
            flags,
        }),
{
    reveal(bind_framed);
    lemma_page_covered(start, frames.len() as int, page);
}

} // verus!
