//! Segments: what an address space records of each range it has mapped.
use vstd::prelude::*;
use crate::address::{covers, PageRange, PhysicalPageNumber};
use crate::flags::Flags;
use crate::frame::{frame_numbers, FrameTracker};
use crate::model::{bind_framed, bind_linear, Translation};

verus! {

/// The numbers of the frames that a list of segments holds, segment by
/// segment.
pub open spec fn held_frames(segments: Seq<Segment>) -> Seq<int>
    decreases segments.len(),
{
    if segments.len() == 0 {
        Seq::empty()
    } else {
        held_frames(segments.drop_last()) + segments.last().frames()
    }
}

/// One mapped range of virtual pages.
pub enum Segment {
    /// Each page is bound to the physical page with the same number. The
    /// segment holds no frame.
    Linear { page_range: PageRange, flags: Flags },
    /// Each page is bound to a frame of its own, held by the segment:
    /// `frames[i]` backs page `page_range.start + i`.
    Framed { page_range: PageRange, flags: Flags, frames: Vec<FrameTracker> },
}

impl Segment {
    /// The pages of the segment.
    pub open spec fn range(&self) -> PageRange {
        match *self {
            Segment::Linear { page_range, .. } => page_range,
            Segment::Framed { page_range, .. } => page_range,
        }
    }

    /// The permissions of every page of the segment.
    pub open spec fn permissions(&self) -> Flags {
        match *self {
            Segment::Linear { flags, .. } => flags,
            Segment::Framed { flags, .. } => flags,
        }
    }

    /// The numbers of the frames the segment holds, in page order.
    pub open spec fn frames(&self) -> Seq<int> {
        match *self {
            Segment::Linear { .. } => Seq::empty(),
            Segment::Framed { frames, .. } => frame_numbers(frames@),
        }
    }

    /// Whether one of the pages of the segment has the slot `slot`.
    pub open spec fn covers(&self, slot: int) -> bool {
        covers(self.range().start.0 as int, self.range().count(), slot)
    }

    /// What the segment binds its page `page` to.
    pub open spec fn binding(&self, page: int) -> Translation {
        match *self {
            Segment::Linear { flags, .. } => Translation {
                page_number: PhysicalPageNumber(page as u64),
                flags,
            },
            Segment::Framed { page_range, flags, .. } => Translation {
                page_number: PhysicalPageNumber(self.frames()[page - page_range.start.0] as u64),
                flags,
            },
        }
    }

    /// A framed segment holds one frame for each of its pages.
    pub open spec fn wf(&self) -> bool {
        match *self {
            Segment::Linear { .. } => true,
            Segment::Framed { page_range, frames, .. } => frames@.len() == page_range.count(),
        }
    }

    /// The pages of the segment.
    pub fn page_range(&self) -> (range: PageRange)
        ensures
            range == self.range(),
    {
        match self {
            Segment::Linear { page_range, .. } => *page_range,
            Segment::Framed { page_range, .. } => *page_range,
        }
    }

    /// The permissions of every page of the segment.
    pub fn flags(&self) -> (flags: Flags)
        ensures
            flags == self.permissions(),
    {
        match self {
            Segment::Linear { flags, .. } => *flags,
            Segment::Framed { flags, .. } => *flags,
        }
    }

    /// Whether the segment binds each page to the frame of the same number.
    pub fn is_linear(&self) -> (linear: bool)
        ensures
            linear == (*self is Linear),
    {
        match self {
            Segment::Linear { .. } => true,
            Segment::Framed { .. } => false,
        }
    }

    /// The numbers of the frames the segment holds, in page order.
    pub fn frame_pages(&self) -> (pages: Vec<PhysicalPageNumber>)
        ensures
            pages@.len() == self.frames().len(),
            forall|i: int| 0 <= i < pages@.len() ==> (#[trigger] pages@[i]).0 == self.frames()[i],
    {
        let mut pages: Vec<PhysicalPageNumber> = Vec::new();
        match self {
            Segment::Linear { .. } => {},
            Segment::Framed { frames, .. } => {
                let mut i: usize = 0;
                while i < frames.len()
                    invariant
                        i <= frames@.len(),
                        pages@.len() == i,
                        forall|k: int|
                            0 <= k < i ==> (#[trigger] pages@[k]).0 == frames@[k].number(),
                    decreases frames@.len() - i,
                {
                    pages.push(frames[i].page_number());
                    i = i + 1;
                }
            },
        }
        pages
    }
}

/// The leaves after the pages of `segment` have been bound as it says.
pub open spec fn bind_segment(leaves: Map<int, Translation>, segment: Segment) -> Map<
    int,
    Translation,
> {
    match segment {
        Segment::Linear { page_range, flags } => bind_linear(
            leaves,
            page_range.start.0 as int,
            page_range.count(),
            flags,
        ),
        Segment::Framed { page_range, flags, .. } => bind_framed(
            leaves,
            page_range.start.0 as int,
            segment.frames(),
            flags,
        ),
    }
}

/// The leaves of a tree in which exactly the pages of `segments` have been
/// bound, segment by segment.
pub open spec fn bind_segments(segments: Seq<Segment>) -> Map<int, Translation>
    decreases segments.len(),
{
    if segments.len() == 0 {
        Map::empty()
    } else {
        bind_segment(bind_segments(segments.drop_last()), segments.last())
    }
}

/// No two of the segments have a page at the same slot.
pub open spec fn apart(segments: Seq<Segment>) -> bool {
    forall|i: int, j: int, slot: int|
        0 <= i < j < segments.len() ==> !(#[trigger] segments[i].covers(slot)
            && #[trigger] segments[j].covers(slot))
}

/// The segments say all that is mapped by `leaves`: the leaves are the
/// bindings of the segments, no two segments share a slot, and none is
/// longer than the table is wide.
pub open spec fn describes(segments: Seq<Segment>, leaves: Map<int, Translation>) -> bool {
    &&& leaves == bind_segments(segments)
    &&& apart(segments)
    &&& forall|i: int|
        0 <= i < segments.len() ==> (#[trigger] segments[i]).range().count() <= 0x800_0000
}

/// Every slot that one of the segments covers is bound.
pub proof fn lemma_covered_slots_are_bound(segments: Seq<Segment>, i: int, slot: int)
    requires
        forall|k: int| 0 <= k < segments.len() ==> (#[trigger] segments[k]).wf(),
        0 <= i < segments.len(),
        segments[i].covers(slot),
    ensures
        bind_segments(segments).dom().contains(slot),
    decreases segments.len(),
{
    reveal(bind_linear);
    reveal(bind_framed);
    if i < segments.len() - 1 {
        lemma_covered_slots_are_bound(segments.drop_last(), i, slot);
    }
}

/// A segment whose slots were all free can join segments that describe the
/// leaves: together they describe the leaves with its pages bound.
pub proof fn lemma_describes_one_more(
    segments: Seq<Segment>,
    leaves: Map<int, Translation>,
    segment: Segment,
)
    requires
        describes(segments, leaves),
        forall|k: int| 0 <= k < segments.len() ==> (#[trigger] segments[k]).wf(),
        segment.range().count() <= 0x800_0000,
        forall|slot: int| segment.covers(slot) ==> !leaves.dom().contains(slot),
    ensures
        describes(segments.push(segment), bind_segment(leaves, segment)),
{
    let all = segments.push(segment);
    assert(all.drop_last() =~= segments);
    assert forall|i: int, j: int, slot: int| 0 <= i < j < all.len() implies !(
    #[trigger] all[i].covers(slot) && #[trigger] all[j].covers(slot)) by {
        if j == segments.len() && segments[i].covers(slot) {
            lemma_covered_slots_are_bound(segments, i, slot);
        }
    }
}

} // verus!
