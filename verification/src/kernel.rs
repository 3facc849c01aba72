//! The address space of the kernel: its image and the rest of memory, each
//! page mapped to the physical page with the same number.
use vstd::prelude::*;
use crate::address::{pages_between, slot_of, PageRange, PhysicalPageNumber, VirtualAddress};
use crate::error::MapError;
use crate::flags::Flags;
use crate::frame::FrameAllocator;
use crate::mapping::Mapping;
use crate::laws::law_segments_describe_leaves;
use crate::model::{map_range, Outcome, Shape, Translation};
use crate::segment::Segment;

verus! {

/// Where the parts of the kernel image begin, and where memory ends.
#[derive(Clone, Copy, Debug)]
pub struct KernelLayout {
    /// The start of the code.
    pub text_start: VirtualAddress,
    /// The start of the constants, and the end of the code.
    pub rodata_start: VirtualAddress,
    /// The start of the initialised data, and the end of the constants.
    pub data_start: VirtualAddress,
    /// The start of the zeroed data, and the end of the initialised data.
    pub bss_start: VirtualAddress,
    /// The start of the boot stack, and the end of the zeroed data.
    pub boot_stack_start: VirtualAddress,
    /// The end of the kernel image.
    pub kernel_end: VirtualAddress,
    /// The end of usable memory.
    pub memory_end: VirtualAddress,
}

impl KernelLayout {
    /// The boundaries are in ascending order, as a linked image has them.
    pub open spec fn ordered(&self) -> bool {
        &&& self.text_start.0 < self.rodata_start.0
        &&& self.rodata_start.0 < self.data_start.0
        &&& self.data_start.0 < self.bss_start.0
        &&& self.bss_start.0 < self.boot_stack_start.0
        &&& self.boot_stack_start.0 <= self.kernel_end.0
        &&& self.kernel_end.0 < self.memory_end.0
    }

    /// Every boundary is the first address of a page.
    pub open spec fn aligned(&self) -> bool {
        &&& self.text_start.0 % 4096 == 0
        &&& self.rodata_start.0 % 4096 == 0
        &&& self.data_start.0 % 4096 == 0
        &&& self.bss_start.0 % 4096 == 0
        &&& self.boot_stack_start.0 % 4096 == 0
        &&& self.kernel_end.0 % 4096 == 0
        &&& self.memory_end.0 % 4096 == 0
    }

    /// The five ranges of the kernel's address space, in mapping order:
    /// code, constants, initialised data, zeroed data, the rest of memory.
    pub open spec fn ranges(&self) -> Seq<PageRange> {
        seq![
            pages_between(self.text_start, self.rodata_start),
            pages_between(self.rodata_start, self.data_start),
            pages_between(self.data_start, self.bss_start),
            pages_between(self.bss_start, self.boot_stack_start),
            pages_between(self.kernel_end, self.memory_end),
        ]
    }

    /// The permissions of the five ranges.
    pub open spec fn permissions() -> Seq<Flags> {
        seq![
            Flags::spec_text(),
            Flags::spec_read_only(),
            Flags::spec_read_write(),
            Flags::spec_read_write(),
            Flags::spec_read_write(),
        ]
    }

    /// The five segments of the kernel's address space.
    pub open spec fn segments(&self) -> Seq<Segment> {
        Seq::new(
            5,
            |i: int|
                Segment::Linear { page_range: self.ranges()[i], flags: Self::permissions()[i] },
        )
    }
}

/// Mapping `range` linearly after what `before` describes, if that went well.
pub open spec fn then_linear(before: Outcome, range: PageRange) -> Outcome {
    if before.result is Ok {
        map_range(before.shape, before.free, range.start.0 as int, range.end.0 as int, false)
    } else {
        before
    }
}

/// Building the kernel's address space with `free` frames in the pool, of
/// which the root table has taken one: the five ranges in order, up to the
/// first that fails.
pub open spec fn kernel_outcome(free: nat, layout: KernelLayout) -> Outcome {
    let rooted = Outcome {
        shape: Shape::empty(),
        free: (free - 1) as nat,
        pages: 0,
        result: Ok(()),
    };
    let ranges = layout.ranges();
    then_linear(
        then_linear(
            then_linear(then_linear(then_linear(rooted, ranges[0]), ranges[1]), ranges[2]),
            ranges[3],
        ),
        ranges[4],
    )
}

impl Mapping {
    /// Maps `range` linearly into `space`. If that fails, gives `space` up:
    /// all its frames go back into the pool.
    fn extend(
        space: Mapping,
        allocator: &mut FrameAllocator,
        range: PageRange,
        flags: Flags,
    ) -> (result: Result<Mapping, MapError>)
        requires
            space.wf(),
            old(allocator).wf(),
            space.owned_frames().disjoint(old(allocator).free()),
        ensures
            final(allocator).wf(),
            ({
                let outcome = map_range(
                    space.shape(),
                    old(allocator).free().len(),
                    range.start.0 as int,
                    range.end.0 as int,
                    false,
                );
                match result {
                    Ok(extended) => {
                        &&& outcome.result is Ok
                        &&& extended.wf()
                        &&& extended.shape() == outcome.shape
                        &&& final(allocator).free().len() == outcome.free
                        &&& extended.owned_frames().disjoint(final(allocator).free())
                        &&& extended.owned_frames().union(final(allocator).free())
                            == space.owned_frames().union(old(allocator).free())
                        &&& extended.recorded() == space.recorded().push(
                            Segment::Linear { page_range: range, flags },
                        )
                        &&& space.covered() ==> extended.covered()
                        &&& extended.root() == space.root()
                    },
                    Err(error) => {
                        &&& outcome.result == Err::<(), MapError>(error)
                        &&& final(allocator).free() == space.owned_frames().union(
                            old(allocator).free(),
                        )
                    },
                }
            }),
    {
        let mut space = space;
        match space.map_linear(allocator, range, flags) {
            Ok(()) => Ok(space),
            Err(error) => {
                space.release(allocator);
                Err(error)
            },
        }
    }

    /// The address space of the kernel: a root table and five linear
    /// segments, for the code (read and execute), the constants (read), the
    /// initialised data, the zeroed data and the memory behind the kernel
    /// (read and write each).
    ///
    /// The order of the boundaries is not checked: a range whose end is not
    /// above its start has no pages and is recorded as it is. The first range
    /// that fails ends the call with its error, and every frame taken by
    /// then goes back into the pool.
    pub fn new_kernel(allocator: &mut FrameAllocator, layout: &KernelLayout) -> (result: Result<
        Mapping,
        MapError,
    >)
        requires
            old(allocator).wf(),
        ensures
            final(allocator).wf(),
            final(allocator).free().subset_of(old(allocator).free()),
            ({
                let outcome = kernel_outcome(old(allocator).free().len(), *layout);
                match result {
                    Ok(space) => {
                        &&& old(allocator).free().len() >= 1
                        &&& outcome.result is Ok
                        &&& space.wf()
                        &&& space.shape() == outcome.shape
                        &&& final(allocator).free().len() == outcome.free
                        &&& space.recorded() == layout.segments()
                        &&& space.covered()
                        &&& forall|i: int, page: int|
                            0 <= i < 5 && #[trigger] layout.ranges()[i].holds(page)
                                ==> space.leaves().dom().contains(slot_of(page))
                                && space.leaves()[slot_of(page)] == (Translation {
                                page_number: PhysicalPageNumber(page as u64),
                                flags: KernelLayout::permissions()[i],
                            })
                        &&& space.owned_frames().disjoint(final(allocator).free())
                        &&& space.owned_frames().union(final(allocator).free()) == old(
                            allocator,
                        ).free()
                    },
                    Err(error) => {
                        &&& final(allocator).free() == old(allocator).free()
                        &&& if old(allocator).free().len() == 0 {
                            error == MapError::ResourceExhausted
                        } else {
                            outcome.result == Err::<(), MapError>(error)
                        }
                    },
                }
            }),
    {
        proof {
            allocator.lemma_free_bounded();
        }
        let space = match Mapping::new(allocator) {
            Ok(space) => space,
            Err(error) => {
                return Err(error);
            },
        };
        proof {
            assert(space.owned_frames().union(allocator.free()) =~= old(allocator).free());
        }
        let text = PageRange::from_addresses(layout.text_start, layout.rodata_start);
        let rodata = PageRange::from_addresses(layout.rodata_start, layout.data_start);
        let data = PageRange::from_addresses(layout.data_start, layout.bss_start);
        let bss = PageRange::from_addresses(layout.bss_start, layout.boot_stack_start);
        let rest = PageRange::from_addresses(layout.kernel_end, layout.memory_end);
        let space = match Self::extend(space, allocator, text, Flags::text()) {
            Ok(space) => space,
            Err(error) => {
                return Err(error);
            },
        };
        let space = match Self::extend(space, allocator, rodata, Flags::read_only()) {
            Ok(space) => space,
            Err(error) => {
                return Err(error);
            },
        };
        let space = match Self::extend(space, allocator, data, Flags::read_write()) {
            Ok(space) => space,
            Err(error) => {
                return Err(error);
            },
        };
        let space = match Self::extend(space, allocator, bss, Flags::read_write()) {
            Ok(space) => space,
            Err(error) => {
                return Err(error);
            },
        };
        let space = match Self::extend(space, allocator, rest, Flags::read_write()) {
            Ok(space) => space,
            Err(error) => {
                return Err(error);
            },
        };
        proof {
            assert forall|i: int, page: int|
                0 <= i < 5 && #[trigger] layout.ranges()[i].holds(
                    page,
                ) implies space.leaves().dom().contains(slot_of(page)) && space.leaves()[slot_of(
                page,
            )] == (Translation {
                page_number: PhysicalPageNumber(page as u64),
                flags: KernelLayout::permissions()[i],
            }) by {
                law_segments_describe_leaves(
                    space.recorded(),
                    space.leaves(),
                    i,
                    page,
                    slot_of(page),
                );
            }
        }
        Ok(space)
    }
}

} // verus!
