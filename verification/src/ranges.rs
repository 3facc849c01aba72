//! Mapping whole ranges of pages: linear segments, framed segments, and the
//! single page that takes a frame of its own.
use vstd::prelude::*;
use vstd::set_lib::*;
use crate::address::{slot_of, PageRange, PhysicalPageNumber, VirtualPageNumber};
use crate::error::MapError;
use crate::flags::Flags;
use crate::frame::{frame_numbers, FrameAllocator, FrameTracker};
use crate::mapping::Mapping;
use crate::laws::law_range_maps_free_slots;
use crate::model::{
    bind_framed, bind_linear, lemma_bind_framed_at, lemma_bind_framed_next, lemma_bind_linear_at,
    lemma_bind_linear_next, lemma_bind_none, map_alloc_page, map_range, map_range_from,
    Translation,
};
use crate::segment::{lemma_describes_one_more, Segment};

verus! {

impl Mapping {
    /// Maps every page of `page_range`, in ascending order, to the physical
    /// page with the same number, and records the range as a linear segment.
    ///
    /// Stops at the first page that fails and returns its error. That page
    /// changes nothing, but the pages before it are not rolled back: they stay
    /// mapped, and the tables created for them stay in the tree. No segment is
    /// recorded, so the segments no longer say all that is mapped: after a
    /// failure behind the first page the address space is fit only to be
    /// released.
    pub fn map_linear(
        &mut self,
        allocator: &mut FrameAllocator,
        page_range: PageRange,
        flags: Flags,
    ) -> (result: Result<(), MapError>)
        requires
            old(self).wf(),
            old(allocator).wf(),
            old(self).owned_frames().disjoint(old(allocator).free()),
        ensures
            final(self).wf(),
            final(allocator).wf(),
            final(self).owned_frames().disjoint(final(allocator).free()),
            final(self).owned_frames().union(final(allocator).free()) == old(
                self,
            ).owned_frames().union(old(allocator).free()),
            final(allocator).free().subset_of(old(allocator).free()),
            ({
                let outcome = map_range(
                    old(self).shape(),
                    old(allocator).free().len(),
                    page_range.start.0 as int,
                    page_range.end.0 as int,
                    false,
                );
                &&& result == outcome.result
                &&& final(self).shape() == outcome.shape
                &&& final(allocator).free().len() == outcome.free
                &&& final(self).leaves() == bind_linear(
                    old(self).leaves(),
                    page_range.start.0 as int,
                    outcome.pages as int,
                    flags,
                )
                &&& result is Ok ==> outcome.pages == page_range.count()
                &&& result is Err && outcome.pages == 0 ==> *final(self) == *old(self)
                    && final(allocator).free() == old(allocator).free()
            }),
            result is Ok ==> forall|page: int|
                page_range.holds(page) ==> final(self).leaves().dom().contains(
                    #[trigger] slot_of(page),
                ) && final(self).leaves()[slot_of(page)] == (Translation {
                    page_number: PhysicalPageNumber(page as u64),
                    flags,
                }),
            forall|slot: int| #[trigger]
                old(self).leaves().dom().contains(slot) ==> final(self).leaves().dom().contains(
                    slot,
                ) && final(self).leaves()[slot] == old(self).leaves()[slot],
            final(self).recorded() == (if result is Ok {
                old(self).recorded().push(Segment::Linear { page_range, flags })
            } else {
                old(self).recorded()
            }),
            final(self).table_frames().len() >= old(self).table_frames().len(),
            forall|n: int|
                0 <= n < old(self).table_frames().len() ==> final(self).table_frames()[n] == old(
                    self,
                ).table_frames()[n],
            final(self).root() == old(self).root(),
            result is Ok && old(self).covered() ==> final(self).covered(),
    {
        let ghost shape = self.shape();
        let ghost free = allocator.free().len();
        let ghost leaves = self.leaves();
        let ghost start = page_range.start.0 as int;
        let ghost end = page_range.end.0 as int;
        let mut page: u64 = page_range.start.0;
        proof {
            lemma_bind_none(leaves, start, flags);
        }
        while page < page_range.end.0
            invariant
                shape == old(self).shape(),
                free == old(allocator).free().len(),
                leaves == old(self).leaves(),
                start == page_range.start.0,
                end == page_range.end.0,
                start <= page,
                page <= end || page == start,
                page == start ==> *self == *old(self) && allocator.free() == old(allocator).free(),
                self.wf(),
                allocator.wf(),
                self.owned_frames().disjoint(allocator.free()),
                self.owned_frames().union(allocator.free()) == old(self).owned_frames().union(
                    old(allocator).free(),
                ),
                allocator.free().subset_of(old(allocator).free()),
                self.recorded() == old(self).recorded(),
                self.root() == old(self).root(),
                self.table_frames().len() >= old(self).table_frames().len(),
                forall|n: int|
                    0 <= n < old(self).table_frames().len() ==> self.table_frames()[n] == old(
                        self,
                    ).table_frames()[n],
                map_range(shape, free, start, end, false) == map_range_from(
                    self.shape(),
                    allocator.free().len(),
                    start,
                    page as int,
                    end,
                    false,
                ),
                self.leaves() == bind_linear(leaves, start, page - start, flags),
                page - start <= 0x800_0000,
                forall|slot: int| #[trigger]
                    leaves.dom().contains(slot) ==> self.leaves().dom().contains(slot)
                        && self.leaves()[slot] == leaves[slot],
            decreases page_range.end.0 - page,
        {
            let ghost before = self.leaves();
            proof {
                assert(before.dom() == self.shape().mapped) by {
                    self.lemma_wf();
                }
            }
            let vpn = VirtualPageNumber(page);
            match self.map_one(allocator, vpn, vpn.identity(), flags) {
                Ok(()) => {},
                Err(error) => {
                    return Err(error);
                },
            }
            proof {
                lemma_bind_linear_next(leaves, start, page - start, flags);
            }
            page = page + 1;
        }
        proof {
            assert forall|number: int| page_range.holds(number) implies self.leaves().dom().contains(
                #[trigger] slot_of(number),
            ) && self.leaves()[slot_of(number)] == (Translation {
                page_number: PhysicalPageNumber(number as u64),
                flags,
            }) by {
                lemma_bind_linear_at(leaves, start, page - start, flags, number);
            }
        }
        self.record(Segment::Linear { page_range, flags });
        proof {
            if old(self).covered() {
                old(self).lemma_wf();
                law_range_maps_free_slots(shape, free, start, start, end, false);
                lemma_describes_one_more(
                    old(self).recorded(),
                    leaves,
                    Segment::Linear { page_range, flags },
                );
            }
        }
        Ok(())
    }

    /// Takes a frame from the pool and binds the page `vpn` to it with the
    /// permissions `flags`. The caller gets the frame's handle.
    ///
    /// The frame is taken before the walk; if the walk fails, the frame goes
    /// back into the pool, and neither the address space nor what the pool
    /// holds has changed.
    pub fn map_alloc_one(
        &mut self,
        allocator: &mut FrameAllocator,
        vpn: VirtualPageNumber,
        flags: Flags,
    ) -> (result: Result<FrameTracker, MapError>)
        requires
            old(self).wf(),
            old(allocator).wf(),
            old(self).owned_frames().disjoint(old(allocator).free()),
        ensures
            final(self).wf(),
            final(allocator).wf(),
            final(self).owned_frames().disjoint(final(allocator).free()),
            final(allocator).free().subset_of(old(allocator).free()),
            final(self).recorded() == old(self).recorded(),
            final(self).root() == old(self).root(),
            forall|n: int|
                0 <= n < old(self).table_frames().len() ==> final(self).table_frames()[n] == old(
                    self,
                ).table_frames()[n],
            result is Ok ==> final(self).table_frames().len() == old(self).table_frames().len()
                + old(self).shape().missing(vpn.slot()),
            result is Err ==> *final(self) == *old(self) && final(allocator).free() == old(
                allocator,
            ).free(),
            ({
                let outcome = map_alloc_page(
                    old(self).shape(),
                    old(allocator).free().len(),
                    vpn.slot(),
                );
                &&& final(self).shape() == outcome.shape
                &&& final(allocator).free().len() == outcome.free
                &&& match result {
                    Ok(_) => outcome.result is Ok,
                    Err(error) => outcome.result == Err::<(), MapError>(error),
                }
            }),
            match result {
                Ok(frame) => {
                    &&& old(allocator).free().contains(frame.number())
                    &&& !final(allocator).free().contains(frame.number())
                    &&& !final(self).owned_frames().contains(frame.number())
                    &&& final(self).leaves() == old(self).leaves().insert(
                        vpn.slot(),
                        Translation {
                            page_number: PhysicalPageNumber(frame.number() as u64),
                            flags,
                        },
                    )
                    &&& final(self).owned_frames().union(final(allocator).free()).insert(
                        frame.number(),
                    ) == old(self).owned_frames().union(old(allocator).free())
                },
                Err(_) => {
                    &&& final(self).leaves() == old(self).leaves()
                    &&& final(self).owned_frames().union(final(allocator).free()) == old(
                        self,
                    ).owned_frames().union(old(allocator).free())
                },
            },
    {
        proof {
            allocator.lemma_free_bounded();
        }
        let frame = match allocator.allocate() {
            Ok(frame) => frame,
            Err(error) => {
                return Err(error);
            },
        };
        let ghost number = frame.number();
        let ppn = frame.page_number();
        match self.map_one(allocator, vpn, ppn, flags) {
            Ok(()) => {
                proof {
                    assert(!self.owned_frames().union(allocator.free()).contains(number));
                }
                Ok(frame)
            },
            Err(error) => {
                proof {
                    assert(!self.owned_frames().union(allocator.free()).contains(number));
                }
                let ghost left = allocator.free();
                allocator.deallocate(frame);
                proof {
                    assert(self.owned_frames().union(left.insert(number)) =~= self.owned_frames().union(
                        left,
                    ).insert(number));
                }
                Err(error)
            },
        }
    }

    /// Maps every page of `page_range`, in ascending order, to a frame of its
    /// own taken from the pool, and records the range as a framed segment
    /// that holds the frames.
    ///
    /// Stops at the first page that fails and returns its error. That page
    /// changes nothing, but the pages before it are not rolled back: they stay
    /// mapped, and the tables created for them stay in the tree. But no
    /// segment is recorded, and the frames taken for
    /// those pages go back into the pool, so that their entries then name
    /// free frames: after a failure the address space is fit only to be
    /// released.
    pub fn map_alloc(
        &mut self,
        allocator: &mut FrameAllocator,
        page_range: PageRange,
        flags: Flags,
    ) -> (result: Result<(), MapError>)
        requires
            old(self).wf(),
            old(allocator).wf(),
            old(self).owned_frames().disjoint(old(allocator).free()),
        ensures
            final(self).wf(),
            final(allocator).wf(),
            final(self).owned_frames().disjoint(final(allocator).free()),
            final(self).owned_frames().union(final(allocator).free()) == old(
                self,
            ).owned_frames().union(old(allocator).free()),
            final(allocator).free().subset_of(old(allocator).free()),
            final(self).root() == old(self).root(),
            final(self).table_frames().len() >= old(self).table_frames().len(),
            forall|n: int|
                0 <= n < old(self).table_frames().len() ==> final(self).table_frames()[n] == old(
                    self,
                ).table_frames()[n],
            ({
                let outcome = map_range(
                    old(self).shape(),
                    old(allocator).free().len(),
                    page_range.start.0 as int,
                    page_range.end.0 as int,
                    true,
                );
                &&& result == outcome.result
                &&& final(self).shape() == outcome.shape
                &&& final(allocator).free().len() == outcome.free
                &&& result is Ok ==> outcome.pages == page_range.count()
                &&& result is Err && outcome.pages == 0 ==> *final(self) == *old(self)
                    && final(allocator).free() == old(allocator).free()
                &&& result is Err ==> exists|frames: Seq<int>|
                    {
                        &&& frames.len() == outcome.pages
                        &&& frames.to_set().subset_of(final(allocator).free())
                        &&& #[trigger] bind_framed(
                            old(self).leaves(),
                            page_range.start.0 as int,
                            frames,
                            flags,
                        ) == final(self).leaves()
                    }
            }),
            match result {
                Ok(_) => {
                    &&& final(self).recorded().len() == old(self).recorded().len() + 1
                    &&& final(self).recorded().drop_last() == old(self).recorded()
                    &&& final(self).recorded().last() matches Segment::Framed {
                        page_range: range,
                        flags: permissions,
                        ..
                    } && range == page_range && permissions == flags
                    &&& final(self).recorded().last().wf()
                    &&& final(self).recorded().last().frames().no_duplicates()
                    &&& final(self).recorded().last().frames().to_set().subset_of(
                        old(allocator).free(),
                    )
                    &&& final(self).recorded().last().frames().to_set().disjoint(
                        final(allocator).free(),
                    )
                    &&& final(self).leaves() == bind_framed(
                        old(self).leaves(),
                        page_range.start.0 as int,
                        final(self).recorded().last().frames(),
                        flags,
                    )
                    &&& forall|page: int|
                        page_range.holds(page) ==> final(self).leaves().dom().contains(
                            #[trigger] slot_of(page),
                        ) && final(self).leaves()[slot_of(page)] == (Translation {
                            page_number: PhysicalPageNumber(
                                final(self).recorded().last().frames()[page
                                    - page_range.start.0] as u64,
                            ),
                            flags,
                        })
                },
                Err(_) => final(self).recorded() == old(self).recorded(),
            },
            forall|slot: int| #[trigger]
                old(self).leaves().dom().contains(slot) ==> final(self).leaves().dom().contains(
                    slot,
                ) && final(self).leaves()[slot] == old(self).leaves()[slot],
            result is Ok && old(self).covered() ==> final(self).covered(),
    {
        let ghost shape = self.shape();
        let ghost free = allocator.free().len();
        let ghost leaves = self.leaves();
        let ghost start = page_range.start.0 as int;
        let ghost end = page_range.end.0 as int;
        let mut frames: Vec<FrameTracker> = Vec::new();
        let mut page: u64 = page_range.start.0;
        proof {
            lemma_bind_none(leaves, start, flags);
            assert(frame_numbers(frames@) =~= Seq::<int>::empty());
        }
        while page < page_range.end.0
            invariant
                shape == old(self).shape(),
                free == old(allocator).free().len(),
                leaves == old(self).leaves(),
                start == page_range.start.0,
                end == page_range.end.0,
                start <= page,
                page <= end || page == start,
                page == start ==> *self == *old(self) && allocator.free() == old(allocator).free(),
                self.wf(),
                allocator.wf(),
                self.owned_frames().disjoint(allocator.free()),
                allocator.free().subset_of(old(allocator).free()),
                self.recorded() == old(self).recorded(),
                self.root() == old(self).root(),
                self.table_frames().len() >= old(self).table_frames().len(),
                forall|n: int|
                    0 <= n < old(self).table_frames().len() ==> self.table_frames()[n] == old(
                        self,
                    ).table_frames()[n],
                frames@.len() == page - start,
                frame_numbers(frames@).no_duplicates(),
                forall|i: int|
                    0 <= i < frames@.len() ==> {
                        &&& !allocator.free().contains(#[trigger] frame_numbers(frames@)[i])
                        &&& !self.owned_frames().contains(frame_numbers(frames@)[i])
                        &&& old(allocator).free().contains(frame_numbers(frames@)[i])
                    },
                self.owned_frames().union(allocator.free()).union(
                    frame_numbers(frames@).to_set(),
                ) == old(self).owned_frames().union(old(allocator).free()),
                map_range(shape, free, start, end, true) == map_range_from(
                    self.shape(),
                    allocator.free().len(),
                    start,
                    page as int,
                    end,
                    true,
                ),
                self.leaves() == bind_framed(leaves, start, frame_numbers(frames@), flags),
                page - start <= 0x800_0000,
                forall|slot: int| #[trigger]
                    leaves.dom().contains(slot) ==> self.leaves().dom().contains(slot)
                        && self.leaves()[slot] == leaves[slot],
            decreases page_range.end.0 - page,
        {
            let ghost held = frame_numbers(frames@);
            let ghost before = self.leaves();
            let ghost pool = allocator.free();
            let ghost owned = self.owned_frames();
            proof {
                assert(before.dom() == self.shape().mapped) by {
                    self.lemma_wf();
                }
            }
            match self.map_alloc_one(allocator, VirtualPageNumber(page), flags) {
                Ok(frame) => {
                    proof {
                        lemma_bind_framed_next(leaves, start, held, frame.number(), flags);
                    }
                    frames.push(frame);
                    proof {
                        let number = frame.number();
                        assert(frame_numbers(frames@) =~= held.push(number));
                        held.lemma_push_to_set_commute(number);
                        assert forall|i: int| 0 <= i < frames@.len() implies {
                            &&& !allocator.free().contains(#[trigger] frame_numbers(frames@)[i])
                            &&& !self.owned_frames().contains(frame_numbers(frames@)[i])
                            &&& old(allocator).free().contains(frame_numbers(frames@)[i])
                        } by {
                            if i < held.len() {
                                assert(!owned.union(pool).contains(held[i]));
                            }
                        }
                    }
                },
                Err(error) => {
                    proof {
                        allocator.lemma_free_bounded();
                        held.unique_seq_to_set();
                        assert forall|number: int| held.to_set().contains(
                            number,
                        ) implies !self.owned_frames().union(allocator.free()).contains(
                            number,
                        ) by {
                        }
                        lemma_set_disjoint_lens(allocator.free(), held.to_set());
                    }
                    allocator.deallocate_all(frames);
                    return Err(error);
                },
            }
            page = page + 1;
        }
        let ghost held = frame_numbers(frames@);
        let segment = Segment::Framed { page_range, flags, frames };
        proof {
            assert forall|number: int| page_range.holds(number) implies self.leaves().dom().contains(
                #[trigger] slot_of(number),
            ) && self.leaves()[slot_of(number)] == (Translation {
                page_number: PhysicalPageNumber(held[number - start] as u64),
                flags,
            }) by {
                lemma_bind_framed_at(leaves, start, held, flags, number);
            }
        }
        self.record(segment);
        proof {
            if old(self).covered() {
                old(self).lemma_wf();
                law_range_maps_free_slots(shape, free, start, start, end, true);
                lemma_describes_one_more(old(self).recorded(), leaves, segment);
            }
        }
        Ok(())
    }
}

} // verus!
