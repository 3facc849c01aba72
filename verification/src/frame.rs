//! Physical frames and the pool they are taken from.
//!
//! A [`FrameTracker`] stands for one frame that has left the pool. It cannot
//! be copied, and only the pool makes one, so each frame has one holder.
use vstd::prelude::*;
use vstd::set_lib::*;
use crate::address::PhysicalPageNumber;
use crate::error::MapError;

verus! {

/// The numbers of a sequence of frames, as integers.
pub open spec fn numbers(frames: Seq<u64>) -> Seq<int> {
    frames.map_values(|page: u64| page as int)
}

/// The numbers of a sequence of frame handles.
pub open spec fn frame_numbers(frames: Seq<FrameTracker>) -> Seq<int> {
    frames.map_values(|frame: FrameTracker| frame.number())
}

/// The handle of one allocated frame.
#[derive(Debug)]
pub struct FrameTracker {
    page_number: PhysicalPageNumber,
}

impl FrameTracker {
    /// The number of a frame fits a table entry.
    #[verifier::type_invariant]
    spec fn fits(self) -> bool {
        self.page_number.0 < 0x1000_0000_0000
    }

    /// The number of the frame.
    pub closed spec fn number(&self) -> int {
        self.page_number.0 as int
    }

    /// The number of the frame.
    pub fn page_number(&self) -> (page: PhysicalPageNumber)
        ensures
            page.0 == self.number(),
            page.0 < 0x1000_0000_0000,
    {
        proof {
            use_type_invariant(self);
        }
        self.page_number
    }
}

/// A pool of physical frames: those of a range that were never handed out,
/// and those that came back.
#[derive(Debug)]
pub struct FrameAllocator {
    next: u64,
    end: u64,
    recycled: Vec<u64>,
}

impl FrameAllocator {
    /// The numbers of the frames that are free.
    pub closed spec fn free(&self) -> Set<int> {
        set_int_range(self.next as int, self.end as int).union(numbers(self.recycled@).to_set())
    }

    /// The pool is consistent: no frame is in it twice, and every frame's
    /// number fits a table entry.
    pub closed spec fn wf(&self) -> bool {
        &&& self.next <= self.end <= 0x1000_0000_0000
        &&& numbers(self.recycled@).no_duplicates()
        &&& forall|i: int|
            0 <= i < self.recycled@.len() ==> {
                &&& (#[trigger] self.recycled@[i]) < 0x1000_0000_0000
                &&& !(self.next <= self.recycled@[i] < self.end)
            }
    }

    /// A consistent pool holds finitely many frames, each with a number that
    /// fits a table entry.
    pub proof fn lemma_free_bounded(&self)
        requires
            self.wf(),
        ensures
            self.free().finite(),
            self.free().len() <= 0x1000_0000_0000,
            forall|page: int| self.free().contains(page) ==> 0 <= page < 0x1000_0000_0000,
    {
        let all = set_int_range(0, 0x1000_0000_0000);
        lemma_int_range(0, 0x1000_0000_0000);
        lemma_len_subset(self.free(), all);
    }

    /// The number of free frames, spelled out over the two parts of the pool.
    proof fn lemma_free_len(&self)
        requires
            self.wf(),
        ensures
            self.free().len() == (self.end - self.next) + self.recycled@.len(),
    {
        let range = set_int_range(self.next as int, self.end as int);
        let returned = numbers(self.recycled@).to_set();
        lemma_int_range(self.next as int, self.end as int);
        numbers(self.recycled@).unique_seq_to_set();
        lemma_set_disjoint_lens(range, returned);
    }

    /// The pool of the frames from `start` up to `end`, without those whose
    /// number does not fit a table entry.
    pub fn new(start: PhysicalPageNumber, end: PhysicalPageNumber) -> (pool: FrameAllocator)
        ensures
            pool.wf(),
            pool.free() == Set::new(
                |page: int| start.0 <= page < end.0 && page < 0x1000_0000_0000,
            ),
    {
        let limit: u64 = 0x1000_0000_0000;
        let last: u64 = if end.0 < limit {
            end.0
        } else {
            limit
        };
        let first: u64 = if start.0 < last {
            start.0
        } else {
            last
        };
        FrameAllocator { next: first, end: last, recycled: Vec::new() }
    }

    /// How many frames are free.
    pub fn available(&self) -> (count: u64)
        requires
            self.wf(),
        ensures
            count == self.free().len(),
    {
        proof {
            self.lemma_free_len();
            self.lemma_free_bounded();
        }
        (self.end - self.next) + self.recycled.len() as u64
    }

    /// Takes a frame out of the pool. Fails exactly when the pool is empty.
    pub fn allocate(&mut self) -> (frame: Result<FrameTracker, MapError>)
        requires
            old(self).wf(),
        ensures
            final(self).wf(),
            match frame {
                Ok(tracker) => {
                    &&& old(self).free().contains(tracker.number())
                    &&& final(self).free() == old(self).free().remove(tracker.number())
                    &&& 0 <= tracker.number() < 0x1000_0000_0000
                },
                Err(error) => {
                    &&& error == MapError::ResourceExhausted
                    &&& old(self).free().is_empty()
                    &&& final(self).free() == old(self).free()
                },
            },
    {
        let ghost before = numbers(self.recycled@);
        match self.recycled.pop() {
            Some(page) => {
                proof {
                    let after = numbers(self.recycled@);
                    assert(after =~= before.drop_last());
                    assert(before[before.len() - 1] == page as int);
                    assert(after.to_set() =~= before.to_set().remove(page as int)) by {
                        assert forall|other: int|
                            before.to_set().contains(other) && other != page as int
                            implies after.to_set().contains(other) by {
                            let i = choose|i: int| 0 <= i < before.len() && before[i] == other;
                            assert(after[i] == other);
                        }
                    }
                }
                Ok(FrameTracker { page_number: PhysicalPageNumber(page) })
            },
            None => {
                if self.next < self.end {
                    let page: u64 = self.next;
                    self.next = page + 1;
                    Ok(FrameTracker { page_number: PhysicalPageNumber(page) })
                } else {
                    Err(MapError::ResourceExhausted)
                }
            },
        }
    }

    /// Puts a frame back into the pool.
    pub fn deallocate(&mut self, frame: FrameTracker)
        requires
            old(self).wf(),
            !old(self).free().contains(frame.number()),
        ensures
            final(self).wf(),
            final(self).free() == old(self).free().insert(frame.number()),
    {
        proof {
            use_type_invariant(&frame);
        }
        let page: u64 = frame.page_number.0;
        let ghost before = numbers(self.recycled@);
        self.recycled.push(page);
        proof {
            let after = numbers(self.recycled@);
            assert(after =~= before.push(page as int));
            before.lemma_push_to_set_commute(page as int);
        }
    }

    /// Puts every frame of `frames` back into the pool.
    pub fn deallocate_all(&mut self, frames: Vec<FrameTracker>)
        requires
            old(self).wf(),
            frame_numbers(frames@).no_duplicates(),
            forall|i: int|
                0 <= i < frames@.len() ==> !old(self).free().contains(
                    #[trigger] frame_numbers(frames@)[i],
                ),
        ensures
            final(self).wf(),
            final(self).free() == old(self).free().union(frame_numbers(frames@).to_set()),
    {
        let ghost all = frame_numbers(frames@);
        let mut frames = frames;
        while frames.len() > 0
            invariant
                self.wf(),
                frame_numbers(frames@).no_duplicates(),
                forall|i: int|
                    0 <= i < frames@.len() ==> !self.free().contains(
                        #[trigger] frame_numbers(frames@)[i],
                    ),
                self.free().union(frame_numbers(frames@).to_set()) == old(self).free().union(
                    all.to_set(),
                ),
            decreases frames@.len(),
        {
            let ghost before = frame_numbers(frames@);
            let frame = frames.pop().unwrap();
            proof {
                let after = frame_numbers(frames@);
                assert(after =~= before.drop_last());
                assert(before =~= after.push(frame.number()));
                assert(frame.number() == before[before.len() - 1]);
            }
            self.deallocate(frame);
        }
    }
}

} // verus!
