//! What holds of mapping in general, proved over the model.
use vstd::prelude::*;
use crate::activation::{activation, register_after};
use crate::address::{covers, distance, lemma_distance, lemma_distance_next, slot_of};
use crate::error::MapError;
use crate::flags::Flags;
use crate::kernel::KernelLayout;
use crate::model::{
    bind_framed, bind_linear, lemma_page_covered, map_alloc_page, map_page, map_range,
    map_range_from, Shape, Translation,
};
use crate::segment::{
    bind_segment, bind_segments, describes, lemma_covered_slots_are_bound, Segment,
};

verus! {

/// Binding a segment binds each of its pages as the segment says, and
/// leaves every slot that the segment does not cover as it was.
pub proof fn law_segment_binds_its_pages(
    leaves: Map<int, Translation>,
    segment: Segment,
    page: int,
    slot: int,
)
    requires
        segment.wf(),
        segment.range().count() <= 0x800_0000,
    ensures
        segment.range().holds(page) ==> bind_segment(leaves, segment).dom().contains(slot_of(page))
            && bind_segment(leaves, segment)[slot_of(page)] == segment.binding(page),
        !segment.covers(slot) ==> bind_segment(leaves, segment).dom().contains(slot)
            == leaves.dom().contains(slot),
        !segment.covers(slot) && leaves.dom().contains(slot) ==> bind_segment(
            leaves,
            segment,
        )[slot] == leaves[slot],
{
    reveal(bind_linear);
    reveal(bind_framed);
    if segment.range().holds(page) {
        lemma_page_covered(segment.range().start.0 as int, segment.range().count(), page);
    }
}

/// Two ranges of which one ends where the other begins or before it, and
/// which together span no more pages than the table has slots, share no
/// slot.
pub proof fn law_ranges_apart_share_no_slot(
    first: int,
    first_count: int,
    second: int,
    second_count: int,
    slot: int,
)
    requires
        0 <= first,
        0 <= first_count,
        0 <= second_count,
        first + first_count <= second,
        second + second_count <= first + 0x800_0000,
    ensures
        !(covers(first, first_count, slot) && covers(second, second_count, slot)),
{
    if covers(first, first_count, slot) && covers(second, second_count, slot) {
        lemma_distance(first, slot);
        lemma_distance(second, slot);
        let low = first + distance(first, slot);
        let high = second + distance(second, slot);
        assert(slot_of(low) == slot_of(high));
        assert(0 < high - low < 0x800_0000);
    }
}

/// Two segments that share no slot can be bound in either order: the leaves
/// are the same, and every page of either is bound as its segment says.
pub proof fn law_disjoint_segments_commute(
    leaves: Map<int, Translation>,
    first: Segment,
    second: Segment,
    page: int,
)
    requires
        first.wf(),
        second.wf(),
        first.range().count() <= 0x800_0000,
        second.range().count() <= 0x800_0000,
        forall|slot: int| !(first.covers(slot) && second.covers(slot)),
    ensures
        bind_segment(bind_segment(leaves, first), second) == bind_segment(
            bind_segment(leaves, second),
            first,
        ),
        first.range().holds(page) ==> bind_segment(
            bind_segment(leaves, first),
            second,
        ).dom().contains(slot_of(page)) && bind_segment(bind_segment(leaves, first), second)[slot_of(
            page,
        )] == first.binding(page),
        second.range().holds(page) ==> bind_segment(
            bind_segment(leaves, first),
            second,
        ).dom().contains(slot_of(page)) && bind_segment(bind_segment(leaves, first), second)[slot_of(
            page,
        )] == second.binding(page),
{
    let one = bind_segment(leaves, first);
    let other = bind_segment(leaves, second);
    let both = bind_segment(one, second);
    let swapped = bind_segment(other, first);
    assert forall|slot: int|
        #![trigger both.dom().contains(slot)]
        #![trigger swapped.dom().contains(slot)]
        both.dom().contains(slot) == swapped.dom().contains(slot) && (both.dom().contains(slot)
            ==> both[slot] == swapped[slot]) by {
        reveal(bind_linear);
        reveal(bind_framed);
        assert(!(first.covers(slot) && second.covers(slot)));
    }
    if first.range().holds(page) {
        lemma_page_covered(first.range().start.0 as int, first.range().count(), page);
        assert(first.covers(slot_of(page)));
        assert(!(first.covers(slot_of(page)) && second.covers(slot_of(page))));
        law_segment_binds_its_pages(leaves, first, page, slot_of(page));
        law_segment_binds_its_pages(one, second, page, slot_of(page));
    }
    if second.range().holds(page) {
        law_segment_binds_its_pages(one, second, page, slot_of(page));
    }
}

/// Where the segments describe the leaves, a slot is bound exactly if a
/// segment covers it, that segment is the only one, and each page of a
/// segment is bound as the segment says.
pub proof fn law_segments_describe_leaves(
    segments: Seq<Segment>,
    leaves: Map<int, Translation>,
    i: int,
    page: int,
    slot: int,
)
    requires
        describes(segments, leaves),
        forall|k: int| 0 <= k < segments.len() ==> (#[trigger] segments[k]).wf(),
        0 <= i < segments.len(),
    ensures
        leaves.dom().contains(slot) <==> exists|k: int|
            0 <= k < segments.len() && (#[trigger] segments[k]).covers(slot),
        segments[i].covers(slot) ==> forall|k: int|
            0 <= k < segments.len() && (#[trigger] segments[k]).covers(slot) ==> k == i,
        segments[i].range().holds(page) ==> leaves.dom().contains(slot_of(page))
            && leaves[slot_of(page)] == segments[i].binding(page),
    decreases segments.len(),
{
    let rest = segments.drop_last();
    let last = segments.last();
    let before = bind_segments(rest);
    law_segment_binds_its_pages(before, last, page, slot);
    law_segment_binds_its_pages(before, last, page, slot_of(page));
    if rest.len() > 0 {
        let inner = if i < rest.len() {
            i
        } else {
            0
        };
        law_segments_describe_leaves(rest, before, inner, page, slot);
        if i < rest.len() && segments[i].range().holds(page) {
            lemma_page_covered(
                segments[i].range().start.0 as int,
                segments[i].range().count(),
                page,
            );
            assert(segments[i].covers(slot_of(page)));
            assert(!(segments[i].covers(slot_of(page)) && segments[segments.len() - 1].covers(
                slot_of(page),
            )));
        }
    }
    if exists|k: int| 0 <= k < segments.len() && (#[trigger] segments[k]).covers(slot) {
        let k = choose|k: int| 0 <= k < segments.len() && (#[trigger] segments[k]).covers(slot);
        lemma_covered_slots_are_bound(segments, k, slot);
    }
}

/// Once a page is mapped, mapping it again fails and changes nothing: with
/// a frame of the caller's, by `MappingConflict`; with a frame from the
/// pool, by `MappingConflict` if the pool has a frame and by
/// `ResourceExhausted` if it has none.
pub proof fn law_second_mapping_fails(shape: Shape, free: nat, later: nat, slot: int)
    requires
        shape.wf(),
        0 <= slot < 0x800_0000,
        map_page(shape, free, slot).result is Ok,
    ensures
        map_page(map_page(shape, free, slot).shape, later, slot).result == Err::<(), MapError>(
            MapError::MappingConflict,
        ),
        map_page(map_page(shape, free, slot).shape, later, slot).shape == map_page(
            shape,
            free,
            slot,
        ).shape,
        map_page(map_page(shape, free, slot).shape, later, slot).free == later,
        map_alloc_page(map_page(shape, free, slot).shape, later, slot).result == Err::<
            (),
            MapError,
        >(
            if later == 0 {
                MapError::ResourceExhausted
            } else {
                MapError::MappingConflict
            },
        ),
        map_alloc_page(map_page(shape, free, slot).shape, later, slot).shape == map_page(
            shape,
            free,
            slot,
        ).shape,
        map_alloc_page(map_page(shape, free, slot).shape, later, slot).free == later,
{
}

/// What mapping one page does to a tree: it stays a tree; if the call
/// succeeds the slot was free and is now mapped, and if it fails neither the
/// tree nor the pool has changed. The pool never grows.
pub proof fn lemma_page_outcome(shape: Shape, free: nat, slot: int, framed: bool)
    requires
        shape.wf(),
        0 <= slot < 0x800_0000,
    ensures
        ({
            let page = if framed {
                map_alloc_page(shape, free, slot)
            } else {
                map_page(shape, free, slot)
            };
            &&& page.shape.wf()
            &&& page.free <= free
            &&& page.result is Ok ==> !shape.mapped.contains(slot) && page.shape.mapped
                == shape.mapped.insert(slot)
            &&& page.result is Err ==> page.shape == shape && page.free == free
        }),
{
    reveal(Shape::wf);
}

/// A range covers the slot of its first page and what the pages behind
/// that page cover. Those cover the slot of the first page only if they
/// are as many as the table has slots.
pub proof fn lemma_covers_first(start: int, count: int, slot: int)
    requires
        1 <= count,
    ensures
        covers(start, count, slot) <==> slot == slot_of(start) || covers(start + 1, count - 1, slot),
        covers(start + 1, count - 1, slot_of(start)) <==> count - 1 >= 0x800_0000,
{
    lemma_distance_next(start, slot_of(start));
    if 0 <= slot < 0x800_0000 {
        lemma_distance_next(start, slot);
        lemma_distance(start, slot);
    }
}

/// What a call on a range has done, whatever it returns: every page it has
/// mapped had a free slot, the pages it has mapped are no more than the
/// table has slots, the shape has their slots and those it had, and no
/// frame has come into the pool that was not there.
pub proof fn law_range_maps_free_slots(
    shape: Shape,
    free: nat,
    first: int,
    next: int,
    end: int,
    framed: bool,
)
    requires
        shape.wf(),
        0 <= first <= next,
    ensures
        ({
            let outcome = map_range_from(shape, free, first, next, end, framed);
            let count = first + outcome.pages - next;
            &&& outcome.shape.wf()
            &&& next - first <= outcome.pages
            &&& 0 <= count <= 0x800_0000
            &&& next <= end ==> outcome.pages <= end - first
            &&& outcome.result is Ok ==> outcome.pages == (if next <= end {
                end - first
            } else {
                next - first
            })
            &&& forall|slot: int| covers(next, count, slot) ==> !shape.mapped.contains(slot)
            &&& forall|slot: int|
                outcome.shape.mapped.contains(slot) <==> shape.mapped.contains(slot) || covers(
                    next,
                    count,
                    slot,
                )
            &&& outcome.free <= free + (if framed && outcome.result is Err {
                next - first
            } else {
                0
            })
        }),
    decreases end - next,
{
    let outcome = map_range_from(shape, free, first, next, end, framed);
    if next < end {
        let here = slot_of(next);
        let page = if framed {
            map_alloc_page(shape, free, here)
        } else {
            map_page(shape, free, here)
        };
        lemma_page_outcome(shape, free, here, framed);
        if page.result is Ok {
            let behind = map_range_from(page.shape, page.free, first, next + 1, end, framed);
            let rest = first + behind.pages - (next + 1);
            let count = first + outcome.pages - next;
            law_range_maps_free_slots(page.shape, page.free, first, next + 1, end, framed);
            assert(outcome == behind);
            assert(count - 1 == rest);
            assert(page.shape.mapped == shape.mapped.insert(here));
            assert(!covers(next + 1, rest, here)) by {
                assert(page.shape.mapped.contains(here));
            }
            assert(covers(next + 1, count - 1, here) == covers(next + 1, rest, here));
            lemma_covers_first(next, count, here);
            assert(count <= 0x800_0000);
            assert forall|slot: int| covers(next, count, slot) implies !shape.mapped.contains(
                slot,
            ) by {
                lemma_covers_first(next, count, slot);
                assert(covers(next + 1, count - 1, slot) == covers(next + 1, rest, slot));
                if slot != here {
                    assert(covers(next + 1, rest, slot));
                    assert(!page.shape.mapped.contains(slot));
                }
            }
            assert forall|slot: int|
                outcome.shape.mapped.contains(slot) <==> shape.mapped.contains(slot) || covers(
                    next,
                    count,
                    slot,
                ) by {
                lemma_covers_first(next, count, slot);
                assert(covers(next + 1, count - 1, slot) == covers(next + 1, rest, slot));
                assert(behind.shape.mapped.contains(slot) <==> page.shape.mapped.contains(slot)
                    || covers(next + 1, rest, slot));
                assert(page.shape.mapped.contains(slot) <==> shape.mapped.contains(slot) || slot
                    == here);
            }
        } else {
            assert(outcome.shape.mapped == shape.mapped);
            assert(outcome.pages == next - first);
            assert forall|slot: int| !covers(next, 0, slot) by {
                lemma_distance(next, slot);
            }
        }
    } else {
        assert(outcome.shape == shape);
        assert(outcome.pages == next - first);
        assert forall|slot: int| !covers(next, 0, slot) by {
            lemma_distance(next, slot);
        }
    }
}

/// A call on a range with a page that is already mapped fails, and does
/// not get as far as that page.
pub proof fn law_range_over_mapped_page_fails(
    shape: Shape,
    free: nat,
    start: int,
    end: int,
    framed: bool,
    page: int,
)
    requires
        shape.wf(),
        0 <= start <= page < end,
        shape.mapped.contains(slot_of(page)),
    ensures
        map_range(shape, free, start, end, framed).result is Err,
        map_range(shape, free, start, end, framed).pages <= page - start,
{
    law_range_maps_free_slots(shape, free, start, start, end, framed);
    let outcome = map_range(shape, free, start, end, framed);
    if outcome.pages > page - start {
        lemma_page_covered(start, outcome.pages as int, page);
    }
}

/// A call on a range succeeds where every slot of the range is free, the
/// range is no longer than the table is wide, and the pool holds two frames
/// for each page that is left, or three where each page takes a frame of
/// its own: no page needs more.
pub proof fn law_free_range_with_frames_maps(
    shape: Shape,
    free: nat,
    first: int,
    next: int,
    end: int,
    framed: bool,
)
    requires
        shape.wf(),
        0 <= first <= next <= end,
        end - next <= 0x800_0000,
        forall|slot: int| covers(next, end - next, slot) ==> !shape.mapped.contains(slot),
        free >= (if framed {
            3 * (end - next)
        } else {
            2 * (end - next)
        }),
    ensures
        map_range_from(shape, free, first, next, end, framed).result is Ok,
        map_range_from(shape, free, first, next, end, framed).pages == end - first,
    decreases end - next,
{
    if next < end {
        let here = slot_of(next);
        let page = if framed {
            map_alloc_page(shape, free, here)
        } else {
            map_page(shape, free, here)
        };
        lemma_page_outcome(shape, free, here, framed);
        lemma_covers_first(next, end - next, here);
        assert(page.result is Ok);
        assert forall|slot: int|
            covers(next + 1, end - (next + 1), slot) implies !page.shape.mapped.contains(slot) by {
            lemma_covers_first(next, end - next, slot);
            assert(covers(next + 1, end - (next + 1), slot) == covers(
                next + 1,
                end - next - 1,
                slot,
            ));
            assert(covers(next + 1, end - (next + 1), here) == covers(
                next + 1,
                end - next - 1,
                here,
            ));
        }
        law_free_range_with_frames_maps(page.shape, page.free, first, next + 1, end, framed);
    }
}

/// Binding pages whose slots were free leaves what was bound before bound
/// as it was.
pub proof fn law_earlier_bindings_stay(
    leaves: Map<int, Translation>,
    start: int,
    count: int,
    flags: Flags,
    frames: Seq<int>,
    slot: int,
)
    requires
        leaves.dom().contains(slot),
        forall|other: int| covers(start, count, other) ==> !leaves.dom().contains(other),
        frames.len() == count,
    ensures
        bind_linear(leaves, start, count, flags).dom().contains(slot),
        bind_linear(leaves, start, count, flags)[slot] == leaves[slot],
        bind_framed(leaves, start, frames, flags).dom().contains(slot),
        bind_framed(leaves, start, frames, flags)[slot] == leaves[slot],
{
    reveal(bind_linear);
    reveal(bind_framed);
}

/// Where the kernel's image ends with its boot stack, the five ranges of
/// its address space follow one another without a gap, from the page of
/// the first boundary to the page of the end of memory, and none is empty.
pub proof fn law_kernel_ranges_are_contiguous(layout: KernelLayout)
    requires
        layout.ordered(),
        layout.aligned(),
        layout.boot_stack_start == layout.kernel_end,
    ensures
        layout.ranges().len() == 5,
        layout.ranges()[0].start.0 == layout.text_start.0 / 4096,
        layout.ranges()[4].end.0 == layout.memory_end.0 / 4096,
        forall|i: int| 0 <= i < 4 ==> layout.ranges()[i].end == layout.ranges()[i + 1].start,
        forall|i: int| 0 <= i < 5 ==> layout.ranges()[i].start.0 < layout.ranges()[i].end.0,
{
}

/// Activating an address space a second time, with nothing done in
/// between, writes nothing: after the first activation the register holds
/// the value that the second one asks for.
pub proof fn law_second_activation_writes_nothing(root: int, current: u64)
    requires
        0 <= root < 0x1000_0000_0000,
    ensures
        activation(root, register_after(current, activation(root, current))) is None,
{
}

} // verus!
