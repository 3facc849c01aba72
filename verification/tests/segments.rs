use memory_mapping::address::{PageRange, PhysicalPageNumber, VirtualPageNumber};
use memory_mapping::error::MapError;
use memory_mapping::flags::Flags;
use memory_mapping::frame::FrameAllocator;
use memory_mapping::mapping::Mapping;
use memory_mapping::model::Translation;
use memory_mapping::segment::Segment;

fn pool(start: u64, end: u64) -> FrameAllocator {
    FrameAllocator::new(PhysicalPageNumber(start), PhysicalPageNumber(end))
}

fn range(start: u64, end: u64) -> PageRange {
    PageRange::new(VirtualPageNumber(start), VirtualPageNumber(end))
}

fn bound(page: u64, flags: Flags) -> Option<Translation> {
    Some(Translation { page_number: PhysicalPageNumber(page), flags })
}

#[test]
fn map_linear_binds_each_page_to_its_own_number() {
    let mut frames = pool(100, 110);
    let mut space = Mapping::new(&mut frames).unwrap();
    let result = space.map_linear(&mut frames, range(0x80200, 0x80210), Flags::text());
    assert_eq!(result, Ok(()));
    for page in 0x80200..0x80210u64 {
        assert_eq!(space.lookup(VirtualPageNumber(page)), bound(page, Flags::text()));
    }
    assert_eq!(space.lookup(VirtualPageNumber(0x801ff)), None);
    assert_eq!(space.lookup(VirtualPageNumber(0x80210)), None);
    assert_eq!(space.tables().len(), 3);
    assert_eq!(frames.available(), 7);
}

#[test]
fn map_linear_records_one_linear_segment() {
    let mut frames = pool(100, 110);
    let mut space = Mapping::new(&mut frames).unwrap();
    space.map_linear(&mut frames, range(4, 9), Flags::read_only()).unwrap();
    assert_eq!(space.segments().len(), 1);
    let segment = &space.segments()[0];
    assert!(segment.is_linear());
    assert_eq!(segment.page_range(), range(4, 9));
    assert_eq!(segment.flags(), Flags::read_only());
    assert_eq!(segment.frame_pages().len(), 0);
    assert!(matches!(segment, Segment::Linear { .. }));
}

#[test]
fn map_linear_creates_a_table_for_each_512_pages() {
    let mut frames = pool(100, 110);
    let mut space = Mapping::new(&mut frames).unwrap();
    assert_eq!(space.map_linear(&mut frames, range(510, 1026), Flags::read_write()), Ok(()));
    assert_eq!(space.tables().len(), 5);
    assert_eq!(frames.available(), 5);
    for page in 510..1026u64 {
        assert_eq!(space.lookup(VirtualPageNumber(page)), bound(page, Flags::read_write()));
    }
    assert_eq!(space.lookup(VirtualPageNumber(509)), None);
    assert_eq!(space.lookup(VirtualPageNumber(1026)), None);
}

#[test]
fn map_linear_of_no_pages_records_the_range() {
    let mut frames = pool(100, 110);
    let mut space = Mapping::new(&mut frames).unwrap();
    assert_eq!(space.map_linear(&mut frames, range(7, 7), Flags::text()), Ok(()));
    assert_eq!(space.map_linear(&mut frames, range(9, 2), Flags::text()), Ok(()));
    assert_eq!(space.segments().len(), 2);
    assert_eq!(space.segments()[0].page_range(), range(7, 7));
    assert_eq!(space.segments()[1].page_range(), range(9, 2));
    assert_eq!(space.tables().len(), 1);
    assert_eq!(frames.available(), 9);
    assert_eq!(space.lookup(VirtualPageNumber(7)), None);
    assert_eq!(space.lookup(VirtualPageNumber(5)), None);
}

#[test]
fn map_linear_stops_at_a_conflict_and_does_not_roll_back() {
    let mut frames = pool(100, 110);
    let mut space = Mapping::new(&mut frames).unwrap();
    space.map_linear(&mut frames, range(5, 6), Flags::text()).unwrap();
    let result = space.map_linear(&mut frames, range(3, 8), Flags::read_write());
    assert_eq!(result, Err(MapError::MappingConflict));
    assert_eq!(space.segments().len(), 1);
    assert_eq!(space.lookup(VirtualPageNumber(3)), bound(3, Flags::read_write()));
    assert_eq!(space.lookup(VirtualPageNumber(4)), bound(4, Flags::read_write()));
    assert_eq!(space.lookup(VirtualPageNumber(5)), bound(5, Flags::text()));
    assert_eq!(space.lookup(VirtualPageNumber(6)), None);
    assert_eq!(space.lookup(VirtualPageNumber(7)), None);
}

#[test]
fn map_linear_stops_when_the_pool_runs_out() {
    let mut frames = pool(100, 104);
    let mut space = Mapping::new(&mut frames).unwrap();
    let result = space.map_linear(&mut frames, range(510, 1026), Flags::read_write());
    assert_eq!(result, Err(MapError::ResourceExhausted));
    assert_eq!(space.segments().len(), 0);
    assert_eq!(frames.available(), 0);
    assert_eq!(space.tables().len(), 4);
    assert_eq!(space.lookup(VirtualPageNumber(510)), bound(510, Flags::read_write()));
    assert_eq!(space.lookup(VirtualPageNumber(1023)), bound(1023, Flags::read_write()));
    assert_eq!(space.lookup(VirtualPageNumber(1024)), None);
}

#[test]
fn a_range_may_run_over_the_last_slot_into_the_first() {
    let mut frames = pool(100, 110);
    let mut space = Mapping::new(&mut frames).unwrap();
    let result = space.map_linear(&mut frames, range(0x7ff_fffe, 0x800_0002), Flags::read_write());
    assert_eq!(result, Ok(()));
    assert_eq!(space.tables().len(), 5);
    assert_eq!(space.lookup(VirtualPageNumber(0x7ff_fffe)), bound(0x7ff_fffe, Flags::read_write()));
    assert_eq!(space.lookup(VirtualPageNumber(0x7ff_ffff)), bound(0x7ff_ffff, Flags::read_write()));
    assert_eq!(space.lookup(VirtualPageNumber(0x800_0000)), bound(0x800_0000, Flags::read_write()));
    assert_eq!(space.lookup(VirtualPageNumber(0)), bound(0x800_0000, Flags::read_write()));
    assert_eq!(space.lookup(VirtualPageNumber(1)), bound(0x800_0001, Flags::read_write()));
    assert_eq!(space.lookup(VirtualPageNumber(2)), None);
    assert_eq!(
        space.map_linear(&mut frames, range(1, 2), Flags::text()),
        Err(MapError::MappingConflict)
    );
}

#[test]
fn disjoint_ranges_can_be_mapped_in_either_order() {
    let first = (range(0x100, 0x180), Flags::text());
    let second = (range(0x4_0000, 0x4_0020), Flags::read_write());
    let mut one_pool = pool(100, 200);
    let mut one = Mapping::new(&mut one_pool).unwrap();
    assert_eq!(one.map_linear(&mut one_pool, first.0, first.1), Ok(()));
    assert_eq!(one.map_alloc(&mut one_pool, second.0, second.1), Ok(()));
    let mut other_pool = pool(100, 200);
    let mut other = Mapping::new(&mut other_pool).unwrap();
    assert_eq!(other.map_alloc(&mut other_pool, second.0, second.1), Ok(()));
    assert_eq!(other.map_linear(&mut other_pool, first.0, first.1), Ok(()));
    for page in 0x100..0x180u64 {
        assert_eq!(one.lookup(VirtualPageNumber(page)), bound(page, first.1));
        assert_eq!(other.lookup(VirtualPageNumber(page)), bound(page, first.1));
    }
    let one_frames = one.segments()[1].frame_pages();
    let other_frames = other.segments()[0].frame_pages();
    for (i, page) in (0x4_0000..0x4_0020u64).enumerate() {
        assert_eq!(one.lookup(VirtualPageNumber(page)), bound(one_frames[i].0, second.1));
        assert_eq!(other.lookup(VirtualPageNumber(page)), bound(other_frames[i].0, second.1));
    }
    assert_eq!(one_pool.available(), other_pool.available());
    assert_eq!(one.tables().len(), other.tables().len());
}

#[test]
fn two_linear_ranges_in_either_order_give_the_same_bindings() {
    let mut one_pool = pool(100, 200);
    let mut one = Mapping::new(&mut one_pool).unwrap();
    one.map_linear(&mut one_pool, range(10, 20), Flags::text()).unwrap();
    one.map_linear(&mut one_pool, range(20, 40), Flags::read_only()).unwrap();
    let mut other_pool = pool(100, 200);
    let mut other = Mapping::new(&mut other_pool).unwrap();
    other.map_linear(&mut other_pool, range(20, 40), Flags::read_only()).unwrap();
    other.map_linear(&mut other_pool, range(10, 20), Flags::text()).unwrap();
    for page in 0..64u64 {
        assert_eq!(one.lookup(VirtualPageNumber(page)), other.lookup(VirtualPageNumber(page)));
    }
    assert_eq!(one.lookup(VirtualPageNumber(19)), bound(19, Flags::text()));
    assert_eq!(one.lookup(VirtualPageNumber(20)), bound(20, Flags::read_only()));
}

#[test]
fn map_alloc_gives_each_page_a_frame_of_its_own() {
    let mut frames = pool(100, 120);
    let mut space = Mapping::new(&mut frames).unwrap();
    assert_eq!(space.map_alloc(&mut frames, range(0x30, 0x36), Flags::read_write()), Ok(()));
    assert_eq!(space.segments().len(), 1);
    let segment = &space.segments()[0];
    assert!(!segment.is_linear());
    assert_eq!(segment.page_range(), range(0x30, 0x36));
    assert_eq!(segment.flags(), Flags::read_write());
    let pages = segment.frame_pages();
    assert_eq!(pages.len(), 6);
    for i in 0..pages.len() {
        for j in 0..i {
            assert_ne!(pages[i], pages[j]);
        }
        assert!(100 <= pages[i].0 && pages[i].0 < 120);
        assert_eq!(space.lookup(VirtualPageNumber(0x30 + i as u64)), bound(pages[i].0, Flags::read_write()));
    }
    let tables: Vec<u64> = space.tables().iter().map(|table| table.page_number().0).collect();
    for page in &pages {
        assert!(!tables.contains(&page.0));
    }
    assert_eq!(space.tables().len(), 3);
    assert_eq!(frames.available(), 20 - 3 - 6);
    assert_eq!(pages[0], PhysicalPageNumber(101));
    assert_eq!(tables, vec![100, 102, 103]);
    assert_eq!(pages[1], PhysicalPageNumber(104));
}

#[test]
fn the_frames_of_a_segment_stay_out_of_the_pool() {
    let mut frames = pool(100, 120);
    let mut space = Mapping::new(&mut frames).unwrap();
    space.map_alloc(&mut frames, range(0, 4), Flags::read_write()).unwrap();
    space.map_alloc(&mut frames, range(8, 12), Flags::read_write()).unwrap();
    space.map_linear(&mut frames, range(600, 700), Flags::text()).unwrap();
    let mut held: Vec<u64> = Vec::new();
    for segment in space.segments().iter() {
        for page in segment.frame_pages() {
            assert!(!held.contains(&page.0));
            held.push(page.0);
        }
    }
    assert_eq!(held.len(), 8);
    for table in space.tables().iter() {
        assert!(!held.contains(&table.page_number().0));
    }
    let left = frames.available();
    let mut rest: Vec<u64> = Vec::new();
    while let Ok(frame) = frames.allocate() {
        rest.push(frame.page_number().0);
    }
    assert_eq!(rest.len() as u64, left);
    for page in &held {
        assert!(!rest.contains(page));
    }
}

#[test]
fn map_alloc_fails_when_the_root_took_the_only_frame() {
    let mut frames = pool(100, 101);
    assert_eq!(frames.available(), 1);
    let mut space = Mapping::new(&mut frames).unwrap();
    assert_eq!(frames.available(), 0);
    let result = space.map_alloc(&mut frames, range(0, 1), Flags::read_write());
    assert_eq!(result, Err(MapError::ResourceExhausted));
    assert_eq!(space.segments().len(), 0);
    assert_eq!(space.tables().len(), 1);
    assert_eq!(space.lookup(VirtualPageNumber(0)), None);
}

#[test]
fn map_alloc_needs_a_frame_for_the_page_and_for_each_table() {
    let mut enough = pool(100, 104);
    let mut space = Mapping::new(&mut enough).unwrap();
    assert_eq!(space.map_alloc(&mut enough, range(0, 1), Flags::read_write()), Ok(()));
    assert_eq!(enough.available(), 0);
    let mut short = pool(100, 103);
    let mut space = Mapping::new(&mut short).unwrap();
    assert_eq!(
        space.map_alloc(&mut short, range(0, 1), Flags::read_write()),
        Err(MapError::ResourceExhausted)
    );
    assert_eq!(space.tables().len(), 1);
    assert_eq!(short.available(), 2);
}

#[test]
fn map_alloc_gives_its_frames_back_when_it_fails() {
    let mut frames = pool(100, 110);
    let mut space = Mapping::new(&mut frames).unwrap();
    space.map_linear(&mut frames, range(7, 8), Flags::text()).unwrap();
    assert_eq!(frames.available(), 7);
    let result = space.map_alloc(&mut frames, range(5, 9), Flags::read_write());
    assert_eq!(result, Err(MapError::MappingConflict));
    assert_eq!(frames.available(), 7);
    assert_eq!(space.segments().len(), 1);
    assert_eq!(space.lookup(VirtualPageNumber(7)), bound(7, Flags::text()));
    assert_eq!(space.lookup(VirtualPageNumber(8)), None);
    let stale = space.lookup(VirtualPageNumber(5)).unwrap();
    assert_eq!(stale.flags, Flags::read_write());
    let mut rest: Vec<u64> = Vec::new();
    while let Ok(frame) = frames.allocate() {
        rest.push(frame.page_number().0);
    }
    assert!(rest.contains(&stale.page_number.0));
    assert!(rest.contains(&space.lookup(VirtualPageNumber(6)).unwrap().page_number.0));
}

#[test]
fn map_alloc_of_no_pages_records_an_empty_segment() {
    let mut frames = pool(100, 110);
    let mut space = Mapping::new(&mut frames).unwrap();
    assert_eq!(space.map_alloc(&mut frames, range(4, 4), Flags::read_write()), Ok(()));
    assert_eq!(space.segments().len(), 1);
    assert!(!space.segments()[0].is_linear());
    assert_eq!(space.segments()[0].frame_pages().len(), 0);
    assert_eq!(frames.available(), 9);
}

#[test]
fn mapping_over_a_framed_segment_is_a_conflict() {
    let mut frames = pool(100, 120);
    let mut space = Mapping::new(&mut frames).unwrap();
    space.map_alloc(&mut frames, range(0, 4), Flags::read_write()).unwrap();
    let before = space.lookup(VirtualPageNumber(2));
    assert_eq!(
        space.map_linear(&mut frames, range(2, 3), Flags::text()),
        Err(MapError::MappingConflict)
    );
    assert_eq!(
        space.map_alloc(&mut frames, range(2, 3), Flags::text()),
        Err(MapError::MappingConflict)
    );
    assert_eq!(space.lookup(VirtualPageNumber(2)), before);
    assert_eq!(space.segments().len(), 1);
}

#[test]
fn release_returns_the_frames_of_tables_and_segments() {
    let mut frames = pool(100, 140);
    let mut space = Mapping::new(&mut frames).unwrap();
    space.map_alloc(&mut frames, range(0, 4), Flags::read_write()).unwrap();
    space.map_linear(&mut frames, range(600, 700), Flags::text()).unwrap();
    space.map_alloc(&mut frames, range(0x4_0000, 0x4_0003), Flags::read_write()).unwrap();
    assert!(frames.available() < 40);
    space.release(&mut frames);
    assert_eq!(frames.available(), 40);
    let mut all: Vec<u64> = Vec::new();
    while let Ok(frame) = frames.allocate() {
        all.push(frame.page_number().0);
    }
    all.sort();
    assert_eq!(all, (100..140u64).collect::<Vec<u64>>());
}

#[test]
fn two_spaces_on_one_pool_hold_different_frames() {
    let mut frames = pool(100, 140);
    let mut one = Mapping::new(&mut frames).unwrap();
    let mut other = Mapping::new(&mut frames).unwrap();
    one.map_alloc(&mut frames, range(0, 4), Flags::read_write()).unwrap();
    other.map_alloc(&mut frames, range(0, 4), Flags::read_write()).unwrap();
    one.map_linear(&mut frames, range(0x4_0000, 0x4_0002), Flags::text()).unwrap();
    let held = |space: &Mapping| -> Vec<u64> {
        let mut pages: Vec<u64> =
            space.tables().iter().map(|table| table.page_number().0).collect();
        for segment in space.segments().iter() {
            pages.extend(segment.frame_pages().iter().map(|page| page.0));
        }
        pages
    };
    let first = held(&one);
    let second = held(&other);
    assert_eq!(first.len(), 5 + 4);
    assert_eq!(second.len(), 3 + 4);
    for page in &first {
        assert!(!second.contains(page));
    }
    assert_eq!(frames.available(), 40 - 16);
    for i in 0..4u64 {
        assert_ne!(one.lookup(VirtualPageNumber(i)), other.lookup(VirtualPageNumber(i)));
    }
    one.release(&mut frames);
    assert_eq!(frames.available(), 40 - 7);
    let mut rest: Vec<u64> = Vec::new();
    while let Ok(frame) = frames.allocate() {
        rest.push(frame.page_number().0);
    }
    for page in &second {
        assert!(!rest.contains(page));
    }
    for page in &first {
        assert!(rest.contains(page));
    }
}
