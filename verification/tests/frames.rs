use memory_mapping::address::PhysicalPageNumber;
use memory_mapping::error::MapError;
use memory_mapping::frame::{FrameAllocator, FrameTracker};

fn pool(start: u64, end: u64) -> FrameAllocator {
    FrameAllocator::new(PhysicalPageNumber(start), PhysicalPageNumber(end))
}

#[test]
fn a_new_pool_holds_its_range() {
    let frames = pool(100, 110);
    assert_eq!(frames.available(), 10);
}

#[test]
fn an_empty_or_inverted_range_gives_an_empty_pool() {
    assert_eq!(pool(7, 7).available(), 0);
    assert_eq!(pool(9, 3).available(), 0);
    assert!(matches!(pool(7, 7).allocate(), Err(MapError::ResourceExhausted)));
}

#[test]
fn frames_beyond_the_entry_width_are_left_out() {
    let limit: u64 = 0x1000_0000_0000;
    let mut frames = pool(limit - 2, limit + 5);
    assert_eq!(frames.available(), 2);
    assert_eq!(frames.allocate().unwrap().page_number().0, limit - 2);
    assert_eq!(frames.allocate().unwrap().page_number().0, limit - 1);
    assert!(frames.allocate().is_err());
    assert_eq!(pool(limit + 1, limit + 9).available(), 0);
}

#[test]
fn allocation_takes_the_lowest_frame_of_the_range() {
    let mut frames = pool(100, 103);
    assert_eq!(frames.allocate().unwrap().page_number(), PhysicalPageNumber(100));
    assert_eq!(frames.allocate().unwrap().page_number(), PhysicalPageNumber(101));
    assert_eq!(frames.available(), 1);
    assert_eq!(frames.allocate().unwrap().page_number(), PhysicalPageNumber(102));
    assert_eq!(frames.available(), 0);
}

#[test]
fn allocation_fails_exactly_when_the_pool_is_empty() {
    let mut frames = pool(5, 6);
    let only = frames.allocate();
    assert!(only.is_ok());
    let error = frames.allocate().unwrap_err();
    assert_eq!(error, MapError::ResourceExhausted);
    assert_eq!(frames.available(), 0);
    frames.deallocate(only.unwrap());
    assert_eq!(frames.available(), 1);
    assert!(frames.allocate().is_ok());
}

#[test]
fn a_returned_frame_is_handed_out_again_first() {
    let mut frames = pool(10, 20);
    let first = frames.allocate().unwrap();
    let second = frames.allocate().unwrap();
    assert_eq!(second.page_number().0, 11);
    frames.deallocate(first);
    assert_eq!(frames.available(), 9);
    assert_eq!(frames.allocate().unwrap().page_number().0, 10);
    assert_eq!(frames.allocate().unwrap().page_number().0, 12);
}

#[test]
fn deallocate_all_returns_every_frame() {
    let mut frames = pool(10, 14);
    let mut taken: Vec<FrameTracker> = Vec::new();
    for _ in 0..4 {
        taken.push(frames.allocate().unwrap());
    }
    assert_eq!(frames.available(), 0);
    frames.deallocate_all(taken);
    assert_eq!(frames.available(), 4);
    let mut again: Vec<u64> = Vec::new();
    while let Ok(frame) = frames.allocate() {
        again.push(frame.page_number().0);
    }
    again.sort();
    assert_eq!(again, vec![10, 11, 12, 13]);
}

#[test]
fn error_messages() {
    assert_eq!(MapError::ResourceExhausted.message(), "no available frame to allocate");
    assert_eq!(MapError::MappingConflict.message(), "virtual address is already mapped");
}
