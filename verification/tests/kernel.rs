use memory_mapping::activation::{satp_for, SV39_MODE};
use memory_mapping::address::{PageRange, PhysicalPageNumber, VirtualAddress, VirtualPageNumber};
use memory_mapping::error::MapError;
use memory_mapping::flags::Flags;
use memory_mapping::frame::FrameAllocator;
use memory_mapping::kernel::KernelLayout;
use memory_mapping::mapping::Mapping;
use memory_mapping::model::Translation;

fn pool(start: u64, end: u64) -> FrameAllocator {
    FrameAllocator::new(PhysicalPageNumber(start), PhysicalPageNumber(end))
}

fn range(start: u64, end: u64) -> PageRange {
    PageRange::new(VirtualPageNumber(start), VirtualPageNumber(end))
}

fn bound(page: u64, flags: Flags) -> Option<Translation> {
    Some(Translation { page_number: PhysicalPageNumber(page), flags })
}

fn layout() -> KernelLayout {
    KernelLayout {
        text_start: VirtualAddress(0x8020_0000),
        rodata_start: VirtualAddress(0x8020_4000),
        data_start: VirtualAddress(0x8020_6000),
        bss_start: VirtualAddress(0x8020_9000),
        boot_stack_start: VirtualAddress(0x8021_0000),
        kernel_end: VirtualAddress(0x8021_0000),
        memory_end: VirtualAddress(0x8040_0000),
    }
}

#[test]
fn the_kernel_space_has_five_linear_segments() {
    let mut frames = pool(0x80300, 0x80400);
    let space = Mapping::new_kernel(&mut frames, &layout()).unwrap();
    let segments = space.segments();
    assert_eq!(segments.len(), 5);
    let expected = [
        (range(0x80200, 0x80204), 0x0bu8),
        (range(0x80204, 0x80206), 0x03u8),
        (range(0x80206, 0x80209), 0x07u8),
        (range(0x80209, 0x80210), 0x07u8),
        (range(0x80210, 0x80400), 0x07u8),
    ];
    for (segment, (pages, bits)) in segments.iter().zip(expected.iter()) {
        assert!(segment.is_linear());
        assert_eq!(segment.page_range(), *pages);
        assert_eq!(segment.flags().bits, *bits);
    }
    assert_eq!(segments[0].flags(), Flags::text());
    assert_eq!(segments[1].flags(), Flags::read_only());
    assert_eq!(segments[2].flags(), Flags::read_write());
    assert_eq!(segments[3].flags(), Flags::read_write());
    assert_eq!(segments[4].flags(), Flags::read_write());
}

#[test]
fn the_kernel_segments_follow_one_another_without_a_gap() {
    let mut frames = pool(0x80300, 0x80400);
    let space = Mapping::new_kernel(&mut frames, &layout()).unwrap();
    let segments = space.segments();
    assert_eq!(segments[0].page_range().start, VirtualPageNumber(0x80200));
    for i in 0..4 {
        assert_eq!(segments[i].page_range().end, segments[i + 1].page_range().start);
    }
    assert_eq!(segments[4].page_range().end, VirtualPageNumber(0x80400));
}

#[test]
fn the_kernel_space_maps_each_page_to_itself() {
    let mut frames = pool(0x80300, 0x80400);
    let space = Mapping::new_kernel(&mut frames, &layout()).unwrap();
    for page in 0x80200..0x80400u64 {
        let flags = if page < 0x80204 {
            Flags::text()
        } else if page < 0x80206 {
            Flags::read_only()
        } else {
            Flags::read_write()
        };
        assert_eq!(space.lookup(VirtualPageNumber(page)), bound(page, flags));
    }
    assert_eq!(space.lookup(VirtualPageNumber(0x801ff)), None);
    assert_eq!(space.lookup(VirtualPageNumber(0x80400)), None);
    assert_eq!(space.tables().len(), 3);
    assert_eq!(frames.available(), 0x100 - 3);
}

#[test]
fn the_boot_stack_is_left_out_where_the_image_ends_behind_it() {
    let mut gap = layout();
    gap.kernel_end = VirtualAddress(0x8021_2000);
    let mut frames = pool(0x80300, 0x80400);
    let space = Mapping::new_kernel(&mut frames, &gap).unwrap();
    assert_eq!(space.segments().len(), 5);
    assert_eq!(space.segments()[3].page_range(), range(0x80209, 0x80210));
    assert_eq!(space.segments()[4].page_range(), range(0x80212, 0x80400));
    assert_eq!(space.lookup(VirtualPageNumber(0x8020f)), bound(0x8020f, Flags::read_write()));
    assert_eq!(space.lookup(VirtualPageNumber(0x80210)), None);
    assert_eq!(space.lookup(VirtualPageNumber(0x80211)), None);
    assert_eq!(space.lookup(VirtualPageNumber(0x80212)), bound(0x80212, Flags::read_write()));
}

#[test]
fn the_order_of_the_boundaries_is_not_checked() {
    let mut odd = layout();
    odd.rodata_start = VirtualAddress(0x8020_0000);
    odd.text_start = VirtualAddress(0x8020_4000);
    let mut frames = pool(0x80300, 0x80400);
    let space = Mapping::new_kernel(&mut frames, &odd).unwrap();
    assert_eq!(space.segments().len(), 5);
    assert_eq!(space.segments()[0].page_range(), range(0x80204, 0x80200));
    assert_eq!(space.segments()[1].page_range(), range(0x80200, 0x80206));
    assert_eq!(space.lookup(VirtualPageNumber(0x80200)), bound(0x80200, Flags::read_only()));
}

#[test]
fn the_kernel_space_needs_a_frame_for_the_root() {
    let mut frames = pool(0x80300, 0x80300);
    assert!(matches!(
        Mapping::new_kernel(&mut frames, &layout()),
        Err(MapError::ResourceExhausted)
    ));
}

#[test]
fn a_failed_kernel_space_gives_every_frame_back() {
    let mut frames = pool(0x80300, 0x80302);
    assert!(matches!(
        Mapping::new_kernel(&mut frames, &layout()),
        Err(MapError::ResourceExhausted)
    ));
    assert_eq!(frames.available(), 2);
    let mut frames = pool(0x80300, 0x80303);
    assert!(Mapping::new_kernel(&mut frames, &layout()).is_ok());
    assert_eq!(frames.available(), 0);
}

#[test]
fn overlapping_kernel_ranges_are_a_conflict() {
    let mut odd = layout();
    odd.kernel_end = VirtualAddress(0x8020_8000);
    let mut frames = pool(0x80300, 0x80400);
    assert!(matches!(
        Mapping::new_kernel(&mut frames, &odd),
        Err(MapError::MappingConflict)
    ));
    assert_eq!(frames.available(), 0x100);
}

#[test]
fn the_register_value_holds_the_mode_and_the_root() {
    assert_eq!(SV39_MODE, 8);
    assert_eq!(satp_for(PhysicalPageNumber(0)), 0x8000_0000_0000_0000);
    assert_eq!(satp_for(PhysicalPageNumber(0x80300)), 0x8000_0000_0008_0300);
    assert_eq!(satp_for(PhysicalPageNumber(0xfff_ffff_ffff)), 0x8000_0fff_ffff_ffff);
    let mut frames = pool(0x80300, 0x80400);
    let space = Mapping::new(&mut frames).unwrap();
    assert_eq!(space.satp(), (8u64 << 60) | 0x80300);
}

#[test]
fn activation_writes_only_when_the_register_differs() {
    let mut frames = pool(0x80300, 0x80400);
    let space = Mapping::new(&mut frames).unwrap();
    let value = (8u64 << 60) | 0x80300;
    assert_eq!(space.activation(0), Some(value));
    assert_eq!(space.activation(value), None);
    assert_eq!(space.activation(value + 1), Some(value));
    assert_eq!(space.activation(0x80300), Some(value));
}

#[test]
fn a_second_activation_writes_nothing() {
    let mut frames = pool(0x80300, 0x80400);
    let space = Mapping::new_kernel(&mut frames, &layout()).unwrap();
    let mut register: u64 = 0;
    let mut writes = 0;
    for _ in 0..2 {
        if let Some(value) = space.activation(register) {
            register = value;
            writes += 1;
        }
    }
    assert_eq!(writes, 1);
    assert_eq!(register, space.satp());
}

#[test]
fn mapping_does_not_change_what_activation_writes() {
    let mut frames = pool(0x80300, 0x80400);
    let mut space = Mapping::new(&mut frames).unwrap();
    let before = space.satp();
    space.map_linear(&mut frames, range(0, 2000), Flags::read_write()).unwrap();
    assert_eq!(space.satp(), before);
    assert_eq!(space.activation(before), None);
}

#[test]
fn two_spaces_have_different_register_values() {
    let mut frames = pool(0x80300, 0x80400);
    let one = Mapping::new(&mut frames).unwrap();
    let other = Mapping::new(&mut frames).unwrap();
    assert_ne!(one.satp(), other.satp());
    assert_eq!(other.activation(one.satp()), Some(other.satp()));
    assert_eq!(one.activation(other.satp()), Some(one.satp()));
}

#[test]
fn activate_asks_for_nothing_or_for_the_value_of_the_space() {
    let mut frames = pool(0x80300, 0x80400);
    let space = Mapping::new(&mut frames).unwrap();
    let action = space.activate();
    assert!(action.is_none() || action == Some(space.satp()));
}

#[test]
fn activate_asks_for_the_write_where_the_register_cannot_be_read() {
    let mut frames = pool(0x80300, 0x80400);
    let space = Mapping::new(&mut frames).unwrap();
    if riscv::register::satp::try_read().is_err() {
        assert_eq!(space.activate(), Some(space.satp()));
        assert_eq!(space.activate(), Some(space.satp()));
    }
}

#[test]
fn an_unread_register_counts_as_unknown() {
    let mut frames = pool(0x80300, 0x80400);
    let space = Mapping::new(&mut frames).unwrap();
    let value = (8u64 << 60) | 0x80300;
    assert_eq!(space.activation_after(None), Some(value));
    assert_eq!(space.activation_after(Some(0)), Some(value));
    assert_eq!(space.activation_after(Some(value)), None);
    assert_eq!(space.activation_after(Some(value - 1)), Some(value));
}
