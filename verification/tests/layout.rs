use tracing_gc::header::GcHeader;
use tracing_gc::layout::{align_up, MAX_ALIGN};

#[test]
fn max_align_is_eight() {
    assert_eq!(MAX_ALIGN, 8);
}

#[test]
fn align_up_leaves_multiples_alone() {
    assert_eq!(align_up(0, 8), 0);
    assert_eq!(align_up(8, 8), 8);
    assert_eq!(align_up(16, 8), 16);
    assert_eq!(align_up(24, 8), 24);
    assert_eq!(align_up(4096, 8), 4096);
}

#[test]
fn align_up_rounds_to_the_next_multiple() {
    assert_eq!(align_up(1, 8), 8);
    assert_eq!(align_up(7, 8), 8);
    assert_eq!(align_up(9, 8), 16);
    assert_eq!(align_up(17, 8), 24);
    assert_eq!(align_up(23, 8), 24);
    assert_eq!(align_up(25, 8), 32);
}

#[test]
fn align_up_with_other_alignments() {
    assert_eq!(align_up(5, 1), 5);
    assert_eq!(align_up(5, 2), 6);
    assert_eq!(align_up(5, 4), 8);
    assert_eq!(align_up(5, 16), 16);
    assert_eq!(align_up(10, 3), 12);
}

#[test]
fn payload_offset_is_aligned_for_every_header_size() {
    for size in 0..=256usize {
        let off = align_up(size, MAX_ALIGN);
        assert_eq!(off % MAX_ALIGN, 0);
        assert!(size <= off);
        assert!(off < size + MAX_ALIGN);
    }
}

#[test]
fn align_up_at_the_top_of_the_range() {
    assert_eq!(align_up(usize::MAX - 8, 8), usize::MAX - 7);
    assert_eq!(align_up(usize::MAX - 15, 8), usize::MAX - 15);
    assert_eq!(align_up(usize::MAX - 7, 8), usize::MAX - 7);
    assert_eq!(align_up(usize::MAX, 1), usize::MAX);
}

#[test]
fn value_offset_is_the_header_size_rounded_up() {
    let hs = std::mem::size_of::<GcHeader>();
    let off = GcHeader::value_offset();
    assert_eq!(off, align_up(hs, MAX_ALIGN));
    assert_eq!(off % MAX_ALIGN, 0);
    assert!(hs <= off && off < hs + MAX_ALIGN);
}

#[test]
fn total_size_adds_the_payload() {
    assert_eq!(GcHeader::total_size::<()>(), GcHeader::value_offset());
    assert_eq!(GcHeader::total_size::<u8>(), GcHeader::value_offset() + 1);
    assert_eq!(GcHeader::total_size::<u64>(), GcHeader::value_offset() + 8);
    assert_eq!(GcHeader::total_size::<[u32; 5]>(), GcHeader::value_offset() + 20);
    assert_eq!(
        GcHeader::total_size::<Vec<u8>>(),
        GcHeader::value_offset() + std::mem::size_of::<Vec<u8>>()
    );
}
