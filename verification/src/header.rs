//! A block of the arena: a header followed by the payload it describes.

use crate::layout::{align_up, round_up, MAX_ALIGN};
use vstd::layout::{layout_for_type_is_valid, size_of};
use vstd::prelude::*;

verus! {

/// The collector's bookkeeping for one allocation.
pub struct GcHeader {
    /// The slot of the next block in the allocation list, if there is one.
    pub next: Option<usize>,
    /// The size of the payload in bytes.
    pub value_size: usize,
    /// Set while a collection has found the block reachable.
    pub marked: bool,
}

impl GcHeader {
    /// The distance in bytes from the start of a block to its payload: the
    /// size of the header, rounded up so that a payload of any alignment up
    /// to [`MAX_ALIGN`] can follow it.
    pub fn value_offset() -> (off: usize)
        ensures
            off == round_up(size_of::<GcHeader>(), MAX_ALIGN as nat),
            off % MAX_ALIGN == 0,
            size_of::<GcHeader>() <= off < size_of::<GcHeader>() + MAX_ALIGN,
            off <= isize::MAX + 1,
    {
        layout_for_type_is_valid::<GcHeader>();
        let hs: usize = core::mem::size_of::<GcHeader>();
        align_up(hs, MAX_ALIGN)
    }

    /// The size in bytes of a block whose payload is a `T`.
    pub fn total_size<T>() -> (size: usize)
        ensures
            size == round_up(size_of::<GcHeader>(), MAX_ALIGN as nat) + size_of::<T>(),
    {
        layout_for_type_is_valid::<T>();
        GcHeader::value_offset() + core::mem::size_of::<T>()
    }
}

/// One allocation: the header and, right behind it, the payload.
pub(crate) struct Block<T> {
    pub(crate) header: GcHeader,
    pub(crate) value: T,
}

impl<T> Block<T> {
    /// A block for `value` that is unmarked and not yet linked to another.
    pub(crate) fn new(value: T) -> (block: Block<T>)
        ensures
            block.header.next is None,
            block.header.value_size == size_of::<T>(),
            !block.header.marked,
            block.value == value,
    {
        Block {
            header: GcHeader { next: None, value_size: core::mem::size_of::<T>(), marked: false },
            value,
        }
    }
}

} // verus!
