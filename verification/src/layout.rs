//! Block layout arithmetic: where a payload starts behind its header.

use vstd::prelude::*;

verus! {

/// The largest alignment any payload may ask for, in bytes.
pub const MAX_ALIGN: usize = 8;

/// `size` rounded up to the next multiple of `align`.
pub open spec fn round_up(size: nat, align: nat) -> nat {
    size + ((align - size % align) % (align as int)) as nat
}

/// Rounds `size` up to the next multiple of `align`.
pub fn align_up(size: usize, align: usize) -> (off: usize)
    requires
        align > 0,
        round_up(size as nat, align as nat) <= usize::MAX,
    ensures
        off == round_up(size as nat, align as nat),
        off % align == 0,
        size <= off < size + align,
{
    let rem: usize = size % align;
    let pad: usize = (align - rem) % align;
    proof {
        let gap = if rem == 0 {
            0
        } else {
            align - rem
        };
        assert(pad == gap) by (nonlinear_arith)
            requires
                0 <= rem < align,
                pad == (align - rem) % (align as int),
                gap == if rem == 0 {
                    0
                } else {
                    align - rem
                },
        ;
        assert((size + gap) % (align as int) == 0) by (nonlinear_arith)
            requires
                align > 0,
                rem == size % align,
                gap == if rem == 0 {
                    0
                } else {
                    align - rem
                },
        ;
    }
    size + pad
}

} // verus!
