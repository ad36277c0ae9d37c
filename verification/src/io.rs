//! Alignment of byte streams: how far a stream that has moved `offset`
//! bytes must skip, or pad, to reach a multiple of an alignment.

use crate::miriad::header::pad_amount;
use vstd::prelude::*;

verus! {

/// The largest alignment that a stream supports.
pub const MAX_ALIGNMENT: usize = 64;

/// How many bytes bring a stream at `offset` to a multiple of `alignment`,
/// which is at least 1 and at most 64: none when it is already aligned.
pub fn align_padding(offset: u64, alignment: usize) -> (n: usize)
    requires
        1 <= alignment <= MAX_ALIGNMENT,
    ensures
        n == pad_amount(offset as int, alignment as int),
        n < alignment,
        (offset + n) % (alignment as int) == 0,
{
    proof {
        law_padding_aligns(offset as int, alignment as int);
    }
    let excess = (offset % (alignment as u64)) as usize;
    if excess == 0 {
        0
    } else {
        alignment - excess
    }
}

/// Padding by `pad_amount` reaches a multiple of the alignment, and once
/// there, aligning again pads nothing.
pub proof fn law_padding_aligns(offset: int, a: int)
    requires
        0 <= offset,
        1 <= a,
    ensures
        0 <= pad_amount(offset, a) < a,
        (offset + pad_amount(offset, a)) % a == 0,
        pad_amount(offset + pad_amount(offset, a), a) == 0,
{
    let r = offset % a;
    let q = offset / a;
    assert(offset == a * q + r && 0 <= r < a) by (nonlinear_arith)
        requires
            r == offset % a,
            q == offset / a,
            a >= 1,
    ;
    if r != 0 {
        let t = offset + (a - r);
        assert(t == a * (q + 1)) by (nonlinear_arith)
            requires
                offset == a * q + r,
                t == offset + (a - r),
        ;
        assert(t % a == 0) by (nonlinear_arith)
            requires
                t == a * (q + 1),
                a >= 1,
        ;
    }
}

} // verus!
