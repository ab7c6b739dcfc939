use vstd::prelude::*;
use crate::error::KernelError;

verus! {

/// Size in bytes of the byte buffer that the kernel is deployed with.
pub const BYTE_CAPACITY: usize = 4194304;

/// Number of per-pixel brightness slots that the kernel is deployed with.
pub const BRIGHTNESS_CAPACITY: usize = 1048576;

/// The half-open range `[offset, offset + count * stride)` lies inside a
/// buffer of `capacity` elements.
pub open spec fn span_fits(offset: int, count: int, stride: int, capacity: int) -> bool {
    offset + count * stride <= capacity
}

/// Validates a region of `count` items of `stride` elements each, starting at
/// `offset`, against a buffer of `capacity` elements, and returns the index
/// one past its end.
pub fn span_end(offset: usize, count: usize, stride: usize, capacity: usize) -> (res: Result<
    usize,
    KernelError,
>)
    ensures
        span_fits(offset as int, count as int, stride as int, capacity as int) ==> res == Ok::<
            usize,
            KernelError,
        >((offset + count * stride) as usize),
        !span_fits(offset as int, count as int, stride as int, capacity as int) ==> res == Err::<
            usize,
            KernelError,
        >(KernelError::OutOfBounds),
{
    if offset > capacity {
        assert(count * stride >= 0) by (nonlinear_arith)
            requires
                count >= 0,
                stride >= 0,
        ;
        return Err(KernelError::OutOfBounds);
    }
    let room: usize = capacity - offset;
    if stride == 0 {
        assert(count * stride == 0) by (nonlinear_arith)
            requires
                stride == 0,
        ;
        return Ok(offset);
    }
    let most: usize = room / stride;
    if count > most {
        assert(count * stride > room) by (nonlinear_arith)
            requires
                count > most,
                most == room / stride,
                stride > 0,
                room >= 0,
        ;
        return Err(KernelError::OutOfBounds);
    }
    assert(count * stride <= room) by (nonlinear_arith)
        requires
            0 <= count <= most,
            most == room / stride,
            stride > 0,
            room >= 0,
    ;
    Ok(offset + count * stride)
}

} // verus!
