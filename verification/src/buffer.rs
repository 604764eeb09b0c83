//! Sample buffers: who owns them, how large they may be, and when they end.
//!
//! A buffer is a plain owned allocation. It is created by one of the
//! `alloc` functions, belongs to whoever holds it, and ends when it is handed
//! to the matching `dealloc` function together with the element count it was
//! created with. Nothing keeps a list of the buffers that are out: a buffer
//! that is never handed back is simply never released.
//!
//! No allocation can be larger than `isize::MAX` bytes. A count whose byte
//! size would exceed that is a defect of the caller, and the functions here
//! leave it out by their preconditions; [`array_bytes`] lets a caller test a
//! count first.

use vstd::prelude::*;

verus! {

/// Size of a 16-bit PCM sample in bytes.
pub const I16_BYTES: usize = 2;

/// Size of a single-precision sample in bytes.
pub const F32_BYTES: usize = 4;

/// Number of bytes taken by `count` elements of `width` bytes each, or `None`
/// when that number exceeds `isize::MAX`, the largest size an allocation can
/// have.
pub open spec fn array_bytes_spec(count: int, width: int) -> Option<int> {
    if count * width <= isize::MAX {
        Some(count * width)
    } else {
        None
    }
}

/// The contents of a fresh buffer: `count` elements, each equal to `value`.
pub open spec fn filled<T>(count: int, value: T) -> Seq<T> {
    Seq::new(count as nat, |i: int| value)
}

/// Computes the byte size of an array of `count` elements of `width` bytes,
/// or `None` when no allocation can be that large.
pub fn array_bytes(count: usize, width: usize) -> (bytes: Option<usize>)
    ensures
        match array_bytes_spec(count as int, width as int) {
            Some(n) => bytes == Some(n as usize),
            None => bytes is None,
        },
{
    match count.checked_mul(width) {
        Some(n) => if n <= isize::MAX as usize {
            Some(n)
        } else {
            None
        },
        None => None,
    }
}

/// Creates a buffer of `len` 16-bit samples, all zero, owned by the caller.
pub fn alloc_i16(len: usize) -> (buffer: Vec<i16>)
    requires
        array_bytes_spec(len as int, I16_BYTES as int) is Some,
    ensures
        buffer@ == filled(len as int, 0i16),
{
    let buffer = vec![0i16; len];
    assert(buffer@ =~= filled(len as int, 0i16));
    buffer
}

/// Ends a buffer of 16-bit samples. `len` is the count it was created with.
pub fn dealloc_i16(buffer: Vec<i16>, len: usize)
    requires
        buffer@.len() == len,
{
}

/// Creates a buffer of `len` single-precision samples, held as bit patterns
/// and all `+0.0`, owned by the caller.
pub fn alloc_f32(len: usize) -> (buffer: Vec<u32>)
    requires
        array_bytes_spec(len as int, F32_BYTES as int) is Some,
    ensures
        buffer@ == filled(len as int, 0u32),
{
    let buffer = vec![0u32; len];
    assert(buffer@ =~= filled(len as int, 0u32));
    buffer
}

/// Ends a buffer of single-precision samples. `len` is the count it was
/// created with.
pub fn dealloc_f32(buffer: Vec<u32>, len: usize)
    requires
        buffer@.len() == len,
{
}

/// Creates a region of `len` bytes, all zero, whose contents mean nothing to
/// this library. The region is the caller's from the moment it is returned:
/// no function here takes it back.
pub fn custom_alloc(len: usize) -> (region: Vec<u8>)
    requires
        array_bytes_spec(len as int, 1) is Some,
    ensures
        region@ == filled(len as int, 0u8),
{
    let region = vec![0u8; len];
    assert(region@ =~= filled(len as int, 0u8));
    region
}

} // verus!
