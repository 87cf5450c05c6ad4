//! Little-endian integer fields inside byte buffers.

use vstd::prelude::*;
use vstd::bytes::*;

verus! {

/// The little-endian `u16` stored at `off` in `s`.
pub open spec fn le_u16_at(s: Seq<u8>, off: int) -> u16 {
    spec_u16_from_le_bytes(s.subrange(off, off + 2))
}

/// The little-endian `u32` stored at `off` in `s`.
pub open spec fn le_u32_at(s: Seq<u8>, off: int) -> u32 {
    spec_u32_from_le_bytes(s.subrange(off, off + 4))
}

/// The little-endian `u64` stored at `off` in `s`.
pub open spec fn le_u64_at(s: Seq<u8>, off: int) -> u64 {
    spec_u64_from_le_bytes(s.subrange(off, off + 8))
}

/// The `u32` field at `off`, when the buffer holds all four of its bytes.
pub open spec fn opt_u32_at(s: Seq<u8>, off: int) -> Option<u32> {
    if 0 <= off && off + 4 <= s.len() {
        Some(le_u32_at(s, off))
    } else {
        None
    }
}

/// The `u64` field at `off`, when the buffer holds all eight of its bytes.
pub open spec fn opt_u64_at(s: Seq<u8>, off: int) -> Option<u64> {
    if 0 <= off && off + 8 <= s.len() {
        Some(le_u64_at(s, off))
    } else {
        None
    }
}

/// Reads the little-endian `u32` at `off`, or `None` when it would run past
/// the end of `buf` (or its end offset does not fit a `usize`).
pub fn u32_at(buf: &[u8], off: usize) -> (r: Option<u32>)
    ensures
        r == opt_u32_at(buf@, off as int),
{
    if off <= buf.len() && buf.len() - off >= 4 {
        let b = vstd::slice::slice_subrange(buf, off, off + 4);
        Some(u32_from_le_bytes(b))
    } else {
        None
    }
}

/// Reads the little-endian `u64` at `off`, or `None` when it would run past
/// the end of `buf`.
pub fn u64_at(buf: &[u8], off: usize) -> (r: Option<u64>)
    ensures
        r == opt_u64_at(buf@, off as int),
{
    if off <= buf.len() && buf.len() - off >= 8 {
        let b = vstd::slice::slice_subrange(buf, off, off + 8);
        Some(u64_from_le_bytes(b))
    } else {
        None
    }
}

/// Reads the little-endian `u32` at `off`, which the buffer holds.
pub fn u32_in(buf: &[u8], off: usize) -> (r: u32)
    requires
        off + 4 <= buf@.len(),
    ensures
        r == le_u32_at(buf@, off as int),
{
    let _n = buf.len();
    let b = vstd::slice::slice_subrange(buf, off, off + 4);
    u32_from_le_bytes(b)
}

/// Reads the little-endian `u64` at `off`, which the buffer holds.
pub fn u64_in(buf: &[u8], off: usize) -> (r: u64)
    requires
        off + 8 <= buf@.len(),
    ensures
        r == le_u64_at(buf@, off as int),
{
    let _n = buf.len();
    let b = vstd::slice::slice_subrange(buf, off, off + 8);
    u64_from_le_bytes(b)
}

} // verus!
