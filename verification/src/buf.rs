//! Growing and patching byte buffers.

use vstd::prelude::*;
use vstd::bytes::*;
use crate::memstream::{overwritten, zeros, extended};

verus! {

/// `n` rounded up to a multiple of 16.
pub open spec fn align16(n: int) -> int {
    ((n + 15) / 16) * 16
}

/// `d` followed by the zero bytes that bring its length to a multiple of 16.
pub open spec fn padded16(d: Seq<u8>) -> Seq<u8> {
    d + zeros((align16(d.len() as int) - d.len()) as nat)
}

/// Rounds `n` up to a multiple of 16.
pub fn align16_exec(n: usize) -> (r: usize)
    requires
        n + 15 <= usize::MAX,
    ensures
        r == align16(n as int),
        n <= r <= n + 15,
{
    let r = (n + 15) / 16 * 16;
    assert(n <= r <= n + 15) by (nonlinear_arith)
        requires
            r == ((n + 15) / 16) * 16,
    ;
    r
}

/// Whether `a` and `b` hold the same bytes.
pub fn bytes_eq(a: &[u8], b: &[u8]) -> (r: bool)
    ensures
        r == (a@ == b@),
{
    if a.len() != b.len() {
        return false;
    }
    let mut i: usize = 0;
    while i < a.len()
        invariant
            0 <= i <= a@.len(),
            a@.len() == b@.len(),
            a@.take(i as int) == b@.take(i as int),
        decreases a@.len() - i,
    {
        if a[i] != b[i] {
            assert(a@[i as int] != b@[i as int]);
            return false;
        }
        assert(a@.take(i + 1) =~= a@.take(i as int).push(a@[i as int]));
        assert(b@.take(i + 1) =~= b@.take(i as int).push(b@[i as int]));
        i = i + 1;
    }
    assert(a@ =~= a@.take(a@.len() as int));
    assert(b@ =~= b@.take(b@.len() as int));
    true
}

/// A fresh buffer holding the bytes of `b`.
pub fn copy_bytes(b: &[u8]) -> (v: Vec<u8>)
    ensures
        v@ == b@,
{
    let mut v: Vec<u8> = Vec::new();
    let mut i: usize = 0;
    while i < b.len()
        invariant
            0 <= i <= b@.len(),
            v@ == b@.take(i as int),
        decreases b@.len() - i,
    {
        v.push(b[i]);
        i = i + 1;
        assert(v@ =~= b@.take(i as int));
    }
    assert(b@.take(b@.len() as int) =~= b@);
    v
}

/// Appends the bytes of `b` to `v`.
pub fn extend_bytes(v: &mut Vec<u8>, b: &[u8])
    ensures
        final(v)@ == old(v)@ + b@,
{
    let mut i: usize = 0;
    while i < b.len()
        invariant
            0 <= i <= b@.len(),
            v@ == old(v)@ + b@.take(i as int),
        decreases b@.len() - i,
    {
        v.push(b[i]);
        i = i + 1;
        assert(v@ =~= old(v)@ + b@.take(i as int));
    }
    assert(b@.take(b@.len() as int) =~= b@);
}

/// Appends `n` zero bytes to `v`.
pub fn extend_zeros(v: &mut Vec<u8>, n: usize)
    ensures
        final(v)@ == old(v)@ + zeros(n as nat),
{
    let mut i: usize = 0;
    while i < n
        invariant
            0 <= i <= n,
            v@ == old(v)@ + zeros(i as nat),
        decreases n - i,
    {
        v.push(0u8);
        i = i + 1;
        assert(v@ =~= old(v)@ + zeros(i as nat));
    }
}

/// Appends the little-endian bytes of `x`.
pub fn extend_u32(v: &mut Vec<u8>, x: u32)
    ensures
        final(v)@ == old(v)@ + spec_u32_to_le_bytes(x),
{
    let b = u32_to_le_bytes(x);
    extend_bytes(v, b.as_slice());
}

/// Appends the little-endian bytes of `x`.
pub fn extend_u64(v: &mut Vec<u8>, x: u64)
    ensures
        final(v)@ == old(v)@ + spec_u64_to_le_bytes(x),
{
    let b = u64_to_le_bytes(x);
    extend_bytes(v, b.as_slice());
}

/// Writes the little-endian bytes of `x` at `at`, inside the buffer.
pub fn put_u64(v: &mut Vec<u8>, at: usize, x: u64)
    requires
        at + 8 <= old(v)@.len(),
    ensures
        final(v)@ == overwritten(old(v)@, at as nat, spec_u64_to_le_bytes(x)),
        final(v)@.len() == old(v)@.len(),
{
    proof {
        lemma_auto_spec_u64_to_from_le_bytes();
    }
    let b = u64_to_le_bytes(x);
    let ghost ext = extended(old(v)@, (at + 8) as nat);
    assert(ext == old(v)@);
    let n = v.len();
    let mut k: usize = 0;
    while k < 8
        invariant
            0 <= k <= 8,
            at + 8 <= n,
            n == old(v)@.len(),
            b@ == spec_u64_to_le_bytes(x),
            b@.len() == 8,
            v@.len() == old(v)@.len(),
            forall|j: int| 0 <= j < v@.len() ==> #[trigger] v@[j] == (if at <= j < at + k { b@[j - at] } else { old(v)@[j] }),
        decreases 8 - k,
    {
        v.set(at + k, b[k]);
        k = k + 1;
    }
    assert(v@ =~= overwritten(old(v)@, at as nat, spec_u64_to_le_bytes(x)));
}

} // verus!
