//! A growable in-memory cursor over a byte buffer. Moving the cursor past the
//! end zero-extends the buffer, and writes overwrite in place, extending the
//! buffer where needed.

use vstd::prelude::*;
use vstd::bytes::*;
use crate::le::{le_u16_at, le_u32_at, le_u64_at};

verus! {

broadcast use vstd::seq_lib::group_seq_properties;

/// `n` zero bytes.
pub open spec fn zeros(n: nat) -> Seq<u8> {
    Seq::new(n, |_i: int| 0u8)
}

/// `data` zero-extended to at least `len` bytes.
pub open spec fn extended(data: Seq<u8>, len: nat) -> Seq<u8> {
    if len > data.len() {
        data + zeros((len - data.len()) as nat)
    } else {
        data
    }
}

/// `data` with `bytes` written at `at` (after zero-extending to `at + bytes.len()`).
pub open spec fn overwritten(data: Seq<u8>, at: nat, bytes: Seq<u8>) -> Seq<u8> {
    let ext = extended(data, at + bytes.len());
    ext.subrange(0, at as int) + bytes + ext.subrange((at + bytes.len()) as int, ext.len() as int)
}

/// `data` with `n` zero bytes inserted at `at`.
pub open spec fn inserted_zeros(data: Seq<u8>, at: nat, n: nat) -> Seq<u8> {
    data.subrange(0, at as int) + zeros(n) + data.subrange(at as int, data.len() as int)
}

/// `data` with up to `n` bytes removed starting at `at` (clamped to the end).
pub open spec fn removed(data: Seq<u8>, at: nat, n: nat) -> Seq<u8> {
    let end = if at + n <= data.len() { at + n } else { data.len() as nat };
    data.subrange(0, at as int) + data.subrange(end as int, data.len() as int)
}

/// Bytes written at an offset are read back unchanged from that offset, and
/// the buffer then spans at least to their end.
pub proof fn law_written_bytes_read_back(data: Seq<u8>, at: nat, bytes: Seq<u8>)
    ensures
        overwritten(data, at, bytes).subrange(at as int, (at + bytes.len()) as int) == bytes,
        overwritten(data, at, bytes).len() == if at + bytes.len() > data.len() {
            (at + bytes.len()) as int
        } else {
            data.len() as int
        },
{
    let r = overwritten(data, at, bytes);
    assert(r.subrange(at as int, (at + bytes.len()) as int) =~= bytes);
}

/// Writing leaves every byte outside the written span as it was (bytes past
/// the old end read as zero).
pub proof fn law_write_keeps_other_bytes(data: Seq<u8>, at: nat, bytes: Seq<u8>, k: int)
    requires
        0 <= k < data.len(),
        k < at || k >= at + bytes.len(),
    ensures
        overwritten(data, at, bytes)[k] == data[k],
{
}

/// Deleting the zero bytes that were just inserted at the same offset gives
/// the original buffer back.
pub proof fn law_delete_undoes_insert(data: Seq<u8>, at: nat, n: nat)
    requires
        at <= data.len(),
    ensures
        removed(inserted_zeros(data, at, n), at, n) == data,
{
    let ins = inserted_zeros(data, at, n);
    assert(removed(ins, at, n) =~= data);
}

/// A byte buffer plus a cursor that always lies within (or at the end of) it.
pub struct MemoryStream {
    data: Vec<u8>,
    location: usize,
}

impl MemoryStream {

    /// The buffer's current bytes.
    pub closed spec fn contents(&self) -> Seq<u8> {
        self.data@
    }

    /// The cursor's current offset.
    pub closed spec fn position(&self) -> nat {
        self.location as nat
    }

    /// The cursor lies within the buffer or at its end. Every constructor
    /// establishes this and every method keeps it.
    pub open spec fn wf(&self) -> bool {
        &&& self.position() <= self.contents().len()
        &&& self.contents().len() <= usize::MAX
    }

    pub fn new(data: Vec<u8>) -> (s: Self)
        ensures
            s.wf(),
            s.contents() == data@,
            s.position() == 0,
    {
        let _n = data.len();
        MemoryStream { data, location: 0 }
    }

    pub fn into_data(self) -> (data: Vec<u8>)
        ensures
            data@ == self.contents(),
    {
        self.data
    }

    pub fn data(&self) -> (data: &[u8])
        ensures
            data@ == self.contents(),
    {
        self.data.as_slice()
    }

    pub fn len(&self) -> (n: usize)
        ensures
            n == self.contents().len(),
    {
        self.data.len()
    }

    pub fn is_empty(&self) -> (b: bool)
        ensures
            b == (self.contents().len() == 0),
    {
        self.data.len() == 0
    }

    pub fn tell(&self) -> (loc: usize)
        requires
            self.wf(),
        ensures
            loc == self.position(),
            loc <= self.contents().len(),
    {
        self.location
    }

    /// Zero-extends the buffer to at least `location` bytes.
    fn extend_to(&mut self, location: usize)
        requires
            old(self).wf(),
        ensures
            final(self).wf(),
            final(self).contents() == extended(old(self).contents(), location as nat),
            final(self).position() == old(self).position(),
    {
        if location > self.data.len() {
            let ghost start = self.data@;
            let ghost loc0 = self.location;
            while self.data.len() < location
                invariant
                    self.data.len() <= location,
                    start.len() <= self.data.len(),
                    self.data@ == start + zeros((self.data.len() - start.len()) as nat),
                    self.location == loc0,
                    loc0 <= start.len(),
                decreases location - self.data.len(),
            {
                self.data.push(0);
                assert(self.data@ =~= start + zeros((self.data.len() - start.len()) as nat));
            }
        }
    }

    /// Moves the cursor to `location`, zero-extending the buffer when it lies
    /// past the end.
    pub fn seek(&mut self, location: usize)
        requires
            old(self).wf(),
        ensures
            final(self).wf(),
            final(self).contents() == extended(old(self).contents(), location as nat),
            final(self).position() == location,
    {
        self.extend_to(location);
        self.location = location;
    }

    /// Moves the cursor by `offset`, clamping at 0 and zero-extending past the
    /// end.
    pub fn advance(&mut self, offset: i64)
        requires
            old(self).wf(),
            old(self).position() <= i64::MAX,
            old(self).position() + offset <= i64::MAX,
            old(self).position() + offset <= usize::MAX,
        ensures
            final(self).wf(),
            ({
                let target = if old(self).position() + offset < 0 {
                    0
                } else {
                    (old(self).position() + offset) as nat
                };
                &&& final(self).position() == target
                &&& final(self).contents() == extended(old(self).contents(), target)
            }),
    {
        let new = self.location as i64 + offset;
        let target: usize = if new < 0 { 0 } else { new as usize };
        self.seek(target);
    }

    /// Reads `length` bytes at the cursor and advances past them.
    pub fn read(&mut self, length: usize) -> (bytes: &[u8])
        requires
            old(self).wf(),
            old(self).position() + length <= old(self).contents().len(),
        ensures
            final(self).wf(),
            bytes@ == old(self).contents().subrange(
                old(self).position() as int,
                old(self).position() + length,
            ),
            final(self).contents() == old(self).contents(),
            final(self).position() == old(self).position() + length,
    {
        let start = self.location;
        let end = self.location + length;
        self.location = end;
        vstd::slice::slice_subrange(self.data.as_slice(), start, end)
    }

    pub fn read_u8(&mut self) -> (v: u8)
        requires
            old(self).wf(),
            old(self).position() + 1 <= old(self).contents().len(),
        ensures
            final(self).wf(),
            v == old(self).contents()[old(self).position() as int],
            final(self).contents() == old(self).contents(),
            final(self).position() == old(self).position() + 1,
    {
        let b = self.read(1);
        b[0]
    }

    pub fn read_i8(&mut self) -> (v: i8)
        requires
            old(self).wf(),
            old(self).position() + 1 <= old(self).contents().len(),
        ensures
            final(self).wf(),
            v == old(self).contents()[old(self).position() as int] as i8,
            final(self).contents() == old(self).contents(),
            final(self).position() == old(self).position() + 1,
    {
        let b = self.read(1);
        b[0] as i8
    }

    pub fn read_u16(&mut self) -> (v: u16)
        requires
            old(self).wf(),
            old(self).position() + 2 <= old(self).contents().len(),
        ensures
            final(self).wf(),
            v == le_u16_at(old(self).contents(), old(self).position() as int),
            final(self).contents() == old(self).contents(),
            final(self).position() == old(self).position() + 2,
    {
        let b = self.read(2);
        u16_from_le_bytes(b)
    }

    pub fn read_i16(&mut self) -> (v: i16)
        requires
            old(self).wf(),
            old(self).position() + 2 <= old(self).contents().len(),
        ensures
            final(self).wf(),
            v == le_u16_at(old(self).contents(), old(self).position() as int) as i16,
            final(self).contents() == old(self).contents(),
            final(self).position() == old(self).position() + 2,
    {
        let b = self.read(2);
        u16_from_le_bytes(b) as i16
    }

    pub fn read_u32(&mut self) -> (v: u32)
        requires
            old(self).wf(),
            old(self).position() + 4 <= old(self).contents().len(),
        ensures
            final(self).wf(),
            v == le_u32_at(old(self).contents(), old(self).position() as int),
            final(self).contents() == old(self).contents(),
            final(self).position() == old(self).position() + 4,
    {
        let b = self.read(4);
        u32_from_le_bytes(b)
    }

    pub fn read_i32(&mut self) -> (v: i32)
        requires
            old(self).wf(),
            old(self).position() + 4 <= old(self).contents().len(),
        ensures
            final(self).wf(),
            v == le_u32_at(old(self).contents(), old(self).position() as int) as i32,
            final(self).contents() == old(self).contents(),
            final(self).position() == old(self).position() + 4,
    {
        let b = self.read(4);
        u32_from_le_bytes(b) as i32
    }

    pub fn read_u64(&mut self) -> (v: u64)
        requires
            old(self).wf(),
            old(self).position() + 8 <= old(self).contents().len(),
        ensures
            final(self).wf(),
            v == le_u64_at(old(self).contents(), old(self).position() as int),
            final(self).contents() == old(self).contents(),
            final(self).position() == old(self).position() + 8,
    {
        let b = self.read(8);
        u64_from_le_bytes(b)
    }

    pub fn read_i64(&mut self) -> (v: i64)
        requires
            old(self).wf(),
            old(self).position() + 8 <= old(self).contents().len(),
        ensures
            final(self).wf(),
            v == le_u64_at(old(self).contents(), old(self).position() as int) as i64,
            final(self).contents() == old(self).contents(),
            final(self).position() == old(self).position() + 8,
    {
        let b = self.read(8);
        u64_from_le_bytes(b) as i64
    }

    /// Overwrites `bytes` at the cursor, zero-extending the buffer as
    /// needed, and advances past them.
    pub fn write(&mut self, bytes: &[u8])
        requires
            old(self).wf(),
            old(self).position() + bytes@.len() <= usize::MAX,
        ensures
            final(self).wf(),
            final(self).contents() == overwritten(old(self).contents(), old(self).position(), bytes@),
            final(self).position() == old(self).position() + bytes@.len(),
    {
        let start = self.location;
        let end = self.location + bytes.len();
        self.extend_to(end);
        let ghost ext = self.data@;
        let mut i: usize = 0;
        while i < bytes.len()
            invariant
                start + bytes@.len() == end,
                ext.len() >= end,
                self.data@.len() == ext.len(),
                self.location == start,
                0 <= i <= bytes@.len(),
                forall|k: int| 0 <= k < start ==> self.data@[k] == ext[k],
                forall|k: int| start <= k < start + i ==> self.data@[k] == bytes@[k - start],
                forall|k: int| start + i <= k < ext.len() ==> self.data@[k] == ext[k],
            decreases bytes@.len() - i,
        {
            self.data.set(start + i, bytes[i]);
            i = i + 1;
        }
        assert(self.data@ =~= overwritten(old(self).contents(), old(self).position(), bytes@));
        self.location = end;
    }

    pub fn write_u32(&mut self, value: u32)
        requires
            old(self).wf(),
            old(self).position() + 4 <= usize::MAX,
        ensures
            final(self).wf(),
            final(self).contents() == overwritten(
                old(self).contents(),
                old(self).position(),
                spec_u32_to_le_bytes(value),
            ),
            final(self).position() == old(self).position() + 4,
    {
        let b = u32_to_le_bytes(value);
        self.write(b.as_slice());
    }

    pub fn write_u64(&mut self, value: u64)
        requires
            old(self).wf(),
            old(self).position() + 8 <= usize::MAX,
        ensures
            final(self).wf(),
            final(self).contents() == overwritten(
                old(self).contents(),
                old(self).position(),
                spec_u64_to_le_bytes(value),
            ),
            final(self).position() == old(self).position() + 8,
    {
        proof {
            lemma_auto_spec_u64_to_from_le_bytes();
        }
        let b = u64_to_le_bytes(value);
        self.write(b.as_slice());
    }

    /// Inserts `length` zero bytes at the cursor without moving it.
    pub fn insert(&mut self, length: usize)
        requires
            old(self).wf(),
            old(self).contents().len() + length <= usize::MAX,
        ensures
            final(self).wf(),
            final(self).contents() == inserted_zeros(old(self).contents(), old(self).position(), length as nat),
            final(self).position() == old(self).position(),
    {
        let at = self.location;
        let mut out: Vec<u8> = Vec::new();
        let mut i: usize = 0;
        while i < at
            invariant
                at <= self.data@.len(),
                0 <= i <= at,
                out@ == self.data@.subrange(0, i as int),
            decreases at - i,
        {
            out.push(self.data[i]);
            i = i + 1;
            assert(out@ =~= self.data@.subrange(0, i as int));
        }
        let mut j: usize = 0;
        while j < length
            invariant
                at <= self.data@.len(),
                0 <= j <= length,
                out@ == self.data@.subrange(0, at as int) + zeros(j as nat),
            decreases length - j,
        {
            out.push(0);
            j = j + 1;
            assert(out@ =~= self.data@.subrange(0, at as int) + zeros(j as nat));
        }
        let mut k: usize = at;
        while k < self.data.len()
            invariant
                at <= k <= self.data@.len(),
                self.data@.len() + length <= usize::MAX,
                out@ == self.data@.subrange(0, at as int) + zeros(length as nat)
                    + self.data@.subrange(at as int, k as int),
            decreases self.data@.len() - k,
        {
            out.push(self.data[k]);
            k = k + 1;
            assert(out@ =~= self.data@.subrange(0, at as int) + zeros(length as nat)
                + self.data@.subrange(at as int, k as int));
        }
        self.data = out;
    }

    /// Removes up to `length` bytes at the cursor (clamped to the end of the
    /// buffer) without moving it.
    pub fn delete(&mut self, length: usize)
        requires
            old(self).wf(),
            old(self).position() + length <= usize::MAX,
        ensures
            final(self).wf(),
            final(self).contents() == removed(old(self).contents(), old(self).position(), length as nat),
            final(self).position() == old(self).position(),
    {
        let at = self.location;
        let end = if at + length <= self.data.len() { at + length } else { self.data.len() };
        let mut out: Vec<u8> = Vec::new();
        let mut i: usize = 0;
        while i < at
            invariant
                at <= self.data@.len(),
                0 <= i <= at,
                out@ == self.data@.subrange(0, i as int),
            decreases at - i,
        {
            out.push(self.data[i]);
            i = i + 1;
            assert(out@ =~= self.data@.subrange(0, i as int));
        }
        let mut k: usize = end;
        while k < self.data.len()
            invariant
                at <= end <= k <= self.data@.len(),
                out@ == self.data@.subrange(0, at as int) + self.data@.subrange(end as int, k as int),
            decreases self.data@.len() - k,
        {
            out.push(self.data[k]);
            k = k + 1;
            assert(out@ =~= self.data@.subrange(0, at as int) + self.data@.subrange(end as int, k as int));
        }
        self.data = out;
    }
}

} // verus!
