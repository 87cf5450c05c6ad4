//! The 80-byte per-resource TOC header.

use vstd::prelude::*;
use vstd::bytes::*;
use crate::buf::{extend_u32, extend_u64};
use crate::le::{le_u32_at, le_u64_at};
use crate::memstream::MemoryStream;

verus! {

/// One resource's entry in an archive's TOC.
#[derive(Debug, Clone, Copy, PartialEq, Eq, Structural)]
pub struct TocHeader {
    pub file_id: u64,
    pub type_id: u64,
    pub toc_data_offset: u64,
    pub stream_file_offset: u64,
    pub gpu_resource_offset: u64,
    pub unknown1: u64,
    pub unknown2: u64,
    pub toc_data_size: u32,
    pub stream_size: u32,
    pub gpu_resource_size: u32,
    pub unknown3: u32,
    pub unknown4: u32,
    pub entry_index: u32,
}

impl Default for TocHeader {
    /// All zero, except the two fields that always hold 16 and 64.
    fn default() -> (h: Self)
        ensures
            h == (TocHeader {
                file_id: 0,
                type_id: 0,
                toc_data_offset: 0,
                stream_file_offset: 0,
                gpu_resource_offset: 0,
                unknown1: 0,
                unknown2: 0,
                toc_data_size: 0,
                stream_size: 0,
                gpu_resource_size: 0,
                unknown3: 16,
                unknown4: 64,
                entry_index: 0,
            }),
    {
        TocHeader {
            file_id: 0,
            type_id: 0,
            toc_data_offset: 0,
            stream_file_offset: 0,
            gpu_resource_offset: 0,
            unknown1: 0,
            unknown2: 0,
            toc_data_size: 0,
            stream_size: 0,
            gpu_resource_size: 0,
            unknown3: 16,
            unknown4: 64,
            entry_index: 0,
        }
    }
}

/// The header stored at `p` in `s`.
pub open spec fn toc_header_at(s: Seq<u8>, p: int) -> TocHeader {
    TocHeader {
        file_id: le_u64_at(s, p),
        type_id: le_u64_at(s, p + 8),
        toc_data_offset: le_u64_at(s, p + 16),
        stream_file_offset: le_u64_at(s, p + 24),
        gpu_resource_offset: le_u64_at(s, p + 32),
        unknown1: le_u64_at(s, p + 40),
        unknown2: le_u64_at(s, p + 48),
        toc_data_size: le_u32_at(s, p + 56),
        stream_size: le_u32_at(s, p + 60),
        gpu_resource_size: le_u32_at(s, p + 64),
        unknown3: le_u32_at(s, p + 68),
        unknown4: le_u32_at(s, p + 72),
        entry_index: le_u32_at(s, p + 76),
    }
}

/// The header's 80 bytes: its fields in order, little-endian.
pub open spec fn toc_header_bytes(h: TocHeader) -> Seq<u8> {
    spec_u64_to_le_bytes(h.file_id) + spec_u64_to_le_bytes(h.type_id) + spec_u64_to_le_bytes(h.toc_data_offset)
        + spec_u64_to_le_bytes(h.stream_file_offset) + spec_u64_to_le_bytes(h.gpu_resource_offset)
        + spec_u64_to_le_bytes(h.unknown1) + spec_u64_to_le_bytes(h.unknown2) + spec_u32_to_le_bytes(
        h.toc_data_size,
    ) + spec_u32_to_le_bytes(h.stream_size) + spec_u32_to_le_bytes(h.gpu_resource_size) + spec_u32_to_le_bytes(
        h.unknown3,
    ) + spec_u32_to_le_bytes(h.unknown4) + spec_u32_to_le_bytes(h.entry_index)
}

impl TocHeader {
    /// Reads a header at the stream's cursor.
    pub fn read(stream: &mut MemoryStream) -> (h: TocHeader)
        requires
            old(stream).wf(),
            old(stream).position() + 80 <= old(stream).contents().len(),
        ensures
            final(stream).wf(),
            h == toc_header_at(old(stream).contents(), old(stream).position() as int),
            final(stream).contents() == old(stream).contents(),
            final(stream).position() == old(stream).position() + 80,
    {
        let file_id = stream.read_u64();
        let type_id = stream.read_u64();
        let toc_data_offset = stream.read_u64();
        let stream_file_offset = stream.read_u64();
        let gpu_resource_offset = stream.read_u64();
        let unknown1 = stream.read_u64();
        let unknown2 = stream.read_u64();
        let toc_data_size = stream.read_u32();
        let stream_size = stream.read_u32();
        let gpu_resource_size = stream.read_u32();
        let unknown3 = stream.read_u32();
        let unknown4 = stream.read_u32();
        let entry_index = stream.read_u32();
        TocHeader {
            file_id,
            type_id,
            toc_data_offset,
            stream_file_offset,
            gpu_resource_offset,
            unknown1,
            unknown2,
            toc_data_size,
            stream_size,
            gpu_resource_size,
            unknown3,
            unknown4,
            entry_index,
        }
    }

    /// The header's 80 bytes.
    pub fn get_data(&self) -> (out: Vec<u8>)
        ensures
            out@ == toc_header_bytes(*self),
    {
        let mut out: Vec<u8> = Vec::new();
        extend_u64(&mut out, self.file_id);
        extend_u64(&mut out, self.type_id);
        extend_u64(&mut out, self.toc_data_offset);
        extend_u64(&mut out, self.stream_file_offset);
        extend_u64(&mut out, self.gpu_resource_offset);
        extend_u64(&mut out, self.unknown1);
        extend_u64(&mut out, self.unknown2);
        extend_u32(&mut out, self.toc_data_size);
        extend_u32(&mut out, self.stream_size);
        extend_u32(&mut out, self.gpu_resource_size);
        extend_u32(&mut out, self.unknown3);
        extend_u32(&mut out, self.unknown4);
        extend_u32(&mut out, self.entry_index);
        assert(out@ =~= toc_header_bytes(*self));
        out
    }
}

/// Reading a written header gives the header back.
pub proof fn law_toc_header_roundtrip(h: TocHeader)
    ensures
        toc_header_bytes(h).len() == 80,
        toc_header_at(toc_header_bytes(h), 0) == h,
{
    lemma_auto_spec_u64_to_from_le_bytes();
    lemma_auto_spec_u32_to_from_le_bytes();
    let b = toc_header_bytes(h);
    assert(b.subrange(0, 8) =~= spec_u64_to_le_bytes(h.file_id));
    assert(b.subrange(8, 16) =~= spec_u64_to_le_bytes(h.type_id));
    assert(b.subrange(16, 24) =~= spec_u64_to_le_bytes(h.toc_data_offset));
    assert(b.subrange(24, 32) =~= spec_u64_to_le_bytes(h.stream_file_offset));
    assert(b.subrange(32, 40) =~= spec_u64_to_le_bytes(h.gpu_resource_offset));
    assert(b.subrange(40, 48) =~= spec_u64_to_le_bytes(h.unknown1));
    assert(b.subrange(48, 56) =~= spec_u64_to_le_bytes(h.unknown2));
    assert(b.subrange(56, 60) =~= spec_u32_to_le_bytes(h.toc_data_size));
    assert(b.subrange(60, 64) =~= spec_u32_to_le_bytes(h.stream_size));
    assert(b.subrange(64, 68) =~= spec_u32_to_le_bytes(h.gpu_resource_size));
    assert(b.subrange(68, 72) =~= spec_u32_to_le_bytes(h.unknown3));
    assert(b.subrange(72, 76) =~= spec_u32_to_le_bytes(h.unknown4));
    assert(b.subrange(76, 80) =~= spec_u32_to_le_bytes(h.entry_index));
}

/// Writing a header that was read gives back the 80 bytes it was read from.
pub proof fn law_toc_header_bytes_of_read(s: Seq<u8>, p: int)
    requires
        0 <= p,
        p + 80 <= s.len(),
    ensures
        toc_header_bytes(toc_header_at(s, p)) == s.subrange(p, p + 80),
{
    lemma_auto_spec_u64_to_from_le_bytes();
    lemma_auto_spec_u32_to_from_le_bytes();
    let h = toc_header_at(s, p);
    assert(spec_u64_to_le_bytes(h.file_id) == s.subrange(p, p + 8));
    assert(spec_u64_to_le_bytes(h.type_id) == s.subrange(p + 8, p + 16));
    assert(spec_u64_to_le_bytes(h.toc_data_offset) == s.subrange(p + 16, p + 24));
    assert(spec_u64_to_le_bytes(h.stream_file_offset) == s.subrange(p + 24, p + 32));
    assert(spec_u64_to_le_bytes(h.gpu_resource_offset) == s.subrange(p + 32, p + 40));
    assert(spec_u64_to_le_bytes(h.unknown1) == s.subrange(p + 40, p + 48));
    assert(spec_u64_to_le_bytes(h.unknown2) == s.subrange(p + 48, p + 56));
    assert(spec_u32_to_le_bytes(h.toc_data_size) == s.subrange(p + 56, p + 60));
    assert(spec_u32_to_le_bytes(h.stream_size) == s.subrange(p + 60, p + 64));
    assert(spec_u32_to_le_bytes(h.gpu_resource_size) == s.subrange(p + 64, p + 68));
    assert(spec_u32_to_le_bytes(h.unknown3) == s.subrange(p + 68, p + 72));
    assert(spec_u32_to_le_bytes(h.unknown4) == s.subrange(p + 72, p + 76));
    assert(spec_u32_to_le_bytes(h.entry_index) == s.subrange(p + 76, p + 80));
    assert(toc_header_bytes(h) =~= s.subrange(p, p + 80));
}

/// The on-disk layout of a TOC header: seven little-endian `u64` fields
/// (file id, type id, TOC data offset, stream offset, GPU offset and two
/// unknowns) at bytes 0, 8, .., 48, then six little-endian `u32` fields
/// (TOC data size, stream size, GPU size, two unknowns, entry index) at
/// bytes 56, 60, .., 76. Writing puts each field there, and reading takes
/// each field from there.
pub proof fn law_toc_header_field_offsets(h: TocHeader, s: Seq<u8>, p: int)
    ensures
        toc_header_bytes(h).len() == 80,
        toc_header_bytes(h).subrange(0, 8) == spec_u64_to_le_bytes(h.file_id),
        toc_header_bytes(h).subrange(8, 16) == spec_u64_to_le_bytes(h.type_id),
        toc_header_bytes(h).subrange(16, 24) == spec_u64_to_le_bytes(h.toc_data_offset),
        toc_header_bytes(h).subrange(24, 32) == spec_u64_to_le_bytes(h.stream_file_offset),
        toc_header_bytes(h).subrange(32, 40) == spec_u64_to_le_bytes(h.gpu_resource_offset),
        toc_header_bytes(h).subrange(40, 48) == spec_u64_to_le_bytes(h.unknown1),
        toc_header_bytes(h).subrange(48, 56) == spec_u64_to_le_bytes(h.unknown2),
        toc_header_bytes(h).subrange(56, 60) == spec_u32_to_le_bytes(h.toc_data_size),
        toc_header_bytes(h).subrange(60, 64) == spec_u32_to_le_bytes(h.stream_size),
        toc_header_bytes(h).subrange(64, 68) == spec_u32_to_le_bytes(h.gpu_resource_size),
        toc_header_bytes(h).subrange(68, 72) == spec_u32_to_le_bytes(h.unknown3),
        toc_header_bytes(h).subrange(72, 76) == spec_u32_to_le_bytes(h.unknown4),
        toc_header_bytes(h).subrange(76, 80) == spec_u32_to_le_bytes(h.entry_index),
        toc_header_at(s, p).file_id == spec_u64_from_le_bytes(s.subrange(p + 0, p + 8)),
        toc_header_at(s, p).type_id == spec_u64_from_le_bytes(s.subrange(p + 8, p + 16)),
        toc_header_at(s, p).toc_data_offset == spec_u64_from_le_bytes(s.subrange(p + 16, p + 24)),
        toc_header_at(s, p).stream_file_offset == spec_u64_from_le_bytes(s.subrange(p + 24, p + 32)),
        toc_header_at(s, p).gpu_resource_offset == spec_u64_from_le_bytes(s.subrange(p + 32, p + 40)),
        toc_header_at(s, p).unknown1 == spec_u64_from_le_bytes(s.subrange(p + 40, p + 48)),
        toc_header_at(s, p).unknown2 == spec_u64_from_le_bytes(s.subrange(p + 48, p + 56)),
        toc_header_at(s, p).toc_data_size == spec_u32_from_le_bytes(s.subrange(p + 56, p + 60)),
        toc_header_at(s, p).stream_size == spec_u32_from_le_bytes(s.subrange(p + 60, p + 64)),
        toc_header_at(s, p).gpu_resource_size == spec_u32_from_le_bytes(s.subrange(p + 64, p + 68)),
        toc_header_at(s, p).unknown3 == spec_u32_from_le_bytes(s.subrange(p + 68, p + 72)),
        toc_header_at(s, p).unknown4 == spec_u32_from_le_bytes(s.subrange(p + 72, p + 76)),
        toc_header_at(s, p).entry_index == spec_u32_from_le_bytes(s.subrange(p + 76, p + 80)),
{
    lemma_auto_spec_u64_to_from_le_bytes();
    lemma_auto_spec_u32_to_from_le_bytes();
    let b = toc_header_bytes(h);
    assert(b.subrange(0, 8) =~= spec_u64_to_le_bytes(h.file_id));
    assert(b.subrange(8, 16) =~= spec_u64_to_le_bytes(h.type_id));
    assert(b.subrange(16, 24) =~= spec_u64_to_le_bytes(h.toc_data_offset));
    assert(b.subrange(24, 32) =~= spec_u64_to_le_bytes(h.stream_file_offset));
    assert(b.subrange(32, 40) =~= spec_u64_to_le_bytes(h.gpu_resource_offset));
    assert(b.subrange(40, 48) =~= spec_u64_to_le_bytes(h.unknown1));
    assert(b.subrange(48, 56) =~= spec_u64_to_le_bytes(h.unknown2));
    assert(b.subrange(56, 60) =~= spec_u32_to_le_bytes(h.toc_data_size));
    assert(b.subrange(60, 64) =~= spec_u32_to_le_bytes(h.stream_size));
    assert(b.subrange(64, 68) =~= spec_u32_to_le_bytes(h.gpu_resource_size));
    assert(b.subrange(68, 72) =~= spec_u32_to_le_bytes(h.unknown3));
    assert(b.subrange(72, 76) =~= spec_u32_to_le_bytes(h.unknown4));
    assert(b.subrange(76, 80) =~= spec_u32_to_le_bytes(h.entry_index));
}

} // verus!
