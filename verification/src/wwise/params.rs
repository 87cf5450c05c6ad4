//! Small parameter records of hierarchy entries: FX chunks, property
//! bundles, aux and advanced settings, state properties, container children,
//! play-list items and bank sources.

use vstd::prelude::*;
use vstd::bytes::*;
use crate::buf::{copy_bytes, extend_bytes, extend_u32};
use crate::le::{le_u16_at, le_u32_at};
use crate::memstream::MemoryStream;
use crate::wwise::hierarchy::BankVersion;

verus! {

// ---------------------------------------------------------------------------
// FX chunks.

/// The per-version tail of an FX chunk.
#[derive(Debug, Clone, Copy, PartialEq, Eq, Structural)]
pub enum FxChunkFlags {
    V140 { is_share_set: u8, is_rendered: u8 },
    V154 { bit_vector: u8 },
}

/// One FX slot of a hierarchy entry.
#[derive(Debug, Clone, Copy, PartialEq, Eq, Structural)]
pub struct FxChunk {
    pub fx_index: u8,
    pub fx_id: u32,
    pub flags: FxChunkFlags,
}

/// The FX chunk at `p`: index, id, then two flag bytes (V140) or one (V154).
pub open spec fn fx_chunk_at(s: Seq<u8>, p: int, version: BankVersion) -> FxChunk {
    FxChunk {
        fx_index: s[p],
        fx_id: le_u32_at(s, p + 1),
        flags: match version {
            BankVersion::V140 => FxChunkFlags::V140 { is_share_set: s[p + 5], is_rendered: s[p + 6] },
            BankVersion::V154 => FxChunkFlags::V154 { bit_vector: s[p + 5] },
        },
    }
}

pub open spec fn fx_chunk_len(version: BankVersion) -> int {
    match version {
        BankVersion::V140 => 7,
        BankVersion::V154 => 6,
    }
}

pub open spec fn fx_chunk_bytes(c: FxChunk) -> Seq<u8> {
    seq![c.fx_index] + spec_u32_to_le_bytes(c.fx_id) + match c.flags {
        FxChunkFlags::V140 { is_share_set, is_rendered } => seq![is_share_set, is_rendered],
        FxChunkFlags::V154 { bit_vector } => seq![bit_vector],
    }
}

impl FxChunk {
    pub fn read(stream: &mut MemoryStream, version: BankVersion) -> (c: FxChunk)
        requires
            old(stream).wf(),
            old(stream).position() + fx_chunk_len(version) <= old(stream).contents().len(),
        ensures
            final(stream).wf(),
            final(stream).contents() == old(stream).contents(),
            final(stream).position() == old(stream).position() + fx_chunk_len(version),
            c == fx_chunk_at(old(stream).contents(), old(stream).position() as int, version),
    {
        let fx_index = stream.read_u8();
        let fx_id = stream.read_u32();
        let flags = match version {
            BankVersion::V140 => {
                let is_share_set = stream.read_u8();
                let is_rendered = stream.read_u8();
                FxChunkFlags::V140 { is_share_set, is_rendered }
            },
            BankVersion::V154 => FxChunkFlags::V154 { bit_vector: stream.read_u8() },
        };
        FxChunk { fx_index, fx_id, flags }
    }

    pub fn get_data(&self) -> (out: Vec<u8>)
        ensures
            out@ == fx_chunk_bytes(*self),
    {
        let mut out: Vec<u8> = Vec::new();
        out.push(self.fx_index);
        extend_u32(&mut out, self.fx_id);
        match self.flags {
            FxChunkFlags::V140 { is_share_set, is_rendered } => {
                out.push(is_share_set);
                out.push(is_rendered);
            },
            FxChunkFlags::V154 { bit_vector } => out.push(bit_vector),
        }
        assert(out@ =~= fx_chunk_bytes(*self));
        out
    }
}

/// An FX chunk's metadata record.
#[derive(Debug, Clone, Copy, PartialEq, Eq, Structural)]
pub struct FxChunkMetadata {
    pub fx_index: u8,
    pub fx_id: u32,
    pub is_share_set: u8,
}

pub open spec fn fx_metadata_bytes(m: FxChunkMetadata) -> Seq<u8> {
    seq![m.fx_index] + spec_u32_to_le_bytes(m.fx_id) + seq![m.is_share_set]
}

impl FxChunkMetadata {
    pub fn read(stream: &mut MemoryStream) -> (m: FxChunkMetadata)
        requires
            old(stream).wf(),
            old(stream).position() + 6 <= old(stream).contents().len(),
        ensures
            final(stream).wf(),
            final(stream).contents() == old(stream).contents(),
            final(stream).position() == old(stream).position() + 6,
            ({
                let c = old(stream).contents();
                let p = old(stream).position() as int;
                m == (FxChunkMetadata { fx_index: c[p], fx_id: le_u32_at(c, p + 1), is_share_set: c[p + 5] })
            }),
    {
        let fx_index = stream.read_u8();
        let fx_id = stream.read_u32();
        let is_share_set = stream.read_u8();
        FxChunkMetadata { fx_index, fx_id, is_share_set }
    }

    pub fn get_data(&self) -> (out: [u8; 6])
        ensures
            out@ == fx_metadata_bytes(*self),
    {
        let id = u32_to_le_bytes(self.fx_id);
        let out = [self.fx_index, id[0], id[1], id[2], id[3], self.is_share_set];
        assert(out@ =~= fx_metadata_bytes(*self));
        out
    }
}

// ---------------------------------------------------------------------------
// Property bundles.

/// Property ids with their raw 4-byte values.
pub struct PropBundle {
    pub ids: Vec<u8>,
    pub values: Vec<[u8; 4]>,
}

/// The bundle at `p`: a count `n`, `n` ids, then `n` four-byte values.
pub open spec fn prop_bundle_len(s: Seq<u8>, p: int) -> int {
    1 + 5 * s[p]
}

impl PropBundle {
    pub open spec fn value_bytes(&self) -> Seq<u8>
        decreases self.values@.len(),
    {
        values_concat(self.values@)
    }

    pub fn read(stream: &mut MemoryStream) -> (b: PropBundle)
        requires
            old(stream).wf(),
            old(stream).position() + 1 <= old(stream).contents().len(),
            old(stream).position() + prop_bundle_len(old(stream).contents(), old(stream).position() as int)
                <= old(stream).contents().len(),
        ensures
            final(stream).wf(),
            final(stream).contents() == old(stream).contents(),
            ({
                let c = old(stream).contents();
                let p = old(stream).position() as int;
                let n = c[p] as int;
                &&& final(stream).position() == p + 1 + 5 * n
                &&& b.ids@ == c.subrange(p + 1, p + 1 + n)
                &&& b.values@.len() == n
                &&& b.value_bytes() == c.subrange(p + 1 + n, p + 1 + 5 * n)
            }),
    {
        let ghost c = stream.contents();
        let ghost p = stream.position() as int;
        let count = stream.read_u8();
        let ids = copy_bytes(stream.read(count as usize));
        let mut values: Vec<[u8; 4]> = Vec::new();
        let mut k: u8 = 0;
        assert(values_concat(values@) =~= c.subrange(p + 1 + count, p + 1 + count));
        while k < count
            invariant
                k <= count,
                0 <= p < c.len(),
                count == c[p],
                stream.wf(),
                stream.contents() == c,
                p + 1 + 5 * count <= c.len(),
                stream.position() == p + 1 + count + 4 * k,
                values@.len() == k,
                values_concat(values@) == c.subrange(p + 1 + count, p + 1 + count + 4 * k),
            decreases count - k,
        {
            let ghost q = stream.position() as int;
            let b0 = stream.read_u8();
            let b1 = stream.read_u8();
            let b2 = stream.read_u8();
            let b3 = stream.read_u8();
            let v = [b0, b1, b2, b3];
            assert(v@ =~= c.subrange(q, q + 4));
            let ghost before = values@;
            values.push(v);
            assert(values@.drop_last() =~= before);
            assert(values_concat(values@) == values_concat(before) + v@);
            assert(c.subrange(p + 1 + count, q + 4) =~= c.subrange(p + 1 + count, q) + c.subrange(q, q + 4));
            k = k + 1;
            assert(values_concat(values@) =~= c.subrange(p + 1 + count, p + 1 + count + 4 * k));
        }
        PropBundle { ids, values }
    }

    /// The count, the ids, then the values.
    pub fn get_data(&self) -> (out: Vec<u8>)
        ensures
            out@ == seq![self.ids@.len() as u8] + self.ids@ + self.value_bytes(),
    {
        let mut out: Vec<u8> = Vec::new();
        out.push(self.ids.len() as u8);
        extend_bytes(&mut out, self.ids.as_slice());
        let ghost head = out@;
        let mut k: usize = 0;
        while k < self.values.len()
            invariant
                k <= self.values@.len(),
                out@ == head + values_concat(self.values@.take(k as int)),
            decreases self.values@.len() - k,
        {
            let v = self.values[k];
            extend_bytes(&mut out, &v);
            assert(self.values@.take(k + 1).drop_last() =~= self.values@.take(k as int));
            k = k + 1;
            assert(out@ =~= head + values_concat(self.values@.take(k as int)));
        }
        assert(self.values@.take(self.values@.len() as int) =~= self.values@);
        assert(out@ =~= seq![self.ids@.len() as u8] + self.ids@ + self.value_bytes());
        out
    }
}

/// Four-byte values one after the other.
pub open spec fn values_concat(vs: Seq<[u8; 4]>) -> Seq<u8>
    decreases vs.len(),
{
    if vs.len() == 0 {
        Seq::empty()
    } else {
        values_concat(vs.drop_last()) + vs.last()@
    }
}

// ---------------------------------------------------------------------------
// Aux parameters and advanced settings.

/// Aux sends: a flags byte, four aux bus ids when bit 3 of it is set, then
/// the reflection bus.
pub struct AuxParams {
    pub bit_vector_aux: u8,
    pub aux_ids: Vec<u32>,
    pub reflection_aux_bus: u32,
}

pub open spec fn has_aux(bits: u8) -> bool {
    bits & 8u8 != 0
}

pub open spec fn u32s_bytes(vs: Seq<u32>) -> Seq<u8>
    decreases vs.len(),
{
    if vs.len() == 0 {
        Seq::empty()
    } else {
        u32s_bytes(vs.drop_last()) + spec_u32_to_le_bytes(vs.last())
    }
}

impl AuxParams {
    pub fn read(stream: &mut MemoryStream) -> (a: AuxParams)
        requires
            old(stream).wf(),
            old(stream).position() + 1 <= old(stream).contents().len(),
            old(stream).position() + (if has_aux(old(stream).contents()[old(stream).position() as int]) {
                21int
            } else {
                5int
            }) <= old(stream).contents().len(),
        ensures
            final(stream).wf(),
            final(stream).contents() == old(stream).contents(),
            ({
                let c = old(stream).contents();
                let p = old(stream).position() as int;
                let n = if has_aux(c[p]) { 4int } else { 0int };
                &&& a.bit_vector_aux == c[p]
                &&& a.aux_ids@ == Seq::new(n as nat, |i: int| le_u32_at(c, p + 1 + 4 * i))
                &&& a.reflection_aux_bus == le_u32_at(c, p + 1 + 4 * n)
                &&& final(stream).position() == p + 5 + 4 * n
            }),
    {
        let ghost c = stream.contents();
        let ghost p = stream.position() as int;
        let bit_vector_aux = stream.read_u8();
        let mut aux_ids: Vec<u32> = Vec::new();
        if bit_vector_aux & 8u8 != 0 {
            let mut k: usize = 0;
            while k < 4
                invariant
                    k <= 4,
                    stream.wf(),
                    stream.contents() == c,
                    p + 21 <= c.len(),
                    stream.position() == p + 1 + 4 * k,
                    aux_ids@ == Seq::new(k as nat, |i: int| le_u32_at(c, p + 1 + 4 * i)),
                decreases 4 - k,
            {
                let v = stream.read_u32();
                aux_ids.push(v);
                k = k + 1;
                assert(aux_ids@ =~= Seq::new(k as nat, |i: int| le_u32_at(c, p + 1 + 4 * i)));
            }
        } else {
            assert(aux_ids@ =~= Seq::new(0, |i: int| le_u32_at(c, p + 1 + 4 * i)));
        }
        let reflection_aux_bus = stream.read_u32();
        AuxParams { bit_vector_aux, aux_ids, reflection_aux_bus }
    }

    pub fn get_data(&self) -> (out: Vec<u8>)
        ensures
            out@ == seq![self.bit_vector_aux] + u32s_bytes(self.aux_ids@) + spec_u32_to_le_bytes(
                self.reflection_aux_bus,
            ),
    {
        let mut out: Vec<u8> = Vec::new();
        out.push(self.bit_vector_aux);
        let ghost head = out@;
        let mut k: usize = 0;
        while k < self.aux_ids.len()
            invariant
                k <= self.aux_ids@.len(),
                out@ == head + u32s_bytes(self.aux_ids@.take(k as int)),
            decreases self.aux_ids@.len() - k,
        {
            extend_u32(&mut out, self.aux_ids[k]);
            assert(self.aux_ids@.take(k + 1).drop_last() =~= self.aux_ids@.take(k as int));
            k = k + 1;
            assert(out@ =~= head + u32s_bytes(self.aux_ids@.take(k as int)));
        }
        assert(self.aux_ids@.take(self.aux_ids@.len() as int) =~= self.aux_ids@);
        extend_u32(&mut out, self.reflection_aux_bus);
        assert(out@ =~= seq![self.bit_vector_aux] + u32s_bytes(self.aux_ids@) + spec_u32_to_le_bytes(
            self.reflection_aux_bus,
        ));
        out
    }
}

/// Advanced playback settings, six bytes.
#[derive(Debug, Clone, Copy, PartialEq, Eq, Structural)]
pub struct AdvSetting {
    pub bit_vector_adv: u8,
    pub virtual_queue_behavior: u8,
    pub max_num_instance: u16,
    pub below_threshold_behavior: u8,
    pub bit_vector_hdr: u8,
}

impl AdvSetting {
    pub fn read(stream: &mut MemoryStream) -> (a: AdvSetting)
        requires
            old(stream).wf(),
            old(stream).position() + 6 <= old(stream).contents().len(),
        ensures
            final(stream).wf(),
            final(stream).contents() == old(stream).contents(),
            final(stream).position() == old(stream).position() + 6,
            ({
                let c = old(stream).contents();
                let p = old(stream).position() as int;
                a == (AdvSetting {
                    bit_vector_adv: c[p],
                    virtual_queue_behavior: c[p + 1],
                    max_num_instance: le_u16_at(c, p + 2),
                    below_threshold_behavior: c[p + 4],
                    bit_vector_hdr: c[p + 5],
                })
            }),
    {
        let bit_vector_adv = stream.read_u8();
        let virtual_queue_behavior = stream.read_u8();
        let max_num_instance = stream.read_u16();
        let below_threshold_behavior = stream.read_u8();
        let bit_vector_hdr = stream.read_u8();
        AdvSetting { bit_vector_adv, virtual_queue_behavior, max_num_instance, below_threshold_behavior, bit_vector_hdr }
    }

    pub fn get_data(&self) -> (out: [u8; 6])
        ensures
            out@ == seq![self.bit_vector_adv, self.virtual_queue_behavior] + spec_u16_to_le_bytes(
                self.max_num_instance,
            ) + seq![self.below_threshold_behavior, self.bit_vector_hdr],
    {
        let m = u16_to_le_bytes(self.max_num_instance);
        let out = [
            self.bit_vector_adv,
            self.virtual_queue_behavior,
            m[0],
            m[1],
            self.below_threshold_behavior,
            self.bit_vector_hdr,
        ];
        assert(out@ =~= seq![self.bit_vector_adv, self.virtual_queue_behavior] + spec_u16_to_le_bytes(
            self.max_num_instance,
        ) + seq![self.below_threshold_behavior, self.bit_vector_hdr]);
        out
    }
}

/// A state property, three bytes.
#[derive(Debug, Clone, Copy, PartialEq, Eq, Structural)]
pub struct StateProp {
    pub property_id: u8,
    pub accum_type: u8,
    pub in_db: u8,
}

impl StateProp {
    pub fn read(stream: &mut MemoryStream) -> (s: StateProp)
        requires
            old(stream).wf(),
            old(stream).position() + 3 <= old(stream).contents().len(),
        ensures
            final(stream).wf(),
            final(stream).contents() == old(stream).contents(),
            final(stream).position() == old(stream).position() + 3,
            ({
                let c = old(stream).contents();
                let p = old(stream).position() as int;
                s == (StateProp { property_id: c[p], accum_type: c[p + 1], in_db: c[p + 2] })
            }),
    {
        let property_id = stream.read_u8();
        let accum_type = stream.read_u8();
        let in_db = stream.read_u8();
        StateProp { property_id, accum_type, in_db }
    }

    pub fn get_data(&self) -> (out: [u8; 3])
        ensures
            out@ == seq![self.property_id, self.accum_type, self.in_db],
    {
        let out = [self.property_id, self.accum_type, self.in_db];
        assert(out@ =~= seq![self.property_id, self.accum_type, self.in_db]);
        out
    }
}

// ---------------------------------------------------------------------------
// Containers.

/// A container's child ids.
pub struct ContainerChildren {
    pub children: Vec<u32>,
}

impl ContainerChildren {
    pub fn read(stream: &mut MemoryStream) -> (c: ContainerChildren)
        requires
            old(stream).wf(),
            old(stream).position() + 4 <= old(stream).contents().len(),
            old(stream).position() + 4 + 4 * le_u32_at(old(stream).contents(), old(stream).position() as int)
                <= old(stream).contents().len(),
        ensures
            final(stream).wf(),
            final(stream).contents() == old(stream).contents(),
            ({
                let s = old(stream).contents();
                let p = old(stream).position() as int;
                let n = le_u32_at(s, p) as int;
                &&& c.children@ == Seq::new(n as nat, |i: int| le_u32_at(s, p + 4 + 4 * i))
                &&& final(stream).position() == p + 4 + 4 * n
            }),
    {
        let ghost s = stream.contents();
        let ghost p = stream.position() as int;
        let n = stream.read_u32();
        let mut children: Vec<u32> = Vec::new();
        let mut k: u32 = 0;
        while k < n
            invariant
                k <= n,
                n == le_u32_at(s, p),
                stream.wf(),
                stream.contents() == s,
                p + 4 + 4 * n <= s.len(),
                stream.position() == p + 4 + 4 * k,
                children@ == Seq::new(k as nat, |i: int| le_u32_at(s, p + 4 + 4 * i)),
            decreases n - k,
        {
            let v = stream.read_u32();
            children.push(v);
            k = k + 1;
            assert(children@ =~= Seq::new(k as nat, |i: int| le_u32_at(s, p + 4 + 4 * i)));
        }
        ContainerChildren { children }
    }

    pub fn get_data(&self) -> (out: Vec<u8>)
        ensures
            out@ == spec_u32_to_le_bytes(self.children@.len() as u32) + u32s_bytes(self.children@),
    {
        let mut out: Vec<u8> = Vec::new();
        extend_u32(&mut out, self.children.len() as u32);
        let ghost head = out@;
        let mut k: usize = 0;
        while k < self.children.len()
            invariant
                k <= self.children@.len(),
                out@ == head + u32s_bytes(self.children@.take(k as int)),
            decreases self.children@.len() - k,
        {
            extend_u32(&mut out, self.children[k]);
            assert(self.children@.take(k + 1).drop_last() =~= self.children@.take(k as int));
            k = k + 1;
            assert(out@ =~= head + u32s_bytes(self.children@.take(k as int)));
        }
        assert(self.children@.take(self.children@.len() as int) =~= self.children@);
        out
    }
}

/// A play-list item: a child id and its weight.
#[derive(Debug, Clone, Copy, PartialEq, Eq, Structural)]
pub struct PlayListItem {
    pub play_id: u32,
    pub weight: i32,
}

impl PlayListItem {
    pub fn read(stream: &mut MemoryStream) -> (item: PlayListItem)
        requires
            old(stream).wf(),
            old(stream).position() + 8 <= old(stream).contents().len(),
        ensures
            final(stream).wf(),
            final(stream).contents() == old(stream).contents(),
            final(stream).position() == old(stream).position() + 8,
            ({
                let c = old(stream).contents();
                let p = old(stream).position() as int;
                item == (PlayListItem { play_id: le_u32_at(c, p), weight: le_u32_at(c, p + 4) as i32 })
            }),
    {
        let play_id = stream.read_u32();
        let weight = stream.read_i32();
        PlayListItem { play_id, weight }
    }

    pub fn get_data(&self) -> (out: [u8; 8])
        ensures
            out@ == spec_u32_to_le_bytes(self.play_id) + spec_u32_to_le_bytes(self.weight as u32),
    {
        let a = u32_to_le_bytes(self.play_id);
        let b = u32_to_le_bytes(self.weight as u32);
        let out = [a[0], a[1], a[2], a[3], b[0], b[1], b[2], b[3]];
        assert(out@ =~= spec_u32_to_le_bytes(self.play_id) + spec_u32_to_le_bytes(self.weight as u32));
        out
    }
}

// ---------------------------------------------------------------------------
// Bank sources.

/// Where a sound's audio comes from. V154 banks carry a cache id that V140
/// banks do not; plugin data follows when the plugin id's low nibble is 2.
pub struct BankSourceStruct {
    pub plugin_id: u32,
    pub stream_type: u8,
    pub source_id: u32,
    pub cache_id: Option<u32>,
    pub mem_size: u32,
    pub bit_flags: u8,
    pub plugin_data: Vec<u8>,
}

pub open spec fn has_plugin_data(plugin_id: u32) -> bool {
    plugin_id & 0x0F == 2
}

/// The fixed part's length: 14 bytes, 18 with a cache id.
pub open spec fn source_fixed_len(version: BankVersion) -> int {
    match version {
        BankVersion::V140 => 14,
        BankVersion::V154 => 18,
    }
}

/// The whole source's length at `p`, or `None` when it runs past the end.
pub open spec fn source_len(c: Seq<u8>, p: int, version: BankVersion) -> Option<int> {
    let f = source_fixed_len(version);
    if p + f > c.len() {
        None
    } else if !has_plugin_data(le_u32_at(c, p)) {
        Some(f)
    } else if p + f + 4 > c.len() {
        None
    } else if p + f + 4 + le_u32_at(c, p + f) > c.len() {
        None
    } else {
        Some(f + 4 + le_u32_at(c, p + f))
    }
}

pub open spec fn source_bytes(s: BankSourceStruct) -> Seq<u8> {
    spec_u32_to_le_bytes(s.plugin_id) + seq![s.stream_type] + spec_u32_to_le_bytes(s.source_id) + (match s.cache_id {
        Some(c) => spec_u32_to_le_bytes(c),
        None => Seq::empty(),
    }) + spec_u32_to_le_bytes(s.mem_size) + seq![s.bit_flags] + if has_plugin_data(s.plugin_id) {
        spec_u32_to_le_bytes(s.plugin_data@.len() as u32) + s.plugin_data@
    } else {
        Seq::empty()
    }
}

impl BankSourceStruct {
    pub fn read(stream: &mut MemoryStream, version: BankVersion) -> (s: BankSourceStruct)
        requires
            old(stream).wf(),
            source_len(old(stream).contents(), old(stream).position() as int, version) is Some,
        ensures
            final(stream).wf(),
            final(stream).contents() == old(stream).contents(),
            ({
                let c = old(stream).contents();
                let p = old(stream).position() as int;
                let f = source_fixed_len(version);
                &&& final(stream).position() == p + source_len(c, p, version).unwrap()
                &&& s.plugin_id == le_u32_at(c, p)
                &&& s.stream_type == c[p + 4]
                &&& s.source_id == le_u32_at(c, p + 5)
                &&& s.cache_id == (match version {
                    BankVersion::V154 => Some(le_u32_at(c, p + 9)),
                    BankVersion::V140 => None,
                })
                &&& s.mem_size == le_u32_at(c, p + f - 5)
                &&& s.bit_flags == c[p + f - 1]
                &&& s.plugin_data@ == (if has_plugin_data(s.plugin_id) {
                    c.subrange(p + f + 4, p + f + 4 + le_u32_at(c, p + f))
                } else {
                    Seq::empty()
                })
            }),
    {
        let plugin_id = stream.read_u32();
        let stream_type = stream.read_u8();
        let source_id = stream.read_u32();
        let cache_id = match version {
            BankVersion::V154 => Some(stream.read_u32()),
            BankVersion::V140 => None,
        };
        let mem_size = stream.read_u32();
        let bit_flags = stream.read_u8();
        let mut plugin_data: Vec<u8> = Vec::new();
        if plugin_id & 0x0F == 2 {
            let plugin_size = stream.read_u32();
            if plugin_size > 0 {
                plugin_data = copy_bytes(stream.read(plugin_size as usize));
            }
        }
        BankSourceStruct { plugin_id, stream_type, source_id, cache_id, mem_size, bit_flags, plugin_data }
    }

    pub fn get_data(&self) -> (out: Vec<u8>)
        ensures
            out@ == source_bytes(*self),
    {
        let mut out: Vec<u8> = Vec::new();
        extend_u32(&mut out, self.plugin_id);
        out.push(self.stream_type);
        extend_u32(&mut out, self.source_id);
        match self.cache_id {
            Some(c) => extend_u32(&mut out, c),
            None => {},
        }
        extend_u32(&mut out, self.mem_size);
        out.push(self.bit_flags);
        if self.plugin_id & 0x0F == 2 {
            extend_u32(&mut out, self.plugin_data.len() as u32);
            extend_bytes(&mut out, self.plugin_data.as_slice());
        }
        assert(out@ =~= source_bytes(*self));
        out
    }
}

} // verus!
