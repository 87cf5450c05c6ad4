//! Writing an audio archive: the TOC (header, type table, one header per
//! resource, the resources' TOC data) and its stream sidecar.

use vstd::prelude::*;
use vstd::bytes::*;
use crate::buf::{align16, align16_exec, extend_bytes, extend_u32, extend_u64, extend_zeros, padded16};
use crate::memstream::zeros;
use crate::mixed::{resized, resized_exec};
use crate::wwise::toc::{TocHeader, toc_header_bytes};
use crate::le::le_u32_at;
use crate::{BINK_VIDEO, TEXT_BANK, WWISE_BANK, WWISE_DEP, WWISE_STREAM};

verus! {

/// Magic of an archive's TOC.
pub const ARCHIVE_MAGIC: u32 = 0xF000_0011;

/// The kind of a resource written to an archive.
#[derive(Debug, Clone, Copy, PartialEq, Eq, Structural)]
pub enum ResourceKind {
    Stream,
    Bank,
    Text,
    Dep,
    Video,
}

/// A resource to write: its kind, its id and its bytes (the raw audio or
/// video, the generated bank, text bank or dependency).
pub struct Resource {
    pub kind: ResourceKind,
    pub id: u64,
    pub data: Vec<u8>,
}

pub type ResourceModel = (ResourceKind, u64, Seq<u8>);

pub open spec fn resource_views(v: Seq<Resource>) -> Seq<ResourceModel> {
    v.map_values(|r: Resource| (r.kind, r.id, r.data@))
}

pub open spec fn type_of(kind: ResourceKind) -> u64 {
    match kind {
        ResourceKind::Stream => WWISE_STREAM,
        ResourceKind::Bank => WWISE_BANK,
        ResourceKind::Text => TEXT_BANK,
        ResourceKind::Dep => WWISE_DEP,
        ResourceKind::Video => BINK_VIDEO,
    }
}

/// What a resource adds to the TOC data: a stream's 16-byte stub (a tag and
/// its length), a bank wrapped with a tag, its length and its id and padded,
/// a text bank or dependency padded, a video's fixed 16-byte stub.
pub open spec fn toc_piece(kind: ResourceKind, id: u64, data: Seq<u8>) -> Seq<u8> {
    match kind {
        ResourceKind::Stream => seq![0xD8u8, 0x2Fu8, 0x76u8, 0x78u8, 0u8, 0u8, 0u8, 0u8] + spec_u64_to_le_bytes(
            data.len() as u64,
        ),
        ResourceKind::Bank => seq![0xD8u8, 0x2Fu8, 0x76u8, 0x78u8] + spec_u32_to_le_bytes(data.len() as u32)
            + spec_u64_to_le_bytes(id) + padded16(data),
        ResourceKind::Text => padded16(data),
        ResourceKind::Dep => padded16(data),
        ResourceKind::Video => seq![0xE9u8, 0x03u8] + zeros(14),
    }
}

/// What a resource adds to the stream sidecar: streams and videos their
/// padded bytes, the others nothing.
pub open spec fn stream_piece(kind: ResourceKind, data: Seq<u8>) -> Seq<u8> {
    match kind {
        ResourceKind::Stream => padded16(data),
        ResourceKind::Video => padded16(data),
        _ => Seq::empty(),
    }
}

pub open spec fn toc_size_field(kind: ResourceKind, data: Seq<u8>) -> u32 {
    match kind {
        ResourceKind::Stream => 0x0C,
        ResourceKind::Bank => ((data.len() as u32 as int + 16) % 0x1_0000_0000) as u32,
        ResourceKind::Text => data.len() as u32,
        ResourceKind::Dep => data.len() as u32,
        ResourceKind::Video => 0x10,
    }
}

pub open spec fn stream_size_field(kind: ResourceKind, data: Seq<u8>) -> u32 {
    match kind {
        ResourceKind::Stream => data.len() as u32,
        ResourceKind::Video => data.len() as u32,
        _ => 0,
    }
}

/// The TOC data of the first `k` resources.
pub open spec fn toc_data_upto(plan: Seq<ResourceModel>, k: nat) -> Seq<u8>
    decreases k,
{
    if k == 0 {
        Seq::empty()
    } else {
        let (kind, id, data) = plan[k - 1];
        toc_data_upto(plan, (k - 1) as nat) + toc_piece(kind, id, data)
    }
}

/// The stream sidecar's bytes for the first `k` resources.
pub open spec fn stream_upto(plan: Seq<ResourceModel>, k: nat) -> Seq<u8>
    decreases k,
{
    if k == 0 {
        Seq::empty()
    } else {
        let (kind, id, data) = plan[k - 1];
        stream_upto(plan, (k - 1) as nat) + stream_piece(kind, data)
    }
}

/// The `k`-th resource's TOC header, its TOC data starting at `base`.
pub open spec fn planned_header(plan: Seq<ResourceModel>, base: int, k: int) -> TocHeader {
    let (kind, id, data) = plan[k];
    TocHeader {
        file_id: id,
        type_id: type_of(kind),
        toc_data_offset: (base + toc_data_upto(plan, k as nat).len()) as u64,
        stream_file_offset: stream_upto(plan, k as nat).len() as u64,
        gpu_resource_offset: 0,
        unknown1: 0,
        unknown2: 0,
        toc_data_size: toc_size_field(kind, data),
        stream_size: stream_size_field(kind, data),
        gpu_resource_size: 0,
        unknown3: 16,
        unknown4: 64,
        entry_index: k as u32,
    }
}

/// The first `k` headers' bytes.
pub open spec fn headers_upto(plan: Seq<ResourceModel>, base: int, k: nat) -> Seq<u8>
    decreases k,
{
    if k == 0 {
        Seq::empty()
    } else {
        headers_upto(plan, base, (k - 1) as nat) + toc_header_bytes(planned_header(plan, base, k - 1))
    }
}

/// How many resources of `kind` the first `k` are.
pub open spec fn count_kind(plan: Seq<ResourceModel>, kind: ResourceKind, k: nat) -> nat
    decreases k,
{
    if k == 0 {
        0
    } else {
        count_kind(plan, kind, (k - 1) as nat) + if plan[k - 1].0 == kind { 1nat } else { 0nat }
    }
}

/// A type-table entry for `n` resources of a type, or nothing when there
/// are none.
pub open spec fn type_entry(type_id: u64, n: nat) -> Seq<u8> {
    if n > 0 {
        spec_u64_to_le_bytes(0) + spec_u64_to_le_bytes(type_id) + spec_u64_to_le_bytes(n as u64)
            + spec_u32_to_le_bytes(16) + spec_u32_to_le_bytes(64)
    } else {
        Seq::empty()
    }
}

/// The type table: one entry per kind present, in type-table order.
pub open spec fn type_table(plan: Seq<ResourceModel>) -> Seq<u8> {
    let n = plan.len() as nat;
    type_entry(WWISE_STREAM, count_kind(plan, ResourceKind::Stream, n)) + type_entry(
        WWISE_BANK,
        count_kind(plan, ResourceKind::Bank, n),
    ) + type_entry(WWISE_DEP, count_kind(plan, ResourceKind::Dep, n)) + type_entry(
        TEXT_BANK,
        count_kind(plan, ResourceKind::Text, n),
    ) + type_entry(BINK_VIDEO, count_kind(plan, ResourceKind::Video, n))
}

/// How many kinds are present.
pub open spec fn num_types(plan: Seq<ResourceModel>) -> nat {
    let n = plan.len() as nat;
    (if count_kind(plan, ResourceKind::Stream, n) > 0 { 1nat } else { 0nat }) + (if count_kind(
        plan,
        ResourceKind::Bank,
        n,
    ) > 0 { 1nat } else { 0nat }) + (if count_kind(plan, ResourceKind::Dep, n) > 0 { 1nat } else { 0nat })
        + (if count_kind(plan, ResourceKind::Text, n) > 0 { 1nat } else { 0nat }) + (if count_kind(
        plan,
        ResourceKind::Video,
        n,
    ) > 0 { 1nat } else { 0nat })
}

/// The archive's TOC and stream sidecar for resources written in `plan`'s
/// order: the header (magic, type count, resource count, unknown field and
/// 56 more bytes), the type table, a header per resource, eight zero bytes
/// and the TOC data, zero-padded to at least 256 bytes per resource.
pub open spec fn spec_archive_bytes(magic: u32, unknown: u32, unk4: Seq<u8>, plan: Seq<ResourceModel>) -> (Seq<u8>, Seq<u8>) {
    let n = plan.len() as nat;
    let head = spec_u32_to_le_bytes(magic) + spec_u32_to_le_bytes(num_types(plan) as u32) + spec_u32_to_le_bytes(
        n as u32,
    ) + spec_u32_to_le_bytes(unknown) + resized(unk4, 56) + type_table(plan);
    let base: int = (head.len() + 80 * n + 8) as int;
    let toc = head + headers_upto(plan, base, n) + zeros(8) + toc_data_upto(plan, n);
    let toc_padded = if toc.len() < 256 * n { toc + zeros((256 * n - toc.len()) as nat) } else { toc };
    (toc_padded, stream_upto(plan, n))
}

/// A generous measure of the memory writing the first `k` resources needs.
pub open spec fn plan_size(plan: Seq<ResourceModel>, k: nat) -> int
    decreases k,
{
    if k == 0 {
        0
    } else {
        plan_size(plan, (k - 1) as nat) + 2 * plan[k - 1].2.len() + 256
    }
}

proof fn lemma_pieces_len(kind: ResourceKind, id: u64, data: Seq<u8>)
    ensures
        toc_piece(kind, id, data).len() <= data.len() + 31,
        stream_piece(kind, data).len() <= data.len() + 15,
{
    lemma_auto_spec_u64_to_from_le_bytes();
    lemma_auto_spec_u32_to_from_le_bytes();
    let l = data.len() as int;
    assert(align16(l) <= l + 15) by (nonlinear_arith)
        requires
            l >= 0,
    ;
    assert(align16(l) >= l) by (nonlinear_arith)
        requires
            l >= 0,
    ;
}

pub(crate) proof fn lemma_upto_len(plan: Seq<ResourceModel>, k: nat)
    requires
        k <= plan.len(),
    ensures
        toc_data_upto(plan, k).len() + stream_upto(plan, k).len() + 80 * k <= plan_size(plan, k),
        plan_size(plan, k) >= 0,
    decreases k,
{
    if k > 0 {
        lemma_upto_len(plan, (k - 1) as nat);
        let (kind, id, data) = plan[k - 1];
        lemma_pieces_len(kind, id, data);
    }
}

pub(crate) proof fn lemma_plan_size_mono(plan: Seq<ResourceModel>, k: nat, n: nat)
    requires
        k <= n <= plan.len(),
    ensures
        plan_size(plan, k) + 256 * (n - k) <= plan_size(plan, n),
    decreases n,
{
    if k < n {
        lemma_plan_size_mono(plan, k, (n - 1) as nat);
    }
}

/// Writes one resource's TOC data piece.
fn write_toc_piece(out: &mut Vec<u8>, r: &Resource)
    requires
        r.data@.len() + 15 <= usize::MAX,
    ensures
        final(out)@ == old(out)@ + toc_piece(r.kind, r.id, r.data@),
{
    let len = r.data.len();
    match r.kind {
        ResourceKind::Stream => {
            let tag: [u8; 8] = [0xD8u8, 0x2Fu8, 0x76u8, 0x78u8, 0u8, 0u8, 0u8, 0u8];
            extend_bytes(out, &tag);
            extend_u64(out, len as u64);
            assert(tag@ =~= seq![0xD8u8, 0x2Fu8, 0x76u8, 0x78u8, 0u8, 0u8, 0u8, 0u8]);
        },
        ResourceKind::Bank => {
            let tag: [u8; 4] = [0xD8u8, 0x2Fu8, 0x76u8, 0x78u8];
            extend_bytes(out, &tag);
            extend_u32(out, len as u32);
            extend_u64(out, r.id);
            extend_bytes(out, r.data.as_slice());
            let a = align16_exec(len);
            extend_zeros(out, a - len);
            assert(tag@ =~= seq![0xD8u8, 0x2Fu8, 0x76u8, 0x78u8]);
        },
        ResourceKind::Text | ResourceKind::Dep => {
            extend_bytes(out, r.data.as_slice());
            let a = align16_exec(len);
            extend_zeros(out, a - len);
        },
        ResourceKind::Video => {
            let tag: [u8; 2] = [0xE9u8, 0x03u8];
            extend_bytes(out, &tag);
            extend_zeros(out, 14);
            assert(tag@ =~= seq![0xE9u8, 0x03u8]);
        },
    }
    assert(final(out)@ =~= old(out)@ + toc_piece(r.kind, r.id, r.data@));
}

/// Writes one resource's stream piece.
fn write_stream_piece(out: &mut Vec<u8>, r: &Resource)
    requires
        r.data@.len() + 15 <= usize::MAX,
    ensures
        final(out)@ == old(out)@ + stream_piece(r.kind, r.data@),
{
    match r.kind {
        ResourceKind::Stream | ResourceKind::Video => {
            let len = r.data.len();
            extend_bytes(out, r.data.as_slice());
            let a = align16_exec(len);
            extend_zeros(out, a - len);
        },
        _ => {},
    }
    assert(final(out)@ =~= old(out)@ + stream_piece(r.kind, r.data@));
}

fn toc_size_exec(r: &Resource) -> (v: u32)
    ensures
        v == toc_size_field(r.kind, r.data@),
{
    match r.kind {
        ResourceKind::Stream => 0x0C,
        ResourceKind::Bank => (r.data.len() as u32).wrapping_add(16),
        ResourceKind::Text | ResourceKind::Dep => r.data.len() as u32,
        ResourceKind::Video => 0x10,
    }
}

fn type_of_exec(kind: ResourceKind) -> (t: u64)
    ensures
        t == type_of(kind),
{
    match kind {
        ResourceKind::Stream => WWISE_STREAM,
        ResourceKind::Bank => WWISE_BANK,
        ResourceKind::Text => TEXT_BANK,
        ResourceKind::Dep => WWISE_DEP,
        ResourceKind::Video => BINK_VIDEO,
    }
}

fn count_kind_exec(plan: &[Resource], kind: ResourceKind) -> (n: usize)
    ensures
        n == count_kind(resource_views(plan@), kind, plan@.len() as nat),
{
    let mut n: usize = 0;
    let mut k: usize = 0;
    while k < plan.len()
        invariant
            k <= plan@.len(),
            n <= k,
            n == count_kind(resource_views(plan@), kind, k as nat),
        decreases plan@.len() - k,
    {
        assert(resource_views(plan@)[k as int].0 == plan@[k as int].kind);
        if plan[k].kind == kind {
            n = n + 1;
        }
        k = k + 1;
    }
    n
}

fn write_type_entry(out: &mut Vec<u8>, type_id: u64, n: usize)
    ensures
        final(out)@ == old(out)@ + type_entry(type_id, n as nat),
{
    if n > 0 {
        extend_u64(out, 0);
        extend_u64(out, type_id);
        extend_u64(out, n as u64);
        extend_u32(out, 16);
        extend_u32(out, 64);
    }
    assert(final(out)@ =~= old(out)@ + type_entry(type_id, n as nat));
}

/// The archive's head: header fields, 56 bytes, type table.
pub open spec fn archive_head(magic: u32, unknown: u32, unk4: Seq<u8>, plan: Seq<ResourceModel>) -> Seq<u8> {
    spec_u32_to_le_bytes(magic) + spec_u32_to_le_bytes(num_types(plan) as u32) + spec_u32_to_le_bytes(
        plan.len() as u32,
    ) + spec_u32_to_le_bytes(unknown) + resized(unk4, 56) + type_table(plan)
}

fn write_type_table(out: &mut Vec<u8>, plan: &[Resource]) -> (types: u32)
    ensures
        final(out)@ == old(out)@ + type_table(resource_views(plan@)),
        types == num_types(resource_views(plan@)),
{
    let ns = count_kind_exec(plan, ResourceKind::Stream);
    let nb = count_kind_exec(plan, ResourceKind::Bank);
    let nd = count_kind_exec(plan, ResourceKind::Dep);
    let nt = count_kind_exec(plan, ResourceKind::Text);
    let nv = count_kind_exec(plan, ResourceKind::Video);
    let ghost start = out@;
    write_type_entry(out, WWISE_STREAM, ns);
    write_type_entry(out, WWISE_BANK, nb);
    write_type_entry(out, WWISE_DEP, nd);
    write_type_entry(out, TEXT_BANK, nt);
    write_type_entry(out, BINK_VIDEO, nv);
    assert(out@ =~= start + type_table(resource_views(plan@)));
    (if ns > 0 { 1u32 } else { 0u32 }) + (if nb > 0 { 1u32 } else { 0u32 }) + (if nd > 0 { 1u32 } else { 0u32 }) + (
    if nt > 0 { 1u32 } else { 0u32 }) + (if nv > 0 { 1u32 } else { 0u32 })
}

proof fn lemma_type_entry_len(type_id: u64, n: nat)
    ensures
        type_entry(type_id, n).len() <= 32,
{
    lemma_auto_spec_u64_to_from_le_bytes();
    lemma_auto_spec_u32_to_from_le_bytes();
}

fn write_head(magic: u32, unknown: u32, unk4: &[u8], plan: &[Resource]) -> (toc: Vec<u8>)
    ensures
        toc@ == archive_head(magic, unknown, unk4@, resource_views(plan@)),
        toc@.len() <= 232,
{
    let ghost pv = resource_views(plan@);
    let n = plan.len();
    let mut table: Vec<u8> = Vec::new();
    let types = write_type_table(&mut table, plan);
    let mut toc: Vec<u8> = Vec::new();
    extend_u32(&mut toc, magic);
    extend_u32(&mut toc, types);
    extend_u32(&mut toc, n as u32);
    extend_u32(&mut toc, unknown);
    let u = resized_exec(unk4, 56);
    extend_bytes(&mut toc, u.as_slice());
    extend_bytes(&mut toc, table.as_slice());
    proof {
        lemma_auto_spec_u32_to_from_le_bytes();
        lemma_type_entry_len(WWISE_STREAM, count_kind(pv, ResourceKind::Stream, n as nat));
        lemma_type_entry_len(WWISE_BANK, count_kind(pv, ResourceKind::Bank, n as nat));
        lemma_type_entry_len(WWISE_DEP, count_kind(pv, ResourceKind::Dep, n as nat));
        lemma_type_entry_len(TEXT_BANK, count_kind(pv, ResourceKind::Text, n as nat));
        lemma_type_entry_len(BINK_VIDEO, count_kind(pv, ResourceKind::Video, n as nat));
    }
    assert(toc@ =~= archive_head(magic, unknown, unk4@, pv));
    toc
}

fn write_entries(plan: &[Resource], base: u64, head_len: usize) -> (r: (Vec<u8>, Vec<u8>, Vec<u8>))
    requires
        plan@.len() <= u32::MAX,
        head_len <= 232,
        base == head_len + 80 * plan@.len() + 8,
        400 + plan_size(resource_views(plan@), plan@.len() as nat) <= usize::MAX,
    ensures
        r.0@ == headers_upto(resource_views(plan@), base as int, plan@.len() as nat),
        r.1@ == toc_data_upto(resource_views(plan@), plan@.len() as nat),
        r.2@ == stream_upto(resource_views(plan@), plan@.len() as nat),
{
    let ghost pv = resource_views(plan@);
    let n = plan.len();
    let mut headers: Vec<u8> = Vec::new();
    let mut toc_data: Vec<u8> = Vec::new();
    let mut stream: Vec<u8> = Vec::new();
    let mut k: usize = 0;
    while k < n
        invariant
            k <= n,
            n == plan@.len(),
            n <= u32::MAX,
            pv == resource_views(plan@),
            head_len <= 232,
            base == head_len + 80 * n + 8,
            400 + plan_size(pv, n as nat) <= usize::MAX,
            headers@ == headers_upto(pv, base as int, k as nat),
            toc_data@ == toc_data_upto(pv, k as nat),
            stream@ == stream_upto(pv, k as nat),
        decreases n - k,
    {
        let r = &plan[k];
        assert(pv[k as int] == (r.kind, r.id, r.data@));
        proof {
            lemma_upto_len(pv, k as nat);
            lemma_upto_len(pv, (k + 1) as nat);
            lemma_plan_size_mono(pv, k as nat, n as nat);
            lemma_plan_size_mono(pv, (k + 1) as nat, n as nat);
        }
        let h = TocHeader {
            file_id: r.id,
            type_id: type_of_exec(r.kind),
            toc_data_offset: base + toc_data.len() as u64,
            stream_file_offset: stream.len() as u64,
            gpu_resource_offset: 0,
            unknown1: 0,
            unknown2: 0,
            toc_data_size: toc_size_exec(r),
            stream_size: match r.kind {
                ResourceKind::Stream | ResourceKind::Video => r.data.len() as u32,
                _ => 0,
            },
            gpu_resource_size: 0,
            unknown3: 16,
            unknown4: 64,
            entry_index: k as u32,
        };
        assert(h == planned_header(pv, base as int, k as int));
        let hb = h.get_data();
        extend_bytes(&mut headers, hb.as_slice());
        write_toc_piece(&mut toc_data, r);
        write_stream_piece(&mut stream, r);
        k = k + 1;
    }
    (headers, toc_data, stream)
}

/// Writes an archive whose resources, in `plan`'s order, all fit in memory
/// together and are fewer than 2^32.
pub fn write_archive(magic: u32, unknown: u32, unk4: &[u8], plan: &[Resource]) -> (r: (Vec<u8>, Vec<u8>))
    requires
        plan@.len() <= u32::MAX,
        400 + plan_size(resource_views(plan@), plan@.len() as nat) <= usize::MAX,
    ensures
        (r.0@, r.1@) == spec_archive_bytes(magic, unknown, unk4@, resource_views(plan@)),
{
    let ghost pv = resource_views(plan@);
    let n = plan.len();
    proof {
        lemma_upto_len(pv, n as nat);
        lemma_plan_size_mono(pv, 0, n as nat);
    }
    let mut toc = write_head(magic, unknown, unk4, plan);
    let head_len = toc.len();
    let base: u64 = head_len as u64 + 80 * (n as u64) + 8;
    let (headers, toc_data, stream) = write_entries(plan, base, head_len);
    extend_bytes(&mut toc, headers.as_slice());
    extend_zeros(&mut toc, 8);
    extend_bytes(&mut toc, toc_data.as_slice());
    let min_size = n * 256;
    if toc.len() < min_size {
        let missing = min_size - toc.len();
        extend_zeros(&mut toc, missing);
    }
    (toc, stream)
}

// ---------------------------------------------------------------------------
// Laws.

proof fn lemma_headers_upto(plan: Seq<ResourceModel>, base: int, n: nat, k: int)
    requires
        0 <= k < n,
        n <= plan.len(),
    ensures
        headers_upto(plan, base, n).len() == 80 * n,
        headers_upto(plan, base, n).subrange(80 * k, 80 * k + 80) == toc_header_bytes(planned_header(plan, base, k)),
    decreases n,
{
    lemma_headers_upto_len(plan, base, n);
    lemma_headers_upto_len(plan, base, (n - 1) as nat);
    crate::wwise::toc::law_toc_header_roundtrip(planned_header(plan, base, n - 1));
    let prev = headers_upto(plan, base, (n - 1) as nat);
    if k < n - 1 {
        lemma_headers_upto(plan, base, (n - 1) as nat, k);
        assert(headers_upto(plan, base, n).subrange(80 * k, 80 * k + 80) =~= prev.subrange(80 * k, 80 * k + 80));
    } else {
        assert(headers_upto(plan, base, n).subrange(80 * k, 80 * k + 80) =~= toc_header_bytes(
            planned_header(plan, base, k),
        ));
    }
}

pub(crate) proof fn lemma_headers_upto_len(plan: Seq<ResourceModel>, base: int, n: nat)
    requires
        n <= plan.len(),
    ensures
        headers_upto(plan, base, n).len() == 80 * n,
    decreases n,
{
    if n > 0 {
        lemma_headers_upto_len(plan, base, (n - 1) as nat);
        crate::wwise::toc::law_toc_header_roundtrip(planned_header(plan, base, n - 1));
    }
}

/// A written archive reads back: its header gives the number of resources,
/// and the TOC header read at each resource's place in the file table is the
/// header planned for it (its id, type, data offset, sizes and index).
pub proof fn law_archive_headers_read_back(magic: u32, unknown: u32, unk4: Seq<u8>, plan: Seq<ResourceModel>, k: int)
    requires
        0 <= k < plan.len(),
        plan.len() <= u32::MAX,
    ensures
        ({
            let toc = spec_archive_bytes(magic, unknown, unk4, plan).0;
            let head = archive_head(magic, unknown, unk4, plan);
            let base = (head.len() + 80 * plan.len() + 8) as int;
            &&& le_u32_at(toc, 0) == magic
            &&& le_u32_at(toc, 8) == plan.len()
            &&& crate::wwise::toc::toc_header_at(toc, head.len() + 80 * k) == planned_header(plan, base, k)
        }),
{
    lemma_auto_spec_u32_to_from_le_bytes();
    let n = plan.len() as nat;
    let head = archive_head(magic, unknown, unk4, plan);
    let base = (head.len() + 80 * n + 8) as int;
    let hs = headers_upto(plan, base, n);
    lemma_headers_upto(plan, base, n, k);
    let toc = head + hs + zeros(8) + toc_data_upto(plan, n);
    let toc_padded = if toc.len() < 256 * n { toc + zeros((256 * n - toc.len()) as nat) } else { toc };
    assert(spec_archive_bytes(magic, unknown, unk4, plan).0 == toc_padded);
    let p = head.len() + 80 * k;
    assert(toc_padded.subrange(p, p + 80) =~= hs.subrange(80 * k, 80 * k + 80));
    assert(toc_padded.subrange(0, 4) =~= spec_u32_to_le_bytes(magic));
    assert(toc_padded.subrange(8, 12) =~= spec_u32_to_le_bytes(n as u32));
    let hb = toc_header_bytes(planned_header(plan, base, k));
    crate::wwise::toc::law_toc_header_roundtrip(planned_header(plan, base, k));
    lemma_toc_header_at_shift(toc_padded, p, hb);
}

/// Reading a header inside a longer buffer is reading it on its own.
proof fn lemma_toc_header_at_shift(s: Seq<u8>, p: int, hb: Seq<u8>)
    requires
        0 <= p,
        p + 80 <= s.len(),
        hb.len() == 80,
        s.subrange(p, p + 80) == hb,
    ensures
        crate::wwise::toc::toc_header_at(s, p) == crate::wwise::toc::toc_header_at(hb, 0),
{
    assert forall|a: int, b: int| 0 <= a <= b <= 80 implies #[trigger] s.subrange(p + a, p + b) == hb.subrange(a, b) by {
        assert(s.subrange(p + a, p + b) =~= hb.subrange(a, b));
    }
    assert(s.subrange(p, p + 8) == hb.subrange(0, 8));
    assert(s.subrange(p + 8, p + 16) == hb.subrange(8, 16));
    assert(s.subrange(p + 16, p + 24) == hb.subrange(16, 24));
    assert(s.subrange(p + 24, p + 32) == hb.subrange(24, 32));
    assert(s.subrange(p + 32, p + 40) == hb.subrange(32, 40));
    assert(s.subrange(p + 40, p + 48) == hb.subrange(40, 48));
    assert(s.subrange(p + 48, p + 56) == hb.subrange(48, 56));
    assert(s.subrange(p + 56, p + 60) == hb.subrange(56, 60));
    assert(s.subrange(p + 60, p + 64) == hb.subrange(60, 64));
    assert(s.subrange(p + 64, p + 68) == hb.subrange(64, 68));
    assert(s.subrange(p + 68, p + 72) == hb.subrange(68, 72));
    assert(s.subrange(p + 72, p + 76) == hb.subrange(72, 76));
    assert(s.subrange(p + 76, p + 80) == hb.subrange(76, 80));
}

} // verus!
