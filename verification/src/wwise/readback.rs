//! What reading a written archive gives back: the reader walks exactly the
//! resources the writer planned, in order, each decoded from its own bytes.

use vstd::prelude::*;
use vstd::bytes::*;
use crate::buf::{align16, padded16};
use crate::keyed::keyed;
use crate::le::le_u32_at;
use crate::memstream::zeros;
use crate::mixed::resized;
use crate::wwise::archive::{
    archive_head, law_archive_headers_read_back, lemma_upto_len, num_types, plan_size, planned_header,
    spec_archive_bytes, stream_piece, stream_size_field, toc_size_field, type_of, stream_upto, toc_data_upto, toc_piece, type_entry, type_table,
    ResourceKind, ResourceModel, ARCHIVE_MAGIC,
};
use crate::wwise::toc::TocHeader;
use crate::wwise::load::{
    apply_event, empty_archive, fresh_stream, header_pos, spec_decode_bank, spec_event, spec_load, spec_walk,
    ArchiveModel, DepModel, Event,
};
use crate::wwise::sources::lossy_utf8;
use crate::wwise::text_bank::{fresh_models, spec_parse_text_bank};

verus! {

/// The TOC data of the first `m` resources begins that of the first `n`.
proof fn lemma_toc_data_prefix(plan: Seq<ResourceModel>, m: nat, n: nat)
    requires
        m <= n <= plan.len(),
    ensures
        toc_data_upto(plan, m).len() <= toc_data_upto(plan, n).len(),
        toc_data_upto(plan, n).subrange(0, toc_data_upto(plan, m).len() as int) == toc_data_upto(plan, m),
    decreases n - m,
{
    if m == n {
        assert(toc_data_upto(plan, n).subrange(0, toc_data_upto(plan, n).len() as int) =~= toc_data_upto(plan, n));
    } else {
        lemma_toc_data_prefix(plan, (m + 1) as nat, n);
        let a = toc_data_upto(plan, m);
        let b = toc_data_upto(plan, (m + 1) as nat);
        assert(toc_data_upto(plan, n).subrange(0, a.len() as int) =~= b.subrange(0, a.len() as int));
        assert(b.subrange(0, a.len() as int) =~= a);
    }
}

/// The stream bytes of the first `m` resources begin those of the first `n`.
proof fn lemma_stream_prefix(plan: Seq<ResourceModel>, m: nat, n: nat)
    requires
        m <= n <= plan.len(),
    ensures
        stream_upto(plan, m).len() <= stream_upto(plan, n).len(),
        stream_upto(plan, n).subrange(0, stream_upto(plan, m).len() as int) == stream_upto(plan, m),
    decreases n - m,
{
    if m == n {
        assert(stream_upto(plan, n).subrange(0, stream_upto(plan, n).len() as int) =~= stream_upto(plan, n));
    } else {
        lemma_stream_prefix(plan, (m + 1) as nat, n);
        let a = stream_upto(plan, m);
        let b = stream_upto(plan, (m + 1) as nat);
        assert(stream_upto(plan, n).subrange(0, a.len() as int) =~= b.subrange(0, a.len() as int));
        assert(b.subrange(0, a.len() as int) =~= a);
    }
}

/// The `k`-th resource's TOC data and stream bytes stand where the ones
/// before it end.
proof fn lemma_piece_at(plan: Seq<ResourceModel>, k: nat, n: nat)
    requires
        k < n <= plan.len(),
    ensures
        ({
            let (kind, id, data) = plan[k as int];
            let t = toc_data_upto(plan, k).len() as int;
            let s = stream_upto(plan, k).len() as int;
            let tp = toc_piece(kind, id, data);
            let sp = stream_piece(kind, data);
            &&& t + tp.len() <= toc_data_upto(plan, n).len()
            &&& toc_data_upto(plan, n).subrange(t, t + tp.len()) == tp
            &&& s + sp.len() <= stream_upto(plan, n).len()
            &&& stream_upto(plan, n).subrange(s, s + sp.len()) == sp
        }),
{
    lemma_toc_data_prefix(plan, (k + 1) as nat, n);
    lemma_stream_prefix(plan, (k + 1) as nat, n);
    let (kind, id, data) = plan[k as int];
    let a = toc_data_upto(plan, k);
    let tp = toc_piece(kind, id, data);
    let b = toc_data_upto(plan, (k + 1) as nat);
    let t = a.len() as int;
    let te = t + tp.len();
    assert(b == a + tp);
    assert(toc_data_upto(plan, n).subrange(t, te) =~= b.subrange(t, te));
    assert(b.subrange(t, te) =~= tp);
    let c = stream_upto(plan, k);
    let sp = stream_piece(kind, data);
    let d = stream_upto(plan, (k + 1) as nat);
    let s = c.len() as int;
    let se = s + sp.len();
    assert(d == c + sp);
    assert(stream_upto(plan, n).subrange(s, se) =~= d.subrange(s, se));
    assert(d.subrange(s, se) =~= sp);
}

/// A type-table entry is 32 bytes when there are resources of its type.
proof fn lemma_type_entry_len(type_id: u64, n: nat)
    ensures
        type_entry(type_id, n).len() == if n > 0 { 32int } else { 0int },
{
    lemma_auto_spec_u64_to_from_le_bytes();
    lemma_auto_spec_u32_to_from_le_bytes();
}

/// The head is 72 bytes and 32 per type present, and it gives the number of
/// types present.
proof fn lemma_head(magic: u32, unknown: u32, unk4: Seq<u8>, plan: Seq<ResourceModel>)
    ensures
        archive_head(magic, unknown, unk4, plan).len() == 72 + 32 * num_types(plan),
        num_types(plan) <= 5,
        le_u32_at(archive_head(magic, unknown, unk4, plan), 4) == num_types(plan),
        archive_head(magic, unknown, unk4, plan).subrange(12, 16) == spec_u32_to_le_bytes(unknown),
        archive_head(magic, unknown, unk4, plan).subrange(16, 72) == resized(unk4, 56),
{
    lemma_auto_spec_u32_to_from_le_bytes();
    let n = plan.len() as nat;
    lemma_type_entry_len(crate::WWISE_STREAM, crate::wwise::archive::count_kind(plan, ResourceKind::Stream, n));
    lemma_type_entry_len(crate::WWISE_BANK, crate::wwise::archive::count_kind(plan, ResourceKind::Bank, n));
    lemma_type_entry_len(crate::WWISE_DEP, crate::wwise::archive::count_kind(plan, ResourceKind::Dep, n));
    lemma_type_entry_len(crate::TEXT_BANK, crate::wwise::archive::count_kind(plan, ResourceKind::Text, n));
    lemma_type_entry_len(crate::BINK_VIDEO, crate::wwise::archive::count_kind(plan, ResourceKind::Video, n));
    let h = archive_head(magic, unknown, unk4, plan);
    assert(resized(unk4, 56).len() == 56) by {
        if unk4.len() < 56 {
            assert(zeros((56 - unk4.len()) as nat).len() == 56 - unk4.len());
        }
    }
    assert(h.subrange(4, 8) =~= spec_u32_to_le_bytes(num_types(plan) as u32));
    assert(h.subrange(12, 16) =~= spec_u32_to_le_bytes(unknown));
    assert(h.subrange(16, 72) =~= resized(unk4, 56));
}

/// What reading back one written resource gives: a stream or a video its
/// own bytes, a bank what its bytes decode to, a dependency its tag and
/// the name its length field counts off, a text bank what its bytes parse
/// to. `None` when a bank does not decode or a text bank does not parse.
pub open spec fn resource_event(r: ResourceModel) -> Option<Event> {
    let (kind, id, data) = r;
    match kind {
        ResourceKind::Stream => Some(Event::Stream(id, fresh_stream(id, data))),
        ResourceKind::Video => Some(Event::Video(id, (id, data.len() as u32, false, data, Seq::<u8>::empty()))),
        ResourceKind::Bank => match spec_decode_bank(id, data) {
            None => None,
            Some(b) => Some(Event::Bank(id, b)),
        },
        ResourceKind::Dep => Some(
            Event::Dep(
                DepModel {
                    tag: le_u32_at(data, 0),
                    name: lossy_utf8(data.subrange(8, 8 + le_u32_at(data, 4))),
                    skip: false,
                    file_id: id,
                },
            ),
        ),
        ResourceKind::Text => match spec_parse_text_bank(data) {
            None => None,
            Some((lang, ps)) => Some(Event::Text(id, (id, lang, keyed(fresh_models(ps)), false, 0))),
        },
    }
}

/// The containers after reading back resources `k..` of `plan` in order,
/// starting from `a`.
pub open spec fn plan_walk(plan: Seq<ResourceModel>, k: nat, a: ArchiveModel) -> Option<ArchiveModel>
    decreases plan.len() - k,
{
    if k >= plan.len() {
        Some(a)
    } else {
        match resource_event(plan[k as int]) {
            None => None,
            Some(e) => plan_walk(plan, k + 1, apply_event(a, e)),
        }
    }
}

/// A resource whose size fields hold its length, and, for a dependency,
/// whose name lies inside it.
pub open spec fn readable_resource(r: ResourceModel) -> bool {
    let (kind, id, data) = r;
    &&& data.len() + 16 <= u32::MAX
    &&& kind == ResourceKind::Dep ==> 8 <= data.len() && 8 + le_u32_at(data, 4) <= data.len()
}

/// A plan whose archive the offsets of its headers can address.
pub open spec fn readable_plan(plan: Seq<ResourceModel>) -> bool {
    &&& plan.len() <= u32::MAX
    &&& 400 + plan_size(plan, plan.len() as nat) <= u64::MAX
    &&& forall|i: int| 0 <= i < plan.len() ==> readable_resource(#[trigger] plan[i])
}

proof fn lemma_padded16(d: Seq<u8>)
    ensures
        padded16(d).len() >= d.len(),
        padded16(d).subrange(0, d.len() as int) == d,
{
    let l = d.len() as int;
    assert(align16(l) >= l) by (nonlinear_arith)
        requires
            l >= 0,
    ;
    assert(padded16(d).subrange(0, l) =~= d);
}

/// Inside a window equal to `piece`, reading is reading `piece`.
proof fn lemma_window(s: Seq<u8>, a: int, piece: Seq<u8>, i: int, j: int)
    requires
        0 <= a,
        a + piece.len() <= s.len(),
        s.subrange(a, a + piece.len()) == piece,
        0 <= i <= j <= piece.len(),
    ensures
        s.subrange(a + i, a + j) == piece.subrange(i, j),
{
    assert(s.subrange(a + i, a + j) =~= piece.subrange(i, j));
}

/// An entry whose header points at its own pieces decodes to what the
/// resource reads back as.
proof fn lemma_event_of_pieces(
    toc: Seq<u8>,
    stream: Seq<u8>,
    h: TocHeader,
    r: ResourceModel,
    o: int,
    so: int,
)
    requires
        readable_resource(r),
        h.file_id == r.1,
        h.type_id == type_of(r.0),
        0 <= o <= u64::MAX,
        0 <= so <= u64::MAX,
        h.toc_data_offset == o,
        h.stream_file_offset == so,
        h.toc_data_size == toc_size_field(r.0, r.2),
        h.stream_size == stream_size_field(r.0, r.2),
        o + toc_piece(r.0, r.1, r.2).len() <= toc.len(),
        toc.subrange(o, o + toc_piece(r.0, r.1, r.2).len()) == toc_piece(r.0, r.1, r.2),
        so + stream_piece(r.0, r.2).len() <= stream.len(),
        stream.subrange(so, so + stream_piece(r.0, r.2).len()) == stream_piece(r.0, r.2),
    ensures
        spec_event(toc, stream, h) == resource_event(r),
{
    lemma_auto_spec_u64_to_from_le_bytes();
    lemma_auto_spec_u32_to_from_le_bytes();
    let (kind, id, data) = r;
    let len = data.len() as int;
    let tp = toc_piece(kind, id, data);
    let sp = stream_piece(kind, data);
    lemma_padded16(data);
    match kind {
        ResourceKind::Stream => {
            assert(h.stream_size == len);
            lemma_window(stream, so, sp, 0, len);
        },
        ResourceKind::Video => {
            assert(h.stream_size == len);
            lemma_window(stream, so, sp, 0, len);
        },
        ResourceKind::Bank => {
            assert(h.toc_data_size == len + 16);
            assert(tp.len() == 16 + padded16(data).len());
            lemma_window(toc, o, tp, 16, 16 + len);
            assert(tp.subrange(16, 16 + len) =~= data);
        },
        ResourceKind::Text => {
            assert(h.toc_data_size == len);
            lemma_window(toc, o, tp, 0, len);
        },
        ResourceKind::Dep => {
            let n = le_u32_at(data, 4) as int;
            lemma_window(toc, o, tp, 0, 4);
            lemma_window(toc, o, tp, 4, 8);
            assert(tp.subrange(0, 4) =~= data.subrange(0, 4));
            assert(tp.subrange(4, 8) =~= data.subrange(4, 8));
            assert(le_u32_at(toc, o) == le_u32_at(data, 0));
            assert(le_u32_at(toc, o + 4) == le_u32_at(data, 4));
            lemma_window(toc, o, tp, 8, 8 + n);
            assert(tp.subrange(8, 8 + n) =~= data.subrange(8, 8 + n));
        },
    }
}

/// Where the parts of a written TOC stand.
proof fn lemma_layout(magic: u32, unknown: u32, unk4: Seq<u8>, plan: Seq<ResourceModel>)
    requires
        plan.len() <= u32::MAX,
    ensures
        ({
            let toc = spec_archive_bytes(magic, unknown, unk4, plan).0;
            let head = archive_head(magic, unknown, unk4, plan);
            let n = plan.len() as nat;
            let base = (head.len() + 80 * n + 8) as int;
            let tdu = toc_data_upto(plan, n);
            &&& head.len() == 72 + 32 * num_types(plan)
            &&& num_types(plan) <= 5
            &&& base + tdu.len() <= toc.len()
            &&& toc.subrange(base, base + tdu.len()) == tdu
            &&& le_u32_at(toc, 0) == magic
            &&& le_u32_at(toc, 4) == num_types(plan)
            &&& le_u32_at(toc, 8) == n
            &&& le_u32_at(toc, 12) == unknown
            &&& toc.subrange(16, 72) == resized(unk4, 56)
        }),
{
    lemma_auto_spec_u32_to_from_le_bytes();
    lemma_head(magic, unknown, unk4, plan);
    let n = plan.len() as nat;
    let head = archive_head(magic, unknown, unk4, plan);
    let base = (head.len() + 80 * n + 8) as int;
    let hs = crate::wwise::archive::headers_upto(plan, base, n);
    crate::wwise::archive::lemma_headers_upto_len(plan, base, n);
    let tdu = toc_data_upto(plan, n);
    let raw = head + hs + zeros(8) + tdu;
    let toc = if raw.len() < 256 * n { raw + zeros((256 * n - raw.len()) as nat) } else { raw };
    assert(spec_archive_bytes(magic, unknown, unk4, plan).0 == toc);
    assert(toc.subrange(base, base + tdu.len()) =~= tdu);
    assert(toc.subrange(0, 4) =~= head.subrange(0, 4));
    assert(toc.subrange(4, 8) =~= head.subrange(4, 8));
    assert(toc.subrange(8, 12) =~= head.subrange(8, 12));
    assert(toc.subrange(12, 16) =~= head.subrange(12, 16));
    assert(toc.subrange(16, 72) =~= head.subrange(16, 72));
    assert(head.subrange(0, 4) =~= spec_u32_to_le_bytes(magic));
    assert(head.subrange(8, 12) =~= spec_u32_to_le_bytes(n as u32));
}

/// The `k`-th header of a written archive stands where the reader looks
/// for it, and its entry reads back as the `k`-th resource.
proof fn lemma_entry(magic: u32, unknown: u32, unk4: Seq<u8>, plan: Seq<ResourceModel>, k: int)
    requires
        readable_plan(plan),
        0 <= k < plan.len(),
    ensures
        ({
            let (toc, stream) = spec_archive_bytes(magic, unknown, unk4, plan);
            let p = header_pos(toc, k);
            &&& p + 80 <= toc.len()
            &&& spec_event(toc, stream, crate::wwise::toc::toc_header_at(toc, p)) == resource_event(plan[k])
        }),
{
    let (toc, stream) = spec_archive_bytes(magic, unknown, unk4, plan);
    let n = plan.len() as nat;
    let head = archive_head(magic, unknown, unk4, plan);
    let base = (head.len() + 80 * n + 8) as int;
    let tdu = toc_data_upto(plan, n);
    lemma_layout(magic, unknown, unk4, plan);
    law_archive_headers_read_back(magic, unknown, unk4, plan, k);
    lemma_piece_at(plan, k as nat, n);
    lemma_upto_len(plan, n);
    lemma_upto_len(plan, k as nat);
    let (kind, id, data) = plan[k];
    let t = toc_data_upto(plan, k as nat).len() as int;
    let tp = toc_piece(kind, id, data);
    let s = stream_upto(plan, k as nat).len() as int;
    assert(readable_resource(plan[k]));
    lemma_window(toc, base, tdu, t, t + tp.len());
    let h = planned_header(plan, base, k);
    assert(header_pos(toc, k) == head.len() + 80 * k);
    lemma_event_of_pieces(toc, stream, h, plan[k], base + t, s);
}

proof fn lemma_walk(magic: u32, unknown: u32, unk4: Seq<u8>, plan: Seq<ResourceModel>, k: nat, a: ArchiveModel)
    requires
        readable_plan(plan),
        k <= plan.len(),
    ensures
        ({
            let (toc, stream) = spec_archive_bytes(magic, unknown, unk4, plan);
            spec_walk(toc, stream, k, plan.len() as nat, a) == plan_walk(plan, k, a)
        }),
    decreases plan.len() - k,
{
    if k < plan.len() {
        lemma_entry(magic, unknown, unk4, plan, k as int);
        match resource_event(plan[k as int]) {
            None => {},
            Some(e) => lemma_walk(magic, unknown, unk4, plan, k + 1, apply_event(a, e)),
        }
    }
}

/// Reading back a written archive gives what was written: its magic, its
/// `unknown` field, the 56 bytes after it, and the containers that reading
/// each resource in the order written yields, each from its own bytes.
/// With a magic other than the archive magic, the reader stops at the magic.
pub proof fn law_archive_read_back(magic: u32, unknown: u32, unk4: Seq<u8>, plan: Seq<ResourceModel>)
    requires
        readable_plan(plan),
    ensures
        ({
            let (toc, stream) = spec_archive_bytes(magic, unknown, unk4, plan);
            spec_load(toc, stream) == if magic == ARCHIVE_MAGIC {
                match plan_walk(plan, 0, empty_archive()) {
                    None => None,
                    Some(a) => Some((ARCHIVE_MAGIC, unknown, resized(unk4, 56), a)),
                }
            } else {
                Some((magic, 0u32, Seq::<u8>::empty(), empty_archive()))
            }
        }),
{
    lemma_layout(magic, unknown, unk4, plan);
    lemma_walk(magic, unknown, unk4, plan, 0, empty_archive());
}

} // verus!
