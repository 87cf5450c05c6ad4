//! Reading an audio archive: each sound bank decoded from its chunks, and
//! the TOC walked resource by resource into the archive's keyed containers.

use vstd::prelude::*;
use crate::keyed::{
    has_key, key_index, keyed, keys_unique, lemma_key_index_unique, lemma_map_vals_unique, lemma_upsert_map,
    lemma_upsert_unique, map_vals, upsert, upsert_u32, upsert_u64, value_or,
};
use crate::text::decimal;
use crate::wwise::bank::{
    bank_bytes, bank_header_chunk, chunk_bytes, chunk_views, chunks_from, media_items, misc_bytes,
    misc_chunk_data, spec_bank_version, spec_media, bank_version, BankParser,
};
use crate::wwise::hierarchy::{
    entries_bytes, entry_parts, hierarchy_data, parse_hierarchy_entries, spec_hierarchy_entries, BankVersion, HircEntry,
};
use crate::wwise::sources::WwiseDep;
use vstd::bytes::spec_u32_to_le_bytes;
use crate::buf::copy_bytes;
use crate::le::{le_u32_at, u32_in};
use crate::memstream::MemoryStream;
use crate::wwise::archive::{
    lemma_plan_size_mono, plan_size, resource_views, spec_archive_bytes, write_archive, Resource, ResourceKind, ResourceModel,
    ARCHIVE_MAGIC,
};
use crate::wwise::sources::{lossy_utf8, AudioSource, VideoSource, WwiseStream, STREAM_TYPE_STREAM};
use crate::wwise::text_bank::{
    entry_models, fresh_models, spec_parse_text_bank, spec_text_bank_bytes, texts_bytes, EntryModel, StringEntry, TextBank,
};
use vstd::utf8::encode_utf8;
use crate::wwise::toc::{toc_header_at, TocHeader};
use crate::{BINK_VIDEO, TEXT_BANK, WWISE_BANK, WWISE_DEP, WWISE_STREAM};

verus! {

/// An entry's type, size, id and remaining bytes.
pub type HircParts = (u8, u32, u32, Seq<u8>);

/// Entries under their ids.
pub open spec fn hirc_pairs(v: Seq<HircEntry>) -> Seq<(u32, HircParts)> {
    v.map_values(|e: HircEntry| (e.spec_id(), entry_parts(e)))
}

/// Parsed entries keyed by their ids, as a hierarchy holds them.
pub open spec fn keyed_parts(ps: Seq<HircParts>) -> Seq<(u32, HircParts)> {
    keyed(ps.map_values(|p: HircParts| (p.2, p)))
}

/// A bank dependency as a value.
pub struct DepModel {
    pub tag: u32,
    pub name: Seq<char>,
    pub skip: bool,
    pub file_id: u64,
}

pub open spec fn dep_model(d: WwiseDep) -> DepModel {
    DepModel { tag: d.tag, name: d.data@, skip: d.skip, file_id: d.file_id }
}

/// The dependency a bank gets before any is read for it.
pub open spec fn synthesized_dep(file_id: u64) -> DepModel {
    DepModel { tag: 0, name: "Bank "@ + decimal(file_id as nat), skip: true, file_id }
}

/// A sound bank as a value.
pub struct BankModel {
    pub file_id: u64,
    pub header: Seq<u8>,
    pub misc: Seq<u8>,
    pub version: BankVersion,
    pub entries: Seq<(u32, HircParts)>,
    pub dep: DepModel,
    pub modified: bool,
    pub modified_count: u32,
}

/// A sound bank: its BKHD chunk, its hierarchy (entries under unique ids),
/// the chunks it keeps verbatim and its dependency record.
#[derive(Debug, Clone)]
pub struct WwiseBank {
    pub file_id: u64,
    pub bank_header: Vec<u8>,
    pub bank_misc_data: Vec<u8>,
    pub modified: bool,
    pub modified_count: u32,
    pub dep: WwiseDep,
    pub version: BankVersion,
    pub entries: Vec<HircEntry>,
}

pub open spec fn bank_model(b: WwiseBank) -> BankModel {
    BankModel {
        file_id: b.file_id,
        header: b.bank_header@,
        misc: b.bank_misc_data@,
        version: b.version,
        entries: hirc_pairs(b.entries@),
        dep: dep_model(b.dep),
        modified: b.modified,
        modified_count: b.modified_count,
    }
}

/// The HIRC tag's bytes.
pub open spec fn hirc_tag() -> Seq<u8> {
    seq![72u8, 73u8, 82u8, 67u8]
}

/// The BKHD tag's bytes.
pub open spec fn bkhd_tag() -> Seq<u8> {
    seq![66u8, 75u8, 72u8, 68u8]
}

/// A bank with one more modification counted.
pub open spec fn raised(m: BankModel) -> BankModel {
    BankModel { modified: true, modified_count: (m.modified_count + 1) as u32, ..m }
}

/// A bank with one modification taken back; an unmodified bank as it is.
pub open spec fn lowered(m: BankModel) -> BankModel {
    if m.modified {
        let c = (m.modified_count - 1) as u32;
        BankModel { modified: c > 0, modified_count: c, ..m }
    } else {
        m
    }
}

/// Taking back a modification undoes counting it: a bank marked modified
/// exactly while it has modifications comes back as it was.
pub proof fn law_lower_undoes_raise(m: BankModel)
    requires
        m.modified == (m.modified_count > 0),
        m.modified_count < u32::MAX,
    ensures
        lowered(raised(m)) == m,
{
}

impl WwiseBank {
    /// A copy of the bank.
    pub fn duplicate(&self) -> (r: WwiseBank)
        ensures
            bank_model(r) == bank_model(*self),
    {
        let mut entries: Vec<HircEntry> = Vec::new();
        let mut k: usize = 0;
        while k < self.entries.len()
            invariant
                k <= self.entries@.len(),
                hirc_pairs(entries@) == hirc_pairs(self.entries@.take(k as int)),
            decreases self.entries@.len() - k,
        {
            let e = self.entries[k].duplicate();
            let ghost before = entries@;
            entries.push(e);
            assert(hirc_pairs(entries@) =~= hirc_pairs(before).push((e.spec_id(), entry_parts(e))));
            assert(self.entries@.take(k + 1) =~= self.entries@.take(k as int).push(self.entries@[k as int]));
            assert(hirc_pairs(self.entries@.take(k + 1)) =~= hirc_pairs(self.entries@.take(k as int)).push(
                (self.entries@[k as int].spec_id(), entry_parts(self.entries@[k as int])),
            ));
            k = k + 1;
        }
        assert(self.entries@.take(k as int) =~= self.entries@);
        let r = WwiseBank {
            file_id: self.file_id,
            bank_header: copy_bytes(self.bank_header.as_slice()),
            bank_misc_data: copy_bytes(self.bank_misc_data.as_slice()),
            modified: self.modified,
            modified_count: self.modified_count,
            dep: self.dep.duplicate(),
            version: self.version,
            entries,
        };
        assert(bank_model(r) =~= bank_model(*self));
        r
    }

    /// The bank is marked modified exactly while modifications are
    /// outstanding.
    pub open spec fn wf(&self) -> bool {
        self.modified == (self.modified_count > 0)
    }

    pub fn id(&self) -> (id: u64)
        ensures
            id == self.file_id,
    {
        self.file_id
    }

    /// Counts one more modification and marks the bank modified.
    pub fn raise_modified(&mut self)
        requires
            old(self).modified_count < u32::MAX,
        ensures
            bank_model(*final(self)) == raised(bank_model(*old(self))),
            final(self).wf(),
    {
        self.modified = true;
        self.modified_count = self.modified_count + 1;
    }

    /// Takes back one modification of a modified bank; the bank is no longer
    /// marked modified once none are left. An unmodified bank is unchanged.
    pub fn lower_modified(&mut self)
        requires
            old(self).wf(),
        ensures
            bank_model(*final(self)) == lowered(bank_model(*old(self))),
            final(self).wf(),
    {
        if self.modified {
            self.modified_count = self.modified_count - 1;
            if self.modified_count == 0 {
                self.modified = false;
            }
        }
    }

    /// The bank's bytes: its BKHD chunk, a HIRC chunk listing its entries,
    /// then its verbatim chunks.
    pub fn generate(&self) -> (out: Vec<u8>)
        ensures
            out@ == self.bank_header@ + chunk_bytes(
                hirc_tag(),
                spec_u32_to_le_bytes(self.entries@.len() as u32) + entries_bytes(self.entries@),
            ) + self.bank_misc_data@,
    {
        let h = hierarchy_data(self.entries.as_slice());
        bank_bytes(self.bank_header.as_slice(), h.as_slice(), self.bank_misc_data.as_slice())
    }
}

/// Inserts `e` under its id: in place of an entry with the same id, else at
/// the end.
fn upsert_hirc(acc: &mut Vec<HircEntry>, e: HircEntry)
    requires
        keys_unique(hirc_pairs(old(acc)@)),
    ensures
        hirc_pairs(final(acc)@) == upsert(hirc_pairs(old(acc)@), e.spec_id(), entry_parts(e)),
        keys_unique(hirc_pairs(final(acc)@)),
{
    let ghost ev = (e.spec_id(), entry_parts(e));
    proof {
        lemma_upsert_unique(hirc_pairs(acc@), ev.0, ev.1);
    }
    let id = e.id();
    let n = acc.len();
    let mut i: usize = 0;
    while i < n
        invariant
            i <= n,
            n == acc@.len(),
            acc@ == old(acc)@,
            ev == (e.spec_id(), entry_parts(e)),
            id == ev.0,
            keys_unique(hirc_pairs(acc@)),
            forall|j: int| 0 <= j < i ==> (#[trigger] hirc_pairs(acc@)[j]).0 != ev.0,
        decreases n - i,
    {
        if acc[i].id() == id {
            proof {
                lemma_key_index_unique(hirc_pairs(acc@), ev.0, i as int);
            }
            let ghost before = hirc_pairs(acc@);
            acc[i] = e;
            assert(hirc_pairs(acc@) =~= before.update(i as int, ev));
            return;
        }
        i = i + 1;
    }
    proof {
        if has_key(hirc_pairs(acc@), ev.0) {
            let j = key_index(hirc_pairs(acc@), ev.0);
            assert(hirc_pairs(acc@)[j].0 == ev.0);
        }
    }
    let ghost before = hirc_pairs(acc@);
    acc.push(e);
    assert(hirc_pairs(acc@) =~= before.push(ev));
}

/// Entries as a hierarchy holds them: each id once, where it first came,
/// with the entry it was last given.
pub fn keyed_hirc(v: Vec<HircEntry>) -> (r: Vec<HircEntry>)
    ensures
        hirc_pairs(r@) == keyed(hirc_pairs(v@)),
{
    let ghost all = hirc_pairs(v@);
    let mut rest = v;
    let mut acc: Vec<HircEntry> = Vec::new();
    let ghost mut k: int = 0;
    assert(hirc_pairs(acc@) =~= keyed(all.take(0)));
    while rest.len() > 0
        invariant
            0 <= k <= all.len(),
            hirc_pairs(rest@) == all.skip(k),
            hirc_pairs(acc@) == keyed(all.take(k)),
            keys_unique(hirc_pairs(acc@)),
        decreases rest@.len(),
    {
        let ghost before_rest = hirc_pairs(rest@);
        let e = rest.remove(0);
        assert(hirc_pairs(rest@) =~= before_rest.drop_first());
        assert(all.take(k + 1).drop_last() =~= all.take(k));
        assert(all[k] == (e.spec_id(), entry_parts(e))) by {
            assert(before_rest[0] == all.skip(k)[0]);
        }
        upsert_hirc(&mut acc, e);
        proof {
            k = k + 1;
        }
        assert(all.skip(k) =~= before_rest.drop_first());
    }
    assert(all.take(k) =~= all);
    acc
}

/// A bank decoded from its bytes: its chunks keyed by tag (a repeated tag
/// keeps its first place and its last payload); the BKHD payload, which
/// must hold the version field; the HIRC entries keyed by id, when there is
/// a HIRC chunk; the DIDX media, which must lie inside DATA; and the
/// remaining chunks kept verbatim. `None` when a chunk, the version, an
/// entry or a medium is cut short.
pub open spec fn spec_decode_bank(file_id: u64, bank: Seq<u8>) -> Option<BankModel> {
    match chunks_from(bank, 0) {
        None => None,
        Some(raw) => {
            let cs = keyed(raw);
            let bkhd = value_or(cs, "BKHD"@, Seq::<u8>::empty());
            let parsed = if has_key(cs, "HIRC"@) {
                spec_hierarchy_entries(value_or(cs, "HIRC"@, Seq::<u8>::empty()))
            } else {
                Some(Seq::<HircParts>::empty())
            };
            let didx = value_or(cs, "DIDX"@, Seq::<u8>::empty());
            let media_ok = !has_key(cs, "DIDX"@) || spec_media(
                didx,
                value_or(cs, "DATA"@, Seq::<u8>::empty()),
                didx.len() / 12,
            ) is Some;
            if bkhd.len() < 4 || parsed is None || !media_ok {
                None
            } else {
                Some(
                    BankModel {
                        file_id,
                        header: chunk_bytes(bkhd_tag(), bkhd),
                        misc: misc_bytes(cs, cs.len()),
                        version: spec_bank_version(bkhd),
                        entries: keyed_parts(parsed.unwrap()),
                        dep: synthesized_dep(file_id),
                        modified: false,
                        modified_count: 0,
                    },
                )
            }
        },
    }
}

/// Decodes a bank's bytes, with the dependency it has until one is read.
pub fn decode_bank(file_id: u64, bank: &[u8]) -> (r: Option<WwiseBank>)
    ensures
        match spec_decode_bank(file_id, bank@) {
            Some(m) => r matches Some(b) && bank_model(b) == m && b.wf(),
            None => r is None,
        },
{
    let parser = match BankParser::load(bank) {
        Some(p) => p,
        None => return None,
    };
    let ghost cv = chunk_views(parser.chunks@);
    let bkhd = parser.get_chunk("BKHD");
    if bkhd.len() < 4 {
        return None;
    }
    let version = bank_version(bkhd);
    let header = bank_header_chunk(bkhd);
    let hi = parser.find("HIRC");
    let entries: Vec<HircEntry> = match hi {
        Some(i) => match parse_hierarchy_entries(parser.chunks[i].payload.as_slice()) {
            Some(es) => {
                let ghost parsed = es@.map_values(|e: HircEntry| entry_parts(e));
                assert(hirc_pairs(es@) =~= parsed.map_values(|p: HircParts| (p.2, p)));
                keyed_hirc(es)
            },
            None => return None,
        },
        None => {
            let v: Vec<HircEntry> = Vec::new();
            assert(hirc_pairs(v@) =~= keyed_parts(Seq::<HircParts>::empty()));
            v
        },
    };
    if parser.find("DIDX").is_some() {
        let didx = parser.get_chunk("DIDX");
        let data = parser.get_chunk("DATA");
        if media_items(didx, data).is_none() {
            return None;
        }
    }
    let misc = misc_chunk_data(parser.chunks.as_slice());
    let dep = WwiseDep::synthesized(file_id, file_id);
    Some(
        WwiseBank {
            file_id,
            bank_header: header,
            bank_misc_data: misc,
            modified: false,
            modified_count: 0,
            dep,
            version,
            entries,
        },
    )
}

// ---------------------------------------------------------------------------
// Walking the TOC.

/// A streamed resource as a value: its id, whether it is modified, then its
/// source's bytes, resource id, short id, modified flag, old bytes and
/// stream type.
pub type StreamModel = (u64, bool, Seq<u8>, u64, u32, bool, Seq<u8>, u32);

pub open spec fn stream_model(s: WwiseStream) -> StreamModel {
    (
        s.file_id,
        s.modified,
        s.audio_source.data@,
        s.audio_source.resource_id,
        s.audio_source.short_id,
        s.audio_source.modified,
        s.audio_source.data_old@,
        s.audio_source.stream_type,
    )
}

/// A stream as read: unmodified, its source a stream-type source under the
/// stream's own id.
pub open spec fn fresh_stream(id: u64, data: Seq<u8>) -> StreamModel {
    (id, false, data, id, 0, false, Seq::<u8>::empty(), STREAM_TYPE_STREAM)
}

/// A video as a value: id, size, modified, original and replacement bytes.
pub type VideoModel = (u64, u32, bool, Seq<u8>, Seq<u8>);

pub open spec fn video_model(v: VideoSource) -> VideoModel {
    (v.file_id, v.video_size, v.modified, v.original_data@, v.replacement_data@)
}

/// A text bank as a value: id, language, strings, modified and count.
pub type TextModel = (u64, u32, Seq<(u32, EntryModel)>, bool, u32);

pub open spec fn text_model(t: TextBank) -> TextModel {
    (t.file_id, t.language, entry_models(t.entries@), t.modified, t.modified_count)
}

pub open spec fn stream_map() -> spec_fn(WwiseStream) -> StreamModel {
    |s: WwiseStream| stream_model(s)
}

pub open spec fn bank_map() -> spec_fn(WwiseBank) -> BankModel {
    |b: WwiseBank| bank_model(b)
}

pub open spec fn text_map() -> spec_fn(TextBank) -> TextModel {
    |t: TextBank| text_model(t)
}

pub open spec fn video_map() -> spec_fn(VideoSource) -> VideoModel {
    |v: VideoSource| video_model(v)
}

/// An archive's containers as values, each keyed by file id.
pub struct ArchiveModel {
    pub streams: Seq<(u64, StreamModel)>,
    pub banks: Seq<(u64, BankModel)>,
    pub texts: Seq<(u64, TextModel)>,
    pub videos: Seq<(u64, VideoModel)>,
    pub hierarchy: Seq<(u32, HircParts)>,
}

pub open spec fn empty_archive() -> ArchiveModel {
    ArchiveModel {
        streams: Seq::empty(),
        banks: Seq::empty(),
        texts: Seq::empty(),
        videos: Seq::empty(),
        hierarchy: Seq::empty(),
    }
}

/// `s` after inserting each of `es` in turn.
pub open spec fn upsert_all<K, V>(s: Seq<(K, V)>, es: Seq<(K, V)>) -> Seq<(K, V)>
    decreases es.len(),
{
    if es.len() == 0 {
        s
    } else {
        upsert(upsert_all(s, es.drop_last()), es.last().0, es.last().1)
    }
}

/// What one TOC entry contributes.
pub enum Event {
    Stream(u64, StreamModel),
    Bank(u64, BankModel),
    Dep(DepModel),
    Text(u64, TextModel),
    Video(u64, VideoModel),
    Other,
}

/// The containers after one entry: streams, banks, text banks and videos
/// are inserted under their ids, and a bank's hierarchy entries under
/// theirs into the archive's hierarchy; a dependency replaces that of the
/// bank of its id when one is already there, and is dropped otherwise.
pub open spec fn apply_event(a: ArchiveModel, e: Event) -> ArchiveModel {
    match e {
        Event::Stream(id, m) => ArchiveModel { streams: upsert(a.streams, id, m), ..a },
        Event::Bank(id, m) => ArchiveModel {
            banks: upsert(a.banks, id, m),
            hierarchy: upsert_all(a.hierarchy, m.entries),
            ..a
        },
        Event::Dep(d) => if has_key(a.banks, d.file_id) {
            let i = key_index(a.banks, d.file_id);
            ArchiveModel { banks: a.banks.update(i, (d.file_id, BankModel { dep: d, ..a.banks[i].1 })), ..a }
        } else {
            a
        },
        Event::Text(id, m) => ArchiveModel { texts: upsert(a.texts, id, m), ..a },
        Event::Video(id, m) => ArchiveModel { videos: upsert(a.videos, id, m), ..a },
        Event::Other => a,
    }
}

/// What the entry with header `h` holds. Streams and videos are their
/// bytes in the stream sidecar; a bank is decoded from its TOC data after
/// a 16-byte prefix; a dependency is a tag, a byte length and a name at its
/// TOC data offset; a text bank is parsed from its TOC data; other types
/// hold nothing. `None` when what the entry points at is not all there or
/// does not decode.
pub open spec fn spec_event(toc: Seq<u8>, stream: Seq<u8>, h: TocHeader) -> Option<Event> {
    let o = h.toc_data_offset as int;
    let tds = h.toc_data_size as int;
    if h.type_id == WWISE_STREAM || h.type_id == BINK_VIDEO {
        let so = h.stream_file_offset as int;
        let n = h.stream_size as int;
        if so + n > stream.len() {
            None
        } else if h.type_id == WWISE_STREAM {
            Some(Event::Stream(h.file_id, fresh_stream(h.file_id, stream.subrange(so, so + n))))
        } else {
            Some(
                Event::Video(
                    h.file_id,
                    (h.file_id, h.stream_size, false, stream.subrange(so, so + n), Seq::<u8>::empty()),
                ),
            )
        }
    } else if h.type_id == WWISE_BANK {
        if tds < 16 || o + tds > toc.len() {
            None
        } else {
            match spec_decode_bank(h.file_id, toc.subrange(o + 16, o + tds)) {
                None => None,
                Some(b) => Some(Event::Bank(h.file_id, b)),
            }
        }
    } else if h.type_id == WWISE_DEP {
        if o + 8 > toc.len() || o + 8 + le_u32_at(toc, o + 4) > toc.len() {
            None
        } else {
            let n = le_u32_at(toc, o + 4) as int;
            Some(
                Event::Dep(
                    DepModel {
                        tag: le_u32_at(toc, o),
                        name: lossy_utf8(toc.subrange(o + 8, o + 8 + n)),
                        skip: false,
                        file_id: h.file_id,
                    },
                ),
            )
        }
    } else if h.type_id == TEXT_BANK {
        if o + tds > toc.len() {
            None
        } else {
            match spec_parse_text_bank(toc.subrange(o, o + tds)) {
                None => None,
                Some((lang, ps)) => Some(Event::Text(h.file_id, (h.file_id, lang, keyed(fresh_models(ps)), false, 0))),
            }
        }
    } else {
        Some(Event::Other)
    }
}

/// Where the `k`-th TOC header stands: after the 72-byte main header and
/// the type table.
pub open spec fn header_pos(toc: Seq<u8>, k: int) -> int {
    72 + 32 * le_u32_at(toc, 4) + 80 * k
}

/// The containers after entries `k..nf`, starting from `a`; `None` when a
/// header or an entry is not all there.
pub open spec fn spec_walk(toc: Seq<u8>, stream: Seq<u8>, k: nat, nf: nat, a: ArchiveModel) -> Option<ArchiveModel>
    decreases nf - k,
{
    if k >= nf {
        Some(a)
    } else {
        let p = header_pos(toc, k as int);
        if p + 80 > toc.len() {
            None
        } else {
            match spec_event(toc, stream, toc_header_at(toc, p)) {
                None => None,
                Some(e) => spec_walk(toc, stream, k + 1, nf, apply_event(a, e)),
            }
        }
    }
}

/// An archive read from its TOC and stream sidecar: its magic, its
/// `unknown` field, the 56 bytes after it and its containers. A TOC with
/// another magic gives that magic and nothing else. `None` when the TOC is
/// shorter than its magic, or than its main header, or a header or entry
/// is not all there.
pub open spec fn spec_load(toc: Seq<u8>, stream: Seq<u8>) -> Option<(u32, u32, Seq<u8>, ArchiveModel)> {
    if toc.len() < 4 {
        None
    } else if le_u32_at(toc, 0) != ARCHIVE_MAGIC {
        Some((le_u32_at(toc, 0), 0, Seq::empty(), empty_archive()))
    } else if toc.len() < 72 {
        None
    } else {
        match spec_walk(toc, stream, 0, le_u32_at(toc, 8) as nat, empty_archive()) {
            None => None,
            Some(a) => Some((ARCHIVE_MAGIC, le_u32_at(toc, 12), toc.subrange(16, 72), a)),
        }
    }
}

/// One decoded TOC entry.
pub enum LoadItem {
    Stream(WwiseStream),
    Bank(WwiseBank),
    Dep(WwiseDep),
    Text(TextBank),
    Video(VideoSource),
    Other,
}

pub open spec fn item_event(i: LoadItem) -> Event {
    match i {
        LoadItem::Stream(s) => Event::Stream(s.file_id, stream_model(s)),
        LoadItem::Bank(b) => Event::Bank(b.file_id, bank_model(b)),
        LoadItem::Dep(d) => Event::Dep(dep_model(d)),
        LoadItem::Text(t) => Event::Text(t.file_id, text_model(t)),
        LoadItem::Video(v) => Event::Video(v.file_id, video_model(v)),
        LoadItem::Other => Event::Other,
    }
}

/// Decodes the entry with header `h`; `ms` holds the TOC.
fn read_item(ms: &mut MemoryStream, toc: &[u8], stream: &[u8], h: TocHeader) -> (r: Option<LoadItem>)
    requires
        old(ms).wf(),
        old(ms).contents() == toc@,
    ensures
        final(ms).wf(),
        final(ms).contents() == toc@,
        match spec_event(toc@, stream@, h) {
            None => r is None,
            Some(e) => r matches Some(i) && item_event(i) == e,
        },
        r matches Some(LoadItem::Text(t)) ==> t.wf(),
{
    let len = toc.len() as u64;
    let slen = stream.len() as u64;
    if h.type_id == WWISE_STREAM || h.type_id == BINK_VIDEO {
        let so = h.stream_file_offset;
        let n = h.stream_size as u64;
        if so > slen || n > slen - so {
            return None;
        }
        let bytes = copy_bytes(vstd::slice::slice_subrange(stream, so as usize, (so + n) as usize));
        if h.type_id == WWISE_STREAM {
            let mut audio = AudioSource::default();
            audio.stream_type = STREAM_TYPE_STREAM;
            audio.set_data(bytes, false);
            audio.resource_id = h.file_id;
            Some(LoadItem::Stream(WwiseStream { file_id: h.file_id, audio_source: audio, modified: false }))
        } else {
            Some(LoadItem::Video(VideoSource::from_original(h.file_id, h.stream_size, bytes)))
        }
    } else if h.type_id == WWISE_BANK {
        let o = h.toc_data_offset;
        let tds = h.toc_data_size as u64;
        if tds < 16 || o > len || tds > len - o {
            return None;
        }
        let payload = vstd::slice::slice_subrange(toc, (o + 16) as usize, (o + tds) as usize);
        match decode_bank(h.file_id, payload) {
            Some(b) => Some(LoadItem::Bank(b)),
            None => None,
        }
    } else if h.type_id == WWISE_DEP {
        let o = h.toc_data_offset;
        if o > len || len - o < 8 {
            return None;
        }
        let n = u32_in(toc, (o + 4) as usize) as u64;
        if n > len - o - 8 {
            return None;
        }
        ms.seek(o as usize);
        let d = WwiseDep::read(ms, h.file_id);
        Some(LoadItem::Dep(d))
    } else if h.type_id == TEXT_BANK {
        let o = h.toc_data_offset;
        let tds = h.toc_data_size as u64;
        if o > len || tds > len - o {
            return None;
        }
        let payload = vstd::slice::slice_subrange(toc, o as usize, (o + tds) as usize);
        match TextBank::from_data(h.file_id, payload) {
            Some(t) => Some(LoadItem::Text(t)),
            None => None,
        }
    } else {
        Some(LoadItem::Other)
    }
}

/// An archive as read: its header fields and its containers, each keyed by
/// file id in the order the ids first appeared.
#[derive(Debug, Clone)]
pub struct GameArchive {
    pub magic: u32,
    pub unknown: u32,
    pub unk4_data: Vec<u8>,
    pub wwise_streams: Vec<(u64, WwiseStream)>,
    pub wwise_banks: Vec<(u64, WwiseBank)>,
    pub text_banks: Vec<(u64, TextBank)>,
    pub video_sources: Vec<(u64, VideoSource)>,
    pub hierarchy_entries: Vec<(u32, HircEntry)>,
}

pub open spec fn hirc_map() -> spec_fn(HircEntry) -> HircParts {
    |e: HircEntry| entry_parts(e)
}

pub open spec fn archive_model(a: GameArchive) -> ArchiveModel {
    ArchiveModel {
        streams: map_vals(a.wwise_streams@, stream_map()),
        banks: map_vals(a.wwise_banks@, bank_map()),
        texts: map_vals(a.text_banks@, text_map()),
        videos: map_vals(a.video_sources@, video_map()),
        hierarchy: map_vals(a.hierarchy_entries@, hirc_map()),
    }
}

/// Each hierarchy entry is held under its own id.
pub open spec fn hier_keys_match(v: Seq<(u32, HircEntry)>) -> bool {
    forall|i: int| 0 <= i < v.len() ==> (#[trigger] v[i]).0 == v[i].1.spec_id()
}

/// No container holds an id twice, and hierarchy entries are held under
/// their own ids.
pub open spec fn containers_unique(a: GameArchive) -> bool {
    &&& keys_unique(a.wwise_streams@)
    &&& keys_unique(a.wwise_banks@)
    &&& keys_unique(a.text_banks@)
    &&& keys_unique(a.video_sources@)
    &&& keys_unique(a.hierarchy_entries@)
    &&& hier_keys_match(a.hierarchy_entries@)
    &&& texts_wf(a.text_banks@)
}

/// Every text bank holds each string id once.
pub open spec fn texts_wf(v: Seq<(u64, TextBank)>) -> bool {
    forall|i: int| 0 <= i < v.len() ==> (#[trigger] v[i]).1.wf()
}

/// Adds one decoded entry to the containers.
fn apply_item(a: &mut GameArchive, item: LoadItem)
    requires
        containers_unique(*old(a)),
        item matches LoadItem::Text(t) ==> t.wf(),
    ensures
        containers_unique(*final(a)),
        archive_model(*final(a)) == apply_event(archive_model(*old(a)), item_event(item)),
        final(a).magic == old(a).magic,
        final(a).unknown == old(a).unknown,
        final(a).unk4_data@ == old(a).unk4_data@,
{
    let ghost e = item_event(item);
    match item {
        LoadItem::Stream(s) => {
            let id = s.file_id;
            proof {
                lemma_upsert_map(a.wwise_streams@, id, s, stream_map());
            }
            upsert_u64(&mut a.wwise_streams, id, s);
        },
        LoadItem::Bank(b) => {
            let id = b.file_id;
            let ghost pairs = hirc_pairs(b.entries@);
            let ghost h0 = map_vals(a.hierarchy_entries@, hirc_map());
            let mut k: usize = 0;
            while k < b.entries.len()
                invariant
                    k <= b.entries@.len(),
                    pairs == hirc_pairs(b.entries@),
                    keys_unique(a.hierarchy_entries@),
                    hier_keys_match(a.hierarchy_entries@),
                    map_vals(a.hierarchy_entries@, hirc_map()) == upsert_all(h0, pairs.take(k as int)),
                    a.magic == old(a).magic,
                    a.unknown == old(a).unknown,
                    a.unk4_data@ == old(a).unk4_data@,
                    a.wwise_streams@ == old(a).wwise_streams@,
                    a.wwise_banks@ == old(a).wwise_banks@,
                    a.text_banks@ == old(a).text_banks@,
                    a.video_sources@ == old(a).video_sources@,
                decreases b.entries@.len() - k,
            {
                let e = b.entries[k].duplicate();
                let eid = e.id();
                assert(pairs.take(k + 1).drop_last() =~= pairs.take(k as int));
                assert(pairs.take(k + 1).last() == (eid, entry_parts(e)));
                proof {
                    lemma_upsert_map(a.hierarchy_entries@, eid, e, hirc_map());
                }
                upsert_u32(&mut a.hierarchy_entries, eid, e);
                k = k + 1;
            }
            assert(pairs.take(pairs.len() as int) =~= pairs);
            proof {
                lemma_upsert_map(a.wwise_banks@, id, b, bank_map());
            }
            upsert_u64(&mut a.wwise_banks, id, b);
        },
        LoadItem::Text(t) => {
            let id = t.file_id;
            proof {
                lemma_upsert_map(a.text_banks@, id, t, text_map());
            }
            upsert_u64(&mut a.text_banks, id, t);
        },
        LoadItem::Video(v) => {
            let id = v.file_id;
            proof {
                lemma_upsert_map(a.video_sources@, id, v, video_map());
            }
            upsert_u64(&mut a.video_sources, id, v);
        },
        LoadItem::Dep(d) => {
            let id = d.file_id;
            let ghost banks = map_vals(a.wwise_banks@, bank_map());
            proof {
                lemma_map_vals_unique(a.wwise_banks@, bank_map());
            }
            let n = a.wwise_banks.len();
            let mut i: usize = 0;
            while i < n && a.wwise_banks[i].0 != id
                invariant
                    i <= n,
                    n == a.wwise_banks@.len(),
                    banks == map_vals(a.wwise_banks@, bank_map()),
                    forall|j: int| 0 <= j < i ==> (#[trigger] banks[j]).0 != id,
                decreases n - i,
            {
                i = i + 1;
            }
            if i < n {
                proof {
                    lemma_key_index_unique(banks, id, i as int);
                }
                let ghost dm = dep_model(d);
                let ghost before = a.wwise_banks@;
                a.wwise_banks[i].1.dep = d;
                assert(map_vals(a.wwise_banks@, bank_map()) =~= banks.update(
                    i as int,
                    (id, BankModel { dep: dm, ..banks[i as int].1 }),
                ));
                assert forall|x: int, y: int|
                    0 <= x < a.wwise_banks@.len() && 0 <= y < a.wwise_banks@.len() && x != y implies
                    a.wwise_banks@[x].0 != a.wwise_banks@[y].0 by {
                    assert(a.wwise_banks@[x].0 == before[x].0);
                    assert(a.wwise_banks@[y].0 == before[y].0);
                }
            } else {
                proof {
                    if has_key(banks, id) {
                        let j = key_index(banks, id);
                        assert(banks[j].0 == id);
                    }
                }
            }
        },
        LoadItem::Other => {},
    }
}

/// Reads an archive from its TOC and its stream sidecar, resource by
/// resource in TOC order.
pub fn load_archive(toc: &[u8], stream: &[u8]) -> (r: Option<GameArchive>)
    ensures
        match spec_load(toc@, stream@) {
            Some((magic, unknown, unk4, a)) => r matches Some(x) && x.magic == magic && x.unknown == unknown
                && x.unk4_data@ == unk4 && archive_model(x) == a && containers_unique(x),
            None => r is None,
        },
{
    let len = toc.len();
    if len < 4 {
        return None;
    }
    let magic = u32_in(toc, 0);
    let mut out = GameArchive {
        magic,
        unknown: 0,
        unk4_data: Vec::new(),
        wwise_streams: Vec::new(),
        wwise_banks: Vec::new(),
        text_banks: Vec::new(),
        video_sources: Vec::new(),
        hierarchy_entries: Vec::new(),
    };
    assert(archive_model(out) =~= empty_archive()) by {
        assert(map_vals(out.wwise_streams@, stream_map()) =~= Seq::<(u64, StreamModel)>::empty());
        assert(map_vals(out.wwise_banks@, bank_map()) =~= Seq::<(u64, BankModel)>::empty());
        assert(map_vals(out.text_banks@, text_map()) =~= Seq::<(u64, TextModel)>::empty());
        assert(map_vals(out.video_sources@, video_map()) =~= Seq::<(u64, VideoModel)>::empty());
        assert(map_vals(out.hierarchy_entries@, hirc_map()) =~= Seq::<(u32, HircParts)>::empty());
    }
    if magic != ARCHIVE_MAGIC {
        return Some(out);
    }
    if len < 72 {
        return None;
    }
    let num_types = u32_in(toc, 4);
    let num_files = u32_in(toc, 8);
    out.unknown = u32_in(toc, 12);
    out.unk4_data = copy_bytes(vstd::slice::slice_subrange(toc, 16, 72));
    let start: u64 = 72 + 32 * (num_types as u64);
    let mut ms = MemoryStream::new(copy_bytes(toc));
    let mut k: u32 = 0;
    while k < num_files
        invariant
            k <= num_files,
            len == toc@.len(),
            len >= 72,
            num_types == le_u32_at(toc@, 4),
            num_files == le_u32_at(toc@, 8),
            start == 72 + 32 * num_types,
            ms.wf(),
            ms.contents() == toc@,
            out.magic == magic,
            magic == ARCHIVE_MAGIC,
            magic == le_u32_at(toc@, 0),
            out.unknown == le_u32_at(toc@, 12),
            out.unk4_data@ == toc@.subrange(16, 72),
            containers_unique(out),
            spec_walk(toc@, stream@, 0, num_files as nat, empty_archive()) == spec_walk(
                toc@,
                stream@,
                k as nat,
                num_files as nat,
                archive_model(out),
            ),
        decreases num_files - k,
    {
        let p = start + 80 * (k as u64);
        assert(p == header_pos(toc@, k as int));
        if p > len as u64 || (len as u64) - p < 80 {
            assert(spec_walk(toc@, stream@, k as nat, num_files as nat, archive_model(out)) is None);
            return None;
        }
        ms.seek(p as usize);
        let h = TocHeader::read(&mut ms);
        let item = match read_item(&mut ms, toc, stream, h) {
            Some(i) => i,
            None => {
                assert(h == toc_header_at(toc@, p as int));
                assert(spec_walk(toc@, stream@, k as nat, num_files as nat, archive_model(out)) is None);
                return None;
            },
        };
        apply_item(&mut out, item);
        k = k + 1;
    }
    Some(out)
}

// ---------------------------------------------------------------------------
// Writing an archive back.

/// A bank's generated bytes.
pub open spec fn generated_bank(b: WwiseBank) -> Seq<u8> {
    b.bank_header@ + chunk_bytes(hirc_tag(), spec_u32_to_le_bytes(b.entries@.len() as u32) + entries_bytes(b.entries@))
        + b.bank_misc_data@
}

/// A text bank's generated bytes.
pub open spec fn generated_text(t: TextBank) -> Seq<u8> {
    spec_text_bank_bytes(
        t.language,
        t.entries@.map_values(|e: StringEntry| e.string_id),
        t.entries@.map_values(|e: StringEntry| e.text@),
    )
}

/// A text bank's bytes fit in memory.
pub open spec fn text_fits(t: TextBank) -> bool {
    16 + 8 * t.entries@.len() + texts_bytes(t.entries@.map_values(|e: StringEntry| e.text@)).len() <= usize::MAX
}

/// A dependency record's bytes.
pub open spec fn dep_bytes(d: WwiseDep) -> Seq<u8> {
    spec_u32_to_le_bytes(d.tag) + spec_u32_to_le_bytes(encode_utf8(d.data@).len() as u32) + encode_utf8(d.data@)
}

/// The video bytes written: the replacement once set, else the original.
pub open spec fn video_bytes(v: VideoSource) -> Seq<u8> {
    if v.modified {
        v.replacement_data@
    } else {
        v.original_data@
    }
}

/// The dependencies of the first `k` banks that were read from disk (the
/// made-up ones are not written).
pub open spec fn deps_upto(banks: Seq<(u64, WwiseBank)>, k: nat) -> Seq<ResourceModel>
    decreases k,
{
    if k == 0 {
        Seq::empty()
    } else {
        let d = banks[k - 1].1.dep;
        deps_upto(banks, (k - 1) as nat) + if d.skip {
            Seq::<ResourceModel>::empty()
        } else {
            seq![(ResourceKind::Dep, d.file_id, dep_bytes(d))]
        }
    }
}

pub open spec fn streams_plan(v: Seq<(u64, WwiseStream)>) -> Seq<ResourceModel> {
    v.map_values(|p: (u64, WwiseStream)| (ResourceKind::Stream, p.1.file_id, p.1.audio_source.data@))
}

pub open spec fn banks_plan(v: Seq<(u64, WwiseBank)>) -> Seq<ResourceModel> {
    v.map_values(|p: (u64, WwiseBank)| (ResourceKind::Bank, p.1.file_id, generated_bank(p.1)))
}

pub open spec fn texts_plan(v: Seq<(u64, TextBank)>) -> Seq<ResourceModel> {
    v.map_values(|p: (u64, TextBank)| (ResourceKind::Text, p.1.file_id, generated_text(p.1)))
}

pub open spec fn videos_plan(v: Seq<(u64, VideoSource)>) -> Seq<ResourceModel> {
    v.map_values(|p: (u64, VideoSource)| (ResourceKind::Video, p.1.file_id, video_bytes(p.1)))
}

/// The resources an archive writes, in order: its streams, its banks, its
/// text banks, the dependencies of its banks that were read from disk, then
/// its videos.
pub open spec fn plan_of(a: GameArchive) -> Seq<ResourceModel> {
    streams_plan(a.wwise_streams@) + banks_plan(a.wwise_banks@) + texts_plan(a.text_banks@) + deps_upto(
        a.wwise_banks@,
        a.wwise_banks@.len(),
    ) + videos_plan(a.video_sources@)
}

/// Whether a text bank's bytes fit in memory.
fn text_bank_fits(t: &TextBank) -> (b: bool)
    ensures
        b == text_fits(*t),
{
    let ghost texts = t.entries@.map_values(|e: StringEntry| e.text@);
    let n = t.entries.len();
    let limit = usize::MAX as u128;
    let mut total: u128 = 16 + 8 * (n as u128);
    if total > limit {
        proof {
            lemma_texts_len_mono(texts, 0, n as int);
        }
        return false;
    }
    let mut k: usize = 0;
    while k < n
        invariant
            k <= n,
            n == t.entries@.len(),
            texts == t.entries@.map_values(|e: StringEntry| e.text@),
            total == 16 + 8 * n + texts_bytes(texts.take(k as int)).len(),
            total <= limit,
            limit == usize::MAX,
        decreases n - k,
    {
        let b = t.entries[k].text.as_str().as_bytes().len() as u128;
        assert(texts.take(k + 1).drop_last() =~= texts.take(k as int));
        total = total + b + 1;
        k = k + 1;
        if total > limit {
            proof {
                lemma_texts_len_mono(texts, k as int, n as int);
            }
            return false;
        }
    }
    assert(texts.take(n as int) =~= texts);
    true
}

proof fn lemma_texts_len_mono(texts: Seq<Seq<char>>, k: int, n: int)
    requires
        0 <= k <= n == texts.len(),
    ensures
        texts_bytes(texts.take(k)).len() <= texts_bytes(texts).len(),
    decreases n - k,
{
    if k < n {
        lemma_texts_len_mono(texts, k + 1, n);
        assert(texts.take(k + 1).drop_last() =~= texts.take(k));
    } else {
        assert(texts.take(k) =~= texts);
    }
}

/// The resources `a` writes, in order; `None` when a text bank's bytes
/// would not fit in memory.
pub fn archive_plan(a: &GameArchive) -> (r: Option<Vec<Resource>>)
    ensures
        match r {
            Some(v) => resource_views(v@) == plan_of(*a) && forall|i: int|
                0 <= i < a.text_banks@.len() ==> text_fits(#[trigger] a.text_banks@[i].1),
            None => exists|i: int| 0 <= i < a.text_banks@.len() && !text_fits(#[trigger] a.text_banks@[i].1),
        },
{
    let mut plan: Vec<Resource> = Vec::new();
    let mut k: usize = 0;
    assert(resource_views(plan@) =~= streams_plan(a.wwise_streams@).take(0));
    while k < a.wwise_streams.len()
        invariant
            k <= a.wwise_streams@.len(),
            resource_views(plan@) == streams_plan(a.wwise_streams@).take(k as int),
        decreases a.wwise_streams@.len() - k,
    {
        let st = &a.wwise_streams[k].1;
        let ghost before = plan@;
        let r = Resource { kind: ResourceKind::Stream, id: st.id(), data: copy_bytes(st.get_data()) };
        let ghost rv = (r.kind, r.id, r.data@);
        assert(rv == streams_plan(a.wwise_streams@)[k as int]);
        plan.push(r);
        assert(resource_views(plan@) =~= resource_views(before).push(rv));
        assert(resource_views(plan@) =~= streams_plan(a.wwise_streams@).take(k + 1));
        k = k + 1;
    }
    assert(streams_plan(a.wwise_streams@).take(k as int) =~= streams_plan(a.wwise_streams@));
    let ghost p1 = resource_views(plan@);
    let mut k: usize = 0;
    assert(resource_views(plan@) =~= p1 + banks_plan(a.wwise_banks@).take(0));
    while k < a.wwise_banks.len()
        invariant
            k <= a.wwise_banks@.len(),
            resource_views(plan@) == p1 + banks_plan(a.wwise_banks@).take(k as int),
        decreases a.wwise_banks@.len() - k,
    {
        let b = &a.wwise_banks[k].1;
        let ghost before = plan@;
        let r = Resource { kind: ResourceKind::Bank, id: b.id(), data: b.generate() };
        let ghost rv = (r.kind, r.id, r.data@);
        assert(rv == banks_plan(a.wwise_banks@)[k as int]);
        plan.push(r);
        assert(resource_views(plan@) =~= resource_views(before).push(rv));
        assert(resource_views(plan@) =~= p1 + banks_plan(a.wwise_banks@).take(k + 1));
        k = k + 1;
    }
    assert(banks_plan(a.wwise_banks@).take(k as int) =~= banks_plan(a.wwise_banks@));
    let ghost p2 = resource_views(plan@);
    let mut k: usize = 0;
    assert(resource_views(plan@) =~= p2 + texts_plan(a.text_banks@).take(0));
    while k < a.text_banks.len()
        invariant
            k <= a.text_banks@.len(),
            resource_views(plan@) == p2 + texts_plan(a.text_banks@).take(k as int),
            forall|i: int| 0 <= i < k ==> text_fits(#[trigger] a.text_banks@[i].1),
        decreases a.text_banks@.len() - k,
    {
        let t = &a.text_banks[k].1;
        if !text_bank_fits(t) {
            return None;
        }
        let ghost before = plan@;
        let r = Resource { kind: ResourceKind::Text, id: t.id(), data: t.generate() };
        let ghost rv = (r.kind, r.id, r.data@);
        assert(rv == texts_plan(a.text_banks@)[k as int]);
        plan.push(r);
        assert(resource_views(plan@) =~= resource_views(before).push(rv));
        assert(resource_views(plan@) =~= p2 + texts_plan(a.text_banks@).take(k + 1));
        k = k + 1;
    }
    assert(texts_plan(a.text_banks@).take(k as int) =~= texts_plan(a.text_banks@));
    let ghost p3 = resource_views(plan@);
    let mut k: usize = 0;
    assert(resource_views(plan@) =~= p3 + deps_upto(a.wwise_banks@, 0));
    while k < a.wwise_banks.len()
        invariant
            k <= a.wwise_banks@.len(),
            resource_views(plan@) == p3 + deps_upto(a.wwise_banks@, k as nat),
        decreases a.wwise_banks@.len() - k,
    {
        let d = &a.wwise_banks[k].1.dep;
        let ghost before = plan@;
        if !d.skip {
            let r = Resource { kind: ResourceKind::Dep, id: d.file_id, data: d.get_data() };
            let ghost rv = (r.kind, r.id, r.data@);
            plan.push(r);
            assert(resource_views(plan@) =~= resource_views(before).push(rv));
        } else {
            assert(resource_views(before) + Seq::<ResourceModel>::empty() =~= resource_views(before));
        }
        assert(resource_views(plan@) =~= p3 + deps_upto(a.wwise_banks@, (k + 1) as nat));
        k = k + 1;
    }
    let ghost p4 = resource_views(plan@);
    let mut k: usize = 0;
    assert(resource_views(plan@) =~= p4 + videos_plan(a.video_sources@).take(0));
    while k < a.video_sources.len()
        invariant
            k <= a.video_sources@.len(),
            resource_views(plan@) == p4 + videos_plan(a.video_sources@).take(k as int),
        decreases a.video_sources@.len() - k,
    {
        let v = &a.video_sources[k].1;
        let ghost before = plan@;
        let r = Resource { kind: ResourceKind::Video, id: v.id(), data: copy_bytes(v.get_data()) };
        let ghost rv = (r.kind, r.id, r.data@);
        assert(rv == videos_plan(a.video_sources@)[k as int]);
        plan.push(r);
        assert(resource_views(plan@) =~= resource_views(before).push(rv));
        assert(resource_views(plan@) =~= p4 + videos_plan(a.video_sources@).take(k + 1));
        k = k + 1;
    }
    assert(videos_plan(a.video_sources@).take(k as int) =~= videos_plan(a.video_sources@));
    Some(plan)
}

/// Whether `plan` can be written: fewer than 2^32 resources, and the
/// memory it takes within the address space.
pub fn plan_fits(plan: &[Resource]) -> (b: bool)
    ensures
        b == (plan@.len() <= u32::MAX && 400 + plan_size(resource_views(plan@), plan@.len() as nat) <= usize::MAX),
{
    let ghost pv = resource_views(plan@);
    let n = plan.len();
    if n as u64 > u32::MAX as u64 {
        return false;
    }
    let limit = usize::MAX as u128;
    let mut total: u128 = 400;
    let mut k: usize = 0;
    while k < n
        invariant
            k <= n,
            n == plan@.len(),
            pv == resource_views(plan@),
            total == 400 + plan_size(pv, k as nat),
            total <= limit,
            limit == usize::MAX,
        decreases n - k,
    {
        total = total + 2 * (plan[k].data.len() as u128) + 256;
        k = k + 1;
        if total > limit {
            proof {
                lemma_plan_size_mono(pv, k as nat, n as nat);
            }
            return false;
        }
    }
    true
}

/// The TOC and stream sidecar bytes of `a`; `None` when a text bank or the
/// whole archive would not fit in memory, or it holds 2^32 resources or
/// more.
pub fn archive_bytes(a: &GameArchive) -> (r: Option<(Vec<u8>, Vec<u8>)>)
    ensures
        ({
            let plan = plan_of(*a);
            let fits = (forall|i: int| 0 <= i < a.text_banks@.len() ==> text_fits(#[trigger] a.text_banks@[i].1))
                && plan.len() <= u32::MAX && 400 + plan_size(plan, plan.len() as nat) <= usize::MAX;
            match r {
                Some((toc, stream)) => fits && (toc@, stream@) == spec_archive_bytes(
                    a.magic,
                    a.unknown,
                    a.unk4_data@,
                    plan,
                ),
                None => !fits,
            }
        }),
{
    let plan = match archive_plan(a) {
        Some(p) => p,
        None => return None,
    };
    if !plan_fits(plan.as_slice()) {
        return None;
    }
    Some(write_archive(a.magic, a.unknown, a.unk4_data.as_slice(), plan.as_slice()))
}

} // verus!
