//! Mixed patches: a patch that carries both audio and other resources is
//! rebuilt from two archives, keeping every non-audio entry of the original
//! and taking the audio entries from the regenerated audio patch.
//!
//! Reading and writing files is left to the caller; this module works on the
//! bytes of the main file and of its sidecars.

use vstd::prelude::*;
use vstd::bytes::*;
use crate::buf::{align16, align16_exec, copy_bytes, extend_bytes, extend_u32, extend_zeros, padded16, put_u64};
use crate::le::{le_u32_at, le_u64_at, u32_in, u64_in};
use crate::memstream::{overwritten, zeros};
use crate::spec_is_audio_type_id;
use crate::is_audio_type_id;
use crate::text::{concat3, decimal, u64_to_decimal};

verus! {

/// One type-table entry: its type id and its raw 32 bytes.
#[derive(Debug)]
pub struct RawType {
    pub type_id: u64,
    pub template: Vec<u8>,
}

/// One TOC entry: its raw 80-byte header, its type id, and the bytes it
/// refers to in the main file and in the two sidecars.
#[derive(Debug)]
pub struct RawEntry {
    pub header: Vec<u8>,
    pub type_id: u64,
    pub toc_data: Vec<u8>,
    pub stream_data: Vec<u8>,
    pub gpu_data: Vec<u8>,
}

/// A whole archive, split into its parts.
#[derive(Debug)]
pub struct RawArchive {
    pub magic: u32,
    pub unknown: u32,
    pub unknown_data: Vec<u8>,
    pub types: Vec<RawType>,
    pub entries: Vec<RawEntry>,
    pub stream: Vec<u8>,
}

/// The mathematical value of a `RawType`.
pub struct TypeModel {
    pub type_id: u64,
    pub template: Seq<u8>,
}

/// The mathematical value of a `RawEntry`.
pub struct EntryModel {
    pub header: Seq<u8>,
    pub type_id: u64,
    pub toc: Seq<u8>,
    pub stream: Seq<u8>,
    pub gpu: Seq<u8>,
}

/// The mathematical value of a `RawArchive`.
pub struct ArchiveModel {
    pub magic: u32,
    pub unknown: u32,
    pub unknown_data: Seq<u8>,
    pub types: Seq<TypeModel>,
    pub entries: Seq<EntryModel>,
    pub stream: Seq<u8>,
}

impl View for RawType {
    type V = TypeModel;

    open spec fn view(&self) -> TypeModel {
        TypeModel { type_id: self.type_id, template: self.template@ }
    }
}

impl View for RawEntry {
    type V = EntryModel;

    open spec fn view(&self) -> EntryModel {
        EntryModel {
            header: self.header@,
            type_id: self.type_id,
            toc: self.toc_data@,
            stream: self.stream_data@,
            gpu: self.gpu_data@,
        }
    }
}

impl View for RawArchive {
    type V = ArchiveModel;

    open spec fn view(&self) -> ArchiveModel {
        ArchiveModel {
            magic: self.magic,
            unknown: self.unknown,
            unknown_data: self.unknown_data@,
            types: self.types@.map_values(|t: RawType| t@),
            entries: self.entries@.map_values(|e: RawEntry| e@),
            stream: self.stream@,
        }
    }
}

impl ArchiveModel {
    /// Every type template holds 32 bytes and every header 80, as read.
    pub open spec fn wf(self) -> bool {
        &&& forall|i: int| 0 <= i < self.types.len() ==> (#[trigger] self.types[i]).template.len() == 32
        &&& forall|i: int| 0 <= i < self.entries.len() ==> (#[trigger] self.entries[i]).header.len() == 80
    }
}

// ---------------------------------------------------------------------------
// Reading.

/// The `i`-th type-table entry.
pub open spec fn type_at(data: Seq<u8>, i: int) -> TypeModel {
    TypeModel { type_id: le_u64_at(data, 72 + 32 * i + 8), template: data.subrange(72 + 32 * i, 72 + 32 * i + 32) }
}

/// The bytes at `off..off + size` of a sidecar, or nothing for size 0.
pub open spec fn sidecar_part(side: Seq<u8>, off: int, size: int) -> Seq<u8> {
    if size == 0 {
        Seq::empty()
    } else {
        side.subrange(off, off + size)
    }
}

/// The `index`-th TOC entry, its header starting at `start`, or the message
/// for a range that does not fit.
pub open spec fn entry_at(data: Seq<u8>, stream: Seq<u8>, gpu: Seq<u8>, start: int, index: int) -> Result<
    EntryModel,
    Seq<char>,
> {
    let toc_off = (le_u64_at(data, start + 16) as usize) as int;
    let toc_size = le_u32_at(data, start + 56) as int;
    let so = (le_u64_at(data, start + 24) as usize) as int;
    let ss = le_u32_at(data, start + 60) as int;
    let go = (le_u64_at(data, start + 32) as usize) as int;
    let gs = le_u32_at(data, start + 64) as int;
    if toc_off + toc_size > usize::MAX {
        Err("mixed patch resource offset overflow"@)
    } else if toc_off + toc_size > data.len() {
        Err("mixed patch resource "@ + decimal(index as nat) + " is outside the main file"@)
    } else if ss != 0 && so + ss > usize::MAX {
        Err("mixed patch stream offset overflow"@)
    } else if ss != 0 && so + ss > stream.len() {
        Err("mixed patch stream resource "@ + decimal(index as nat) + " is outside the companion"@)
    } else if gs != 0 && go + gs > usize::MAX {
        Err("mixed patch GPU offset overflow"@)
    } else if gs != 0 && go + gs > gpu.len() {
        Err("mixed patch GPU resource "@ + decimal(index as nat) + " is outside the companion"@)
    } else {
        Ok(EntryModel {
            header: data.subrange(start, start + 80),
            type_id: le_u64_at(data, start + 8),
            toc: data.subrange(toc_off, toc_off + toc_size),
            stream: sidecar_part(stream, so, ss),
            gpu: sidecar_part(gpu, go, gs),
        })
    }
}

/// The first `n` TOC entries, or the message for the first that fails.
pub open spec fn entries_upto(data: Seq<u8>, stream: Seq<u8>, gpu: Seq<u8>, type_end: int, n: nat) -> Result<
    Seq<EntryModel>,
    Seq<char>,
>
    decreases n,
{
    if n == 0 {
        Ok(Seq::empty())
    } else {
        match entries_upto(data, stream, gpu, type_end, (n - 1) as nat) {
            Err(m) => Err(m),
            Ok(es) => match entry_at(data, stream, gpu, type_end + 80 * (n - 1), n - 1) {
                Err(m) => Err(m),
                Ok(e) => Ok(es.push(e)),
            },
        }
    }
}

/// What reading a main file `data` (named `main` in messages) and its
/// sidecars' bytes gives (an absent sidecar reads as empty).
pub open spec fn spec_read_raw(data: Seq<u8>, stream: Seq<u8>, gpu: Seq<u8>, main: Seq<char>) -> Result<
    ArchiveModel,
    Seq<char>,
> {
    let nt = le_u32_at(data, 4) as int;
    let nf = le_u32_at(data, 8) as int;
    let type_end = 72 + nt * 32;
    if data.len() < 72 {
        Err("mixed patch '"@ + main + "' has a truncated header"@)
    } else if nt * 32 > usize::MAX {
        Err("mixed patch type table overflow"@)
    } else if type_end > usize::MAX {
        Err("mixed patch type table offset overflow"@)
    } else if type_end > data.len() {
        Err("mixed patch type table is truncated"@)
    } else if nf * 80 > usize::MAX {
        Err("mixed patch file table overflow"@)
    } else if type_end + nf * 80 > usize::MAX {
        Err("mixed patch file table offset overflow"@)
    } else if type_end + nf * 80 > data.len() {
        Err("mixed patch file table is truncated"@)
    } else {
        match entries_upto(data, stream, gpu, type_end, nf as nat) {
            Err(m) => Err(m),
            Ok(es) => Ok(ArchiveModel {
                magic: le_u32_at(data, 0),
                unknown: le_u32_at(data, 12),
                unknown_data: data.subrange(16, 72),
                types: Seq::new(nt as nat, |i: int| type_at(data, i)),
                entries: es,
                stream,
            }),
        }
    }
}

fn part_of(side: &[u8], off: usize, size: usize) -> (v: Vec<u8>)
    requires
        size != 0 ==> off + size <= side@.len(),
    ensures
        v@ == sidecar_part(side@, off as int, size as int),
{
    let _n = side.len();
    if size == 0 {
        Vec::new()
    } else {
        copy_bytes(vstd::slice::slice_subrange(side, off, off + size))
    }
}

fn read_entry(data: &[u8], stream: &[u8], gpu: &[u8], start: usize, index: usize) -> (r: Result<RawEntry, String>)
    requires
        start + 80 <= data@.len(),
    ensures
        match entry_at(data@, stream@, gpu@, start as int, index as int) {
            Ok(e) => r matches Ok(x) && x@ == e,
            Err(m) => r matches Err(x) && x@ == m,
        },
{
    let _n = data.len();
    let toc_off = u64_in(data, start + 16) as usize;
    let toc_size = u32_in(data, start + 56) as usize;
    let so = u64_in(data, start + 24) as usize;
    let ss = u32_in(data, start + 60) as usize;
    let go = u64_in(data, start + 32) as usize;
    let gs = u32_in(data, start + 64) as usize;
    let toc_end = match toc_off.checked_add(toc_size) {
        Some(e) => e,
        None => return Err(String::from_str("mixed patch resource offset overflow")),
    };
    if toc_end > data.len() {
        let n = u64_to_decimal(index as u64);
        return Err(concat3("mixed patch resource ", n.as_str(), " is outside the main file"));
    }
    if ss != 0 {
        match so.checked_add(ss) {
            Some(e) => {
                if e > stream.len() {
                    let n = u64_to_decimal(index as u64);
                    return Err(concat3("mixed patch stream resource ", n.as_str(), " is outside the companion"));
                }
            },
            None => return Err(String::from_str("mixed patch stream offset overflow")),
        }
    }
    if gs != 0 {
        match go.checked_add(gs) {
            Some(e) => {
                if e > gpu.len() {
                    let n = u64_to_decimal(index as u64);
                    return Err(concat3("mixed patch GPU resource ", n.as_str(), " is outside the companion"));
                }
            },
            None => return Err(String::from_str("mixed patch GPU offset overflow")),
        }
    }
    let header = copy_bytes(vstd::slice::slice_subrange(data, start, start + 80));
    let type_id = u64_in(data, start + 8);
    let toc_data = copy_bytes(vstd::slice::slice_subrange(data, toc_off, toc_end));
    let stream_data = part_of(stream, so, ss);
    let gpu_data = part_of(gpu, go, gs);
    Ok(RawEntry { header, type_id, toc_data, stream_data, gpu_data })
}

impl RawArchive {
    /// Splits a main file into its parts. `data` is the main file, `stream`
    /// and `gpu` the bytes of its sidecars (empty when a sidecar is absent);
    /// `main` names the main file in messages.
    pub fn read(data: &[u8], stream: &[u8], gpu: &[u8], main: &str) -> (r: Result<RawArchive, String>)
        ensures
            match spec_read_raw(data@, stream@, gpu@, main@) {
                Ok(a) => r matches Ok(x) && x@ == a,
                Err(m) => r matches Err(x) && x@ == m,
            },
    {
        let len = data.len();
        if len < 72 {
            return Err(concat3("mixed patch '", main, "' has a truncated header"));
        }
        let nt = u32_in(data, 4) as usize;
        let types_size = match nt.checked_mul(32) {
            Some(v) => v,
            None => return Err(String::from_str("mixed patch type table overflow")),
        };
        let type_end = match 72usize.checked_add(types_size) {
            Some(v) => v,
            None => return Err(String::from_str("mixed patch type table offset overflow")),
        };
        if type_end > len {
            return Err(String::from_str("mixed patch type table is truncated"));
        }
        let mut types: Vec<RawType> = Vec::new();
        let mut i: usize = 0;
        while i < nt
            invariant
                i <= nt,
                72 + nt * 32 == type_end,
                type_end <= data@.len(),
                types@.map_values(|t: RawType| t@) == Seq::new(i as nat, |k: int| type_at(data@, k)),
            decreases nt - i,
        {
            assert(72 + i * 32 + 32 <= 72 + nt * 32) by (nonlinear_arith)
                requires
                    i < nt,
            ;
            let start = 72 + i * 32;
            let template = copy_bytes(vstd::slice::slice_subrange(data, start, start + 32));
            let type_id = u64_in(data, start + 8);
            let t = RawType { type_id, template };
            assert(t@ == type_at(data@, i as int));
            let ghost before = types@;
            types.push(t);
            assert(types@.map_values(|t: RawType| t@) =~= before.map_values(|t: RawType| t@).push(t@));
            i = i + 1;
            assert(types@.map_values(|t: RawType| t@) =~= Seq::new(i as nat, |k: int| type_at(data@, k)));
        }
        let nf = u32_in(data, 8) as usize;
        let files_size = match nf.checked_mul(80) {
            Some(v) => v,
            None => return Err(String::from_str("mixed patch file table overflow")),
        };
        let file_end = match type_end.checked_add(files_size) {
            Some(v) => v,
            None => return Err(String::from_str("mixed patch file table offset overflow")),
        };
        if file_end > len {
            return Err(String::from_str("mixed patch file table is truncated"));
        }
        let mut entries: Vec<RawEntry> = Vec::new();
        let mut k: usize = 0;
        assert(entries@.map_values(|e: RawEntry| e@) =~= Seq::<EntryModel>::empty());
        while k < nf
            invariant
                k <= nf,
                data@.len() == len,
                len >= 72,
                nt == le_u32_at(data@, 4),
                nf == le_u32_at(data@, 8),
                type_end == 72 + nt * 32,
                type_end + nf * 80 <= data@.len(),
                entries_upto(data@, stream@, gpu@, type_end as int, k as nat) == Ok::<Seq<EntryModel>, Seq<char>>(
                    entries@.map_values(|e: RawEntry| e@),
                ),
            decreases nf - k,
        {
            assert(type_end + k * 80 + 80 <= type_end + nf * 80) by (nonlinear_arith)
                requires
                    k < nf,
            ;
            let start = type_end + k * 80;
            let e = match read_entry(data, stream, gpu, start, k) {
                Ok(e) => e,
                Err(m) => {
                    proof {
                        lemma_entries_fail_stays(data@, stream@, gpu@, type_end as int, (k + 1) as nat, nf as nat);
                    }
                    return Err(m);
                },
            };
            let ghost prev = entries@.map_values(|e: RawEntry| e@);
            let ghost ev = e@;
            assert(start == type_end + 80 * k);
            assert(entries_upto(data@, stream@, gpu@, type_end as int, (k + 1) as nat) == Ok::<Seq<EntryModel>, Seq<char>>(
                prev.push(ev),
            ));
            entries.push(e);
            k = k + 1;
            assert(entries@.map_values(|e: RawEntry| e@) =~= prev.push(ev));
        }
        let magic = u32_in(data, 0);
        let unknown = u32_in(data, 12);
        let unknown_data = copy_bytes(vstd::slice::slice_subrange(data, 16, 72));
        let stream_copy = copy_bytes(stream);
        Ok(RawArchive { magic, unknown, unknown_data, types, entries, stream: stream_copy })
    }
}

/// Once an entry fails, reading more entries fails with its message.
proof fn lemma_entries_fail_stays(data: Seq<u8>, stream: Seq<u8>, gpu: Seq<u8>, type_end: int, k: nat, n: nat)
    requires
        k <= n,
        entries_upto(data, stream, gpu, type_end, k) is Err,
    ensures
        entries_upto(data, stream, gpu, type_end, n) == entries_upto(data, stream, gpu, type_end, k),
    decreases n - k,
{
    if k < n {
        lemma_entries_fail_stays(data, stream, gpu, type_end, k, (n - 1) as nat);
    }
}

// ---------------------------------------------------------------------------
// Merging.

/// The values of a list of entries.
pub open spec fn entry_views(v: Seq<RawEntry>) -> Seq<EntryModel> {
    v.map_values(|e: RawEntry| e@)
}

/// The values of a list of types.
pub open spec fn type_views(v: Seq<RawType>) -> Seq<TypeModel> {
    v.map_values(|t: RawType| t@)
}

/// The entries of `es` whose type is an audio type (`audio`) or is not
/// (`!audio`), in order.
pub open spec fn keep_entries(es: Seq<EntryModel>, audio: bool) -> Seq<EntryModel>
    decreases es.len(),
{
    if es.len() == 0 {
        Seq::empty()
    } else {
        let r = keep_entries(es.drop_last(), audio);
        if spec_is_audio_type_id(es.last().type_id) == audio {
            r.push(es.last())
        } else {
            r
        }
    }
}

/// The entries of the merged patch: the original's non-audio entries, then
/// the regenerated patch's audio entries.
pub open spec fn merged_entries(o: ArchiveModel, g: ArchiveModel) -> Seq<EntryModel> {
    keep_entries(o.entries, false) + keep_entries(g.entries, true)
}

/// The template of the first type of `ts` with id `id`.
pub open spec fn find_template(ts: Seq<TypeModel>, id: u64) -> Option<Seq<u8>>
    decreases ts.len(),
{
    if ts.len() == 0 {
        None
    } else if ts[0].type_id == id {
        Some(ts[0].template)
    } else {
        find_template(ts.skip(1), id)
    }
}

/// The template for type `id`: the original's, else the regenerated
/// patch's, else 32 zero bytes.
pub open spec fn template_for(o: ArchiveModel, g: ArchiveModel, id: u64) -> Seq<u8> {
    match find_template(o.types, id) {
        Some(t) => t,
        None => match find_template(g.types, id) {
            Some(t) => t,
            None => zeros(32),
        },
    }
}

pub open spec fn has_type(ts: Seq<TypeModel>, id: u64) -> bool {
    exists|j: int| 0 <= j < ts.len() && (#[trigger] ts[j]).type_id == id
}

/// The type table of the merged patch: one type per distinct type id of the
/// first `k` entries, in order of first use.
pub open spec fn merged_types(es: Seq<EntryModel>, o: ArchiveModel, g: ArchiveModel, k: nat) -> Seq<TypeModel>
    decreases k,
{
    if k == 0 {
        Seq::empty()
    } else {
        let t = merged_types(es, o, g, (k - 1) as nat);
        let id = es[k - 1].type_id;
        if has_type(t, id) {
            t
        } else {
            t.push(TypeModel { type_id: id, template: template_for(o, g, id) })
        }
    }
}

fn copy_entry(e: &RawEntry) -> (r: RawEntry)
    ensures
        r@ == e@,
{
    RawEntry {
        header: copy_bytes(e.header.as_slice()),
        type_id: e.type_id,
        toc_data: copy_bytes(e.toc_data.as_slice()),
        stream_data: copy_bytes(e.stream_data.as_slice()),
        gpu_data: copy_bytes(e.gpu_data.as_slice()),
    }
}

/// Appends to `out` the entries of `es` whose type is (or is not) audio.
fn append_kept(out: &mut Vec<RawEntry>, es: &Vec<RawEntry>, audio: bool)
    ensures
        entry_views(final(out)@) == entry_views(old(out)@) + keep_entries(entry_views(es@), audio),
{
    let mut k: usize = 0;
    assert(entry_views(es@).take(0) =~= Seq::<EntryModel>::empty());
    assert(entry_views(old(out)@) + keep_entries(Seq::<EntryModel>::empty(), audio) =~= entry_views(old(out)@));
    while k < es.len()
        invariant
            k <= es@.len(),
            entry_views(out@) == entry_views(old(out)@) + keep_entries(entry_views(es@).take(k as int), audio),
        decreases es@.len() - k,
    {
        let ghost before = entry_views(out@);
        let ghost pre = entry_views(es@).take(k as int);
        let ghost next = entry_views(es@).take(k + 1);
        assert(next.drop_last() =~= pre);
        assert(next.last() == es@[k as int]@);
        if is_audio_type_id(es[k].type_id) == audio {
            let c = copy_entry(&es[k]);
            out.push(c);
            assert(entry_views(out@) =~= before.push(c@));
        }
        k = k + 1;
    }
    assert(entry_views(es@).take(es@.len() as int) =~= entry_views(es@));
}

fn find_template_exec(ts: &Vec<RawType>, id: u64) -> (r: Option<Vec<u8>>)
    ensures
        match find_template(type_views(ts@), id) {
            Some(t) => r matches Some(v) && v@ == t,
            None => r is None,
        },
{
    let mut i: usize = 0;
    assert(type_views(ts@).skip(0) =~= type_views(ts@));
    while i < ts.len()
        invariant
            i <= ts@.len(),
            find_template(type_views(ts@), id) == find_template(type_views(ts@).skip(i as int), id),
        decreases ts@.len() - i,
    {
        let ghost rest = type_views(ts@).skip(i as int);
        assert(rest[0] == ts@[i as int]@);
        assert(rest.skip(1) =~= type_views(ts@).skip(i + 1));
        if ts[i].type_id == id {
            return Some(copy_bytes(ts[i].template.as_slice()));
        }
        i = i + 1;
    }
    assert(type_views(ts@).skip(i as int).len() == 0);
    None
}

fn template_for_exec(o: &RawArchive, g: &RawArchive, id: u64) -> (r: Vec<u8>)
    ensures
        r@ == template_for(o@, g@, id),
{
    match find_template_exec(&o.types, id) {
        Some(t) => t,
        None => match find_template_exec(&g.types, id) {
            Some(t) => t,
            None => {
                let mut z: Vec<u8> = Vec::new();
                extend_zeros(&mut z, 32);
                assert(z@ =~= zeros(32));
                z
            },
        },
    }
}

fn has_type_exec(ts: &Vec<RawType>, id: u64) -> (b: bool)
    ensures
        b == has_type(type_views(ts@), id),
{
    let mut i: usize = 0;
    while i < ts.len()
        invariant
            i <= ts@.len(),
            forall|j: int| 0 <= j < i ==> (#[trigger] type_views(ts@)[j]).type_id != id,
        decreases ts@.len() - i,
    {
        if ts[i].type_id == id {
            assert(type_views(ts@)[i as int].type_id == id);
            return true;
        }
        i = i + 1;
    }
    false
}

fn merge_types(es: &Vec<RawEntry>, o: &RawArchive, g: &RawArchive) -> (r: Vec<RawType>)
    ensures
        type_views(r@) == merged_types(entry_views(es@), o@, g@, es@.len()),
{
    let mut ts: Vec<RawType> = Vec::new();
    let mut k: usize = 0;
    assert(type_views(ts@) =~= Seq::<TypeModel>::empty());
    while k < es.len()
        invariant
            k <= es@.len(),
            type_views(ts@) == merged_types(entry_views(es@), o@, g@, k as nat),
        decreases es@.len() - k,
    {
        let id = es[k].type_id;
        assert(entry_views(es@)[k as int].type_id == id);
        if !has_type_exec(&ts, id) {
            let template = template_for_exec(o, g, id);
            let ghost before = type_views(ts@);
            let t = RawType { type_id: id, template };
            ts.push(t);
            assert(type_views(ts@) =~= before.push(t@));
        }
        k = k + 1;
    }
    ts
}

/// The entry has stream data and its type is (or is not) audio.
pub open spec fn streams_as(e: EntryModel, audio: bool) -> bool {
    e.stream.len() > 0 && spec_is_audio_type_id(e.type_id) == audio
}

/// How many of the first `k` entries have stream data and an audio (or a
/// non-audio) type.
pub open spec fn stream_count(es: Seq<EntryModel>, audio: bool, k: nat) -> nat
    decreases k,
{
    if k == 0 {
        0
    } else {
        stream_count(es, audio, (k - 1) as nat) + if streams_as(es[k - 1], audio) { 1nat } else { 0nat }
    }
}

/// `acc` followed by the stream data of those of the first `k` entries that
/// have stream data and an audio (or non-audio) type, each padded to a
/// multiple of 16 bytes.
pub open spec fn packed(es: Seq<EntryModel>, k: nat, audio: bool, acc: Seq<u8>) -> Seq<u8>
    decreases k,
{
    if k == 0 {
        acc
    } else {
        let p = packed(es, (k - 1) as nat, audio, acc);
        if streams_as(es[k - 1], audio) {
            padded16(p + es[k - 1].stream)
        } else {
            p
        }
    }
}

/// Both kinds of entries carry stream data, so one stream is rebuilt for
/// all of them.
pub open spec fn combine_streams(es: Seq<EntryModel>) -> bool {
    stream_count(es, false, es.len()) > 0 && stream_count(es, true, es.len()) > 0
}

/// The rebuilt stream's non-audio part.
pub open spec fn non_audio_stream(es: Seq<EntryModel>) -> Seq<u8> {
    packed(es, es.len(), false, Seq::empty())
}

/// Where the `i`-th entry's stream data starts in the rebuilt stream: the
/// non-audio entries' data comes first, then the audio entries'.
pub open spec fn stream_offset(es: Seq<EntryModel>, i: int) -> int {
    if spec_is_audio_type_id(es[i].type_id) {
        packed(es, i as nat, true, non_audio_stream(es)).len() as int
    } else {
        packed(es, i as nat, false, Seq::empty()).len() as int
    }
}

/// The merged patch's stream sidecar: rebuilt when both kinds of entries
/// have stream data; the regenerated one when only audio entries do; the
/// original one otherwise.
pub open spec fn stream_output(o: ArchiveModel, g: ArchiveModel, es: Seq<EntryModel>) -> Seq<u8> {
    if combine_streams(es) {
        packed(es, es.len(), true, non_audio_stream(es))
    } else if stream_count(es, true, es.len()) > 0 && stream_count(es, false, es.len()) == 0 {
        g.stream
    } else {
        o.stream
    }
}

fn count_streams(es: &Vec<RawEntry>, audio: bool) -> (n: usize)
    ensures
        n == stream_count(entry_views(es@), audio, es@.len()),
{
    let mut n: usize = 0;
    let mut k: usize = 0;
    while k < es.len()
        invariant
            k <= es@.len(),
            n == stream_count(entry_views(es@), audio, k as nat),
            n <= k,
        decreases es@.len() - k,
    {
        assert(entry_views(es@)[k as int] == es@[k as int]@);
        if es[k].stream_data.len() > 0 && is_audio_type_id(es[k].type_id) == audio {
            n = n + 1;
        }
        k = k + 1;
    }
    n
}

/// Appends `d` and pads the buffer to a multiple of 16, returning where `d`
/// starts.
fn append_aligned(out: &mut Vec<u8>, d: &[u8]) -> (offset: u64)
    requires
        old(out)@.len() + d@.len() + 15 <= usize::MAX,
    ensures
        final(out)@ == padded16(old(out)@ + d@),
        offset == old(out)@.len(),
{
    let offset = out.len() as u64;
    extend_bytes(out, d);
    let n = out.len();
    let a = align16_exec(n);
    extend_zeros(out, a - n);
    offset
}

proof fn lemma_packed_len(es: Seq<EntryModel>, k: nat, audio: bool, acc: Seq<u8>)
    requires
        k <= es.len(),
    ensures
        acc.len() <= packed(es, k, audio, acc).len(),
        packed(es, k, audio, acc).len() <= acc.len() + 16 * k + sum_streams(es, k),
    decreases k,
{
    if k > 0 {
        lemma_packed_len(es, (k - 1) as nat, audio, acc);
        let p = packed(es, (k - 1) as nat, audio, acc);
        let q = p + es[k - 1].stream;
        assert(align16(q.len() as int) <= q.len() + 15) by (nonlinear_arith)
            requires
                q.len() >= 0,
        ;
        assert(align16(q.len() as int) >= q.len()) by (nonlinear_arith)
            requires
                q.len() >= 0,
        ;
    }
}

/// The total length of the first `k` entries' stream data.
pub open spec fn sum_streams(es: Seq<EntryModel>, k: nat) -> int
    decreases k,
{
    if k == 0 {
        0
    } else {
        sum_streams(es, (k - 1) as nat) + es[k - 1].stream.len()
    }
}

/// A generous measure of the memory the merged patch needs for the first
/// `k` entries: each entry's main-file data, twice its stream data, and 160
/// bytes for its header, type entry and padding.
pub open spec fn merged_size(es: Seq<EntryModel>, k: nat) -> int
    decreases k,
{
    if k == 0 {
        0
    } else {
        merged_size(es, (k - 1) as nat) + es[k - 1].toc.len() + 2 * es[k - 1].stream.len() + 160
    }
}

/// The total length of the first `k` entries' main-file data.
pub open spec fn sum_tocs(es: Seq<EntryModel>, k: nat) -> int
    decreases k,
{
    if k == 0 {
        0
    } else {
        sum_tocs(es, (k - 1) as nat) + es[k - 1].toc.len()
    }
}

proof fn lemma_merged_size(es: Seq<EntryModel>, k: nat, n: nat)
    requires
        k <= n <= es.len(),
    ensures
        merged_size(es, k) <= merged_size(es, n),
        2 * sum_streams(es, k) + 160 * k + sum_tocs(es, k) == merged_size(es, k),
        sum_streams(es, k) >= 0,
        sum_tocs(es, k) >= 0,
    decreases n,
{
    if n > k {
        lemma_merged_size(es, k, (n - 1) as nat);
    } else if k > 0 {
        lemma_merged_size(es, (k - 1) as nat, (k - 1) as nat);
    }
}

proof fn lemma_sum_streams_mono(es: Seq<EntryModel>, k: nat, n: nat)
    requires
        k <= n <= es.len(),
    ensures
        sum_streams(es, k) <= sum_streams(es, n),
    decreases n,
{
    if n > k {
        lemma_sum_streams_mono(es, k, (n - 1) as nat);
    }
}

/// One packing pass over the entries of one kind.
fn pack_pass(es: &Vec<RawEntry>, out: &mut Vec<u8>, offsets: &mut Vec<u64>, audio: bool)
    requires
        merged_size(entry_views(es@), es@.len()) + 200 <= usize::MAX,
        old(offsets)@.len() == es@.len(),
        old(out)@.len() <= 16 * es@.len() + sum_streams(entry_views(es@), es@.len()),
    ensures
        final(out)@ == packed(entry_views(es@), es@.len(), audio, old(out)@),
        final(offsets)@.len() == es@.len(),
        forall|j: int|
            0 <= j < es@.len() && streams_as(#[trigger] entry_views(es@)[j], audio) ==> final(offsets)@[j]
                == packed(entry_views(es@), j as nat, audio, old(out)@).len(),
        forall|j: int|
            0 <= j < es@.len() && !streams_as(#[trigger] entry_views(es@)[j], audio) ==> final(offsets)@[j]
                == old(offsets)@[j],
{
    let ghost ev = entry_views(es@);
    let ghost acc = out@;
    let n = es.len();
    let mut k: usize = 0;
    while k < n
        invariant
            k <= n,
            n == es@.len(),
            ev == entry_views(es@),
            offsets@.len() == n,
            merged_size(ev, n as nat) + 200 <= usize::MAX,
            acc.len() <= 16 * n + sum_streams(ev, n as nat),
            out@ == packed(ev, k as nat, audio, acc),
            forall|j: int| 0 <= j < k && streams_as(#[trigger] ev[j], audio) ==> offsets@[j] == packed(ev, j as nat, audio, acc).len(),
            forall|j: int| 0 <= j < n && !streams_as(#[trigger] ev[j], audio) ==> offsets@[j] == old(offsets)@[j],
            forall|j: int| k <= j < n ==> offsets@[j] == old(offsets)@[j],
        decreases n - k,
    {
        assert(ev[k as int] == es@[k as int]@);
        if es[k].stream_data.len() > 0 && is_audio_type_id(es[k].type_id) == audio {
            proof {
                lemma_packed_len(ev, k as nat, audio, acc);
                lemma_merged_size(ev, n as nat, n as nat);
                lemma_sum_streams_mono(ev, k as nat, n as nat);
                lemma_sum_streams_mono(ev, (k + 1) as nat, n as nat);
            }
            let off = append_aligned(out, es[k].stream_data.as_slice());
            offsets.set(k, off);
        }
        k = k + 1;
    }
}

/// Packs the stream data of the entries: first the non-audio entries', then
/// the audio entries', each padded to 16 bytes; returns the packed bytes and
/// where each entry's data starts.
fn pack_streams(es: &Vec<RawEntry>) -> (r: (Vec<u8>, Vec<u64>))
    requires
        merged_size(entry_views(es@), es@.len()) + 200 <= usize::MAX,
    ensures
        r.0@ == packed(entry_views(es@), es@.len(), true, non_audio_stream(entry_views(es@))),
        r.1@.len() == es@.len(),
        forall|j: int|
            0 <= j < es@.len() && (#[trigger] entry_views(es@)[j]).stream.len() > 0 ==> r.1@[j] == stream_offset(
                entry_views(es@),
                j,
            ),
{
    let ghost ev = entry_views(es@);
    let n = es.len();
    let mut offsets: Vec<u64> = Vec::new();
    let mut k: usize = 0;
    while k < n
        invariant
            k <= n,
            n == es@.len(),
            offsets@.len() == k,
        decreases n - k,
    {
        offsets.push(0);
        k = k + 1;
    }
    let mut out: Vec<u8> = Vec::new();
    proof {
        lemma_merged_size(ev, n as nat, n as nat);
    }
    pack_pass(es, &mut out, &mut offsets, false);
    proof {
        lemma_packed_len(ev, n as nat, false, Seq::empty());
    }
    pack_pass(es, &mut out, &mut offsets, true);
    (out, offsets)
}

/// The padded length of the first `k` entries' main-file data.
pub open spec fn aligned_sum(es: Seq<EntryModel>, k: nat) -> int
    decreases k,
{
    if k == 0 {
        0
    } else {
        aligned_sum(es, (k - 1) as nat) + align16(es[k - 1].toc.len() as int)
    }
}

/// The `k`-th entry's header in the merged patch: its data now starts at
/// `start` plus the padded data of the entries before it, and, when the
/// stream is rebuilt, its stream data at its place in the rebuilt stream.
pub open spec fn header_out(es: Seq<EntryModel>, start: int, k: int) -> Seq<u8> {
    let h1 = overwritten(es[k].header, 16, spec_u64_to_le_bytes((start + aligned_sum(es, k as nat)) as u64));
    if combine_streams(es) && es[k].stream.len() > 0 {
        overwritten(h1, 24, spec_u64_to_le_bytes(stream_offset(es, k) as u64))
    } else {
        h1
    }
}

/// Why the `k`-th entry cannot be written, if it cannot: its data would end
/// past the largest offset, or it uses GPU data that is not at hand.
pub open spec fn entry_failure(es: Seq<EntryModel>, start: int, k: int) -> Option<Seq<char>> {
    if start + aligned_sum(es, (k + 1) as nat) > u64::MAX {
        Some("mixed patch resource offset overflow"@)
    } else if es[k].gpu.len() == 0 && le_u32_at(es[k].header, 64) > 0 {
        Some(
            "mixed patch resource "@ + decimal(le_u64_at(es[k].header, 0) as nat)
                + " references GPU data that cannot be regenerated"@,
        )
    } else {
        None
    }
}

/// The failure of the first of the first `k` entries that cannot be written.
pub open spec fn first_failure(es: Seq<EntryModel>, start: int, k: nat) -> Option<Seq<char>>
    decreases k,
{
    if k == 0 {
        None
    } else {
        match first_failure(es, start, (k - 1) as nat) {
            Some(m) => Some(m),
            None => entry_failure(es, start, k - 1),
        }
    }
}

/// The first `k` rewritten headers, one after the other.
pub open spec fn headers_concat(es: Seq<EntryModel>, start: int, k: nat) -> Seq<u8>
    decreases k,
{
    if k == 0 {
        Seq::empty()
    } else {
        headers_concat(es, start, (k - 1) as nat) + header_out(es, start, k - 1)
    }
}

/// The first `k` entries' main-file data, each padded to 16 bytes.
pub open spec fn inline_concat(es: Seq<EntryModel>, k: nat) -> Seq<u8>
    decreases k,
{
    if k == 0 {
        Seq::empty()
    } else {
        inline_concat(es, (k - 1) as nat) + padded16(es[k - 1].toc)
    }
}

proof fn lemma_first_failure_stays(es: Seq<EntryModel>, start: int, k: nat, n: nat)
    requires
        k <= n,
        first_failure(es, start, k) is Some,
    ensures
        first_failure(es, start, n) == first_failure(es, start, k),
    decreases n - k,
{
    if k < n {
        lemma_first_failure_stays(es, start, k, (n - 1) as nat);
    }
}

proof fn lemma_aligned_sum(es: Seq<EntryModel>, k: nat)
    requires
        k <= es.len(),
    ensures
        sum_tocs(es, k) <= aligned_sum(es, k) <= sum_tocs(es, k) + 15 * k,
        inline_concat(es, k).len() == aligned_sum(es, k),
    decreases k,
{
    if k > 0 {
        lemma_aligned_sum(es, (k - 1) as nat);
        let l = es[k - 1].toc.len() as int;
        assert(l <= align16(l) <= l + 15) by (nonlinear_arith)
            requires
                l >= 0,
        ;
    }
}

/// Writes the rewritten headers and the padded main-file data of all
/// entries, the data starting at `start`.
fn build_toc(es: &Vec<RawEntry>, start: u64, combine: bool, offsets: &Vec<u64>) -> (r: Result<
    (Vec<u8>, Vec<u8>),
    String,
>)
    requires
        merged_size(entry_views(es@), es@.len()) + 200 <= usize::MAX,
        forall|j: int| 0 <= j < es@.len() ==> (#[trigger] es@[j]).header@.len() == 80,
        combine == combine_streams(entry_views(es@)),
        offsets@.len() == es@.len(),
        forall|j: int|
            0 <= j < es@.len() && (#[trigger] entry_views(es@)[j]).stream.len() > 0 ==> offsets@[j] == stream_offset(
                entry_views(es@),
                j,
            ),
    ensures
        match first_failure(entry_views(es@), start as int, es@.len()) {
            Some(m) => r matches Err(x) && x@ == m,
            None => r matches Ok((h, i)) && h@ == headers_concat(entry_views(es@), start as int, es@.len())
                && i@ == inline_concat(entry_views(es@), es@.len()),
        },
{
    let ghost ev = entry_views(es@);
    let n = es.len();
    let mut headers: Vec<u8> = Vec::new();
    let mut inline: Vec<u8> = Vec::new();
    let mut toc_offset: u64 = start;
    let mut k: usize = 0;
    proof {
        lemma_merged_size(ev, n as nat, n as nat);
    }
    while k < n
        invariant
            k <= n,
            n == es@.len(),
            ev == entry_views(es@),
            merged_size(ev, n as nat) + 200 <= usize::MAX,
            2 * sum_streams(ev, n as nat) + 160 * n + sum_tocs(ev, n as nat) == merged_size(ev, n as nat),
            sum_streams(ev, n as nat) >= 0,
            forall|j: int| 0 <= j < es@.len() ==> (#[trigger] es@[j]).header@.len() == 80,
            combine == combine_streams(ev),
            offsets@.len() == n,
            forall|j: int| 0 <= j < n && (#[trigger] ev[j]).stream.len() > 0 ==> offsets@[j] == stream_offset(ev, j),
            first_failure(ev, start as int, k as nat) is None,
            toc_offset == start + aligned_sum(ev, k as nat),
            headers@ == headers_concat(ev, start as int, k as nat),
            inline@ == inline_concat(ev, k as nat),
        decreases n - k,
    {
        let e = &es[k];
        assert(ev[k as int] == e@);
        proof {
            lemma_merged_size(ev, k as nat, n as nat);
            lemma_merged_size(ev, (k + 1) as nat, n as nat);
        }
        let len = e.toc_data.len();
        let aligned = align16_exec(len);
        let mut h = copy_bytes(e.header.as_slice());
        put_u64(&mut h, 16, toc_offset);
        let ghost h1 = h@;
        extend_bytes(&mut inline, e.toc_data.as_slice());
        extend_zeros(&mut inline, aligned - len);
        let next = match toc_offset.checked_add(aligned as u64) {
            Some(v) => v,
            None => {
                assert(entry_failure(ev, start as int, k as int) == Some("mixed patch resource offset overflow"@));
                proof {
                    lemma_first_failure_stays(ev, start as int, (k + 1) as nat, n as nat);
                }
                return Err(String::from_str("mixed patch resource offset overflow"));
            },
        };
        if combine && e.stream_data.len() > 0 {
            put_u64(&mut h, 24, offsets[k]);
        }
        assert(h@ == header_out(ev, start as int, k as int));
        if e.gpu_data.len() == 0 && u32_in(e.header.as_slice(), 64) > 0 {
            let id = u64_to_decimal(u64_in(e.header.as_slice(), 0));
            proof {
                lemma_first_failure_stays(ev, start as int, (k + 1) as nat, n as nat);
            }
            return Err(concat3("mixed patch resource ", id.as_str(), " references GPU data that cannot be regenerated"));
        }
        extend_bytes(&mut headers, h.as_slice());
        toc_offset = next;
        k = k + 1;
        assert(inline@ =~= inline_concat(ev, k as nat));
    }
    Ok((headers, inline))
}

/// How many of the first `k` entries' headers carry type id `id`.
pub open spec fn header_type_count(es: Seq<EntryModel>, id: u64, k: nat) -> nat
    decreases k,
{
    if k == 0 {
        0
    } else {
        header_type_count(es, id, (k - 1) as nat) + if le_u64_at(es[k - 1].header, 8) == id { 1nat } else { 0nat }
    }
}

/// A type entry of the merged patch: its template with the type id and the
/// number of headers of that type written in.
pub open spec fn template_out(t: TypeModel, es: Seq<EntryModel>) -> Seq<u8> {
    overwritten(
        overwritten(t.template, 8, spec_u64_to_le_bytes(t.type_id)),
        16,
        spec_u64_to_le_bytes(header_type_count(es, t.type_id, es.len()) as u64),
    )
}

/// The first `k` type entries of the merged patch, one after the other.
pub open spec fn templates_concat(ts: Seq<TypeModel>, es: Seq<EntryModel>, k: nat) -> Seq<u8>
    decreases k,
{
    if k == 0 {
        Seq::empty()
    } else {
        templates_concat(ts, es, (k - 1) as nat) + template_out(ts[k - 1], es)
    }
}

/// `s` cut or zero-extended to `n` bytes.
pub open spec fn resized(s: Seq<u8>, n: nat) -> Seq<u8> {
    if s.len() >= n {
        s.take(n as int)
    } else {
        s + zeros((n - s.len()) as nat)
    }
}

/// Where the merged patch's resource data starts.
pub open spec fn toc_start(t: int, n: int) -> int {
    72 + t * 32 + n * 80 + 8
}

/// The merged main file, when every entry can be written.
pub open spec fn merged_main(o: ArchiveModel, es: Seq<EntryModel>, ts: Seq<TypeModel>) -> Seq<u8> {
    let start = toc_start(ts.len() as int, es.len() as int);
    spec_u32_to_le_bytes(o.magic) + spec_u32_to_le_bytes(ts.len() as u32) + spec_u32_to_le_bytes(es.len() as u32)
        + spec_u32_to_le_bytes(o.unknown) + resized(o.unknown_data, 56) + templates_concat(ts, es, ts.len())
        + headers_concat(es, start, es.len()) + zeros(8) + inline_concat(es, es.len())
}

/// What merging gives: the main file and the stream sidecar of the merged
/// patch, or the message for what prevents it.
pub open spec fn spec_merge(o: ArchiveModel, g: ArchiveModel) -> Result<(Seq<u8>, Seq<u8>), Seq<char>> {
    let es = merged_entries(o, g);
    let ts = merged_types(es, o, g, es.len());
    let t = ts.len() as int;
    let n = es.len() as int;
    if t * 32 > usize::MAX {
        Err("mixed patch type table overflow"@)
    } else if n * 80 > usize::MAX || toc_start(t, n) > usize::MAX {
        Err("mixed patch TOC offset overflow"@)
    } else {
        match first_failure(es, toc_start(t, n), es.len()) {
            Some(m) => Err(m),
            None => Ok((merged_main(o, es, ts), stream_output(o, g, es))),
        }
    }
}

proof fn lemma_keep_headers(es: Seq<EntryModel>, audio: bool)
    requires
        forall|i: int| 0 <= i < es.len() ==> (#[trigger] es[i]).header.len() == 80,
    ensures
        forall|i: int| 0 <= i < keep_entries(es, audio).len() ==> (#[trigger] keep_entries(es, audio)[i]).header.len() == 80,
        keep_entries(es, audio).len() <= es.len(),
    decreases es.len(),
{
    if es.len() > 0 {
        lemma_keep_headers(es.drop_last(), audio);
    }
}

proof fn lemma_find_template_len(ts: Seq<TypeModel>, id: u64)
    requires
        forall|i: int| 0 <= i < ts.len() ==> (#[trigger] ts[i]).template.len() == 32,
    ensures
        find_template(ts, id) matches Some(t) ==> t.len() == 32,
    decreases ts.len(),
{
    if ts.len() > 0 && ts[0].type_id != id {
        assert forall|i: int| 0 <= i < ts.skip(1).len() implies (#[trigger] ts.skip(1)[i]).template.len() == 32 by {
            assert(ts.skip(1)[i] == ts[i + 1]);
        }
        lemma_find_template_len(ts.skip(1), id);
    }
}

proof fn lemma_merged_types(es: Seq<EntryModel>, o: ArchiveModel, g: ArchiveModel, k: nat)
    requires
        o.wf(),
        g.wf(),
        k <= es.len(),
    ensures
        merged_types(es, o, g, k).len() <= k,
        forall|i: int| 0 <= i < merged_types(es, o, g, k).len() ==> (#[trigger] merged_types(es, o, g, k)[i]).template.len() == 32,
    decreases k,
{
    if k > 0 {
        lemma_merged_types(es, o, g, (k - 1) as nat);
        let id = es[k - 1].type_id;
        lemma_find_template_len(o.types, id);
        lemma_find_template_len(g.types, id);
    }
}

fn count_headers(es: &Vec<RawEntry>, id: u64) -> (c: u64)
    requires
        forall|j: int| 0 <= j < es@.len() ==> (#[trigger] es@[j]).header@.len() == 80,
    ensures
        c == header_type_count(entry_views(es@), id, es@.len()),
{
    let mut c: u64 = 0;
    let mut k: usize = 0;
    while k < es.len()
        invariant
            k <= es@.len(),
            forall|j: int| 0 <= j < es@.len() ==> (#[trigger] es@[j]).header@.len() == 80,
            c == header_type_count(entry_views(es@), id, k as nat),
            c <= k,
        decreases es@.len() - k,
    {
        assert(entry_views(es@)[k as int] == es@[k as int]@);
        if u64_in(es[k].header.as_slice(), 8) == id {
            c = c + 1;
        }
        k = k + 1;
    }
    c
}

fn build_templates(ts: &Vec<RawType>, es: &Vec<RawEntry>) -> (out: Vec<u8>)
    requires
        forall|j: int| 0 <= j < ts@.len() ==> (#[trigger] ts@[j]).template@.len() == 32,
        forall|j: int| 0 <= j < es@.len() ==> (#[trigger] es@[j]).header@.len() == 80,
    ensures
        out@ == templates_concat(type_views(ts@), entry_views(es@), ts@.len()),
{
    let mut out: Vec<u8> = Vec::new();
    let mut k: usize = 0;
    while k < ts.len()
        invariant
            k <= ts@.len(),
            forall|j: int| 0 <= j < ts@.len() ==> (#[trigger] ts@[j]).template@.len() == 32,
            forall|j: int| 0 <= j < es@.len() ==> (#[trigger] es@[j]).header@.len() == 80,
            out@ == templates_concat(type_views(ts@), entry_views(es@), k as nat),
        decreases ts@.len() - k,
    {
        let t = &ts[k];
        assert(type_views(ts@)[k as int] == t@);
        let mut b = copy_bytes(t.template.as_slice());
        put_u64(&mut b, 8, t.type_id);
        let c = count_headers(es, t.type_id);
        put_u64(&mut b, 16, c);
        extend_bytes(&mut out, b.as_slice());
        k = k + 1;
    }
    out
}

pub(crate) fn resized_exec(s: &[u8], n: usize) -> (r: Vec<u8>)
    ensures
        r@ == resized(s@, n as nat),
{
    if s.len() >= n {
        copy_bytes(vstd::slice::slice_subrange(s, 0, n))
    } else {
        let mut r = copy_bytes(s);
        extend_zeros(&mut r, n - s.len());
        r
    }
}

impl RawArchive {
    /// Whether the archive holds any resource that is not audio.
    pub fn has_non_audio_resources(&self) -> (b: bool)
        ensures
            b == exists|i: int| 0 <= i < self@.entries.len() && !spec_is_audio_type_id(#[trigger] self@.entries[i].type_id),
    {
        let mut k: usize = 0;
        while k < self.entries.len()
            invariant
                k <= self.entries@.len(),
                forall|j: int| 0 <= j < k ==> spec_is_audio_type_id(#[trigger] self@.entries[j].type_id),
            decreases self.entries@.len() - k,
        {
            assert(self@.entries[k as int] == self.entries@[k as int]@);
            if !is_audio_type_id(self.entries[k].type_id) {
                assert(!spec_is_audio_type_id(self@.entries[k as int].type_id));
                return true;
            }
            k = k + 1;
        }
        false
    }
}

proof fn lemma_merged_size_push(s: Seq<EntryModel>, e: EntryModel, k: nat)
    requires
        k <= s.len(),
    ensures
        merged_size(s.push(e), k) == merged_size(s, k),
    decreases k,
{
    if k > 0 {
        lemma_merged_size_push(s, e, (k - 1) as nat);
        assert(s.push(e)[k - 1] == s[k - 1]);
    }
}

/// Adds the merge cost of the entries of `es` of one kind to `total`, which
/// is that of `kept`; once past `usize::MAX` it stops counting.
fn add_merge_cost(es: &Vec<RawEntry>, audio: bool, total: u128, Ghost(kept): Ghost<Seq<EntryModel>>) -> (r: u128)
    requires
        total <= usize::MAX ==> total == merged_size(kept, kept.len()),
        total > usize::MAX ==> merged_size(kept, kept.len()) > usize::MAX,
        total <= 4 * (usize::MAX as int) + 160,
    ensures
        ({
            let all = kept + keep_entries(entry_views(es@), audio);
            &&& r <= usize::MAX ==> r == merged_size(all, all.len())
            &&& r > usize::MAX ==> merged_size(all, all.len()) > usize::MAX
            &&& r <= 4 * (usize::MAX as int) + 160
        }),
{
    let mut total = total;
    let ghost ev = entry_views(es@);
    let mut k: usize = 0;
    assert(kept + keep_entries(ev.take(0), audio) =~= kept);
    while k < es.len()
        invariant
            k <= es@.len(),
            ev == entry_views(es@),
            ({
                let cur = kept + keep_entries(ev.take(k as int), audio);
                &&& total <= usize::MAX ==> total == merged_size(cur, cur.len())
                &&& total > usize::MAX ==> merged_size(cur, cur.len()) > usize::MAX
            }),
            total <= 4 * (usize::MAX as int) + 160,
        decreases es@.len() - k,
    {
        let ghost cur = kept + keep_entries(ev.take(k as int), audio);
        assert(ev.take(k + 1).drop_last() =~= ev.take(k as int));
        assert(ev.take(k + 1).last() == es@[k as int]@);
        if is_audio_type_id(es[k].type_id) == audio {
            let ghost e = es@[k as int]@;
            let ghost next = cur.push(e);
            assert(kept + keep_entries(ev.take(k + 1), audio) =~= next);
            proof {
                lemma_merged_size_push(cur, e, cur.len());
            }
            if total <= usize::MAX as u128 {
                total = total + es[k].toc_data.len() as u128 + 2 * (es[k].stream_data.len() as u128) + 160;
            }
        } else {
            assert(kept + keep_entries(ev.take(k + 1), audio) =~= cur);
        }
        k = k + 1;
    }
    assert(ev.take(es@.len() as int) =~= ev);
    total
}

/// Whether merging `original` and `generated` fits in memory: the measure
/// `merge_mixed_patch` asks for stays within `usize::MAX`.
pub fn merge_fits(original: &RawArchive, generated: &RawArchive) -> (b: bool)
    ensures
        b == (merged_size(merged_entries(original@, generated@), merged_entries(original@, generated@).len()) + 200
            <= usize::MAX),
{
    let ghost o = entry_views(original.entries@);
    assert(o == original@.entries);
    assert(entry_views(generated.entries@) == generated@.entries);
    let t1 = add_merge_cost(&original.entries, false, 0, Ghost(Seq::empty()));
    assert(Seq::<EntryModel>::empty() + keep_entries(o, false) =~= keep_entries(o, false));
    let t2 = add_merge_cost(&generated.entries, true, t1, Ghost(keep_entries(o, false)));
    t2 <= usize::MAX as u128 && t2 + 200 <= usize::MAX as u128
}

/// Rebuilds a mixed patch from the archive it came from and the audio patch
/// regenerated from it: the original's non-audio entries are kept, the
/// regenerated audio entries replace its audio entries, the type table is
/// rebuilt for the entries kept, every resource's data is laid out anew, and
/// the stream sidecar is rebuilt when both kinds of entries have stream data.
/// Returns the merged main file and its stream sidecar.
pub fn merge_mixed_patch(original: &RawArchive, generated: &RawArchive) -> (r: Result<(Vec<u8>, Vec<u8>), String>)
    requires
        original@.wf(),
        generated@.wf(),
        merged_size(merged_entries(original@, generated@), merged_entries(original@, generated@).len()) + 200
            <= usize::MAX,
    ensures
        match spec_merge(original@, generated@) {
            Ok((m, st)) => r matches Ok((m2, st2)) && m2@ == m && st2@ == st,
            Err(msg) => r matches Err(x) && x@ == msg,
        },
{
    let ghost o = original@;
    let ghost g = generated@;
    let mut entries: Vec<RawEntry> = Vec::new();
    assert(entry_views(entries@) =~= Seq::<EntryModel>::empty());
    append_kept(&mut entries, &original.entries, false);
    append_kept(&mut entries, &generated.entries, true);
    assert(entry_views(original.entries@) == o.entries);
    assert(entry_views(generated.entries@) == g.entries);
    let ghost es = entry_views(entries@);
    assert(es =~= merged_entries(o, g));
    proof {
        lemma_keep_headers(o.entries, false);
        lemma_keep_headers(g.entries, true);
        assert forall|j: int| 0 <= j < entries@.len() implies (#[trigger] entries@[j]).header@.len() == 80 by {
            assert(es[j] == entries@[j]@);
        }
    }
    let types = merge_types(&entries, original, generated);
    proof {
        lemma_merged_types(es, o, g, es.len());
        assert forall|j: int| 0 <= j < types@.len() implies (#[trigger] types@[j]).template@.len() == 32 by {
            assert(type_views(types@)[j] == types@[j]@);
        }
        lemma_merged_size(es, es.len(), es.len());
    }
    let n = entries.len();
    let t = types.len();
    let orig_streams = count_streams(&entries, false);
    let gen_streams = count_streams(&entries, true);
    let combine = orig_streams > 0 && gen_streams > 0;
    let (packed_stream, offsets) = pack_streams(&entries);
    let stream_out = if combine {
        packed_stream
    } else if gen_streams > 0 && orig_streams == 0 {
        copy_bytes(generated.stream.as_slice())
    } else {
        copy_bytes(original.stream.as_slice())
    };
    let types_size = match t.checked_mul(32) {
        Some(v) => v,
        None => return Err(String::from_str("mixed patch type table overflow")),
    };
    let start: usize = match 72usize.checked_add(types_size) {
        Some(a) => match n.checked_mul(80) {
            Some(b) => match a.checked_add(b) {
                Some(c) => match c.checked_add(8) {
                    Some(d) => d,
                    None => return Err(String::from_str("mixed patch TOC offset overflow")),
                },
                None => return Err(String::from_str("mixed patch TOC offset overflow")),
            },
            None => return Err(String::from_str("mixed patch TOC offset overflow")),
        },
        None => return Err(String::from_str("mixed patch TOC offset overflow")),
    };
    assert(start == toc_start(t as int, n as int));
    let (headers, inline) = match build_toc(&entries, start as u64, combine, &offsets) {
        Ok(x) => x,
        Err(m) => return Err(m),
    };
    let mut out: Vec<u8> = Vec::new();
    extend_u32(&mut out, original.magic);
    extend_u32(&mut out, t as u32);
    extend_u32(&mut out, n as u32);
    extend_u32(&mut out, original.unknown);
    let unknown = resized_exec(original.unknown_data.as_slice(), 56);
    extend_bytes(&mut out, unknown.as_slice());
    let templates = build_templates(&types, &entries);
    extend_bytes(&mut out, templates.as_slice());
    extend_bytes(&mut out, headers.as_slice());
    extend_zeros(&mut out, 8);
    extend_bytes(&mut out, inline.as_slice());
    Ok((out, stream_out))
}

// ---------------------------------------------------------------------------
// Laws.

proof fn lemma_keep_members(es: Seq<EntryModel>, audio: bool)
    ensures
        forall|j: int| 0 <= j < keep_entries(es, audio).len() ==> spec_is_audio_type_id(
            (#[trigger] keep_entries(es, audio)[j]).type_id,
        ) == audio && es.contains(keep_entries(es, audio)[j]),
        forall|i: int| 0 <= i < es.len() && spec_is_audio_type_id((#[trigger] es[i]).type_id) == audio ==> keep_entries(
            es,
            audio,
        ).contains(es[i]),
    decreases es.len(),
{
    if es.len() > 0 {
        let init = es.drop_last();
        lemma_keep_members(init, audio);
        let k = keep_entries(es, audio);
        let r = keep_entries(init, audio);
        assert forall|j: int| 0 <= j < k.len() implies spec_is_audio_type_id((#[trigger] k[j]).type_id) == audio
            && es.contains(k[j]) by {
            if j < r.len() {
                assert(k[j] == r[j]);
                assert(init.contains(r[j]));
                let w = choose|w: int| 0 <= w < init.len() && init[w] == r[j];
                assert(es[w] == init[w]);
            } else {
                assert(k[j] == es.last());
                assert(es[es.len() - 1] == es.last());
            }
        }
        assert forall|i: int| 0 <= i < es.len() && spec_is_audio_type_id((#[trigger] es[i]).type_id) == audio
            implies k.contains(es[i]) by {
            if i < es.len() - 1 {
                assert(init[i] == es[i]);
                assert(r.contains(init[i]));
                let w = choose|w: int| 0 <= w < r.len() && r[w] == init[i];
                assert(k[w] == r[w]);
            } else {
                assert(k[k.len() - 1] == es.last());
            }
        }
    }
}

/// The merged patch keeps every non-audio entry of the original, takes its
/// audio entries from the regenerated patch only, and keeps no audio entry
/// of the original nor any non-audio entry of the regenerated patch.
pub proof fn law_merge_keeps_non_audio(o: ArchiveModel, g: ArchiveModel)
    ensures
        forall|i: int| 0 <= i < o.entries.len() && !spec_is_audio_type_id((#[trigger] o.entries[i]).type_id)
            ==> merged_entries(o, g).contains(o.entries[i]),
        forall|i: int| 0 <= i < g.entries.len() && spec_is_audio_type_id((#[trigger] g.entries[i]).type_id)
            ==> merged_entries(o, g).contains(g.entries[i]),
        forall|j: int| 0 <= j < merged_entries(o, g).len() ==> if spec_is_audio_type_id(
            (#[trigger] merged_entries(o, g)[j]).type_id,
        ) {
            g.entries.contains(merged_entries(o, g)[j])
        } else {
            o.entries.contains(merged_entries(o, g)[j])
        },
{
    lemma_keep_members(o.entries, false);
    lemma_keep_members(g.entries, true);
    let a = keep_entries(o.entries, false);
    let b = keep_entries(g.entries, true);
    let m = merged_entries(o, g);
    assert forall|i: int| 0 <= i < o.entries.len() && !spec_is_audio_type_id((#[trigger] o.entries[i]).type_id)
        implies m.contains(o.entries[i]) by {
        assert(a.contains(o.entries[i]));
        let w = choose|w: int| 0 <= w < a.len() && a[w] == o.entries[i];
        assert(m[w] == a[w]);
    }
    assert forall|i: int| 0 <= i < g.entries.len() && spec_is_audio_type_id((#[trigger] g.entries[i]).type_id)
        implies m.contains(g.entries[i]) by {
        assert(b.contains(g.entries[i]));
        let w = choose|w: int| 0 <= w < b.len() && b[w] == g.entries[i];
        assert(m[a.len() + w] == b[w]);
    }
    assert forall|j: int| 0 <= j < m.len() implies if spec_is_audio_type_id((#[trigger] m[j]).type_id) {
        g.entries.contains(m[j])
    } else {
        o.entries.contains(m[j])
    } by {
        if j < a.len() {
            assert(m[j] == a[j]);
        } else {
            assert(m[j] == b[j - a.len()]);
        }
    }
}

proof fn lemma_overwritten_len(d: Seq<u8>, at: nat, b: Seq<u8>)
    requires
        at + b.len() <= d.len(),
    ensures
        overwritten(d, at, b).len() == d.len(),
        overwritten(d, at, b).subrange(at as int, (at + b.len()) as int) == b,
        forall|i: int| 0 <= i < d.len() && !(at <= i < at + b.len()) ==> #[trigger] overwritten(d, at, b)[i] == d[i],
{
    let o = overwritten(d, at, b);
    assert(crate::memstream::extended(d, at + b.len()) == d);
    assert(o.subrange(at as int, (at + b.len()) as int) =~= b);
}

proof fn lemma_header_out(es: Seq<EntryModel>, start: int, k: int)
    requires
        0 <= k < es.len(),
        es[k].header.len() == 80,
    ensures
        header_out(es, start, k).len() == 80,
        header_out(es, start, k).subrange(16, 24) == spec_u64_to_le_bytes((start + aligned_sum(es, k as nat)) as u64),
        forall|i: int| 32 <= i < 80 ==> #[trigger] header_out(es, start, k)[i] == es[k].header[i],
        forall|i: int| 0 <= i < 16 ==> #[trigger] header_out(es, start, k)[i] == es[k].header[i],
{
    lemma_auto_spec_u64_to_from_le_bytes();
    let h = es[k].header;
    let b1 = spec_u64_to_le_bytes((start + aligned_sum(es, k as nat)) as u64);
    lemma_overwritten_len(h, 16, b1);
    let h1 = overwritten(h, 16, b1);
    if combine_streams(es) && es[k].stream.len() > 0 {
        let b2 = spec_u64_to_le_bytes(stream_offset(es, k) as u64);
        lemma_overwritten_len(h1, 24, b2);
        let h2 = overwritten(h1, 24, b2);
        assert(h2.subrange(16, 24) =~= h1.subrange(16, 24));
    }
}

proof fn lemma_headers_concat(es: Seq<EntryModel>, start: int, n: nat, k: int)
    requires
        n <= es.len(),
        0 <= k < n,
        forall|i: int| 0 <= i < es.len() ==> (#[trigger] es[i]).header.len() == 80,
    ensures
        headers_concat(es, start, n).len() == 80 * n,
        headers_concat(es, start, n).subrange(80 * k, 80 * k + 80) == header_out(es, start, k),
    decreases n,
{
    lemma_headers_len(es, start, n);
    lemma_headers_len(es, start, (n - 1) as nat);
    lemma_header_out(es, start, n - 1);
    let prev = headers_concat(es, start, (n - 1) as nat);
    if k < n - 1 {
        lemma_headers_concat(es, start, (n - 1) as nat, k);
        assert(headers_concat(es, start, n).subrange(80 * k, 80 * k + 80) =~= prev.subrange(80 * k, 80 * k + 80));
    } else {
        assert(headers_concat(es, start, n).subrange(80 * k, 80 * k + 80) =~= header_out(es, start, k));
    }
}

proof fn lemma_headers_len(es: Seq<EntryModel>, start: int, n: nat)
    requires
        n <= es.len(),
        forall|i: int| 0 <= i < es.len() ==> (#[trigger] es[i]).header.len() == 80,
    ensures
        headers_concat(es, start, n).len() == 80 * n,
    decreases n,
{
    if n > 0 {
        lemma_headers_len(es, start, (n - 1) as nat);
        lemma_header_out(es, start, n - 1);
    }
}

proof fn lemma_inline_concat(es: Seq<EntryModel>, n: nat, k: int)
    requires
        n <= es.len(),
        0 <= k < n,
    ensures
        inline_concat(es, n).subrange(aligned_sum(es, k as nat), aligned_sum(es, k as nat) + es[k].toc.len()) == es[k].toc,
        aligned_sum(es, k as nat) + es[k].toc.len() <= aligned_sum(es, n),
    decreases n,
{
    lemma_aligned_sum(es, n);
    lemma_aligned_sum(es, (n - 1) as nat);
    lemma_aligned_sum(es, k as nat);
    lemma_aligned_sum(es, (k + 1) as nat);
    let prev = inline_concat(es, (n - 1) as nat);
    let a = aligned_sum(es, k as nat);
    let l = es[k].toc.len() as int;
    if k < n - 1 {
        lemma_inline_concat(es, (n - 1) as nat, k);
        assert(inline_concat(es, n).subrange(a, a + l) =~= prev.subrange(a, a + l));
    } else {
        assert(inline_concat(es, n) == prev + padded16(es[k].toc));
        assert(inline_concat(es, n).subrange(a, a + l) =~= es[k].toc);
    }
}

proof fn lemma_templates_len(ts: Seq<TypeModel>, es: Seq<EntryModel>, k: nat)
    requires
        k <= ts.len(),
        forall|i: int| 0 <= i < ts.len() ==> (#[trigger] ts[i]).template.len() == 32,
    ensures
        templates_concat(ts, es, k).len() == 32 * k,
    decreases k,
{
    if k > 0 {
        lemma_auto_spec_u64_to_from_le_bytes();
        lemma_templates_len(ts, es, (k - 1) as nat);
        let t = ts[k - 1];
        lemma_overwritten_len(t.template, 8, spec_u64_to_le_bytes(t.type_id));
        let t1 = overwritten(t.template, 8, spec_u64_to_le_bytes(t.type_id));
        lemma_overwritten_len(t1, 16, spec_u64_to_le_bytes(header_type_count(es, t.type_id, es.len()) as u64));
    }
}

/// In a merged patch every entry's header sits at its place in the file
/// table, and the data it points at is that entry's own data, unchanged:
/// merging moves resources but never alters them. The counts in the header
/// are the numbers of types and entries written.
pub proof fn law_merged_data_in_place(o: ArchiveModel, g: ArchiveModel, k: int)
    requires
        o.wf(),
        g.wf(),
        spec_merge(o, g) is Ok,
        0 <= k < merged_entries(o, g).len(),
        merged_entries(o, g).len() <= u32::MAX,
    ensures
        ({
            let es = merged_entries(o, g);
            let ts = merged_types(es, o, g, es.len());
            let main = spec_merge(o, g)->Ok_0.0;
            let h = main.subrange(72 + 32 * ts.len() + 80 * k, 72 + 32 * ts.len() + 80 * k + 80);
            let off = le_u64_at(h, 16) as int;
            &&& le_u32_at(main, 4) == ts.len()
            &&& le_u32_at(main, 8) == es.len()
            &&& h == header_out(es, toc_start(ts.len() as int, es.len() as int), k)
            &&& main.subrange(off, off + es[k].toc.len()) == es[k].toc
        }),
{
    lemma_auto_spec_u64_to_from_le_bytes();
    lemma_auto_spec_u32_to_from_le_bytes();
    let es = merged_entries(o, g);
    let ts = merged_types(es, o, g, es.len());
    let n = es.len();
    let t = ts.len();
    let start = toc_start(t as int, n as int);
    lemma_keep_headers(o.entries, false);
    lemma_keep_headers(g.entries, true);
    assert forall|i: int| 0 <= i < es.len() implies (#[trigger] es[i]).header.len() == 80 by {
        let a = keep_entries(o.entries, false);
        if i < a.len() {
            assert(es[i] == a[i]);
        } else {
            assert(es[i] == keep_entries(g.entries, true)[i - a.len()]);
        }
    }
    lemma_merged_types(es, o, g, es.len());
    lemma_templates_len(ts, es, t);
    lemma_headers_concat(es, start, n, k);
    lemma_inline_concat(es, n, k);
    lemma_header_out(es, start, k);
    lemma_first_failure_none_bound(es, start, n);
    let main = merged_main(o, es, ts);
    let p1 = spec_u32_to_le_bytes(o.magic);
    let p2 = spec_u32_to_le_bytes(t as u32);
    let p3 = spec_u32_to_le_bytes(n as u32);
    let p4 = spec_u32_to_le_bytes(o.unknown);
    let p5 = resized(o.unknown_data, 56);
    let p6 = templates_concat(ts, es, t);
    let p7 = headers_concat(es, start, n);
    let p8 = zeros(8);
    let p9 = inline_concat(es, n);
    assert(p5.len() == 56);
    assert(main == p1 + p2 + p3 + p4 + p5 + p6 + p7 + p8 + p9);
    let pre7 = 72 + 32 * t;
    assert(main.subrange(4, 8) =~= p2);
    assert(main.subrange(8, 12) =~= p3);
    assert(main.subrange(pre7 + 80 * k, pre7 + 80 * k + 80) =~= p7.subrange(80 * k, 80 * k + 80));
    let h = header_out(es, start, k);
    let a = aligned_sum(es, k as nat);
    let l = es[k].toc.len() as int;
    lemma_aligned_sum(es, k as nat);
    lemma_merged_size(es, k as nat, n);
    assert(a >= 0);
    assert(start + aligned_sum(es, ((n - 1) + 1) as nat) <= u64::MAX);
    assert(aligned_sum(es, k as nat) <= aligned_sum(es, n));
    assert(aligned_sum(es, n as nat) <= aligned_sum(es, n));
    assert(le_u64_at(h, 16) == (start + a) as u64);
    assert(le_u64_at(h, 16) == start + a);
    assert(start == pre7 + 80 * n + 8);
    let x = p1 + p2 + p3 + p4 + p5 + p6 + p7 + p8;
    assert(x.len() == start);
    assert(main == x + p9);
    lemma_aligned_sum(es, n);
    assert(p9.len() == aligned_sum(es, n));
    assert(a + l <= p9.len());
    assert((x + p9).subrange(start + a, start + a + l) =~= p9.subrange(a, a + l));
}

proof fn lemma_first_failure_none_bound(es: Seq<EntryModel>, start: int, n: nat)
    requires
        n <= es.len(),
        first_failure(es, start, n) is None,
    ensures
        forall|k: int| 0 <= k < n ==> start + #[trigger] aligned_sum(es, (k + 1) as nat) <= u64::MAX,
        forall|k: int| 0 <= k <= n ==> #[trigger] aligned_sum(es, k as nat) <= aligned_sum(es, n),
    decreases n,
{
    if n > 0 {
        lemma_first_failure_none_bound(es, start, (n - 1) as nat);
        lemma_aligned_sum(es, n);
        lemma_aligned_sum(es, (n - 1) as nat);
    }
}

/// The type ids the first `k` entries' headers carry, in order.
pub open spec fn header_type_ids(es: Seq<EntryModel>, k: nat) -> Seq<u64> {
    Seq::new(k, |j: int| le_u64_at(es[j].header, 8))
}

proof fn lemma_type_count_is_filter(es: Seq<EntryModel>, id: u64, k: nat)
    requires
        k <= es.len(),
    ensures
        header_type_count(es, id, k) == header_type_ids(es, k).filter(|x: u64| x == id).len(),
    decreases k,
{
    reveal(Seq::filter);
    if k > 0 {
        lemma_type_count_is_filter(es, id, (k - 1) as nat);
        assert(header_type_ids(es, k).drop_last() =~= header_type_ids(es, (k - 1) as nat));
        assert(header_type_ids(es, k).last() == le_u64_at(es[k - 1].header, 8));
    }
}

proof fn lemma_templates_concat(ts: Seq<TypeModel>, es: Seq<EntryModel>, n: nat, r: int)
    requires
        n <= ts.len(),
        0 <= r < n,
        forall|i: int| 0 <= i < ts.len() ==> (#[trigger] ts[i]).template.len() == 32,
    ensures
        templates_concat(ts, es, n).subrange(32 * r, 32 * r + 32) == template_out(ts[r], es),
    decreases n,
{
    lemma_auto_spec_u64_to_from_le_bytes();
    lemma_templates_len(ts, es, n);
    lemma_templates_len(ts, es, (n - 1) as nat);
    let prev = templates_concat(ts, es, (n - 1) as nat);
    let t = ts[n - 1];
    lemma_overwritten_len(t.template, 8, spec_u64_to_le_bytes(t.type_id));
    let t1 = overwritten(t.template, 8, spec_u64_to_le_bytes(t.type_id));
    lemma_overwritten_len(t1, 16, spec_u64_to_le_bytes(header_type_count(es, t.type_id, es.len()) as u64));
    if r < n - 1 {
        lemma_templates_concat(ts, es, (n - 1) as nat, r);
        assert(templates_concat(ts, es, n).subrange(32 * r, 32 * r + 32) =~= prev.subrange(32 * r, 32 * r + 32));
    } else {
        assert(templates_concat(ts, es, n).subrange(32 * r, 32 * r + 32) =~= template_out(ts[r], es));
    }
}

/// Each type row of a merged patch counts its entries: the count field of
/// the `r`-th type entry (bytes 16..24 of the row at `72 + 32 * r`) is the
/// number of TOC headers of the merged file whose type id (bytes 8..16 of
/// the header at `72 + 32 * types + 80 * j`) is the row's type id (bytes
/// 8..16 of the row).
pub proof fn law_merged_type_counts(o: ArchiveModel, g: ArchiveModel, r: int)
    requires
        o.wf(),
        g.wf(),
        spec_merge(o, g) is Ok,
        merged_entries(o, g).len() <= u32::MAX,
        0 <= r < le_u32_at(spec_merge(o, g)->Ok_0.0, 4),
    ensures
        ({
            let main = spec_merge(o, g)->Ok_0.0;
            let nt = le_u32_at(main, 4) as int;
            let nf = le_u32_at(main, 8) as nat;
            let id = le_u64_at(main, 72 + 32 * r + 8);
            le_u64_at(main, 72 + 32 * r + 16) == Seq::new(nf, |j: int| le_u64_at(main, 72 + 32 * nt + 80 * j + 8)).filter(
                |x: u64| x == id,
            ).len()
        }),
{
    lemma_auto_spec_u64_to_from_le_bytes();
    lemma_auto_spec_u32_to_from_le_bytes();
    let es = merged_entries(o, g);
    let ts = merged_types(es, o, g, es.len());
    let n = es.len();
    let t = ts.len();
    let start = toc_start(t as int, n as int);
    let main = spec_merge(o, g)->Ok_0.0;
    if n > 0 {
        law_merged_data_in_place(o, g, 0);
    } else {
        assert(t == 0) by {
            lemma_merged_types(es, o, g, es.len());
        }
        assert(main.subrange(4, 8) =~= spec_u32_to_le_bytes(t as u32));
    }
    assert(le_u32_at(main, 4) == t);
    lemma_keep_headers(o.entries, false);
    lemma_keep_headers(g.entries, true);
    assert forall|i: int| 0 <= i < es.len() implies (#[trigger] es[i]).header.len() == 80 by {
        let a = keep_entries(o.entries, false);
        if i < a.len() {
            assert(es[i] == a[i]);
        } else {
            assert(es[i] == keep_entries(g.entries, true)[i - a.len()]);
        }
    }
    lemma_merged_types(es, o, g, es.len());
    lemma_templates_len(ts, es, t);
    lemma_headers_len(es, start, n);
    lemma_templates_concat(ts, es, t, r);
    let p1 = spec_u32_to_le_bytes(o.magic);
    let p2 = spec_u32_to_le_bytes(t as u32);
    let p3 = spec_u32_to_le_bytes(n as u32);
    let p4 = spec_u32_to_le_bytes(o.unknown);
    let p5 = resized(o.unknown_data, 56);
    let p6 = templates_concat(ts, es, t);
    let p7 = headers_concat(es, start, n);
    assert(p5.len() == 56);
    assert(main == merged_main(o, es, ts));
    let rest = zeros(8) + inline_concat(es, n);
    assert(main =~= p1 + p2 + p3 + p4 + p5 + p6 + p7 + rest);
    assert(main.subrange(8, 12) =~= p3);
    assert(le_u32_at(main, 8) == n);
    // The row.
    let row = template_out(ts[r], es);
    assert(main.subrange(72 + 32 * r, 72 + 32 * r + 32) =~= p6.subrange(32 * r, 32 * r + 32));
    let tr = ts[r];
    lemma_overwritten_len(tr.template, 8, spec_u64_to_le_bytes(tr.type_id));
    let t1 = overwritten(tr.template, 8, spec_u64_to_le_bytes(tr.type_id));
    let cnt = header_type_count(es, tr.type_id, es.len());
    lemma_overwritten_len(t1, 16, spec_u64_to_le_bytes(cnt as u64));
    assert(row.subrange(8, 16) =~= t1.subrange(8, 16));
    assert(main.subrange(72 + 32 * r + 8, 72 + 32 * r + 16) =~= row.subrange(8, 16));
    assert(main.subrange(72 + 32 * r + 16, 72 + 32 * r + 24) =~= row.subrange(16, 24));
    assert(le_u64_at(main, 72 + 32 * r + 8) == tr.type_id);
    lemma_type_count_is_filter(es, tr.type_id, n);
    lemma_filter_len_bound(header_type_ids(es, n), tr.type_id);
    assert(le_u64_at(main, 72 + 32 * r + 16) == cnt);
    // The headers.
    let h0 = 72 + 32 * t;
    assert(Seq::new(n, |j: int| le_u64_at(main, h0 + 80 * j + 8)) =~= header_type_ids(es, n)) by {
        assert forall|j: int| 0 <= j < n implies le_u64_at(main, h0 + 80 * j + 8) == #[trigger] le_u64_at(es[j].header, 8) by {
            lemma_headers_concat(es, start, n, j);
            lemma_header_out(es, start, j);
            let h = header_out(es, start, j);
            assert(main.subrange(h0 + 80 * j, h0 + 80 * j + 80) =~= p7.subrange(80 * j, 80 * j + 80));
            assert(main.subrange(h0 + 80 * j + 8, h0 + 80 * j + 16) =~= h.subrange(8, 16));
            assert(h.subrange(8, 16) =~= es[j].header.subrange(8, 16));
        }
    }
}

proof fn lemma_filter_len_bound(s: Seq<u64>, id: u64)
    ensures
        s.filter(|x: u64| x == id).len() <= s.len(),
{
    broadcast use vstd::seq_lib::group_filter_ensures;
    s.lemma_filter_len(|x: u64| x == id);
}

} // verus!
