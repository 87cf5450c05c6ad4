//! The pool an audio patch is built in: the resources of the base archives it
//! touches, each kept once under its id, with the patch's changes merged in.

use vstd::prelude::*;
use crate::keyed::{
    add_absent, add_absent_u32, add_absent_u64, find_u32, find_u64, has_key, key_index, keys_unique,
    lemma_add_absent_has_key, lemma_add_absent_map, lemma_add_absent_prefix, lemma_has_key_map, lemma_key_index_unique, lemma_map_vals_unique, lemma_upsert_map, map_vals,
    upsert, upsert_u64,
};
use crate::buf::{bytes_eq, copy_bytes};
use crate::wwise::text_bank::{entry_models, entry_view, import_texts, lemma_import_texts_unique, EntryModel, StringEntry};
use crate::wwise::hierarchy::{entry_parts, HircEntry};
use crate::wwise::load::{
    archive_model, bank_map, bank_model, containers_unique, hier_keys_match, texts_wf, hirc_map, hirc_pairs, stream_map, text_map, video_map,
    ArchiveModel, BankModel, HircParts, GameArchive, StreamModel, TextModel, VideoModel, WwiseBank,
};
use crate::wwise::archive::ARCHIVE_MAGIC;
use crate::wwise::sources::{VideoSource, WwiseStream};
use crate::wwise::text_bank::TextBank;

verus! {

/// What the pool remembers of an archive it added: its `unknown` field, the
/// 56 header bytes after it, and the ids of its streams, banks, text banks
/// and videos, in its own order.
pub struct ArchiveRecord {
    pub unknown: u32,
    pub unk4_data: Vec<u8>,
    pub streams: Vec<u64>,
    pub banks: Vec<u64>,
    pub texts: Vec<u64>,
    pub videos: Vec<u64>,
}

/// An archive record as values.
pub type RecordModel = (u32, Seq<u8>, Seq<u64>, Seq<u64>, Seq<u64>, Seq<u64>);

pub open spec fn record_model(r: ArchiveRecord) -> RecordModel {
    (r.unknown, r.unk4_data@, r.streams@, r.banks@, r.texts@, r.videos@)
}

/// The keys of a keyed sequence, in order.
pub open spec fn ids_of<V>(s: Seq<(u64, V)>) -> Seq<u64> {
    s.map_values(|p: (u64, V)| p.0)
}

/// The record of archive `a` with header fields `unknown` and `unk4`.
pub open spec fn record_of(unknown: u32, unk4: Seq<u8>, a: ArchiveModel) -> RecordModel {
    (unknown, unk4, ids_of(a.streams), ids_of(a.banks), ids_of(a.texts), ids_of(a.videos))
}

/// The pool as values: the names of the archives added, what it remembers
/// of each, and its containers.
pub struct PoolModel {
    pub names: Seq<Seq<char>>,
    pub records: Seq<RecordModel>,
    pub arch: ArchiveModel,
}

/// The resources of the archives added so far, each once under its id.
pub struct Mod {
    pub names: Vec<String>,
    pub records: Vec<ArchiveRecord>,
    pub wwise_streams: Vec<(u64, WwiseStream)>,
    pub wwise_banks: Vec<(u64, WwiseBank)>,
    pub text_banks: Vec<(u64, TextBank)>,
    pub video_sources: Vec<(u64, VideoSource)>,
    pub hierarchy_entries: Vec<(u32, HircEntry)>,
}

pub open spec fn pool_model(p: Mod) -> PoolModel {
    PoolModel {
        names: p.names@.map_values(|s: String| s@),
        records: p.records@.map_values(|r: ArchiveRecord| record_model(r)),
        arch: ArchiveModel {
            streams: map_vals(p.wwise_streams@, stream_map()),
            banks: map_vals(p.wwise_banks@, bank_map()),
            texts: map_vals(p.text_banks@, text_map()),
            videos: map_vals(p.video_sources@, video_map()),
            hierarchy: map_vals(p.hierarchy_entries@, hirc_map()),
        },
    }
}

/// A bank entry as the pool holds it: an entry that both the archive's and
/// the pool's hierarchies list is replaced by the pool's.
pub open spec fn pooled_entry(ah: Seq<(u32, HircParts)>, ph: Seq<(u32, HircParts)>, e: (u32, HircParts)) -> (u32, HircParts) {
    if has_key(ah, e.0) && has_key(ph, e.0) {
        (e.0, ph[key_index(ph, e.0)].1)
    } else {
        e
    }
}

/// A bank with its entries as the pool holds them.
pub open spec fn pooled_bank(ah: Seq<(u32, HircParts)>, ph: Seq<(u32, HircParts)>, b: BankModel) -> BankModel {
    BankModel { entries: b.entries.map_values(|e: (u32, HircParts)| pooled_entry(ah, ph, e)), ..b }
}

/// The pool after adding archive `a` under `name`, with header fields
/// `unknown` and `unk4`: nothing when an archive of that name was added
/// before; otherwise the archive is remembered, each resource whose id the
/// pool lacks joins it (banks with their entries as the pool holds them),
/// and the pool keeps what it already had.
pub open spec fn spec_add_archive(p: PoolModel, name: Seq<char>, unknown: u32, unk4: Seq<u8>, a: ArchiveModel) -> PoolModel {
    if p.names.contains(name) {
        p
    } else {
        PoolModel {
            names: p.names.push(name),
            records: p.records.push(record_of(unknown, unk4, a)),
            arch: ArchiveModel {
                streams: add_absent(p.arch.streams, a.streams),
                banks: add_absent(
                    p.arch.banks,
                    a.banks.map_values(
                        |b: (u64, BankModel)| (b.0, pooled_bank(a.hierarchy, p.arch.hierarchy, b.1)),
                    ),
                ),
                texts: add_absent(p.arch.texts, a.texts),
                videos: add_absent(p.arch.videos, a.videos),
                hierarchy: add_absent(p.arch.hierarchy, a.hierarchy),
            },
        }
    }
}

/// Every one of `ids` is a key of `pool`.
pub open spec fn ids_pooled<V>(ids: Seq<u64>, pool: Seq<(u64, V)>) -> bool {
    forall|j: int| 0 <= j < ids.len() ==> has_key(pool, #[trigger] ids[j])
}

/// `a` and `b` hold the same keys at the same places.
pub open spec fn same_keys<V>(a: Seq<(u64, V)>, b: Seq<(u64, V)>) -> bool {
    a.len() == b.len() && forall|j: int| 0 <= j < a.len() ==> (#[trigger] a[j]).0 == b[j].0
}

proof fn lemma_same_keys_pooled<V>(ids: Seq<u64>, a: Seq<(u64, V)>, b: Seq<(u64, V)>)
    requires
        ids_pooled(ids, a),
        same_keys(a, b),
    ensures
        ids_pooled(ids, b),
{
    assert forall|j: int| 0 <= j < ids.len() implies has_key(b, #[trigger] ids[j]) by {
        let i = key_index(a, ids[j]);
        assert(b[i].0 == ids[j]);
    }
}

proof fn lemma_add_absent_pooled<V>(ids: Seq<u64>, pool: Seq<(u64, V)>, own: Seq<(u64, V)>)
    requires
        ids_pooled(ids, pool) || ids == ids_of(own),
    ensures
        ids_pooled(ids, add_absent(pool, own)),
{
    assert forall|j: int| 0 <= j < ids.len() implies has_key(add_absent(pool, own), #[trigger] ids[j]) by {
        if ids_pooled(ids, pool) {
            lemma_add_absent_has_key(pool, own, ids[j]);
        } else {
            assert(own[j].0 == ids[j]);
            lemma_add_absent_has_key(pool, own, ids[j]);
        }
    }
}

impl Mod {
    /// Every archive the pool remembers has each of its resources pooled.
    pub open spec fn records_pooled(&self) -> bool {
        forall|i: int|
            0 <= i < self.records@.len() ==> {
                &&& ids_pooled((#[trigger] self.records@[i]).streams@, self.wwise_streams@)
                &&& ids_pooled(self.records@[i].banks@, self.wwise_banks@)
                &&& ids_pooled(self.records@[i].texts@, self.text_banks@)
                &&& ids_pooled(self.records@[i].videos@, self.video_sources@)
            }
    }

    /// No container holds an id twice, hierarchy entries are held under
    /// their own ids, and every archive the pool remembers has each of its
    /// resources pooled.
    pub open spec fn wf(&self) -> bool {
        &&& keys_unique(self.wwise_streams@)
        &&& keys_unique(self.wwise_banks@)
        &&& keys_unique(self.text_banks@)
        &&& keys_unique(self.video_sources@)
        &&& keys_unique(self.hierarchy_entries@)
        &&& hier_keys_match(self.hierarchy_entries@)
        &&& texts_wf(self.text_banks@)
        &&& self.names@.len() == self.records@.len()
        &&& self.records_pooled()
    }

    pub fn new() -> (p: Mod)
        ensures
            p.wf(),
            pool_model(p) == (PoolModel {
                names: Seq::empty(),
                records: Seq::empty(),
                arch: ArchiveModel {
                    streams: Seq::empty(),
                    banks: Seq::empty(),
                    texts: Seq::empty(),
                    videos: Seq::empty(),
                    hierarchy: Seq::empty(),
                },
            }),
    {
        let p = Mod {
            names: Vec::new(),
            records: Vec::new(),
            wwise_streams: Vec::new(),
            wwise_banks: Vec::new(),
            text_banks: Vec::new(),
            video_sources: Vec::new(),
            hierarchy_entries: Vec::new(),
        };
        assert(pool_model(p).names =~= Seq::<Seq<char>>::empty());
        assert(pool_model(p).records =~= Seq::<RecordModel>::empty());
        assert(pool_model(p).arch.streams =~= Seq::<(u64, crate::wwise::load::StreamModel)>::empty());
        assert(pool_model(p).arch.banks =~= Seq::<(u64, BankModel)>::empty());
        assert(pool_model(p).arch.texts =~= Seq::<(u64, crate::wwise::load::TextModel)>::empty());
        assert(pool_model(p).arch.videos =~= Seq::<(u64, crate::wwise::load::VideoModel)>::empty());
        assert(pool_model(p).arch.hierarchy =~= Seq::<(u32, HircParts)>::empty());
        p
    }

    /// Whether an archive of this name was added.
    pub fn has_archive(&self, name: &str) -> (b: bool)
        ensures
            b == pool_model(*self).names.contains(name@),
    {
        let n = self.names.len();
        let mut i: usize = 0;
        while i < n
            invariant
                i <= n,
                n == self.names@.len(),
                forall|j: int| 0 <= j < i ==> (#[trigger] self.names@[j])@ != name@,
            decreases n - i,
        {
            if crate::wwise::bank::str_eq(self.names[i].as_str(), name) {
                assert(pool_model(*self).names[i as int] == name@);
                return true;
            }
            i = i + 1;
        }
        proof {
            if pool_model(*self).names.contains(name@) {
                let j = choose|j: int| 0 <= j < pool_model(*self).names.len() && pool_model(*self).names[j] == name@;
                assert(self.names@[j]@ == name@);
            }
        }
        false
    }
}

/// `b` with its entries as the pool holds them.
fn pool_entries(b: WwiseBank, ah: &Vec<(u32, HircEntry)>, ph: &Vec<(u32, HircEntry)>) -> (r: WwiseBank)
    requires
        keys_unique(ah@),
        keys_unique(ph@),
        hier_keys_match(ph@),
    ensures
        bank_model(r) == pooled_bank(map_vals(ah@, hirc_map()), map_vals(ph@, hirc_map()), bank_model(b)),
{
    let ghost ahm = map_vals(ah@, hirc_map());
    let ghost phm = map_vals(ph@, hirc_map());
    let ghost target = bank_model(b).entries.map_values(|e: (u32, HircParts)| pooled_entry(ahm, phm, e));
    let WwiseBank { file_id, bank_header, bank_misc_data, modified, modified_count, dep, version, entries } = b;
    let ghost all = hirc_pairs(entries@);
    let mut rest = entries;
    let mut out: Vec<HircEntry> = Vec::new();
    let ghost mut k: int = 0;
    assert(hirc_pairs(out@) =~= target.take(0));
    while rest.len() > 0
        invariant
            0 <= k <= all.len(),
            all.len() == target.len(),
            target == all.map_values(|e: (u32, HircParts)| pooled_entry(ahm, phm, e)),
            hirc_pairs(rest@) == all.skip(k),
            hirc_pairs(out@) == target.take(k),
            ahm == map_vals(ah@, hirc_map()),
            phm == map_vals(ph@, hirc_map()),
            keys_unique(ah@),
            keys_unique(ph@),
            hier_keys_match(ph@),
        decreases rest@.len(),
    {
        let ghost before_rest = hirc_pairs(rest@);
        let e = rest.remove(0);
        assert(hirc_pairs(rest@) =~= before_rest.drop_first());
        assert(all[k] == (e.spec_id(), entry_parts(e))) by {
            assert(before_rest[0] == all.skip(k)[0]);
        }
        let id = e.id();
        let ghost before = hirc_pairs(out@);
        let in_archive = find_u32(ah, id);
        let in_pool = find_u32(ph, id);
        proof {
            crate::keyed::lemma_map_vals_unique(ah@, hirc_map());
            crate::keyed::lemma_map_vals_unique(ph@, hirc_map());
            if has_key(ah@, id) {
                let i = key_index(ah@, id);
                assert(ahm[i].0 == id);
            }
            if has_key(ahm, id) {
                let i = key_index(ahm, id);
                assert(ah@[i].0 == id);
            }
            if has_key(ph@, id) {
                let i = key_index(ph@, id);
                assert(phm[i].0 == id);
                crate::keyed::lemma_key_index_unique(phm, id, i);
            }
            if has_key(phm, id) {
                let i = key_index(phm, id);
                assert(ph@[i].0 == id);
            }
        }
        let kept = match (in_archive, in_pool) {
            (Some(_), Some(j)) => ph[j].1.duplicate(),
            _ => e,
        };
        out.push(kept);
        assert(hirc_pairs(out@) =~= before.push(target[k]));
        assert(target.take(k + 1) =~= target.take(k).push(target[k]));
        proof {
            k = k + 1;
        }
        assert(all.skip(k) =~= before_rest.drop_first());
    }
    assert(target.take(k) =~= target);
    WwiseBank { file_id, bank_header, bank_misc_data, modified, modified_count, dep, version, entries: out }
}

/// The keys of `v`, in order.
fn keys_u64<V>(v: &Vec<(u64, V)>) -> (r: Vec<u64>)
    ensures
        r@ == ids_of(v@),
{
    let mut r: Vec<u64> = Vec::new();
    let mut k: usize = 0;
    while k < v.len()
        invariant
            k <= v@.len(),
            r@ == ids_of(v@.take(k as int)),
        decreases v@.len() - k,
    {
        r.push(v[k].0);
        k = k + 1;
        assert(r@ =~= ids_of(v@.take(k as int)));
    }
    assert(v@.take(k as int) =~= v@);
    r
}

proof fn lemma_add_absent_texts_wf(pool: Seq<(u64, TextBank)>, own: Seq<(u64, TextBank)>)
    requires
        texts_wf(pool),
        texts_wf(own),
    ensures
        texts_wf(add_absent(pool, own)),
    decreases own.len(),
{
    if own.len() > 0 {
        assert(texts_wf(own.drop_last())) by {
            assert forall|i: int| 0 <= i < own.drop_last().len() implies (#[trigger] own.drop_last()[i]).1.wf() by {
                assert(own.drop_last()[i] == own[i]);
            }
        }
        lemma_add_absent_texts_wf(pool, own.drop_last());
        assert(own[own.len() - 1].1.wf());
    }
}

proof fn lemma_add_absent_keys_match(pool: Seq<(u32, HircEntry)>, own: Seq<(u32, HircEntry)>)
    requires
        hier_keys_match(pool),
        hier_keys_match(own),
    ensures
        hier_keys_match(add_absent(pool, own)),
    decreases own.len(),
{
    if own.len() > 0 {
        assert(hier_keys_match(own.drop_last())) by {
            assert forall|i: int| 0 <= i < own.drop_last().len() implies (#[trigger] own.drop_last()[i]).0
                == own.drop_last()[i].1.spec_id() by {
                assert(own.drop_last()[i] == own[i]);
            }
        }
        lemma_add_absent_keys_match(pool, own.drop_last());
        assert(own[own.len() - 1].0 == own[own.len() - 1].1.spec_id());
    }
}

impl Mod {
    /// Adds archive `a` under `name` (see `spec_add_archive`).
    pub fn add_game_archive(&mut self, name: String, a: GameArchive)
        requires
            old(self).wf(),
            containers_unique(a),
        ensures
            final(self).wf(),
            pool_model(*final(self)) == spec_add_archive(
                pool_model(*old(self)),
                name@,
                a.unknown,
                a.unk4_data@,
                archive_model(a),
            ),
    {
        if self.has_archive(name.as_str()) {
            return;
        }
        let ghost am = archive_model(a);
        let ghost p0 = pool_model(*self);
        let record = ArchiveRecord {
            unknown: a.unknown,
            unk4_data: copy_bytes(a.unk4_data.as_slice()),
            streams: keys_u64(&a.wwise_streams),
            banks: keys_u64(&a.wwise_banks),
            texts: keys_u64(&a.text_banks),
            videos: keys_u64(&a.video_sources),
        };
        proof {
            assert(ids_of(am.streams) =~= ids_of(a.wwise_streams@));
            assert(ids_of(am.banks) =~= ids_of(a.wwise_banks@));
            assert(ids_of(am.texts) =~= ids_of(a.text_banks@));
            assert(ids_of(am.videos) =~= ids_of(a.video_sources@));
        }
        let GameArchive {
            magic: _,
            unknown: _,
            unk4_data: _,
            wwise_streams,
            wwise_banks,
            text_banks,
            video_sources,
            hierarchy_entries,
        } = a;
        let ghost target = am.banks.map_values(
            |b: (u64, BankModel)| (b.0, pooled_bank(am.hierarchy, p0.arch.hierarchy, b.1)),
        );
        let ghost all = wwise_banks@;
        let mut rest = wwise_banks;
        let mut banks: Vec<(u64, WwiseBank)> = Vec::new();
        let ghost mut k: int = 0;
        assert(map_vals(banks@, bank_map()) =~= target.take(0));
        while rest.len() > 0
            invariant
                0 <= k <= all.len(),
                rest@ == all.skip(k),
                map_vals(banks@, bank_map()) == target.take(k),
                target.len() == all.len(),
                target == map_vals(all, bank_map()).map_values(
                    |b: (u64, BankModel)| (b.0, pooled_bank(am.hierarchy, p0.arch.hierarchy, b.1)),
                ),
                am.hierarchy == map_vals(hierarchy_entries@, hirc_map()),
                p0.arch.hierarchy == map_vals(self.hierarchy_entries@, hirc_map()),
                keys_unique(hierarchy_entries@),
                self.wf(),
                pool_model(*self) == p0,
            decreases rest@.len(),
        {
            let ghost before_rest = rest@;
            let (id, b) = rest.remove(0);
            assert(all[k] == (id, b)) by {
                assert(before_rest[0] == all.skip(k)[0]);
            }
            let pb = pool_entries(b, &hierarchy_entries, &self.hierarchy_entries);
            let ghost before = map_vals(banks@, bank_map());
            banks.push((id, pb));
            assert(map_vals(banks@, bank_map()) =~= before.push(target[k]));
            assert(target.take(k + 1) =~= target.take(k).push(target[k]));
            proof {
                k = k + 1;
            }
            assert(all.skip(k) =~= before_rest.drop_first());
        }
        assert(target.take(k) =~= target);
        proof {
            lemma_add_absent_map(self.wwise_banks@, banks@, bank_map());
            lemma_add_absent_map(self.wwise_streams@, wwise_streams@, stream_map());
            lemma_add_absent_map(self.text_banks@, text_banks@, text_map());
            lemma_add_absent_map(self.video_sources@, video_sources@, video_map());
            lemma_add_absent_map(self.hierarchy_entries@, hierarchy_entries@, hirc_map());
            lemma_add_absent_keys_match(self.hierarchy_entries@, hierarchy_entries@);
            lemma_add_absent_texts_wf(self.text_banks@, text_banks@);
        }
        let ghost s0 = self.wwise_streams@;
        let ghost b0 = self.wwise_banks@;
        let ghost t0 = self.text_banks@;
        let ghost v0 = self.video_sources@;
        let ghost records0 = self.records@;
        assert(ids_of(banks@) =~= ids_of(target)) by {
            assert forall|j: int| 0 <= j < banks@.len() implies banks@[j].0 == map_vals(banks@, bank_map())[j].0 by {}
        }
        assert(ids_of(target) =~= record.banks@);
        add_absent_u64(&mut self.wwise_banks, banks);
        add_absent_u64(&mut self.wwise_streams, wwise_streams);
        add_absent_u64(&mut self.text_banks, text_banks);
        add_absent_u64(&mut self.video_sources, video_sources);
        add_absent_u32(&mut self.hierarchy_entries, hierarchy_entries);
        proof {
            assert forall|i: int| 0 <= i < records0.len() implies {
                &&& ids_pooled((#[trigger] records0[i]).streams@, self.wwise_streams@)
                &&& ids_pooled(records0[i].banks@, self.wwise_banks@)
                &&& ids_pooled(records0[i].texts@, self.text_banks@)
                &&& ids_pooled(records0[i].videos@, self.video_sources@)
            } by {
                lemma_add_absent_pooled(records0[i].streams@, s0, wwise_streams@);
                lemma_add_absent_pooled(records0[i].banks@, b0, banks@);
                lemma_add_absent_pooled(records0[i].texts@, t0, text_banks@);
                lemma_add_absent_pooled(records0[i].videos@, v0, video_sources@);
            }
            lemma_add_absent_pooled(record.streams@, s0, wwise_streams@);
            lemma_add_absent_pooled(record.banks@, b0, banks@);
            lemma_add_absent_pooled(record.texts@, t0, text_banks@);
            lemma_add_absent_pooled(record.videos@, v0, video_sources@);
        }
        let ghost names0 = self.names@.map_values(|s: String| s@);
        self.names.push(name);
        assert(self.names@.map_values(|s: String| s@) =~= names0.push(name@));
        let ghost rm0 = self.records@.map_values(|r: ArchiveRecord| record_model(r));
        self.records.push(record);
        assert(self.records@.map_values(|r: ArchiveRecord| record_model(r)) =~= rm0.push(
            record_of(a.unknown, a.unk4_data@, am),
        ));
        assert forall|i: int| 0 <= i < self.records@.len() implies {
            &&& ids_pooled((#[trigger] self.records@[i]).streams@, self.wwise_streams@)
            &&& ids_pooled(self.records@[i].banks@, self.wwise_banks@)
            &&& ids_pooled(self.records@[i].texts@, self.text_banks@)
            &&& ids_pooled(self.records@[i].videos@, self.video_sources@)
        } by {
            if i < records0.len() {
                assert(self.records@[i] == records0[i]);
            }
        }
    }
}

// ---------------------------------------------------------------------------
// Importing a patch.

/// The strings a text bank brings: each id with its text.
pub open spec fn incoming(t: TextModel) -> Seq<(u32, Seq<char>)> {
    t.2.map_values(|e: (u32, EntryModel)| (e.0, e.1.1))
}

/// A text bank after taking the strings of `t` (see `TextBank::import_text`).
pub open spec fn text_imported(m: TextModel, t: TextModel) -> TextModel {
    let (es, n) = import_texts(m.2, incoming(t));
    (m.0, m.1, es, m.3 || n > 0, (m.4 + n) as u32)
}

/// Taking the same text bank's strings twice is taking them once: the
/// second time changes no string and counts nothing.
pub proof fn law_text_import_twice(m: TextModel, t: TextModel)
    requires
        keys_unique(m.2),
        keys_unique(t.2),
    ensures
        text_imported(text_imported(m, t), t) == text_imported(m, t),
{
    assert(keys_unique(incoming(t))) by {
        assert forall|a: int, b: int|
            0 <= a < incoming(t).len() && 0 <= b < incoming(t).len() && a != b implies incoming(t)[a].0
            != incoming(t)[b].0 by {
            assert(incoming(t)[a].0 == t.2[a].0);
            assert(incoming(t)[b].0 == t.2[b].0);
        }
    }
    crate::wwise::text_bank::law_import_texts_twice(m.2, incoming(t));
}

/// The pool's text banks after each of the patch's, in turn, is taken into
/// the pooled text bank of its id (when there is one).
pub open spec fn import_text_banks(pool: Seq<(u64, TextModel)>, patch: Seq<(u64, TextModel)>) -> Seq<(u64, TextModel)>
    decreases patch.len(),
{
    if patch.len() == 0 {
        pool
    } else {
        let prev = import_text_banks(pool, patch.drop_last());
        let t = patch.last().1;
        if has_key(prev, t.0) {
            let i = key_index(prev, t.0);
            prev.update(i, (t.0, text_imported(prev[i].1, t)))
        } else {
            prev
        }
    }
}

/// A video with `bytes` set as its replacement.
pub open spec fn video_set(v: VideoModel, bytes: Seq<u8>) -> VideoModel {
    (v.0, v.1, true, v.3, bytes)
}

/// The bytes a video holds: its replacement once set, else its original.
pub open spec fn video_data(v: VideoModel) -> Seq<u8> {
    if v.2 {
        v.4
    } else {
        v.3
    }
}

/// The pool's videos after the patch's, and the patch videos the pool does
/// not have: a pooled video takes the patch video's bytes as its
/// replacement; any other patch video takes its own bytes as replacement
/// and is kept aside.
pub open spec fn import_videos(pool: Seq<(u64, VideoModel)>, patch: Seq<(u64, VideoModel)>) -> (
    Seq<(u64, VideoModel)>,
    Seq<(u64, VideoModel)>,
)
    decreases patch.len(),
{
    if patch.len() == 0 {
        (pool, Seq::empty())
    } else {
        let (pv, nv) = import_videos(pool, patch.drop_last());
        let (id, v) = patch.last();
        if has_key(pv, id) {
            let i = key_index(pv, id);
            (pv.update(i, (id, video_set(pv[i].1, video_data(v)))), nv)
        } else {
            (pv, upsert(nv, id, video_set(v, video_data(v))))
        }
    }
}

/// A pooled stream after the patch's bytes `data` replace its source's:
/// the source takes `data`, keeps as its old bytes the ones it had before
/// its first change, and is marked modified, and so is the stream.
pub open spec fn stream_swapped(s: StreamModel, data: Seq<u8>) -> StreamModel {
    (s.0, true, data, s.3, s.4, true, if !s.5 { s.2 } else { s.6 }, s.7)
}

/// Whether the patch's bytes `data` differ from a pooled stream's: from
/// its bytes while it is unchanged, from its original bytes once changed.
pub open spec fn stream_changed(s: StreamModel, data: Seq<u8>) -> bool {
    if !s.5 {
        data != s.2
    } else {
        data != s.6
    }
}

/// The pooled streams after the audio of `patch` is swapped in, one patch
/// stream after another: a pooled stream of the same id whose bytes the
/// patch changes takes the patch's bytes; the others stay.
pub open spec fn import_streams(pool: Seq<(u64, StreamModel)>, patch: Seq<(u64, StreamModel)>) -> Seq<(u64, StreamModel)>
    decreases patch.len(),
{
    if patch.len() == 0 {
        pool
    } else {
        let ps = import_streams(pool, patch.drop_last());
        let (id, s) = patch.last();
        if has_key(ps, id) && stream_changed(ps[key_index(ps, id)].1, s.2) {
            let i = key_index(ps, id);
            ps.update(i, (id, stream_swapped(ps[i].1, s.2)))
        } else {
            ps
        }
    }
}

/// The patch's banks whose ids the pool does not have, in order.
pub open spec fn banks_not_in(pool: Seq<(u64, BankModel)>, patch: Seq<(u64, BankModel)>) -> Seq<(u64, BankModel)>
    decreases patch.len(),
{
    if patch.len() == 0 {
        Seq::empty()
    } else {
        let prev = banks_not_in(pool, patch.drop_last());
        if has_key(pool, patch.last().0) {
            prev
        } else {
            prev.push(patch.last())
        }
    }
}

/// The pool after importing patch `a` named `name`, with header fields
/// `unknown` and `unk4`: its streams' audio is swapped into the pooled
/// streams of the same ids whose bytes it changes (see `import_streams`);
/// its text banks' strings are taken into the pooled text banks; its videos
/// replace the pooled ones' bytes; and when it brings banks or videos the
/// pool does not have, it is added as an archive holding those (and no text
/// banks), along with its streams the pool does not have.
///
/// The audio the pool holds is that of its streams: a bank's hierarchy
/// entries are held as opaque records, so no sound or music track is known
/// to use a swapped stream and no bank is marked modified on that account;
/// and the patch's hierarchy entries are not merged into the pooled banks'
/// hierarchies (the per-type field merges `Sound::import_entry`,
/// `MusicTrack::import_entry`, `MusicSegment::import_entry` and
/// `RandomSequenceContainer::import_entry` are not applied here).
pub open spec fn spec_import_patch(p: PoolModel, name: Seq<char>, unknown: u32, unk4: Seq<u8>, a: ArchiveModel) -> PoolModel {
    let texts = import_text_banks(p.arch.texts, a.texts);
    let kept = banks_not_in(p.arch.banks, a.banks);
    let (videos, new_videos) = import_videos(p.arch.videos, a.videos);
    let streams = import_streams(p.arch.streams, a.streams);
    let p1 = PoolModel { arch: ArchiveModel { streams, texts, videos, ..p.arch }, ..p };
    if kept.len() > 0 || new_videos.len() > 0 {
        spec_add_archive(
            p1,
            name,
            unknown,
            unk4,
            ArchiveModel { banks: kept, videos: new_videos, texts: Seq::empty(), ..a },
        )
    } else {
        p1
    }
}

/// How many strings the first `k` text banks hold.
pub open spec fn total_strings(v: Seq<(u64, TextBank)>, k: nat) -> nat
    decreases k,
{
    if k == 0 {
        0
    } else {
        total_strings(v, (k - 1) as nat) + v[k - 1].1.entries@.len()
    }
}

/// Each pooled text bank can count a first change for every string the
/// patch brings.
pub open spec fn counts_fit(pool: Seq<(u64, TextBank)>, patch: Seq<(u64, TextBank)>) -> bool {
    forall|j: int| 0 <= j < pool.len() ==> (#[trigger] pool[j]).1.modified_count + total_strings(patch, patch.len() as nat)
        <= u32::MAX
}

impl Mod {
    /// Swaps the audio of the patch streams `patch` into the pooled streams
    /// of the same ids (see `import_streams`).
    fn swap_streams(&mut self, patch: &Vec<(u64, WwiseStream)>)
        requires
            old(self).wf(),
        ensures
            final(self).wf(),
            pool_model(*final(self)) == (PoolModel {
                arch: ArchiveModel {
                    streams: import_streams(pool_model(*old(self)).arch.streams, map_vals(patch@, stream_map())),
                    ..pool_model(*old(self)).arch
                },
                ..pool_model(*old(self))
            }),
    {
        let ghost p0 = map_vals(self.wwise_streams@, stream_map());
        let ghost pm = map_vals(patch@, stream_map());
        let mut k: usize = 0;
        assert(import_streams(p0, pm.take(0)) == p0) by {
            assert(pm.take(0).len() == 0);
        }
        while k < patch.len()
            invariant
                k <= patch@.len(),
                pm == map_vals(patch@, stream_map()),
                p0 == map_vals(old(self).wwise_streams@, stream_map()),
                map_vals(self.wwise_streams@, stream_map()) == import_streams(p0, pm.take(k as int)),
                keys_unique(self.wwise_streams@),
                same_keys(old(self).wwise_streams@, self.wwise_streams@),
                self.wwise_banks@ == old(self).wwise_banks@,
                self.text_banks@ == old(self).text_banks@,
                self.video_sources@ == old(self).video_sources@,
                self.hierarchy_entries@ == old(self).hierarchy_entries@,
                self.names@ == old(self).names@,
                self.records@ == old(self).records@,
                old(self).wf(),
            decreases patch@.len() - k,
        {
            let id = patch[k].0;
            let ps = &patch[k].1;
            assert(pm.take(k + 1).drop_last() =~= pm.take(k as int));
            assert(pm.take(k + 1).last() == (id, crate::wwise::load::stream_model(*ps)));
            let ghost prev = map_vals(self.wwise_streams@, stream_map());
            proof {
                lemma_has_key_map(self.wwise_streams@, stream_map(), id);
                lemma_map_vals_unique(self.wwise_streams@, stream_map());
            }
            match find_u64(&self.wwise_streams, id) {
                Some(i) => {
                    proof {
                        lemma_key_index_unique(prev, id, i as int);
                    }
                    let cur = &self.wwise_streams[i].1.audio_source;
                    let changed = if !cur.modified {
                        !bytes_eq(ps.audio_source.data.as_slice(), cur.data.as_slice())
                    } else {
                        !bytes_eq(ps.audio_source.data.as_slice(), cur.data_old.as_slice())
                    };
                    if changed {
                        let ghost before = self.wwise_streams@;
                        let bytes = copy_bytes(ps.audio_source.data.as_slice());
                        let (key, mut st) = self.wwise_streams.remove(i);
                        st.audio_source.set_data(bytes, true);
                        st.modified = true;
                        self.wwise_streams.insert(i, (key, st));
                        assert(self.wwise_streams@ =~= before.update(i as int, (key, st)));
                        assert(map_vals(self.wwise_streams@, stream_map()) =~= prev.update(
                            i as int,
                            (id, stream_swapped(prev[i as int].1, ps.audio_source.data@)),
                        ));
                        assert forall|x: int, y: int|
                            0 <= x < self.wwise_streams@.len() && 0 <= y < self.wwise_streams@.len() && x != y implies
                            self.wwise_streams@[x].0 != self.wwise_streams@[y].0 by {
                            assert(self.wwise_streams@[x].0 == before[x].0);
                            assert(self.wwise_streams@[y].0 == before[y].0);
                        }
                        assert forall|j: int| 0 <= j < self.wwise_streams@.len() implies (#[trigger] old(
                            self,
                        ).wwise_streams@[j]).0 == self.wwise_streams@[j].0 by {
                            assert(self.wwise_streams@[j].0 == before[j].0);
                        }
                    }
                },
                None => {},
            }
            k = k + 1;
        }
        assert(pm.take(k as int) =~= pm);
        proof {
            assert forall|i: int| 0 <= i < self.records@.len() implies {
                &&& ids_pooled((#[trigger] self.records@[i]).streams@, self.wwise_streams@)
                &&& ids_pooled(self.records@[i].banks@, self.wwise_banks@)
                &&& ids_pooled(self.records@[i].texts@, self.text_banks@)
                &&& ids_pooled(self.records@[i].videos@, self.video_sources@)
            } by {
                assert(self.records@[i] == old(self).records@[i]);
                lemma_same_keys_pooled(self.records@[i].streams@, old(self).wwise_streams@, self.wwise_streams@);
            }
        }
    }

    /// Imports patch `a` named `name` (see `spec_import_patch`): swaps its
    /// changed stream audio in, then imports its strings, videos and new
    /// banks. The HIRC hierarchy merge is left out: hierarchy entries stay as
    /// the pool had them, and no bank is marked modified for using swapped
    /// audio.
    pub fn import_patch(&mut self, name: String, a: GameArchive)
        requires
            old(self).wf(),
            containers_unique(a),
            counts_fit(old(self).text_banks@, a.text_banks@),
        ensures
            final(self).wf(),
            pool_model(*final(self)) == spec_import_patch(
                pool_model(*old(self)),
                name@,
                a.unknown,
                a.unk4_data@,
                archive_model(a),
            ),
    {
        let ghost am = archive_model(a);
        let ghost p0 = pool_model(*self);
        let GameArchive {
            magic,
            unknown,
            unk4_data,
            wwise_streams,
            wwise_banks,
            text_banks,
            video_sources,
            hierarchy_entries,
        } = a;
        // Text banks.
        let ghost tin = map_vals(text_banks@, text_map());
        let ghost c0 = self.text_banks@;
        let mut k: usize = 0;
        assert(tin.take(0) =~= Seq::<(u64, TextModel)>::empty());
        while k < text_banks.len()
            invariant
                k <= text_banks@.len(),
                tin == map_vals(text_banks@, text_map()),
                tin == am.texts,
                map_vals(self.text_banks@, text_map()) == import_text_banks(p0.arch.texts, tin.take(k as int)),
                keys_unique(self.text_banks@),
                texts_wf(self.text_banks@),
                self.text_banks@.len() == c0.len(),
                forall|j: int| 0 <= j < c0.len() ==> (#[trigger] self.text_banks@[j]).0 == c0[j].0,
                forall|j: int|
                    0 <= j < c0.len() ==> (#[trigger] self.text_banks@[j]).1.modified_count <= c0[j].1.modified_count
                        + total_strings(text_banks@, k as nat),
                counts_fit(c0, text_banks@),
                total_strings(text_banks@, k as nat) <= total_strings(text_banks@, text_banks@.len() as nat),
                p0.arch.texts == map_vals(c0, text_map()),
                self.wwise_streams@ == old(self).wwise_streams@,
                self.wwise_banks@ == old(self).wwise_banks@,
                self.video_sources@ == old(self).video_sources@,
                self.hierarchy_entries@ == old(self).hierarchy_entries@,
                self.names@ == old(self).names@,
                self.records@ == old(self).records@,
                old(self).wf(),
            decreases text_banks@.len() - k,
        {
            let t = &text_banks[k].1;
            let ghost prev = map_vals(self.text_banks@, text_map());
            assert(tin.take(k + 1).drop_last() =~= tin.take(k as int));
            assert(tin.take(k + 1).last() == (text_banks@[k as int].0, crate::wwise::load::text_model(*t)));
            proof {
                lemma_has_key_map(self.text_banks@, text_map(), t.file_id);
                lemma_map_vals_unique(self.text_banks@, text_map());
                lemma_total_strings_step(text_banks@, k as nat);
                lemma_total_strings_mono(text_banks@, (k + 1) as nat, text_banks@.len() as nat);
            }
            match find_u64(&self.text_banks, t.file_id) {
                Some(i) => {
                    proof {
                        lemma_key_index_unique(prev, t.file_id, i as int);
                    }
                    let ghost before = self.text_banks@;
                    let (key, mut tb) = self.text_banks.remove(i);
                    assert(tb.wf());
                    proof {
                        lemma_import_texts_unique(
                            entry_models(tb.entries@),
                            t.entries@.map_values(|e: StringEntry| entry_view(e)),
                        );
                    }
                    tb.import_text(t);
                    self.text_banks.insert(i, (key, tb));
                    assert(self.text_banks@ =~= before.update(i as int, (key, tb)));
                    assert(incoming(crate::wwise::load::text_model(*t)) =~= t.entries@.map_values(
                        |e: StringEntry| entry_view(e),
                    ));
                    assert(map_vals(self.text_banks@, text_map()) =~= prev.update(
                        i as int,
                        (t.file_id, text_imported(prev[i as int].1, crate::wwise::load::text_model(*t))),
                    ));
                    assert forall|x: int, y: int|
                        0 <= x < self.text_banks@.len() && 0 <= y < self.text_banks@.len() && x != y implies
                        self.text_banks@[x].0 != self.text_banks@[y].0 by {
                        assert(self.text_banks@[x].0 == before[x].0);
                        assert(self.text_banks@[y].0 == before[y].0);
                    }
                },
                None => {},
            }
            k = k + 1;
        }
        assert(tin.take(k as int) =~= tin);
        let ghost texts_after = self.text_banks@;
        // Banks the pool does not have.
        let ghost pb = p0.arch.banks;
        let ghost ball = wwise_banks@;
        let ghost bm = map_vals(ball, bank_map());
        let mut rest = wwise_banks;
        let mut kept: Vec<(u64, WwiseBank)> = Vec::new();
        let ghost mut kb: int = 0;
        assert(map_vals(kept@, bank_map()) =~= banks_not_in(pb, bm.take(0)));
        while rest.len() > 0
            invariant
                0 <= kb <= ball.len(),
                rest@ == ball.skip(kb),
                bm == map_vals(ball, bank_map()),
                map_vals(kept@, bank_map()) == banks_not_in(pb, bm.take(kb)),
                keys_unique(ball),
                keys_unique(kept@),
                forall|i: int, j: int| 0 <= i < kept@.len() && kb <= j < ball.len() ==> kept@[i].0 != ball[j].0,
                pb == map_vals(self.wwise_banks@, bank_map()),
                keys_unique(self.wwise_banks@),
                self.text_banks@ == texts_after,
                keys_unique(texts_after),
                texts_wf(texts_after),
                self.wwise_streams@ == old(self).wwise_streams@,
                self.wwise_banks@ == old(self).wwise_banks@,
                self.video_sources@ == old(self).video_sources@,
                self.hierarchy_entries@ == old(self).hierarchy_entries@,
                self.names@ == old(self).names@,
                self.records@ == old(self).records@,
                old(self).wf(),
            decreases rest@.len(),
        {
            let ghost before_rest = rest@;
            let (id, b) = rest.remove(0);
            assert(ball[kb] == (id, b)) by {
                assert(before_rest[0] == ball.skip(kb)[0]);
            }
            assert(bm.take(kb + 1).drop_last() =~= bm.take(kb));
            assert(bm.take(kb + 1).last() == (id, bank_model(b)));
            proof {
                lemma_has_key_map(self.wwise_banks@, bank_map(), id);
            }
            if find_u64(&self.wwise_banks, id).is_none() {
                let ghost before = map_vals(kept@, bank_map());
                let ghost kept0 = kept@;
                kept.push((id, b));
                assert(map_vals(kept@, bank_map()) =~= before.push((id, bank_model(b))));
                assert forall|x: int, y: int| 0 <= x < kept@.len() && 0 <= y < kept@.len() && x != y implies kept@[x].0
                    != kept@[y].0 by {
                    if x < kept0.len() && y < kept0.len() {
                        assert(kept@[x] == kept0[x]);
                        assert(kept@[y] == kept0[y]);
                    } else if x < kept0.len() {
                        assert(kept@[x] == kept0[x]);
                    } else if y < kept0.len() {
                        assert(kept@[y] == kept0[y]);
                    }
                }
            }
            proof {
                kb = kb + 1;
            }
            assert(ball.skip(kb) =~= before_rest.drop_first());
        }
        assert(bm.take(kb) =~= bm);
        // Videos.
        let ghost pv0 = p0.arch.videos;
        let ghost vall = video_sources@;
        let ghost vm = map_vals(vall, video_map());
        let mut rest = video_sources;
        let mut new_videos: Vec<(u64, VideoSource)> = Vec::new();
        let ghost mut kv: int = 0;
        assert(vm.take(0) =~= Seq::<(u64, VideoModel)>::empty());
        assert(map_vals(new_videos@, video_map()) =~= Seq::<(u64, VideoModel)>::empty());
        while rest.len() > 0
            invariant
                0 <= kv <= vall.len(),
                rest@ == vall.skip(kv),
                vm == map_vals(vall, video_map()),
                (map_vals(self.video_sources@, video_map()), map_vals(new_videos@, video_map())) == import_videos(
                    pv0,
                    vm.take(kv),
                ),
                keys_unique(self.video_sources@),
                same_keys(old(self).video_sources@, self.video_sources@),
                keys_unique(new_videos@),
                self.text_banks@ == texts_after,
                keys_unique(texts_after),
                texts_wf(texts_after),
                self.wwise_streams@ == old(self).wwise_streams@,
                self.wwise_banks@ == old(self).wwise_banks@,
                self.hierarchy_entries@ == old(self).hierarchy_entries@,
                self.names@ == old(self).names@,
                self.records@ == old(self).records@,
                old(self).wf(),
            decreases rest@.len(),
        {
            let ghost before_rest = rest@;
            let (id, mut v) = rest.remove(0);
            assert(vall[kv] == (id, v)) by {
                assert(before_rest[0] == vall.skip(kv)[0]);
            }
            assert(vm.take(kv + 1).drop_last() =~= vm.take(kv));
            assert(vm.take(kv + 1).last() == (id, crate::wwise::load::video_model(v)));
            let bytes = copy_bytes(v.get_data());
            let ghost prev = map_vals(self.video_sources@, video_map());
            proof {
                lemma_has_key_map(self.video_sources@, video_map(), id);
                lemma_map_vals_unique(self.video_sources@, video_map());
            }
            match find_u64(&self.video_sources, id) {
                Some(i) => {
                    proof {
                        lemma_key_index_unique(prev, id, i as int);
                    }
                    let ghost before = self.video_sources@;
                    let (key, mut pv) = self.video_sources.remove(i);
                    pv.set_data(bytes);
                    self.video_sources.insert(i, (key, pv));
                    assert(self.video_sources@ =~= before.update(i as int, (key, pv)));
                    assert(map_vals(self.video_sources@, video_map()) =~= prev.update(
                        i as int,
                        (id, video_set(prev[i as int].1, video_data(crate::wwise::load::video_model(v)))),
                    ));
                    assert forall|x: int, y: int|
                        0 <= x < self.video_sources@.len() && 0 <= y < self.video_sources@.len() && x != y implies
                        self.video_sources@[x].0 != self.video_sources@[y].0 by {
                        assert(self.video_sources@[x].0 == before[x].0);
                        assert(self.video_sources@[y].0 == before[y].0);
                    }
                    assert forall|j: int| 0 <= j < self.video_sources@.len() implies (#[trigger] old(
                        self,
                    ).video_sources@[j]).0 == self.video_sources@[j].0 by {
                        assert(self.video_sources@[j].0 == before[j].0);
                    }
                },
                None => {
                    v.set_data(bytes);
                    proof {
                        lemma_upsert_map(new_videos@, id, v, video_map());
                    }
                    upsert_u64(&mut new_videos, id, v);
                },
            }
            proof {
                kv = kv + 1;
            }
            assert(vall.skip(kv) =~= before_rest.drop_first());
        }
        assert(vm.take(kv) =~= vm);
        proof {
            assert(same_keys(c0, texts_after));
            assert forall|i: int| 0 <= i < self.records@.len() implies {
                &&& ids_pooled((#[trigger] self.records@[i]).streams@, self.wwise_streams@)
                &&& ids_pooled(self.records@[i].banks@, self.wwise_banks@)
                &&& ids_pooled(self.records@[i].texts@, self.text_banks@)
                &&& ids_pooled(self.records@[i].videos@, self.video_sources@)
            } by {
                assert(self.records@[i] == old(self).records@[i]);
                lemma_same_keys_pooled(self.records@[i].texts@, c0, texts_after);
                lemma_same_keys_pooled(self.records@[i].videos@, old(self).video_sources@, self.video_sources@);
            }
        }
        self.swap_streams(&wwise_streams);
        if kept.len() > 0 || new_videos.len() > 0 {
            let patch = GameArchive {
                magic,
                unknown,
                unk4_data,
                wwise_streams,
                wwise_banks: kept,
                text_banks: Vec::new(),
                video_sources: new_videos,
                hierarchy_entries,
            };
            assert(map_vals(patch.text_banks@, text_map()) =~= Seq::<(u64, TextModel)>::empty());
            assert(texts_wf(patch.text_banks@));
            self.add_game_archive(name, patch);
        }
    }
}

proof fn lemma_total_strings_step(v: Seq<(u64, TextBank)>, k: nat)
    requires
        k < v.len(),
    ensures
        total_strings(v, k + 1) == total_strings(v, k) + v[k as int].1.entries@.len(),
{
}

proof fn lemma_total_strings_mono(v: Seq<(u64, TextBank)>, k: nat, n: nat)
    requires
        k <= n <= v.len(),
    ensures
        total_strings(v, k) <= total_strings(v, n),
    decreases n,
{
    if k < n {
        lemma_total_strings_mono(v, k, (n - 1) as nat);
    }
}

// ---------------------------------------------------------------------------
// The patch written from the pool.

/// The entries whose value is marked modified, in order.
pub open spec fn modified_only<V>(s: Seq<(u64, V)>, modified: spec_fn(V) -> bool) -> Seq<(u64, V)>
    decreases s.len(),
{
    if s.len() == 0 {
        Seq::empty()
    } else {
        let prev = modified_only(s.drop_last(), modified);
        if modified(s.last().1) {
            prev.push(s.last())
        } else {
            prev
        }
    }
}

/// Some pooled stream, bank, text bank or video is modified.
pub open spec fn spec_has_modified(p: PoolModel) -> bool {
    ||| exists|i: int| 0 <= i < p.arch.streams.len() && (#[trigger] p.arch.streams[i]).1.1
    ||| exists|i: int| 0 <= i < p.arch.banks.len() && (#[trigger] p.arch.banks[i]).1.modified
    ||| exists|i: int| 0 <= i < p.arch.texts.len() && (#[trigger] p.arch.texts[i]).1.3
    ||| exists|i: int| 0 <= i < p.arch.videos.len() && (#[trigger] p.arch.videos[i]).1.2
}

/// The 56 header bytes after the `unknown` field of a combined patch.
pub open spec fn combined_unk4() -> Seq<u8> {
    seq![0xCEu8, 0x09u8, 0xF5u8, 0xF4u8, 0x00u8, 0x00u8, 0x00u8, 0x00u8, 0x0Cu8, 0x72u8, 0x9Fu8, 0x9Eu8, 0x88u8, 0x72u8, 0xB8u8, 0xBDu8, 0x00u8, 0xA0u8, 0x6Bu8, 0x02u8, 0x00u8, 0x00u8, 0x00u8, 0x00u8, 0x00u8, 0x79u8, 0x51u8, 0x00u8, 0x00u8, 0x00u8, 0x00u8, 0x00u8, 0x00u8, 0x00u8, 0x00u8, 0x00u8, 0x00u8, 0x00u8, 0x00u8, 0x00u8, 0x00u8, 0x00u8, 0x00u8, 0x00u8, 0x00u8, 0x00u8, 0x00u8, 0x00u8, 0x00u8, 0x00u8, 0x00u8, 0x00u8, 0x00u8, 0x00u8, 0x00u8, 0x00u8]
}

/// The 56 header bytes a combined patch is written with.
pub fn combined_unk4_data() -> (v: Vec<u8>)
    ensures
        v@ == combined_unk4(),
{
    let a: [u8; 56] = [0xCEu8, 0x09u8, 0xF5u8, 0xF4u8, 0x00u8, 0x00u8, 0x00u8, 0x00u8, 0x0Cu8, 0x72u8, 0x9Fu8, 0x9Eu8, 0x88u8, 0x72u8, 0xB8u8, 0xBDu8, 0x00u8, 0xA0u8, 0x6Bu8, 0x02u8, 0x00u8, 0x00u8, 0x00u8, 0x00u8, 0x00u8, 0x79u8, 0x51u8, 0x00u8, 0x00u8, 0x00u8, 0x00u8, 0x00u8, 0x00u8, 0x00u8, 0x00u8, 0x00u8, 0x00u8, 0x00u8, 0x00u8, 0x00u8, 0x00u8, 0x00u8, 0x00u8, 0x00u8, 0x00u8, 0x00u8, 0x00u8, 0x00u8, 0x00u8, 0x00u8, 0x00u8, 0x00u8, 0x00u8, 0x00u8, 0x00u8, 0x00u8];
    let v = copy_bytes(&a);
    assert(v@ =~= combined_unk4());
    v
}

impl Mod {
    /// Whether some pooled resource is modified, so that a patch written
    /// from the pool would hold resources.
    pub fn has_modified_resources(&self) -> (b: bool)
        ensures
            b == spec_has_modified(pool_model(*self)),
    {
        let ghost m = pool_model(*self);
        let mut i: usize = 0;
        while i < self.wwise_streams.len()
            invariant
                i <= self.wwise_streams@.len(),
                m == pool_model(*self),
                forall|j: int| 0 <= j < i ==> !(#[trigger] m.arch.streams[j]).1.1,
            decreases self.wwise_streams@.len() - i,
        {
            if self.wwise_streams[i].1.modified {
                assert(m.arch.streams[i as int].1.1);
                return true;
            }
            i = i + 1;
        }
        let mut i: usize = 0;
        while i < self.wwise_banks.len()
            invariant
                i <= self.wwise_banks@.len(),
                m == pool_model(*self),
                forall|j: int| 0 <= j < i ==> !(#[trigger] m.arch.banks[j]).1.modified,
            decreases self.wwise_banks@.len() - i,
        {
            if self.wwise_banks[i].1.modified {
                assert(m.arch.banks[i as int].1.modified);
                return true;
            }
            i = i + 1;
        }
        let mut i: usize = 0;
        while i < self.text_banks.len()
            invariant
                i <= self.text_banks@.len(),
                m == pool_model(*self),
                forall|j: int| 0 <= j < i ==> !(#[trigger] m.arch.texts[j]).1.3,
            decreases self.text_banks@.len() - i,
        {
            if self.text_banks[i].1.modified {
                assert(m.arch.texts[i as int].1.3);
                return true;
            }
            i = i + 1;
        }
        let mut i: usize = 0;
        while i < self.video_sources.len()
            invariant
                i <= self.video_sources@.len(),
                m == pool_model(*self),
                forall|j: int| 0 <= j < i ==> !(#[trigger] m.arch.videos[j]).1.2,
            decreases self.video_sources@.len() - i,
        {
            if self.video_sources[i].1.modified {
                assert(m.arch.videos[i as int].1.2);
                return true;
            }
            i = i + 1;
        }
        false
    }

    /// The combined patch of the pool: every modified stream, bank, text
    /// bank and video, in pool order, under the archive magic with the given
    /// 56 header bytes, a zero `unknown` field and no hierarchy of its own.
    pub fn into_patch(self, unk4_data: Vec<u8>) -> (r: GameArchive)
        ensures
            r.magic == ARCHIVE_MAGIC,
            r.unknown == 0,
            r.unk4_data@ == unk4_data@,
            archive_model(r) == (ArchiveModel {
                streams: modified_only(pool_model(self).arch.streams, |m: StreamModel| m.1),
                banks: modified_only(pool_model(self).arch.banks, |m: BankModel| m.modified),
                texts: modified_only(pool_model(self).arch.texts, |m: TextModel| m.3),
                videos: modified_only(pool_model(self).arch.videos, |m: VideoModel| m.2),
                hierarchy: Seq::empty(),
            }),
    {
        let ghost all_wwise_streams = self.wwise_streams@;
        let mut rest = self.wwise_streams;
        let mut wwise_streams: Vec<(u64, WwiseStream)> = Vec::new();
        let ghost mut k: int = 0;
        assert(map_vals(wwise_streams@, stream_map()) =~= modified_only(map_vals(all_wwise_streams.take(0), stream_map()), |m: StreamModel| m.1));
        while rest.len() > 0
            invariant
                0 <= k <= all_wwise_streams.len(),
                rest@ == all_wwise_streams.skip(k),
                map_vals(wwise_streams@, stream_map()) == modified_only(map_vals(all_wwise_streams.take(k), stream_map()), |m: StreamModel| m.1),
            decreases rest@.len(),
        {
            let ghost before_rest = rest@;
            let x = rest.remove(0);
            assert(all_wwise_streams[k] == x) by {
                assert(before_rest[0] == all_wwise_streams.skip(k)[0]);
            }
            assert(map_vals(all_wwise_streams.take(k + 1), stream_map()).drop_last() =~= map_vals(all_wwise_streams.take(k), stream_map()));
            let ghost before = map_vals(wwise_streams@, stream_map());
            if x.1.modified {
                wwise_streams.push(x);
                assert(map_vals(wwise_streams@, stream_map()) =~= before.push(map_vals(all_wwise_streams.take(k + 1), stream_map()).last()));
            }
            proof {
                k = k + 1;
            }
            assert(all_wwise_streams.skip(k) =~= before_rest.drop_first());
        }
        assert(all_wwise_streams.take(k) =~= all_wwise_streams);
        let ghost all_wwise_banks = self.wwise_banks@;
        let mut rest = self.wwise_banks;
        let mut wwise_banks: Vec<(u64, WwiseBank)> = Vec::new();
        let ghost mut k: int = 0;
        assert(map_vals(wwise_banks@, bank_map()) =~= modified_only(map_vals(all_wwise_banks.take(0), bank_map()), |m: BankModel| m.modified));
        while rest.len() > 0
            invariant
                0 <= k <= all_wwise_banks.len(),
                rest@ == all_wwise_banks.skip(k),
                map_vals(wwise_banks@, bank_map()) == modified_only(map_vals(all_wwise_banks.take(k), bank_map()), |m: BankModel| m.modified),
            decreases rest@.len(),
        {
            let ghost before_rest = rest@;
            let x = rest.remove(0);
            assert(all_wwise_banks[k] == x) by {
                assert(before_rest[0] == all_wwise_banks.skip(k)[0]);
            }
            assert(map_vals(all_wwise_banks.take(k + 1), bank_map()).drop_last() =~= map_vals(all_wwise_banks.take(k), bank_map()));
            let ghost before = map_vals(wwise_banks@, bank_map());
            if x.1.modified {
                wwise_banks.push(x);
                assert(map_vals(wwise_banks@, bank_map()) =~= before.push(map_vals(all_wwise_banks.take(k + 1), bank_map()).last()));
            }
            proof {
                k = k + 1;
            }
            assert(all_wwise_banks.skip(k) =~= before_rest.drop_first());
        }
        assert(all_wwise_banks.take(k) =~= all_wwise_banks);
        let ghost all_text_banks = self.text_banks@;
        let mut rest = self.text_banks;
        let mut text_banks: Vec<(u64, TextBank)> = Vec::new();
        let ghost mut k: int = 0;
        assert(map_vals(text_banks@, text_map()) =~= modified_only(map_vals(all_text_banks.take(0), text_map()), |m: TextModel| m.3));
        while rest.len() > 0
            invariant
                0 <= k <= all_text_banks.len(),
                rest@ == all_text_banks.skip(k),
                map_vals(text_banks@, text_map()) == modified_only(map_vals(all_text_banks.take(k), text_map()), |m: TextModel| m.3),
            decreases rest@.len(),
        {
            let ghost before_rest = rest@;
            let x = rest.remove(0);
            assert(all_text_banks[k] == x) by {
                assert(before_rest[0] == all_text_banks.skip(k)[0]);
            }
            assert(map_vals(all_text_banks.take(k + 1), text_map()).drop_last() =~= map_vals(all_text_banks.take(k), text_map()));
            let ghost before = map_vals(text_banks@, text_map());
            if x.1.modified {
                text_banks.push(x);
                assert(map_vals(text_banks@, text_map()) =~= before.push(map_vals(all_text_banks.take(k + 1), text_map()).last()));
            }
            proof {
                k = k + 1;
            }
            assert(all_text_banks.skip(k) =~= before_rest.drop_first());
        }
        assert(all_text_banks.take(k) =~= all_text_banks);
        let ghost all_video_sources = self.video_sources@;
        let mut rest = self.video_sources;
        let mut video_sources: Vec<(u64, VideoSource)> = Vec::new();
        let ghost mut k: int = 0;
        assert(map_vals(video_sources@, video_map()) =~= modified_only(map_vals(all_video_sources.take(0), video_map()), |m: VideoModel| m.2));
        while rest.len() > 0
            invariant
                0 <= k <= all_video_sources.len(),
                rest@ == all_video_sources.skip(k),
                map_vals(video_sources@, video_map()) == modified_only(map_vals(all_video_sources.take(k), video_map()), |m: VideoModel| m.2),
            decreases rest@.len(),
        {
            let ghost before_rest = rest@;
            let x = rest.remove(0);
            assert(all_video_sources[k] == x) by {
                assert(before_rest[0] == all_video_sources.skip(k)[0]);
            }
            assert(map_vals(all_video_sources.take(k + 1), video_map()).drop_last() =~= map_vals(all_video_sources.take(k), video_map()));
            let ghost before = map_vals(video_sources@, video_map());
            if x.1.modified {
                video_sources.push(x);
                assert(map_vals(video_sources@, video_map()) =~= before.push(map_vals(all_video_sources.take(k + 1), video_map()).last()));
            }
            proof {
                k = k + 1;
            }
            assert(all_video_sources.skip(k) =~= before_rest.drop_first());
        }
        assert(all_video_sources.take(k) =~= all_video_sources);
        let hierarchy_entries: Vec<(u32, HircEntry)> = Vec::new();
        assert(map_vals(hierarchy_entries@, hirc_map()) =~= Seq::<(u32, HircParts)>::empty());
        GameArchive {
            magic: ARCHIVE_MAGIC,
            unknown: 0,
            unk4_data,
            wwise_streams,
            wwise_banks,
            text_banks,
            video_sources,
            hierarchy_entries,
        }
    }
}

// ---------------------------------------------------------------------------
// One patch per archive added.

/// The modified resources of `pool` under `ids`, in the order of `ids`.
pub open spec fn picked<V>(pool: Seq<(u64, V)>, ids: Seq<u64>, modified: spec_fn(V) -> bool) -> Seq<(u64, V)>
    decreases ids.len(),
{
    if ids.len() == 0 {
        Seq::empty()
    } else {
        let prev = picked(pool, ids.drop_last(), modified);
        let id = ids.last();
        if has_key(pool, id) && modified(pool[key_index(pool, id)].1) {
            prev.push((id, pool[key_index(pool, id)].1))
        } else {
            prev
        }
    }
}

/// The patch of the `i`-th archive added: named after it with `.patch_0`,
/// its header fields, and the pool's modified resources among its own, in
/// its order, with no hierarchy of its own.
pub open spec fn separate_patch(p: PoolModel, i: int) -> (Seq<char>, u32, Seq<u8>, ArchiveModel) {
    let r = p.records[i];
    (
        p.names[i] + ".patch_0"@,
        r.0,
        r.1,
        ArchiveModel {
            streams: picked(p.arch.streams, r.2, |m: StreamModel| m.1),
            banks: picked(p.arch.banks, r.3, |m: BankModel| m.modified),
            texts: picked(p.arch.texts, r.4, |m: TextModel| m.3),
            videos: picked(p.arch.videos, r.5, |m: VideoModel| m.2),
            hierarchy: Seq::empty(),
        },
    )
}

fn pick_streams(pool: &Vec<(u64, WwiseStream)>, ids: &Vec<u64>) -> (r: Vec<(u64, WwiseStream)>)
    requires
        keys_unique(pool@),
    ensures
        map_vals(r@, stream_map()) == picked(map_vals(pool@, stream_map()), ids@, |m: StreamModel| m.1),
{
    let ghost pm = map_vals(pool@, stream_map());
    let mut r: Vec<(u64, WwiseStream)> = Vec::new();
    let mut k: usize = 0;
    while k < ids.len()
        invariant
            k <= ids@.len(),
            keys_unique(pool@),
            pm == map_vals(pool@, stream_map()),
            map_vals(r@, stream_map()) == picked(pm, ids@.take(k as int), |m: StreamModel| m.1),
        decreases ids@.len() - k,
    {
        let id = ids[k];
        proof {
            lemma_has_key_map(pool@, stream_map(), id);
            lemma_map_vals_unique(pool@, stream_map());
        }
        assert(ids@.take(k + 1).drop_last() =~= ids@.take(k as int));
        let ghost before = map_vals(r@, stream_map());
        match find_u64(pool, id) {
            Some(i) => {
                proof {
                    lemma_key_index_unique(pm, id, i as int);
                }
                if pool[i].1.modified {
                    let x = pool[i].1.duplicate();
                    r.push((id, x));
                    assert(map_vals(r@, stream_map()) =~= before.push((id, pm[i as int].1)));
                }
            },
            None => {},
        }
        k = k + 1;
    }
    assert(ids@.take(k as int) =~= ids@);
    r
}

fn pick_banks(pool: &Vec<(u64, WwiseBank)>, ids: &Vec<u64>) -> (r: Vec<(u64, WwiseBank)>)
    requires
        keys_unique(pool@),
    ensures
        map_vals(r@, bank_map()) == picked(map_vals(pool@, bank_map()), ids@, |m: BankModel| m.modified),
{
    let ghost pm = map_vals(pool@, bank_map());
    let mut r: Vec<(u64, WwiseBank)> = Vec::new();
    let mut k: usize = 0;
    while k < ids.len()
        invariant
            k <= ids@.len(),
            keys_unique(pool@),
            pm == map_vals(pool@, bank_map()),
            map_vals(r@, bank_map()) == picked(pm, ids@.take(k as int), |m: BankModel| m.modified),
        decreases ids@.len() - k,
    {
        let id = ids[k];
        proof {
            lemma_has_key_map(pool@, bank_map(), id);
            lemma_map_vals_unique(pool@, bank_map());
        }
        assert(ids@.take(k + 1).drop_last() =~= ids@.take(k as int));
        let ghost before = map_vals(r@, bank_map());
        match find_u64(pool, id) {
            Some(i) => {
                proof {
                    lemma_key_index_unique(pm, id, i as int);
                }
                if pool[i].1.modified {
                    let x = pool[i].1.duplicate();
                    r.push((id, x));
                    assert(map_vals(r@, bank_map()) =~= before.push((id, pm[i as int].1)));
                }
            },
            None => {},
        }
        k = k + 1;
    }
    assert(ids@.take(k as int) =~= ids@);
    r
}

fn pick_texts(pool: &Vec<(u64, TextBank)>, ids: &Vec<u64>) -> (r: Vec<(u64, TextBank)>)
    requires
        keys_unique(pool@),
    ensures
        map_vals(r@, text_map()) == picked(map_vals(pool@, text_map()), ids@, |m: TextModel| m.3),
{
    let ghost pm = map_vals(pool@, text_map());
    let mut r: Vec<(u64, TextBank)> = Vec::new();
    let mut k: usize = 0;
    while k < ids.len()
        invariant
            k <= ids@.len(),
            keys_unique(pool@),
            pm == map_vals(pool@, text_map()),
            map_vals(r@, text_map()) == picked(pm, ids@.take(k as int), |m: TextModel| m.3),
        decreases ids@.len() - k,
    {
        let id = ids[k];
        proof {
            lemma_has_key_map(pool@, text_map(), id);
            lemma_map_vals_unique(pool@, text_map());
        }
        assert(ids@.take(k + 1).drop_last() =~= ids@.take(k as int));
        let ghost before = map_vals(r@, text_map());
        match find_u64(pool, id) {
            Some(i) => {
                proof {
                    lemma_key_index_unique(pm, id, i as int);
                }
                if pool[i].1.modified {
                    let x = pool[i].1.duplicate();
                    r.push((id, x));
                    assert(map_vals(r@, text_map()) =~= before.push((id, pm[i as int].1)));
                }
            },
            None => {},
        }
        k = k + 1;
    }
    assert(ids@.take(k as int) =~= ids@);
    r
}

fn pick_videos(pool: &Vec<(u64, VideoSource)>, ids: &Vec<u64>) -> (r: Vec<(u64, VideoSource)>)
    requires
        keys_unique(pool@),
    ensures
        map_vals(r@, video_map()) == picked(map_vals(pool@, video_map()), ids@, |m: VideoModel| m.2),
{
    let ghost pm = map_vals(pool@, video_map());
    let mut r: Vec<(u64, VideoSource)> = Vec::new();
    let mut k: usize = 0;
    while k < ids.len()
        invariant
            k <= ids@.len(),
            keys_unique(pool@),
            pm == map_vals(pool@, video_map()),
            map_vals(r@, video_map()) == picked(pm, ids@.take(k as int), |m: VideoModel| m.2),
        decreases ids@.len() - k,
    {
        let id = ids[k];
        proof {
            lemma_has_key_map(pool@, video_map(), id);
            lemma_map_vals_unique(pool@, video_map());
        }
        assert(ids@.take(k + 1).drop_last() =~= ids@.take(k as int));
        let ghost before = map_vals(r@, video_map());
        match find_u64(pool, id) {
            Some(i) => {
                proof {
                    lemma_key_index_unique(pm, id, i as int);
                }
                if pool[i].1.modified {
                    let x = pool[i].1.duplicate();
                    r.push((id, x));
                    assert(map_vals(r@, video_map()) =~= before.push((id, pm[i as int].1)));
                }
            },
            None => {},
        }
        k = k + 1;
    }
    assert(ids@.take(k as int) =~= ids@);
    r
}

impl Mod {
    /// One patch per archive added, in the order they were added (see
    /// `separate_patch`), each under the archive magic.
    pub fn separate_patches(&self) -> (r: Vec<(String, GameArchive)>)
        requires
            self.wf(),
        ensures
            r@.len() == self.names@.len(),
            forall|i: int|
                0 <= i < r@.len() ==> {
                    let (name, unknown, unk4, model) = separate_patch(pool_model(*self), i);
                    &&& (#[trigger] r@[i]).0@ == name
                    &&& r@[i].1.magic == ARCHIVE_MAGIC
                    &&& r@[i].1.unknown == unknown
                    &&& r@[i].1.unk4_data@ == unk4
                    &&& archive_model(r@[i].1) == model
                },
    {
        let ghost pm = pool_model(*self);
        let mut out: Vec<(String, GameArchive)> = Vec::new();
        let mut k: usize = 0;
        while k < self.names.len()
            invariant
                k <= self.names@.len(),
                self.wf(),
                pm == pool_model(*self),
                out@.len() == k,
                forall|i: int|
                    0 <= i < k ==> {
                        let (name, unknown, unk4, model) = separate_patch(pm, i);
                        &&& (#[trigger] out@[i]).0@ == name
                        &&& out@[i].1.magic == ARCHIVE_MAGIC
                        &&& out@[i].1.unknown == unknown
                        &&& out@[i].1.unk4_data@ == unk4
                        &&& archive_model(out@[i].1) == model
                    },
            decreases self.names@.len() - k,
        {
            let rec = &self.records[k];
            let name = crate::text::concat2(self.names[k].as_str(), ".patch_0");
            let hierarchy_entries: Vec<(u32, HircEntry)> = Vec::new();
            let patch = GameArchive {
                magic: ARCHIVE_MAGIC,
                unknown: rec.unknown,
                unk4_data: copy_bytes(rec.unk4_data.as_slice()),
                wwise_streams: pick_streams(&self.wwise_streams, &rec.streams),
                wwise_banks: pick_banks(&self.wwise_banks, &rec.banks),
                text_banks: pick_texts(&self.text_banks, &rec.texts),
                video_sources: pick_videos(&self.video_sources, &rec.videos),
                hierarchy_entries,
            };
            assert(map_vals(patch.hierarchy_entries@, hirc_map()) =~= Seq::<(u32, HircParts)>::empty());
            assert(pm.names[k as int] == self.names@[k as int]@);
            assert(pm.records[k as int] == record_model(self.records@[k as int]));
            let ghost before = out@;
            out.push((name, patch));
            assert forall|i: int| 0 <= i < k + 1 implies {
                let (name, unknown, unk4, model) = separate_patch(pm, i);
                &&& (#[trigger] out@[i]).0@ == name
                &&& out@[i].1.magic == ARCHIVE_MAGIC
                &&& out@[i].1.unknown == unknown
                &&& out@[i].1.unk4_data@ == unk4
                &&& archive_model(out@[i].1) == model
            } by {
                if i < k {
                    assert(out@[i] == before[i]);
                }
            }
            k = k + 1;
        }
        out
    }
}

// ---------------------------------------------------------------------------
// Laws.

/// An archive name is added once: adding an archive under a name already
/// added leaves the pool as it is.
pub proof fn law_archive_added_once(
    p: PoolModel,
    name: Seq<char>,
    u1: u32,
    k1: Seq<u8>,
    a: ArchiveModel,
    u2: u32,
    k2: Seq<u8>,
    b: ArchiveModel,
)
    ensures
        spec_add_archive(spec_add_archive(p, name, u1, k1, a), name, u2, k2, b) == spec_add_archive(p, name, u1, k1, a),
{
    let q = spec_add_archive(p, name, u1, k1, a);
    if !p.names.contains(name) {
        assert(q.names[q.names.len() - 1] == name);
    }
}

/// The pool keeps what it holds: adding an archive leaves every resource
/// and hierarchy entry already pooled as it was, in place, and only
/// appends new ones.
pub proof fn law_pooled_resources_stay(p: PoolModel, name: Seq<char>, unknown: u32, unk4: Seq<u8>, a: ArchiveModel)
    ensures
        ({
            let q = spec_add_archive(p, name, unknown, unk4, a);
            &&& q.arch.streams.take(p.arch.streams.len() as int) == p.arch.streams
            &&& q.arch.banks.take(p.arch.banks.len() as int) == p.arch.banks
            &&& q.arch.texts.take(p.arch.texts.len() as int) == p.arch.texts
            &&& q.arch.videos.take(p.arch.videos.len() as int) == p.arch.videos
            &&& q.arch.hierarchy.take(p.arch.hierarchy.len() as int) == p.arch.hierarchy
        }),
{
    if p.names.contains(name) {
        assert(p.arch.streams.take(p.arch.streams.len() as int) =~= p.arch.streams);
        assert(p.arch.banks.take(p.arch.banks.len() as int) =~= p.arch.banks);
        assert(p.arch.texts.take(p.arch.texts.len() as int) =~= p.arch.texts);
        assert(p.arch.videos.take(p.arch.videos.len() as int) =~= p.arch.videos);
        assert(p.arch.hierarchy.take(p.arch.hierarchy.len() as int) =~= p.arch.hierarchy);
    } else {
        lemma_add_absent_prefix(p.arch.streams, a.streams);
        lemma_add_absent_prefix(
            p.arch.banks,
            a.banks.map_values(|b: (u64, BankModel)| (b.0, pooled_bank(a.hierarchy, p.arch.hierarchy, b.1))),
        );
        lemma_add_absent_prefix(p.arch.texts, a.texts);
        lemma_add_absent_prefix(p.arch.videos, a.videos);
        lemma_add_absent_prefix(p.arch.hierarchy, a.hierarchy);
    }
}

proof fn lemma_import_streams_keys(pool: Seq<(u64, StreamModel)>, patch: Seq<(u64, StreamModel)>)
    ensures
        same_keys(pool, import_streams(pool, patch)),
    decreases patch.len(),
{
    if patch.len() > 0 {
        lemma_import_streams_keys(pool, patch.drop_last());
        let ps = import_streams(pool, patch.drop_last());
        let (id, s) = patch.last();
        if has_key(ps, id) {
            let k = key_index(ps, id);
            assert(ps[k].0 == id);
        }
    }
}

/// Importing a patch swaps its audio in: each pooled stream whose id a
/// patch stream has, and whose bytes (its original bytes once changed)
/// differ from the patch's, takes the patch's bytes, keeps its original
/// bytes as the old ones and is marked modified, as its source is; every
/// other pooled stream stays as it was, and each stays in its place.
pub proof fn law_import_swaps_changed_streams(
    pool: Seq<(u64, StreamModel)>,
    patch: Seq<(u64, StreamModel)>,
    i: int,
)
    requires
        keys_unique(pool),
        keys_unique(patch),
        0 <= i < pool.len(),
    ensures
        ({
            let r = import_streams(pool, patch);
            let id = pool[i].0;
            &&& r.len() == pool.len()
            &&& r[i].0 == id
            &&& r[i].1 == if has_key(patch, id) && stream_changed(pool[i].1, patch[key_index(patch, id)].1.2) {
                stream_swapped(pool[i].1, patch[key_index(patch, id)].1.2)
            } else {
                pool[i].1
            }
        }),
    decreases patch.len(),
{
    lemma_import_streams_keys(pool, patch);
    if patch.len() > 0 {
        let q = patch.drop_last();
        assert(keys_unique(q)) by {
            assert forall|a: int, b: int| 0 <= a < q.len() && 0 <= b < q.len() && a != b implies q[a].0 != q[b].0 by {
                assert(q[a] == patch[a]);
                assert(q[b] == patch[b]);
            }
        }
        law_import_swaps_changed_streams(pool, q, i);
        lemma_import_streams_keys(pool, q);
        let ps = import_streams(pool, q);
        let (idl, sl) = patch.last();
        let id = pool[i].0;
        let n = patch.len() - 1;
        assert(patch[n].0 == idl);
        assert(keys_unique(ps)) by {
            assert forall|a: int, b: int| 0 <= a < ps.len() && 0 <= b < ps.len() && a != b implies ps[a].0
                != ps[b].0 by {
                assert(ps[a].0 == pool[a].0);
                assert(ps[b].0 == pool[b].0);
            }
        }
        if id == idl {
            lemma_key_index_unique(patch, id, n);
            assert(!has_key(q, id)) by {
                if has_key(q, id) {
                    let j = key_index(q, id);
                    assert(patch[j].0 == id);
                }
            }
            lemma_key_index_unique(ps, id, i);
        } else {
            if has_key(patch, id) {
                let j = key_index(patch, id);
                assert(j != n);
                assert(q[j] == patch[j]);
                lemma_key_index_unique(q, id, j);
            }
            if has_key(q, id) {
                let j = key_index(q, id);
                assert(patch[j] == q[j]);
                lemma_key_index_unique(patch, id, j);
            }
            if has_key(ps, idl) {
                let k = key_index(ps, idl);
                assert(ps[k].0 == idl);
                assert(k != i);
            }
        }
    }
}

} // verus!
