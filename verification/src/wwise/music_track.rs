//! Music tracks: their sources, track infos, clip automations and, per
//! version, a raw-field tail (V140) or a parameter block (V154). Times and
//! curve coordinates are raw `f64`/`f32` bit patterns.

use vstd::prelude::*;
use vstd::bytes::*;
use crate::buf::{copy_bytes, extend_bytes, extend_u32, extend_u64};
use crate::le::le_u32_at;
use crate::memstream::MemoryStream;
use crate::wwise::base_param::{
    base_param_bytes, base_param_len, base_param_ok, bypass_cleared, lemma_split, lemma_u32_bytes, BaseParam,
};
use crate::wwise::hierarchy::BankVersion;
use crate::wwise::music_segment::lemma_u64_bytes;
use crate::wwise::params::{source_bytes, source_len, BankSourceStruct};
use crate::wwise::sound::lemma_source_bytes;

verus! {

// ---------------------------------------------------------------------------
// Track infos.

/// Where a track's clip comes from and how it is trimmed. V154 banks carry a
/// cache id that V140 banks do not.
#[derive(Debug, Clone, Copy, PartialEq, Eq, Structural)]
pub struct TrackInfoStruct {
    pub track_id: u32,
    pub source_id: u32,
    pub cache_id: Option<u32>,
    pub event_id: u32,
    pub play_at: u64,
    pub begin_trim_offset: u64,
    pub end_trim_offset: u64,
    pub source_duration: u64,
}

pub open spec fn info_len(version: BankVersion) -> int {
    match version {
        BankVersion::V140 => 44,
        BankVersion::V154 => 48,
    }
}

pub open spec fn info_bytes(t: TrackInfoStruct) -> Seq<u8> {
    spec_u32_to_le_bytes(t.track_id) + spec_u32_to_le_bytes(t.source_id) + (match t.cache_id {
        Some(x) => spec_u32_to_le_bytes(x),
        None => Seq::empty(),
    }) + spec_u32_to_le_bytes(t.event_id) + spec_u64_to_le_bytes(t.play_at) + spec_u64_to_le_bytes(
        t.begin_trim_offset,
    ) + spec_u64_to_le_bytes(t.end_trim_offset) + spec_u64_to_le_bytes(t.source_duration)
}

impl TrackInfoStruct {
    pub fn read(stream: &mut MemoryStream, version: BankVersion) -> (t: TrackInfoStruct)
        requires
            old(stream).wf(),
            old(stream).position() + info_len(version) <= old(stream).contents().len(),
        ensures
            final(stream).wf(),
            final(stream).contents() == old(stream).contents(),
            final(stream).position() == old(stream).position() + info_len(version),
            info_bytes(t) == old(stream).contents().subrange(
                old(stream).position() as int,
                old(stream).position() + info_len(version),
            ),
            t.cache_id is Some <==> version == BankVersion::V154,
    {
        let ghost c = stream.contents();
        let ghost p = stream.position() as int;
        let track_id = stream.read_u32();
        let source_id = stream.read_u32();
        let cache_id = match version {
            BankVersion::V154 => Some(stream.read_u32()),
            BankVersion::V140 => None,
        };
        let ghost q = stream.position() as int;
        let event_id = stream.read_u32();
        let play_at = stream.read_u64();
        let begin_trim_offset = stream.read_u64();
        let end_trim_offset = stream.read_u64();
        let source_duration = stream.read_u64();
        let t = TrackInfoStruct {
            track_id,
            source_id,
            cache_id,
            event_id,
            play_at,
            begin_trim_offset,
            end_trim_offset,
            source_duration,
        };
        proof {
            lemma_u32_bytes(c, p);
            lemma_u32_bytes(c, p + 4);
            match version {
                BankVersion::V154 => lemma_u32_bytes(c, p + 8),
                BankVersion::V140 => assert(c.subrange(p + 8, q) =~= Seq::<u8>::empty()),
            }
            lemma_u32_bytes(c, q);
            lemma_u64_bytes(c, q + 4);
            lemma_u64_bytes(c, q + 12);
            lemma_u64_bytes(c, q + 20);
            lemma_u64_bytes(c, q + 28);
            lemma_split(c, p, p + 4, p + 8);
            lemma_split(c, p, p + 8, q);
            lemma_split(c, p, q, q + 4);
            lemma_split(c, p, q + 4, q + 12);
            lemma_split(c, p, q + 12, q + 20);
            lemma_split(c, p, q + 20, q + 28);
            lemma_split(c, p, q + 28, q + 36);
        }
        t
    }

    pub fn get_data(&self) -> (out: Vec<u8>)
        ensures
            out@ == info_bytes(*self),
    {
        let mut out: Vec<u8> = Vec::new();
        extend_u32(&mut out, self.track_id);
        extend_u32(&mut out, self.source_id);
        match self.cache_id {
            Some(x) => extend_u32(&mut out, x),
            None => {},
        }
        extend_u32(&mut out, self.event_id);
        extend_u64(&mut out, self.play_at);
        extend_u64(&mut out, self.begin_trim_offset);
        extend_u64(&mut out, self.end_trim_offset);
        extend_u64(&mut out, self.source_duration);
        assert(out@ =~= info_bytes(*self));
        out
    }

    /// Takes every field of `other`.
    pub fn import_entry(&mut self, other: &TrackInfoStruct)
        ensures
            *final(self) == *other,
    {
        self.track_id = other.track_id;
        self.source_id = other.source_id;
        self.cache_id = other.cache_id;
        self.event_id = other.event_id;
        self.play_at = other.play_at;
        self.begin_trim_offset = other.begin_trim_offset;
        self.end_trim_offset = other.end_trim_offset;
        self.source_duration = other.source_duration;
    }
}

// ---------------------------------------------------------------------------
// Clip automations.

/// An automation curve of a clip: points of raw `f32` bits and an
/// interpolation.
pub struct ClipAutomationStruct {
    pub clip_index: u32,
    pub auto_type: u32,
    pub graph_points: Vec<(u32, u32, u32)>,
}

pub open spec fn triples_bytes(ps: Seq<(u32, u32, u32)>) -> Seq<u8>
    decreases ps.len(),
{
    if ps.len() == 0 {
        Seq::empty()
    } else {
        triples_bytes(ps.drop_last()) + spec_u32_to_le_bytes(ps.last().0) + spec_u32_to_le_bytes(ps.last().1)
            + spec_u32_to_le_bytes(ps.last().2)
    }
}

pub open spec fn clip_bytes(a: ClipAutomationStruct) -> Seq<u8> {
    spec_u32_to_le_bytes(a.clip_index) + spec_u32_to_le_bytes(a.auto_type) + spec_u32_to_le_bytes(
        a.graph_points@.len() as u32,
    ) + triples_bytes(a.graph_points@)
}

/// How long a clip automation at `p` is: 12 bytes and 12 per point.
pub open spec fn clip_len(c: Seq<u8>, p: int) -> int {
    12 + 12 * le_u32_at(c, p + 8)
}

impl ClipAutomationStruct {
    pub fn read(stream: &mut MemoryStream) -> (a: ClipAutomationStruct)
        requires
            old(stream).wf(),
            old(stream).position() + 12 <= old(stream).contents().len(),
            old(stream).position() + clip_len(old(stream).contents(), old(stream).position() as int)
                <= old(stream).contents().len(),
        ensures
            final(stream).wf(),
            final(stream).contents() == old(stream).contents(),
            ({
                let c = old(stream).contents();
                let p = old(stream).position() as int;
                let e = p + clip_len(c, p);
                &&& final(stream).position() == e
                &&& clip_bytes(a) == c.subrange(p, e)
            }),
    {
        let ghost c = stream.contents();
        let ghost p = stream.position() as int;
        let clip_index = stream.read_u32();
        let auto_type = stream.read_u32();
        let n = stream.read_u32();
        let mut graph_points: Vec<(u32, u32, u32)> = Vec::new();
        let mut k: u32 = 0;
        assert(triples_bytes(graph_points@) =~= c.subrange(p + 12, p + 12));
        while k < n
            invariant
                k <= n,
                0 <= p,
                n == le_u32_at(c, p + 8),
                stream.wf(),
                stream.contents() == c,
                p + 12 + 12 * n <= c.len(),
                stream.position() == p + 12 + 12 * k,
                graph_points@.len() == k,
                triples_bytes(graph_points@) == c.subrange(p + 12, p + 12 + 12 * k),
            decreases n - k,
        {
            let ghost q = stream.position() as int;
            let x = stream.read_u32();
            let y = stream.read_u32();
            let z = stream.read_u32();
            proof {
                lemma_u32_bytes(c, q);
                lemma_u32_bytes(c, q + 4);
                lemma_u32_bytes(c, q + 8);
                lemma_split(c, p + 12, q, q + 4);
                lemma_split(c, p + 12, q + 4, q + 8);
                lemma_split(c, p + 12, q + 8, q + 12);
            }
            let ghost before = graph_points@;
            graph_points.push((x, y, z));
            assert(graph_points@.drop_last() =~= before);
            k = k + 1;
        }
        proof {
            lemma_u32_bytes(c, p);
            lemma_u32_bytes(c, p + 4);
            lemma_u32_bytes(c, p + 8);
            lemma_split(c, p, p + 4, p + 8);
            lemma_split(c, p, p + 8, p + 12);
            lemma_split(c, p, p + 12, p + 12 + 12 * n);
        }
        ClipAutomationStruct { clip_index, auto_type, graph_points }
    }

    pub fn get_data(&self) -> (out: Vec<u8>)
        ensures
            out@ == clip_bytes(*self),
    {
        let mut out: Vec<u8> = Vec::new();
        extend_u32(&mut out, self.clip_index);
        extend_u32(&mut out, self.auto_type);
        extend_u32(&mut out, self.graph_points.len() as u32);
        let ghost head = out@;
        let mut k: usize = 0;
        while k < self.graph_points.len()
            invariant
                k <= self.graph_points@.len(),
                out@ == head + triples_bytes(self.graph_points@.take(k as int)),
            decreases self.graph_points@.len() - k,
        {
            let (x, y, z) = self.graph_points[k];
            extend_u32(&mut out, x);
            extend_u32(&mut out, y);
            extend_u32(&mut out, z);
            assert(self.graph_points@.take(k + 1).drop_last() =~= self.graph_points@.take(k as int));
            k = k + 1;
            assert(out@ =~= head + triples_bytes(self.graph_points@.take(k as int)));
        }
        assert(self.graph_points@.take(self.graph_points@.len() as int) =~= self.graph_points@);
        out
    }
}


// ---------------------------------------------------------------------------
// Lists.

pub open spec fn sources_bytes(ss: Seq<BankSourceStruct>) -> Seq<u8>
    decreases ss.len(),
{
    if ss.len() == 0 {
        Seq::empty()
    } else {
        sources_bytes(ss.drop_last()) + source_bytes(ss.last())
    }
}

pub open spec fn infos_bytes(ts: Seq<TrackInfoStruct>) -> Seq<u8>
    decreases ts.len(),
{
    if ts.len() == 0 {
        Seq::empty()
    } else {
        infos_bytes(ts.drop_last()) + info_bytes(ts.last())
    }
}

pub open spec fn clips_bytes(cs: Seq<ClipAutomationStruct>) -> Seq<u8>
    decreases cs.len(),
{
    if cs.len() == 0 {
        Seq::empty()
    } else {
        clips_bytes(cs.drop_last()) + clip_bytes(cs.last())
    }
}

/// How long `n` sources from `p` are.
pub open spec fn sources_len(c: Seq<u8>, p: int, version: BankVersion, n: nat) -> Option<int>
    decreases n,
{
    if n == 0 {
        Some(0)
    } else {
        match source_len(c, p, version) {
            None => None,
            Some(l) => match sources_len(c, p + l, version, (n - 1) as nat) {
                None => None,
                Some(r) => Some(l + r),
            },
        }
    }
}

/// How long `n` clip automations from `p` are.
pub open spec fn clips_len(c: Seq<u8>, p: int, n: nat) -> Option<int>
    decreases n,
{
    if n == 0 {
        Some(0)
    } else if p + 12 > c.len() {
        None
    } else {
        match clips_len(c, p + clip_len(c, p), (n - 1) as nat) {
            None => None,
            Some(r) => Some(clip_len(c, p) + r),
        }
    }
}

proof fn lemma_sources_len_pos(c: Seq<u8>, p: int, version: BankVersion, n: nat)
    requires
        sources_len(c, p, version, n) is Some,
    ensures
        sources_len(c, p, version, n).unwrap() >= 0,
    decreases n,
{
    if n > 0 {
        let l = source_len(c, p, version).unwrap();
        lemma_sources_len_pos(c, p + l, version, (n - 1) as nat);
    }
}

proof fn lemma_clips_len_pos(c: Seq<u8>, p: int, n: nat)
    requires
        clips_len(c, p, n) is Some,
    ensures
        clips_len(c, p, n).unwrap() >= 0,
    decreases n,
{
    if n > 0 {
        lemma_clips_len_pos(c, p + clip_len(c, p), (n - 1) as nat);
    }
}

/// Reads `n` sources of `version`.
fn read_sources(stream: &mut MemoryStream, version: BankVersion, n: u32) -> (ss: Vec<BankSourceStruct>)
    requires
        old(stream).wf(),
        sources_len(old(stream).contents(), old(stream).position() as int, version, n as nat) matches Some(r)
            && old(stream).position() + r <= old(stream).contents().len(),
    ensures
        final(stream).wf(),
        final(stream).contents() == old(stream).contents(),
        ({
            let c = old(stream).contents();
            let q = old(stream).position() as int;
            let e = q + sources_len(c, q, version, n as nat).unwrap();
            &&& q <= e == final(stream).position()
            &&& ss@.len() == n
            &&& sources_bytes(ss@) == c.subrange(q, e)
        }),
{
    let ghost c = stream.contents();
    let ghost q = stream.position() as int;
    let ghost e = q + sources_len(c, q, version, n as nat).unwrap();
    proof {
        lemma_sources_len_pos(c, q, version, n as nat);
    }
    let mut ss: Vec<BankSourceStruct> = Vec::new();
    let mut k: u32 = 0;
    assert(sources_bytes(ss@) =~= c.subrange(q, q));
    while k < n
        invariant
            k <= n,
            0 <= q,
            stream.wf(),
            stream.contents() == c,
            q <= stream.position() <= e <= c.len(),
            sources_len(c, stream.position() as int, version, (n - k) as nat) matches Some(r) && stream.position()
                + r == e,
            ss@.len() == k,
            sources_bytes(ss@) == c.subrange(q, stream.position() as int),
        decreases n - k,
    {
        let ghost at = stream.position() as int;
        let ghost l = source_len(c, at, version).unwrap();
        proof {
            let m = (n - k) as nat;
            assert(sources_len(c, at, version, m) == match sources_len(c, at + l, version, (m - 1) as nat) {
                None => None,
                Some(r) => Some(l + r),
            });
            lemma_sources_len_pos(c, at + l, version, (m - 1) as nat);
        }
        let src = BankSourceStruct::read(stream, version);
        proof {
            lemma_source_bytes(c, at, version, src);
            lemma_split(c, q, at, at + l);
        }
        let ghost before = ss@;
        ss.push(src);
        assert(ss@.drop_last() =~= before);
        k = k + 1;
    }
    ss
}

/// Reads `n` track infos of `version`.
fn read_infos(stream: &mut MemoryStream, version: BankVersion, n: u32) -> (ts: Vec<TrackInfoStruct>)
    requires
        old(stream).wf(),
        old(stream).position() + n * info_len(version) <= old(stream).contents().len(),
    ensures
        final(stream).wf(),
        final(stream).contents() == old(stream).contents(),
        final(stream).position() == old(stream).position() + n * info_len(version),
        ts@.len() == n,
        forall|i: int| 0 <= i < ts@.len() ==> ((#[trigger] ts@[i]).cache_id is Some <==> version == BankVersion::V154),
        infos_bytes(ts@) == old(stream).contents().subrange(
            old(stream).position() as int,
            old(stream).position() + n * info_len(version),
        ),
{
    let ghost c = stream.contents();
    let ghost q = stream.position() as int;
    let ghost f = info_len(version);
    let mut ts: Vec<TrackInfoStruct> = Vec::new();
    let mut k: u32 = 0;
    assert(infos_bytes(ts@) =~= c.subrange(q, q));
    while k < n
        invariant
            k <= n,
            0 <= q,
            f == info_len(version),
            stream.wf(),
            stream.contents() == c,
            q + n * f <= c.len(),
            stream.position() == q + k * f,
            ts@.len() == k,
            forall|i: int| 0 <= i < ts@.len() ==> ((#[trigger] ts@[i]).cache_id is Some <==> version == BankVersion::V154),
            infos_bytes(ts@) == c.subrange(q, q + k * f),
        decreases n - k,
    {
        let ghost at = stream.position() as int;
        proof {
            assert((k + 1) * f == k * f + f) by (nonlinear_arith);
            assert((k + 1) * f <= n * f) by (nonlinear_arith)
                requires k < n, f > 0;
        }
        let t = TrackInfoStruct::read(stream, version);
        proof {
            lemma_split(c, q, at, at + f);
        }
        let ghost before = ts@;
        ts.push(t);
        assert(ts@.drop_last() =~= before);
        k = k + 1;
    }
    ts
}

/// Reads `n` clip automations.
fn read_clips(stream: &mut MemoryStream, n: u32) -> (cs: Vec<ClipAutomationStruct>)
    requires
        old(stream).wf(),
        clips_len(old(stream).contents(), old(stream).position() as int, n as nat) matches Some(r)
            && old(stream).position() + r <= old(stream).contents().len(),
    ensures
        final(stream).wf(),
        final(stream).contents() == old(stream).contents(),
        ({
            let c = old(stream).contents();
            let q = old(stream).position() as int;
            let e = q + clips_len(c, q, n as nat).unwrap();
            &&& q <= e == final(stream).position()
            &&& cs@.len() == n
            &&& clips_bytes(cs@) == c.subrange(q, e)
        }),
{
    let ghost c = stream.contents();
    let ghost q = stream.position() as int;
    let ghost e = q + clips_len(c, q, n as nat).unwrap();
    proof {
        lemma_clips_len_pos(c, q, n as nat);
    }
    let mut cs: Vec<ClipAutomationStruct> = Vec::new();
    let mut k: u32 = 0;
    assert(clips_bytes(cs@) =~= c.subrange(q, q));
    while k < n
        invariant
            k <= n,
            0 <= q,
            stream.wf(),
            stream.contents() == c,
            q <= stream.position() <= e <= c.len(),
            clips_len(c, stream.position() as int, (n - k) as nat) matches Some(r) && stream.position() + r == e,
            cs@.len() == k,
            clips_bytes(cs@) == c.subrange(q, stream.position() as int),
        decreases n - k,
    {
        let ghost at = stream.position() as int;
        let ghost l = clip_len(c, at);
        proof {
            let m = (n - k) as nat;
            assert(clips_len(c, at, m) == match clips_len(c, at + l, (m - 1) as nat) {
                None => None,
                Some(r) => Some(l + r),
            });
            lemma_clips_len_pos(c, at + l, (m - 1) as nat);
        }
        let a = ClipAutomationStruct::read(stream);
        proof {
            lemma_split(c, q, at, at + l);
        }
        let ghost before = cs@;
        cs.push(a);
        assert(cs@.drop_last() =~= before);
        k = k + 1;
    }
    cs
}

fn sources_data(ss: &Vec<BankSourceStruct>) -> (out: Vec<u8>)
    ensures
        out@ == sources_bytes(ss@),
{
    let mut out: Vec<u8> = Vec::new();
    let mut k: usize = 0;
    while k < ss.len()
        invariant
            k <= ss@.len(),
            out@ == sources_bytes(ss@.take(k as int)),
        decreases ss@.len() - k,
    {
        let b = ss[k].get_data();
        extend_bytes(&mut out, b.as_slice());
        assert(ss@.take(k + 1).drop_last() =~= ss@.take(k as int));
        k = k + 1;
        assert(out@ =~= sources_bytes(ss@.take(k as int)));
    }
    assert(ss@.take(ss@.len() as int) =~= ss@);
    out
}

fn infos_data(ts: &Vec<TrackInfoStruct>) -> (out: Vec<u8>)
    ensures
        out@ == infos_bytes(ts@),
{
    let mut out: Vec<u8> = Vec::new();
    let mut k: usize = 0;
    while k < ts.len()
        invariant
            k <= ts@.len(),
            out@ == infos_bytes(ts@.take(k as int)),
        decreases ts@.len() - k,
    {
        let b = ts[k].get_data();
        extend_bytes(&mut out, b.as_slice());
        assert(ts@.take(k + 1).drop_last() =~= ts@.take(k as int));
        k = k + 1;
        assert(out@ =~= infos_bytes(ts@.take(k as int)));
    }
    assert(ts@.take(ts@.len() as int) =~= ts@);
    out
}

fn clips_data(cs: &Vec<ClipAutomationStruct>) -> (out: Vec<u8>)
    ensures
        out@ == clips_bytes(cs@),
{
    let mut out: Vec<u8> = Vec::new();
    let mut k: usize = 0;
    while k < cs.len()
        invariant
            k <= cs@.len(),
            out@ == clips_bytes(cs@.take(k as int)),
        decreases cs@.len() - k,
    {
        let b = cs[k].get_data();
        extend_bytes(&mut out, b.as_slice());
        assert(cs@.take(k + 1).drop_last() =~= cs@.take(k as int));
        k = k + 1;
        assert(out@ =~= clips_bytes(cs@.take(k as int)));
    }
    assert(cs@.take(cs@.len() as int) =~= cs@);
    out
}


// ---------------------------------------------------------------------------
// Tracks.

/// The per-version part of a track.
pub enum MusicTrackBody {
    V140 { bit_flags: u8, unused_0: Vec<u8>, unused_1: Vec<u8>, override_bus_id: u32, parent_id: u32 },
    V154 { bit_flags: u8, unk1: Vec<u8>, base_param: BaseParam, track_type: u8 },
}

/// A music track.
pub struct MusicTrack {
    pub size: u32,
    pub hierarchy_id: u32,
    pub sources: Vec<BankSourceStruct>,
    pub track_info: Vec<TrackInfoStruct>,
    pub clip_automations: Vec<ClipAutomationStruct>,
    pub misc: Vec<u8>,
    pub body: MusicTrackBody,
}

/// Where the parameter block of a V154 track at `p` begins.
pub open spec fn track_base_at(c: Seq<u8>, p: int) -> int {
    let q = p + 8;
    let b = q + sources_len(c, q, BankVersion::V154, le_u32_at(c, p + 4) as nat).unwrap();
    let nti = le_u32_at(c, b + 1);
    let k = b + 5 + 48 * nti + if nti > 0 { 4int } else { 0int };
    k + 4 + clips_len(c, k + 4, le_u32_at(c, k) as nat).unwrap()
}

/// How long the fields of a track at `p` are, before its trailing raw bytes.
pub open spec fn track_fixed_len(c: Seq<u8>, p: int, version: BankVersion) -> Option<int> {
    if p < 0 {
        None
    } else {
        match version {
            BankVersion::V140 => {
                if p + 9 > c.len() {
                    None
                } else {
                    match sources_len(c, p + 9, version, le_u32_at(c, p + 5) as nat) {
                        None => None,
                        Some(sl) => {
                            let ti = p + 9 + sl;
                            if ti + 4 > c.len() {
                                None
                            } else {
                                let u0 = ti + 4 + 44 * le_u32_at(c, ti);
                                if u0 + 8 > c.len() {
                                    None
                                } else {
                                    match clips_len(c, u0 + 8, le_u32_at(c, u0 + 4) as nat) {
                                        None => None,
                                        Some(cl) => Some(u0 + 8 + cl + 13 - p),
                                    }
                                }
                            }
                        }
                    }
                }
            },
            BankVersion::V154 => {
                if p + 8 > c.len() {
                    None
                } else {
                    match sources_len(c, p + 8, version, le_u32_at(c, p + 4) as nat) {
                        None => None,
                        Some(sl) => {
                            let b = p + 8 + sl;
                            if b + 5 > c.len() {
                                None
                            } else {
                                let nti = le_u32_at(c, b + 1);
                                let k = b + 5 + 48 * nti + if nti > 0 { 4int } else { 0int };
                                if k + 4 > c.len() {
                                    None
                                } else {
                                    match clips_len(c, k + 4, le_u32_at(c, k) as nat) {
                                        None => None,
                                        Some(cl) => match base_param_len(c, k + 4 + cl, version) {
                                            None => None,
                                            Some(bl) => Some(k + 4 + cl + bl + 1 - p),
                                        },
                                    }
                                }
                            }
                        }
                    }
                }
            },
        }
    }
}

/// The source bytes as a track of `version` at `p` writes them back: a V154
/// track's parameter block clears its bypass byte.
pub open spec fn track_cleared(c: Seq<u8>, p: int, version: BankVersion) -> Seq<u8> {
    match version {
        BankVersion::V140 => c,
        BankVersion::V154 => bypass_cleared(c, track_base_at(c, p), version),
    }
}

/// What follows the counts at a track's start.
pub open spec fn track_payload(t: MusicTrack) -> Seq<u8> {
    match t.body {
        MusicTrackBody::V140 { bit_flags, unused_0, unused_1, override_bus_id, parent_id } => sources_bytes(
            t.sources@,
        ) + spec_u32_to_le_bytes(t.track_info@.len() as u32) + infos_bytes(t.track_info@) + unused_0@
            + spec_u32_to_le_bytes(t.clip_automations@.len() as u32) + clips_bytes(t.clip_automations@) + unused_1@
            + spec_u32_to_le_bytes(override_bus_id) + spec_u32_to_le_bytes(parent_id) + t.misc@,
        MusicTrackBody::V154 { bit_flags, unk1, base_param, track_type } => sources_bytes(t.sources@) + seq![bit_flags]
            + spec_u32_to_le_bytes(t.track_info@.len() as u32) + infos_bytes(t.track_info@) + (if t.track_info@.len()
            > 0 {
            unk1@
        } else {
            Seq::empty()
        }) + spec_u32_to_le_bytes(t.clip_automations@.len() as u32) + clips_bytes(t.clip_automations@)
            + base_param_bytes(base_param) + seq![track_type] + t.misc@,
    }
}

/// A track's body: id, the V140 flags, the source count, then the payload.
pub open spec fn track_body_bytes(t: MusicTrack) -> Seq<u8> {
    match t.body {
        MusicTrackBody::V140 { bit_flags, .. } => spec_u32_to_le_bytes(t.hierarchy_id) + seq![bit_flags]
            + spec_u32_to_le_bytes(t.sources@.len() as u32) + track_payload(t),
        MusicTrackBody::V154 { .. } => spec_u32_to_le_bytes(t.hierarchy_id) + spec_u32_to_le_bytes(
            t.sources@.len() as u32,
        ) + track_payload(t),
    }
}

/// The size a track writes: its payload and the 9 (V140) or 8 (V154) bytes
/// before it.
pub open spec fn track_size(t: MusicTrack) -> int {
    match t.body {
        MusicTrackBody::V140 { .. } => 9 + track_payload(t).len() as int,
        MusicTrackBody::V154 { .. } => 8 + track_payload(t).len() as int,
    }
}

/// A track's entry bytes: its type (11), the size it computes, then its body.
pub open spec fn track_bytes(t: MusicTrack) -> Seq<u8> {
    seq![11u8] + spec_u32_to_le_bytes(track_size(t) as u32) + track_body_bytes(t)
}

/// The body is of `version`'s shape.
pub open spec fn track_ok(t: MusicTrack, version: BankVersion) -> bool {
    &&& match t.body {
        MusicTrackBody::V140 { .. } => version == BankVersion::V140,
        MusicTrackBody::V154 { base_param, .. } => version == BankVersion::V154 && base_param.version == version
            && base_param_ok(base_param),
    }
    &&& forall|i: int| 0 <= i < t.track_info@.len() ==> ((#[trigger] t.track_info@[i]).cache_id is Some
        <==> version == BankVersion::V154)
}

/// Whether `o` is the track info that `t` is matched with: the same nonzero
/// source id, or the same nonzero event id.
pub open spec fn info_matches(t: TrackInfoStruct, o: TrackInfoStruct) -> bool {
    (t.source_id != 0 && t.source_id == o.source_id) || (t.event_id != 0 && t.event_id == o.event_id)
}

/// The first of `os[i..]` that `t` is matched with.
pub open spec fn first_match(t: TrackInfoStruct, os: Seq<TrackInfoStruct>, i: int) -> Option<TrackInfoStruct>
    decreases os.len() - i,
{
    if i < 0 || i >= os.len() {
        None
    } else if info_matches(t, os[i]) {
        Some(os[i])
    } else {
        first_match(t, os, i + 1)
    }
}

/// A track info after a V154 import: the first matched imported one, or
/// itself.
pub open spec fn merged_info(t: TrackInfoStruct, os: Seq<TrackInfoStruct>) -> TrackInfoStruct {
    match first_match(t, os, 0) {
        Some(o) => o,
        None => t,
    }
}

/// A body after an import: a V140 body takes the flags, the raw spans and
/// the parent id of an imported V140 body and keeps its bus; a V154 body
/// takes the parameter block of an imported V154 body.
pub open spec fn imported_body(s: MusicTrackBody, o: MusicTrackBody, version: BankVersion) -> MusicTrackBody {
    match version {
        BankVersion::V140 => match (s, o) {
            (
                MusicTrackBody::V140 { override_bus_id, .. },
                MusicTrackBody::V140 { bit_flags, unused_0, unused_1, parent_id, .. },
            ) => MusicTrackBody::V140 { bit_flags, unused_0, unused_1, override_bus_id, parent_id },
            _ => s,
        },
        BankVersion::V154 => match (s, o) {
            (MusicTrackBody::V154 { bit_flags, unk1, track_type, .. }, MusicTrackBody::V154 { base_param, .. }) =>
                MusicTrackBody::V154 { bit_flags, unk1, base_param, track_type },
            _ => s,
        },
    }
}


impl MusicTrack {
    /// Reads a V140 track's body.
    #[verifier::rlimit(40)]
    fn read_v140(stream: &mut MemoryStream, size: u32) -> (t: MusicTrack)
        requires
            old(stream).wf(),
            track_fixed_len(old(stream).contents(), old(stream).position() as int, BankVersion::V140) matches Some(
                l,
            ) && l <= size && old(stream).position() + size <= old(stream).contents().len(),
        ensures
            final(stream).wf(),
            final(stream).contents() == old(stream).contents(),
            final(stream).position() == old(stream).position() + size,
            track_body_bytes(t) == old(stream).contents().subrange(
                old(stream).position() as int,
                old(stream).position() + size,
            ),
            t.size == size,
            track_ok(t, BankVersion::V140),
    {
        let ghost c = stream.contents();
        let ghost p = stream.position() as int;
        let ghost e = p + size;
        let version = BankVersion::V140;
        let start = stream.tell();
        let hierarchy_id = stream.read_u32();
        let bit_flags = stream.read_u8();
        let num_sources = stream.read_u32();
        let sources = read_sources(stream, version, num_sources);
        let ghost ti = stream.position() as int;
        let num_track_info = stream.read_u32();
        let track_info = read_infos(stream, version, num_track_info);
        let ghost u0 = stream.position() as int;
        let unused_0 = copy_bytes(stream.read(4));
        let num_clips = stream.read_u32();
        proof {
            lemma_clips_len_pos(c, u0 + 8, num_clips as nat);
        }
        let clip_automations = read_clips(stream, num_clips);
        let ghost x = stream.position() as int;
        let unused_1 = copy_bytes(stream.read(5));
        let override_bus_id = stream.read_u32();
        let parent_id = stream.read_u32();
        let ghost m = stream.position() as int;
        let misc = copy_bytes(stream.read(size as usize - (stream.tell() - start)));
        let t = MusicTrack {
            size,
            hierarchy_id,
            sources,
            track_info,
            clip_automations,
            misc,
            body: MusicTrackBody::V140 { bit_flags, unused_0, unused_1, override_bus_id, parent_id },
        };
        proof {
            lemma_u32_bytes(c, p);
            assert(c.subrange(p + 4, p + 5) =~= seq![bit_flags]);
            lemma_u32_bytes(c, p + 5);
            lemma_u32_bytes(c, ti);
            lemma_u32_bytes(c, u0 + 4);
            lemma_u32_bytes(c, x + 5);
            lemma_u32_bytes(c, x + 9);
            let q = p + 9;
            lemma_split(c, q, ti, ti + 4);
            lemma_split(c, q, ti + 4, u0);
            lemma_split(c, q, u0, u0 + 4);
            lemma_split(c, q, u0 + 4, u0 + 8);
            lemma_split(c, q, u0 + 8, x);
            lemma_split(c, q, x, x + 5);
            lemma_split(c, q, x + 5, x + 9);
            lemma_split(c, q, x + 9, m);
            lemma_split(c, q, m, e);
            assert(track_payload(t) == c.subrange(q, e));
            lemma_split(c, p, p + 4, p + 5);
            lemma_split(c, p, p + 5, q);
            lemma_split(c, p, q, e);
        }
        t
    }

    /// Reads a V154 track's body.
    #[verifier::rlimit(60)]
    fn read_v154(stream: &mut MemoryStream, size: u32) -> (t: MusicTrack)
        requires
            old(stream).wf(),
            track_fixed_len(old(stream).contents(), old(stream).position() as int, BankVersion::V154) matches Some(
                l,
            ) && l <= size && old(stream).position() + size <= old(stream).contents().len(),
        ensures
            final(stream).wf(),
            final(stream).contents() == old(stream).contents(),
            final(stream).position() == old(stream).position() + size,
            track_body_bytes(t) == track_cleared(
                old(stream).contents(),
                old(stream).position() as int,
                BankVersion::V154,
            ).subrange(old(stream).position() as int, old(stream).position() + size),
            t.size == size,
            track_ok(t, BankVersion::V154),
    {
        let ghost c = stream.contents();
        let ghost p = stream.position() as int;
        let ghost e = p + size;
        let version = BankVersion::V154;
        let start = stream.tell();
        let hierarchy_id = stream.read_u32();
        let num_sources = stream.read_u32();
        let sources = read_sources(stream, version, num_sources);
        let ghost b = stream.position() as int;
        let bit_flags = stream.read_u8();
        let num_track_info = stream.read_u32();
        let track_info = read_infos(stream, version, num_track_info);
        let ghost u = stream.position() as int;
        let unk1 = if num_track_info > 0 {
            copy_bytes(stream.read(4))
        } else {
            Vec::new()
        };
        let ghost k = stream.position() as int;
        let num_clips = stream.read_u32();
        proof {
            lemma_clips_len_pos(c, k + 4, num_clips as nat);
        }
        let clip_automations = read_clips(stream, num_clips);
        let ghost bp = stream.position() as int;
        assert(bp == track_base_at(c, p));
        let base_param = BaseParam::read(stream, version);
        let ghost ebp = stream.position() as int;
        let track_type = stream.read_u8();
        let ghost m = stream.position() as int;
        let misc = copy_bytes(stream.read(size as usize - (stream.tell() - start)));
        let t = MusicTrack {
            size,
            hierarchy_id,
            sources,
            track_info,
            clip_automations,
            misc,
            body: MusicTrackBody::V154 { bit_flags, unk1, base_param, track_type },
        };
        proof {
            let d = track_cleared(c, p, version);
            assert(d.len() == c.len());
            assert(d.subrange(p, bp) =~= c.subrange(p, bp));
            assert(d.subrange(ebp, e) =~= c.subrange(ebp, e));
            lemma_u32_bytes(c, p);
            lemma_u32_bytes(c, p + 4);
            assert(c.subrange(b, b + 1) =~= seq![bit_flags]);
            lemma_u32_bytes(c, b + 1);
            if num_track_info == 0 {
                assert(c.subrange(u, k) =~= Seq::<u8>::empty());
            }
            lemma_u32_bytes(c, k);
            assert(c.subrange(ebp, m) =~= seq![track_type]);
            let q = p + 8;
            lemma_split(c, q, b, b + 1);
            lemma_split(c, q, b + 1, b + 5);
            lemma_split(c, q, b + 5, u);
            lemma_split(c, q, u, k);
            lemma_split(c, q, k, k + 4);
            lemma_split(c, q, k + 4, bp);
            lemma_split(c, ebp, m, e);
            assert(d.subrange(q, bp) == c.subrange(q, bp)) by {
                assert(d.subrange(q, bp) =~= c.subrange(q, bp));
            }
            lemma_split(d, q, bp, ebp);
            lemma_split(d, q, ebp, e);
            assert(track_payload(t) == d.subrange(q, e));
            lemma_split(c, p, p + 4, q);
            lemma_split(d, p, q, e);
        }
        t
    }

    /// Reads a track's body; its type and size were read before. The size
    /// must cover the track's fields; what is left of it are raw bytes kept
    /// as they are.
    pub fn read(stream: &mut MemoryStream, size: u32, version: BankVersion) -> (t: MusicTrack)
        requires
            old(stream).wf(),
            track_fixed_len(old(stream).contents(), old(stream).position() as int, version) matches Some(l) && l
                <= size && old(stream).position() + size <= old(stream).contents().len(),
        ensures
            final(stream).wf(),
            final(stream).contents() == old(stream).contents(),
            final(stream).position() == old(stream).position() + size,
            track_body_bytes(t) == track_cleared(old(stream).contents(), old(stream).position() as int, version).subrange(
                old(stream).position() as int,
                old(stream).position() + size,
            ),
            t.size == size,
            track_ok(t, version),
    {
        match version {
            BankVersion::V140 => Self::read_v140(stream, size),
            BankVersion::V154 => Self::read_v154(stream, size),
        }
    }
}


/// The first of `os` that `t` is matched with.
fn find_match(t: &TrackInfoStruct, os: &Vec<TrackInfoStruct>) -> (r: Option<TrackInfoStruct>)
    ensures
        r == first_match(*t, os@, 0),
{
    let mut j: usize = 0;
    while j < os.len()
        invariant
            j <= os@.len(),
            first_match(*t, os@, 0) == first_match(*t, os@, j as int),
        decreases os@.len() - j,
    {
        let o = os[j];
        if (t.source_id != 0 && t.source_id == o.source_id) || (t.event_id != 0 && t.event_id == o.event_id) {
            return Some(o);
        }
        j = j + 1;
    }
    None
}

impl MusicTrack {
    /// The entry bytes, with the size the track's payload gives.
    pub fn get_data(&self) -> (out: Vec<u8>)
        requires
            track_size(*self) <= u32::MAX,
        ensures
            out@ == track_bytes(*self),
    {
        let source_data = sources_data(&self.sources);
        let info_data = infos_data(&self.track_info);
        let clip_data = clips_data(&self.clip_automations);
        let mut payload: Vec<u8> = Vec::new();
        let mut out: Vec<u8> = Vec::new();
        match &self.body {
            MusicTrackBody::V140 { bit_flags, unused_0, unused_1, override_bus_id, parent_id } => {
                extend_bytes(&mut payload, source_data.as_slice());
                extend_u32(&mut payload, self.track_info.len() as u32);
                extend_bytes(&mut payload, info_data.as_slice());
                extend_bytes(&mut payload, unused_0.as_slice());
                extend_u32(&mut payload, self.clip_automations.len() as u32);
                extend_bytes(&mut payload, clip_data.as_slice());
                extend_bytes(&mut payload, unused_1.as_slice());
                extend_u32(&mut payload, *override_bus_id);
                extend_u32(&mut payload, *parent_id);
                extend_bytes(&mut payload, self.misc.as_slice());
                assert(payload@ =~= track_payload(*self));
                let size = 9 + payload.len() as u32;
                out.push(11u8);
                extend_u32(&mut out, size);
                extend_u32(&mut out, self.hierarchy_id);
                out.push(*bit_flags);
                extend_u32(&mut out, self.sources.len() as u32);
                extend_bytes(&mut out, payload.as_slice());
            },
            MusicTrackBody::V154 { bit_flags, unk1, base_param, track_type } => {
                extend_bytes(&mut payload, source_data.as_slice());
                payload.push(*bit_flags);
                extend_u32(&mut payload, self.track_info.len() as u32);
                extend_bytes(&mut payload, info_data.as_slice());
                if self.track_info.len() > 0 {
                    extend_bytes(&mut payload, unk1.as_slice());
                }
                extend_u32(&mut payload, self.clip_automations.len() as u32);
                extend_bytes(&mut payload, clip_data.as_slice());
                let bp = base_param.get_data();
                extend_bytes(&mut payload, bp.as_slice());
                payload.push(*track_type);
                extend_bytes(&mut payload, self.misc.as_slice());
                assert(payload@ =~= track_payload(*self));
                let size = 8 + payload.len() as u32;
                out.push(11u8);
                extend_u32(&mut out, size);
                extend_u32(&mut out, self.hierarchy_id);
                extend_u32(&mut out, self.sources.len() as u32);
                extend_bytes(&mut out, payload.as_slice());
            },
        }
        assert(out@ =~= track_bytes(*self));
        out
    }

    /// Takes an imported track's parts into this one. A V140 bank takes the
    /// sources, the track infos, the clip automations, the raw tail and the
    /// body's fields but its bus; a V154 bank takes the clip automations and
    /// the parameter block, and gives each track info the first imported one
    /// it is matched with. The size stays.
    pub fn import_entry(&mut self, other: MusicTrack, version: BankVersion)
        ensures
            final(self).size == old(self).size,
            final(self).hierarchy_id == old(self).hierarchy_id,
            final(self).clip_automations == other.clip_automations,
            final(self).body == imported_body(old(self).body, other.body, version),
            version == BankVersion::V140 ==> {
                &&& final(self).sources == other.sources
                &&& final(self).track_info == other.track_info
                &&& final(self).misc == other.misc
            },
            version == BankVersion::V154 ==> {
                &&& final(self).sources == old(self).sources
                &&& final(self).misc == old(self).misc
                &&& final(self).track_info@ == Seq::new(
                    old(self).track_info@.len(),
                    |i: int| merged_info(old(self).track_info@[i], other.track_info@),
                )
            },
    {
        let MusicTrack { sources, track_info, clip_automations, misc, body, .. } = other;
        match version {
            BankVersion::V140 => {
                self.sources = sources;
                self.track_info = track_info;
                self.clip_automations = clip_automations;
                self.misc = misc;
                match body {
                    MusicTrackBody::V140 { bit_flags, unused_0, unused_1, parent_id, .. } => match &mut self.body {
                        MusicTrackBody::V140 {
                            bit_flags: b,
                            unused_0: u0,
                            unused_1: u1,
                            parent_id: pi,
                            ..
                        } => {
                            *b = bit_flags;
                            *u0 = unused_0;
                            *u1 = unused_1;
                            *pi = parent_id;
                        },
                        _ => {},
                    },
                    _ => {},
                }
            },
            BankVersion::V154 => {
                self.clip_automations = clip_automations;
                match body {
                    MusicTrackBody::V154 { base_param, .. } => match &mut self.body {
                        MusicTrackBody::V154 { base_param: bp, .. } => {
                            *bp = base_param;
                        },
                        _ => {},
                    },
                    _ => {},
                }
                let ghost start = self.track_info@;
                let ghost keep = *self;
                let mut i: usize = 0;
                while i < self.track_info.len()
                    invariant
                        self.size == keep.size,
                        self.hierarchy_id == keep.hierarchy_id,
                        self.sources == keep.sources,
                        self.clip_automations == keep.clip_automations,
                        self.misc == keep.misc,
                        self.body == keep.body,
                        i <= self.track_info@.len(),
                        self.track_info@.len() == start.len(),
                        forall|j: int| 0 <= j < i ==> self.track_info@[j] == merged_info(start[j], track_info@),
                        forall|j: int| i <= j < start.len() ==> self.track_info@[j] == start[j],
                    decreases start.len() - i,
                {
                    let mut cur = self.track_info[i];
                    let found = find_match(&cur, &track_info);
                    if let Some(t) = found {
                        cur.import_entry(&t);
                        self.track_info.set(i, cur);
                    }
                    i = i + 1;
                }
                assert(self.track_info@ =~= Seq::new(start.len(), |j: int| merged_info(start[j], track_info@)));
            },
        }
    }
}

} // verus!
