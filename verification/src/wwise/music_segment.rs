//! Music segments: a per-version head (raw spans and a parent id in V140
//! banks, a parameter block in V154 ones), the tracks, meter and stinger
//! spans, the duration and the markers. The duration and the marker
//! positions are raw `f64` bit patterns.

use vstd::prelude::*;
use vstd::bytes::*;
use crate::buf::{copy_bytes, extend_bytes, extend_u32, extend_u64};
use crate::le::{le_u32_at, le_u64_at};
use crate::memstream::MemoryStream;
use crate::wwise::base_param::{
    base_param_bytes, base_param_len, base_param_ok, bypass_cleared, lemma_split, lemma_u32_bytes,
    lemma_u32s_bytes, BaseParam,
};
use crate::wwise::hierarchy::BankVersion;
use crate::wwise::params::u32s_bytes;

verus! {

/// The bytes of a little-endian `u64` at `p` are those of its value.
pub proof fn lemma_u64_bytes(c: Seq<u8>, p: int)
    requires
        0 <= p,
        p + 8 <= c.len(),
    ensures
        spec_u64_to_le_bytes(le_u64_at(c, p)) == c.subrange(p, p + 8),
{
    lemma_auto_spec_u64_to_from_le_bytes();
    assert(c.subrange(p, p + 8).len() == 8);
}

// ---------------------------------------------------------------------------
// Markers.

/// The first zero byte at or after `q`.
pub open spec fn first_nul(c: Seq<u8>, q: int) -> Option<int>
    decreases c.len() - q,
{
    if q < 0 || q >= c.len() {
        None
    } else if c[q] == 0 {
        Some(q)
    } else {
        first_nul(c, q + 1)
    }
}

/// A marker: its id, its position (raw `f64` bits) and its name with the
/// terminating zero byte.
pub struct Marker {
    pub id: u32,
    pub position: u64,
    pub name: Vec<u8>,
}

pub open spec fn marker_bytes(m: Marker) -> Seq<u8> {
    spec_u32_to_le_bytes(m.id) + spec_u64_to_le_bytes(m.position) + m.name@
}

/// How long a marker at `p` is: 12 bytes, then the name up to and with its
/// zero byte.
pub open spec fn marker_len(c: Seq<u8>, p: int) -> Option<int> {
    if p < 0 || p + 12 > c.len() {
        None
    } else {
        match first_nul(c, p + 12) {
            None => None,
            Some(z) => Some(z + 1 - p),
        }
    }
}

proof fn lemma_first_nul(c: Seq<u8>, q: int)
    requires
        first_nul(c, q) is Some,
    ensures
        q <= first_nul(c, q).unwrap() < c.len(),
        c[first_nul(c, q).unwrap()] == 0,
    decreases c.len() - q,
{
    if c[q] != 0 {
        lemma_first_nul(c, q + 1);
    }
}

impl Marker {
    pub fn read(stream: &mut MemoryStream) -> (m: Marker)
        requires
            old(stream).wf(),
            marker_len(old(stream).contents(), old(stream).position() as int) is Some,
        ensures
            final(stream).wf(),
            final(stream).contents() == old(stream).contents(),
            ({
                let c = old(stream).contents();
                let p = old(stream).position() as int;
                let e = p + marker_len(c, p).unwrap();
                &&& final(stream).position() == e
                &&& marker_bytes(m) == c.subrange(p, e)
            }),
    {
        let ghost c = stream.contents();
        let ghost p = stream.position() as int;
        let ghost z = first_nul(c, p + 12).unwrap();
        proof {
            lemma_first_nul(c, p + 12);
        }
        let id = stream.read_u32();
        let position = stream.read_u64();
        let mut name: Vec<u8> = Vec::new();
        loop
            invariant_except_break
                stream.wf(),
                stream.contents() == c,
                0 <= p,
                p + 12 <= stream.position() <= z < c.len(),
                first_nul(c, stream.position() as int) == Some(z),
                name@ == c.subrange(p + 12, stream.position() as int),
            ensures
                stream.wf(),
                stream.contents() == c,
                stream.position() == z + 1,
                name@ == c.subrange(p + 12, z + 1),
            decreases z - stream.position(),
        {
            let ghost at = stream.position() as int;
            let b = stream.read_u8();
            let ghost before = name@;
            name.push(b);
            assert(c.subrange(at, at + 1) =~= seq![b]);
            proof {
                lemma_split(c, p + 12, at, at + 1);
            }
            if b == 0 {
                break;
            }
            proof {
                assert(first_nul(c, at + 1) == Some(z));
                lemma_first_nul(c, at + 1);
            }
        }
        proof {
            lemma_u32_bytes(c, p);
            lemma_u64_bytes(c, p + 4);
            lemma_split(c, p, p + 4, p + 12);
            lemma_split(c, p, p + 12, z + 1);
        }
        Marker { id, position, name }
    }

    pub fn get_data(&self) -> (out: Vec<u8>)
        ensures
            out@ == marker_bytes(*self),
    {
        let mut out: Vec<u8> = Vec::new();
        extend_u32(&mut out, self.id);
        extend_u64(&mut out, self.position);
        extend_bytes(&mut out, self.name.as_slice());
        assert(out@ =~= marker_bytes(*self));
        out
    }
}

pub open spec fn markers_bytes(ms: Seq<Marker>) -> Seq<u8>
    decreases ms.len(),
{
    if ms.len() == 0 {
        Seq::empty()
    } else {
        markers_bytes(ms.drop_last()) + marker_bytes(ms.last())
    }
}

/// How long `n` markers from `p` are.
pub open spec fn markers_len(c: Seq<u8>, p: int, n: nat) -> Option<int>
    decreases n,
{
    if n == 0 {
        Some(0)
    } else {
        match marker_len(c, p) {
            None => None,
            Some(l) => match markers_len(c, p + l, (n - 1) as nat) {
                None => None,
                Some(r) => Some(l + r),
            },
        }
    }
}

proof fn lemma_markers_len_pos(c: Seq<u8>, p: int, n: nat)
    requires
        markers_len(c, p, n) is Some,
    ensures
        markers_len(c, p, n).unwrap() >= 0,
    decreases n,
{
    if n > 0 {
        let l = marker_len(c, p).unwrap();
        lemma_first_nul(c, p + 12);
        lemma_markers_len_pos(c, p + l, (n - 1) as nat);
    }
}

/// Reads `n` markers.
fn read_markers(stream: &mut MemoryStream, n: u32) -> (ms: Vec<Marker>)
    requires
        old(stream).wf(),
        markers_len(old(stream).contents(), old(stream).position() as int, n as nat) matches Some(r)
            && old(stream).position() + r <= old(stream).contents().len(),
    ensures
        final(stream).wf(),
        final(stream).contents() == old(stream).contents(),
        ({
            let c = old(stream).contents();
            let q = old(stream).position() as int;
            let e = q + markers_len(c, q, n as nat).unwrap();
            &&& final(stream).position() == e
            &&& ms@.len() == n
            &&& markers_bytes(ms@) == c.subrange(q, e)
        }),
{
    let ghost c = stream.contents();
    let ghost q = stream.position() as int;
    let ghost e = q + markers_len(c, q, n as nat).unwrap();
    proof {
        lemma_markers_len_pos(c, q, n as nat);
    }
    let mut ms: Vec<Marker> = Vec::new();
    let mut k: u32 = 0;
    assert(markers_bytes(ms@) =~= c.subrange(q, q));
    while k < n
        invariant
            k <= n,
            0 <= q,
            stream.wf(),
            stream.contents() == c,
            q <= stream.position() <= e <= c.len(),
            markers_len(c, stream.position() as int, (n - k) as nat) matches Some(r) && stream.position() + r == e,
            ms@.len() == k,
            markers_bytes(ms@) == c.subrange(q, stream.position() as int),
        decreases n - k,
    {
        let ghost at = stream.position() as int;
        let ghost l = marker_len(c, at).unwrap();
        proof {
            let m = (n - k) as nat;
            assert(markers_len(c, at, m) == match markers_len(c, at + l, (m - 1) as nat) {
                None => None,
                Some(r) => Some(l + r),
            });
            lemma_markers_len_pos(c, at + l, (m - 1) as nat);
            lemma_first_nul(c, at + 12);
        }
        let mk = Marker::read(stream);
        proof {
            lemma_split(c, q, at, at + l);
        }
        let ghost before = ms@;
        ms.push(mk);
        assert(ms@.drop_last() =~= before);
        k = k + 1;
    }
    ms
}


// ---------------------------------------------------------------------------
// Raw spans whose length the data gives.

/// Reads a property span: a count `n`, then `5n` bytes, kept raw.
fn read_prop_skip_1(stream: &mut MemoryStream) -> (out: Vec<u8>)
    requires
        old(stream).wf(),
        old(stream).position() + 1 <= old(stream).contents().len(),
        old(stream).position() + 1 + 5 * old(stream).contents()[old(stream).position() as int]
            <= old(stream).contents().len(),
    ensures
        final(stream).wf(),
        final(stream).contents() == old(stream).contents(),
        ({
            let c = old(stream).contents();
            let p = old(stream).position() as int;
            let e = p + 1 + 5 * c[p];
            &&& final(stream).position() == e
            &&& out@ == c.subrange(p, e)
        }),
{
    let at = stream.tell();
    let n = stream.read_u8();
    stream.seek(at);
    copy_bytes(stream.read(5 * n as usize + 1))
}

/// Reads the second property span: a count `n`, then `5n + 16` bytes, kept
/// raw.
fn read_prop_skip_2(stream: &mut MemoryStream) -> (out: Vec<u8>)
    requires
        old(stream).wf(),
        old(stream).position() + 1 <= old(stream).contents().len(),
        old(stream).position() + 17 + 5 * old(stream).contents()[old(stream).position() as int]
            <= old(stream).contents().len(),
    ensures
        final(stream).wf(),
        final(stream).contents() == old(stream).contents(),
        ({
            let c = old(stream).contents();
            let p = old(stream).position() as int;
            let e = p + 17 + 5 * c[p];
            &&& final(stream).position() == e
            &&& out@ == c.subrange(p, e)
        }),
{
    let at = stream.tell();
    let n = stream.read_u8();
    stream.seek(at);
    copy_bytes(stream.read(5 * n as usize + 1 + 12 + 4))
}

/// Reads the stingers: a `u32` count `n`, then `24n` bytes, kept raw.
fn read_stingers(stream: &mut MemoryStream) -> (out: Vec<u8>)
    requires
        old(stream).wf(),
        old(stream).position() + 4 <= old(stream).contents().len(),
        old(stream).position() + 4 + 24 * le_u32_at(old(stream).contents(), old(stream).position() as int)
            <= old(stream).contents().len(),
    ensures
        final(stream).wf(),
        final(stream).contents() == old(stream).contents(),
        ({
            let c = old(stream).contents();
            let p = old(stream).position() as int;
            let e = p + 4 + 24 * le_u32_at(c, p);
            &&& final(stream).position() == e
            &&& out@ == c.subrange(p, e)
        }),
{
    let at = stream.tell();
    let n = stream.read_u32();
    stream.seek(at);
    copy_bytes(stream.read(24 * n as usize + 4))
}

/// Reads `n` little-endian `u32` values.
fn read_u32s(stream: &mut MemoryStream, n: u32) -> (v: Vec<u32>)
    requires
        old(stream).wf(),
        old(stream).position() + 4 * n <= old(stream).contents().len(),
    ensures
        final(stream).wf(),
        final(stream).contents() == old(stream).contents(),
        final(stream).position() == old(stream).position() + 4 * n,
        v@ == Seq::new(
            n as nat,
            |i: int| le_u32_at(old(stream).contents(), old(stream).position() + 4 * i),
        ),
{
    let ghost c = stream.contents();
    let ghost q = stream.position() as int;
    let mut v: Vec<u32> = Vec::new();
    let mut k: u32 = 0;
    while k < n
        invariant
            k <= n,
            stream.wf(),
            stream.contents() == c,
            q + 4 * n <= c.len(),
            stream.position() == q + 4 * k,
            v@ == Seq::new(k as nat, |i: int| le_u32_at(c, q + 4 * i)),
        decreases n - k,
    {
        let x = stream.read_u32();
        v.push(x);
        k = k + 1;
        assert(v@ =~= Seq::new(k as nat, |i: int| le_u32_at(c, q + 4 * i)));
    }
    v
}

// ---------------------------------------------------------------------------
// Segments.

/// The per-version head of a segment.
pub enum MusicSegmentHead {
    V140 {
        unused_0: Vec<u8>,
        parent_id: u32,
        unused_1: Vec<u8>,
        prop_skip_1: Vec<u8>,
        prop_skip_2: Vec<u8>,
    },
    V154 { bit_flags: u8, base_param: BaseParam },
}

pub open spec fn head_bytes(h: MusicSegmentHead) -> Seq<u8> {
    match h {
        MusicSegmentHead::V140 { unused_0, parent_id, unused_1, prop_skip_1, prop_skip_2 } => unused_0@
            + spec_u32_to_le_bytes(parent_id) + unused_1@ + prop_skip_1@ + prop_skip_2@,
        MusicSegmentHead::V154 { bit_flags, base_param } => seq![bit_flags] + base_param_bytes(base_param),
    }
}

/// The head is of `version`'s shape.
pub open spec fn head_ok(h: MusicSegmentHead, version: BankVersion) -> bool {
    match h {
        MusicSegmentHead::V140 { .. } => version == BankVersion::V140,
        MusicSegmentHead::V154 { base_param, .. } => version == BankVersion::V154 && base_param.version == version
            && base_param_ok(base_param),
    }
}

/// How long a segment head at `q` is.
pub open spec fn head_len(c: Seq<u8>, q: int, version: BankVersion) -> Option<int> {
    match version {
        BankVersion::V140 => {
            let x = q + 15;
            if q < 0 || x + 1 > c.len() {
                None
            } else {
                let y = x + 1 + 5 * c[x];
                if y + 1 > c.len() {
                    None
                } else {
                    Some(15 + 1 + 5 * c[x] + 17 + 5 * c[y])
                }
            }
        },
        BankVersion::V154 => match base_param_len(c, q + 1, version) {
            None => None,
            Some(bl) => Some(1 + bl),
        },
    }
}

/// How long a segment's body at `p` is.
pub open spec fn segment_len(c: Seq<u8>, p: int, version: BankVersion) -> Option<int> {
    if p < 0 || p + 4 > c.len() {
        None
    } else {
        match head_len(c, p + 4, version) {
            None => None,
            Some(h) => {
                let t = p + 4 + h;
                if t + 4 > c.len() {
                    None
                } else {
                    let mi = t + 4 + 4 * le_u32_at(c, t);
                    if mi + 27 > c.len() {
                        None
                    } else {
                        let du = mi + 27 + 24 * le_u32_at(c, mi + 23);
                        if du + 12 > c.len() {
                            None
                        } else {
                            match markers_len(c, du + 12, le_u32_at(c, du + 8) as nat) {
                                None => None,
                                Some(ml) => Some(du + 12 + ml - p),
                            }
                        }
                    }
                }
            }
        }
    }
}

/// The source bytes as a segment of `version` at `p` writes them back: a
/// V154 segment's parameter block clears its bypass byte.
pub open spec fn segment_cleared(c: Seq<u8>, p: int, version: BankVersion) -> Seq<u8> {
    match version {
        BankVersion::V140 => c,
        BankVersion::V154 => bypass_cleared(c, p + 5, version),
    }
}

/// A music segment.
pub struct MusicSegment {
    pub size: u32,
    pub hierarchy_id: u32,
    pub head: MusicSegmentHead,
    pub tracks: Vec<u32>,
    pub meter_info: Vec<u8>,
    pub stingers: Vec<u8>,
    pub duration: u64,
    pub markers: Vec<Marker>,
}

/// A segment's body: id, head, tracks, meter and stinger spans, duration
/// and markers.
pub open spec fn segment_body_bytes(s: MusicSegment) -> Seq<u8> {
    spec_u32_to_le_bytes(s.hierarchy_id) + head_bytes(s.head) + spec_u32_to_le_bytes(s.tracks@.len() as u32)
        + u32s_bytes(s.tracks@) + s.meter_info@ + s.stingers@ + spec_u64_to_le_bytes(s.duration)
        + spec_u32_to_le_bytes(s.markers@.len() as u32) + markers_bytes(s.markers@)
}

/// A segment's entry bytes: its type (10), its size, then its body.
pub open spec fn segment_bytes(s: MusicSegment) -> Seq<u8> {
    seq![10u8] + spec_u32_to_le_bytes(s.size) + segment_body_bytes(s)
}

/// A segment with an imported one's parts taken in: the tracks, the
/// duration and the markers; in V140 banks also the meter and stinger spans
/// and, when both heads are V140 heads, the head.
pub open spec fn imported_segment(s: MusicSegment, o: MusicSegment, version: BankVersion) -> MusicSegment {
    let v140 = version == BankVersion::V140;
    MusicSegment {
        tracks: o.tracks,
        duration: o.duration,
        markers: o.markers,
        meter_info: if v140 { o.meter_info } else { s.meter_info },
        stingers: if v140 { o.stingers } else { s.stingers },
        head: if v140 && s.head is V140 && o.head is V140 { o.head } else { s.head },
        ..s
    }
}

/// Reads a segment head of `version`.
fn read_head(stream: &mut MemoryStream, version: BankVersion) -> (h: MusicSegmentHead)
    requires
        old(stream).wf(),
        head_len(old(stream).contents(), old(stream).position() as int, version) matches Some(l)
            && old(stream).position() + l <= old(stream).contents().len(),
    ensures
        final(stream).wf(),
        final(stream).contents() == old(stream).contents(),
        ({
            let c = old(stream).contents();
            let q = old(stream).position() as int;
            let e = q + head_len(c, q, version).unwrap();
            let d = match version {
                BankVersion::V140 => c,
                BankVersion::V154 => bypass_cleared(c, q + 1, version),
            };
            &&& q + 5 <= e == final(stream).position()
            &&& head_bytes(h) == d.subrange(q, e)
        }),
        head_ok(h, version),
{
    let ghost c = stream.contents();
    let ghost q = stream.position() as int;
    match version {
        BankVersion::V140 => {
            let unused_0 = copy_bytes(stream.read(10));
            let parent_id = stream.read_u32();
            let unused_1 = copy_bytes(stream.read(1));
            let ghost x = stream.position() as int;
            let prop_skip_1 = read_prop_skip_1(stream);
            let ghost y = stream.position() as int;
            let prop_skip_2 = read_prop_skip_2(stream);
            let ghost e = stream.position() as int;
            proof {
                lemma_u32_bytes(c, q + 10);
                lemma_split(c, q, q + 10, q + 14);
                lemma_split(c, q, q + 14, x);
                lemma_split(c, q, x, y);
                lemma_split(c, q, y, e);
            }
            MusicSegmentHead::V140 { unused_0, parent_id, unused_1, prop_skip_1, prop_skip_2 }
        },
        BankVersion::V154 => {
            let bit_flags = stream.read_u8();
            let base_param = BaseParam::read(stream, version);
            proof {
                let e = stream.position() as int;
                let d = bypass_cleared(c, q + 1, version);
                assert(d.len() == c.len());
                assert(d.subrange(q, q + 1) =~= seq![bit_flags]);
                lemma_split(d, q, q + 1, e);
            }
            MusicSegmentHead::V154 { bit_flags, base_param }
        },
    }
}


impl MusicSegment {
    /// Reads a segment's body; its type and size were read before.
    #[verifier::rlimit(30)]
    pub fn read(stream: &mut MemoryStream, size: u32, version: BankVersion) -> (s: MusicSegment)
        requires
            old(stream).wf(),
            segment_len(old(stream).contents(), old(stream).position() as int, version) matches Some(l)
                && old(stream).position() + l <= old(stream).contents().len(),
        ensures
            final(stream).wf(),
            final(stream).contents() == old(stream).contents(),
            ({
                let c = old(stream).contents();
                let p = old(stream).position() as int;
                let e = p + segment_len(c, p, version).unwrap();
                &&& final(stream).position() == e
                &&& segment_body_bytes(s) == segment_cleared(c, p, version).subrange(p, e)
            }),
            s.size == size,
            head_ok(s.head, version),
    {
        let ghost c = stream.contents();
        let ghost p = stream.position() as int;
        let ghost e = p + segment_len(c, p, version).unwrap();
        let hierarchy_id = stream.read_u32();
        let head = read_head(stream, version);
        let ghost t = stream.position() as int;
        let num_tracks = stream.read_u32();
        let tracks = read_u32s(stream, num_tracks);
        let ghost mi = stream.position() as int;
        let meter_info = copy_bytes(stream.read(23));
        let stingers = read_stingers(stream);
        let ghost du = stream.position() as int;
        let duration = stream.read_u64();
        let num_markers = stream.read_u32();
        proof {
            lemma_markers_len_pos(c, du + 12, num_markers as nat);
        }
        let markers = read_markers(stream, num_markers);
        let s = MusicSegment { size, hierarchy_id, head, tracks, meter_info, stingers, duration, markers };
        proof {
            let d = segment_cleared(c, p, version);
            assert(d.len() == c.len());
            assert(d.subrange(p, p + 4) =~= c.subrange(p, p + 4));
            assert(d.subrange(t, e) =~= c.subrange(t, e));
            lemma_u32_bytes(c, p);
            lemma_u32_bytes(c, t);
            lemma_u32s_bytes(c, t + 4, num_tracks as nat);
            lemma_u64_bytes(c, du);
            lemma_u32_bytes(c, du + 8);
            lemma_split(c, t, t + 4, t + 4 + 4 * num_tracks);
            lemma_split(c, t, mi, mi + 23);
            lemma_split(c, t, mi + 23, du);
            lemma_split(c, t, du, du + 8);
            lemma_split(c, t, du + 8, du + 12);
            lemma_split(c, t, du + 12, e);
            lemma_split(d, p, p + 4, t);
            lemma_split(d, p, t, e);
        }
        s
    }

    /// The body: id, head, tracks, meter and stinger spans, duration, then
    /// the markers.
    fn body(&self) -> (out: Vec<u8>)
        ensures
            out@ == segment_body_bytes(*self),
    {
        let mut out: Vec<u8> = Vec::new();
        extend_u32(&mut out, self.hierarchy_id);
        match &self.head {
            MusicSegmentHead::V140 { unused_0, parent_id, unused_1, prop_skip_1, prop_skip_2 } => {
                extend_bytes(&mut out, unused_0.as_slice());
                extend_u32(&mut out, *parent_id);
                extend_bytes(&mut out, unused_1.as_slice());
                extend_bytes(&mut out, prop_skip_1.as_slice());
                extend_bytes(&mut out, prop_skip_2.as_slice());
            },
            MusicSegmentHead::V154 { bit_flags, base_param } => {
                out.push(*bit_flags);
                let bp = base_param.get_data();
                extend_bytes(&mut out, bp.as_slice());
            },
        }
        let ghost h = out@;
        assert(h =~= spec_u32_to_le_bytes(self.hierarchy_id) + head_bytes(self.head));
        extend_u32(&mut out, self.tracks.len() as u32);
        let ghost h1 = out@;
        let mut k: usize = 0;
        while k < self.tracks.len()
            invariant
                k <= self.tracks@.len(),
                out@ == h1 + u32s_bytes(self.tracks@.take(k as int)),
            decreases self.tracks@.len() - k,
        {
            extend_u32(&mut out, self.tracks[k]);
            assert(self.tracks@.take(k + 1).drop_last() =~= self.tracks@.take(k as int));
            k = k + 1;
            assert(out@ =~= h1 + u32s_bytes(self.tracks@.take(k as int)));
        }
        assert(self.tracks@.take(self.tracks@.len() as int) =~= self.tracks@);
        extend_bytes(&mut out, self.meter_info.as_slice());
        extend_bytes(&mut out, self.stingers.as_slice());
        extend_u64(&mut out, self.duration);
        extend_u32(&mut out, self.markers.len() as u32);
        let ghost h2 = out@;
        let mut k: usize = 0;
        while k < self.markers.len()
            invariant
                k <= self.markers@.len(),
                out@ == h2 + markers_bytes(self.markers@.take(k as int)),
            decreases self.markers@.len() - k,
        {
            let b = self.markers[k].get_data();
            extend_bytes(&mut out, b.as_slice());
            assert(self.markers@.take(k + 1).drop_last() =~= self.markers@.take(k as int));
            k = k + 1;
            assert(out@ =~= h2 + markers_bytes(self.markers@.take(k as int)));
        }
        assert(self.markers@.take(self.markers@.len() as int) =~= self.markers@);
        assert(out@ =~= segment_body_bytes(*self));
        out
    }

    /// The entry bytes: type, the size field as it stands, then the body.
    pub fn get_data(&self) -> (out: Vec<u8>)
        ensures
            out@ == segment_bytes(*self),
    {
        let body = self.body();
        let mut out: Vec<u8> = Vec::new();
        out.push(10u8);
        extend_u32(&mut out, self.size);
        extend_bytes(&mut out, body.as_slice());
        assert(out@ =~= segment_bytes(*self));
        out
    }

    /// Takes an imported segment's parts into this one (see
    /// `imported_segment`); the size becomes that of the new body.
    pub fn import_entry(&mut self, other: MusicSegment, version: BankVersion)
        requires
            segment_body_bytes(imported_segment(*old(self), other, version)).len() + 5 <= u32::MAX,
        ensures
            *final(self) == (MusicSegment {
                size: segment_body_bytes(imported_segment(*old(self), other, version)).len() as u32,
                ..imported_segment(*old(self), other, version)
            }),
    {
        let ghost target = imported_segment(*self, other, version);
        let MusicSegment { head, tracks, meter_info, stingers, duration, markers, .. } = other;
        self.tracks = tracks;
        self.duration = duration;
        self.markers = markers;
        if version == BankVersion::V140 {
            self.meter_info = meter_info;
            self.stingers = stingers;
            let both_v140 = match (&self.head, &head) {
                (MusicSegmentHead::V140 { .. }, MusicSegmentHead::V140 { .. }) => true,
                _ => false,
            };
            if both_v140 {
                self.head = head;
            }
        }
        assert(*self == MusicSegment { size: self.size, ..target });
        assert(segment_body_bytes(*self) == segment_body_bytes(target));
        proof {
            lemma_auto_spec_u32_to_from_le_bytes();
        }
        let total = self.get_data().len();
        assert(total == 5 + segment_body_bytes(target).len());
        self.size = total as u32 - 5;
    }
}

} // verus!
