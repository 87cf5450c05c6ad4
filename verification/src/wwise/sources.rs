//! Audio sources, streamed audio, bank dependencies and videos.

use vstd::prelude::*;
use vstd::bytes::*;
use vstd::utf8::*;
use vstd::string::*;
use crate::buf::{extend_bytes, extend_u32};
use crate::le::le_u32_at;
use crate::memstream::MemoryStream;
use crate::text::{concat2, decimal, u64_to_decimal};

verus! {

/// `stream_type` of a source embedded in its bank.
pub const STREAM_TYPE_BANK: u32 = 0;
/// `stream_type` of a prefetched source.
pub const STREAM_TYPE_PREFETCH: u32 = 1;
/// `stream_type` of a source kept in the stream sidecar.
pub const STREAM_TYPE_STREAM: u32 = 2;

/// The characters that `String::from_utf8_lossy` makes of `bytes`.
pub uninterp spec fn lossy_utf8(bytes: Seq<u8>) -> Seq<char>;

/// `String::from_utf8_lossy`: decodes `bytes` as UTF-8, with U+FFFD in place
/// of each invalid sequence. Its documentation says that valid UTF-8 is
/// decoded as such; what an invalid sequence gives is left to the name.
#[verifier::external_body]
pub(crate) fn lossy_string(bytes: &[u8]) -> (s: String)
    ensures
        s@ == lossy_utf8(bytes@),
        valid_utf8(bytes@) ==> s@ == decode_utf8(bytes@),
{
    String::from_utf8_lossy(bytes).into_owned()
}

/// An audio payload and where it lives.
#[derive(Debug, Clone)]
pub struct AudioSource {
    pub data: Vec<u8>,
    pub resource_id: u64,
    pub short_id: u32,
    pub modified: bool,
    pub data_old: Vec<u8>,
    pub stream_type: u32,
}

impl Default for AudioSource {
    /// An empty, unmodified, banked source with zero ids.
    fn default() -> (a: Self)
        ensures
            a.data@ == Seq::<u8>::empty(),
            a.resource_id == 0,
            a.short_id == 0,
            !a.modified,
            a.data_old@ == Seq::<u8>::empty(),
            a.stream_type == 0,
    {
        AudioSource {
            data: Vec::new(),
            resource_id: 0,
            short_id: 0,
            modified: false,
            data_old: Vec::new(),
            stream_type: 0,
        }
    }
}

impl AudioSource {
    /// The source's key: banked sources by their short id, the others by
    /// their resource id.
    pub open spec fn spec_id(&self) -> u64 {
        if self.stream_type == STREAM_TYPE_BANK {
            self.short_id as u64
        } else {
            self.resource_id
        }
    }

    pub fn id(&self) -> (id: u64)
        ensures
            id == self.spec_id(),
    {
        if self.stream_type == STREAM_TYPE_BANK {
            self.short_id as u64
        } else {
            self.resource_id
        }
    }

    pub fn get_data(&self) -> (d: &[u8])
        ensures
            d@ == self.data@,
    {
        self.data.as_slice()
    }

    /// Replaces the payload. When this is the first modification, the
    /// payload it replaces is kept as the old one.
    pub fn set_data(&mut self, data: Vec<u8>, set_modified: bool)
        ensures
            final(self).data@ == data@,
            final(self).data_old@ == (if !old(self).modified && set_modified {
                old(self).data@
            } else {
                old(self).data_old@
            }),
            final(self).modified == (old(self).modified || set_modified),
            final(self).resource_id == old(self).resource_id,
            final(self).short_id == old(self).short_id,
            final(self).stream_type == old(self).stream_type,
    {
        let mut data = data;
        if !self.modified && set_modified {
            std::mem::swap(&mut self.data, &mut data);
            self.data_old = data;
        } else {
            self.data = data;
        }
        if set_modified {
            self.modified = true;
        }
    }
}

/// A bank's dependency record: the display name of its `.bnk`.
#[derive(Debug, Clone)]
pub struct WwiseDep {
    pub tag: u32,
    pub data: String,
    /// A made-up default that never appeared on disk; it is never written.
    pub skip: bool,
    pub file_id: u64,
}

impl WwiseDep {
    /// A copy of the record.
    pub fn duplicate(&self) -> (r: WwiseDep)
        ensures
            r.tag == self.tag,
            r.data@ == self.data@,
            r.skip == self.skip,
            r.file_id == self.file_id,
    {
        WwiseDep { tag: self.tag, data: self.data.clone(), skip: self.skip, file_id: self.file_id }
    }

    /// The default dependency of a bank that has none on disk: named
    /// `Bank <bank_id>`, tag 0, and never written.
    pub fn synthesized(file_id: u64, bank_id: u64) -> (d: WwiseDep)
        ensures
            d.tag == 0,
            d.data@ == "Bank "@ + decimal(bank_id as nat),
            d.skip,
            d.file_id == file_id,
    {
        let n = u64_to_decimal(bank_id);
        WwiseDep { tag: 0, data: concat2("Bank ", n.as_str()), skip: true, file_id }
    }

    /// Reads a record (tag, byte length, name) at the stream's cursor.
    pub fn read(stream: &mut MemoryStream, file_id: u64) -> (d: WwiseDep)
        requires
            old(stream).wf(),
            old(stream).position() + 8 <= old(stream).contents().len(),
            old(stream).position() + 8 + le_u32_at(old(stream).contents(), old(stream).position() + 4int)
                <= old(stream).contents().len(),
        ensures
            final(stream).wf(),
            final(stream).contents() == old(stream).contents(),
            ({
                let c = old(stream).contents();
                let p = old(stream).position() as int;
                let n = le_u32_at(c, p + 4) as int;
                &&& d.tag == le_u32_at(c, p)
                &&& d.data@ == lossy_utf8(c.subrange(p + 8, p + 8 + n))
                &&& valid_utf8(c.subrange(p + 8, p + 8 + n)) ==> d.data@ == decode_utf8(c.subrange(p + 8, p + 8 + n))
                &&& !d.skip
                &&& d.file_id == file_id
                &&& final(stream).position() == p + 8 + n
            }),
    {
        let tag = stream.read_u32();
        let data_size = stream.read_u32();
        let bytes = stream.read(data_size as usize);
        let data = lossy_string(bytes);
        WwiseDep { tag, data, skip: false, file_id }
    }

    /// The record's bytes: tag, UTF-8 length, UTF-8 name.
    pub fn get_data(&self) -> (out: Vec<u8>)
        ensures
            out@ == dep_record(self.tag, self.data@),
    {
        let bytes = self.data.as_str().as_bytes();
        let mut out: Vec<u8> = Vec::new();
        extend_u32(&mut out, self.tag);
        extend_u32(&mut out, bytes.len() as u32);
        extend_bytes(&mut out, bytes);
        out
    }
}

/// A dependency record's bytes: the tag, the name's UTF-8 length, the name
/// in UTF-8.
pub open spec fn dep_record(tag: u32, name: Seq<char>) -> Seq<u8> {
    spec_u32_to_le_bytes(tag) + spec_u32_to_le_bytes(encode_utf8(name).len() as u32) + encode_utf8(name)
}

/// Writing back a dependency record read from `c` at `p` gives the bytes it
/// was read from, when its name is valid UTF-8: the tag, the name read
/// (its decoding) and its length field all come back unchanged.
pub proof fn law_dep_read_then_write(c: Seq<u8>, p: int)
    requires
        0 <= p,
        p + 8 <= c.len(),
        p + 8 + le_u32_at(c, p + 4) <= c.len(),
        valid_utf8(c.subrange(p + 8, p + 8 + le_u32_at(c, p + 4))),
    ensures
        ({
            let n = le_u32_at(c, p + 4) as int;
            dep_record(le_u32_at(c, p), decode_utf8(c.subrange(p + 8, p + 8 + n))) == c.subrange(p, p + 8 + n)
        }),
{
    broadcast use decode_utf8_encode_utf8;

    lemma_auto_spec_u32_to_from_le_bytes();
    let n = le_u32_at(c, p + 4) as int;
    let t = c.subrange(p + 8, p + 8 + n);
    assert(encode_utf8(decode_utf8(t)) == t);
    assert(spec_u32_to_le_bytes(le_u32_at(c, p)) == c.subrange(p, p + 4));
    assert(spec_u32_to_le_bytes(le_u32_at(c, p + 4)) == c.subrange(p + 4, p + 8));
    assert(c.subrange(p, p + 8 + n) =~= c.subrange(p, p + 4) + c.subrange(p + 4, p + 8) + t);
}

/// Reading a written dependency record gives back its tag and name, when
/// the name's UTF-8 length fits the 32-bit length field.
pub proof fn law_dep_roundtrip(tag: u32, name: Seq<char>)
    requires
        encode_utf8(name).len() <= u32::MAX,
    ensures
        ({
            let b = spec_u32_to_le_bytes(tag) + spec_u32_to_le_bytes(encode_utf8(name).len() as u32) + encode_utf8(
                name,
            );
            &&& le_u32_at(b, 0) == tag
            &&& le_u32_at(b, 4) == encode_utf8(name).len()
            &&& b.len() == 8 + encode_utf8(name).len()
            &&& decode_utf8(b.subrange(8, 8 + le_u32_at(b, 4) as int)) == name
            &&& valid_utf8(b.subrange(8, 8 + le_u32_at(b, 4) as int))
        }),
{
    broadcast use encode_utf8_decode_utf8, encode_utf8_valid_utf8;

    lemma_auto_spec_u32_to_from_le_bytes();
    let e = encode_utf8(name);
    let b = spec_u32_to_le_bytes(tag) + spec_u32_to_le_bytes(e.len() as u32) + e;
    assert(b.subrange(0, 4) =~= spec_u32_to_le_bytes(tag));
    assert(b.subrange(4, 8) =~= spec_u32_to_le_bytes(e.len() as u32));
    assert(b.subrange(8, 8 + e.len() as int) =~= e);
}

/// A streamed audio resource.
#[derive(Debug, Clone)]
pub struct WwiseStream {
    pub file_id: u64,
    pub audio_source: AudioSource,
    pub modified: bool,
}

impl WwiseStream {
    pub fn id(&self) -> (id: u64)
        ensures
            id == self.file_id,
    {
        self.file_id
    }

    pub fn get_data(&self) -> (d: &[u8])
        ensures
            d@ == self.audio_source.data@,
    {
        self.audio_source.get_data()
    }

    /// A copy of the stream.
    pub fn duplicate(&self) -> (r: WwiseStream)
        ensures
            r.file_id == self.file_id,
            r.modified == self.modified,
            r.audio_source.data@ == self.audio_source.data@,
            r.audio_source.resource_id == self.audio_source.resource_id,
            r.audio_source.short_id == self.audio_source.short_id,
            r.audio_source.modified == self.audio_source.modified,
            r.audio_source.data_old@ == self.audio_source.data_old@,
            r.audio_source.stream_type == self.audio_source.stream_type,
    {
        let a = &self.audio_source;
        WwiseStream {
            file_id: self.file_id,
            audio_source: AudioSource {
                data: crate::buf::copy_bytes(a.data.as_slice()),
                resource_id: a.resource_id,
                short_id: a.short_id,
                modified: a.modified,
                data_old: crate::buf::copy_bytes(a.data_old.as_slice()),
                stream_type: a.stream_type,
            },
            modified: self.modified,
        }
    }
}

/// A video resource: the bytes it was loaded with, and a replacement once
/// one is set.
#[derive(Debug, Clone)]
pub struct VideoSource {
    pub file_id: u64,
    pub video_size: u32,
    pub modified: bool,
    pub original_data: Vec<u8>,
    pub replacement_data: Vec<u8>,
}

impl VideoSource {
    pub fn from_original(file_id: u64, video_size: u32, original_data: Vec<u8>) -> (v: VideoSource)
        ensures
            v.file_id == file_id,
            v.video_size == video_size,
            !v.modified,
            v.original_data@ == original_data@,
            v.replacement_data@ == Seq::<u8>::empty(),
    {
        VideoSource { file_id, video_size, modified: false, original_data, replacement_data: Vec::new() }
    }

    pub fn id(&self) -> (id: u64)
        ensures
            id == self.file_id,
    {
        self.file_id
    }

    /// The replacement when one was set, else the original bytes.
    pub fn get_data(&self) -> (d: &[u8])
        ensures
            d@ == (if self.modified { self.replacement_data@ } else { self.original_data@ }),
    {
        if self.modified {
            self.replacement_data.as_slice()
        } else {
            self.original_data.as_slice()
        }
    }

    /// A copy of the video.
    pub fn duplicate(&self) -> (r: VideoSource)
        ensures
            r.file_id == self.file_id,
            r.video_size == self.video_size,
            r.modified == self.modified,
            r.original_data@ == self.original_data@,
            r.replacement_data@ == self.replacement_data@,
    {
        VideoSource {
            file_id: self.file_id,
            video_size: self.video_size,
            modified: self.modified,
            original_data: crate::buf::copy_bytes(self.original_data.as_slice()),
            replacement_data: crate::buf::copy_bytes(self.replacement_data.as_slice()),
        }
    }

    pub fn set_data(&mut self, data: Vec<u8>)
        ensures
            final(self).replacement_data@ == data@,
            final(self).modified,
            final(self).original_data@ == old(self).original_data@,
            final(self).file_id == old(self).file_id,
            final(self).video_size == old(self).video_size,
    {
        self.replacement_data = data;
        self.modified = true;
    }
}

} // verus!
