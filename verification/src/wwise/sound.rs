//! Sound objects: one bank source and a parameter block.

use vstd::prelude::*;
use vstd::bytes::*;
use crate::buf::{extend_bytes, extend_u32};
use crate::le::le_u32_at;
use crate::memstream::MemoryStream;
use crate::wwise::base_param::{
    base_param_bytes, base_param_len, base_param_ok, bypass_cleared, lemma_split, lemma_u32_bytes, BaseParam,
};
use crate::wwise::hierarchy::BankVersion;
use crate::wwise::params::{has_plugin_data, source_bytes, source_fixed_len, source_len, BankSourceStruct};

verus! {

/// The source that `BankSourceStruct::read` gives back at `p` is written
/// back as the bytes it was read from.
pub proof fn lemma_source_bytes(c: Seq<u8>, p: int, version: BankVersion, s: BankSourceStruct)
    requires
        0 <= p,
        source_len(c, p, version) is Some,
        ({
            let f = source_fixed_len(version);
            &&& s.plugin_id == le_u32_at(c, p)
            &&& s.stream_type == c[p + 4]
            &&& s.source_id == le_u32_at(c, p + 5)
            &&& s.cache_id == (match version {
                BankVersion::V154 => Some(le_u32_at(c, p + 9)),
                BankVersion::V140 => None,
            })
            &&& s.mem_size == le_u32_at(c, p + f - 5)
            &&& s.bit_flags == c[p + f - 1]
            &&& s.plugin_data@ == (if has_plugin_data(s.plugin_id) {
                c.subrange(p + f + 4, p + f + 4 + le_u32_at(c, p + f))
            } else {
                Seq::empty()
            })
        }),
    ensures
        source_bytes(s) == c.subrange(p, p + source_len(c, p, version).unwrap()),
{
    let f = source_fixed_len(version);
    let e = p + source_len(c, p, version).unwrap();
    lemma_u32_bytes(c, p);
    lemma_u32_bytes(c, p + 5);
    lemma_u32_bytes(c, p + f - 5);
    let cache: Seq<u8> = match s.cache_id {
        Some(x) => spec_u32_to_le_bytes(x),
        None => Seq::empty(),
    };
    match version {
        BankVersion::V154 => {
            lemma_u32_bytes(c, p + 9);
        },
        BankVersion::V140 => {
            assert(cache =~= c.subrange(p + 9, p + 9));
        },
    }
    assert(seq![s.stream_type] =~= c.subrange(p + 4, p + 5));
    assert(seq![s.bit_flags] =~= c.subrange(p + f - 1, p + f));
    lemma_split(c, p, p + 4, p + 5);
    lemma_split(c, p, p + 5, p + 9);
    lemma_split(c, p, p + 9, p + f - 5);
    lemma_split(c, p, p + f - 5, p + f - 1);
    lemma_split(c, p, p + f - 1, p + f);
    if has_plugin_data(s.plugin_id) {
        lemma_u32_bytes(c, p + f);
        lemma_split(c, p + f, p + f + 4, e);
        lemma_split(c, p, p + f, e);
    } else {
        assert(c.subrange(p + f, e) =~= Seq::<u8>::empty());
        lemma_split(c, p, p + f, e);
    }
}

/// How long a sound's body at `p` is: its id, its source and its parameter
/// block.
pub open spec fn sound_len(c: Seq<u8>, p: int, version: BankVersion) -> Option<int> {
    if p < 0 {
        None
    } else {
        match source_len(c, p + 4, version) {
            None => None,
            Some(sl) => match base_param_len(c, p + 4 + sl, version) {
                None => None,
                Some(bl) => Some(4 + sl + bl),
            },
        }
    }
}

/// A sound object.
pub struct Sound {
    pub size: u32,
    pub hierarchy_id: u32,
    pub sources: Vec<BankSourceStruct>,
    pub base_param: BaseParam,
}

/// A sound's body: its id, its first source and its parameter block.
pub open spec fn sound_pack_bytes(s: Sound) -> Seq<u8> {
    spec_u32_to_le_bytes(s.hierarchy_id) + source_bytes(s.sources@[0]) + base_param_bytes(s.base_param)
}

/// A sound's entry bytes: its type (2), its size, then its body.
pub open spec fn sound_bytes(s: Sound) -> Seq<u8> {
    seq![2u8] + spec_u32_to_le_bytes(s.size) + sound_pack_bytes(s)
}

impl Sound {
    /// Reads a sound's body; its type and size were read before. The size
    /// must be the body's length.
    pub fn read(stream: &mut MemoryStream, size: u32, version: BankVersion) -> (s: Sound)
        requires
            old(stream).wf(),
            sound_len(old(stream).contents(), old(stream).position() as int, version) matches Some(l)
                && old(stream).position() + l <= old(stream).contents().len() && l == size,
        ensures
            final(stream).wf(),
            final(stream).contents() == old(stream).contents(),
            ({
                let c = old(stream).contents();
                let p = old(stream).position() as int;
                let bp = p + 4 + source_len(c, p + 4, version).unwrap();
                let e = p + size;
                &&& final(stream).position() == e
                &&& sound_pack_bytes(s) == bypass_cleared(c, bp, version).subrange(p, e)
            }),
            s.size == size,
            s.sources@.len() == 1,
            s.base_param.version == version,
            base_param_ok(s.base_param),
    {
        let ghost c = stream.contents();
        let ghost p = stream.position() as int;
        let hierarchy_id = stream.read_u32();
        let ghost q = stream.position() as int;
        let source = BankSourceStruct::read(stream, version);
        let ghost bp = stream.position() as int;
        proof {
            lemma_source_bytes(c, q, version, source);
        }
        let base_param = BaseParam::read(stream, version);
        let mut sources: Vec<BankSourceStruct> = Vec::new();
        sources.push(source);
        let s = Sound { size, hierarchy_id, sources, base_param };
        proof {
            let e = p + size;
            let d = bypass_cleared(c, bp, version);
            assert(d.len() == c.len());
            lemma_u32_bytes(c, p);
            assert(d.subrange(p, bp) =~= c.subrange(p, bp));
            lemma_split(c, p, p + 4, bp);
            lemma_split(d, p, bp, e);
        }
        s
    }

    /// The body: id, first source, then the parameter block.
    fn pack(&self) -> (out: Vec<u8>)
        requires
            self.sources@.len() >= 1,
        ensures
            out@ == sound_pack_bytes(*self),
    {
        let mut out: Vec<u8> = Vec::new();
        extend_u32(&mut out, self.hierarchy_id);
        let sb = self.sources[0].get_data();
        extend_bytes(&mut out, sb.as_slice());
        let bp = self.base_param.get_data();
        extend_bytes(&mut out, bp.as_slice());
        assert(out@ =~= sound_pack_bytes(*self));
        out
    }

    /// The entry bytes; the size field must be the body's length.
    pub fn get_data(&self) -> (out: Vec<u8>)
        requires
            self.sources@.len() >= 1,
            sound_pack_bytes(*self).len() == self.size,
        ensures
            out@ == sound_bytes(*self),
    {
        let data = self.pack();
        let mut out: Vec<u8> = Vec::new();
        out.push(2u8);
        extend_u32(&mut out, self.size);
        extend_bytes(&mut out, data.as_slice());
        assert(out@ =~= sound_bytes(*self));
        out
    }

    /// Takes an imported sound's parts into this one: a V140 bank takes the
    /// sources and the parameter block, a V154 bank only the property
    /// bundle. The size is then that of the new body.
    pub fn import_entry(&mut self, other: Sound, version: BankVersion)
        requires
            old(self).sources@.len() >= 1,
            version == BankVersion::V140 ==> other.sources@.len() >= 1,
        ensures
            final(self).hierarchy_id == old(self).hierarchy_id,
            version == BankVersion::V140 ==> {
                &&& final(self).sources == other.sources
                &&& final(self).base_param == other.base_param
            },
            version == BankVersion::V154 ==> {
                &&& final(self).sources == old(self).sources
                &&& final(self).base_param == (BaseParam { prop_bundle: other.base_param.prop_bundle, ..old(self).base_param })
            },
            final(self).size == sound_pack_bytes(*final(self)).len() as u32,
    {
        let Sound { sources, base_param, .. } = other;
        match version {
            BankVersion::V140 => {
                self.sources = sources;
                self.base_param = base_param;
            },
            BankVersion::V154 => {
                self.base_param.prop_bundle = base_param.prop_bundle;
            },
        }
        self.size = self.pack().len() as u32;
    }
}

} // verus!
