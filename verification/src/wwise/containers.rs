//! Random and sequence containers: their play-list settings and items, and
//! how an imported container replaces the parts of a base one.

use vstd::prelude::*;
use vstd::bytes::*;
use crate::buf::{extend_bytes, extend_u32};
use crate::le::{le_u16_at, le_u32_at};
use crate::memstream::MemoryStream;
use crate::wwise::base_param::{
    base_param_bytes, base_param_len, base_param_ok, bypass_cleared, lemma_split, lemma_u16_bytes, lemma_u32_bytes,
    lemma_u32s_bytes, BaseParam,
};
use crate::wwise::hierarchy::BankVersion;
use crate::wwise::params::{u32s_bytes, ContainerChildren, PlayListItem};

verus! {

/// Play-list settings, 24 bytes; the transition times are raw `f32` bits.
#[derive(Debug, Clone, Copy, PartialEq, Eq, Structural)]
pub struct PlayListSetting {
    pub loop_count: u16,
    pub loop_mod_min: u16,
    pub loop_mod_max: u16,
    pub transition_time: u32,
    pub transition_time_mod_min: u32,
    pub transition_time_mod_max: u32,
    pub avoid_repeat_count: u16,
    pub transition_mode: u8,
    pub random_mode: u8,
    pub mode: u8,
    pub bit_vector_play_list: u8,
}

pub open spec fn setting_bytes(s: PlayListSetting) -> Seq<u8> {
    spec_u16_to_le_bytes(s.loop_count) + spec_u16_to_le_bytes(s.loop_mod_min) + spec_u16_to_le_bytes(s.loop_mod_max)
        + spec_u32_to_le_bytes(s.transition_time) + spec_u32_to_le_bytes(s.transition_time_mod_min)
        + spec_u32_to_le_bytes(s.transition_time_mod_max) + spec_u16_to_le_bytes(s.avoid_repeat_count) + seq![
        s.transition_mode,
        s.random_mode,
        s.mode,
        s.bit_vector_play_list,
    ]
}

impl PlayListSetting {
    pub fn read(stream: &mut MemoryStream) -> (s: PlayListSetting)
        requires
            old(stream).wf(),
            old(stream).position() + 24 <= old(stream).contents().len(),
        ensures
            final(stream).wf(),
            final(stream).contents() == old(stream).contents(),
            final(stream).position() == old(stream).position() + 24,
            setting_bytes(s) == old(stream).contents().subrange(
                old(stream).position() as int,
                old(stream).position() + 24int,
            ),
    {
        let ghost c = stream.contents();
        let ghost p = stream.position() as int;
        let loop_count = stream.read_u16();
        let loop_mod_min = stream.read_u16();
        let loop_mod_max = stream.read_u16();
        let transition_time = stream.read_u32();
        let transition_time_mod_min = stream.read_u32();
        let transition_time_mod_max = stream.read_u32();
        let avoid_repeat_count = stream.read_u16();
        let transition_mode = stream.read_u8();
        let random_mode = stream.read_u8();
        let mode = stream.read_u8();
        let bit_vector_play_list = stream.read_u8();
        let s = PlayListSetting {
            loop_count,
            loop_mod_min,
            loop_mod_max,
            transition_time,
            transition_time_mod_min,
            transition_time_mod_max,
            avoid_repeat_count,
            transition_mode,
            random_mode,
            mode,
            bit_vector_play_list,
        };
        proof {
            lemma_u16_bytes(c, p);
            lemma_u16_bytes(c, p + 2);
            lemma_u16_bytes(c, p + 4);
            lemma_u32_bytes(c, p + 6);
            lemma_u32_bytes(c, p + 10);
            lemma_u32_bytes(c, p + 14);
            lemma_u16_bytes(c, p + 18);
            assert(seq![transition_mode, random_mode, mode, bit_vector_play_list] =~= c.subrange(p + 20, p + 24));
            lemma_split(c, p, p + 2, p + 4);
            lemma_split(c, p, p + 4, p + 6);
            lemma_split(c, p, p + 6, p + 10);
            lemma_split(c, p, p + 10, p + 14);
            lemma_split(c, p, p + 14, p + 18);
            lemma_split(c, p, p + 18, p + 20);
            lemma_split(c, p, p + 20, p + 24);
        }
        s
    }

    pub fn get_data(&self) -> (out: [u8; 24])
        ensures
            out@ == setting_bytes(*self),
    {
        let a = u16_to_le_bytes(self.loop_count);
        let b = u16_to_le_bytes(self.loop_mod_min);
        let d = u16_to_le_bytes(self.loop_mod_max);
        let t0 = u32_to_le_bytes(self.transition_time);
        let t1 = u32_to_le_bytes(self.transition_time_mod_min);
        let t2 = u32_to_le_bytes(self.transition_time_mod_max);
        let r = u16_to_le_bytes(self.avoid_repeat_count);
        let out = [
            a[0],
            a[1],
            b[0],
            b[1],
            d[0],
            d[1],
            t0[0],
            t0[1],
            t0[2],
            t0[3],
            t1[0],
            t1[1],
            t1[2],
            t1[3],
            t2[0],
            t2[1],
            t2[2],
            t2[3],
            r[0],
            r[1],
            self.transition_mode,
            self.random_mode,
            self.mode,
            self.bit_vector_play_list,
        ];
        assert(out@ =~= setting_bytes(*self));
        out
    }
}


pub open spec fn children_bytes(ch: ContainerChildren) -> Seq<u8> {
    spec_u32_to_le_bytes(ch.children@.len() as u32) + u32s_bytes(ch.children@)
}

pub open spec fn item_bytes(i: PlayListItem) -> Seq<u8> {
    spec_u32_to_le_bytes(i.play_id) + spec_u32_to_le_bytes(i.weight as u32)
}

pub open spec fn items_bytes(items: Seq<PlayListItem>) -> Seq<u8>
    decreases items.len(),
{
    if items.len() == 0 {
        Seq::empty()
    } else {
        items_bytes(items.drop_last()) + item_bytes(items.last())
    }
}

/// How long the body of a random or sequence container at `p` is: its id,
/// its parameter block, the settings, the children and the play-list items.
pub open spec fn rsc_len(c: Seq<u8>, p: int, version: BankVersion) -> Option<int> {
    match base_param_len(c, p + 4, version) {
        None => None,
        Some(bl) => {
            let s = p + 4 + bl;
            if p < 0 || s + 28 > c.len() {
                None
            } else {
                let ch = s + 28 + 4 * le_u32_at(c, s + 24);
                if ch + 2 > c.len() {
                    None
                } else {
                    Some(ch + 2 + 8 * le_u16_at(c, ch) - p)
                }
            }
        }
    }
}

/// A random or sequence container.
pub struct RandomSequenceContainer {
    pub size: u32,
    pub hierarchy_id: u32,
    pub base_param: BaseParam,
    pub play_list_setting: PlayListSetting,
    pub children: ContainerChildren,
    pub play_list_items: Vec<PlayListItem>,
}

/// A container's body: what follows its type and size.
pub open spec fn rsc_pack_bytes(r: RandomSequenceContainer) -> Seq<u8> {
    spec_u32_to_le_bytes(r.hierarchy_id) + base_param_bytes(r.base_param) + setting_bytes(r.play_list_setting)
        + children_bytes(r.children) + spec_u16_to_le_bytes(r.play_list_items@.len() as u16) + items_bytes(
        r.play_list_items@,
    )
}

/// A container's entry bytes: its type (5), its size, then its body.
pub open spec fn rsc_bytes(r: RandomSequenceContainer) -> Seq<u8> {
    seq![5u8] + spec_u32_to_le_bytes(r.size) + rsc_pack_bytes(r)
}

proof fn lemma_children_bytes(c: Seq<u8>, p: int, ch: ContainerChildren)
    requires
        0 <= p,
        p + 4 + 4 * le_u32_at(c, p) <= c.len(),
        ch.children@ == Seq::new(le_u32_at(c, p) as nat, |i: int| le_u32_at(c, p + 4 + 4 * i)),
    ensures
        children_bytes(ch) == c.subrange(p, p + 4 + 4 * le_u32_at(c, p)),
{
    let n = le_u32_at(c, p) as nat;
    lemma_u32_bytes(c, p);
    lemma_u32s_bytes(c, p + 4, n);
    lemma_split(c, p, p + 4, p + 4 + 4 * n);
}

proof fn lemma_item_bytes(c: Seq<u8>, q: int)
    requires
        0 <= q,
        q + 8 <= c.len(),
    ensures
        item_bytes(PlayListItem { play_id: le_u32_at(c, q), weight: le_u32_at(c, q + 4) as i32 }) == c.subrange(
            q,
            q + 8,
        ),
{
    let x = le_u32_at(c, q + 4);
    assert((x as i32) as u32 == x) by (bit_vector);
    lemma_u32_bytes(c, q);
    lemma_u32_bytes(c, q + 4);
    lemma_split(c, q, q + 4, q + 8);
}

/// Reads `n` play-list items.
fn read_items(stream: &mut MemoryStream, n: u16) -> (items: Vec<PlayListItem>)
    requires
        old(stream).wf(),
        old(stream).position() + 8 * n <= old(stream).contents().len(),
    ensures
        final(stream).wf(),
        final(stream).contents() == old(stream).contents(),
        final(stream).position() == old(stream).position() + 8 * n,
        items@.len() == n,
        items_bytes(items@) == old(stream).contents().subrange(
            old(stream).position() as int,
            old(stream).position() + 8 * n,
        ),
{
    let ghost c = stream.contents();
    let ghost q = stream.position() as int;
    let mut items: Vec<PlayListItem> = Vec::new();
    let mut k: u16 = 0;
    assert(items_bytes(items@) =~= c.subrange(q, q));
    while k < n
        invariant
            k <= n,
            0 <= q,
            stream.wf(),
            stream.contents() == c,
            q + 8 * n <= c.len(),
            stream.position() == q + 8 * k,
            items@.len() == k,
            items_bytes(items@) == c.subrange(q, q + 8 * k),
        decreases n - k,
    {
        let ghost at = stream.position() as int;
        let item = PlayListItem::read(stream);
        proof {
            lemma_item_bytes(c, at);
            lemma_split(c, q, at, at + 8);
        }
        let ghost before = items@;
        items.push(item);
        assert(items@.drop_last() =~= before);
        k = k + 1;
    }
    items
}

impl RandomSequenceContainer {
    /// Reads a container's body; its type and size were read before. The
    /// size must be the body's length.
    pub fn read(stream: &mut MemoryStream, size: u32, version: BankVersion) -> (r: RandomSequenceContainer)
        requires
            old(stream).wf(),
            rsc_len(old(stream).contents(), old(stream).position() as int, version) matches Some(l)
                && old(stream).position() + l <= old(stream).contents().len() && l == size,
        ensures
            final(stream).wf(),
            final(stream).contents() == old(stream).contents(),
            ({
                let c = old(stream).contents();
                let p = old(stream).position() as int;
                let e = p + size;
                &&& final(stream).position() == e
                &&& rsc_pack_bytes(r) == bypass_cleared(c, p + 4, version).subrange(p, e)
            }),
            r.size == size,
            r.base_param.version == version,
            base_param_ok(r.base_param),
            r.play_list_items@.len() <= 0xFFFF,
    {
        let ghost c = stream.contents();
        let ghost p = stream.position() as int;
        let hierarchy_id = stream.read_u32();
        let base_param = BaseParam::read(stream, version);
        let ghost s = stream.position() as int;
        let play_list_setting = PlayListSetting::read(stream);
        let ghost q = stream.position() as int;
        let children = ContainerChildren::read(stream);
        let ghost ch = stream.position() as int;
        let num_play_list_items = stream.read_u16();
        let play_list_items = read_items(stream, num_play_list_items);
        let r = RandomSequenceContainer {
            size,
            hierarchy_id,
            base_param,
            play_list_setting,
            children,
            play_list_items,
        };
        proof {
            let e = p + size;
            let d = bypass_cleared(c, p + 4, version);
            assert(d.len() == c.len());
            lemma_u32_bytes(c, p);
            lemma_children_bytes(c, q, r.children);
            lemma_u16_bytes(c, ch);
            assert(d.subrange(p, p + 4) =~= c.subrange(p, p + 4));
            assert(d.subrange(s, e) =~= c.subrange(s, e));
            lemma_split(c, s, s + 24, ch);
            lemma_split(c, s, ch, ch + 2);
            lemma_split(c, s, ch + 2, e);
            lemma_split(d, p, p + 4, s);
            lemma_split(d, p, s, e);
        }
        r
    }

    /// The body: id, parameter block, settings, children, then the items.
    fn pack(&self) -> (out: Vec<u8>)
        ensures
            out@ == rsc_pack_bytes(*self),
    {
        let mut out: Vec<u8> = Vec::new();
        extend_u32(&mut out, self.hierarchy_id);
        let bp = self.base_param.get_data();
        extend_bytes(&mut out, bp.as_slice());
        let st = self.play_list_setting.get_data();
        extend_bytes(&mut out, &st);
        let ch = self.children.get_data();
        extend_bytes(&mut out, ch.as_slice());
        let n = u16_to_le_bytes(self.play_list_items.len() as u16);
        out.push(n[0]);
        out.push(n[1]);
        let ghost head = out@;
        let mut k: usize = 0;
        while k < self.play_list_items.len()
            invariant
                k <= self.play_list_items@.len(),
                out@ == head + items_bytes(self.play_list_items@.take(k as int)),
            decreases self.play_list_items@.len() - k,
        {
            let b = self.play_list_items[k].get_data();
            extend_bytes(&mut out, &b);
            assert(self.play_list_items@.take(k + 1).drop_last() =~= self.play_list_items@.take(k as int));
            k = k + 1;
            assert(out@ =~= head + items_bytes(self.play_list_items@.take(k as int)));
        }
        assert(self.play_list_items@.take(self.play_list_items@.len() as int) =~= self.play_list_items@);
        assert(out@ =~= rsc_pack_bytes(*self));
        out
    }

    /// The entry bytes; the size field must be the body's length.
    pub fn get_data(&self) -> (out: Vec<u8>)
        requires
            rsc_pack_bytes(*self).len() == self.size,
        ensures
            out@ == rsc_bytes(*self),
    {
        let data = self.pack();
        let mut out: Vec<u8> = Vec::new();
        out.push(5u8);
        extend_u32(&mut out, self.size);
        extend_bytes(&mut out, data.as_slice());
        assert(out@ =~= rsc_bytes(*self));
        out
    }

    /// Takes an imported container's parts into this one: a V140 bank takes
    /// the parameter block, the children, the settings and the items; a V154
    /// bank only the property bundle and the settings. The size is then that
    /// of the new body.
    pub fn import_entry(&mut self, other: RandomSequenceContainer, version: BankVersion)
        ensures
            final(self).hierarchy_id == old(self).hierarchy_id,
            final(self).play_list_setting == other.play_list_setting,
            version == BankVersion::V140 ==> {
                &&& final(self).base_param == other.base_param
                &&& final(self).children == other.children
                &&& final(self).play_list_items == other.play_list_items
            },
            version == BankVersion::V154 ==> {
                &&& final(self).base_param == (BaseParam { prop_bundle: other.base_param.prop_bundle, ..old(self).base_param })
                &&& final(self).children == old(self).children
                &&& final(self).play_list_items == old(self).play_list_items
            },
            final(self).size == rsc_pack_bytes(*final(self)).len() as u32,
    {
        let RandomSequenceContainer { base_param, play_list_setting, children, play_list_items, .. } = other;
        match version {
            BankVersion::V140 => {
                self.base_param = base_param;
                self.children = children;
                self.play_list_setting = play_list_setting;
                self.play_list_items = play_list_items;
            },
            BankVersion::V154 => {
                self.base_param.prop_bundle = base_param.prop_bundle;
                self.play_list_setting = play_list_setting;
            },
        }
        self.size = self.pack().len() as u32;
    }
}

} // verus!
