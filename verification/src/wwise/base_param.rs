//! The shared parameter block of hierarchy objects and its parts: ranged
//! property bundles, state parameters, RTPC curves and positioning. Floating
//! point values are carried as their raw IEEE-754 bit patterns: they are
//! read and written back, never computed with.

use vstd::prelude::*;
use vstd::bytes::*;
use crate::buf::{copy_bytes, extend_bytes, extend_u32};
use crate::le::{le_u16_at, le_u32_at};
use crate::memstream::MemoryStream;
use crate::wwise::hierarchy::BankVersion;
use crate::wwise::params::{
    fx_chunk_at, fx_chunk_bytes, fx_chunk_len, fx_metadata_bytes, has_aux, u32s_bytes, AdvSetting, AuxParams, FxChunk,
    FxChunkFlags, FxChunkMetadata, PropBundle, StateProp,
};

verus! {

/// `c[p..q]` is `c[p..m]` followed by `c[m..q]`.
pub proof fn lemma_split(c: Seq<u8>, p: int, m: int, q: int)
    requires
        0 <= p <= m <= q <= c.len(),
    ensures
        c.subrange(p, q) == c.subrange(p, m) + c.subrange(m, q),
{
    assert(c.subrange(p, q) =~= c.subrange(p, m) + c.subrange(m, q));
}

/// The bytes of a little-endian `u16` at `p` are those of its value.
pub proof fn lemma_u16_bytes(c: Seq<u8>, p: int)
    requires
        0 <= p,
        p + 2 <= c.len(),
    ensures
        spec_u16_to_le_bytes(le_u16_at(c, p)) == c.subrange(p, p + 2),
{
    lemma_auto_spec_u16_to_from_le_bytes();
    assert(c.subrange(p, p + 2).len() == 2);
}

/// The bytes of a little-endian `u32` at `p` are those of its value.
pub proof fn lemma_u32_bytes(c: Seq<u8>, p: int)
    requires
        0 <= p,
        p + 4 <= c.len(),
    ensures
        spec_u32_to_le_bytes(le_u32_at(c, p)) == c.subrange(p, p + 4),
{
    lemma_auto_spec_u32_to_from_le_bytes();
    assert(c.subrange(p, p + 4).len() == 4);
}

// ---------------------------------------------------------------------------
// Ranged property bundles.

/// Property ids with a (min, max) pair of raw `f32` bits each.
#[derive(Debug, Clone)]
pub struct RangedPropBundle {
    pub ids: Vec<u8>,
    pub ranged_values: Vec<(u32, u32)>,
}

/// Pairs of `u32` fields, one after the other.
pub open spec fn pairs_bytes(vs: Seq<(u32, u32)>) -> Seq<u8>
    decreases vs.len(),
{
    if vs.len() == 0 {
        Seq::empty()
    } else {
        pairs_bytes(vs.drop_last()) + spec_u32_to_le_bytes(vs.last().0) + spec_u32_to_le_bytes(vs.last().1)
    }
}

pub open spec fn ranged_bytes(b: RangedPropBundle) -> Seq<u8> {
    seq![b.ids@.len() as u8] + b.ids@ + pairs_bytes(b.ranged_values@)
}

/// A bundle holds as many values as ids, fewer than 256.
pub open spec fn ranged_ok(b: RangedPropBundle) -> bool {
    b.ids@.len() == b.ranged_values@.len() && b.ids@.len() < 256
}

impl RangedPropBundle {
    /// Reads a count `n`, `n` ids, then `n` pairs.
    pub fn read(stream: &mut MemoryStream) -> (b: RangedPropBundle)
        requires
            old(stream).wf(),
            old(stream).position() + 1 <= old(stream).contents().len(),
            old(stream).position() + 1 + 9 * old(stream).contents()[old(stream).position() as int]
                <= old(stream).contents().len(),
        ensures
            final(stream).wf(),
            final(stream).contents() == old(stream).contents(),
            ({
                let c = old(stream).contents();
                let p = old(stream).position() as int;
                let e = p + 1 + 9 * c[p];
                &&& final(stream).position() == e
                &&& ranged_ok(b)
                &&& ranged_bytes(b) == c.subrange(p, e)
            }),
    {
        let ghost c = stream.contents();
        let ghost p = stream.position() as int;
        let count = stream.read_u8();
        let ids = copy_bytes(stream.read(count as usize));
        let ghost q0 = p + 1 + count;
        let mut vals: Vec<(u32, u32)> = Vec::new();
        let mut k: u8 = 0;
        assert(pairs_bytes(vals@) =~= c.subrange(q0, q0));
        while k < count
            invariant
                k <= count,
                0 <= p < c.len(),
                count == c[p],
                q0 == p + 1 + count,
                stream.wf(),
                stream.contents() == c,
                p + 1 + 9 * count <= c.len(),
                stream.position() == q0 + 8 * k,
                vals@.len() == k,
                pairs_bytes(vals@) == c.subrange(q0, q0 + 8 * k),
            decreases count - k,
        {
            let ghost q = stream.position() as int;
            let a = stream.read_u32();
            let b = stream.read_u32();
            proof {
                lemma_u32_bytes(c, q);
                lemma_u32_bytes(c, q + 4);
                lemma_split(c, q0, q, q + 4);
                lemma_split(c, q0, q + 4, q + 8);
            }
            let ghost before = vals@;
            vals.push((a, b));
            assert(vals@.drop_last() =~= before);
            k = k + 1;
        }
        let r = RangedPropBundle { ids, ranged_values: vals };
        assert(c.subrange(p, p + 1) =~= seq![count]);
        proof {
            lemma_split(c, p, p + 1, q0);
            lemma_split(c, p, q0, q0 + 8 * count);
        }
        assert(ranged_bytes(r) =~= c.subrange(p, p + 1 + 9 * count));
        r
    }

    pub fn get_data(&self) -> (out: Vec<u8>)
        ensures
            out@ == ranged_bytes(*self),
    {
        let mut out: Vec<u8> = Vec::new();
        out.push(self.ids.len() as u8);
        extend_bytes(&mut out, self.ids.as_slice());
        let ghost head = out@;
        let mut k: usize = 0;
        while k < self.ranged_values.len()
            invariant
                k <= self.ranged_values@.len(),
                out@ == head + pairs_bytes(self.ranged_values@.take(k as int)),
            decreases self.ranged_values@.len() - k,
        {
            let (a, b) = self.ranged_values[k];
            extend_u32(&mut out, a);
            extend_u32(&mut out, b);
            assert(self.ranged_values@.take(k + 1).drop_last() =~= self.ranged_values@.take(k as int));
            k = k + 1;
            assert(out@ =~= head + pairs_bytes(self.ranged_values@.take(k as int)));
        }
        assert(self.ranged_values@.take(self.ranged_values@.len() as int) =~= self.ranged_values@);
        assert(out@ =~= ranged_bytes(*self));
        out
    }
}

// ---------------------------------------------------------------------------
// State parameters.

/// A property of a V154 state: its id and raw `f32` bits.
#[derive(Debug, Clone, Copy, PartialEq, Eq, Structural)]
pub struct AkPropBundle {
    pub id: u16,
    pub value: u32,
}

pub open spec fn ak_prop_bytes(a: AkPropBundle) -> Seq<u8> {
    spec_u16_to_le_bytes(a.id) + spec_u32_to_le_bytes(a.value)
}

impl AkPropBundle {
    pub fn read(stream: &mut MemoryStream) -> (a: AkPropBundle)
        requires
            old(stream).wf(),
            old(stream).position() + 6 <= old(stream).contents().len(),
        ensures
            final(stream).wf(),
            final(stream).contents() == old(stream).contents(),
            final(stream).position() == old(stream).position() + 6,
            ak_prop_bytes(a) == old(stream).contents().subrange(
                old(stream).position() as int,
                old(stream).position() + 6int,
            ),
    {
        let ghost c = stream.contents();
        let ghost p = stream.position() as int;
        let id = stream.read_u16();
        let value = stream.read_u32();
        proof {
            lemma_u16_bytes(c, p);
            lemma_u32_bytes(c, p + 2);
            lemma_split(c, p, p + 2, p + 6);
        }
        AkPropBundle { id, value }
    }

    pub fn get_data(&self) -> (out: [u8; 6])
        ensures
            out@ == ak_prop_bytes(*self),
    {
        let i = u16_to_le_bytes(self.id);
        let v = u32_to_le_bytes(self.value);
        let out = [i[0], i[1], v[0], v[1], v[2], v[3]];
        assert(out@ =~= ak_prop_bytes(*self));
        out
    }
}

/// A state of a state group: V140 pairs the state with an instance id;
/// V154 lists its properties.
#[derive(Debug, Clone)]
pub enum StateGroupState {
    V140 { state_id: u32, state_instance_id: u32 },
    V154 { state_id: u32, props: Vec<AkPropBundle> },
}

pub open spec fn ak_props_bytes(ps: Seq<AkPropBundle>) -> Seq<u8>
    decreases ps.len(),
{
    if ps.len() == 0 {
        Seq::empty()
    } else {
        ak_props_bytes(ps.drop_last()) + ak_prop_bytes(ps.last())
    }
}

pub open spec fn state_bytes(s: StateGroupState) -> Seq<u8> {
    match s {
        StateGroupState::V140 { state_id, state_instance_id } => spec_u32_to_le_bytes(state_id) + spec_u32_to_le_bytes(
            state_instance_id,
        ),
        StateGroupState::V154 { state_id, props } => spec_u32_to_le_bytes(state_id) + spec_u16_to_le_bytes(
            props@.len() as u16,
        ) + ak_props_bytes(props@),
    }
}

/// The state is of `version`'s shape, with fewer than 2^16 properties.
pub open spec fn state_ok(s: StateGroupState, version: BankVersion) -> bool {
    match s {
        StateGroupState::V140 { .. } => version == BankVersion::V140,
        StateGroupState::V154 { props, .. } => version == BankVersion::V154 && props@.len() <= 0xFFFF,
    }
}

/// How long a state at `p` is.
pub open spec fn state_len(c: Seq<u8>, p: int, version: BankVersion) -> int {
    match version {
        BankVersion::V140 => 8,
        BankVersion::V154 => 6 + 6 * le_u16_at(c, p + 4),
    }
}

impl StateGroupState {
    pub fn read(stream: &mut MemoryStream, version: BankVersion) -> (s: StateGroupState)
        requires
            old(stream).wf(),
            old(stream).position() + 6 <= old(stream).contents().len(),
            old(stream).position() + state_len(old(stream).contents(), old(stream).position() as int, version)
                <= old(stream).contents().len(),
        ensures
            final(stream).wf(),
            final(stream).contents() == old(stream).contents(),
            ({
                let c = old(stream).contents();
                let p = old(stream).position() as int;
                let e = p + state_len(c, p, version);
                &&& final(stream).position() == e
                &&& state_ok(s, version)
                &&& state_bytes(s) == c.subrange(p, e)
            }),
    {
        let ghost c = stream.contents();
        let ghost p = stream.position() as int;
        let state_id = stream.read_u32();
        proof {
            lemma_u32_bytes(c, p);
        }
        match version {
            BankVersion::V140 => {
                let state_instance_id = stream.read_u32();
                proof {
                    lemma_u32_bytes(c, p + 4);
                    lemma_split(c, p, p + 4, p + 8);
                }
                StateGroupState::V140 { state_id, state_instance_id }
            },
            BankVersion::V154 => {
                let count = stream.read_u16();
                proof {
                    lemma_u16_bytes(c, p + 4);
                    lemma_split(c, p, p + 4, p + 6);
                }
                let mut props: Vec<AkPropBundle> = Vec::new();
                let mut k: u16 = 0;
                assert(ak_props_bytes(props@) =~= c.subrange(p + 6, p + 6));
                while k < count
                    invariant
                        k <= count,
                        count == le_u16_at(c, p + 4),
                        stream.wf(),
                        stream.contents() == c,
                        0 <= p,
                        p + 6 + 6 * count <= c.len(),
                        stream.position() == p + 6 + 6 * k,
                        props@.len() == k,
                        ak_props_bytes(props@) == c.subrange(p + 6, p + 6 + 6 * k),
                    decreases count - k,
                {
                    let ghost q = stream.position() as int;
                    let a = AkPropBundle::read(stream);
                    proof {
                        lemma_split(c, p + 6, q, q + 6);
                    }
                    let ghost before = props@;
                    props.push(a);
                    assert(props@.drop_last() =~= before);
                    k = k + 1;
                }
                proof {
                    lemma_split(c, p, p + 6, p + 6 + 6 * count);
                }
                let s = StateGroupState::V154 { state_id, props };
                assert(state_bytes(s) =~= c.subrange(p, p + 4) + c.subrange(p + 4, p + 6) + c.subrange(
                    p + 6,
                    p + 6 + 6 * count,
                ));
                s
            },
        }
    }

    pub fn get_data(&self) -> (out: Vec<u8>)
        ensures
            out@ == state_bytes(*self),
    {
        let mut out: Vec<u8> = Vec::new();
        match self {
            StateGroupState::V140 { state_id, state_instance_id } => {
                extend_u32(&mut out, *state_id);
                extend_u32(&mut out, *state_instance_id);
            },
            StateGroupState::V154 { state_id, props } => {
                extend_u32(&mut out, *state_id);
                let n = u16_to_le_bytes(props.len() as u16);
                out.push(n[0]);
                out.push(n[1]);
                let ghost head = out@;
                assert(head =~= spec_u32_to_le_bytes(*state_id) + spec_u16_to_le_bytes(props@.len() as u16));
                let mut k: usize = 0;
                while k < props.len()
                    invariant
                        k <= props@.len(),
                        out@ == head + ak_props_bytes(props@.take(k as int)),
                    decreases props@.len() - k,
                {
                    let b = props[k].get_data();
                    extend_bytes(&mut out, &b);
                    assert(props@.take(k + 1).drop_last() =~= props@.take(k as int));
                    k = k + 1;
                    assert(out@ =~= head + ak_props_bytes(props@.take(k as int)));
                }
                assert(props@.take(props@.len() as int) =~= props@);
            },
        }
        assert(out@ =~= state_bytes(*self));
        out
    }
}

/// A state group: its id, sync type and states.
#[derive(Debug, Clone)]
pub struct StateGroup {
    pub state_group_id: u32,
    pub state_sync_type: u8,
    pub states: Vec<StateGroupState>,
}

pub open spec fn states_bytes(ss: Seq<StateGroupState>) -> Seq<u8>
    decreases ss.len(),
{
    if ss.len() == 0 {
        Seq::empty()
    } else {
        states_bytes(ss.drop_last()) + state_bytes(ss.last())
    }
}

/// How long `n` states from `p` are, when each one's count field is there.
pub open spec fn states_len(c: Seq<u8>, p: int, version: BankVersion, n: nat) -> Option<int>
    decreases n,
{
    if n == 0 {
        Some(0)
    } else if p + 6 > c.len() {
        None
    } else {
        let l = state_len(c, p, version);
        match states_len(c, p + l, version, (n - 1) as nat) {
            None => None,
            Some(r) => Some(l + r),
        }
    }
}

pub open spec fn group_bytes(g: StateGroup) -> Seq<u8> {
    spec_u32_to_le_bytes(g.state_group_id) + seq![g.state_sync_type, g.states@.len() as u8] + states_bytes(g.states@)
}

pub open spec fn group_ok(g: StateGroup, version: BankVersion) -> bool {
    &&& g.states@.len() < 256
    &&& forall|i: int| 0 <= i < g.states@.len() ==> state_ok(#[trigger] g.states@[i], version)
}

/// How long a state group at `p` is.
pub open spec fn group_len(c: Seq<u8>, p: int, version: BankVersion) -> Option<int> {
    if p + 6 > c.len() {
        None
    } else {
        match states_len(c, p + 6, version, c[p + 5] as nat) {
            None => None,
            Some(r) => Some(6 + r),
        }
    }
}

proof fn lemma_states_len_pos(c: Seq<u8>, p: int, version: BankVersion, n: nat)
    requires
        states_len(c, p, version, n) is Some,
    ensures
        states_len(c, p, version, n).unwrap() >= 0,
    decreases n,
{
    if n > 0 {
        lemma_states_len_pos(c, p + state_len(c, p, version), version, (n - 1) as nat);
    }
}

impl StateGroup {
    pub fn read(stream: &mut MemoryStream, version: BankVersion) -> (g: StateGroup)
        requires
            old(stream).wf(),
            group_len(old(stream).contents(), old(stream).position() as int, version) matches Some(l)
                && old(stream).position() + l <= old(stream).contents().len(),
        ensures
            final(stream).wf(),
            final(stream).contents() == old(stream).contents(),
            ({
                let c = old(stream).contents();
                let p = old(stream).position() as int;
                let e = p + group_len(c, p, version).unwrap();
                &&& final(stream).position() == e
                &&& group_ok(g, version)
                &&& group_bytes(g) == c.subrange(p, e)
            }),
    {
        let ghost c = stream.contents();
        let ghost p = stream.position() as int;
        let ghost e = p + group_len(c, p, version).unwrap();
        let state_group_id = stream.read_u32();
        let state_sync_type = stream.read_u8();
        let num_states = stream.read_u8();
        proof {
            lemma_u32_bytes(c, p);
            lemma_split(c, p, p + 4, p + 6);
            assert(c.subrange(p + 4, p + 6) =~= seq![state_sync_type, num_states]);
            lemma_states_len_pos(c, p + 6, version, num_states as nat);
        }
        let mut states: Vec<StateGroupState> = Vec::new();
        let mut k: u8 = 0;
        assert(states_bytes(states@) =~= c.subrange(p + 6, p + 6));
        while k < num_states
            invariant
                k <= num_states,
                num_states == c[p + 5],
                stream.wf(),
                stream.contents() == c,
                0 <= p,
                p + 6 <= stream.position() <= e <= c.len(),
                states_len(c, stream.position() as int, version, (num_states - k) as nat) matches Some(r)
                    && stream.position() + r == e,
                states@.len() == k,
                forall|i: int| 0 <= i < states@.len() ==> state_ok(#[trigger] states@[i], version),
                states_bytes(states@) == c.subrange(p + 6, stream.position() as int),
            decreases num_states - k,
        {
            let ghost q = stream.position() as int;
            let ghost l = state_len(c, q, version);
            proof {
                lemma_states_len_pos(c, q + l, version, (num_states - k - 1) as nat);
            }
            let s = StateGroupState::read(stream, version);
            proof {
                lemma_split(c, p + 6, q, q + l);
            }
            let ghost before = states@;
            states.push(s);
            assert(states@.drop_last() =~= before);
            k = k + 1;
        }
        proof {
            lemma_split(c, p, p + 6, e);
        }
        let g = StateGroup { state_group_id, state_sync_type, states };
        assert(group_bytes(g) =~= c.subrange(p, p + 4) + c.subrange(p + 4, p + 6) + c.subrange(p + 6, e));
        g
    }

    pub fn get_data(&self) -> (out: Vec<u8>)
        ensures
            out@ == group_bytes(*self),
    {
        let mut out: Vec<u8> = Vec::new();
        extend_u32(&mut out, self.state_group_id);
        out.push(self.state_sync_type);
        out.push(self.states.len() as u8);
        let ghost head = out@;
        let mut k: usize = 0;
        while k < self.states.len()
            invariant
                k <= self.states@.len(),
                out@ == head + states_bytes(self.states@.take(k as int)),
            decreases self.states@.len() - k,
        {
            let b = self.states[k].get_data();
            extend_bytes(&mut out, b.as_slice());
            assert(self.states@.take(k + 1).drop_last() =~= self.states@.take(k as int));
            k = k + 1;
            assert(out@ =~= head + states_bytes(self.states@.take(k as int)));
        }
        assert(self.states@.take(self.states@.len() as int) =~= self.states@);
        assert(out@ =~= group_bytes(*self));
        out
    }
}

/// State properties and state groups.
#[derive(Debug, Clone)]
pub struct StateParams {
    pub state_props: Vec<StateProp>,
    pub state_groups: Vec<StateGroup>,
}

pub open spec fn state_props_bytes(ps: Seq<StateProp>) -> Seq<u8>
    decreases ps.len(),
{
    if ps.len() == 0 {
        Seq::empty()
    } else {
        state_props_bytes(ps.drop_last()) + seq![ps.last().property_id, ps.last().accum_type, ps.last().in_db]
    }
}

pub open spec fn groups_bytes(gs: Seq<StateGroup>) -> Seq<u8>
    decreases gs.len(),
{
    if gs.len() == 0 {
        Seq::empty()
    } else {
        groups_bytes(gs.drop_last()) + group_bytes(gs.last())
    }
}

/// How long `n` state groups from `p` are.
pub open spec fn groups_len(c: Seq<u8>, p: int, version: BankVersion, n: nat) -> Option<int>
    decreases n,
{
    if n == 0 {
        Some(0)
    } else {
        match group_len(c, p, version) {
            None => None,
            Some(l) => match groups_len(c, p + l, version, (n - 1) as nat) {
                None => None,
                Some(r) => Some(l + r),
            },
        }
    }
}

/// How long the state parameters at `p` are.
pub open spec fn state_params_len(c: Seq<u8>, p: int, version: BankVersion) -> Option<int> {
    if p + 1 > c.len() {
        None
    } else {
        let q = p + 1 + 3 * c[p];
        if q + 1 > c.len() {
            None
        } else {
            match groups_len(c, q + 1, version, c[q] as nat) {
                None => None,
                Some(r) => Some(q + 1 + r - p),
            }
        }
    }
}

pub open spec fn state_params_bytes(s: StateParams) -> Seq<u8> {
    seq![s.state_props@.len() as u8] + state_props_bytes(s.state_props@) + seq![s.state_groups@.len() as u8]
        + groups_bytes(s.state_groups@)
}

pub open spec fn state_params_ok(s: StateParams, version: BankVersion) -> bool {
    &&& s.state_props@.len() < 256
    &&& s.state_groups@.len() < 256
    &&& forall|i: int| 0 <= i < s.state_groups@.len() ==> group_ok(#[trigger] s.state_groups@[i], version)
}

proof fn lemma_groups_len_pos(c: Seq<u8>, p: int, version: BankVersion, n: nat)
    requires
        groups_len(c, p, version, n) is Some,
    ensures
        groups_len(c, p, version, n).unwrap() >= 0,
    decreases n,
{
    if n > 0 {
        let l = group_len(c, p, version).unwrap();
        lemma_states_len_pos(c, p + 6, version, c[p + 5] as nat);
        lemma_groups_len_pos(c, p + l, version, (n - 1) as nat);
    }
}

impl StateParams {
    pub fn read(stream: &mut MemoryStream, version: BankVersion) -> (s: StateParams)
        requires
            old(stream).wf(),
            state_params_len(old(stream).contents(), old(stream).position() as int, version) matches Some(l)
                && old(stream).position() + l <= old(stream).contents().len(),
        ensures
            final(stream).wf(),
            final(stream).contents() == old(stream).contents(),
            ({
                let c = old(stream).contents();
                let p = old(stream).position() as int;
                let e = p + state_params_len(c, p, version).unwrap();
                &&& final(stream).position() == e
                &&& state_params_ok(s, version)
                &&& state_params_bytes(s) == c.subrange(p, e)
            }),
    {
        let ghost c = stream.contents();
        let ghost p = stream.position() as int;
        let ghost e = p + state_params_len(c, p, version).unwrap();
        let np = stream.read_u8();
        let mut state_props: Vec<StateProp> = Vec::new();
        let mut k: u8 = 0;
        assert(state_props_bytes(state_props@) =~= c.subrange(p + 1, p + 1));
        while k < np
            invariant
                k <= np,
                np == c[p],
                stream.wf(),
                stream.contents() == c,
                0 <= p,
                p + 1 + 3 * np + 1 <= c.len(),
                stream.position() == p + 1 + 3 * k,
                state_props@.len() == k,
                state_props_bytes(state_props@) == c.subrange(p + 1, p + 1 + 3 * k),
            decreases np - k,
        {
            let ghost q = stream.position() as int;
            let sp = StateProp::read(stream);
            assert(c.subrange(q, q + 3) =~= seq![sp.property_id, sp.accum_type, sp.in_db]);
            proof {
                lemma_split(c, p + 1, q, q + 3);
            }
            let ghost before = state_props@;
            state_props.push(sp);
            assert(state_props@.drop_last() =~= before);
            k = k + 1;
        }
        let ghost q0 = p + 1 + 3 * np;
        let ng = stream.read_u8();
        proof {
            lemma_groups_len_pos(c, q0 + 1, version, ng as nat);
        }
        let mut state_groups: Vec<StateGroup> = Vec::new();
        let mut k: u8 = 0;
        assert(groups_bytes(state_groups@) =~= c.subrange(q0 + 1, q0 + 1));
        while k < ng
            invariant
                k <= ng,
                ng == c[q0],
                q0 == p + 1 + 3 * np,
                stream.wf(),
                stream.contents() == c,
                0 <= p,
                q0 + 1 <= stream.position() <= e <= c.len(),
                groups_len(c, stream.position() as int, version, (ng - k) as nat) matches Some(r) && stream.position()
                    + r == e,
                state_groups@.len() == k,
                forall|i: int| 0 <= i < state_groups@.len() ==> group_ok(#[trigger] state_groups@[i], version),
                groups_bytes(state_groups@) == c.subrange(q0 + 1, stream.position() as int),
            decreases ng - k,
        {
            let ghost q = stream.position() as int;
            let ghost l = group_len(c, q, version).unwrap();
            proof {
                let n = (ng - k) as nat;
                assert(groups_len(c, q, version, n) == match groups_len(c, q + l, version, (n - 1) as nat) {
                    None => None,
                    Some(r) => Some(l + r),
                });
                lemma_groups_len_pos(c, q + l, version, (n - 1) as nat);
                lemma_states_len_pos(c, q + 6, version, c[q + 5] as nat);
            }
            let g = StateGroup::read(stream, version);
            proof {
                lemma_split(c, q0 + 1, q, q + l);
            }
            let ghost before = state_groups@;
            state_groups.push(g);
            assert(state_groups@.drop_last() =~= before);
            k = k + 1;
        }
        proof {
            lemma_split(c, p, p + 1, q0);
            lemma_split(c, p, q0, q0 + 1);
            lemma_split(c, p, q0 + 1, e);
        }
        let s = StateParams { state_props, state_groups };
        assert(c.subrange(p, p + 1) =~= seq![np]);
        assert(c.subrange(q0, q0 + 1) =~= seq![ng]);
        assert(state_params_bytes(s) =~= c.subrange(p, p + 1) + c.subrange(p + 1, q0) + c.subrange(q0, q0 + 1)
            + c.subrange(q0 + 1, e));
        s
    }

    pub fn get_data(&self) -> (out: Vec<u8>)
        ensures
            out@ == state_params_bytes(*self),
    {
        let mut out: Vec<u8> = Vec::new();
        out.push(self.state_props.len() as u8);
        let ghost h0 = out@;
        let mut k: usize = 0;
        while k < self.state_props.len()
            invariant
                k <= self.state_props@.len(),
                out@ == h0 + state_props_bytes(self.state_props@.take(k as int)),
            decreases self.state_props@.len() - k,
        {
            let b = self.state_props[k].get_data();
            extend_bytes(&mut out, &b);
            assert(self.state_props@.take(k + 1).drop_last() =~= self.state_props@.take(k as int));
            k = k + 1;
            assert(out@ =~= h0 + state_props_bytes(self.state_props@.take(k as int)));
        }
        assert(self.state_props@.take(self.state_props@.len() as int) =~= self.state_props@);
        out.push(self.state_groups.len() as u8);
        let ghost h1 = out@;
        let mut k: usize = 0;
        while k < self.state_groups.len()
            invariant
                k <= self.state_groups@.len(),
                out@ == h1 + groups_bytes(self.state_groups@.take(k as int)),
            decreases self.state_groups@.len() - k,
        {
            let b = self.state_groups[k].get_data();
            extend_bytes(&mut out, b.as_slice());
            assert(self.state_groups@.take(k + 1).drop_last() =~= self.state_groups@.take(k as int));
            k = k + 1;
            assert(out@ =~= h1 + groups_bytes(self.state_groups@.take(k as int)));
        }
        assert(self.state_groups@.take(self.state_groups@.len() as int) =~= self.state_groups@);
        assert(out@ =~= state_params_bytes(*self));
        out
    }
}

// ---------------------------------------------------------------------------
// RTPC curves.

/// A point of an RTPC curve: raw `f32` bits of both coordinates, and the
/// interpolation.
#[derive(Debug, Clone, Copy, PartialEq, Eq, Structural)]
pub struct RTPCGraphPoint {
    pub from: u32,
    pub to: u32,
    pub interp: u32,
}

pub open spec fn point_bytes(g: RTPCGraphPoint) -> Seq<u8> {
    spec_u32_to_le_bytes(g.from) + spec_u32_to_le_bytes(g.to) + spec_u32_to_le_bytes(g.interp)
}

impl RTPCGraphPoint {
    pub fn read(stream: &mut MemoryStream) -> (g: RTPCGraphPoint)
        requires
            old(stream).wf(),
            old(stream).position() + 12 <= old(stream).contents().len(),
        ensures
            final(stream).wf(),
            final(stream).contents() == old(stream).contents(),
            final(stream).position() == old(stream).position() + 12,
            point_bytes(g) == old(stream).contents().subrange(
                old(stream).position() as int,
                old(stream).position() + 12int,
            ),
    {
        let ghost c = stream.contents();
        let ghost p = stream.position() as int;
        let from = stream.read_u32();
        let to = stream.read_u32();
        let interp = stream.read_u32();
        proof {
            lemma_u32_bytes(c, p);
            lemma_u32_bytes(c, p + 4);
            lemma_u32_bytes(c, p + 8);
            lemma_split(c, p, p + 4, p + 8);
            lemma_split(c, p, p + 8, p + 12);
        }
        RTPCGraphPoint { from, to, interp }
    }

    pub fn get_data(&self) -> (out: [u8; 12])
        ensures
            out@ == point_bytes(*self),
    {
        let a = u32_to_le_bytes(self.from);
        let b = u32_to_le_bytes(self.to);
        let d = u32_to_le_bytes(self.interp);
        let out = [a[0], a[1], a[2], a[3], b[0], b[1], b[2], b[3], d[0], d[1], d[2], d[3]];
        assert(out@ =~= point_bytes(*self));
        out
    }
}

/// An RTPC curve on a parameter.
#[derive(Debug, Clone)]
pub struct RTPC {
    pub rtpc_id: u32,
    pub rtpc_type: u8,
    pub rtpc_accum: u8,
    pub param_id: u8,
    pub rtpc_curve_id: u32,
    pub scaling: u8,
    pub graph_points: Vec<RTPCGraphPoint>,
}

pub open spec fn points_bytes(ps: Seq<RTPCGraphPoint>) -> Seq<u8>
    decreases ps.len(),
{
    if ps.len() == 0 {
        Seq::empty()
    } else {
        points_bytes(ps.drop_last()) + point_bytes(ps.last())
    }
}

pub open spec fn rtpc_bytes(r: RTPC) -> Seq<u8> {
    spec_u32_to_le_bytes(r.rtpc_id) + seq![r.rtpc_type, r.rtpc_accum, r.param_id] + spec_u32_to_le_bytes(
        r.rtpc_curve_id,
    ) + seq![r.scaling] + spec_u16_to_le_bytes(r.graph_points@.len() as u16) + points_bytes(r.graph_points@)
}

/// How long an RTPC at `p` is: 14 bytes and 12 per point.
pub open spec fn rtpc_len(c: Seq<u8>, p: int) -> int {
    14 + 12 * le_u16_at(c, p + 12)
}

/// How long `n` RTPCs from `p` are.
pub open spec fn rtpcs_len(c: Seq<u8>, p: int, n: nat) -> Option<int>
    decreases n,
{
    if n == 0 {
        Some(0)
    } else if p + 14 > c.len() {
        None
    } else {
        match rtpcs_len(c, p + rtpc_len(c, p), (n - 1) as nat) {
            None => None,
            Some(r) => Some(rtpc_len(c, p) + r),
        }
    }
}

proof fn lemma_rtpcs_len_pos(c: Seq<u8>, p: int, n: nat)
    requires
        rtpcs_len(c, p, n) is Some,
    ensures
        rtpcs_len(c, p, n).unwrap() >= 0,
    decreases n,
{
    if n > 0 {
        lemma_rtpcs_len_pos(c, p + rtpc_len(c, p), (n - 1) as nat);
    }
}

impl RTPC {
    pub fn read(stream: &mut MemoryStream) -> (r: RTPC)
        requires
            old(stream).wf(),
            old(stream).position() + 14 <= old(stream).contents().len(),
            old(stream).position() + rtpc_len(old(stream).contents(), old(stream).position() as int)
                <= old(stream).contents().len(),
        ensures
            final(stream).wf(),
            final(stream).contents() == old(stream).contents(),
            ({
                let c = old(stream).contents();
                let p = old(stream).position() as int;
                let e = p + rtpc_len(c, p);
                &&& final(stream).position() == e
                &&& r.graph_points@.len() <= 0xFFFF
                &&& rtpc_bytes(r) == c.subrange(p, e)
            }),
    {
        let ghost c = stream.contents();
        let ghost p = stream.position() as int;
        let rtpc_id = stream.read_u32();
        let rtpc_type = stream.read_u8();
        let rtpc_accum = stream.read_u8();
        let param_id = stream.read_u8();
        let rtpc_curve_id = stream.read_u32();
        let scaling = stream.read_u8();
        let size = stream.read_u16();
        proof {
            lemma_u32_bytes(c, p);
            lemma_u32_bytes(c, p + 7);
            lemma_u16_bytes(c, p + 12);
        }
        let mut graph_points: Vec<RTPCGraphPoint> = Vec::new();
        let mut k: u16 = 0;
        assert(points_bytes(graph_points@) =~= c.subrange(p + 14, p + 14));
        while k < size
            invariant
                k <= size,
                size == le_u16_at(c, p + 12),
                stream.wf(),
                stream.contents() == c,
                0 <= p,
                p + 14 + 12 * size <= c.len(),
                stream.position() == p + 14 + 12 * k,
                graph_points@.len() == k,
                points_bytes(graph_points@) == c.subrange(p + 14, p + 14 + 12 * k),
            decreases size - k,
        {
            let ghost q = stream.position() as int;
            let g = RTPCGraphPoint::read(stream);
            proof {
                lemma_split(c, p + 14, q, q + 12);
            }
            let ghost before = graph_points@;
            graph_points.push(g);
            assert(graph_points@.drop_last() =~= before);
            k = k + 1;
        }
        let r = RTPC { rtpc_id, rtpc_type, rtpc_accum, param_id, rtpc_curve_id, scaling, graph_points };
        assert(rtpc_bytes(r) =~= c.subrange(p, p + 4) + c.subrange(p + 4, p + 7) + c.subrange(p + 7, p + 11)
            + c.subrange(p + 11, p + 12) + c.subrange(p + 12, p + 14) + c.subrange(p + 14, p + 14 + 12 * size));
        assert(c.subrange(p, p + 14 + 12 * size) =~= c.subrange(p, p + 4) + c.subrange(p + 4, p + 7) + c.subrange(
            p + 7,
            p + 11,
        ) + c.subrange(p + 11, p + 12) + c.subrange(p + 12, p + 14) + c.subrange(p + 14, p + 14 + 12 * size));
        r
    }

    pub fn get_data(&self) -> (out: Vec<u8>)
        ensures
            out@ == rtpc_bytes(*self),
    {
        let mut out: Vec<u8> = Vec::new();
        extend_u32(&mut out, self.rtpc_id);
        out.push(self.rtpc_type);
        out.push(self.rtpc_accum);
        out.push(self.param_id);
        extend_u32(&mut out, self.rtpc_curve_id);
        out.push(self.scaling);
        let n = u16_to_le_bytes(self.graph_points.len() as u16);
        out.push(n[0]);
        out.push(n[1]);
        let ghost head = out@;
        let mut k: usize = 0;
        while k < self.graph_points.len()
            invariant
                k <= self.graph_points@.len(),
                out@ == head + points_bytes(self.graph_points@.take(k as int)),
            decreases self.graph_points@.len() - k,
        {
            let b = self.graph_points[k].get_data();
            extend_bytes(&mut out, &b);
            assert(self.graph_points@.take(k + 1).drop_last() =~= self.graph_points@.take(k as int));
            k = k + 1;
            assert(out@ =~= head + points_bytes(self.graph_points@.take(k as int)));
        }
        assert(self.graph_points@.take(self.graph_points@.len() as int) =~= self.graph_points@);
        assert(out@ =~= rtpc_bytes(*self));
        out
    }
}


// ---------------------------------------------------------------------------
// Positioning.

/// Whether a positioning bits byte announces 3D positioning.
pub open spec fn has_3d_positioning(bits: u8) -> bool {
    bits & 1 != 0 && (bits >> 1) & 1 != 0
}

/// Whether a positioning bits byte announces an automation path.
pub open spec fn has_automation(bits: u8) -> bool {
    (bits >> 5) & 3 != 0
}

/// How long the positioning parameters at `p` are: the bits byte; with 3D
/// positioning a second byte; with automation a path mode, a transition
/// time, the vertices (16 bytes each) and the playlist items (8 bytes, then
/// 12 bytes more, each).
pub open spec fn positioning_len(c: Seq<u8>, p: int) -> Option<int> {
    if p + 1 > c.len() {
        None
    } else if !has_3d_positioning(c[p]) {
        Some(1)
    } else if !has_automation(c[p]) {
        Some(2)
    } else if p + 11 > c.len() {
        None
    } else {
        let q = p + 11 + 16 * le_u32_at(c, p + 7);
        if q + 4 > c.len() {
            None
        } else {
            Some(q + 4 + 20 * le_u32_at(c, q) - p)
        }
    }
}

/// Walks the positioning parameters to find their length and hands back their
/// bytes unparsed.
fn parse_positioning_params(stream: &mut MemoryStream) -> (out: Vec<u8>)
    requires
        old(stream).wf(),
        positioning_len(old(stream).contents(), old(stream).position() as int) matches Some(l)
            && old(stream).position() + l <= old(stream).contents().len(),
    ensures
        final(stream).wf(),
        final(stream).contents() == old(stream).contents(),
        ({
            let c = old(stream).contents();
            let p = old(stream).position() as int;
            let e = p + positioning_len(c, p).unwrap();
            &&& final(stream).position() == e
            &&& out@ == c.subrange(p, e)
        }),
{
    let ghost c = stream.contents();
    let ghost e = stream.position() + positioning_len(c, stream.position() as int).unwrap();
    let head = stream.tell();
    let bits_positioning = stream.read_u8();
    let has_positioning = bits_positioning & 1 != 0;
    let mut has_3d = false;
    if has_positioning {
        has_3d = (bits_positioning >> 1) & 1 != 0;
    }
    if has_positioning && has_3d {
        let _bits_3d = stream.read_u8();
        let e_3d_position_type = (bits_positioning >> 5) & 3;
        if e_3d_position_type != 0 {
            let _path_mode = stream.read_u8();
            let _transition_time = stream.read_i32();
            let num_vertices = stream.read_u32();
            let ghost q = head + 11;
            let mut k: u32 = 0;
            while k < num_vertices
                invariant
                    k <= num_vertices,
                    stream.wf(),
                    stream.contents() == c,
                    q + 16 * num_vertices + 4 <= e <= c.len(),
                    stream.position() == q + 16 * k,
                decreases num_vertices - k,
            {
                stream.read(16);
                k = k + 1;
            }
            let num_playlist_items = stream.read_u32();
            let ghost r = q + 16 * num_vertices + 4;
            let mut k: u32 = 0;
            while k < num_playlist_items
                invariant
                    k <= num_playlist_items,
                    stream.wf(),
                    stream.contents() == c,
                    r + 20 * num_playlist_items == e,
                    e <= c.len(),
                    stream.position() == r + 8 * k,
                decreases num_playlist_items - k,
            {
                stream.read(8);
                k = k + 1;
            }
            let mut k: u32 = 0;
            while k < num_playlist_items
                invariant
                    k <= num_playlist_items,
                    stream.wf(),
                    stream.contents() == c,
                    r + 20 * num_playlist_items == e,
                    e <= c.len(),
                    stream.position() == r + 8 * num_playlist_items + 12 * k,
                decreases num_playlist_items - k,
            {
                stream.read(12);
                k = k + 1;
            }
        }
    }
    let tail = stream.tell();
    stream.seek(head);
    copy_bytes(stream.read(tail - head))
}


// ---------------------------------------------------------------------------
// The parameter block.

/// The shared parameter block of a hierarchy object.
pub struct BaseParam {
    pub version: BankVersion,
    pub is_override_parent_fx: u8,
    /// The "bypass all FX" byte; on the wire only when there are FX chunks.
    /// A V154 block always writes it as 0.
    pub bypass_all: u8,
    pub fx_chunks: Vec<FxChunk>,
    pub is_override_parent_metadata: u8,
    pub fx_chunks_metadata: Vec<FxChunkMetadata>,
    /// Present in V140 blocks only.
    pub override_attachment_params: Option<u8>,
    pub override_bus_id: u32,
    pub direct_parent_id: u32,
    pub by_bit_vector_a: u8,
    pub prop_bundle: PropBundle,
    pub ranged_prop_bundle: RangedPropBundle,
    pub positioning_param_data: Vec<u8>,
    pub aux_params: AuxParams,
    pub adv_setting: AdvSetting,
    pub state_params: StateParams,
    pub rtpcs: Vec<RTPC>,
}

pub open spec fn fx_chunks_bytes(cs: Seq<FxChunk>) -> Seq<u8>
    decreases cs.len(),
{
    if cs.len() == 0 {
        Seq::empty()
    } else {
        fx_chunks_bytes(cs.drop_last()) + fx_chunk_bytes(cs.last())
    }
}

pub open spec fn metas_bytes(ms: Seq<FxChunkMetadata>) -> Seq<u8>
    decreases ms.len(),
{
    if ms.len() == 0 {
        Seq::empty()
    } else {
        metas_bytes(ms.drop_last()) + fx_metadata_bytes(ms.last())
    }
}

pub open spec fn rtpcs_bytes(rs: Seq<RTPC>) -> Seq<u8>
    decreases rs.len(),
{
    if rs.len() == 0 {
        Seq::empty()
    } else {
        rtpcs_bytes(rs.drop_last()) + rtpc_bytes(rs.last())
    }
}

pub open spec fn prop_bundle_bytes(b: PropBundle) -> Seq<u8> {
    seq![b.ids@.len() as u8] + b.ids@ + b.value_bytes()
}

pub open spec fn aux_bytes(a: AuxParams) -> Seq<u8> {
    seq![a.bit_vector_aux] + u32s_bytes(a.aux_ids@) + spec_u32_to_le_bytes(a.reflection_aux_bus)
}

pub open spec fn adv_bytes(a: AdvSetting) -> Seq<u8> {
    seq![a.bit_vector_adv, a.virtual_queue_behavior] + spec_u16_to_le_bytes(a.max_num_instance) + seq![
        a.below_threshold_behavior,
        a.bit_vector_hdr,
    ]
}

/// The bypass byte as a block of `version` writes it.
pub open spec fn written_bypass(b: BaseParam) -> u8 {
    match b.version {
        BankVersion::V140 => b.bypass_all,
        BankVersion::V154 => 0,
    }
}

/// The FX section: the bypass byte and the chunks, when there are chunks.
pub open spec fn fx_section_bytes(b: BaseParam) -> Seq<u8> {
    if b.fx_chunks@.len() > 0 {
        seq![written_bypass(b)] + fx_chunks_bytes(b.fx_chunks@)
    } else {
        Seq::empty()
    }
}

/// Everything after the FX metadata.
pub open spec fn base_tail_bytes(b: BaseParam) -> Seq<u8> {
    (match b.override_attachment_params {
        Some(x) => seq![x],
        None => Seq::empty(),
    }) + spec_u32_to_le_bytes(b.override_bus_id) + spec_u32_to_le_bytes(b.direct_parent_id) + seq![
        b.by_bit_vector_a,
    ] + prop_bundle_bytes(b.prop_bundle) + ranged_bytes(b.ranged_prop_bundle) + b.positioning_param_data@
        + aux_bytes(b.aux_params) + adv_bytes(b.adv_setting) + state_params_bytes(b.state_params)
        + spec_u16_to_le_bytes(b.rtpcs@.len() as u16) + rtpcs_bytes(b.rtpcs@)
}

/// The bytes of a parameter block.
pub open spec fn base_param_bytes(b: BaseParam) -> Seq<u8> {
    seq![b.is_override_parent_fx, b.fx_chunks@.len() as u8] + fx_section_bytes(b) + seq![
        b.is_override_parent_metadata,
        b.fx_chunks_metadata@.len() as u8,
    ] + metas_bytes(b.fx_chunks_metadata@) + base_tail_bytes(b)
}

/// A block as read: its lists fit their count fields, its parts are of its
/// version's shape, and the attachment byte is there exactly for V140.
pub open spec fn base_param_ok(b: BaseParam) -> bool {
    &&& b.fx_chunks@.len() < 256
    &&& forall|i: int| 0 <= i < b.fx_chunks@.len() ==> (match #[trigger] b.fx_chunks@[i].flags {
        FxChunkFlags::V140 { .. } => b.version == BankVersion::V140,
        FxChunkFlags::V154 { .. } => b.version == BankVersion::V154,
    })
    &&& b.fx_chunks_metadata@.len() < 256
    &&& (b.override_attachment_params is Some <==> b.version == BankVersion::V140)
    &&& b.prop_bundle.ids@.len() == b.prop_bundle.values@.len()
    &&& b.prop_bundle.ids@.len() < 256
    &&& ranged_ok(b.ranged_prop_bundle)
    &&& (b.aux_params.aux_ids@.len() == if has_aux(b.aux_params.bit_vector_aux) { 4int } else { 0int })
    &&& state_params_ok(b.state_params, b.version)
    &&& b.rtpcs@.len() <= 0xFFFF
    &&& forall|i: int| 0 <= i < b.rtpcs@.len() ==> (#[trigger] b.rtpcs@[i]).graph_points@.len() <= 0xFFFF
}

pub open spec fn fx_section_len(n: u8, version: BankVersion) -> int {
    if n > 0 {
        1 + n * fx_chunk_len(version)
    } else {
        0
    }
}

pub open spec fn attachment_len(version: BankVersion) -> int {
    match version {
        BankVersion::V140 => 1,
        BankVersion::V154 => 0,
    }
}

pub open spec fn aux_len(bits: u8) -> int {
    if has_aux(bits) {
        21
    } else {
        5
    }
}

/// Where the FX metadata of a block at `p` begins.
pub open spec fn meta_at(c: Seq<u8>, p: int, version: BankVersion) -> int {
    p + 2 + fx_section_len(c[p + 1], version)
}

/// How long the part of a block after its FX metadata, starting at `o`, is.
pub open spec fn base_tail_len(c: Seq<u8>, o: int, version: BankVersion) -> Option<int> {
    let bus = o + attachment_len(version);
    if o < 0 || bus + 10 > c.len() {
        None
    } else {
        let pb = bus + 9;
        let rb = pb + 1 + 5 * c[pb];
        if rb + 1 > c.len() {
            None
        } else {
            let pos = rb + 1 + 9 * c[rb];
            match positioning_len(c, pos) {
                None => None,
                Some(pl) => {
                    let aux = pos + pl;
                    if aux + 1 > c.len() {
                        None
                    } else {
                        let st = aux + aux_len(c[aux]) + 6;
                        match state_params_len(c, st, version) {
                            None => None,
                            Some(sl) => {
                                let cv = st + sl;
                                if cv + 2 > c.len() {
                                    None
                                } else {
                                    match rtpcs_len(c, cv + 2, le_u16_at(c, cv) as nat) {
                                        None => None,
                                        Some(rl) => Some(cv + 2 + rl - o),
                                    }
                                }
                            }
                        }
                    }
                }
            }
        }
    }
}

/// How long the parameter block at `p` is, when all its count fields are in
/// the buffer.
pub open spec fn base_param_len(c: Seq<u8>, p: int, version: BankVersion) -> Option<int> {
    if p < 0 || p + 2 > c.len() || meta_at(c, p, version) + 2 > c.len() {
        None
    } else {
        let a = meta_at(c, p, version);
        let o = a + 2 + 6 * c[a + 1];
        match base_tail_len(c, o, version) {
            None => None,
            Some(t) => Some(o + t - p),
        }
    }
}

/// The source bytes as a block of `version` writes them back: a V154 block
/// with FX chunks clears its bypass byte.
pub open spec fn bypass_cleared(c: Seq<u8>, p: int, version: BankVersion) -> Seq<u8> {
    if version == BankVersion::V154 && c[p + 1] > 0 {
        c.update(p + 2, 0)
    } else {
        c
    }
}

/// Writing back a block read at `p` changes at most one byte of its source:
/// the bypass byte at `p + 2`, which a V154 block with FX chunks writes as 0.
/// A V140 block is written back exactly as it was read.
pub proof fn law_only_the_v154_bypass_byte_changes(c: Seq<u8>, p: int, version: BankVersion)
    requires
        0 <= p,
        p + 3 <= c.len(),
    ensures
        bypass_cleared(c, p, version).len() == c.len(),
        forall|i: int| 0 <= i < c.len() && i != p + 2 ==> #[trigger] bypass_cleared(c, p, version)[i] == c[i],
        bypass_cleared(c, p, version)[p + 2] == if version == BankVersion::V154 && c[p + 1] > 0 {
            0u8
        } else {
            c[p + 2]
        },
        version == BankVersion::V140 ==> bypass_cleared(c, p, version) == c,
{
}

proof fn lemma_fx_chunk_bytes(c: Seq<u8>, p: int, version: BankVersion)
    requires
        0 <= p,
        p + fx_chunk_len(version) <= c.len(),
    ensures
        fx_chunk_bytes(fx_chunk_at(c, p, version)) == c.subrange(p, p + fx_chunk_len(version)),
{
    lemma_u32_bytes(c, p + 1);
    assert(fx_chunk_bytes(fx_chunk_at(c, p, version)) =~= c.subrange(p, p + fx_chunk_len(version)));
}

proof fn lemma_state_params_len_pos(c: Seq<u8>, p: int, version: BankVersion)
    requires
        state_params_len(c, p, version) is Some,
    ensures
        state_params_len(c, p, version).unwrap() >= 2 + 3 * c[p],
{
    let q = p + 1 + 3 * c[p];
    lemma_groups_len_pos(c, q + 1, version, c[q] as nat);
}


proof fn lemma_meta_bytes(c: Seq<u8>, p: int)
    requires
        0 <= p,
        p + 6 <= c.len(),
    ensures
        fx_metadata_bytes(FxChunkMetadata { fx_index: c[p], fx_id: le_u32_at(c, p + 1), is_share_set: c[p + 5] })
            == c.subrange(p, p + 6),
{
    lemma_u32_bytes(c, p + 1);
    assert(fx_metadata_bytes(FxChunkMetadata { fx_index: c[p], fx_id: le_u32_at(c, p + 1), is_share_set: c[p + 5] })
        =~= c.subrange(p, p + 6));
}

pub proof fn lemma_u32s_bytes(c: Seq<u8>, q: int, n: nat)
    requires
        0 <= q,
        q + 4 * n <= c.len(),
    ensures
        u32s_bytes(Seq::new(n, |i: int| le_u32_at(c, q + 4 * i))) == c.subrange(q, q + 4 * n),
    decreases n,
{
    if n == 0 {
        assert(c.subrange(q, q) =~= Seq::<u8>::empty());
    } else {
        let m = (n - 1) as nat;
        lemma_u32s_bytes(c, q, m);
        assert(Seq::new(n, |i: int| le_u32_at(c, q + 4 * i)).drop_last() =~= Seq::new(
            m,
            |i: int| le_u32_at(c, q + 4 * i),
        ));
        lemma_u32_bytes(c, q + 4 * m);
        lemma_split(c, q, q + 4 * m, q + 4 * n);
    }
}

proof fn lemma_adv_bytes(c: Seq<u8>, p: int, a: AdvSetting)
    requires
        0 <= p,
        p + 6 <= c.len(),
        a == (AdvSetting {
            bit_vector_adv: c[p],
            virtual_queue_behavior: c[p + 1],
            max_num_instance: le_u16_at(c, p + 2),
            below_threshold_behavior: c[p + 4],
            bit_vector_hdr: c[p + 5],
        }),
    ensures
        adv_bytes(a) == c.subrange(p, p + 6),
{
    lemma_u16_bytes(c, p + 2);
    assert(adv_bytes(a) =~= c.subrange(p, p + 6));
}

/// Reads the FX section of a block whose FX count is `n`.
fn read_fx_section(stream: &mut MemoryStream, version: BankVersion, n: u8) -> (r: (u8, Vec<FxChunk>))
    requires
        old(stream).wf(),
        old(stream).position() + fx_section_len(n, version) <= old(stream).contents().len(),
    ensures
        final(stream).wf(),
        final(stream).contents() == old(stream).contents(),
        ({
            let c = old(stream).contents();
            let q = old(stream).position() as int;
            let e = q + fx_section_len(n, version);
            &&& final(stream).position() == e
            &&& r.1@.len() == n
            &&& forall|i: int| 0 <= i < r.1@.len() ==> (match #[trigger] r.1@[i].flags {
                FxChunkFlags::V140 { .. } => version == BankVersion::V140,
                FxChunkFlags::V154 { .. } => version == BankVersion::V154,
            })
            &&& n > 0 ==> fx_chunks_bytes(r.1@) == c.subrange(q + 1, e)
            &&& r.0 == (if n > 0 && version == BankVersion::V140 { c[q] } else { 0u8 })
        }),
{
    let ghost c = stream.contents();
    let ghost q = stream.position() as int;
    let mut bypass_all: u8 = 0;
    let mut fx_chunks: Vec<FxChunk> = Vec::new();
    if n > 0 {
        let raw_bypass_byte = stream.read_u8();
        if version == BankVersion::V140 {
            bypass_all = raw_bypass_byte;
        }
        let mut k: u8 = 0;
        assert(fx_chunks_bytes(fx_chunks@) =~= c.subrange(q + 1, q + 1));
        while k < n
            invariant
                k <= n,
                0 <= q,
                stream.wf(),
                stream.contents() == c,
                q + 1 + n * fx_chunk_len(version) <= c.len(),
                stream.position() == q + 1 + k * fx_chunk_len(version),
                fx_chunks@.len() == k,
                forall|i: int| 0 <= i < fx_chunks@.len() ==> (match #[trigger] fx_chunks@[i].flags {
                    FxChunkFlags::V140 { .. } => version == BankVersion::V140,
                    FxChunkFlags::V154 { .. } => version == BankVersion::V154,
                }),
                fx_chunks_bytes(fx_chunks@) == c.subrange(q + 1, stream.position() as int),
            decreases n - k,
        {
            let ghost at = stream.position() as int;
            proof {
                assert((k + 1) * fx_chunk_len(version) == k * fx_chunk_len(version) + fx_chunk_len(version))
                    by (nonlinear_arith);
                assert(k * fx_chunk_len(version) <= n * fx_chunk_len(version)) by (nonlinear_arith)
                    requires k < n, fx_chunk_len(version) > 0;
                assert((k + 1) * fx_chunk_len(version) <= n * fx_chunk_len(version)) by (nonlinear_arith)
                    requires k < n, fx_chunk_len(version) > 0;
            }
            let fx = FxChunk::read(stream, version);
            proof {
                lemma_fx_chunk_bytes(c, at, version);
                lemma_split(c, q + 1, at, at + fx_chunk_len(version));
            }
            let ghost before = fx_chunks@;
            fx_chunks.push(fx);
            assert(fx_chunks@.drop_last() =~= before);
            k = k + 1;
        }
    }
    (bypass_all, fx_chunks)
}

/// Reads `m` FX metadata records.
fn read_metas(stream: &mut MemoryStream, m: u8) -> (ms: Vec<FxChunkMetadata>)
    requires
        old(stream).wf(),
        old(stream).position() + 6 * m <= old(stream).contents().len(),
    ensures
        final(stream).wf(),
        final(stream).contents() == old(stream).contents(),
        final(stream).position() == old(stream).position() + 6 * m,
        ms@.len() == m,
        metas_bytes(ms@) == old(stream).contents().subrange(
            old(stream).position() as int,
            old(stream).position() + 6 * m,
        ),
{
    let ghost c = stream.contents();
    let ghost q = stream.position() as int;
    let mut ms: Vec<FxChunkMetadata> = Vec::new();
    let mut k: u8 = 0;
    assert(metas_bytes(ms@) =~= c.subrange(q, q));
    while k < m
        invariant
            k <= m,
            0 <= q,
            stream.wf(),
            stream.contents() == c,
            q + 6 * m <= c.len(),
            stream.position() == q + 6 * k,
            ms@.len() == k,
            metas_bytes(ms@) == c.subrange(q, q + 6 * k),
        decreases m - k,
    {
        let ghost at = stream.position() as int;
        let md = FxChunkMetadata::read(stream);
        proof {
            lemma_meta_bytes(c, at);
            lemma_split(c, q, at, at + 6);
        }
        let ghost before = ms@;
        ms.push(md);
        assert(ms@.drop_last() =~= before);
        k = k + 1;
    }
    ms
}

/// Reads `n` RTPC curves.
fn read_rtpcs(stream: &mut MemoryStream, n: u16) -> (rs: Vec<RTPC>)
    requires
        old(stream).wf(),
        rtpcs_len(old(stream).contents(), old(stream).position() as int, n as nat) matches Some(r)
            && old(stream).position() + r <= old(stream).contents().len(),
    ensures
        final(stream).wf(),
        final(stream).contents() == old(stream).contents(),
        ({
            let c = old(stream).contents();
            let q = old(stream).position() as int;
            let e = q + rtpcs_len(c, q, n as nat).unwrap();
            &&& final(stream).position() == e
            &&& rs@.len() == n
            &&& forall|i: int| 0 <= i < rs@.len() ==> (#[trigger] rs@[i]).graph_points@.len() <= 0xFFFF
            &&& rtpcs_bytes(rs@) == c.subrange(q, e)
        }),
{
    let ghost c = stream.contents();
    let ghost q = stream.position() as int;
    let ghost e = q + rtpcs_len(c, q, n as nat).unwrap();
    proof {
        lemma_rtpcs_len_pos(c, q, n as nat);
    }
    let mut rs: Vec<RTPC> = Vec::new();
    let mut k: u16 = 0;
    assert(rtpcs_bytes(rs@) =~= c.subrange(q, q));
    while k < n
        invariant
            k <= n,
            0 <= q,
            stream.wf(),
            stream.contents() == c,
            q <= stream.position() <= e <= c.len(),
            rtpcs_len(c, stream.position() as int, (n - k) as nat) matches Some(r) && stream.position() + r == e,
            rs@.len() == k,
            forall|i: int| 0 <= i < rs@.len() ==> (#[trigger] rs@[i]).graph_points@.len() <= 0xFFFF,
            rtpcs_bytes(rs@) == c.subrange(q, stream.position() as int),
        decreases n - k,
    {
        let ghost at = stream.position() as int;
        let ghost l = rtpc_len(c, at);
        proof {
            let m = (n - k) as nat;
            assert(rtpcs_len(c, at, m) == match rtpcs_len(c, at + l, (m - 1) as nat) {
                None => None,
                Some(r) => Some(l + r),
            });
            lemma_rtpcs_len_pos(c, at + l, (m - 1) as nat);
        }
        let r = RTPC::read(stream);
        proof {
            lemma_split(c, q, at, at + l);
        }
        let ghost before = rs@;
        rs.push(r);
        assert(rs@.drop_last() =~= before);
        k = k + 1;
    }
    rs
}

impl BaseParam {
    fn fx_section_data(&self) -> (out: Vec<u8>)
        ensures
            out@ == fx_section_bytes(*self),
    {
        let mut out: Vec<u8> = Vec::new();
        if self.fx_chunks.len() > 0 {
            match self.version {
                BankVersion::V140 => out.push(self.bypass_all),
                BankVersion::V154 => out.push(0),
            }
            let ghost h1 = out@;
            let mut k: usize = 0;
            while k < self.fx_chunks.len()
                invariant
                    k <= self.fx_chunks@.len(),
                    out@ == h1 + fx_chunks_bytes(self.fx_chunks@.take(k as int)),
                decreases self.fx_chunks@.len() - k,
            {
                let b = self.fx_chunks[k].get_data();
                extend_bytes(&mut out, b.as_slice());
                assert(self.fx_chunks@.take(k + 1).drop_last() =~= self.fx_chunks@.take(k as int));
                k = k + 1;
                assert(out@ =~= h1 + fx_chunks_bytes(self.fx_chunks@.take(k as int)));
            }
            assert(self.fx_chunks@.take(self.fx_chunks@.len() as int) =~= self.fx_chunks@);
        }
        assert(out@ =~= fx_section_bytes(*self));
        out
    }

    fn metas_data(&self) -> (out: Vec<u8>)
        ensures
            out@ == metas_bytes(self.fx_chunks_metadata@),
    {
        let mut out: Vec<u8> = Vec::new();
        let mut k: usize = 0;
        while k < self.fx_chunks_metadata.len()
            invariant
                k <= self.fx_chunks_metadata@.len(),
                out@ == metas_bytes(self.fx_chunks_metadata@.take(k as int)),
            decreases self.fx_chunks_metadata@.len() - k,
        {
            let b = self.fx_chunks_metadata[k].get_data();
            extend_bytes(&mut out, &b);
            assert(self.fx_chunks_metadata@.take(k + 1).drop_last() =~= self.fx_chunks_metadata@.take(k as int));
            k = k + 1;
            assert(out@ =~= metas_bytes(self.fx_chunks_metadata@.take(k as int)));
        }
        assert(self.fx_chunks_metadata@.take(self.fx_chunks_metadata@.len() as int) =~= self.fx_chunks_metadata@);
        out
    }

    fn rtpcs_data(&self) -> (out: Vec<u8>)
        ensures
            out@ == rtpcs_bytes(self.rtpcs@),
    {
        let mut out: Vec<u8> = Vec::new();
        let mut k: usize = 0;
        while k < self.rtpcs.len()
            invariant
                k <= self.rtpcs@.len(),
                out@ == rtpcs_bytes(self.rtpcs@.take(k as int)),
            decreases self.rtpcs@.len() - k,
        {
            let b = self.rtpcs[k].get_data();
            extend_bytes(&mut out, b.as_slice());
            assert(self.rtpcs@.take(k + 1).drop_last() =~= self.rtpcs@.take(k as int));
            k = k + 1;
            assert(out@ =~= rtpcs_bytes(self.rtpcs@.take(k as int)));
        }
        assert(self.rtpcs@.take(self.rtpcs@.len() as int) =~= self.rtpcs@);
        out
    }

    fn tail_data(&self) -> (out: Vec<u8>)
        ensures
            out@ == base_tail_bytes(*self),
    {
        let mut out: Vec<u8> = Vec::new();
        if let Some(b) = self.override_attachment_params {
            out.push(b);
        }
        extend_u32(&mut out, self.override_bus_id);
        extend_u32(&mut out, self.direct_parent_id);
        out.push(self.by_bit_vector_a);
        let pb = self.prop_bundle.get_data();
        extend_bytes(&mut out, pb.as_slice());
        let rb = self.ranged_prop_bundle.get_data();
        extend_bytes(&mut out, rb.as_slice());
        extend_bytes(&mut out, self.positioning_param_data.as_slice());
        let ab = self.aux_params.get_data();
        extend_bytes(&mut out, ab.as_slice());
        let adv = self.adv_setting.get_data();
        extend_bytes(&mut out, &adv);
        let sb = self.state_params.get_data();
        extend_bytes(&mut out, sb.as_slice());
        let n = u16_to_le_bytes(self.rtpcs.len() as u16);
        out.push(n[0]);
        out.push(n[1]);
        let rs = self.rtpcs_data();
        extend_bytes(&mut out, rs.as_slice());
        assert(out@ =~= base_tail_bytes(*self));
        out
    }

    pub fn get_data(&self) -> (out: Vec<u8>)
        ensures
            out@ == base_param_bytes(*self),
    {
        let mut out: Vec<u8> = Vec::new();
        out.push(self.is_override_parent_fx);
        out.push(self.fx_chunks.len() as u8);
        let fx = self.fx_section_data();
        extend_bytes(&mut out, fx.as_slice());
        out.push(self.is_override_parent_metadata);
        out.push(self.fx_chunks_metadata.len() as u8);
        let ms = self.metas_data();
        extend_bytes(&mut out, ms.as_slice());
        let tail = self.tail_data();
        extend_bytes(&mut out, tail.as_slice());
        assert(out@ =~= base_param_bytes(*self));
        out
    }
}


impl BaseParam {
    /// Reads the part of a block after its FX metadata and assembles the
    /// block from it and the parts already read.
    #[verifier::rlimit(40)]
    fn read_rest(
        stream: &mut MemoryStream,
        version: BankVersion,
        is_override_parent_fx: u8,
        bypass_all: u8,
        fx_chunks: Vec<FxChunk>,
        is_override_parent_metadata: u8,
        fx_chunks_metadata: Vec<FxChunkMetadata>,
    ) -> (b: BaseParam)
        requires
            old(stream).wf(),
            base_tail_len(old(stream).contents(), old(stream).position() as int, version) matches Some(l)
                && old(stream).position() + l <= old(stream).contents().len(),
        ensures
            final(stream).wf(),
            final(stream).contents() == old(stream).contents(),
            ({
                let c = old(stream).contents();
                let o = old(stream).position() as int;
                let e = o + base_tail_len(c, o, version).unwrap();
                &&& o <= e == final(stream).position()
                &&& base_tail_bytes(b) == c.subrange(o, e)
            }),
            b.version == version,
            b.is_override_parent_fx == is_override_parent_fx,
            b.bypass_all == bypass_all,
            b.fx_chunks == fx_chunks,
            b.is_override_parent_metadata == is_override_parent_metadata,
            b.fx_chunks_metadata == fx_chunks_metadata,
            b.override_attachment_params is Some <==> version == BankVersion::V140,
            b.prop_bundle.ids@.len() == b.prop_bundle.values@.len(),
            b.prop_bundle.ids@.len() < 256,
            ranged_ok(b.ranged_prop_bundle),
            b.aux_params.aux_ids@.len() == if has_aux(b.aux_params.bit_vector_aux) { 4int } else { 0int },
            state_params_ok(b.state_params, version),
            b.rtpcs@.len() <= 0xFFFF,
            forall|i: int| 0 <= i < b.rtpcs@.len() ==> (#[trigger] b.rtpcs@[i]).graph_points@.len() <= 0xFFFF,
    {
        let ghost c = stream.contents();
        let ghost o0 = stream.position() as int;
        let ghost e = o0 + base_tail_len(c, o0, version).unwrap();
        let override_attachment_params = match version {
            BankVersion::V140 => Some(stream.read_u8()),
            BankVersion::V154 => None,
        };
        let ghost o1 = stream.position() as int;
        let override_bus_id = stream.read_u32();
        let direct_parent_id = stream.read_u32();
        let by_bit_vector_a = stream.read_u8();
        let ghost o2 = stream.position() as int;
        let prop_bundle = PropBundle::read(stream);
        let ghost o3 = stream.position() as int;
        let ranged_prop_bundle = RangedPropBundle::read(stream);
        let ghost o4 = stream.position() as int;
        let positioning_param_data = parse_positioning_params(stream);
        let ghost o5 = stream.position() as int;
        let aux_params = AuxParams::read(stream);
        let ghost o6 = stream.position() as int;
        let adv_setting = AdvSetting::read(stream);
        let ghost o7 = stream.position() as int;
        proof {
            lemma_state_params_len_pos(c, o7, version);
        }
        let state_params = StateParams::read(stream, version);
        let ghost o8 = stream.position() as int;
        let num_curves = stream.read_u16();
        proof {
            lemma_rtpcs_len_pos(c, o8 + 2, num_curves as nat);
        }
        let rtpcs = read_rtpcs(stream, num_curves);
        let b = BaseParam {
            version,
            is_override_parent_fx,
            bypass_all,
            fx_chunks,
            is_override_parent_metadata,
            fx_chunks_metadata,
            override_attachment_params,
            override_bus_id,
            direct_parent_id,
            by_bit_vector_a,
            prop_bundle,
            ranged_prop_bundle,
            positioning_param_data,
            aux_params,
            adv_setting,
            state_params,
            rtpcs,
        };
        proof {
            // Each part is the bytes it was read from.
            assert((match b.override_attachment_params {
                Some(x) => seq![x],
                None => Seq::empty(),
            }) =~= c.subrange(o0, o1));
            lemma_u32_bytes(c, o1);
            lemma_u32_bytes(c, o1 + 4);
            assert(seq![by_bit_vector_a] =~= c.subrange(o1 + 8, o2));
            let n = c[o2] as int;
            assert(seq![b.prop_bundle.ids@.len() as u8] =~= c.subrange(o2, o2 + 1));
            lemma_split(c, o2, o2 + 1, o2 + 1 + n);
            lemma_split(c, o2, o2 + 1 + n, o3);
            let na: nat = if has_aux(c[o5]) { 4 } else { 0 };
            lemma_u32s_bytes(c, o5 + 1, na);
            lemma_u32_bytes(c, o5 + 1 + 4 * na);
            assert(seq![b.aux_params.bit_vector_aux] =~= c.subrange(o5, o5 + 1));
            lemma_split(c, o5, o5 + 1, o5 + 1 + 4 * na);
            lemma_split(c, o5, o5 + 1 + 4 * na, o6);
            lemma_adv_bytes(c, o6, adv_setting);
            lemma_u16_bytes(c, o8);
            // The parts one after the other.
            lemma_split(c, o0, o1, o1 + 4);
            lemma_split(c, o0, o1 + 4, o1 + 8);
            lemma_split(c, o0, o1 + 8, o2);
            lemma_split(c, o0, o2, o3);
            lemma_split(c, o0, o3, o4);
            lemma_split(c, o0, o4, o5);
            lemma_split(c, o0, o5, o6);
            lemma_split(c, o0, o6, o7);
            lemma_split(c, o0, o7, o8);
            lemma_split(c, o0, o8, o8 + 2);
            lemma_split(c, o0, o8 + 2, e);
        }
        b
    }

    /// Reads a parameter block of `version`.
    pub fn read(stream: &mut MemoryStream, version: BankVersion) -> (b: BaseParam)
        requires
            old(stream).wf(),
            base_param_len(old(stream).contents(), old(stream).position() as int, version) matches Some(l)
                && old(stream).position() + l <= old(stream).contents().len(),
        ensures
            final(stream).wf(),
            final(stream).contents() == old(stream).contents(),
            ({
                let c = old(stream).contents();
                let p = old(stream).position() as int;
                let e = p + base_param_len(c, p, version).unwrap();
                &&& p + 4 <= e == final(stream).position()
                &&& base_param_bytes(b) == bypass_cleared(c, p, version).subrange(p, e)
            }),
            b.version == version,
            base_param_ok(b),
    {
        let ghost c = stream.contents();
        let ghost p = stream.position() as int;
        let ghost e = p + base_param_len(c, p, version).unwrap();
        let is_override_parent_fx = stream.read_u8();
        let num_fx = stream.read_u8();
        let (bypass_all, fx_chunks) = read_fx_section(stream, version, num_fx);
        let ghost a = stream.position() as int;
        let is_override_parent_metadata = stream.read_u8();
        let num_fx_metadata = stream.read_u8();
        let fx_chunks_metadata = read_metas(stream, num_fx_metadata);
        let ghost o = stream.position() as int;
        let b = Self::read_rest(
            stream,
            version,
            is_override_parent_fx,
            bypass_all,
            fx_chunks,
            is_override_parent_metadata,
            fx_chunks_metadata,
        );
        proof {
            let d = bypass_cleared(c, p, version);
            assert(d.len() == c.len());
            assert(d.subrange(p, p + 2) =~= seq![b.is_override_parent_fx, b.fx_chunks@.len() as u8]);
            if num_fx > 0 {
                assert(d.subrange(p + 2, a) =~= seq![written_bypass(b)] + c.subrange(p + 3, a));
            } else {
                assert(d.subrange(p + 2, a) =~= Seq::<u8>::empty());
            }
            assert(d.subrange(a, a + 2) =~= seq![b.is_override_parent_metadata, b.fx_chunks_metadata@.len() as u8]);
            assert(d.subrange(a + 2, o) =~= c.subrange(a + 2, o));
            assert(d.subrange(o, e) =~= c.subrange(o, e));
            lemma_split(d, p, p + 2, a);
            lemma_split(d, p, a, a + 2);
            lemma_split(d, p, a + 2, o);
            lemma_split(d, p, o, e);
        }
        b
    }
}

} // verus!
