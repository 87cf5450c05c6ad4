//! The HIRC hierarchy: entries kept as opaque `(type, size, id, bytes)`
//! records, and the chunk body that lists them.

use vstd::prelude::*;
use vstd::bytes::*;
use crate::buf::{copy_bytes, extend_bytes, extend_u32};
use crate::le::{le_u32_at, u32_in};
use crate::memstream::MemoryStream;

verus! {

/// The BKHD version a bank was written for.
#[derive(Debug, Clone, Copy, PartialEq, Eq, Structural)]
pub enum BankVersion {
    V140,
    V154,
}

/// A hierarchy entry kept as it was read: `size` covers the id and the
/// remaining bytes.
#[derive(Debug, Clone)]
pub struct OpaqueEntry {
    pub hierarchy_type: u8,
    pub size: u32,
    pub hierarchy_id: u32,
    pub misc: Vec<u8>,
}

/// The bytes of an opaque entry: type, size, id, then the rest.
pub open spec fn opaque_bytes(hierarchy_type: u8, size: u32, id: u32, misc: Seq<u8>) -> Seq<u8> {
    seq![hierarchy_type] + spec_u32_to_le_bytes(size) + spec_u32_to_le_bytes(id) + misc
}

impl OpaqueEntry {
    /// Reads the id and the remaining `size - 4` bytes of an entry whose type
    /// and size were already read.
    pub fn read(stream: &mut MemoryStream, hierarchy_type: u8, size: u32) -> (e: OpaqueEntry)
        requires
            old(stream).wf(),
            size >= 4,
            old(stream).position() + size <= old(stream).contents().len(),
        ensures
            final(stream).wf(),
            final(stream).contents() == old(stream).contents(),
            final(stream).position() == old(stream).position() + size,
            e.hierarchy_type == hierarchy_type,
            e.size == size,
            e.hierarchy_id == le_u32_at(old(stream).contents(), old(stream).position() as int),
            e.misc@ == old(stream).contents().subrange(
                old(stream).position() + 4int,
                old(stream).position() + size,
            ),
    {
        let hierarchy_id = stream.read_u32();
        let misc = copy_bytes(stream.read((size - 4) as usize));
        OpaqueEntry { hierarchy_type, size, hierarchy_id, misc }
    }

    pub fn get_data(&self) -> (out: Vec<u8>)
        ensures
            out@ == opaque_bytes(self.hierarchy_type, self.size, self.hierarchy_id, self.misc@),
    {
        let mut out: Vec<u8> = Vec::new();
        out.push(self.hierarchy_type);
        extend_u32(&mut out, self.size);
        extend_u32(&mut out, self.hierarchy_id);
        extend_bytes(&mut out, self.misc.as_slice());
        assert(out@ =~= opaque_bytes(self.hierarchy_type, self.size, self.hierarchy_id, self.misc@));
        out
    }
}

/// One entry of a bank's hierarchy.
#[derive(Debug, Clone)]
pub enum HircEntry {
    Opaque(OpaqueEntry),
}

impl HircEntry {
    pub open spec fn spec_id(&self) -> u32 {
        match self {
            HircEntry::Opaque(e) => e.hierarchy_id,
        }
    }

    pub open spec fn spec_type(&self) -> u8 {
        match self {
            HircEntry::Opaque(e) => e.hierarchy_type,
        }
    }

    pub open spec fn spec_bytes(&self) -> Seq<u8> {
        match self {
            HircEntry::Opaque(e) => opaque_bytes(e.hierarchy_type, e.size, e.hierarchy_id, e.misc@),
        }
    }

    pub fn id(&self) -> (id: u32)
        ensures
            id == self.spec_id(),
    {
        match self {
            HircEntry::Opaque(e) => e.hierarchy_id,
        }
    }

    pub fn hierarchy_type(&self) -> (t: u8)
        ensures
            t == self.spec_type(),
    {
        match self {
            HircEntry::Opaque(e) => e.hierarchy_type,
        }
    }

    pub fn get_data(&self) -> (out: Vec<u8>)
        ensures
            out@ == self.spec_bytes(),
    {
        match self {
            HircEntry::Opaque(e) => e.get_data(),
        }
    }

    /// A copy of the entry.
    pub fn duplicate(&self) -> (r: HircEntry)
        ensures
            entry_parts(r) == entry_parts(*self),
            r.spec_id() == self.spec_id(),
    {
        match self {
            HircEntry::Opaque(e) => HircEntry::Opaque(
                OpaqueEntry {
                    hierarchy_type: e.hierarchy_type,
                    size: e.size,
                    hierarchy_id: e.hierarchy_id,
                    misc: copy_bytes(e.misc.as_slice()),
                },
            ),
        }
    }
}

/// The entry at `p`, when its header and its `size` bytes are there and
/// `size` covers at least the id: `(type, size, id, rest, end)`.
pub open spec fn entry_at(s: Seq<u8>, p: int) -> Option<(u8, u32, u32, Seq<u8>, int)> {
    if p + 5 > s.len() {
        None
    } else {
        let size = le_u32_at(s, p + 1);
        if size < 4 || p + 5 + size > s.len() {
            None
        } else {
            Some((s[p], size, le_u32_at(s, p + 5), s.subrange(p + 9, p + 5 + size), p + 5 + size))
        }
    }
}

/// The `n` entries that follow each other from `p`, as `(type, size, id,
/// rest)`, or `None` when one of them is not all there.
pub open spec fn entries_from(s: Seq<u8>, p: int, n: nat) -> Option<Seq<(u8, u32, u32, Seq<u8>)>>
    decreases n,
{
    if n == 0 {
        Some(Seq::empty())
    } else {
        match entry_at(s, p) {
            None => None,
            Some((t, size, id, misc, end)) => match entries_from(s, end, (n - 1) as nat) {
                None => None,
                Some(rest) => Some(seq![(t, size, id, misc)] + rest),
            },
        }
    }
}

/// The entries listed in a HIRC chunk body: a count, then that many entries.
pub open spec fn spec_hierarchy_entries(s: Seq<u8>) -> Option<Seq<(u8, u32, u32, Seq<u8>)>> {
    if s.len() < 4 {
        None
    } else {
        entries_from(s, 4, le_u32_at(s, 0) as nat)
    }
}

/// An entry's parts.
pub open spec fn entry_parts(e: HircEntry) -> (u8, u32, u32, Seq<u8>) {
    match e {
        HircEntry::Opaque(o) => (o.hierarchy_type, o.size, o.hierarchy_id, o.misc@),
    }
}

proof fn lemma_entries_from_step(s: Seq<u8>, p: int, n: nat, done: Seq<(u8, u32, u32, Seq<u8>)>)
    requires
        n > 0,
        entry_at(s, p) is Some,
    ensures
        ({
            let (t, size, id, misc, end) = entry_at(s, p).unwrap();
            match entries_from(s, end, (n - 1) as nat) {
                Some(r) => entries_from(s, p, n) == Some(seq![(t, size, id, misc)] + r) && done + entries_from(s, p, n).unwrap() =~= done.push((t, size, id, misc)) + r,
                None => entries_from(s, p, n) is None,
            }
        }),
{
}

/// Parses a HIRC chunk body into its entries, in order. Gives `None` when the
/// count or an entry is not all there.
pub fn parse_hierarchy_entries(data: &[u8]) -> (r: Option<Vec<HircEntry>>)
    ensures
        match spec_hierarchy_entries(data@) {
            Some(es) => r matches Some(v) && v@.map_values(|e: HircEntry| entry_parts(e)) == es,
            None => r is None,
        },
{
    let len = data.len();
    if len < 4 {
        return None;
    }
    let n = u32_in(data, 0);
    let mut stream = MemoryStream::new(copy_bytes(data));
    stream.seek(4);
    let mut out: Vec<HircEntry> = Vec::new();
    let mut k: u32 = 0;
    assert(out@.map_values(|e: HircEntry| entry_parts(e)) =~= Seq::<(u8, u32, u32, Seq<u8>)>::empty());
    while k < n
        invariant
            k <= n,
            n == le_u32_at(data@, 0),
            len == data@.len(),
            len >= 4,
            stream.wf(),
            stream.contents() == data@,
            stream.position() <= len,
            spec_hierarchy_entries(data@) == (match entries_from(data@, stream.position() as int, (n - k) as nat) {
                Some(r) => Some(out@.map_values(|e: HircEntry| entry_parts(e)) + r),
                None => None::<Seq<(u8, u32, u32, Seq<u8>)>>,
            }),
        decreases n - k,
    {
        let p = stream.tell();
        if len - p < 5 {
            return None;
        }
        let t = stream.read_u8();
        let size = stream.read_u32();
        if size < 4 || len - (p + 5) < size as usize {
            return None;
        }
        let ghost before = out@.map_values(|e: HircEntry| entry_parts(e));
        let e = OpaqueEntry::read(&mut stream, t, size);
        proof {
            lemma_entries_from_step(data@, p as int, (n - k) as nat, before);
        }
        let entry = HircEntry::Opaque(e);
        out.push(entry);
        assert(out@.map_values(|e: HircEntry| entry_parts(e)) =~= before.push(entry_parts(entry)));
        k = k + 1;
    }
    assert(out@.map_values(|e: HircEntry| entry_parts(e)) + Seq::<(u8, u32, u32, Seq<u8>)>::empty() =~= out@.map_values(
        |e: HircEntry| entry_parts(e),
    ));
    Some(out)
}

/// The entries' bytes one after the other.
pub open spec fn entries_bytes(es: Seq<HircEntry>) -> Seq<u8>
    decreases es.len(),
{
    if es.len() == 0 {
        Seq::empty()
    } else {
        entries_bytes(es.drop_last()) + es.last().spec_bytes()
    }
}

/// A HIRC chunk body for `entries`: their count, then each entry's bytes.
pub fn hierarchy_data(entries: &[HircEntry]) -> (out: Vec<u8>)
    ensures
        out@ == spec_u32_to_le_bytes(entries@.len() as u32) + entries_bytes(entries@),
{
    let mut out: Vec<u8> = Vec::new();
    extend_u32(&mut out, entries.len() as u32);
    let ghost head = out@;
    let mut k: usize = 0;
    while k < entries.len()
        invariant
            k <= entries@.len(),
            head == spec_u32_to_le_bytes(entries@.len() as u32),
            out@ == head + entries_bytes(entries@.take(k as int)),
        decreases entries@.len() - k,
    {
        let b = entries[k].get_data();
        extend_bytes(&mut out, b.as_slice());
        assert(entries@.take(k + 1).drop_last() =~= entries@.take(k as int));
        k = k + 1;
        assert(out@ =~= head + entries_bytes(entries@.take(k as int)));
    }
    assert(entries@.take(entries@.len() as int) =~= entries@);
    out
}

// ---------------------------------------------------------------------------
// Laws.

/// An entry as written is whole: its size covers its id and the rest.
pub open spec fn entry_whole(e: HircEntry) -> bool {
    match e {
        HircEntry::Opaque(o) => o.size == o.misc@.len() + 4,
    }
}

proof fn lemma_entries_bytes_front(es: Seq<HircEntry>)
    requires
        es.len() > 0,
    ensures
        entries_bytes(es) == es[0].spec_bytes() + entries_bytes(es.skip(1)),
    decreases es.len(),
{
    if es.len() == 1 {
        assert(es.drop_last() =~= Seq::<HircEntry>::empty());
        assert(es.skip(1) =~= Seq::<HircEntry>::empty());
        assert(entries_bytes(es) =~= es[0].spec_bytes() + entries_bytes(es.skip(1)));
    } else {
        lemma_entries_bytes_front(es.drop_last());
        assert(es.drop_last().skip(1) =~= es.skip(1).drop_last());
        assert(es.skip(1).last() == es.last());
        assert(es.drop_last()[0] == es[0]);
        assert(entries_bytes(es) =~= es[0].spec_bytes() + entries_bytes(es.skip(1)));
    }
}

proof fn lemma_read_entries(pre: Seq<u8>, es: Seq<HircEntry>, post: Seq<u8>)
    requires
        forall|i: int| 0 <= i < es.len() ==> entry_whole(#[trigger] es[i]),
    ensures
        entries_from(pre + entries_bytes(es) + post, pre.len() as int, es.len()) == Some(
            es.map_values(|e: HircEntry| entry_parts(e)),
        ),
    decreases es.len(),
{
    lemma_auto_spec_u32_to_from_le_bytes();
    if es.len() == 0 {
        assert(es.map_values(|e: HircEntry| entry_parts(e)) =~= Seq::<(u8, u32, u32, Seq<u8>)>::empty());
    } else {
        lemma_entries_bytes_front(es);
        let e = es[0];
        assert(entry_whole(e));
        let HircEntry::Opaque(o) = e;
        let eb = e.spec_bytes();
        let rest = es.skip(1);
        assert forall|i: int| 0 <= i < rest.len() implies entry_whole(#[trigger] rest[i]) by {
            assert(rest[i] == es[i + 1]);
        }
        let s = pre + entries_bytes(es) + post;
        let p = pre.len() as int;
        assert(s =~= (pre + eb) + entries_bytes(rest) + post);
        assert(eb.len() == 9 + o.misc@.len());
        assert(s[p] == o.hierarchy_type);
        assert(s.subrange(p + 1, p + 5) =~= spec_u32_to_le_bytes(o.size));
        assert(s.subrange(p + 5, p + 9) =~= spec_u32_to_le_bytes(o.hierarchy_id));
        assert(s.subrange(p + 9, p + 5 + o.size) =~= o.misc@);
        assert(entry_at(s, p) == Some((o.hierarchy_type, o.size, o.hierarchy_id, o.misc@, p + 5 + o.size)));
        lemma_read_entries(pre + eb, rest, post);
        assert(es.map_values(|e: HircEntry| entry_parts(e)) =~= seq![entry_parts(e)] + rest.map_values(
            |e: HircEntry| entry_parts(e),
        ));
    }
}

/// A hierarchy chunk body written from whole entries reads back as those
/// entries, in order, when there are fewer than 2^32 of them.
pub proof fn law_hierarchy_roundtrip(es: Seq<HircEntry>)
    requires
        es.len() <= u32::MAX,
        forall|i: int| 0 <= i < es.len() ==> entry_whole(#[trigger] es[i]),
    ensures
        spec_hierarchy_entries(spec_u32_to_le_bytes(es.len() as u32) + entries_bytes(es)) == Some(
            es.map_values(|e: HircEntry| entry_parts(e)),
        ),
{
    lemma_auto_spec_u32_to_from_le_bytes();
    let head = spec_u32_to_le_bytes(es.len() as u32);
    lemma_read_entries(head, es, Seq::empty());
    assert(head + entries_bytes(es) + Seq::<u8>::empty() =~= head + entries_bytes(es));
    assert((head + entries_bytes(es)).subrange(0, 4) =~= head);
}

} // verus!
