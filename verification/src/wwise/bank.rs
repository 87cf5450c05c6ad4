//! Sound banks: the chunk list of a `.bnk` blob, its media index, and the
//! bytes of a regenerated bank.

use vstd::prelude::*;
use vstd::bytes::*;
use vstd::utf8::*;
use vstd::string::*;
use crate::buf::{copy_bytes, extend_bytes, extend_u32};
use crate::le::{le_u32_at, u32_in};
use crate::wwise::BANK_VERSION_KEY;
use crate::wwise::hierarchy::BankVersion;
use crate::keyed::{has_key, key_index, keyed, keys_unique, lemma_key_index_unique, lemma_upsert_unique, upsert, value_or};

verus! {

/// `std::str::from_utf8`: the string that `bytes` encode, when they are
/// valid UTF-8, as its documentation says; `None` otherwise.
#[verifier::external_body]
fn utf8_string(bytes: &[u8]) -> (r: Option<String>)
    ensures
        r is Some <==> valid_utf8(bytes@),
        r matches Some(s) ==> s@ == decode_utf8(bytes@),
{
    match std::str::from_utf8(bytes) {
        Ok(s) => Some(s.to_string()),
        Err(_) => None,
    }
}

/// The chunks of a bank blob from `p` on: a four-byte tag and a
/// length-prefixed payload each, until fewer than four bytes remain or a
/// tag is not UTF-8. `None` when a chunk's length or payload runs past the
/// end.
pub open spec fn chunks_from(s: Seq<u8>, p: int) -> Option<Seq<(Seq<char>, Seq<u8>)>>
    decreases s.len() - p,
{
    if p < 0 || p + 4 > s.len() {
        Some(Seq::empty())
    } else if !valid_utf8(s.subrange(p, p + 4)) {
        Some(Seq::empty())
    } else if p + 8 > s.len() {
        None
    } else {
        let size = le_u32_at(s, p + 4) as int;
        if p + 8 + size > s.len() {
            None
        } else {
            match chunks_from(s, p + 8 + size) {
                None => None,
                Some(rest) => Some(
                    seq![(decode_utf8(s.subrange(p, p + 4)), s.subrange(p + 8, p + 8 + size))] + rest,
                ),
            }
        }
    }
}

/// One chunk: its tag and payload.
pub struct BankChunk {
    pub tag: String,
    pub payload: Vec<u8>,
}

pub open spec fn chunk_views(v: Seq<BankChunk>) -> Seq<(Seq<char>, Seq<u8>)> {
    v.map_values(|c: BankChunk| (c.tag@, c.payload@))
}

/// Splits a bank blob into its chunks, in order; `None` when a chunk runs
/// past the end.
pub fn split_chunks(bank: &[u8]) -> (r: Option<Vec<BankChunk>>)
    ensures
        match chunks_from(bank@, 0) {
            Some(cs) => r matches Some(v) && chunk_views(v@) == cs,
            None => r is None,
        },
{
    let len = bank.len();
    let mut out: Vec<BankChunk> = Vec::new();
    let mut p: usize = 0;
    assert(chunk_views(out@) =~= Seq::<(Seq<char>, Seq<u8>)>::empty());
    while p <= len && len - p >= 4
        invariant
            len == bank@.len(),
            p <= len,
            chunks_from(bank@, 0) == (match chunks_from(bank@, p as int) {
                Some(r) => Some(chunk_views(out@) + r),
                None => None::<Seq<(Seq<char>, Seq<u8>)>>,
            }),
        decreases len - p,
    {
        let tag = match utf8_string(vstd::slice::slice_subrange(bank, p, p + 4)) {
            Some(t) => t,
            None => {
                assert(chunk_views(out@) + Seq::<(Seq<char>, Seq<u8>)>::empty() =~= chunk_views(out@));
                return Some(out);
            },
        };
        if len - p < 8 {
            return None;
        }
        let size = u32_in(bank, p + 4) as usize;
        if len - (p + 8) < size {
            return None;
        }
        let payload = copy_bytes(vstd::slice::slice_subrange(bank, p + 8, p + 8 + size));
        let ghost before = chunk_views(out@);
        let c = BankChunk { tag, payload };
        out.push(c);
        assert(chunk_views(out@) =~= before.push((c.tag@, c.payload@)));
        assert(before + (seq![(c.tag@, c.payload@)] + chunks_from(bank@, (p + 8 + size) as int).unwrap_or(Seq::empty()))
            =~= before.push((c.tag@, c.payload@)) + chunks_from(bank@, (p + 8 + size) as int).unwrap_or(Seq::empty()));
        p = p + 8 + size;
    }
    assert(chunk_views(out@) + Seq::<(Seq<char>, Seq<u8>)>::empty() =~= chunk_views(out@));
    Some(out)
}

/// The version a bank's BKHD payload names: V154 when its first field,
/// unmasked with the key, is 154; V140 otherwise.
pub open spec fn spec_bank_version(bkhd: Seq<u8>) -> BankVersion {
    if (le_u32_at(bkhd, 0) ^ BANK_VERSION_KEY) == 154 {
        BankVersion::V154
    } else {
        BankVersion::V140
    }
}

/// Reads the bank version from a BKHD payload (of at least four bytes).
pub fn bank_version(bkhd: &[u8]) -> (v: BankVersion)
    requires
        bkhd@.len() >= 4,
    ensures
        v == spec_bank_version(bkhd@),
{
    if (u32_in(bkhd, 0) ^ BANK_VERSION_KEY) == 154 {
        BankVersion::V154
    } else {
        BankVersion::V140
    }
}

/// A chunk's bytes: tag, payload length, payload.
pub open spec fn chunk_bytes(tag: Seq<u8>, payload: Seq<u8>) -> Seq<u8> {
    tag + spec_u32_to_le_bytes(payload.len() as u32) + payload
}

/// Writes one chunk.
pub fn write_chunk(out: &mut Vec<u8>, tag: &[u8], payload: &[u8])
    ensures
        final(out)@ == old(out)@ + chunk_bytes(tag@, payload@),
{
    extend_bytes(out, tag);
    extend_u32(out, payload.len() as u32);
    extend_bytes(out, payload);
    assert(final(out)@ =~= old(out)@ + chunk_bytes(tag@, payload@));
}

/// The chunks that a bank keeps verbatim: all but BKHD, DATA, DIDX and HIRC.
pub open spec fn is_misc_tag(tag: Seq<char>) -> bool {
    tag != "BKHD"@ && tag != "DATA"@ && tag != "DIDX"@ && tag != "HIRC"@
}

/// The kept chunks of the first `k`, written back to back.
pub open spec fn misc_bytes(cs: Seq<(Seq<char>, Seq<u8>)>, k: nat) -> Seq<u8>
    decreases k,
{
    if k == 0 {
        Seq::empty()
    } else {
        let (t, p) = cs[k - 1];
        misc_bytes(cs, (k - 1) as nat) + if is_misc_tag(t) { chunk_bytes(encode_utf8(t), p) } else { Seq::empty() }
    }
}

fn is_misc_tag_exec(tag: &str) -> (b: bool)
    ensures
        b == is_misc_tag(tag@),
{
    let bkhd = String::from_str("BKHD");
    let data = String::from_str("DATA");
    let didx = String::from_str("DIDX");
    let hirc = String::from_str("HIRC");
    !(str_eq(tag, bkhd.as_str()) || str_eq(tag, data.as_str()) || str_eq(tag, didx.as_str()) || str_eq(
        tag,
        hirc.as_str(),
    ))
}

/// Whether two strings hold the same characters.
pub(crate) fn str_eq(a: &str, b: &str) -> (r: bool)
    ensures
        r == (a@ == b@),
{
    let n = a.unicode_len();
    if n != b.unicode_len() {
        return false;
    }
    let mut i: usize = 0;
    while i < n
        invariant
            i <= n,
            n == a@.len(),
            n == b@.len(),
            forall|j: int| 0 <= j < i ==> a@[j] == b@[j],
        decreases n - i,
    {
        if a.get_char(i) != b.get_char(i) {
            return false;
        }
        i = i + 1;
    }
    assert(a@ =~= b@);
    true
}

/// The bank's verbatim chunks: every chunk but BKHD, DATA, DIDX and HIRC, in
/// order, each written back as tag, length and payload.
pub fn misc_chunk_data(chunks: &[BankChunk]) -> (out: Vec<u8>)
    ensures
        out@ == misc_bytes(chunk_views(chunks@), chunks@.len()),
{
    let mut out: Vec<u8> = Vec::new();
    let mut k: usize = 0;
    while k < chunks.len()
        invariant
            k <= chunks@.len(),
            out@ == misc_bytes(chunk_views(chunks@), k as nat),
        decreases chunks@.len() - k,
    {
        let c = &chunks[k];
        assert(chunk_views(chunks@)[k as int] == (c.tag@, c.payload@));
        if is_misc_tag_exec(c.tag.as_str()) {
            write_chunk(&mut out, c.tag.as_str().as_bytes(), c.payload.as_slice());
        } else {
            assert(out@ + Seq::<u8>::empty() =~= out@);
        }
        k = k + 1;
    }
    out
}

/// Inserts `c` under its tag: in place of a chunk with the same tag, else
/// at the end.
fn upsert_chunk(acc: &mut Vec<BankChunk>, c: BankChunk)
    requires
        keys_unique(chunk_views(old(acc)@)),
    ensures
        chunk_views(final(acc)@) == upsert(chunk_views(old(acc)@), c.tag@, c.payload@),
        keys_unique(chunk_views(final(acc)@)),
{
    let ghost cv = (c.tag@, c.payload@);
    proof {
        lemma_upsert_unique(chunk_views(acc@), c.tag@, c.payload@);
    }
    let n = acc.len();
    let mut i: usize = 0;
    while i < n
        invariant
            i <= n,
            n == acc@.len(),
            acc@ == old(acc)@,
            cv == (c.tag@, c.payload@),
            keys_unique(chunk_views(acc@)),
            forall|j: int| 0 <= j < i ==> (#[trigger] chunk_views(acc@)[j]).0 != cv.0,
        decreases n - i,
    {
        if str_eq(acc[i].tag.as_str(), c.tag.as_str()) {
            proof {
                lemma_key_index_unique(chunk_views(acc@), cv.0, i as int);
            }
            let ghost before = chunk_views(acc@);
            acc[i] = c;
            assert(chunk_views(acc@) =~= before.update(i as int, cv));
            return;
        }
        i = i + 1;
    }
    proof {
        if has_key(chunk_views(acc@), cv.0) {
            let j = key_index(chunk_views(acc@), cv.0);
            assert(chunk_views(acc@)[j].0 == cv.0);
        }
    }
    let ghost before = chunk_views(acc@);
    acc.push(c);
    assert(chunk_views(acc@) =~= before.push(cv));
}

/// The chunks as a bank holds them: each tag once, where it first
/// appeared, with the payload it last had.
pub fn keyed_chunks(chunks: Vec<BankChunk>) -> (r: Vec<BankChunk>)
    ensures
        chunk_views(r@) == keyed(chunk_views(chunks@)),
{
    let ghost all = chunk_views(chunks@);
    let mut rest = chunks;
    let mut acc: Vec<BankChunk> = Vec::new();
    let ghost mut k: int = 0;
    assert(chunk_views(acc@) =~= keyed(all.take(0)));
    while rest.len() > 0
        invariant
            0 <= k <= all.len(),
            chunk_views(rest@) == all.skip(k),
            chunk_views(acc@) == keyed(all.take(k)),
            keys_unique(chunk_views(acc@)),
        decreases rest@.len(),
    {
        let ghost before_rest = chunk_views(rest@);
        let c = rest.remove(0);
        assert(chunk_views(rest@) =~= before_rest.drop_first());
        assert(all.take(k + 1).drop_last() =~= all.take(k));
        assert(all[k] == (c.tag@, c.payload@)) by {
            assert(before_rest[0] == all.skip(k)[0]);
        }
        upsert_chunk(&mut acc, c);
        proof {
            k = k + 1;
        }
        assert(all.skip(k) =~= before_rest.drop_first());
    }
    assert(all.take(k) =~= all);
    acc
}

/// A bank blob's chunks, each tag once (a later chunk of a tag replaces an
/// earlier one in its place).
pub struct BankParser {
    pub chunks: Vec<BankChunk>,
}

impl BankParser {
    /// Splits a bank blob into its chunks; `None` when a chunk runs past the
    /// end.
    pub fn load(bank_data: &[u8]) -> (r: Option<BankParser>)
        ensures
            match chunks_from(bank_data@, 0) {
                Some(cs) => r matches Some(p) && chunk_views(p.chunks@) == keyed(cs) && keys_unique(
                    chunk_views(p.chunks@),
                ),
                None => r is None,
            },
    {
        let raw = match split_chunks(bank_data) {
            Some(v) => v,
            None => return None,
        };
        proof {
            crate::keyed::lemma_keyed_unique(chunk_views(raw@));
        }
        Some(BankParser { chunks: keyed_chunks(raw) })
    }

    /// Where the chunk tagged `tag` stands, if any.
    pub fn find(&self, tag: &str) -> (r: Option<usize>)
        requires
            keys_unique(chunk_views(self.chunks@)),
        ensures
            match r {
                Some(i) => i < self.chunks@.len() && has_key(chunk_views(self.chunks@), tag@) && key_index(
                    chunk_views(self.chunks@),
                    tag@,
                ) == i,
                None => !has_key(chunk_views(self.chunks@), tag@),
            },
    {
        let cs = self.chunks.as_slice();
        let n = cs.len();
        let mut i: usize = 0;
        while i < n
            invariant
                i <= n,
                n == cs@.len(),
                cs@ == self.chunks@,
                keys_unique(chunk_views(cs@)),
                forall|j: int| 0 <= j < i ==> (#[trigger] chunk_views(cs@)[j]).0 != tag@,
            decreases n - i,
        {
            if str_eq(cs[i].tag.as_str(), tag) {
                proof {
                    lemma_key_index_unique(chunk_views(cs@), tag@, i as int);
                }
                return Some(i);
            }
            i = i + 1;
        }
        proof {
            if has_key(chunk_views(cs@), tag@) {
                let j = key_index(chunk_views(cs@), tag@);
                assert(chunk_views(cs@)[j].0 == tag@);
            }
        }
        None
    }

    /// The payload of the chunk tagged `tag`, or nothing.
    pub fn get_chunk(&self, tag: &str) -> (p: &[u8])
        requires
            keys_unique(chunk_views(self.chunks@)),
        ensures
            p@ == value_or(chunk_views(self.chunks@), tag@, Seq::<u8>::empty()),
    {
        match self.find(tag) {
            Some(i) => self.chunks[i].payload.as_slice(),
            None => {
                let e: &[u8] = &[];
                assert(e@ =~= Seq::<u8>::empty());
                e
            },
        }
    }
}

/// Writes a regenerated bank.
pub fn bank_bytes(bank_header: &[u8], hierarchy: &[u8], misc: &[u8]) -> (out: Vec<u8>)
    ensures
        out@ == bank_header@ + chunk_bytes(seq![72u8, 73u8, 82u8, 67u8], hierarchy@) + misc@,
{
    let mut out = copy_bytes(bank_header);
    let tag: [u8; 4] = [72u8, 73u8, 82u8, 67u8];
    write_chunk(&mut out, &tag, hierarchy);
    extend_bytes(&mut out, misc);
    assert(tag@ =~= seq![72u8, 73u8, 82u8, 67u8]);
    out
}

/// The BKHD chunk rebuilt from its payload.
pub fn bank_header_chunk(bkhd: &[u8]) -> (out: Vec<u8>)
    ensures
        out@ == chunk_bytes(seq![66u8, 75u8, 72u8, 68u8], bkhd@),
{
    let mut out: Vec<u8> = Vec::new();
    let tag: [u8; 4] = [66u8, 75u8, 72u8, 68u8];
    write_chunk(&mut out, &tag, bkhd);
    assert(tag@ =~= seq![66u8, 75u8, 72u8, 68u8]);
    assert(out@ =~= chunk_bytes(seq![66u8, 75u8, 72u8, 68u8], bkhd@));
    out
}

/// One DIDX entry: a media id, its offset in DATA and its size.
#[derive(Debug, Clone, Copy, PartialEq, Eq, Structural)]
pub struct DidxEntry {
    pub id: u32,
    pub offset: u32,
    pub size: u32,
}

impl DidxEntry {
    pub fn from_bytes(b: &[u8]) -> (e: DidxEntry)
        requires
            b@.len() >= 12,
        ensures
            e == (DidxEntry { id: le_u32_at(b@, 0), offset: le_u32_at(b@, 4), size: le_u32_at(b@, 8) }),
    {
        DidxEntry { id: u32_in(b, 0), offset: u32_in(b, 4), size: u32_in(b, 8) }
    }

    pub fn get_data(&self) -> (out: [u8; 12])
        ensures
            out@ == spec_u32_to_le_bytes(self.id) + spec_u32_to_le_bytes(self.offset) + spec_u32_to_le_bytes(
                self.size,
            ),
    {
        proof {
            lemma_auto_spec_u32_to_from_le_bytes();
        }
        let mut v: Vec<u8> = Vec::new();
        extend_u32(&mut v, self.id);
        extend_u32(&mut v, self.offset);
        extend_u32(&mut v, self.size);
        let mut out = [0u8; 12];
        let mut i: usize = 0;
        while i < 12
            invariant
                i <= 12,
                v@.len() == 12,
                forall|j: int| 0 <= j < i ==> out@[j] == v@[j],
            decreases 12 - i,
        {
            out[i] = v[i];
            i = i + 1;
        }
        assert(out@ =~= v@);
        out
    }
}

/// A DIDX entry written and read back is the same entry.
pub proof fn law_didx_roundtrip(e: DidxEntry)
    ensures
        ({
            let b = spec_u32_to_le_bytes(e.id) + spec_u32_to_le_bytes(e.offset) + spec_u32_to_le_bytes(e.size);
            (DidxEntry { id: le_u32_at(b, 0), offset: le_u32_at(b, 4), size: le_u32_at(b, 8) }) == e
        }),
{
    lemma_auto_spec_u32_to_from_le_bytes();
    let b = spec_u32_to_le_bytes(e.id) + spec_u32_to_le_bytes(e.offset) + spec_u32_to_le_bytes(e.size);
    assert(b.subrange(0, 4) =~= spec_u32_to_le_bytes(e.id));
    assert(b.subrange(4, 8) =~= spec_u32_to_le_bytes(e.offset));
    assert(b.subrange(8, 12) =~= spec_u32_to_le_bytes(e.size));
}

/// The media of a bank: for each whole 12-byte DIDX entry, the entry and its
/// bytes in DATA; `None` when an entry's range is not inside DATA.
pub open spec fn spec_media(didx: Seq<u8>, data: Seq<u8>, k: nat) -> Option<Seq<(DidxEntry, Seq<u8>)>>
    decreases k,
{
    if k == 0 {
        Some(Seq::empty())
    } else {
        match spec_media(didx, data, (k - 1) as nat) {
            None => None,
            Some(prev) => {
                let p = 12 * (k - 1);
                let e = DidxEntry { id: le_u32_at(didx, p), offset: le_u32_at(didx, p + 4), size: le_u32_at(didx, p + 8) };
                if e.offset + e.size > data.len() {
                    None
                } else {
                    Some(prev.push((e, data.subrange(e.offset as int, e.offset + e.size))))
                }
            },
        }
    }
}

/// One media item: its DIDX entry and its bytes.
pub struct MediaItem {
    pub entry: DidxEntry,
    pub data: Vec<u8>,
}

/// Decodes a bank's DIDX and DATA chunks into its media, in DIDX order.
pub fn media_items(didx: &[u8], data: &[u8]) -> (r: Option<Vec<MediaItem>>)
    ensures
        match spec_media(didx@, data@, didx@.len() / 12) {
            Some(ms) => r matches Some(v) && v@.map_values(|m: MediaItem| (m.entry, m.data@)) == ms,
            None => r is None,
        },
{
    let didx_len = didx.len();
    let n = didx_len / 12;
    let dl = data.len();
    let mut out: Vec<MediaItem> = Vec::new();
    let mut k: usize = 0;
    assert(out@.map_values(|m: MediaItem| (m.entry, m.data@)) =~= Seq::<(DidxEntry, Seq<u8>)>::empty());
    while k < n
        invariant
            k <= n,
            n == didx@.len() / 12,
            didx_len == didx@.len(),
            dl == data@.len(),
            spec_media(didx@, data@, k as nat) == Some(out@.map_values(|m: MediaItem| (m.entry, m.data@))),
        decreases n - k,
    {
        assert(12 * k + 12 <= didx@.len()) by (nonlinear_arith)
            requires
                k < n,
                n == didx@.len() / 12,
        ;
        let e = DidxEntry::from_bytes(vstd::slice::slice_subrange(didx, 12 * k, 12 * k + 12));
        proof {
            let sub = didx@.subrange(12 * k, 12 * k + 12);
            assert(sub.subrange(0, 4) =~= didx@.subrange(12 * k, 12 * k + 4));
            assert(sub.subrange(4, 8) =~= didx@.subrange(12 * k + 4, 12 * k + 8));
            assert(sub.subrange(8, 12) =~= didx@.subrange(12 * k + 8, 12 * k + 12));
        }
        let start = e.offset as usize;
        if e.size as usize > dl || start > dl - e.size as usize {
            proof {
                lemma_media_fail_stays(didx@, data@, (k + 1) as nat, n as nat);
            }
            return None;
        }
        let bytes = copy_bytes(vstd::slice::slice_subrange(data, start, start + e.size as usize));
        let ghost before = out@.map_values(|m: MediaItem| (m.entry, m.data@));
        let item = MediaItem { entry: e, data: bytes };
        out.push(item);
        assert(out@.map_values(|m: MediaItem| (m.entry, m.data@)) =~= before.push((item.entry, item.data@)));
        k = k + 1;
    }
    Some(out)
}

proof fn lemma_media_fail_stays(didx: Seq<u8>, data: Seq<u8>, k: nat, n: nat)
    requires
        k <= n,
        spec_media(didx, data, k) is None,
    ensures
        spec_media(didx, data, n) is None,
    decreases n - k,
{
    if k < n {
        lemma_media_fail_stays(didx, data, k, (n - 1) as nat);
    }
}

} // verus!
