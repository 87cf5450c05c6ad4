//! Text banks: a table of string ids, a table of offsets, and the
//! zero-terminated UTF-8 strings they point to.

use vstd::prelude::*;
use vstd::bytes::*;
use vstd::utf8::*;
use vstd::string::*;
use crate::buf::{extend_bytes, extend_u32};
use crate::le::{le_u32_at, u32_in};
use crate::slim::first_zero;
use crate::wwise::bank::str_eq;
use crate::keyed::{has_key, key_index, keyed, keys_unique, lemma_key_index_unique, lemma_upsert_unique, upsert};
use crate::wwise::sources::{lossy_string, lossy_utf8};

verus! {

/// One string of a text bank.
#[derive(Debug, Clone)]
pub struct StringEntry {
    pub string_id: u32,
    pub text: String,
    pub text_old: String,
    pub modified: bool,
}

/// The `n`-th string of a text bank with `count` strings: its id and its
/// text, which runs from its offset to the first zero byte after the byte
/// at the offset (that first byte is never taken as the end). `None` when
/// a table entry is missing, the offset is past the end or no zero follows.
pub open spec fn text_entry_at(data: Seq<u8>, count: int, n: int) -> Option<(u32, Seq<char>)> {
    let id_pos = 16 + 4 * n;
    let off_pos = 16 + 4 * count + 4 * n;
    let off = le_u32_at(data, off_pos) as int;
    let stop = first_zero(data, off + 1);
    if off + 1 > data.len() || stop >= data.len() {
        None
    } else {
        Some((le_u32_at(data, id_pos), lossy_utf8(data.subrange(off, stop))))
    }
}

/// The first `k` strings.
pub open spec fn text_entries_upto(data: Seq<u8>, count: int, k: nat) -> Option<Seq<(u32, Seq<char>)>>
    decreases k,
{
    if k == 0 {
        Some(Seq::empty())
    } else {
        match text_entries_upto(data, count, (k - 1) as nat) {
            None => None,
            Some(es) => match text_entry_at(data, count, k - 1) {
                None => None,
                Some(e) => Some(es.push(e)),
            },
        }
    }
}

/// A text bank's language and strings, in table order; `None` when the
/// header or the tables are cut short or a string is not all there.
pub open spec fn spec_parse_text_bank(data: Seq<u8>) -> Option<(u32, Seq<(u32, Seq<char>)>)> {
    if data.len() < 16 {
        None
    } else {
        let count = le_u32_at(data, 8) as int;
        if 16 + 8 * count > data.len() {
            None
        } else {
            match text_entries_upto(data, count, count as nat) {
                None => None,
                Some(es) => Some((le_u32_at(data, 12), es)),
            }
        }
    }
}

pub open spec fn entry_view(e: StringEntry) -> (u32, Seq<char>) {
    (e.string_id, e.text@)
}

proof fn lemma_text_entries_none(data: Seq<u8>, count: int, k: nat, n: nat)
    requires
        k <= n,
        text_entries_upto(data, count, k) is None,
    ensures
        text_entries_upto(data, count, n) is None,
    decreases n - k,
{
    if k < n {
        lemma_text_entries_none(data, count, k, (n - 1) as nat);
    }
}

proof fn lemma_first_zero_range(buf: Seq<u8>, i: int)
    requires
        0 <= i <= buf.len(),
    ensures
        i <= first_zero(buf, i) <= buf.len(),
        first_zero(buf, i) < buf.len() ==> buf[first_zero(buf, i)] == 0,
    decreases buf.len() - i,
{
    if i < buf.len() && buf[i] != 0 {
        lemma_first_zero_range(buf, i + 1);
    }
}

/// Parses a text bank's bytes into its language and its strings, in table
/// order, each unmodified with an empty old text.
pub fn parse_text_bank(data: &[u8]) -> (r: Option<(u32, Vec<StringEntry>)>)
    ensures
        match spec_parse_text_bank(data@) {
            Some((lang, es)) => r matches Some((l, v)) && l == lang && v@.map_values(|e: StringEntry| entry_view(e))
                == es && forall|i: int| 0 <= i < v@.len() ==> !(#[trigger] v@[i]).modified && v@[i].text_old@
                == Seq::<char>::empty(),
            None => r is None,
        },
{
    let len = data.len();
    if len < 16 {
        return None;
    }
    let count = u32_in(data, 8);
    let language = u32_in(data, 12);
    let c = count as u64;
    if 16 + 8 * c > len as u64 {
        return None;
    }
    let mut out: Vec<StringEntry> = Vec::new();
    let mut n: u32 = 0;
    assert(out@.map_values(|e: StringEntry| entry_view(e)) =~= Seq::<(u32, Seq<char>)>::empty());
    while n < count
        invariant
            n <= count,
            len == data@.len(),
            count == le_u32_at(data@, 8),
            16 + 8 * count <= len,
            text_entries_upto(data@, count as int, n as nat) == Some(out@.map_values(|e: StringEntry| entry_view(e))),
            forall|i: int| 0 <= i < out@.len() ==> !(#[trigger] out@[i]).modified && out@[i].text_old@ == Seq::<
                char,
            >::empty(),
        decreases count - n,
    {
        let id_pos = 16 + 4 * (n as usize);
        let off_pos = 16 + 4 * (count as usize) + 4 * (n as usize);
        let string_id = u32_in(data, id_pos);
        let off = u32_in(data, off_pos) as usize;
        if off >= len {
            proof {
                lemma_text_entries_none(data@, count as int, (n + 1) as nat, count as nat);
            }
            return None;
        }
        let mut stop = off + 1;
        proof {
            lemma_first_zero_range(data@, stop as int);
        }
        while stop < len && data[stop] != 0
            invariant
                off + 1 <= stop <= len,
                len == data@.len(),
                first_zero(data@, off + 1) == first_zero(data@, stop as int),
            decreases len - stop,
        {
            stop = stop + 1;
        }
        if stop >= len {
            proof {
                lemma_text_entries_none(data@, count as int, (n + 1) as nat, count as nat);
            }
            return None;
        }
        let text = lossy_string(vstd::slice::slice_subrange(data, off, stop));
        let ghost before = out@.map_values(|e: StringEntry| entry_view(e));
        let e = StringEntry { string_id, text, text_old: String::new(), modified: false };
        out.push(e);
        assert(out@.map_values(|e: StringEntry| entry_view(e)) =~= before.push(entry_view(e)));
        n = n + 1;
    }
    Some((language, out))
}

/// The strings' bytes, each zero-terminated, one after the other.
pub open spec fn texts_bytes(texts: Seq<Seq<char>>) -> Seq<u8>
    decreases texts.len(),
{
    if texts.len() == 0 {
        Seq::empty()
    } else {
        texts_bytes(texts.drop_last()) + encode_utf8(texts.last()) + seq![0u8]
    }
}

/// The `u32` fields of `vs`, one after the other.
pub open spec fn u32_fields(vs: Seq<u32>) -> Seq<u8>
    decreases vs.len(),
{
    if vs.len() == 0 {
        Seq::empty()
    } else {
        u32_fields(vs.drop_last()) + spec_u32_to_le_bytes(vs.last())
    }
}

/// Where each string starts: just after both tables, then each string
/// after the one before it (stored as `u32`).
pub open spec fn text_offsets(texts: Seq<Seq<char>>, base: int) -> Seq<u32> {
    Seq::new(texts.len(), |i: int| (base + texts_bytes(texts.take(i)).len()) as u32)
}

/// The bytes of a text bank: its magic, count and language, the ids, the
/// offsets, then the strings.
pub open spec fn spec_text_bank_bytes(language: u32, ids: Seq<u32>, texts: Seq<Seq<char>>) -> Seq<u8> {
    seq![0xaeu8, 0xf3u8, 0x85u8, 0x3eu8, 0x01u8, 0x00u8, 0x00u8, 0x00u8] + spec_u32_to_le_bytes(ids.len() as u32)
        + spec_u32_to_le_bytes(language) + u32_fields(ids) + u32_fields(text_offsets(texts, 16 + 8 * ids.len() as int))
        + texts_bytes(texts)
}

proof fn lemma_texts_prefix(texts: Seq<Seq<char>>, k: int)
    requires
        0 <= k <= texts.len(),
    ensures
        texts_bytes(texts.take(k)).len() <= texts_bytes(texts).len(),
    decreases texts.len() - k,
{
    if k < texts.len() {
        lemma_texts_prefix(texts, k + 1);
        assert(texts.take(k + 1).drop_last() =~= texts.take(k));
    } else {
        assert(texts.take(k) =~= texts);
    }
}

/// Writes a text bank (which must fit in memory).
pub fn text_bank_bytes(language: u32, entries: &[StringEntry]) -> (out: Vec<u8>)
    requires
        16 + 8 * entries@.len() + texts_bytes(entries@.map_values(|e: StringEntry| e.text@)).len() <= usize::MAX,
    ensures
        out@ == spec_text_bank_bytes(
            language,
            entries@.map_values(|e: StringEntry| e.string_id),
            entries@.map_values(|e: StringEntry| e.text@),
        ),
{
    let ghost ids = entries@.map_values(|e: StringEntry| e.string_id);
    let ghost texts = entries@.map_values(|e: StringEntry| e.text@);
    let n = entries.len();
    let mut out: Vec<u8> = Vec::new();
    let magic: [u8; 8] = [0xaeu8, 0xf3u8, 0x85u8, 0x3eu8, 0x01u8, 0x00u8, 0x00u8, 0x00u8];
    extend_bytes(&mut out, &magic);
    extend_u32(&mut out, n as u32);
    extend_u32(&mut out, language);
    let ghost head = out@;
    let mut k: usize = 0;
    while k < n
        invariant
            k <= n,
            n == entries@.len(),
            ids == entries@.map_values(|e: StringEntry| e.string_id),
            out@ == head + u32_fields(ids.take(k as int)),
        decreases n - k,
    {
        extend_u32(&mut out, entries[k].string_id);
        assert(ids.take(k + 1).drop_last() =~= ids.take(k as int));
        k = k + 1;
    }
    assert(ids.take(n as int) =~= ids);
    let ghost mid = out@;
    let ghost base: int = 16 + 8 * n;
    let mut texts_out: Vec<u8> = Vec::new();
    let mut offset: usize = 16 + 8 * n;
    let mut k: usize = 0;
    while k < n
        invariant
            k <= n,
            n == entries@.len(),
            base == 16 + 8 * n,
            texts == entries@.map_values(|e: StringEntry| e.text@),
            16 + 8 * n + texts_bytes(texts).len() <= usize::MAX,
            texts_out@ == texts_bytes(texts.take(k as int)),
            offset == base + texts_out@.len(),
            out@ == mid + u32_fields(text_offsets(texts, base).take(k as int)),
        decreases n - k,
    {
        let ghost off_spec = text_offsets(texts, base)[k as int];
        assert(off_spec == offset as u32);
        extend_u32(&mut out, offset as u32);
        assert(text_offsets(texts, base).take(k + 1).drop_last() =~= text_offsets(texts, base).take(k as int));
        let bytes = entries[k].text.as_str().as_bytes();
        extend_bytes(&mut texts_out, bytes);
        texts_out.push(0u8);
        assert(texts.take(k + 1).drop_last() =~= texts.take(k as int));
        proof {
            lemma_texts_prefix(texts, k + 1);
        }
        k = k + 1;
        offset = offset + bytes.len() + 1;
    }
    assert(text_offsets(texts, base).take(n as int) =~= text_offsets(texts, base));
    assert(texts.take(n as int) =~= texts);
    extend_bytes(&mut out, texts_out.as_slice());
    assert(magic@ =~= seq![0xaeu8, 0xf3u8, 0x85u8, 0x3eu8, 0x01u8, 0x00u8, 0x00u8, 0x00u8]);
    out
}

impl StringEntry {
    /// Takes a replacement text from a patch: it counts as a change when it
    /// differs from the text the entry would revert to (its old text once
    /// modified, else its current text). On the first change the current
    /// text is kept as the old one. Returns whether this was the entry's
    /// first change.
    pub fn import_text(&mut self, text: &str) -> (first_change: bool)
        ensures
            ({
                let changed = if old(self).modified { text@ != old(self).text_old@ } else { text@ != old(self).text@ };
                &&& first_change == (changed && !old(self).modified)
                &&& final(self).string_id == old(self).string_id
                &&& final(self).text@ == (if changed { text@ } else { old(self).text@ })
                &&& final(self).text_old@ == (if changed && !old(self).modified { old(self).text@ } else { old(self).text_old@ })
                &&& final(self).modified == (old(self).modified || changed)
            }),
    {
        let changed = if self.modified {
            !str_eq(text, self.text_old.as_str())
        } else {
            !str_eq(text, self.text.as_str())
        };
        if !changed {
            return false;
        }
        let first = !self.modified;
        if first {
            self.text_old = self.text.clone();
        }
        self.modified = true;
        self.text = String::from_str(text);
        first
    }
}


/// A string entry as a value: id, text, old text, modified.
pub type EntryModel = (u32, Seq<char>, Seq<char>, bool);

pub open spec fn entry_model(e: StringEntry) -> EntryModel {
    (e.string_id, e.text@, e.text_old@, e.modified)
}

/// Entries under their ids.
pub open spec fn entry_models(v: Seq<StringEntry>) -> Seq<(u32, EntryModel)> {
    v.map_values(|e: StringEntry| (e.string_id, entry_model(e)))
}

/// Freshly read strings under their ids: unmodified, with no old text.
pub open spec fn fresh_models(ps: Seq<(u32, Seq<char>)>) -> Seq<(u32, EntryModel)> {
    ps.map_values(|p: (u32, Seq<char>)| (p.0, (p.0, p.1, Seq::<char>::empty(), false)))
}

/// An entry after taking `text` from a patch (see `StringEntry::import_text`).
pub open spec fn import_model(m: EntryModel, text: Seq<char>) -> EntryModel {
    let changed = if m.3 { text != m.2 } else { text != m.1 };
    if changed {
        (m.0, text, if m.3 { m.2 } else { m.1 }, true)
    } else {
        m
    }
}

/// Taking `text` is the entry's first change.
pub open spec fn is_first_change(m: EntryModel, text: Seq<char>) -> bool {
    !m.3 && text != m.1
}

/// The entries after taking each incoming `(id, text)` in turn, where an
/// entry of that id exists (others are ignored), and how many entries
/// changed for the first time.
pub open spec fn import_texts(ms: Seq<(u32, EntryModel)>, incoming: Seq<(u32, Seq<char>)>) -> (Seq<(u32, EntryModel)>, nat)
    decreases incoming.len(),
{
    if incoming.len() == 0 {
        (ms, 0)
    } else {
        let (prev, n) = import_texts(ms, incoming.drop_last());
        let (id, text) = incoming.last();
        if has_key(prev, id) {
            let i = key_index(prev, id);
            let m = prev[i].1;
            (prev.update(i, (id, import_model(m, text))), n + if is_first_change(m, text) { 1nat } else { 0nat })
        } else {
            (prev, n)
        }
    }
}

/// A text bank: its language and its strings under unique ids.
#[derive(Debug, Clone)]
pub struct TextBank {
    pub file_id: u64,
    pub entries: Vec<StringEntry>,
    pub language: u32,
    pub modified: bool,
    pub modified_count: u32,
}

proof fn lemma_update_same_key<V>(s: Seq<(u32, V)>, i: int, v: V)
    requires
        keys_unique(s),
        0 <= i < s.len(),
    ensures
        keys_unique(s.update(i, (s[i].0, v))),
{
    let t = s.update(i, (s[i].0, v));
    assert forall|a: int, b: int| 0 <= a < t.len() && 0 <= b < t.len() && a != b implies t[a].0 != t[b].0 by {
        assert(t[a].0 == s[a].0);
        assert(t[b].0 == s[b].0);
    }
}

pub proof fn lemma_import_texts_unique(ms: Seq<(u32, EntryModel)>, incoming: Seq<(u32, Seq<char>)>)
    requires
        keys_unique(ms),
    ensures
        keys_unique(import_texts(ms, incoming).0),
        import_texts(ms, incoming).1 <= incoming.len(),
    decreases incoming.len(),
{
    if incoming.len() > 0 {
        lemma_import_texts_unique(ms, incoming.drop_last());
        let (prev, n) = import_texts(ms, incoming.drop_last());
        let (id, text) = incoming.last();
        if has_key(prev, id) {
            let i = key_index(prev, id);
            lemma_update_same_key(prev, i, import_model(prev[i].1, text));
        }
    }
}

/// Inserts a fresh entry under its id.
fn upsert_string(acc: &mut Vec<StringEntry>, e: StringEntry)
    requires
        keys_unique(entry_models(old(acc)@)),
    ensures
        entry_models(final(acc)@) == upsert(entry_models(old(acc)@), e.string_id, entry_model(e)),
        keys_unique(entry_models(final(acc)@)),
{
    let ghost ev = (e.string_id, entry_model(e));
    proof {
        lemma_upsert_unique(entry_models(acc@), ev.0, ev.1);
    }
    let id = e.string_id;
    let n = acc.len();
    let mut i: usize = 0;
    while i < n
        invariant
            i <= n,
            n == acc@.len(),
            acc@ == old(acc)@,
            ev == (e.string_id, entry_model(e)),
            id == ev.0,
            keys_unique(entry_models(acc@)),
            forall|j: int| 0 <= j < i ==> (#[trigger] entry_models(acc@)[j]).0 != ev.0,
        decreases n - i,
    {
        if acc[i].string_id == id {
            proof {
                lemma_key_index_unique(entry_models(acc@), ev.0, i as int);
            }
            let ghost before = entry_models(acc@);
            acc[i] = e;
            assert(entry_models(acc@) =~= before.update(i as int, ev));
            return;
        }
        i = i + 1;
    }
    proof {
        if has_key(entry_models(acc@), ev.0) {
            let j = key_index(entry_models(acc@), ev.0);
            assert(entry_models(acc@)[j].0 == ev.0);
        }
    }
    let ghost before = entry_models(acc@);
    acc.push(e);
    assert(entry_models(acc@) =~= before.push(ev));
}

/// Strings as a text bank holds them: each id once, where it first came,
/// with the entry it was last given.
fn keyed_strings(v: Vec<StringEntry>) -> (r: Vec<StringEntry>)
    ensures
        entry_models(r@) == keyed(entry_models(v@)),
        keys_unique(entry_models(r@)),
{
    let ghost all = entry_models(v@);
    let mut rest = v;
    let mut acc: Vec<StringEntry> = Vec::new();
    let ghost mut k: int = 0;
    assert(entry_models(acc@) =~= keyed(all.take(0)));
    while rest.len() > 0
        invariant
            0 <= k <= all.len(),
            entry_models(rest@) == all.skip(k),
            entry_models(acc@) == keyed(all.take(k)),
            keys_unique(entry_models(acc@)),
        decreases rest@.len(),
    {
        let ghost before_rest = entry_models(rest@);
        let e = rest.remove(0);
        assert(entry_models(rest@) =~= before_rest.drop_first());
        assert(all.take(k + 1).drop_last() =~= all.take(k));
        assert(all[k] == (e.string_id, entry_model(e))) by {
            assert(before_rest[0] == all.skip(k)[0]);
        }
        upsert_string(&mut acc, e);
        proof {
            k = k + 1;
        }
        assert(all.skip(k) =~= before_rest.drop_first());
    }
    assert(all.take(k) =~= all);
    acc
}

impl TextBank {
    /// A copy of the bank.
    pub fn duplicate(&self) -> (r: TextBank)
        ensures
            r.file_id == self.file_id,
            r.language == self.language,
            entry_models(r.entries@) == entry_models(self.entries@),
            r.modified == self.modified,
            r.modified_count == self.modified_count,
    {
        let mut entries: Vec<StringEntry> = Vec::new();
        let mut k: usize = 0;
        while k < self.entries.len()
            invariant
                k <= self.entries@.len(),
                entry_models(entries@) == entry_models(self.entries@.take(k as int)),
            decreases self.entries@.len() - k,
        {
            let e = &self.entries[k];
            let c = StringEntry {
                string_id: e.string_id,
                text: e.text.clone(),
                text_old: e.text_old.clone(),
                modified: e.modified,
            };
            let ghost before = entries@;
            entries.push(c);
            assert(entry_models(entries@) =~= entry_models(before).push((c.string_id, entry_model(c))));
            assert(self.entries@.take(k + 1) =~= self.entries@.take(k as int).push(self.entries@[k as int]));
            assert(entry_models(self.entries@.take(k + 1)) =~= entry_models(self.entries@.take(k as int)).push(
                (self.entries@[k as int].string_id, entry_model(self.entries@[k as int])),
            ));
            k = k + 1;
        }
        assert(self.entries@.take(k as int) =~= self.entries@);
        TextBank {
            file_id: self.file_id,
            entries,
            language: self.language,
            modified: self.modified,
            modified_count: self.modified_count,
        }
    }

    /// Every id occurs once.
    pub open spec fn wf(&self) -> bool {
        keys_unique(entry_models(self.entries@))
    }

    /// An empty, unmodified bank.
    pub fn new(file_id: u64) -> (t: TextBank)
        ensures
            t.file_id == file_id,
            t.entries@.len() == 0,
            t.language == 0,
            !t.modified,
            t.modified_count == 0,
            t.wf(),
    {
        let t = TextBank { file_id, entries: Vec::new(), language: 0, modified: false, modified_count: 0 };
        assert(entry_models(t.entries@) =~= Seq::<(u32, EntryModel)>::empty());
        t
    }

    pub fn id(&self) -> (id: u64)
        ensures
            id == self.file_id,
    {
        self.file_id
    }

    /// A bank with the strings and the language `data` holds (a repeated id
    /// keeps its first place and its last text); `None` where `data` is not
    /// a whole text bank.
    pub fn from_data(file_id: u64, data: &[u8]) -> (r: Option<TextBank>)
        ensures
            match spec_parse_text_bank(data@) {
                Some((lang, ps)) => r matches Some(t) && t.file_id == file_id && t.language == lang
                    && entry_models(t.entries@) == keyed(fresh_models(ps)) && !t.modified && t.modified_count == 0
                    && t.wf(),
                None => r is None,
            },
    {
        match parse_text_bank(data) {
            Some((lang, v)) => {
                assert(entry_models(v@) =~= fresh_models(v@.map_values(|e: StringEntry| entry_view(e))));
                let entries = keyed_strings(v);
                Some(TextBank { file_id, entries, language: lang, modified: false, modified_count: 0 })
            },
            None => None,
        }
    }

    /// Replaces the strings and the language with those `data` holds (a
    /// repeated id keeps its first place and its last text).
    pub fn set_data(&mut self, data: &[u8])
        requires
            spec_parse_text_bank(data@) is Some,
        ensures
            ({
                let (lang, ps) = spec_parse_text_bank(data@).unwrap();
                &&& final(self).language == lang
                &&& entry_models(final(self).entries@) == keyed(fresh_models(ps))
            }),
            final(self).wf(),
            final(self).file_id == old(self).file_id,
            final(self).modified == old(self).modified,
            final(self).modified_count == old(self).modified_count,
    {
        match parse_text_bank(data) {
            Some((lang, v)) => {
                assert(entry_models(v@) =~= fresh_models(v@.map_values(|e: StringEntry| entry_view(e))));
                self.entries = keyed_strings(v);
                self.language = lang;
            },
            None => {},
        }
    }

    /// Takes the texts of `other`'s strings, in order, into the strings of
    /// the same ids; counts each string's first change, and marks the bank
    /// modified once any string has changed.
    pub fn import_text(&mut self, other: &TextBank)
        requires
            old(self).wf(),
            old(self).modified_count + other.entries@.len() <= u32::MAX,
        ensures
            ({
                let (ms, n) = import_texts(entry_models(old(self).entries@), other.entries@.map_values(|e: StringEntry| entry_view(e)));
                &&& entry_models(final(self).entries@) == ms
                &&& final(self).modified_count == old(self).modified_count + n
                &&& final(self).modified == (old(self).modified || n > 0)
            }),
            final(self).wf(),
            final(self).file_id == old(self).file_id,
            final(self).language == old(self).language,
    {
        let ghost incoming = other.entries@.map_values(|e: StringEntry| entry_view(e));
        let ghost start = entry_models(self.entries@);
        let m = other.entries.len();
        let mut k: usize = 0;
        proof {
            lemma_import_texts_unique(start, incoming.take(0));
            assert(incoming.take(0) =~= Seq::<(u32, Seq<char>)>::empty());
        }
        while k < m
            invariant
                k <= m,
                m == other.entries@.len(),
                incoming == other.entries@.map_values(|e: StringEntry| entry_view(e)),
                entry_models(self.entries@) == import_texts(start, incoming.take(k as int)).0,
                self.modified_count == old(self).modified_count + import_texts(start, incoming.take(k as int)).1,
                self.modified == (old(self).modified || import_texts(start, incoming.take(k as int)).1 > 0),
                import_texts(start, incoming.take(k as int)).1 <= k,
                old(self).modified_count + m <= u32::MAX,
                keys_unique(entry_models(self.entries@)),
                keys_unique(start),
                self.file_id == old(self).file_id,
                self.language == old(self).language,
            decreases m - k,
        {
            let id = other.entries[k].string_id;
            let text = other.entries[k].text.as_str();
            assert(incoming.take(k + 1).drop_last() =~= incoming.take(k as int));
            assert(incoming.take(k + 1).last() == (id, text@));
            let n = self.entries.len();
            let mut i: usize = 0;
            while i < n && self.entries[i].string_id != id
                invariant
                    i <= n,
                    n == self.entries@.len(),
                    forall|j: int| 0 <= j < i ==> (#[trigger] entry_models(self.entries@)[j]).0 != id,
                decreases n - i,
            {
                i = i + 1;
            }
            proof {
                lemma_import_texts_unique(start, incoming.take(k + 1));
            }
            if i < n {
                proof {
                    lemma_key_index_unique(entry_models(self.entries@), id, i as int);
                }
                let ghost before = entry_models(self.entries@);
                let first = self.entries[i].import_text(text);
                assert(entry_models(self.entries@) =~= before.update(
                    i as int,
                    (id, import_model(before[i as int].1, text@)),
                ));
                if first {
                    self.modified_count = self.modified_count + 1;
                    self.modified = true;
                }
            } else {
                proof {
                    if has_key(entry_models(self.entries@), id) {
                        let j = key_index(entry_models(self.entries@), id);
                        assert(entry_models(self.entries@)[j].0 == id);
                    }
                }
            }
            k = k + 1;
        }
        assert(incoming.take(m as int) =~= incoming);
    }

    /// The bank's bytes (which must fit in memory).
    pub fn generate(&self) -> (out: Vec<u8>)
        requires
            16 + 8 * self.entries@.len() + texts_bytes(self.entries@.map_values(|e: StringEntry| e.text@)).len()
                <= usize::MAX,
        ensures
            out@ == spec_text_bank_bytes(
                self.language,
                self.entries@.map_values(|e: StringEntry| e.string_id),
                self.entries@.map_values(|e: StringEntry| e.text@),
            ),
    {
        text_bank_bytes(self.language, self.entries.as_slice())
    }
}


// ---------------------------------------------------------------------------
// Reading back what was written.

/// The UTF-8 bytes of a character other than NUL are all nonzero.
proof fn lemma_scalar_bytes_nonzero(c: u32)
    requires
        is_scalar(c),
        c != 0,
    ensures
        forall|j: int| 0 <= j < encode_scalar(c).len() ==> encode_scalar(c)[j] != 0,
        encode_scalar(c).len() >= 1,
{
    if has_width_1_encoding(c) {
        assert(leading_byte_width_1(c) != 0) by (bit_vector)
            requires
                1 <= c <= 0x7F,
        ;
    } else {
        assert(leading_byte_width_2(c) != 0) by (bit_vector);
        assert(leading_byte_width_3(c) != 0) by (bit_vector);
        assert(leading_byte_width_4(c) != 0) by (bit_vector);
        assert(last_continuation_byte(c) != 0) by (bit_vector);
        assert(second_last_continuation_byte(c) != 0) by (bit_vector);
        assert(third_last_continuation_byte(c) != 0) by (bit_vector);
    }
}

/// The UTF-8 bytes of a text without NUL are all nonzero, and a nonempty
/// text has some.
proof fn lemma_utf8_nonzero(t: Seq<char>)
    requires
        forall|i: int| 0 <= i < t.len() ==> t[i] != '\0',
    ensures
        forall|j: int| 0 <= j < encode_utf8(t).len() ==> encode_utf8(t)[j] != 0,
        t.len() > 0 ==> encode_utf8(t).len() >= 1,
    decreases t.len(),
{
    if t.len() > 0 {
        let c = t[0] as u32;
        char_is_scalar(t[0]);
        char_u32_cast(t[0], c);
        assert(c != 0) by {
            if c == 0 {
                char_u32_cast('\0', 0u32);
                assert(t[0] == (c as char));
                assert(('\0' as u32) == 0);
            }
            assert(t[0] != '\0');
        }
        lemma_scalar_bytes_nonzero(c);
        lemma_utf8_nonzero(t.drop_first());
        let a = encode_scalar(c);
        let b = encode_utf8(t.drop_first());
        assert forall|j: int| 0 <= j < encode_utf8(t).len() implies encode_utf8(t)[j] != 0 by {
            if j < a.len() {
                assert(encode_utf8(t)[j] == a[j]);
            } else {
                assert(encode_utf8(t)[j] == b[j - a.len()]);
            }
        }
    }
}

/// The first zero at or after `i` is at `j` when the bytes from `i` up to
/// `j` are nonzero and the byte at `j` is zero.
proof fn lemma_first_zero_at(buf: Seq<u8>, i: int, j: int)
    requires
        0 <= i <= j < buf.len(),
        buf[j] == 0,
        forall|k: int| i <= k < j ==> buf[k] != 0,
    ensures
        first_zero(buf, i) == j,
    decreases j - i,
{
    if i < j {
        lemma_first_zero_at(buf, i + 1, j);
    }
}

/// The `k`-th field of `u32_fields(vs)` is `vs[k]`.
proof fn lemma_u32_field_at(vs: Seq<u32>, k: int)
    requires
        0 <= k < vs.len(),
    ensures
        u32_fields(vs).len() == 4 * vs.len(),
        u32_fields(vs).subrange(4 * k, 4 * k + 4) == spec_u32_to_le_bytes(vs[k]),
    decreases vs.len(),
{
    lemma_auto_spec_u32_to_from_le_bytes();
    lemma_u32_fields_len(vs);
    let prev = u32_fields(vs.drop_last());
    lemma_u32_fields_len(vs.drop_last());
    if k < vs.len() - 1 {
        lemma_u32_field_at(vs.drop_last(), k);
        assert(u32_fields(vs).subrange(4 * k, 4 * k + 4) =~= prev.subrange(4 * k, 4 * k + 4));
    } else {
        assert(u32_fields(vs).subrange(4 * k, 4 * k + 4) =~= spec_u32_to_le_bytes(vs.last()));
    }
}

proof fn lemma_u32_fields_len(vs: Seq<u32>)
    ensures
        u32_fields(vs).len() == 4 * vs.len(),
    decreases vs.len(),
{
    lemma_auto_spec_u32_to_from_le_bytes();
    if vs.len() > 0 {
        lemma_u32_fields_len(vs.drop_last());
    }
}

/// The strings' bytes of the first `m` texts begin the strings' bytes of
/// all of them.
proof fn lemma_texts_bytes_prefix(texts: Seq<Seq<char>>, m: int)
    requires
        0 <= m <= texts.len(),
    ensures
        texts_bytes(texts.take(m)).len() <= texts_bytes(texts).len(),
        texts_bytes(texts).subrange(0, texts_bytes(texts.take(m)).len() as int) == texts_bytes(texts.take(m)),
    decreases texts.len() - m,
{
    if m == texts.len() {
        assert(texts.take(m) =~= texts);
        assert(texts_bytes(texts).subrange(0, texts_bytes(texts).len() as int) =~= texts_bytes(texts));
    } else {
        lemma_texts_bytes_prefix(texts, m + 1);
        let a = texts_bytes(texts.take(m));
        let b = texts_bytes(texts.take(m + 1));
        assert(texts.take(m + 1).drop_last() =~= texts.take(m));
        assert(b == a + encode_utf8(texts[m]) + seq![0u8]);
        assert(texts_bytes(texts).subrange(0, a.len() as int) =~= b.subrange(0, a.len() as int));
        assert(b.subrange(0, a.len() as int) =~= a);
    }
}

/// Where the `k`-th text's bytes stand among the strings' bytes: its UTF-8,
/// then a zero.
proof fn lemma_text_layout(texts: Seq<Seq<char>>, k: int)
    requires
        0 <= k < texts.len(),
    ensures
        ({
            let t = texts_bytes(texts);
            let p = texts_bytes(texts.take(k)).len() as int;
            let e = encode_utf8(texts[k]);
            &&& p + e.len() + 1 <= t.len()
            &&& t.subrange(p, p + e.len()) == e
            &&& t[p + e.len()] == 0
            &&& texts_bytes(texts.take(k + 1)).len() == p + e.len() + 1
        }),
{
    lemma_texts_bytes_prefix(texts, k + 1);
    let t = texts_bytes(texts);
    let a = texts_bytes(texts.take(k));
    let e = encode_utf8(texts[k]);
    let b = texts_bytes(texts.take(k + 1));
    let p = a.len() as int;
    let q = p + e.len();
    assert(texts.take(k + 1).drop_last() =~= texts.take(k));
    assert(b == a + e + seq![0u8]);
    assert(t.subrange(p, q) =~= b.subrange(p, q));
    assert(b.subrange(p, q) =~= e);
    assert(t[q] == t.subrange(0, b.len() as int)[q]);
}


/// A text that reads back as written: not empty, and without NUL.
pub open spec fn readable_text(t: Seq<char>) -> bool {
    t.len() > 0 && forall|i: int| 0 <= i < t.len() ==> t[i] != '\0'
}

/// The string the `k`-th entry of a written text bank reads back as.
proof fn lemma_entry_read_back(language: u32, ids: Seq<u32>, texts: Seq<Seq<char>>, k: int)
    requires
        ids.len() == texts.len(),
        16 + 8 * ids.len() + texts_bytes(texts).len() <= u32::MAX,
        forall|i: int| 0 <= i < texts.len() ==> readable_text(#[trigger] texts[i]),
        0 <= k < ids.len(),
    ensures
        text_entry_at(spec_text_bank_bytes(language, ids, texts), ids.len() as int, k) == Some(
            (ids[k], lossy_utf8(encode_utf8(texts[k]))),
        ),
{
    lemma_auto_spec_u32_to_from_le_bytes();
    let n = ids.len() as int;
    let base = 16 + 8 * n;
    let offs = text_offsets(texts, base);
    let h = seq![0xaeu8, 0xf3u8, 0x85u8, 0x3eu8, 0x01u8, 0x00u8, 0x00u8, 0x00u8] + spec_u32_to_le_bytes(
        ids.len() as u32,
    ) + spec_u32_to_le_bytes(language);
    let f1 = u32_fields(ids);
    let f2 = u32_fields(offs);
    let t = texts_bytes(texts);
    let b = spec_text_bank_bytes(language, ids, texts);
    assert(b == h + f1 + f2 + t);
    lemma_u32_field_at(ids, k);
    lemma_u32_field_at(offs, k);
    assert(h.len() == 16);
    // The id.
    assert(b.subrange(16 + 4 * k, 16 + 4 * k + 4) =~= f1.subrange(4 * k, 4 * k + 4));
    assert(le_u32_at(b, 16 + 4 * k) == ids[k]);
    // The offset.
    let pk = texts_bytes(texts.take(k)).len() as int;
    lemma_texts_bytes_prefix(texts, k);
    assert(offs[k] == (base + pk) as u32);
    assert(offs[k] == base + pk);
    assert(b.subrange(16 + 4 * n + 4 * k, 16 + 4 * n + 4 * k + 4) =~= f2.subrange(4 * k, 4 * k + 4));
    assert(le_u32_at(b, 16 + 4 * n + 4 * k) == base + pk);
    // The text and its terminating zero.
    lemma_text_layout(texts, k);
    let e = encode_utf8(texts[k]);
    let p = base + pk;
    let q = p + e.len();
    lemma_utf8_nonzero(texts[k]);
    assert(b.len() == base + t.len());
    assert(b.subrange(p, q) =~= t.subrange(pk, pk + e.len()));
    assert(b[q] == t[pk + e.len()]);
    assert forall|x: int| p + 1 <= x < q implies b[x] != 0 by {
        assert(b[x] == t.subrange(pk, pk + e.len())[x - p]);
        assert(e[x - p] != 0);
    }
    lemma_first_zero_at(b, p + 1, q);
}

/// The first `m` entries of a written text bank read back.
proof fn lemma_entries_read_back(language: u32, ids: Seq<u32>, texts: Seq<Seq<char>>, m: nat)
    requires
        ids.len() == texts.len(),
        16 + 8 * ids.len() + texts_bytes(texts).len() <= u32::MAX,
        forall|i: int| 0 <= i < texts.len() ==> readable_text(#[trigger] texts[i]),
        m <= ids.len(),
    ensures
        text_entries_upto(spec_text_bank_bytes(language, ids, texts), ids.len() as int, m) == Some(
            Seq::new(m, |k: int| (ids[k], lossy_utf8(encode_utf8(texts[k])))),
        ),
    decreases m,
{
    if m > 0 {
        lemma_entries_read_back(language, ids, texts, (m - 1) as nat);
        lemma_entry_read_back(language, ids, texts, m - 1);
        assert(Seq::new((m - 1) as nat, |k: int| (ids[k], lossy_utf8(encode_utf8(texts[k])))).push(
            (ids[m - 1], lossy_utf8(encode_utf8(texts[m - 1]))),
        ) =~= Seq::new(m, |k: int| (ids[k], lossy_utf8(encode_utf8(texts[k])))));
    } else {
        assert(Seq::new(0, |k: int| (ids[k], lossy_utf8(encode_utf8(texts[k])))) =~= Seq::<
            (u32, Seq<char>),
        >::empty());
    }
}

/// Reading a written text bank gives back its language and, in order, each
/// string's id with what its text's UTF-8 decodes to (its text, which
/// `String::from_utf8_lossy` gives back for valid UTF-8), when every text is
/// nonempty and free of NUL and the bank's offsets fit their 32-bit fields.
pub proof fn law_text_bank_read_back(language: u32, ids: Seq<u32>, texts: Seq<Seq<char>>)
    requires
        ids.len() == texts.len(),
        16 + 8 * ids.len() + texts_bytes(texts).len() <= u32::MAX,
        forall|i: int| 0 <= i < texts.len() ==> readable_text(#[trigger] texts[i]),
    ensures
        spec_parse_text_bank(spec_text_bank_bytes(language, ids, texts)) == Some(
            (language, Seq::new(ids.len(), |k: int| (ids[k], lossy_utf8(encode_utf8(texts[k]))))),
        ),
        forall|k: int|
            0 <= k < texts.len() ==> valid_utf8(#[trigger] encode_utf8(texts[k])) && decode_utf8(
                encode_utf8(texts[k]),
            ) == texts[k],
{
    broadcast use encode_utf8_decode_utf8, encode_utf8_valid_utf8;

    lemma_auto_spec_u32_to_from_le_bytes();
    let n = ids.len() as int;
    let b = spec_text_bank_bytes(language, ids, texts);
    let h = seq![0xaeu8, 0xf3u8, 0x85u8, 0x3eu8, 0x01u8, 0x00u8, 0x00u8, 0x00u8] + spec_u32_to_le_bytes(
        ids.len() as u32,
    ) + spec_u32_to_le_bytes(language);
    lemma_u32_fields_len(ids);
    lemma_u32_fields_len(text_offsets(texts, 16 + 8 * n));
    assert(b == h + u32_fields(ids) + u32_fields(text_offsets(texts, 16 + 8 * n)) + texts_bytes(texts));
    assert(b.subrange(8, 12) =~= spec_u32_to_le_bytes(ids.len() as u32));
    assert(b.subrange(12, 16) =~= spec_u32_to_le_bytes(language));
    assert(le_u32_at(b, 8) == n);
    assert(le_u32_at(b, 12) == language);
    lemma_entries_read_back(language, ids, texts, ids.len());
}


// ---------------------------------------------------------------------------
// Importing the same strings twice.

/// The entry after taking `text` once more is the entry after taking it
/// once, and that second take is no first change.
proof fn lemma_import_model_twice(m: EntryModel, text: Seq<char>)
    ensures
        import_model(import_model(m, text), text) == import_model(m, text),
        !is_first_change(import_model(m, text), text),
{
}

/// What the entry at each place becomes when strings with unique ids are
/// taken: the incoming text of its id, taken as `import_model` does, or
/// itself; and no entry counts as a first change when none of the incoming
/// texts is a first change for the entry of its id.
proof fn lemma_import_texts_pointwise(ms: Seq<(u32, EntryModel)>, inc: Seq<(u32, Seq<char>)>)
    requires
        keys_unique(ms),
        keys_unique(inc),
    ensures
        ({
            let r = import_texts(ms, inc).0;
            &&& r.len() == ms.len()
            &&& forall|j: int|
                0 <= j < ms.len() ==> (#[trigger] r[j]).0 == ms[j].0 && r[j].1 == if has_key(inc, ms[j].0) {
                    import_model(ms[j].1, inc[key_index(inc, ms[j].0)].1)
                } else {
                    ms[j].1
                }
        }),
        (forall|j: int|
            0 <= j < ms.len() && has_key(inc, #[trigger] ms[j].0) ==> !is_first_change(
                ms[j].1,
                inc[key_index(inc, ms[j].0)].1,
            )) ==> import_texts(ms, inc).1 == 0,
    decreases inc.len(),
{
    if inc.len() > 0 {
        let front = inc.drop_last();
        assert(keys_unique(front)) by {
            assert forall|a: int, b: int| 0 <= a < front.len() && 0 <= b < front.len() && a != b implies front[a].0
                != front[b].0 by {
                assert(front[a] == inc[a]);
                assert(front[b] == inc[b]);
            }
        }
        lemma_import_texts_pointwise(ms, front);
        let (prev, n) = import_texts(ms, front);
        let (id, text) = inc.last();
        let last = inc.len() - 1;
        lemma_key_index_unique(inc, id, last);
        // Keys of `front` keep their places in `inc`, and `id` is not among them.
        assert forall|k: u32| has_key(front, k) implies has_key(inc, k) && key_index(inc, k) == key_index(front, k)
            && k != id by {
            let i = key_index(front, k);
            assert(inc[i] == front[i]);
            lemma_key_index_unique(inc, k, i);
        }
        assert forall|k: u32| has_key(inc, k) && k != id implies has_key(front, k) by {
            let i = key_index(inc, k);
            assert(i != last);
            assert(front[i] == inc[i]);
        }
        if has_key(prev, id) {
            let i = key_index(prev, id);
            let r = prev.update(i, (id, import_model(prev[i].1, text)));
            assert(ms[i].0 == id);
            assert(!has_key(front, id));
            assert forall|j: int| 0 <= j < ms.len() implies (#[trigger] r[j]).0 == ms[j].0 && r[j].1 == if has_key(
                inc,
                ms[j].0,
            ) {
                import_model(ms[j].1, inc[key_index(inc, ms[j].0)].1)
            } else {
                ms[j].1
            } by {
                if j != i {
                    assert(ms[j].0 != id) by {
                        lemma_key_index_unique(ms, ms[j].0, j);
                        if ms[j].0 == id {
                            lemma_key_index_unique(ms, id, i);
                        }
                    }
                }
            }
        } else {
            assert forall|j: int| 0 <= j < ms.len() implies ms[j].0 != id by {
                assert(prev[j].0 == ms[j].0);
            }
        }
    }
}

/// Importing the same strings twice: the second import changes no entry and
/// counts no first change.
pub proof fn law_import_texts_twice(ms: Seq<(u32, EntryModel)>, inc: Seq<(u32, Seq<char>)>)
    requires
        keys_unique(ms),
        keys_unique(inc),
    ensures
        import_texts(import_texts(ms, inc).0, inc) == (import_texts(ms, inc).0, 0nat),
{
    lemma_import_texts_pointwise(ms, inc);
    let r1 = import_texts(ms, inc).0;
    lemma_import_texts_unique(ms, inc);
    lemma_import_texts_pointwise(r1, inc);
    let r2 = import_texts(r1, inc).0;
    assert forall|j: int| 0 <= j < r1.len() && has_key(inc, #[trigger] r1[j].0) implies !is_first_change(
        r1[j].1,
        inc[key_index(inc, r1[j].0)].1,
    ) by {
        lemma_import_model_twice(ms[j].1, inc[key_index(inc, ms[j].0)].1);
    }
    assert forall|j: int| 0 <= j < r1.len() implies r2[j] == r1[j] by {
        if has_key(inc, ms[j].0) {
            lemma_import_model_twice(ms[j].1, inc[key_index(inc, ms[j].0)].1);
        }
    }
    assert(r2 =~= r1);
}

} // verus!
