//! Rewriting the unit resources inside a mod `.patch_N` archive so that they
//! match the current game data: unit TOC entries the game no longer knows are
//! dropped, and each remaining unit gets the game's current version stamp and
//! LOD-group block, with every offset behind the LOD group shifted to match.
//!
//! The rewrite works on a [`MemoryStream`]; its specification is stated over
//! the same stream operations ([`s_seek`], [`s_write`], [`s_read_u32`], ...),
//! step by step.

use vstd::prelude::*;
use vstd::bytes::*;
use crate::le::{le_u32_at, le_u64_at, opt_u32_at, opt_u64_at, u32_at, u64_at};
use crate::memstream::{extended, inserted_zeros, overwritten, removed, MemoryStream};
use crate::{PatchKind, spec_classify, type_id_at, type_entry_ok, UNIT_TYPE_ID};

verus! {

broadcast use vstd::seq_lib::group_seq_properties;

/// Outcome of attempting to update a single patch file.
#[derive(Debug, Clone, Copy, PartialEq, Eq, Structural)]
pub enum PatchOutcome {
    Updated,
    NoUnits,
    Corrupted,
}

/// The original unit data pulled from the game files, used to overwrite the
/// unit in a patch.
pub struct UnitData {
    pub version: [u8; 4],
    pub lod_group_data: Vec<u8>,
    /// `joint_list_offset - lod_group_offset` in the original game file.
    pub lod_group_size: i64,
}

/// Supplies original unit data by unit id. An implementation answers
/// consistently: `knows` and `data_for` are what its answers are.
pub trait UnitDataSource {
    /// Whether the game data indexes this unit id.
    spec fn knows(&self, unit_id: u64) -> bool;

    /// The original data of a unit the game data indexes.
    spec fn data_for(&self, unit_id: u64) -> UnitData;

    /// Whether the game data indexes this unit id.
    fn contains(&self, unit_id: u64) -> (b: bool)
        ensures
            b == self.knows(unit_id),
    ;

    /// Fetches the original unit version and LOD-group data. Only called
    /// when [`UnitDataSource::contains`] is true.
    fn get_unit_data(&self, unit_id: u64) -> (d: UnitData)
        requires
            self.knows(unit_id),
        ensures
            d == self.data_for(unit_id),
    ;
}

/// The game's current data for the units a patch refers to: the ids the
/// game knows, each with its data. An id that occurs twice resolves to its
/// first entry.
pub struct UnitTable {
    pub units: Vec<(u64, UnitData)>,
}

/// Index of the first entry at or after `i` whose id is `id`.
pub open spec fn first_index_from(units: Seq<(u64, UnitData)>, id: u64, i: int) -> Option<int>
    decreases units.len() - i,
{
    if i < 0 || i >= units.len() {
        None
    } else if units[i].0 == id {
        Some(i)
    } else {
        first_index_from(units, id, i + 1)
    }
}

/// The data the table holds for `id`, if any.
pub open spec fn unit_lookup(units: Seq<(u64, UnitData)>, id: u64) -> Option<UnitData> {
    match first_index_from(units, id, 0) {
        Some(i) => Some(units[i].1),
        None => None,
    }
}

proof fn lemma_first_index_skip(units: Seq<(u64, UnitData)>, id: u64, i: int)
    requires
        0 <= i < units.len(),
        units[i].0 != id,
    ensures
        first_index_from(units, id, i) == first_index_from(units, id, i + 1),
{
}

impl UnitTable {
    pub fn lookup(&self, id: u64) -> (r: Option<&UnitData>)
        ensures
            r matches Some(d) ==> unit_lookup(self.units@, id) == Some(*d),
            r is None ==> unit_lookup(self.units@, id) is None,
    {
        let mut i: usize = 0;
        while i < self.units.len()
            invariant
                0 <= i <= self.units@.len(),
                first_index_from(self.units@, id, 0) == first_index_from(self.units@, id, i as int),
            decreases self.units@.len() - i,
        {
            if self.units[i].0 == id {
                return Some(&self.units[i].1);
            }
            proof {
                lemma_first_index_skip(self.units@, id, i as int);
            }
            i = i + 1;
        }
        None
    }

    pub fn contains(&self, id: u64) -> (b: bool)
        ensures
            b == (unit_lookup(self.units@, id) is Some),
    {
        match self.lookup(id) {
            Some(_) => true,
            None => false,
        }
    }
}

// ---------------------------------------------------------------------------
// Stream operations, as the rewrite uses them. A target offset outside
// `0..=usize::MAX`, or a read past the end of the buffer, makes the rewrite
// fail (the patch is then reported as corrupted).

/// Seeking to `p`: the buffer is zero-extended to reach it.
pub open spec fn s_seek(d: Seq<u8>, p: int) -> Option<Seq<u8>> {
    if 0 <= p <= usize::MAX {
        Some(extended(d, p as nat))
    } else {
        None
    }
}

/// Reading the `u32` at `p`.
pub open spec fn s_read_u32(d: Seq<u8>, p: int) -> Option<u32> {
    if 0 <= p && p + 4 <= d.len() {
        Some(le_u32_at(d, p))
    } else {
        None
    }
}

/// Seeking to `p` and writing `bytes` there.
pub open spec fn s_write(d: Seq<u8>, p: int, bytes: Seq<u8>) -> Option<Seq<u8>> {
    if 0 <= p && p + bytes.len() <= usize::MAX {
        Some(overwritten(extended(d, p as nat), p as nat, bytes))
    } else {
        None
    }
}

/// Growing (`delta > 0`, zero bytes inserted) or shrinking (`delta <= 0`,
/// bytes removed) the buffer at `p`.
pub open spec fn s_resize_at(d: Seq<u8>, p: int, delta: int) -> Option<Seq<u8>> {
    if !(0 <= p <= usize::MAX) {
        None
    } else {
        let e = extended(d, p as nat);
        if delta > 0 {
            if e.len() + delta <= usize::MAX {
                Some(inserted_zeros(e, p as nat, delta as nat))
            } else {
                None
            }
        } else if p + (-delta) <= usize::MAX {
            Some(removed(e, p as nat, (-delta) as nat))
        } else {
            None
        }
    }
}

pub open spec fn in_i64(x: int) -> bool {
    i64::MIN <= x <= i64::MAX
}

/// Offsets the executable rewrite computes never leave this range.
pub open spec fn small(x: int) -> bool {
    -0x1_0000_0000_0000_0000_0000_0000_0000i128 <= x <= 0x1_0000_0000_0000_0000_0000_0000_0000i128
}

/// Base offsets of composite steps lie well inside [`small`].
pub open spec fn moderate(x: int) -> bool {
    -0x1_0000_0000_0000_0000_0000i128 <= x <= 0x1_0000_0000_0000_0000_0000i128
}

// ---------------------------------------------------------------------------
// Type table.

/// Result of scanning the type table for the unit type.
pub enum TypeScan {
    /// An entry is missing or carries an id below 2^32.
    Corrupted,
    /// No entry carries the unit type.
    NoUnits,
    /// The unit type's entry: its resource count, the offset of that count
    /// field, and the (wrapping) sum of the counts up to and including it.
    Found { count: u64, count_offset: int, total: u64 },
}

/// Scans type entries `i..num_types`, `total` being the wrapping sum of the
/// counts of the entries before `i`.
pub open spec fn scan_types(data: Seq<u8>, num_types: int, i: int, total: u64) -> TypeScan
    decreases num_types - i,
{
    if i >= num_types || i < 0 {
        TypeScan::NoUnits
    } else {
        let pos = 72 + 32 * i + 8;
        match (opt_u64_at(data, pos), opt_u64_at(data, pos + 8)) {
            (Some(t), Some(c)) => {
                let total2 = vstd::wrapping::u64_specs::wrapping_add(total, c);
                if t < 0x1_0000_0000u64 {
                    TypeScan::Corrupted
                } else if t == UNIT_TYPE_ID {
                    TypeScan::Found { count: c, count_offset: pos + 8, total: total2 }
                } else {
                    scan_types(data, num_types, i + 1, total2)
                }
            },
            _ => TypeScan::Corrupted,
        }
    }
}

// ---------------------------------------------------------------------------
// TOC headers.

/// A TOC header entry: the fields the rewrite touches, plus the header's own
/// position in the archive.
#[derive(Clone, Copy)]
pub struct Header {
    pub file_id: u64,
    pub type_id: u64,
    pub toc_data_offset: i64,
    pub offset: i64,
}

/// The `k`-th TOC header, read from the original archive, when its fields
/// are present and its data offset (read as a signed value) does not lie
/// past the end of the archive.
pub open spec fn header_at(data: Seq<u8>, toc_start: int, k: int) -> Option<Header> {
    let hpos = toc_start + 80 * k;
    match (opt_u64_at(data, hpos), opt_u64_at(data, hpos + 8), opt_u64_at(data, hpos + 16)) {
        (Some(file_id), Some(type_id), Some(toc)) => if (toc as i64) > data.len() {
            None
        } else {
            Some(Header { file_id, type_id, toc_data_offset: toc as i64, offset: hpos as i64 })
        },
        _ => None,
    }
}

/// The first `n` TOC headers, when all of them are readable.
pub open spec fn read_headers(data: Seq<u8>, toc_start: int, n: int) -> Option<Seq<Header>> {
    if forall|k: int| 0 <= k < n ==> (#[trigger] header_at(data, toc_start, k)) is Some {
        Some(Seq::new(n as nat, |k: int| header_at(data, toc_start, k).unwrap()))
    } else {
        None
    }
}

/// Whether the rewrite drops this header: a unit the game data no longer
/// knows.
pub open spec fn is_dropped(h: Header, units: Seq<(u64, UnitData)>) -> bool {
    unit_lookup(units, h.file_id) is None && h.type_id == UNIT_TYPE_ID
}

/// Dropping unknown unit headers, in order: each dropped header's 80 bytes
/// are deleted, and every later header's position shifts up by 80 per
/// header dropped before it. Yields the new buffer, the kept headers (with
/// shifted positions) and the total shift (a non-positive multiple of 80).
pub open spec fn drop_unknown(d: Seq<u8>, hs: Seq<Header>, units: Seq<(u64, UnitData)>) -> (Seq<u8>, Seq<Header>, int)
    decreases hs.len(),
{
    if hs.len() == 0 {
        (d, Seq::empty(), 0)
    } else {
        let (d0, kept, adj) = drop_unknown(d, hs.drop_last(), units);
        let h = hs.last();
        let h2 = Header { offset: (h.offset + adj) as i64, ..h };
        if is_dropped(h, units) {
            (removed(extended(d0, h2.offset as nat), h2.offset as nat, 80), kept, adj - 80)
        } else {
            (d0, kept.push(h2), adj)
        }
    }
}

/// Shifts every header's data offset by `adj`.
pub open spec fn shift_offsets(hs: Seq<Header>, adj: int) -> Seq<Header> {
    Seq::new(hs.len(), |i: int| Header { toc_data_offset: (hs[i].toc_data_offset + adj) as i64, ..hs[i] })
}

// ---------------------------------------------------------------------------
// Stable ordering by data offset.

/// Where `h` goes in `s` (sorted by data offset): after every header whose
/// offset is not larger.
pub open spec fn insert_pos(s: Seq<Header>, key: i64) -> nat
    decreases s.len(),
{
    if s.len() == 0 {
        0
    } else if s.last().toc_data_offset <= key {
        s.len()
    } else {
        insert_pos(s.drop_last(), key)
    }
}

/// Headers in order of data offset; headers with equal offsets keep their
/// relative order.
pub open spec fn sort_by_offset(s: Seq<Header>) -> Seq<Header>
    decreases s.len(),
{
    if s.len() == 0 {
        s
    } else {
        let rest = sort_by_offset(s.drop_last());
        rest.insert(insert_pos(rest, s.last().toc_data_offset) as int, s.last())
    }
}

proof fn lemma_sort_len(s: Seq<Header>)
    ensures
        sort_by_offset(s).len() == s.len(),
    decreases s.len(),
{
    if s.len() > 0 {
        lemma_sort_len(s.drop_last());
        lemma_insert_pos_bound(sort_by_offset(s.drop_last()), s.last().toc_data_offset);
    }
}

proof fn lemma_insert_pos_bound(s: Seq<Header>, key: i64)
    ensures
        insert_pos(s, key) <= s.len(),
    decreases s.len(),
{
    if s.len() > 0 {
        lemma_insert_pos_bound(s.drop_last(), key);
    }
}

// ---------------------------------------------------------------------------
// Rewriting one unit.

/// Position of the `j`-th of the 16 vertex items of a layout at `p`: an
/// 8-byte head, then 20 bytes per item (type, format, 12 more bytes).
pub open spec fn layout_item_pos(p: int, j: int) -> int {
    p + 8 + 20 * j
}

/// Fixes the formats of items `j..16` of the layout at `p`: a format above
/// 16 is increased by 4; the cursor moves past each item, zero-extending the
/// buffer when it runs past the end.
pub open spec fn fix_layout_items(d: Seq<u8>, p: int, j: int) -> Option<Seq<u8>>
    decreases 16 - j,
{
    if j >= 16 || j < 0 {
        Some(d)
    } else {
        let q = layout_item_pos(p, j);
        match (s_read_u32(d, q), s_read_u32(d, q + 4)) {
            (Some(_item_type), Some(format)) => {
                let d1 = if format > 16 {
                    if format + 4 > u32::MAX {
                        None
                    } else {
                        s_write(d, q + 4, spec_u32_to_le_bytes((format + 4) as u32))
                    }
                } else {
                    Some(d)
                };
                match d1 {
                    Some(d1) => match s_seek(d1, q + 20) {
                        Some(d2) => fix_layout_items(d2, p, j + 1),
                        None => None,
                    },
                    None => None,
                }
            },
            _ => None,
        }
    }
}

/// Fixes one vertex layout at `p` (the cursor first moves to it and past its
/// 8-byte head).
pub open spec fn fix_layout(d: Seq<u8>, p: int) -> Option<Seq<u8>> {
    match s_seek(d, p) {
        Some(d1) => match s_seek(d1, p + 8) {
            Some(d2) => fix_layout_items(d2, p, 0),
            None => None,
        },
        None => None,
    }
}

/// The layout offsets `i..n` of the layout list at `base` (a count, then `n`
/// offsets relative to `base`).
pub open spec fn layout_offsets(d: Seq<u8>, base: int, n: int) -> Option<Seq<u32>> {
    if forall|i: int| 0 <= i < n ==> (#[trigger] s_read_u32(d, base + 4 + 4 * i)) is Some {
        Some(Seq::new(n as nat, |i: int| s_read_u32(d, base + 4 + 4 * i).unwrap()))
    } else {
        None
    }
}

/// Fixes the layouts at `base + offs[i]`, for every `i` in order.
pub open spec fn fix_layouts(d: Seq<u8>, base: int, offs: Seq<u32>) -> Option<Seq<u8>>
    decreases offs.len(),
{
    if offs.len() == 0 {
        Some(d)
    } else {
        match fix_layouts(d, base, offs.drop_last()) {
            Some(d1) => fix_layout(d1, base + offs.last()),
            None => None,
        }
    }
}

/// Legacy layout fix-up for a unit at `start` whose version is older than
/// 0xA4CD36: every vertex layout in its layout list gets its item formats
/// above 16 raised by 4.
pub open spec fn legacy_fixup(d: Seq<u8>, start: int) -> Option<Seq<u8>> {
    match s_seek(d, start + 0x5C) {
        Some(d1) => match s_read_u32(d1, start + 0x5C) {
            Some(llo) => {
                let base = start + llo;
                match s_seek(d1, base) {
                    Some(d2) => match s_read_u32(d2, base) {
                        Some(n) => match layout_offsets(d2, base, n as int) {
                            Some(offs) => fix_layouts(d2, base, offs),
                            None => None,
                        },
                        None => None,
                    },
                    None => None,
                }
            },
            None => None,
        },
        None => None,
    }
}

/// Shifts entries `j..16` of the 16-entry offset table at `t` by `delta`
/// when they are non-zero and point past the LOD group at `lod`.
pub open spec fn shift_offset_table(d: Seq<u8>, t: int, j: int, lod: u32, delta: int) -> Option<Seq<u8>>
    decreases 16 - j,
{
    if j >= 16 || j < 0 {
        Some(d)
    } else {
        let q = t + 4 * j;
        match s_read_u32(d, q) {
            Some(off) => {
                let d1 = if off != 0 && off > lod {
                    if in_i64(off + delta) {
                        s_write(d, q, spec_u32_to_le_bytes((off + delta) as u32))
                    } else {
                        None
                    }
                } else {
                    Some(d)
                };
                match d1 {
                    Some(d1) => shift_offset_table(d1, t, j + 1, lod, delta),
                    None => None,
                }
            },
            None => None,
        }
    }
}

/// After the version check (and legacy fix-up): stamps the game's version,
/// resizes the LOD group to the game's size, shifts the offset table, and
/// writes the game's LOD-group bytes. Yields the buffer and the size change.
pub open spec fn replace_lod_group(d: Seq<u8>, start: int, ud: UnitData) -> Option<(Seq<u8>, int)> {
    match s_seek(d, start) {
        None => None,
        Some(d1) => match s_write(d1, start + 0x2C, ud.version@) {
            None => None,
            Some(d2) => match (s_read_u32(d2, start + 0x30), s_read_u32(d2, start + 0x34)) {
                (Some(lod), Some(joint)) => {
                    let group_size = joint - lod;
                    let p = start + lod;
                    let delta = ud.lod_group_size - group_size;
                    if !in_i64(delta) {
                        None
                    } else {
                        match s_seek(d2, p) {
                            None => None,
                            Some(d3) => match s_resize_at(d3, p, delta) {
                                None => None,
                                Some(d4) => match s_seek(d4, start + 0x34) {
                                    None => None,
                                    Some(d5) => match shift_offset_table(d5, start + 0x34, 0, lod, delta) {
                                        None => None,
                                        Some(d6) => match s_write(d6, p, ud.lod_group_data@) {
                                            None => None,
                                            Some(d7) => Some((d7, delta)),
                                        },
                                    },
                                },
                            },
                        }
                    }
                },
                _ => None,
            },
        },
    }
}

/// Rewrites the unit whose data starts at `start`.
pub open spec fn rewrite_unit(d: Seq<u8>, start: int, ud: UnitData) -> Option<(Seq<u8>, int)> {
    match s_seek(d, start + 0x2C) {
        None => None,
        Some(d1) => match s_read_u32(d1, start + 0x2C) {
            None => None,
            Some(v) => {
                let fixed = if v < 0xA4CD36u32 {
                    legacy_fixup(d1, start)
                } else {
                    Some(d1)
                };
                match fixed {
                    Some(d2) => replace_lod_group(d2, start, ud),
                    None => None,
                }
            },
        },
    }
}

/// Processes one kept header, `so` being the accumulated size change of the
/// units before it: its data offset is rewritten, and a unit's data is
/// replaced. Yields the buffer and the new accumulated size change.
pub open spec fn rewrite_header(d: Seq<u8>, so: int, h: Header, units: Seq<(u64, UnitData)>) -> Option<(Seq<u8>, int)> {
    let start = h.toc_data_offset + so;
    if !in_i64(start) {
        None
    } else {
        match s_write(d, h.offset + 16, spec_u64_to_le_bytes(start as u64)) {
            None => None,
            Some(d1) => if h.type_id == UNIT_TYPE_ID && unit_lookup(units, h.file_id) is Some {
                if start < 0 {
                    None
                } else {
                    match rewrite_unit(d1, start, unit_lookup(units, h.file_id).unwrap()) {
                        Some((d2, delta)) => if in_i64(so + delta) {
                            Some((d2, so + delta))
                        } else {
                            None
                        },
                        None => None,
                    }
                }
            } else {
                Some((d1, so))
            },
        }
    }
}

/// Processes the headers `hs` in order.
pub open spec fn rewrite_headers(d: Seq<u8>, hs: Seq<Header>, units: Seq<(u64, UnitData)>) -> Option<(Seq<u8>, int)>
    decreases hs.len(),
{
    if hs.len() == 0 {
        Some((d, 0))
    } else {
        match rewrite_headers(d, hs.drop_last(), units) {
            Some((d1, so)) => rewrite_header(d1, so, hs.last(), units),
            None => None,
        }
    }
}

/// The rewritten buffer, followed by the original's bytes past its end when
/// it came out shorter than the original.
pub open spec fn with_original_tail(new: Seq<u8>, original: Seq<u8>) -> Seq<u8> {
    if original.len() > new.len() {
        new + original.subrange(new.len() as int, original.len() as int)
    } else {
        new
    }
}

/// The rewrite once the type table's unit entry has been found: reads the
/// TOC headers, drops unknown unit headers, fixes the file and unit counts,
/// and rewrites the kept headers in order of data offset.
pub open spec fn spec_rewrite_units(
    original: Seq<u8>,
    units: Seq<(u64, UnitData)>,
    num_types: u32,
    num_files: u32,
    count: u64,
    count_offset: int,
) -> (PatchOutcome, Seq<u8>) {
    let toc_start = 72 + 32 * num_types;
    match read_headers(original, toc_start, num_files as int) {
        None => (PatchOutcome::Corrupted, original),
        Some(hs) => {
            let (d0, kept, adj) = drop_unknown(original, hs, units);
            let dropped = (-adj) / 80;
            let new_num_files = num_files - dropped;
            let new_count = vstd::wrapping::u64_specs::wrapping_sub(count, dropped as u64);
            let order = sort_by_offset(shift_offsets(kept, adj));
            match s_write(d0, 8, spec_u32_to_le_bytes(new_num_files as u32)) {
                None => (PatchOutcome::Corrupted, original),
                Some(d1) => match s_write(d1, count_offset, spec_u64_to_le_bytes(new_count)) {
                    None => (PatchOutcome::Corrupted, original),
                    Some(d2) => match rewrite_headers(d2, order, units) {
                        None => (PatchOutcome::Corrupted, original),
                        Some((d3, _)) => (PatchOutcome::Updated, with_original_tail(d3, original)),
                    },
                },
            }
        },
    }
}

/// The full rewrite of a patch archive `original` against the game's
/// current unit data `units`: the outcome, and the archive's bytes after it
/// (unchanged unless updated).
pub open spec fn spec_update_patch(original: Seq<u8>, units: Seq<(u64, UnitData)>) -> (PatchOutcome, Seq<u8>) {
    match (opt_u32_at(original, 4), opt_u32_at(original, 8)) {
        (Some(num_types), Some(num_files)) => match scan_types(original, num_types as int, 0, 0) {
            TypeScan::Corrupted => (PatchOutcome::Corrupted, original),
            TypeScan::NoUnits => (PatchOutcome::NoUnits, original),
            TypeScan::Found { count, count_offset, total } => if total < num_files {
                (PatchOutcome::Corrupted, original)
            } else {
                spec_rewrite_units(original, units, num_types, num_files, count, count_offset)
            },
        },
        _ => (PatchOutcome::Corrupted, original),
    }
}

// ---------------------------------------------------------------------------
// Executable rewrite.

proof fn lemma_fix_layouts_none(d: Seq<u8>, base: int, offs: Seq<u32>, k: int)
    requires
        0 <= k <= offs.len(),
        fix_layouts(d, base, offs.take(k)) is None,
    ensures
        fix_layouts(d, base, offs) is None,
    decreases offs.len(),
{
    if k == offs.len() {
        assert(offs.take(k) =~= offs);
    } else {
        assert(offs.drop_last().take(k) =~= offs.take(k));
        lemma_fix_layouts_none(d, base, offs.drop_last(), k);
    }
}

fn seek_to(s: &mut MemoryStream, p: i128) -> (ok: bool)
    requires
        old(s).wf(),
        small(p as int),
    ensures
        final(s).wf(),
        ok == (s_seek(old(s).contents(), p as int) is Some),
        ok ==> final(s).contents() == s_seek(old(s).contents(), p as int).unwrap(),
{
    if 0 <= p && p <= usize::MAX as i128 {
        s.seek(p as usize);
        true
    } else {
        false
    }
}

fn read_u32_at(s: &mut MemoryStream, p: i128) -> (r: Option<u32>)
    requires
        old(s).wf(),
        small(p as int),
    ensures
        final(s).wf(),
        final(s).contents() == old(s).contents(),
        r == s_read_u32(old(s).contents(), p as int),
{
    if 0 <= p && p + 4 <= s.len() as i128 {
        s.seek(p as usize);
        Some(s.read_u32())
    } else {
        None
    }
}

fn write_at(s: &mut MemoryStream, p: i128, bytes: &[u8]) -> (ok: bool)
    requires
        old(s).wf(),
        small(p as int),
    ensures
        final(s).wf(),
        ok == (s_write(old(s).contents(), p as int, bytes@) is Some),
        ok ==> final(s).contents() == s_write(old(s).contents(), p as int, bytes@).unwrap(),
{
    if 0 <= p && p + bytes.len() as i128 <= usize::MAX as i128 {
        s.seek(p as usize);
        s.write(bytes);
        true
    } else {
        false
    }
}

fn resize_at(s: &mut MemoryStream, p: i128, delta: i128) -> (ok: bool)
    requires
        old(s).wf(),
        small(p as int),
        small(delta as int),
    ensures
        final(s).wf(),
        ok == (s_resize_at(old(s).contents(), p as int, delta as int) is Some),
        ok ==> final(s).contents() == s_resize_at(old(s).contents(), p as int, delta as int).unwrap(),
{
    if !(0 <= p && p <= usize::MAX as i128) {
        return false;
    }
    s.seek(p as usize);
    if delta > 0 {
        if s.len() as i128 + delta <= usize::MAX as i128 {
            s.insert(delta as usize);
            true
        } else {
            false
        }
    } else if p + (-delta) <= usize::MAX as i128 {
        s.delete((-delta) as usize);
        true
    } else {
        false
    }
}

#[verifier::loop_isolation(false)]
fn fix_layout_items_exec(s: &mut MemoryStream, p: i128) -> (ok: bool)
    requires
        old(s).wf(),
        moderate(p as int),
    ensures
        final(s).wf(),
        ok == (fix_layout_items(old(s).contents(), p as int, 0) is Some),
        ok ==> final(s).contents() == fix_layout_items(old(s).contents(), p as int, 0).unwrap(),
{
    let ghost d0 = s.contents();
    let mut j: i128 = 0;
    while j < 16
        invariant
            s.wf(),
            0 <= j <= 16,
            moderate(p as int),
            fix_layout_items(d0, p as int, 0) == fix_layout_items(s.contents(), p as int, j as int),
        decreases 16 - j,
    {
        let q = p + 8 + 20 * j;
        let ghost d = s.contents();
        let t = read_u32_at(s, q);
        let f = read_u32_at(s, q + 4);
        if t.is_none() || f.is_none() {
            return false;
        }
        let format = f.unwrap();
        if format > 16 {
            if format > u32::MAX - 4 {
                return false;
            }
            let b = u32_to_le_bytes(format + 4);
            if !write_at(s, q + 4, b.as_slice()) {
                return false;
            }
        }
        if !seek_to(s, q + 20) {
            return false;
        }
        j = j + 1;
    }
    true
}

fn fix_layout_exec(s: &mut MemoryStream, p: i128) -> (ok: bool)
    requires
        old(s).wf(),
        moderate(p as int),
    ensures
        final(s).wf(),
        ok == (fix_layout(old(s).contents(), p as int) is Some),
        ok ==> final(s).contents() == fix_layout(old(s).contents(), p as int).unwrap(),
{
    if !seek_to(s, p) {
        return false;
    }
    if !seek_to(s, p + 8) {
        return false;
    }
    fix_layout_items_exec(s, p)
}

#[verifier::loop_isolation(false)]
fn legacy_fixup_exec(s: &mut MemoryStream, start: i128) -> (ok: bool)
    requires
        old(s).wf(),
        0 <= start <= i64::MAX,
    ensures
        final(s).wf(),
        ok == (legacy_fixup(old(s).contents(), start as int) is Some),
        ok ==> final(s).contents() == legacy_fixup(old(s).contents(), start as int).unwrap(),
{
    let ghost d0 = s.contents();
    if !seek_to(s, start + 0x5C) {
        return false;
    }
    let llo = match read_u32_at(s, start + 0x5C) {
        Some(v) => v,
        None => return false,
    };
    let base = start + llo as i128;
    if !seek_to(s, base) {
        return false;
    }
    let ghost d2 = s.contents();
    let n = match read_u32_at(s, base) {
        Some(v) => v,
        None => return false,
    };
    let mut offs: Vec<u32> = Vec::new();
    let mut i: u32 = 0;
    while i < n
        invariant
            s.wf(),
            s.contents() == d2,
            0 <= i <= n,
            0 <= base <= i64::MAX + u32::MAX,
            offs@.len() == i,
            forall|k: int| 0 <= k < i ==> (#[trigger] s_read_u32(d2, base + 4 + 4 * k)) is Some,
            forall|k: int| 0 <= k < i ==> offs@[k] == s_read_u32(d2, base + 4 + 4 * k).unwrap(),
        decreases n - i,
    {
        match read_u32_at(s, base + 4 + 4 * (i as i128)) {
            Some(v) => {
                offs.push(v);
            },
            None => {
                assert(s_read_u32(d2, base + 4 + 4 * (i as int)) is None);
                assert(!(forall|k: int| 0 <= k < n ==> (#[trigger] s_read_u32(d2, base + 4 + 4 * k)) is Some));
                return false;
            },
        }
        i = i + 1;
    }
    assert(offs@ =~= layout_offsets(d2, base as int, n as int).unwrap());
    let ghost all = offs@;
    let mut k: usize = 0;
    while k < offs.len()
        invariant
            s.wf(),
            offs@ == all,
            0 <= k <= all.len(),
            0 <= base <= i64::MAX + u32::MAX,
            fix_layouts(d2, base as int, all.take(k as int)) == Some(s.contents()),
        decreases all.len() - k,
    {
        assert(all.take((k + 1) as int).drop_last() =~= all.take(k as int));
        assert(all.take((k + 1) as int).last() == all[k as int]);
        if !fix_layout_exec(s, base + offs[k] as i128) {
            proof {
                lemma_fix_layouts_none(d2, base as int, all, (k + 1) as int);
            }
            return false;
        }
        k = k + 1;
    }
    assert(all.take(all.len() as int) =~= all);
    true
}

#[verifier::loop_isolation(false)]
fn replace_lod_group_exec(s: &mut MemoryStream, start: i128, ud: &UnitData) -> (r: Option<i128>)
    requires
        old(s).wf(),
        0 <= start <= i64::MAX,
    ensures
        final(s).wf(),
        r is Some == (replace_lod_group(old(s).contents(), start as int, *ud) is Some),
        r matches Some(delta) ==> replace_lod_group(old(s).contents(), start as int, *ud)
            == Some((final(s).contents(), delta as int)),
{
    if !seek_to(s, start) {
        return None;
    }
    if !write_at(s, start + 0x2C, &ud.version) {
        return None;
    }
    let lod = match read_u32_at(s, start + 0x30) {
        Some(v) => v,
        None => return None,
    };
    let joint = match read_u32_at(s, start + 0x34) {
        Some(v) => v,
        None => return None,
    };
    let group_size = joint as i128 - lod as i128;
    let p = start + lod as i128;
    let delta = ud.lod_group_size as i128 - group_size;
    if !(i64::MIN as i128 <= delta && delta <= i64::MAX as i128) {
        return None;
    }
    if !seek_to(s, p) {
        return None;
    }
    if !resize_at(s, p, delta) {
        return None;
    }
    if !seek_to(s, start + 0x34) {
        return None;
    }
    let ghost d5 = s.contents();
    let t = start + 0x34;
    let mut j: i128 = 0;
    while j < 16
        invariant
            s.wf(),
            0 <= j <= 16,
            0 <= t <= i64::MAX + 0x34,
            i64::MIN <= delta <= i64::MAX,
            shift_offset_table(d5, t as int, 0, lod, delta as int)
                == shift_offset_table(s.contents(), t as int, j as int, lod, delta as int),
        decreases 16 - j,
    {
        let q = t + 4 * j;
        let off = match read_u32_at(s, q) {
            Some(v) => v,
            None => return None,
        };
        if off != 0 && off > lod {
            let shifted = off as i128 + delta;
            if !(i64::MIN as i128 <= shifted && shifted <= i64::MAX as i128) {
                return None;
            }
            let b = u32_to_le_bytes(shifted as u32);
            if !write_at(s, q, b.as_slice()) {
                return None;
            }
        }
        j = j + 1;
    }
    if !write_at(s, p, ud.lod_group_data.as_slice()) {
        return None;
    }
    Some(delta)
}

fn rewrite_unit_exec(s: &mut MemoryStream, start: i128, ud: &UnitData) -> (r: Option<i128>)
    requires
        old(s).wf(),
        0 <= start <= i64::MAX,
    ensures
        final(s).wf(),
        r is Some == (rewrite_unit(old(s).contents(), start as int, *ud) is Some),
        r matches Some(delta) ==> rewrite_unit(old(s).contents(), start as int, *ud)
            == Some((final(s).contents(), delta as int)),
{
    if !seek_to(s, start + 0x2C) {
        return None;
    }
    let v = match read_u32_at(s, start + 0x2C) {
        Some(v) => v,
        None => return None,
    };
    if v < 0xA4CD36u32 {
        if !legacy_fixup_exec(s, start) {
            return None;
        }
    }
    replace_lod_group_exec(s, start, ud)
}

fn rewrite_header_exec(s: &mut MemoryStream, so: i128, h: Header, table: &UnitTable) -> (r: Option<i128>)
    requires
        old(s).wf(),
        i64::MIN <= so <= i64::MAX,
    ensures
        final(s).wf(),
        r is Some == (rewrite_header(old(s).contents(), so as int, h, table.units@) is Some),
        r matches Some(so2) ==> rewrite_header(old(s).contents(), so as int, h, table.units@)
            == Some((final(s).contents(), so2 as int)),
        r matches Some(so2) ==> i64::MIN <= so2 <= i64::MAX,
{
    let start = h.toc_data_offset as i128 + so;
    if !(i64::MIN as i128 <= start && start <= i64::MAX as i128) {
        return None;
    }
    proof {
        lemma_auto_spec_u64_to_from_le_bytes();
    }
    let b = u64_to_le_bytes(start as u64);
    if !write_at(s, h.offset as i128 + 16, b.as_slice()) {
        return None;
    }
    if h.type_id == UNIT_TYPE_ID {
        match table.lookup(h.file_id) {
            Some(ud) => {
                if start < 0 {
                    return None;
                }
                match rewrite_unit_exec(s, start, ud) {
                    Some(delta) => {
                        let so2 = so + delta;
                        if i64::MIN as i128 <= so2 && so2 <= i64::MAX as i128 {
                            Some(so2)
                        } else {
                            None
                        }
                    },
                    None => None,
                }
            },
            None => Some(so),
        }
    } else {
        Some(so)
    }
}

fn insert_by_offset(v: &mut Vec<Header>, h: Header)
    ensures
        final(v)@ == old(v)@.insert(insert_pos(old(v)@, h.toc_data_offset) as int, h),
{
    let ghost s0 = v@;
    let mut pos = v.len();
    while pos > 0 && v[pos - 1].toc_data_offset > h.toc_data_offset
        invariant
            v@ == s0,
            pos <= s0.len(),
            insert_pos(s0, h.toc_data_offset) == insert_pos(s0.subrange(0, pos as int), h.toc_data_offset),
        decreases pos,
    {
        assert(s0.subrange(0, pos as int).drop_last() =~= s0.subrange(0, pos - 1));
        pos = pos - 1;
    }
    assert(insert_pos(s0.subrange(0, pos as int), h.toc_data_offset) == pos) by {
        if pos > 0 {
        }
    }
    v.insert(pos, h);
}

/// Stable ordering of `hs` by data offset.
fn sort_headers(hs: &Vec<Header>) -> (out: Vec<Header>)
    ensures
        out@ == sort_by_offset(hs@),
{
    let mut out: Vec<Header> = Vec::new();
    let mut i: usize = 0;
    while i < hs.len()
        invariant
            0 <= i <= hs@.len(),
            out@ == sort_by_offset(hs@.take(i as int)),
        decreases hs@.len() - i,
    {
        assert(hs@.take((i + 1) as int).drop_last() =~= hs@.take(i as int));
        insert_by_offset(&mut out, hs[i]);
        i = i + 1;
    }
    assert(hs@.take(hs@.len() as int) =~= hs@);
    out
}

proof fn lemma_rewrite_headers_none(d: Seq<u8>, hs: Seq<Header>, units: Seq<(u64, UnitData)>, k: int)
    requires
        0 <= k <= hs.len(),
        rewrite_headers(d, hs.take(k), units) is None,
    ensures
        rewrite_headers(d, hs, units) is None,
    decreases hs.len(),
{
    if k == hs.len() {
        assert(hs.take(k) =~= hs);
    } else {
        assert(hs.drop_last().take(k) =~= hs.take(k));
        lemma_rewrite_headers_none(d, hs.drop_last(), units, k);
    }
}

fn copy_bytes(b: &[u8]) -> (v: Vec<u8>)
    ensures
        v@ == b@,
{
    let mut v: Vec<u8> = Vec::new();
    let mut i: usize = 0;
    while i < b.len()
        invariant
            0 <= i <= b@.len(),
            v@ == b@.take(i as int),
        decreases b@.len() - i,
    {
        v.push(b[i]);
        i = i + 1;
        assert(v@ =~= b@.take(i as int));
    }
    assert(b@.take(b@.len() as int) =~= b@);
    v
}

/// Reads the first `n` TOC headers.
fn read_headers_exec(original: &[u8], toc_start: u64, n: u32) -> (r: Option<Vec<Header>>)
    requires
        toc_start <= 72 + 32 * (u32::MAX as int),
    ensures
        r matches Some(v) ==> read_headers(original@, toc_start as int, n as int) == Some(v@),
        r is None ==> read_headers(original@, toc_start as int, n as int) is None,
{
    let mut hs: Vec<Header> = Vec::new();
    let mut k: u32 = 0;
    while k < n
        invariant
            0 <= k <= n,
            toc_start <= 72 + 32 * (u32::MAX as int),
            forall|j: int| 0 <= j < k ==> (#[trigger] header_at(original@, toc_start as int, j)) is Some,
            hs@ =~= Seq::new(k as nat, |j: int| header_at(original@, toc_start as int, j).unwrap()),
        decreases n - k,
    {
        let hpos: u64 = toc_start + 80 * (k as u64);
        if hpos + 24 > original.len() as u64 {
            assert(header_at(original@, toc_start as int, k as int) is None);
            return None;
        }
        let hp = hpos as usize;
        let file_id = u64_at(original, hp).unwrap();
        let type_id = u64_at(original, hp + 8).unwrap();
        let toc = u64_at(original, hp + 16).unwrap();
        if (toc as i64) as i128 > original.len() as i128 {
            assert(header_at(original@, toc_start as int, k as int) is None);
            return None;
        }
        let h = Header { file_id, type_id, toc_data_offset: toc as i64, offset: hpos as i64 };
        assert(header_at(original@, toc_start as int, k as int) == Some(h));
        hs.push(h);
        k = k + 1;
    }
    Some(hs)
}

/// Rewrites a patch archive's unit resources against the game's current
/// unit data. Returns the outcome and the archive's bytes afterwards
/// (unchanged unless the outcome is [`PatchOutcome::Updated`]).
pub fn update_patch_bytes(original: &[u8], table: &UnitTable) -> (r: (PatchOutcome, Vec<u8>))
    requires
        original@.len() <= isize::MAX,
    ensures
        (r.0, r.1@) == spec_update_patch(original@, table.units@),
{
    let (num_types, num_files) = match (u32_at(original, 4), u32_at(original, 8)) {
        (Some(a), Some(b)) => (a, b),
        _ => return (PatchOutcome::Corrupted, copy_bytes(original)),
    };
    let mut total: u64 = 0;
    let mut i: u32 = 0;
    while i < num_types
        invariant
            0 <= i <= num_types,
            original@.len() <= isize::MAX,
            opt_u32_at(original@, 4) == Some(num_types),
            opt_u32_at(original@, 8) == Some(num_files),
            scan_types(original@, num_types as int, 0, 0) == scan_types(original@, num_types as int, i as int, total),
        decreases num_types - i,
    {
        let pos: u64 = 80 + 32 * (i as u64);
        if pos + 16 > original.len() as u64 {
            assert(opt_u64_at(original@, pos as int) is None || opt_u64_at(original@, pos + 8) is None);
            return (PatchOutcome::Corrupted, copy_bytes(original));
        }
        let p = pos as usize;
        let t = u64_at(original, p).unwrap();
        let c = u64_at(original, p + 8).unwrap();
        total = total.wrapping_add(c);
        if t < 0x1_0000_0000u64 {
            return (PatchOutcome::Corrupted, copy_bytes(original));
        }
        if t == UNIT_TYPE_ID {
            if total < num_files as u64 {
                return (PatchOutcome::Corrupted, copy_bytes(original));
            }
            let r = rewrite_found_units(original, table, num_types, num_files, c, pos + 8);
            return r;
        }
        i = i + 1;
    }
    (PatchOutcome::NoUnits, copy_bytes(original))
}

proof fn lemma_drop_step(d: Seq<u8>, hs: Seq<Header>, idx: int, units: Seq<(u64, UnitData)>)
    requires
        0 <= idx < hs.len(),
    ensures
        ({
            let (d0, kept, adj) = drop_unknown(d, hs.take(idx), units);
            let h = hs[idx];
            let h2 = Header { offset: (h.offset + adj) as i64, ..h };
            drop_unknown(d, hs.take(idx + 1), units) == if is_dropped(h, units) {
                (removed(extended(d0, h2.offset as nat), h2.offset as nat, 80), kept, adj - 80)
            } else {
                (d0, kept.push(h2), adj)
            }
        }),
{
    assert(hs.take(idx + 1).drop_last() =~= hs.take(idx));
    assert(hs.take(idx + 1).last() == hs[idx]);
}

proof fn lemma_header_positions(d: Seq<u8>, toc_start: int, n: int, hs: Seq<Header>)
    requires
        0 <= toc_start <= 72 + 32 * (u32::MAX as int),
        0 <= n <= u32::MAX,
        read_headers(d, toc_start, n) == Some(hs),
    ensures
        hs.len() == n,
        forall|j: int| 0 <= j < n ==> (#[trigger] hs[j]).offset == toc_start + 80 * j
            && toc_start + 80 * j + 24 <= d.len(),
{
    assert forall|j: int| 0 <= j < n implies (#[trigger] hs[j]).offset == toc_start + 80 * j
        && toc_start + 80 * j + 24 <= d.len() by {
        assert(header_at(d, toc_start, j) is Some);
    }
}

/// Drops the unknown unit headers of `hs` from a copy of `original`.
fn drop_unknown_exec(original: &[u8], hs: &Vec<Header>, toc_start: u64, num_files: u32, table: &UnitTable)
    -> (r: (MemoryStream, Vec<Header>, i64))
    requires
        original@.len() <= isize::MAX,
        72 <= toc_start <= 72 + 32 * (u32::MAX as int),
        read_headers(original@, toc_start as int, num_files as int) == Some(hs@),
    ensures
        r.0.wf(),
        -80 * hs@.len() <= r.2 <= 0,
        r.2 % 80 == 0,
        drop_unknown(original@, hs@, table.units@) == (r.0.contents(), r.1@, r.2 as int),
{
    let ghost units = table.units@;
    let mut stream = MemoryStream::new(copy_bytes(original));
    let mut kept: Vec<Header> = Vec::new();
    let mut adj: i64 = 0;
    let mut idx: usize = 0;
    proof {
        lemma_header_positions(original@, toc_start as int, num_files as int, hs@);
        assert(hs@.len() == num_files);
        assert(num_files > 0 ==> hs@[0].offset == toc_start);
        assert(forall|j: int| 0 <= j < num_files ==> (#[trigger] hs@[j]).offset == toc_start + 80 * j
            && toc_start + 80 * j + 24 <= original@.len());
        assert(drop_unknown(original@, hs@.take(0), units) == (stream.contents(), kept@, adj as int)) by {
            assert(hs@.take(0) =~= Seq::<Header>::empty());
            assert(kept@ =~= Seq::<Header>::empty());
        }
    }
    while idx < hs.len()
        invariant
            stream.wf(),
            original@.len() <= isize::MAX,
            0 <= idx <= hs@.len(),
            hs@.len() == num_files,
            72 <= toc_start <= 72 + 32 * (u32::MAX as int),
            forall|j: int| 0 <= j < num_files ==> (#[trigger] hs@[j]).offset == toc_start + 80 * j
                && toc_start + 80 * j + 24 <= original@.len(),
            -80 * idx <= adj <= 0,
            adj % 80 == 0,
            units == table.units@,
            drop_unknown(original@, hs@.take(idx as int), units) == (stream.contents(), kept@, adj as int),
        decreases hs@.len() - idx,
    {
        let h = hs[idx];
        assert(h.offset == toc_start + 80 * idx);
        let off: i64 = h.offset + adj;
        let h2 = Header { offset: off, ..h };
        let ghost step = drop_unknown(original@, hs@.take((idx + 1) as int), units);
        proof {
            lemma_drop_step(original@, hs@, idx as int, units);
        }
        if !table.contains(h.file_id) && h.type_id == UNIT_TYPE_ID {
            stream.seek(off as usize);
            stream.delete(80);
            adj = adj - 80;
        } else {
            kept.push(h2);
        }
        assert(step == (stream.contents(), kept@, adj as int));
        idx = idx + 1;
    }
    assert(hs@.take(hs@.len() as int) =~= hs@);
    (stream, kept, adj)
}

/// Rewrites the kept headers, in order, on the stream.
#[verifier::loop_isolation(false)]
fn rewrite_headers_exec(stream: &mut MemoryStream, order: &Vec<Header>, table: &UnitTable) -> (ok: bool)
    requires
        old(stream).wf(),
    ensures
        final(stream).wf(),
        ok == (rewrite_headers(old(stream).contents(), order@, table.units@) is Some),
        ok ==> rewrite_headers(old(stream).contents(), order@, table.units@).unwrap().0 == final(stream).contents(),
{
    let ghost d2 = stream.contents();
    let ghost units = table.units@;
    let mut so: i128 = 0;
    let mut j: usize = 0;
    while j < order.len()
        invariant
            stream.wf(),
            0 <= j <= order@.len(),
            i64::MIN <= so <= i64::MAX,
            units == table.units@,
            rewrite_headers(d2, order@.take(j as int), units) == Some((stream.contents(), so as int)),
        decreases order@.len() - j,
    {
        assert(order@.take((j + 1) as int).drop_last() =~= order@.take(j as int));
        assert(order@.take((j + 1) as int).last() == order@[j as int]);
        match rewrite_header_exec(stream, so, order[j], table) {
            Some(so2) => {
                so = so2;
            },
            None => {
                proof {
                    lemma_rewrite_headers_none(d2, order@, units, (j + 1) as int);
                }
                return false;
            },
        }
        j = j + 1;
    }
    assert(order@.take(order@.len() as int) =~= order@);
    true
}

/// `new` followed by the bytes of `original` past its end.
fn append_original_tail(new: Vec<u8>, original: &[u8]) -> (out: Vec<u8>)
    ensures
        out@ == with_original_tail(new@, original@),
{
    let mut out = new;
    let ghost d3 = out@;
    if original.len() > out.len() {
        let mut q = out.len();
        while q < original.len()
            invariant
                d3.len() <= q <= original@.len(),
                out@ =~= d3 + original@.subrange(d3.len() as int, q as int),
            decreases original@.len() - q,
        {
            out.push(original[q]);
            q = q + 1;
        }
    }
    out
}

fn rewrite_found_units(
    original: &[u8],
    table: &UnitTable,
    num_types: u32,
    num_files: u32,
    count: u64,
    count_offset: u64,
) -> (r: (PatchOutcome, Vec<u8>))
    requires
        original@.len() <= isize::MAX,
        count_offset + 8 <= original@.len(),
    ensures
        (r.0, r.1@) == spec_rewrite_units(original@, table.units@, num_types, num_files, count, count_offset as int),
{
    let toc_start: u64 = 72 + 32 * (num_types as u64);
    let hs = match read_headers_exec(original, toc_start, num_files) {
        Some(hs) => hs,
        None => return (PatchOutcome::Corrupted, copy_bytes(original)),
    };
    let (mut stream, kept, adj) = drop_unknown_exec(original, &hs, toc_start, num_files, table);
    let dropped: u32 = ((-adj) / 80) as u32;
    assert(dropped <= num_files);
    let new_num_files: u32 = num_files - dropped;
    let new_count: u64 = count.wrapping_sub(dropped as u64);
    let mut shifted: Vec<Header> = Vec::new();
    let mut k: usize = 0;
    while k < kept.len()
        invariant
            0 <= k <= kept@.len(),
            shifted@ =~= shift_offsets(kept@, adj as int).take(k as int),
        decreases kept@.len() - k,
    {
        let h = kept[k];
        shifted.push(Header { toc_data_offset: (h.toc_data_offset as i128 + adj as i128) as i64, ..h });
        k = k + 1;
    }
    assert(shift_offsets(kept@, adj as int).take(kept@.len() as int) =~= shift_offsets(kept@, adj as int));
    let order = sort_headers(&shifted);
    let nf = u32_to_le_bytes(new_num_files);
    if !write_at(&mut stream, 8, nf.as_slice()) {
        return (PatchOutcome::Corrupted, copy_bytes(original));
    }
    proof {
        lemma_auto_spec_u64_to_from_le_bytes();
    }
    let nc = u64_to_le_bytes(new_count);
    if !write_at(&mut stream, count_offset as i128, nc.as_slice()) {
        return (PatchOutcome::Corrupted, copy_bytes(original));
    }
    if !rewrite_headers_exec(&mut stream, &order, table) {
        return (PatchOutcome::Corrupted, copy_bytes(original));
    }
    let out = append_original_tail(stream.into_data(), original);
    (PatchOutcome::Updated, out)
}

/// How many of the first `n` TOC headers, starting at `toc_start`, can be
/// read before the first whose id and type run past the end of `data`.
pub open spec fn readable_headers(data: Seq<u8>, toc_start: int, n: nat) -> nat
    decreases n,
{
    if n == 0 {
        0
    } else {
        let c = readable_headers(data, toc_start, (n - 1) as nat);
        if c == n - 1 && toc_start + 80 * (n - 1) + 16 <= data.len() {
            n
        } else {
            c
        }
    }
}

/// The file ids, in order, of the unit-type headers among the first `k`
/// TOC headers starting at `toc_start`.
pub open spec fn unit_ids_upto(data: Seq<u8>, toc_start: int, k: nat) -> Seq<u64>
    decreases k,
{
    if k == 0 {
        Seq::empty()
    } else {
        let prev = unit_ids_upto(data, toc_start, (k - 1) as nat);
        let p = toc_start + 80 * (k - 1);
        if le_u64_at(data, p + 8) == UNIT_TYPE_ID {
            prev.push(le_u64_at(data, p))
        } else {
            prev
        }
    }
}

/// The unit ids a patch refers to: those of the unit-type headers among
/// the readable ones of its file table, in table order; none when the type
/// or file count cannot be read.
pub open spec fn patch_unit_ids(data: Seq<u8>) -> Seq<u64> {
    match (opt_u32_at(data, 4), opt_u32_at(data, 8)) {
        (Some(num_types), Some(num_files)) => {
            let toc_start = 72 + 32 * num_types;
            unit_ids_upto(data, toc_start, readable_headers(data, toc_start, num_files as nat))
        },
        _ => Seq::empty(),
    }
}

/// Once a header cannot be read, no later one counts.
proof fn lemma_readable_stops(data: Seq<u8>, toc_start: int, k: nat, n: nat)
    requires
        readable_headers(data, toc_start, k) == k,
        toc_start + 80 * k + 16 > data.len(),
        k < n,
    ensures
        readable_headers(data, toc_start, n) == k,
    decreases n,
{
    if n > k + 1 {
        lemma_readable_stops(data, toc_start, k, (n - 1) as nat);
    }
}

/// The file ids of the unit-type TOC headers that can be read from
/// `original` (a header whose fields run past the end stops the scan).
fn unit_ids_in_patch(original: &[u8]) -> (ids: Vec<u64>)
    ensures
        ids@ == patch_unit_ids(original@),
{
    let mut ids: Vec<u64> = Vec::new();
    let (num_types, num_files) = match (u32_at(original, 4), u32_at(original, 8)) {
        (Some(a), Some(b)) => (a, b),
        _ => return ids,
    };
    let toc_start: u64 = 72 + 32 * (num_types as u64);
    let ghost ts = toc_start as int;
    let mut k: u32 = 0;
    while k < num_files
        invariant
            0 <= k <= num_files,
            toc_start == 72 + 32 * num_types,
            num_types <= u32::MAX,
            ts == toc_start,
            opt_u32_at(original@, 4) == Some(num_types),
            opt_u32_at(original@, 8) == Some(num_files),
            ids@ == unit_ids_upto(original@, ts, k as nat),
            readable_headers(original@, ts, k as nat) == k,
        decreases num_files - k,
    {
        let hpos: u64 = toc_start + 80 * (k as u64);
        if hpos + 16 > original.len() as u64 {
            proof {
                lemma_readable_stops(original@, ts, k as nat, num_files as nat);
            }
            return ids;
        }
        let hp = hpos as usize;
        let file_id = u64_at(original, hp).unwrap();
        let type_id = u64_at(original, hp + 8).unwrap();
        if type_id == UNIT_TYPE_ID {
            ids.push(file_id);
        }
        k = k + 1;
    }
    ids
}

/// The table that answers to `ids` make up: each id, in order, whose answer
/// is `Some`, with the data of that answer.
pub open spec fn answered_table(ids: Seq<u64>, answers: Seq<Option<UnitData>>) -> Seq<(u64, UnitData)>
    decreases ids.len(),
{
    if ids.len() == 0 {
        Seq::empty()
    } else {
        let prev = answered_table(ids.drop_last(), answers.drop_last());
        match answers.last() {
            Some(d) => prev.push((ids.last(), d)),
            None => prev,
        }
    }
}

/// What `source` answers about each of `ids`: the data of each id it knows,
/// nothing for the others.
pub open spec fn source_answers<S: UnitDataSource>(ids: Seq<u64>, source: &S) -> Seq<Option<UnitData>> {
    Seq::new(
        ids.len(),
        |i: int|
            if source.knows(ids[i]) {
                Some(source.data_for(ids[i]))
            } else {
                None
            },
    )
}

impl UnitTable {
    /// Builds the table for `ids` by asking `source` about each id in turn:
    /// every id it knows, in order, with the data it gives for it.
    pub fn from_source<S: UnitDataSource>(ids: &Vec<u64>, source: &S) -> (t: UnitTable)
        ensures
            t.units@ == answered_table(ids@, source_answers(ids@, source)),
    {
        let ghost all = source_answers(ids@, source);
        let mut units: Vec<(u64, UnitData)> = Vec::new();
        let mut i: usize = 0;
        while i < ids.len()
            invariant
                0 <= i <= ids@.len(),
                all == source_answers(ids@, source),
                units@ == answered_table(ids@.take(i as int), all.take(i as int)),
            decreases ids@.len() - i,
        {
            let id = ids[i];
            if source.contains(id) {
                let data = source.get_unit_data(id);
                units.push((id, data));
            }
            proof {
                assert(ids@.take(i + 1).drop_last() =~= ids@.take(i as int));
                assert(all.take(i + 1).drop_last() =~= all.take(i as int));
            }
            i = i + 1;
        }
        assert(ids@.take(ids@.len() as int) =~= ids@);
        assert(all.take(ids@.len() as int) =~= all);
        UnitTable { units }
    }
}

/// Rewrites a patch archive against a [`UnitDataSource`]: the source is
/// asked about each of the archive's unit ids in table order (and for the
/// data of those it knows), and the rewrite then runs on the table its
/// answers make up.
pub fn update_patch_from_source<S: UnitDataSource>(original: &[u8], source: &S) -> (r: (PatchOutcome, Vec<u8>))
    requires
        original@.len() <= isize::MAX,
    ensures
        (r.0, r.1@) == spec_update_patch(
            original@,
            answered_table(patch_unit_ids(original@), source_answers(patch_unit_ids(original@), source)),
        ),
{
    let ids = unit_ids_in_patch(original);
    let table = UnitTable::from_source(&ids, source);
    update_patch_bytes(original, &table)
}

// ---------------------------------------------------------------------------
// Laws.

/// A patch is written only when it is updated: when the outcome is not
/// `Updated`, the bytes that come back are the original's.
pub proof fn law_unchanged_unless_updated(original: Seq<u8>, units: Seq<(u64, UnitData)>)
    ensures
        spec_update_patch(original, units).0 != PatchOutcome::Updated ==> spec_update_patch(original, units).1
            == original,
{
}

/// An updated patch is never shorter than the original: bytes past the end
/// of the rewritten buffer are the original's.
pub proof fn law_update_keeps_tail(original: Seq<u8>, units: Seq<(u64, UnitData)>)
    ensures
        spec_update_patch(original, units).0 == PatchOutcome::Updated ==> spec_update_patch(original, units).1.len()
            >= original.len(),
{
}

proof fn lemma_scan_no_units(data: Seq<u8>, n: int, i: int, total: u64)
    requires
        0 <= i <= n,
        data.len() >= 72 + 32 * n,
        forall|j: int| i <= j < n ==> #[trigger] type_entry_ok(data, j) && type_id_at(data, j) != UNIT_TYPE_ID,
    ensures
        scan_types(data, n, i, total) == TypeScan::NoUnits,
    decreases n - i,
{
    if i < n {
        assert(type_entry_ok(data, i) && type_id_at(data, i) != UNIT_TYPE_ID);
        let c = opt_u64_at(data, 72 + 32 * i + 16);
        assert(c is Some);
        lemma_scan_no_units(data, n, i + 1, vstd::wrapping::u64_specs::wrapping_add(total, c.unwrap()));
    }
}

/// Unit patching leaves a patch without units alone: when every type entry
/// is whole and the scan finds audio or nothing of interest, the outcome is
/// `NoUnits` and the bytes are the original's, whatever the game's units.
pub proof fn law_no_units_is_untouched(data: Seq<u8>, units: Seq<(u64, UnitData)>)
    requires
        data.len() >= 72 + 32 * le_u32_at(data, 4),
        spec_classify(data) == PatchKind::Audio || spec_classify(data) == PatchKind::Other,
    ensures
        spec_update_patch(data, units) == (PatchOutcome::NoUnits, data),
{
    let n = le_u32_at(data, 4) as int;
    assert(opt_u32_at(data, 4) == Some(le_u32_at(data, 4)));
    assert(opt_u32_at(data, 8) is Some);
    assert forall|j: int| 0 <= j < n implies #[trigger] type_entry_ok(data, j) && type_id_at(data, j) != UNIT_TYPE_ID by {
        if type_id_at(data, j) == UNIT_TYPE_ID {
            assert(exists|i: int| 0 <= i < n && #[trigger] type_id_at(data, i) == UNIT_TYPE_ID);
        }
    }
    lemma_scan_no_units(data, n, 0, 0);
}

/// `a` and `b` both reach `hi` and hold the same bytes in `lo..hi`.
pub open spec fn agree(a: Seq<u8>, b: Seq<u8>, lo: int, hi: int) -> bool {
    &&& hi <= a.len()
    &&& hi <= b.len()
    &&& forall|i: int| lo <= i < hi ==> #[trigger] a[i] == b[i]
}

/// The `k`-th entry of the offset table at `t`.
pub open spec fn table_entry(s: Seq<u8>, t: int, k: int) -> u32 {
    le_u32_at(s, t + 4 * k)
}

proof fn lemma_agree_u32(a: Seq<u8>, b: Seq<u8>, q: int)
    requires
        0 <= q,
        agree(a, b, q, q + 4),
    ensures
        le_u32_at(a, q) == le_u32_at(b, q),
{
    assert(a.subrange(q, q + 4) =~= b.subrange(q, q + 4));
}

proof fn lemma_seek_keeps(d: Seq<u8>, p: int)
    requires
        s_seek(d, p) is Some,
    ensures
        agree(s_seek(d, p).unwrap(), d, 0, d.len() as int),
{
}

proof fn lemma_write_keeps(d: Seq<u8>, p: int, b: Seq<u8>, hi: int)
    requires
        s_write(d, p, b) is Some,
        hi <= p,
        hi <= d.len(),
    ensures
        agree(s_write(d, p, b).unwrap(), d, 0, hi),
{
    let e = extended(d, p as nat + b.len());
    assert forall|i: int| 0 <= i < hi implies #[trigger] s_write(d, p, b).unwrap()[i] == d[i] by {
        assert(e[i] == d[i]);
    }
}

/// Writing inside the buffer changes only the bytes written.
proof fn lemma_write_inside(d: Seq<u8>, p: int, b: Seq<u8>)
    requires
        0 <= p,
        p + b.len() <= d.len(),
        d.len() <= usize::MAX,
    ensures
        s_write(d, p, b) is Some,
        s_write(d, p, b).unwrap().len() == d.len(),
        agree(s_write(d, p, b).unwrap(), d, 0, p),
        agree(s_write(d, p, b).unwrap(), d, p + b.len(), d.len() as int),
        s_write(d, p, b).unwrap().subrange(p, p + b.len()) == b,
{
    let r = s_write(d, p, b).unwrap();
    assert(extended(d, p as nat + b.len()) == d);
    assert(r.subrange(p, p + b.len()) =~= b);
}

proof fn lemma_resize_keeps(d: Seq<u8>, p: int, delta: int, hi: int)
    requires
        s_resize_at(d, p, delta) is Some,
        hi <= p,
        hi <= d.len(),
    ensures
        agree(s_resize_at(d, p, delta).unwrap(), d, 0, hi),
{
    let e = extended(d, p as nat);
    assert forall|i: int| 0 <= i < hi implies #[trigger] s_resize_at(d, p, delta).unwrap()[i] == d[i] by {
        assert(e[i] == d[i]);
    }
}

/// What shifting entries `j..16` of the table at `t` does: each non-zero
/// entry past `lod` moves by `delta`, the others stay, and no byte outside
/// those entries changes.
proof fn lemma_shift_table(d: Seq<u8>, t: int, j: int, lod: u32, delta: int)
    requires
        0 <= t,
        0 <= j <= 16,
        t + 64 <= d.len() <= usize::MAX,
        shift_offset_table(d, t, j, lod, delta) is Some,
    ensures
        ({
            let r = shift_offset_table(d, t, j, lod, delta).unwrap();
            &&& r.len() == d.len()
            &&& agree(r, d, 0, t + 4 * j)
            &&& agree(r, d, t + 64, d.len() as int)
            &&& forall|k: int|
                j <= k < 16 ==> #[trigger] table_entry(r, t, k) == if table_entry(d, t, k) != 0 && table_entry(d, t, k)
                    > lod {
                    (table_entry(d, t, k) + delta) as u32
                } else {
                    table_entry(d, t, k)
                }
        }),
    decreases 16 - j,
{
    lemma_auto_spec_u32_to_from_le_bytes();
    if j < 16 {
        let q = t + 4 * j;
        let off = le_u32_at(d, q);
        let d1 = if off != 0 && off > lod {
            lemma_write_inside(d, q, spec_u32_to_le_bytes((off + delta) as u32));
            s_write(d, q, spec_u32_to_le_bytes((off + delta) as u32)).unwrap()
        } else {
            d
        };
        assert(d1.len() == d.len());
        assert(agree(d1, d, 0, q));
        assert(agree(d1, d, q + 4, d.len() as int));
        assert(le_u32_at(d1, q) == if off != 0 && off > lod { (off + delta) as u32 } else { off });
        lemma_shift_table(d1, t, j + 1, lod, delta);
        let r = shift_offset_table(d, t, j, lod, delta).unwrap();
        assert(r == shift_offset_table(d1, t, j + 1, lod, delta).unwrap());
        assert forall|k: int| j <= k < 16 implies #[trigger] table_entry(r, t, k) == if table_entry(d, t, k) != 0
            && table_entry(d, t, k) > lod {
            (table_entry(d, t, k) + delta) as u32
        } else {
            table_entry(d, t, k)
        } by {
            if k == j {
                lemma_agree_u32(r, d1, q);
            } else {
                lemma_agree_u32(d1, d, t + 4 * k);
            }
        }
    }
}

/// Replacing a unit's LOD group moves the entries of its 16-entry offset
/// table at `unit + 0x34` by the LOD group's change in size: each non-zero
/// entry that points past the LOD group moves by the size change, and every
/// other entry stays as it was. The size change is the game's LOD-group size
/// less the old one (from the LOD-group offset at `unit + 0x30` to the first
/// table entry). This holds for a unit whose table lies before its LOD group.
pub proof fn law_lod_group_shifts_the_offset_table(d: Seq<u8>, start: int, ud: UnitData)
    requires
        0 <= start,
        start + 0x74 <= d.len() <= usize::MAX,
        le_u32_at(d, start + 0x30) >= 0x74,
        replace_lod_group(d, start, ud) is Some,
    ensures
        ({
            let (r, delta) = replace_lod_group(d, start, ud).unwrap();
            let t = start + 0x34;
            let lod = le_u32_at(d, start + 0x30);
            &&& delta == ud.lod_group_size - (le_u32_at(d, start + 0x34) - lod)
            &&& forall|k: int|
                0 <= k < 16 ==> #[trigger] table_entry(r, t, k) == if table_entry(d, t, k) != 0 && table_entry(d, t, k)
                    > lod {
                    (table_entry(d, t, k) + delta) as u32
                } else {
                    table_entry(d, t, k)
                }
        }),
{
    let t = start + 0x34;
    let d1 = s_seek(d, start).unwrap();
    lemma_seek_keeps(d, start);
    let d2 = s_write(d1, start + 0x2C, ud.version@).unwrap();
    assert(ud.version@.len() == 4);
    lemma_write_inside(d1, start + 0x2C, ud.version@);
    lemma_agree_u32(d2, d1, start + 0x30);
    lemma_agree_u32(d1, d, start + 0x30);
    lemma_agree_u32(d2, d1, start + 0x34);
    lemma_agree_u32(d1, d, start + 0x34);
    let lod = le_u32_at(d2, start + 0x30);
    let joint = le_u32_at(d2, start + 0x34);
    let p = start + lod;
    let delta = ud.lod_group_size - (joint - lod);
    let d3 = s_seek(d2, p).unwrap();
    lemma_seek_keeps(d2, p);
    let d4 = s_resize_at(d3, p, delta).unwrap();
    lemma_resize_keeps(d3, p, delta, t + 64);
    let d5 = s_seek(d4, start + 0x34).unwrap();
    lemma_seek_keeps(d4, start + 0x34);
    assert(agree(d5, d, t, t + 64)) by {
        assert forall|i: int| t <= i < t + 64 implies #[trigger] d5[i] == d[i] by {
            assert(d5[i] == d4[i]);
            assert(d4[i] == d3[i]);
            assert(d3[i] == d2[i]);
            assert(d2[i] == d1[i]);
            assert(d1[i] == d[i]);
        }
    }
    assert(d5.len() <= usize::MAX);
    lemma_shift_table(d5, t, 0, lod, delta);
    let d6 = shift_offset_table(d5, t, 0, lod, delta).unwrap();
    let d7 = s_write(d6, p, ud.lod_group_data@).unwrap();
    lemma_write_keeps(d6, p, ud.lod_group_data@, t + 64);
    let r = replace_lod_group(d, start, ud).unwrap().0;
    assert(r == d7);
    assert forall|k: int| 0 <= k < 16 implies #[trigger] table_entry(r, t, k) == if table_entry(d, t, k) != 0
        && table_entry(d, t, k) > lod {
        (table_entry(d, t, k) + delta) as u32
    } else {
        table_entry(d, t, k)
    } by {
        assert(agree(d7, d6, t + 4 * k, t + 4 * k + 4));
        lemma_agree_u32(d7, d6, t + 4 * k);
        assert(agree(d5, d, t + 4 * k, t + 4 * k + 4));
        lemma_agree_u32(d5, d, t + 4 * k);
        assert(table_entry(d7, t, k) == table_entry(d6, t, k));
        assert(table_entry(d5, t, k) == table_entry(d, t, k));
        assert(table_entry(d6, t, k) == if table_entry(d5, t, k) != 0 && table_entry(d5, t, k) > lod {
            (table_entry(d5, t, k) + delta) as u32
        } else {
            table_entry(d5, t, k)
        });
    }
}

} // verus!
