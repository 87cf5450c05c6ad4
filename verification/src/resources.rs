//! Indexing the game data: the rows of a package's TOC, the unit and
//! soundbank indexes built from them, the package names of a slim install,
//! and a unit's lod-group data. Finding and reading the files is left to the
//! caller.

use vstd::prelude::*;
use std::collections::HashMap;
use crate::buf::copy_bytes;
use crate::le::{le_u32_at, le_u64_at, opt_u32_at, u32_at, u32_in, u64_in};
use crate::patch::UnitData;
use crate::wwise::sources::{lossy_string, lossy_utf8};
use crate::{UNIT_TYPE_ID, WWISE_BANK};

verus! {

broadcast use vstd::std_specs::hash::group_hash_axioms;

// ---------------------------------------------------------------------------
// A unit's lod-group data.

/// A `u32` field, or 0 when the buffer is too short to hold it.
pub open spec fn u32_or_zero(data: Seq<u8>, off: int) -> int {
    match opt_u32_at(data, off) {
        Some(v) => v as int,
        None => 0,
    }
}

/// The version bytes of a unit resource: bytes `0x2C..0x30`, or zeros when
/// the resource is shorter than `0x30` bytes.
pub open spec fn unit_version(data: Seq<u8>) -> Seq<u8> {
    if data.len() >= 0x30 {
        data.subrange(0x2C, 0x30)
    } else {
        seq![0u8, 0u8, 0u8, 0u8]
    }
}

/// The lod-group bytes of a unit resource: from the lod-group offset (at
/// `0x30`) to the joint-list offset (at `0x34`), cut at the end of the
/// resource; nothing when the range is empty or starts past its end.
pub open spec fn unit_lod_group(data: Seq<u8>) -> Seq<u8> {
    let lod = u32_or_zero(data, 0x30);
    let joint = u32_or_zero(data, 0x34);
    let end = if joint > lod { joint } else { lod };
    let stop = if end < data.len() { end } else { data.len() as int };
    if lod <= stop {
        data.subrange(lod, stop)
    } else {
        Seq::empty()
    }
}

/// Extracts a unit's version, lod-group data and lod-group size (the
/// joint-list offset minus the lod-group offset) from its whole resource.
pub fn unit_data_from_bytes(unit_data: &[u8]) -> (u: UnitData)
    ensures
        u.version@ == unit_version(unit_data@),
        u.lod_group_data@ == unit_lod_group(unit_data@),
        u.lod_group_size == u32_or_zero(unit_data@, 0x34) - u32_or_zero(unit_data@, 0x30),
{
    let len = unit_data.len();
    let mut version = [0u8; 4];
    if len >= 0x30 {
        version = [unit_data[0x2C], unit_data[0x2D], unit_data[0x2E], unit_data[0x2F]];
        assert(version@ =~= unit_data@.subrange(0x2C, 0x30));
    } else {
        assert(version@ =~= seq![0u8, 0u8, 0u8, 0u8]);
    }
    let lod: u32 = match u32_at(unit_data, 0x30) {
        Some(v) => v,
        None => 0,
    };
    let joint: u32 = match u32_at(unit_data, 0x34) {
        Some(v) => v,
        None => 0,
    };
    let lod_group_size: i64 = joint as i64 - lod as i64;
    let end: u64 = if joint > lod { joint as u64 } else { lod as u64 };
    let stop: usize = if end < len as u64 { end as usize } else { len };
    let lod_group_data = if (lod as u64) <= (stop as u64) {
        copy_bytes(vstd::slice::slice_subrange(unit_data, lod as usize, stop))
    } else {
        Vec::new()
    };
    UnitData { version, lod_group_data, lod_group_size }
}

// ---------------------------------------------------------------------------
// TOC rows.

/// One TOC header, with the fields the index needs.
#[derive(Debug, Clone, Copy, PartialEq, Eq, Structural)]
pub struct TocRow {
    pub type_id: u64,
    pub file_id: u64,
    pub toc_data_offset: u64,
    pub toc_data_size: u32,
}

/// The row of the header at `hpos`, when its fields are there.
pub open spec fn row_at(toc: Seq<u8>, hpos: int) -> Option<TocRow> {
    if hpos + 60 > toc.len() {
        None
    } else {
        Some(TocRow {
            type_id: le_u64_at(toc, hpos + 8),
            file_id: le_u64_at(toc, hpos),
            toc_data_offset: le_u64_at(toc, hpos + 16),
            toc_data_size: le_u32_at(toc, hpos + 56),
        })
    }
}

/// The rows of the first `k` headers whose type is in `want`, stopping at
/// the first header that is not there.
pub open spec fn rows_upto(toc: Seq<u8>, start: int, want: Seq<u64>, k: nat) -> (Seq<TocRow>, bool)
    decreases k,
{
    if k == 0 {
        (Seq::empty(), false)
    } else {
        let (rs, stopped) = rows_upto(toc, start, want, (k - 1) as nat);
        if stopped {
            (rs, true)
        } else {
            match row_at(toc, start + 80 * (k - 1)) {
                None => (rs, true),
                Some(r) => if want.contains(r.type_id) {
                    (rs.push(r), false)
                } else {
                    (rs, false)
                },
            }
        }
    }
}

/// The rows of a package's header-only TOC whose type is in `want`, in
/// order: none for a TOC shorter than its 72-byte header; otherwise from as
/// many headers as the count says, up to the first that is not all there.
pub open spec fn spec_toc_rows(toc: Seq<u8>, want: Seq<u64>) -> Seq<TocRow> {
    if toc.len() < 72 {
        Seq::empty()
    } else {
        let nt = le_u32_at(toc, 4) as int;
        let nf = le_u32_at(toc, 8) as nat;
        rows_upto(toc, 72 + 32 * nt, want, nf).0
    }
}

fn contains_u64(want: &[u64], t: u64) -> (b: bool)
    ensures
        b == want@.contains(t),
{
    let mut i: usize = 0;
    while i < want.len()
        invariant
            i <= want@.len(),
            forall|j: int| 0 <= j < i ==> want@[j] != t,
        decreases want@.len() - i,
    {
        if want[i] == t {
            return true;
        }
        i = i + 1;
    }
    false
}

proof fn lemma_rows_stopped(toc: Seq<u8>, start: int, want: Seq<u64>, k: nat, n: nat)
    requires
        k <= n,
        rows_upto(toc, start, want, k).1,
    ensures
        rows_upto(toc, start, want, n) == rows_upto(toc, start, want, k),
    decreases n - k,
{
    if k < n {
        lemma_rows_stopped(toc, start, want, k, (n - 1) as nat);
    }
}

/// Reads the rows of a package's header-only TOC whose type is in `want`.
pub fn scan_toc_rows(toc: &[u8], want: &[u64]) -> (rows: Vec<TocRow>)
    ensures
        rows@ == spec_toc_rows(toc@, want@),
{
    let len = toc.len();
    let mut out: Vec<TocRow> = Vec::new();
    if len < 72 {
        return out;
    }
    let nt = u32_in(toc, 4) as u64;
    let nf = u32_in(toc, 8);
    let start: u64 = 72 + 32 * nt;
    let mut n: u32 = 0;
    while n < nf
        invariant
            n <= nf,
            len == toc@.len(),
            len >= 72,
            nf == le_u32_at(toc@, 8),
            start == 72 + 32 * le_u32_at(toc@, 4),
            rows_upto(toc@, start as int, want@, n as nat) == (out@, false),
        decreases nf - n,
    {
        let hpos: u64 = start + 80 * (n as u64);
        if hpos > len as u64 || (len as u64) - hpos < 60 {
            proof {
                lemma_rows_stopped(toc@, start as int, want@, (n + 1) as nat, nf as nat);
            }
            return out;
        }
        let p = hpos as usize;
        let row = TocRow {
            type_id: u64_in(toc, p + 8),
            file_id: u64_in(toc, p),
            toc_data_offset: u64_in(toc, p + 16),
            toc_data_size: u32_in(toc, p + 56),
        };
        if contains_u64(want, row.type_id) {
            out.push(row);
        }
        n = n + 1;
    }
    out
}

// ---------------------------------------------------------------------------
// The indexes.

/// Where a unit lives: the package it is in and its TOC data range.
pub struct ResourceLoc {
    pub name: String,
    pub toc_data_offset: u64,
    pub toc_data_size: u32,
}

/// The units of the rows, in order, each with its location in package
/// `name`.
pub open spec fn unit_rows(rows: Seq<TocRow>) -> Seq<TocRow>
    decreases rows.len(),
{
    if rows.len() == 0 {
        Seq::empty()
    } else {
        let r = unit_rows(rows.drop_last());
        if rows.last().type_id == UNIT_TYPE_ID { r.push(rows.last()) } else { r }
    }
}

/// The soundbank ids of the rows, in order.
pub open spec fn bank_ids(rows: Seq<TocRow>) -> Seq<u64>
    decreases rows.len(),
{
    if rows.len() == 0 {
        Seq::empty()
    } else {
        let r = bank_ids(rows.drop_last());
        if rows.last().type_id == WWISE_BANK && rows.last().type_id != UNIT_TYPE_ID {
            r.push(rows.last().file_id)
        } else {
            r
        }
    }
}

/// Splits a package's rows into its units and its soundbank ids, each in
/// order.
pub fn split_rows(rows: &[TocRow]) -> (r: (Vec<TocRow>, Vec<u64>))
    ensures
        r.0@ == unit_rows(rows@),
        r.1@ == bank_ids(rows@),
{
    let mut units: Vec<TocRow> = Vec::new();
    let mut banks: Vec<u64> = Vec::new();
    let mut k: usize = 0;
    assert(rows@.take(0) =~= Seq::<TocRow>::empty());
    while k < rows.len()
        invariant
            k <= rows@.len(),
            units@ == unit_rows(rows@.take(k as int)),
            banks@ == bank_ids(rows@.take(k as int)),
        decreases rows@.len() - k,
    {
        let r = rows[k];
        assert(rows@.take(k + 1).drop_last() =~= rows@.take(k as int));
        assert(rows@.take(k + 1).last() == r);
        if r.type_id == UNIT_TYPE_ID {
            units.push(r);
        } else if r.type_id == WWISE_BANK {
            banks.push(r.file_id);
        }
        k = k + 1;
    }
    assert(rows@.take(rows@.len() as int) =~= rows@);
    (units, banks)
}

/// The unit index after adding the units `rows` of package `name`: each at
/// its location there, replacing what the index held for its id.
pub open spec fn add_units(m: Map<u64, ResourceLoc>, name: String, rows: Seq<TocRow>) -> Map<u64, ResourceLoc>
    decreases rows.len(),
{
    if rows.len() == 0 {
        m
    } else {
        let r = rows.last();
        add_units(m, name, rows.drop_last()).insert(
            r.file_id,
            ResourceLoc { name, toc_data_offset: r.toc_data_offset, toc_data_size: r.toc_data_size },
        )
    }
}

/// The soundbank index after adding soundbanks `ids` of package `name`.
pub open spec fn add_banks(m: Map<u64, String>, name: String, ids: Seq<u64>) -> Map<u64, String>
    decreases ids.len(),
{
    if ids.len() == 0 {
        m
    } else {
        add_banks(m, name, ids.drop_last()).insert(ids.last(), name)
    }
}

/// The unit index of packages read in order: a later package's entry for an
/// id replaces an earlier one's.
pub open spec fn unit_index(pkgs: Seq<(String, Vec<TocRow>)>) -> Map<u64, ResourceLoc>
    decreases pkgs.len(),
{
    if pkgs.len() == 0 {
        Map::empty()
    } else {
        add_units(unit_index(pkgs.drop_last()), pkgs.last().0, unit_rows(pkgs.last().1@))
    }
}

/// The soundbank index of packages read in order, a later one winning.
pub open spec fn bank_index(pkgs: Seq<(String, Vec<TocRow>)>) -> Map<u64, String>
    decreases pkgs.len(),
{
    if pkgs.len() == 0 {
        Map::empty()
    } else {
        add_banks(bank_index(pkgs.drop_last()), pkgs.last().0, bank_ids(pkgs.last().1@))
    }
}

/// Builds the unit index and the soundbank index from each package's name
/// and TOC rows, in order.
pub fn build_indexes(packages: &[(String, Vec<TocRow>)]) -> (r: (HashMap<u64, ResourceLoc>, HashMap<u64, String>))
    ensures
        r.0@ == unit_index(packages@),
        r.1@ == bank_index(packages@),
{
    let mut units: HashMap<u64, ResourceLoc> = HashMap::new();
    let mut banks: HashMap<u64, String> = HashMap::new();
    let mut p: usize = 0;
    while p < packages.len()
        invariant
            p <= packages@.len(),
            units@ == unit_index(packages@.take(p as int)),
            banks@ == bank_index(packages@.take(p as int)),
        decreases packages@.len() - p,
    {
        let name = &packages[p].0;
        let (us, bs) = split_rows(packages[p].1.as_slice());
        let ghost u0 = units@;
        let ghost b0 = banks@;
        let mut k: usize = 0;
        assert(us@.take(0) =~= Seq::<TocRow>::empty());
        while k < us.len()
            invariant
                k <= us@.len(),
                units@ == add_units(u0, *name, us@.take(k as int)),
            decreases us@.len() - k,
        {
            let r = us[k];
            assert(us@.take(k + 1).drop_last() =~= us@.take(k as int));
            units.insert(
                r.file_id,
                ResourceLoc { name: name.clone(), toc_data_offset: r.toc_data_offset, toc_data_size: r.toc_data_size },
            );
            k = k + 1;
        }
        assert(us@.take(us@.len() as int) =~= us@);
        let mut k: usize = 0;
        assert(bs@.take(0) =~= Seq::<u64>::empty());
        while k < bs.len()
            invariant
                k <= bs@.len(),
                banks@ == add_banks(b0, *name, bs@.take(k as int)),
            decreases bs@.len() - k,
        {
            assert(bs@.take(k + 1).drop_last() =~= bs@.take(k as int));
            banks.insert(bs[k], name.clone());
            k = k + 1;
        }
        assert(bs@.take(bs@.len() as int) =~= bs@);
        assert(packages@.take(p + 1).drop_last() =~= packages@.take(p as int));
        p = p + 1;
    }
    assert(packages@.take(packages@.len() as int) =~= packages@);
    (units, banks)
}

// ---------------------------------------------------------------------------
// Package names of a slim install.

/// The characters of `s` before its first U+0017, or all of them.
pub open spec fn before_etb(s: Seq<char>) -> Seq<char>
    decreases s.len(),
{
    if s.len() == 0 {
        s
    } else if s[0] == '\u{17}' {
        Seq::empty()
    } else {
        seq![s[0]] + before_etb(s.skip(1))
    }
}

/// The first `k` names of `bundle_database.data`: 0x33-byte records from
/// 0x10, each decoded (lossily) and cut at its first U+0017; the list stops
/// at the first record that is not all there.
pub open spec fn names_upto(data: Seq<u8>, k: nat) -> (Seq<Seq<char>>, bool)
    decreases k,
{
    if k == 0 {
        (Seq::empty(), false)
    } else {
        let (ns, stopped) = names_upto(data, (k - 1) as nat);
        let off = 0x10 + 0x33 * (k - 1);
        if stopped || off + 0x33 > data.len() {
            (ns, true)
        } else {
            (ns.push(before_etb(lossy_utf8(data.subrange(off, off + 0x33)))), false)
        }
    }
}

/// The package names listed in `bundle_database.data`: none without a
/// count; else up to that many.
pub open spec fn spec_slim_package_names(data: Seq<u8>) -> Seq<Seq<char>> {
    match opt_u32_at(data, 4) {
        None => Seq::empty(),
        Some(n) => names_upto(data, n as nat).0,
    }
}

fn cut_at_etb(s: &str) -> (r: String)
    ensures
        r@ == before_etb(s@),
{
    let n = s.unicode_len();
    let mut i: usize = 0;
    assert(s@.skip(0) =~= s@);
    assert(s@.take(0) + before_etb(s@) =~= before_etb(s@));
    while i < n && s.get_char(i) != '\u{17}'
        invariant
            i <= n,
            n == s@.len(),
            before_etb(s@) == s@.take(i as int) + before_etb(s@.skip(i as int)),
        decreases n - i,
    {
        proof {
            let rest = s@.skip(i as int);
            assert(rest.skip(1) =~= s@.skip(i + 1));
            assert(s@.take(i + 1) =~= s@.take(i as int) + seq![rest[0]]);
        }
        i = i + 1;
    }
    proof {
        if i < n {
            assert(before_etb(s@.skip(i as int)) =~= Seq::<char>::empty());
        } else {
            assert(s@.skip(i as int) =~= Seq::<char>::empty());
        }
        assert(s@.take(i as int) + Seq::<char>::empty() =~= s@.take(i as int));
    }
    String::from_str(s.substring_char(0, i))
}

proof fn lemma_names_stopped(data: Seq<u8>, k: nat, n: nat)
    requires
        k <= n,
        names_upto(data, k).1,
    ensures
        names_upto(data, n) == names_upto(data, k),
    decreases n - k,
{
    if k < n {
        lemma_names_stopped(data, k, (n - 1) as nat);
    }
}

/// Reads the package names of a slim install from `bundle_database.data`.
pub fn slim_package_names(data: &[u8]) -> (names: Vec<String>)
    ensures
        names@.map_values(|s: String| s@) == spec_slim_package_names(data@),
{
    let mut out: Vec<String> = Vec::new();
    let n = match u32_at(data, 4) {
        Some(n) => n,
        None => return out,
    };
    let dl = data.len();
    let len = dl as u64;
    let mut i: u32 = 0;
    assert(out@.map_values(|s: String| s@) =~= Seq::<Seq<char>>::empty());
    while i < n
        invariant
            i <= n,
            dl == data@.len(),
            len == dl,
            opt_u32_at(data@, 4) == Some(n),
            names_upto(data@, i as nat) == (out@.map_values(|s: String| s@), false),
        decreases n - i,
    {
        let off: u64 = 0x10 + 0x33 * (i as u64);
        if off > len || len - off < 0x33 {
            proof {
                lemma_names_stopped(data@, (i + 1) as nat, n as nat);
            }
            return out;
        }
        let o = off as usize;
        let decoded = lossy_string(vstd::slice::slice_subrange(data, o, o + 0x33));
        let name = cut_at_etb(decoded.as_str());
        let ghost before = out@.map_values(|s: String| s@);
        out.push(name);
        assert(out@.map_values(|s: String| s@) =~= before.push(name@));
        i = i + 1;
    }
    out
}

} // verus!
