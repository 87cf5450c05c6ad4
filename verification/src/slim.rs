//! The byte-level rules of a "slim" (bundled) install: DSAR chunk headers
//! and their decompression, the `bundles.nxa` package table, the chunk
//! offset index of a bundle, and how a package's pieces are found and
//! stitched together. Opening and reading the files is left to the caller.

use vstd::prelude::*;
use std::collections::HashMap;
use crate::buf::copy_bytes;
use crate::le::{le_u32_at, le_u64_at, opt_u32_at, u32_at, u32_in, u64_in};
use crate::patch_group::{extension, extension_is, extension_start};
use crate::wwise::sources::lossy_utf8;

verus! {

broadcast use vstd::std_specs::hash::group_hash_axioms;

/// Chunk stored as is.
pub const UNCOMPRESSED: u8 = 0x00;
/// Chunk stored as an LZ4 block.
pub const COMPRESSED: u8 = 0x03;
/// Chunk-type flag of a chunk that starts a resource.
pub const START: u8 = 0x02;
/// Magic of a DSAR (chunked, compressed) file.
pub const DSAR_MAGIC: u32 = 1380012868;
/// Magic of a legacy (plain) package.
pub const LEGACY_MAGIC: u32 = 4026531857;

/// What `lz4_flex::block::decompress` makes of `input` with room for
/// `size` bytes: `None` for an error.
pub uninterp spec fn lz4_block(input: Seq<u8>, size: usize) -> Option<Seq<u8>>;

/// `lz4_flex::block::decompress(input, size)`: decodes an LZ4 block into a
/// buffer of `size` bytes and keeps what was written. Its source (the safe
/// decoder, the crate's default) checks each copy against the buffer's room
/// and returns an error rather than writing past it, so the result is never
/// longer than `size`; the decoded bytes themselves are left to the name.
#[verifier::external_body]
fn lz4_decompress(input: &[u8], size: usize) -> (r: Option<Vec<u8>>)
    ensures
        r matches Some(v) ==> lz4_block(input@, size) == Some(v@) && v@.len() <= size,
        r is None ==> lz4_block(input@, size) is None,
{
    match lz4_flex::block::decompress(input, size) {
        Ok(v) => Some(v),
        Err(_) => None,
    }
}

/// A chunk's payload once decoded: LZ4 blocks are decompressed (nothing on
/// an error); every other compression type is taken as is.
pub open spec fn spec_decompress_chunk(temp: Seq<u8>, compression_type: u8, size: usize) -> Seq<u8> {
    if compression_type == COMPRESSED {
        match lz4_block(temp, size) {
            Some(v) => v,
            None => Seq::empty(),
        }
    } else {
        temp
    }
}

/// Decodes one chunk's payload.
pub fn decompress_chunk(temp: &[u8], compression_type: u8, uncompressed_size: usize) -> (out: Vec<u8>)
    ensures
        out@ == spec_decompress_chunk(temp@, compression_type, uncompressed_size),
{
    if compression_type == COMPRESSED {
        match lz4_decompress(temp, uncompressed_size) {
            Some(v) => v,
            None => Vec::new(),
        }
    } else {
        copy_bytes(temp)
    }
}

/// One 32-byte chunk header of a DSAR file.
#[derive(Debug, Clone, Copy, PartialEq, Eq, Structural)]
pub struct ChunkHeader {
    pub uncompressed_offset: u64,
    pub compressed_offset: u64,
    pub uncompressed_size: u32,
    pub compressed_size: u32,
    pub compression_type: u8,
    pub chunk_type: u8,
}

pub open spec fn chunk_header_at(s: Seq<u8>, p: int) -> ChunkHeader {
    ChunkHeader {
        uncompressed_offset: le_u64_at(s, p),
        compressed_offset: le_u64_at(s, p + 8),
        uncompressed_size: le_u32_at(s, p + 16),
        compressed_size: le_u32_at(s, p + 20),
        compression_type: s[p + 24],
        chunk_type: s[p + 25],
    }
}

/// Decodes the chunk header at `p`.
pub fn chunk_header(s: &[u8], p: usize) -> (h: ChunkHeader)
    requires
        p + 32 <= s@.len(),
    ensures
        h == chunk_header_at(s@, p as int),
{
    let _n = s.len();
    ChunkHeader {
        uncompressed_offset: u64_in(s, p),
        compressed_offset: u64_in(s, p + 8),
        uncompressed_size: u32_in(s, p + 16),
        compressed_size: u32_in(s, p + 20),
        compression_type: s[p + 24],
        chunk_type: s[p + 25],
    }
}

/// The first `k` chunks of a DSAR file, decoded one after the other; `None`
/// when one of them points past the end of the file.
pub open spec fn dsar_upto(file: Seq<u8>, k: nat) -> Option<Seq<u8>>
    decreases k,
{
    if k == 0 {
        Some(Seq::empty())
    } else {
        match dsar_upto(file, (k - 1) as nat) {
            None => None,
            Some(prev) => {
                let h = chunk_header_at(file, 32 + 32 * (k - 1));
                let o = h.compressed_offset as int;
                let n = h.compressed_size as int;
                if o + n > file.len() {
                    None
                } else {
                    Some(prev + spec_decompress_chunk(file.subrange(o, o + n), h.compression_type, h.uncompressed_size as usize))
                }
            }
        }
    }
}

/// A whole DSAR file decoded: every chunk that its header table lists, in
/// order. Nothing when the file is shorter than its 32-byte head or its
/// header table, or a chunk points past its end.
pub open spec fn spec_decompress_dsar(file: Seq<u8>) -> Seq<u8> {
    if file.len() < 32 {
        Seq::empty()
    } else {
        let n = le_u32_at(file, 8) as nat;
        if 32 + 32 * n > file.len() {
            Seq::empty()
        } else {
            match dsar_upto(file, n) {
                None => Seq::empty(),
                Some(s) => s,
            }
        }
    }
}

proof fn lemma_dsar_none_stays(file: Seq<u8>, k: nat, m: nat)
    requires
        k <= m,
        dsar_upto(file, k) is None,
    ensures
        dsar_upto(file, m) is None,
    decreases m - k,
{
    if k < m {
        lemma_dsar_none_stays(file, k, (m - 1) as nat);
    }
}

/// Decodes a whole DSAR file.
pub fn decompress_dsar(file: &[u8]) -> (out: Vec<u8>)
    ensures
        out@ == spec_decompress_dsar(file@),
{
    if file.len() < 32 {
        return Vec::new();
    }
    let flen = file.len();
    let num_chunks = u32_in(file, 8) as usize;
    if 32 + 32 * (num_chunks as u128) > flen as u128 {
        return Vec::new();
    }
    let mut out: Vec<u8> = Vec::new();
    let mut i: usize = 0;
    while i < num_chunks
        invariant
            i <= num_chunks,
            flen == file@.len(),
            num_chunks == le_u32_at(file@, 8),
            32 + 32 * num_chunks <= file@.len(),
            dsar_upto(file@, i as nat) == Some(out@),
        decreases num_chunks - i,
    {
        let h = chunk_header(file, 32 + 32 * i);
        let o = h.compressed_offset;
        let n = h.compressed_size as u64;
        if o > file.len() as u64 || n > file.len() as u64 - o {
            proof {
                lemma_dsar_none_stays(file@, (i + 1) as nat, num_chunks as nat);
            }
            return Vec::new();
        }
        let temp = vstd::slice::slice_subrange(file, o as usize, (o + n) as usize);
        let piece = decompress_chunk(temp, h.compression_type, h.uncompressed_size as usize);
        let ghost prev = out@;
        crate::buf::extend_bytes(&mut out, piece.as_slice());
        i = i + 1;
    }
    out
}

/// Whether a chunk starts a new resource.
pub fn starts_resource(h: &ChunkHeader) -> (b: bool)
    ensures
        b == (h.chunk_type & START != 0),
{
    h.chunk_type & START != 0
}

/// The index of a bundle's first `k` chunks: each chunk's uncompressed
/// offset to its number (a later chunk wins a shared offset).
pub open spec fn chunk_offsets(headers: Seq<u8>, k: nat) -> Map<u64, usize>
    decreases k,
{
    if k == 0 {
        Map::empty()
    } else {
        chunk_offsets(headers, (k - 1) as nat).insert(le_u64_at(headers, 32 * (k - 1)), (k - 1) as usize)
    }
}

/// Indexes a bundle's chunk headers by uncompressed offset.
pub fn chunk_offset_map(chunk_headers: &[u8], num_chunks: usize) -> (m: HashMap<u64, usize>)
    requires
        32 * num_chunks <= chunk_headers@.len(),
    ensures
        m@ == chunk_offsets(chunk_headers@, num_chunks as nat),
{
    let n = chunk_headers.len();
    let mut m: HashMap<u64, usize> = HashMap::new();
    let mut j: usize = 0;
    while j < num_chunks
        invariant
            j <= num_chunks,
            n == chunk_headers@.len(),
            32 * num_chunks <= chunk_headers@.len(),
            m@ == chunk_offsets(chunk_headers@, j as nat),
        decreases num_chunks - j,
    {
        assert(32 * j + 8 <= 32 * num_chunks) by (nonlinear_arith)
            requires
                j < num_chunks,
        ;
        let off = u64_in(chunk_headers, 32 * j);
        m.insert(off, j);
        j = j + 1;
    }
    m
}

/// A file that may be a bundle: no extension, or `stream`, `nxa` or
/// `gpu_resources`.
pub open spec fn spec_is_bundle_like(name: Seq<char>) -> bool {
    match extension(name) {
        None => true,
        Some(e) => e == "stream"@ || e == "nxa"@ || e == "gpu_resources"@,
    }
}

// ---------------------------------------------------------------------------
// The package table of `bundles.nxa`.

/// A package's piece: where it sits in the package, where it starts in its
/// bundle, and which bundle holds it.
#[derive(Debug, Clone, Copy, PartialEq, Eq, Structural)]
pub struct BundleEntry {
    pub original_archive_offset: u64,
    pub start_offset: u32,
    pub bundle_index: u8,
}

/// A package of the table: its name (a C string), its size and its pieces.
pub struct PackageInfo {
    pub name: String,
    pub size: u64,
    pub entries: Vec<BundleEntry>,
}

/// The index of the first zero byte of `buf` at or after `i`, or its length.
pub open spec fn first_zero(buf: Seq<u8>, i: int) -> int
    decreases buf.len() - i,
{
    if i < 0 || i >= buf.len() {
        buf.len() as int
    } else if buf[i] == 0 {
        i
    } else {
        first_zero(buf, i + 1)
    }
}

/// The C string at `start`: its bytes up to the first zero byte, or to the
/// end.
pub open spec fn cstring_bytes(buf: Seq<u8>, start: int) -> Seq<u8> {
    buf.subrange(start, first_zero(buf, start))
}

proof fn lemma_first_zero_bounds(buf: Seq<u8>, i: int)
    requires
        0 <= i <= buf.len(),
    ensures
        i <= first_zero(buf, i) <= buf.len(),
    decreases buf.len() - i,
{
    if i < buf.len() && buf[i] != 0 {
        lemma_first_zero_bounds(buf, i + 1);
    }
}

/// `String::from_utf8_lossy` of the C string at `start` (which must lie in
/// the buffer).
fn cstring_at(buf: &[u8], start: usize) -> (s: String)
    requires
        start <= buf@.len(),
    ensures
        s@ == lossy_utf8(cstring_bytes(buf@, start as int)),
{
    let n = buf.len();
    let mut end = start;
    proof {
        lemma_first_zero_bounds(buf@, start as int);
    }
    while end < n && buf[end] != 0
        invariant
            start <= end <= n,
            n == buf@.len(),
            first_zero(buf@, start as int) == first_zero(buf@, end as int),
        decreases n - end,
    {
        end = end + 1;
    }
    crate::wwise::sources::lossy_string(vstd::slice::slice_subrange(buf, start, end))
}

/// The piece at `ib` of the package table (16 bytes: offset, start, three
/// unused bytes, bundle index); `None` when it is not all there.
pub open spec fn bundle_entry_at(c: Seq<u8>, ib: int) -> Option<BundleEntry> {
    if ib + 16 > c.len() {
        None
    } else {
        Some(BundleEntry { original_archive_offset: le_u64_at(c, ib), start_offset: le_u32_at(c, ib + 8), bundle_index: c[ib + 15] })
    }
}

/// The first `k` pieces of a package whose pieces start at `off`.
pub open spec fn package_items(c: Seq<u8>, off: int, k: nat) -> Option<Seq<BundleEntry>>
    decreases k,
{
    if k == 0 {
        Some(Seq::empty())
    } else {
        match package_items(c, off, (k - 1) as nat) {
            None => None,
            Some(es) => match bundle_entry_at(c, off + 16 * (k - 1)) {
                None => None,
                Some(e) => Some(es.push(e)),
            },
        }
    }
}

/// A package of the table as values: name, size, pieces.
pub type PackageModel = (Seq<char>, u64, Seq<BundleEntry>);

/// The first `k` packages of the table, and whether the table stopped early
/// at a record that is not all there; `None` when a name or a piece lies
/// outside the buffer.
pub open spec fn table_upto(c: Seq<u8>, k: nat) -> Option<(Seq<PackageModel>, bool)>
    decreases k,
{
    if k == 0 {
        Some((Seq::empty(), false))
    } else {
        match table_upto(c, (k - 1) as nat) {
            None => None,
            Some((ps, true)) => Some((ps, true)),
            Some((ps, false)) => {
                let base = 0x18 + 24 * (k - 1);
                if base + 20 > c.len() {
                    Some((ps, true))
                } else {
                    let name_offset = le_u32_at(c, base + 8) as int;
                    let count = le_u32_at(c, base + 12) as nat;
                    let items_offset = le_u32_at(c, base + 16) as int;
                    if name_offset > c.len() {
                        None
                    } else {
                        match package_items(c, items_offset, count) {
                            None => None,
                            Some(es) => Some((
                                ps.push((lossy_utf8(cstring_bytes(c, name_offset)), le_u64_at(c, base), es)),
                                false,
                            )),
                        }
                    }
                }
            },
        }
    }
}

/// The packages listed in a decompressed `bundles.nxa`: none when it has no
/// count; otherwise as many as the count names, up to a record that is not
/// all there. `None` when a name or a piece lies outside the buffer.
pub open spec fn spec_package_table(c: Seq<u8>) -> Option<Seq<PackageModel>> {
    match opt_u32_at(c, 0x10) {
        None => Some(Seq::empty()),
        Some(n) => match table_upto(c, n as nat) {
            None => None,
            Some((ps, _)) => Some(ps),
        },
    }
}

pub open spec fn package_view(p: PackageInfo) -> PackageModel {
    (p.name@, p.size, p.entries@)
}

proof fn lemma_table_stays(c: Seq<u8>, k: nat, n: nat)
    requires
        k <= n,
        table_upto(c, k) is None || table_upto(c, k) matches Some((_, true)),
    ensures
        table_upto(c, n) == table_upto(c, k),
    decreases n - k,
{
    if k < n {
        lemma_table_stays(c, k, (n - 1) as nat);
    }
}

proof fn lemma_items_stay_none(c: Seq<u8>, off: int, k: nat, n: nat)
    requires
        k <= n,
        package_items(c, off, k) is None,
    ensures
        package_items(c, off, n) is None,
    decreases n - k,
{
    if k < n {
        lemma_items_stay_none(c, off, k, (n - 1) as nat);
    }
}

fn read_items(c: &[u8], off: u32, count: u32) -> (r: Option<Vec<BundleEntry>>)
    ensures
        match package_items(c@, off as int, count as nat) {
            Some(es) => r matches Some(v) && v@ == es,
            None => r is None,
        },
{
    let cl = c.len();
    let n = cl as u64;
    let mut out: Vec<BundleEntry> = Vec::new();
    let mut i: u32 = 0;
    while i < count
        invariant
            i <= count,
            cl == c@.len(),
            n == cl,
            package_items(c@, off as int, i as nat) == Some(out@),
        decreases count - i,
    {
        let ib: u64 = off as u64 + 16 * (i as u64);
        if ib > n || n - ib < 16 {
            proof {
                lemma_items_stay_none(c@, off as int, (i + 1) as nat, count as nat);
            }
            return None;
        }
        let p = ib as usize;
        let e = BundleEntry { original_archive_offset: u64_in(c, p), start_offset: u32_in(c, p + 8), bundle_index: c[p + 15] };
        out.push(e);
        i = i + 1;
    }
    Some(out)
}

/// Decodes the package table of a decompressed `bundles.nxa`.
pub fn package_table(c: &[u8]) -> (r: Option<Vec<PackageInfo>>)
    ensures
        match spec_package_table(c@) {
            Some(ps) => r matches Some(v) && v@.map_values(|p: PackageInfo| package_view(p)) == ps,
            None => r is None,
        },
{
    let mut out: Vec<PackageInfo> = Vec::new();
    let num = match u32_at(c, 0x10) {
        Some(n) => n,
        None => return Some(out),
    };
    let cl = c.len();
    let len = cl as u64;
    let mut k: u32 = 0;
    assert(out@.map_values(|p: PackageInfo| package_view(p)) =~= Seq::<PackageModel>::empty());
    while k < num
        invariant
            k <= num,
            cl == c@.len(),
            len == cl,
            opt_u32_at(c@, 0x10) == Some(num),
            table_upto(c@, k as nat) == Some((out@.map_values(|p: PackageInfo| package_view(p)), false)),
        decreases num - k,
    {
        let base: u64 = 0x18 + 24 * (k as u64);
        if base > len || len - base < 20 {
            proof {
                lemma_table_stays(c@, (k + 1) as nat, num as nat);
            }
            return Some(out);
        }
        let b = base as usize;
        let size = u64_in(c, b);
        let name_offset = u32_in(c, b + 8);
        let count = u32_in(c, b + 12);
        let items_offset = u32_in(c, b + 16);
        if name_offset as u64 > len {
            proof {
                lemma_table_stays(c@, (k + 1) as nat, num as nat);
            }
            return None;
        }
        let name = cstring_at(c, name_offset as usize);
        let entries = match read_items(c, items_offset, count) {
            Some(es) => es,
            None => {
                proof {
                    lemma_table_stays(c@, (k + 1) as nat, num as nat);
                }
                return None;
            },
        };
        let ghost before = out@.map_values(|p: PackageInfo| package_view(p));
        let p = PackageInfo { name, size, entries };
        out.push(p);
        assert(out@.map_values(|p: PackageInfo| package_view(p)) =~= before.push(package_view(p)));
        k = k + 1;
    }
    Some(out)
}

/// Whether a file name may be a bundle.
pub fn is_bundle_like(filename: &str) -> (b: bool)
    ensures
        b == spec_is_bundle_like(filename@),
{
    proof {
        reveal_strlit("stream");
        reveal_strlit("nxa");
        reveal_strlit("gpu_resources");
    }
    match extension_start(filename) {
        None => true,
        Some(_) => {
            let stream = ['s', 't', 'r', 'e', 'a', 'm'];
            let nxa = ['n', 'x', 'a'];
            let gpu = ['g', 'p', 'u', '_', 'r', 'e', 's', 'o', 'u', 'r', 'c', 'e', 's'];
            assert(stream@ =~= "stream"@);
            assert(nxa@ =~= "nxa"@);
            assert(gpu@ =~= "gpu_resources"@);
            extension_is(filename, &stream) || extension_is(filename, &nxa) || extension_is(filename, &gpu)
        },
    }
}

// ---------------------------------------------------------------------------
// Finding and stitching a package's pieces.

/// The last of the first `k` pieces that starts at or before `offset`.
pub open spec fn last_piece_at_or_before(es: Seq<BundleEntry>, offset: u64, k: int) -> Option<int>
    decreases k,
{
    if k <= 0 {
        None
    } else if es[k - 1].original_archive_offset <= offset {
        Some(k - 1)
    } else {
        last_piece_at_or_before(es, offset, k - 1)
    }
}

/// Where a package offset lies: the bundle that holds the last piece
/// starting at or before it, and the offset in that bundle (wrapping as a
/// 64-bit sum).
pub open spec fn spec_locate(es: Seq<BundleEntry>, offset: u64) -> Option<(u8, u64)> {
    match last_piece_at_or_before(es, offset, es.len() as int) {
        None => None,
        Some(i) => Some((
            es[i].bundle_index,
            ((es[i].start_offset as u64 as int + (offset - es[i].original_archive_offset)) % 0x1_0000_0000_0000_0000) as u64,
        )),
    }
}

/// Finds which bundle, and where in it, holds a package offset.
pub fn locate_in_package(entries: &[BundleEntry], offset: u64) -> (r: Option<(u8, u64)>)
    ensures
        r == spec_locate(entries@, offset),
{
    let mut k = entries.len();
    while k > 0
        invariant
            k <= entries@.len(),
            last_piece_at_or_before(entries@, offset, entries@.len() as int) == last_piece_at_or_before(
                entries@,
                offset,
                k as int,
            ),
        decreases k,
    {
        let e = entries[k - 1];
        if e.original_archive_offset <= offset {
            let delta = offset - e.original_archive_offset;
            let off = (e.start_offset as u64).wrapping_add(delta);
            return Some((e.bundle_index, off));
        }
        k = k - 1;
    }
    None
}

/// How much of the package the `i`-th piece covers: up to the next piece,
/// or to the package's end (as a wrapping 64-bit difference).
pub open spec fn piece_size(es: Seq<BundleEntry>, size: u64, i: int) -> u64 {
    if i + 1 < es.len() {
        ((es[i + 1].original_archive_offset - es[i].original_archive_offset) % 0x1_0000_0000_0000_0000) as u64
    } else {
        ((size - es[i].original_archive_offset) % 0x1_0000_0000_0000_0000) as u64
    }
}

/// The size of each piece of a package.
pub fn piece_sizes(entries: &[BundleEntry], size: u64) -> (r: Vec<u64>)
    ensures
        r@.len() == entries@.len(),
        forall|i: int| 0 <= i < entries@.len() ==> r@[i] == piece_size(entries@, size, i),
{
    let mut out: Vec<u64> = Vec::new();
    let n = entries.len();
    let mut i: usize = 0;
    while i < n
        invariant
            i <= n,
            n == entries@.len(),
            out@.len() == i,
            forall|j: int| 0 <= j < i ==> out@[j] == piece_size(entries@, size, j),
        decreases n - i,
    {
        let s = if i + 1 < n {
            entries[i + 1].original_archive_offset.wrapping_sub(entries[i].original_archive_offset)
        } else {
            size.wrapping_sub(entries[i].original_archive_offset)
        };
        out.push(s);
        i = i + 1;
    }
    out
}

/// One piece's bytes placed at `start` in `d`, clipped at the end of `d`;
/// nothing when `start` is at or past the end.
pub open spec fn placed(d: Seq<u8>, start: int, bytes: Seq<u8>) -> Seq<u8> {
    if start >= d.len() {
        d
    } else {
        let end = if start + bytes.len() < d.len() { start + bytes.len() } else { d.len() as int };
        d.subrange(0, start) + bytes.subrange(0, end - start) + d.subrange(end, d.len() as int)
    }
}

/// Places a piece's bytes in the package buffer.
pub fn place_piece(d: &mut Vec<u8>, start: u64, bytes: &[u8])
    ensures
        final(d)@ == placed(old(d)@, start as int, bytes@),
{
    let n = d.len();
    if start >= n as u64 {
        return;
    }
    let s = start as usize;
    let end = if bytes.len() < n - s { s + bytes.len() } else { n };
    let mut i = s;
    while i < end
        invariant
            s <= i <= end,
            end <= n,
            n == d@.len(),
            end - s <= bytes@.len(),
            forall|j: int| 0 <= j < n ==> #[trigger] d@[j] == (if s <= j < i { bytes@[j - s] } else { old(d)@[j] }),
        decreases end - i,
    {
        d.set(i, bytes[i - s]);
        i = i + 1;
    }
    assert(d@ =~= placed(old(d)@, start as int, bytes@));
}

/// The length of a legacy package's TOC from its first 12 bytes: the header,
/// the type table and the file table.
pub open spec fn spec_legacy_toc_len(head: Seq<u8>) -> int {
    72 + le_u32_at(head, 4) * 32 + le_u32_at(head, 8) * 80
}

pub fn legacy_toc_len(head: &[u8]) -> (n: u64)
    requires
        head@.len() >= 12,
    ensures
        n == spec_legacy_toc_len(head@),
{
    72 + (u32_in(head, 4) as u64) * 32 + (u32_in(head, 8) as u64) * 80
}

/// What the reader of a chunk chain does at the next chunk.
#[derive(Debug, Clone, Copy, PartialEq, Eq, Structural)]
pub enum ChainStep {
    /// Stop before this chunk.
    Stop,
    /// Take this chunk and go on to the next one.
    Take,
    /// Take this chunk, the bundle's last, and stop.
    TakeLast,
}

/// The chain reader's step at chunk `chunk_num` of `num_chunks`, whose header
/// is `h`, with `collected` bytes gathered so far: a chunk that starts a new
/// resource ends the chain once something is gathered; otherwise the chunk
/// is taken, and the chain ends after the bundle's last chunk.
pub fn chain_step(h: &ChunkHeader, collected: usize, chunk_num: usize, num_chunks: usize) -> (s: ChainStep)
    ensures
        s == (if h.chunk_type & START != 0 && collected > 0 {
            ChainStep::Stop
        } else if num_chunks > 0 && chunk_num == num_chunks - 1 {
            ChainStep::TakeLast
        } else {
            ChainStep::Take
        }),
{
    if starts_resource(h) && collected > 0 {
        ChainStep::Stop
    } else if num_chunks > 0 && chunk_num == num_chunks - 1 {
        ChainStep::TakeLast
    } else {
        ChainStep::Take
    }
}

/// What the first `k` records of the package table give: each package read
/// from its own 24-byte record at `0x18 + 24 * i`, up to the first record
/// that is not all there.
proof fn lemma_table_upto_records(c: Seq<u8>, k: nat)
    ensures
        table_upto(c, k) matches Some((ps, stopped)) ==> {
            &&& ps.len() <= k
            &&& !stopped ==> ps.len() == k
            &&& stopped ==> 0x18 + 24 * ps.len() + 20 > c.len()
            &&& forall|i: int|
                0 <= i < ps.len() ==> {
                    let base = 0x18 + 24 * i;
                    &&& (#[trigger] ps[i]).1 == le_u64_at(c, base)
                    &&& ps[i].0 == lossy_utf8(cstring_bytes(c, le_u32_at(c, base + 8) as int))
                    &&& package_items(c, le_u32_at(c, base + 16) as int, le_u32_at(c, base + 12) as nat) == Some(ps[i].2)
                }
        },
    decreases k,
{
    if k > 0 {
        lemma_table_upto_records(c, (k - 1) as nat);
        match table_upto(c, (k - 1) as nat) {
            Some((ps, false)) => {
                let base = 0x18 + 24 * (k - 1);
                if base + 20 <= c.len() {
                    match table_upto(c, k) {
                        Some((ps2, _)) => {
                            assert forall|i: int| 0 <= i < ps.len() implies #[trigger] ps2[i] == ps[i] by {}
                        },
                        None => {},
                    }
                }
            },
            _ => {},
        }
    }
}

/// The package table is read record by record: for every index below the
/// count whose 24-byte record at `0x18 + 24 * k` has its fields inside the
/// buffer, the `k`-th package is there, with the size the record holds, the
/// name at the record's name offset, and the pieces at its items offset.
pub proof fn law_package_table_reads_records(c: Seq<u8>, k: int)
    requires
        opt_u32_at(c, 0x10) is Some,
        spec_package_table(c) is Some,
        0 <= k < le_u32_at(c, 0x10),
        0x18 + 24 * k + 20 <= c.len(),
    ensures
        ({
            let ps = spec_package_table(c).unwrap();
            let base = 0x18 + 24 * k;
            &&& k < ps.len()
            &&& ps.len() <= le_u32_at(c, 0x10)
            &&& ps[k].1 == le_u64_at(c, base)
            &&& ps[k].0 == lossy_utf8(cstring_bytes(c, le_u32_at(c, base + 8) as int))
            &&& package_items(c, le_u32_at(c, base + 16) as int, le_u32_at(c, base + 12) as nat) == Some(ps[k].2)
        }),
{
    let n = le_u32_at(c, 0x10);
    lemma_table_upto_records(c, n as nat);
    let ps = spec_package_table(c).unwrap();
    assert(ps[k] == ps[k]);
}

} // verus!
