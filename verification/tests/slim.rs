use engine::slim::{
    chunk_header, chunk_offset_map, decompress_chunk, decompress_dsar, is_bundle_like, legacy_toc_len,
    locate_in_package, package_table, piece_sizes, place_piece, starts_resource, BundleEntry, START, UNCOMPRESSED,
};

#[test]
fn uncompressed_chunks_are_taken_as_is() {
    assert_eq!(decompress_chunk(b"abc", 0, 3), b"abc".to_vec());
    assert_eq!(decompress_chunk(b"abc", 7, 1), b"abc".to_vec());
}

#[test]
fn lz4_chunks_are_decompressed() {
    let raw = b"hello hello hello hello hello".to_vec();
    let packed = lz4_flex::block::compress(&raw);
    assert_eq!(decompress_chunk(&packed, 3, raw.len()), raw);
    assert_eq!(decompress_chunk(&[0xFF, 0xFF], 3, 10), Vec::<u8>::new());
}

#[test]
fn chunk_headers_decode() {
    let mut h = vec![0u8; 32];
    h[0..8].copy_from_slice(&100u64.to_le_bytes());
    h[8..16].copy_from_slice(&200u64.to_le_bytes());
    h[16..20].copy_from_slice(&30u32.to_le_bytes());
    h[20..24].copy_from_slice(&40u32.to_le_bytes());
    h[24] = 3;
    h[25] = 2;
    let c = chunk_header(&h, 0);
    assert_eq!((c.uncompressed_offset, c.compressed_offset, c.uncompressed_size, c.compressed_size), (100, 200, 30, 40));
    assert_eq!((c.compression_type, c.chunk_type), (3, 2));
    assert!(starts_resource(&c));
    let mut two = h.clone();
    two.extend_from_slice(&h);
    two[32..40].copy_from_slice(&100u64.to_le_bytes());
    let m = chunk_offset_map(&two, 2);
    assert_eq!(m.len(), 1);
    assert_eq!(m[&100], 1);
}

#[test]
fn bundle_like_names() {
    assert!(is_bundle_like("9ba626afa44a3aa3"));
    assert!(is_bundle_like("bundles.00.nxa"));
    assert!(is_bundle_like("x.stream"));
    assert!(is_bundle_like("x.gpu_resources"));
    assert!(!is_bundle_like("x.patch_0"));
    assert!(!is_bundle_like("notes.txt"));
}

#[test]
fn package_table_decodes_names_and_pieces() {
    let mut c = vec![0u8; 0x18];
    c[0x10..0x14].copy_from_slice(&1u32.to_le_bytes());
    // Package record at 0x18: size, name offset, item count, items offset.
    let name_off = 0x18 + 24;
    let items_off = name_off + 4;
    c.extend_from_slice(&500u64.to_le_bytes());
    c.extend_from_slice(&(name_off as u32).to_le_bytes());
    c.extend_from_slice(&1u32.to_le_bytes());
    c.extend_from_slice(&(items_off as u32).to_le_bytes());
    c.extend_from_slice(&[0u8; 4]);
    c.extend_from_slice(b"pk\0\0");
    c.extend_from_slice(&7u64.to_le_bytes());
    c.extend_from_slice(&9u32.to_le_bytes());
    c.extend_from_slice(&[0, 0, 0, 4]);
    let t = package_table(&c).unwrap();
    assert_eq!(t.len(), 1);
    assert_eq!(t[0].name, "pk");
    assert_eq!(t[0].size, 500);
    assert_eq!(t[0].entries, vec![BundleEntry { original_archive_offset: 7, start_offset: 9, bundle_index: 4 }]);
    assert_eq!(package_table(&[0u8; 4]).unwrap().len(), 0);
    let mut bad = c.clone();
    bad.truncate(c.len() - 1);
    assert!(package_table(&bad).is_none());
}

#[test]
fn package_offsets_are_located_in_their_bundle() {
    let es = [
        BundleEntry { original_archive_offset: 0, start_offset: 100, bundle_index: 0 },
        BundleEntry { original_archive_offset: 50, start_offset: 10, bundle_index: 3 },
    ];
    assert_eq!(locate_in_package(&es, 20), Some((0, 120)));
    assert_eq!(locate_in_package(&es, 60), Some((3, 20)));
    assert_eq!(locate_in_package(&es[1..], 20), None);
    assert_eq!(piece_sizes(&es, 80), vec![50, 30]);
}

#[test]
fn pieces_are_placed_and_clipped() {
    let mut d = vec![0u8; 6];
    place_piece(&mut d, 4, b"xyz");
    assert_eq!(d, vec![0, 0, 0, 0, b'x', b'y']);
    place_piece(&mut d, 9, b"q");
    assert_eq!(d, vec![0, 0, 0, 0, b'x', b'y']);
    place_piece(&mut d, 0, b"ab");
    assert_eq!(d, vec![b'a', b'b', 0, 0, b'x', b'y']);
}

#[test]
fn legacy_toc_length() {
    let mut head = vec![0u8; 12];
    head[4..8].copy_from_slice(&2u32.to_le_bytes());
    head[8..12].copy_from_slice(&3u32.to_le_bytes());
    assert_eq!(legacy_toc_len(&head), 72 + 64 + 240);
}

/// A DSAR file: a 32-byte head with the chunk count at 8, one 32-byte
/// header per chunk, then the payloads, each stored uncompressed.
fn build_dsar(chunks: &[&[u8]], starts: &[bool]) -> Vec<u8> {
    let num_chunks = chunks.len();
    let mut payload_offset = (0x20 + 0x20 * num_chunks) as u64;
    let mut uncompressed_cum = 0u64;
    let mut headers = Vec::new();
    let mut payloads = Vec::new();
    for (i, chunk) in chunks.iter().enumerate() {
        let mut h = vec![0u8; 0x20];
        h[0..8].copy_from_slice(&uncompressed_cum.to_le_bytes());
        h[8..16].copy_from_slice(&payload_offset.to_le_bytes());
        h[16..20].copy_from_slice(&(chunk.len() as u32).to_le_bytes());
        h[20..24].copy_from_slice(&(chunk.len() as u32).to_le_bytes());
        h[24] = UNCOMPRESSED;
        h[25] = if starts[i] { START } else { 0 };
        headers.extend_from_slice(&h);
        payloads.extend_from_slice(chunk);
        uncompressed_cum += chunk.len() as u64;
        payload_offset += chunk.len() as u64;
    }
    let mut out = vec![0u8; 0x20];
    out[8..12].copy_from_slice(&(num_chunks as u32).to_le_bytes());
    out.extend_from_slice(&headers);
    out.extend_from_slice(&payloads);
    out
}

#[test]
fn decompress_dsar_reads_every_chunk_not_just_the_first_chain() {
    let a = b"first-resource-AAAA".as_slice();
    let b = b"second-resource-BBBB".as_slice();
    let got = decompress_dsar(&build_dsar(&[a, b], &[true, true]));
    assert_eq!(got, [a, b].concat());
}

#[test]
fn decompress_dsar_gives_nothing_for_a_truncated_file() {
    let a = b"first-resource-AAAA".as_slice();
    let mut file = build_dsar(&[a], &[true]);
    file.pop();
    assert!(decompress_dsar(&file).is_empty());
    assert!(decompress_dsar(&[0u8; 31]).is_empty());
    let mut short_table = vec![0u8; 0x20];
    short_table[8] = 2;
    short_table.extend_from_slice(&[0u8; 0x20]);
    assert!(decompress_dsar(&short_table).is_empty());
}
