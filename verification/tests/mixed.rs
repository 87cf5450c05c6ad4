use engine::mixed::{merge_fits, merge_mixed_patch, RawArchive};
use engine::{UNIT_TYPE_ID, WWISE_BANK, WWISE_STREAM};

struct E {
    file_id: u64,
    type_id: u64,
    toc: Vec<u8>,
    stream: Option<(u64, u32)>,
}

/// Lays out an archive: header, type table, TOC headers, then each entry's
/// data back to back.
fn archive(types: &[u64], entries: &[E]) -> Vec<u8> {
    let mut v = Vec::new();
    v.extend_from_slice(&0xF000_0011u32.to_le_bytes());
    v.extend_from_slice(&(types.len() as u32).to_le_bytes());
    v.extend_from_slice(&(entries.len() as u32).to_le_bytes());
    v.extend_from_slice(&7u32.to_le_bytes());
    v.extend_from_slice(&[0x5A; 56]);
    for t in types {
        v.extend_from_slice(&[0u8; 8]);
        v.extend_from_slice(&t.to_le_bytes());
        v.extend_from_slice(&1u64.to_le_bytes());
        v.extend_from_slice(&[0x77u8; 8]);
    }
    let mut off = 72 + 32 * types.len() + 80 * entries.len();
    for e in entries {
        let mut h = vec![0u8; 80];
        h[0..8].copy_from_slice(&e.file_id.to_le_bytes());
        h[8..16].copy_from_slice(&e.type_id.to_le_bytes());
        h[16..24].copy_from_slice(&(off as u64).to_le_bytes());
        if let Some((so, ss)) = e.stream {
            h[24..32].copy_from_slice(&so.to_le_bytes());
            h[60..64].copy_from_slice(&ss.to_le_bytes());
        }
        h[56..60].copy_from_slice(&(e.toc.len() as u32).to_le_bytes());
        v.extend_from_slice(&h);
        off += e.toc.len();
    }
    for e in entries {
        v.extend_from_slice(&e.toc);
    }
    v
}

#[test]
fn reading_splits_an_archive_into_its_parts() {
    let data = archive(
        &[UNIT_TYPE_ID],
        &[E { file_id: 9, type_id: UNIT_TYPE_ID, toc: b"UNIT!".to_vec(), stream: Some((2, 3)) }],
    );
    let a = RawArchive::read(&data, b"abcdef", b"", "m.patch_0").unwrap();
    assert_eq!(a.magic, 0xF000_0011);
    assert_eq!(a.unknown, 7);
    assert_eq!(a.unknown_data, vec![0x5A; 56]);
    assert_eq!(a.types.len(), 1);
    assert_eq!(a.types[0].type_id, UNIT_TYPE_ID);
    assert_eq!(a.entries.len(), 1);
    assert_eq!(a.entries[0].toc_data, b"UNIT!".to_vec());
    assert_eq!(a.entries[0].stream_data, b"cde".to_vec());
    assert!(a.entries[0].gpu_data.is_empty());
    assert!(a.has_non_audio_resources());
}

#[test]
fn reading_reports_each_kind_of_damage() {
    assert_eq!(RawArchive::read(&[0u8; 10], b"", b"", "m").unwrap_err(), "mixed patch 'm' has a truncated header");
    let data = archive(
        &[UNIT_TYPE_ID],
        &[E { file_id: 9, type_id: UNIT_TYPE_ID, toc: b"UNIT!".to_vec(), stream: Some((2, 3)) }],
    );
    assert_eq!(
        RawArchive::read(&data, b"ab", b"", "m").unwrap_err(),
        "mixed patch stream resource 0 is outside the companion"
    );
    let mut cut = data.clone();
    cut.truncate(150);
    assert_eq!(RawArchive::read(&cut, b"", b"", "m").unwrap_err(), "mixed patch file table is truncated");
    cut.truncate(100);
    assert_eq!(RawArchive::read(&cut, b"", b"", "m").unwrap_err(), "mixed patch type table is truncated");
    let mut far = data.clone();
    far[72 + 32 + 16..72 + 32 + 24].copy_from_slice(&1000u64.to_le_bytes());
    assert_eq!(RawArchive::read(&far, b"abcdef", b"", "m").unwrap_err(), "mixed patch resource 0 is outside the main file");
}

#[test]
fn mixed_archive_merge_keeps_non_audio_entries() {
    let original = archive(
        &[UNIT_TYPE_ID, WWISE_BANK],
        &[
            E { file_id: 1, type_id: UNIT_TYPE_ID, toc: b"UNIT!".to_vec(), stream: None },
            E { file_id: 2, type_id: WWISE_BANK, toc: b"OLD".to_vec(), stream: None },
        ],
    );
    let generated = archive(&[WWISE_BANK], &[E { file_id: 2, type_id: WWISE_BANK, toc: b"NEW!".to_vec(), stream: None }]);
    let o = RawArchive::read(&original, b"", b"", "o").unwrap();
    let g = RawArchive::read(&generated, b"", b"", "g").unwrap();
    let (main, stream) = merge_mixed_patch(&o, &g).unwrap();
    assert!(stream.is_empty());
    let merged = RawArchive::read(&main, b"", b"", "merged").unwrap();
    assert_eq!(merged.entries.len(), 2);
    assert_eq!(merged.entries[0].type_id, UNIT_TYPE_ID);
    assert_eq!(merged.entries[0].toc_data, b"UNIT!".to_vec());
    assert_eq!(merged.entries[1].type_id, WWISE_BANK);
    assert_eq!(merged.entries[1].toc_data, b"NEW!".to_vec());
    assert_eq!(merged.types.len(), 2);
    // The type table counts the headers of each type.
    assert_eq!(u64::from_le_bytes(merged.types[0].template[16..24].try_into().unwrap()), 1);
    // Resource data starts after the tables and 8 zero bytes, each padded to 16.
    let start = 72 + 2 * 32 + 2 * 80 + 8;
    assert_eq!(u64::from_le_bytes(main[72 + 64 + 16..72 + 64 + 24].try_into().unwrap()), start as u64);
    assert_eq!(u64::from_le_bytes(main[72 + 64 + 80 + 16..72 + 64 + 80 + 24].try_into().unwrap()), start as u64 + 16);
    assert_eq!(main.len(), start + 32);
}

#[test]
fn streams_of_both_kinds_are_rebuilt_together() {
    let original = archive(&[UNIT_TYPE_ID], &[E { file_id: 1, type_id: UNIT_TYPE_ID, toc: b"U".to_vec(), stream: Some((0, 3)) }]);
    let generated = archive(&[WWISE_STREAM], &[E { file_id: 5, type_id: WWISE_STREAM, toc: b"S".to_vec(), stream: Some((0, 2)) }]);
    let o = RawArchive::read(&original, b"xyz", b"", "o").unwrap();
    let g = RawArchive::read(&generated, b"pq", b"", "g").unwrap();
    let (main, stream) = merge_mixed_patch(&o, &g).unwrap();
    let mut expected = b"xyz".to_vec();
    expected.resize(16, 0);
    expected.extend_from_slice(b"pq");
    expected.resize(32, 0);
    assert_eq!(stream, expected);
    let merged = RawArchive::read(&main, &stream, b"", "merged").unwrap();
    assert_eq!(merged.entries[0].stream_data, b"xyz".to_vec());
    assert_eq!(merged.entries[1].stream_data, b"pq".to_vec());
}

#[test]
fn only_regenerated_streams_take_the_regenerated_sidecar() {
    let original = archive(&[UNIT_TYPE_ID], &[E { file_id: 1, type_id: UNIT_TYPE_ID, toc: b"U".to_vec(), stream: None }]);
    let generated = archive(&[WWISE_STREAM], &[E { file_id: 5, type_id: WWISE_STREAM, toc: b"S".to_vec(), stream: Some((0, 2)) }]);
    let o = RawArchive::read(&original, b"old", b"", "o").unwrap();
    let g = RawArchive::read(&generated, b"pq", b"", "g").unwrap();
    let (_, stream) = merge_mixed_patch(&o, &g).unwrap();
    assert_eq!(stream, b"pq".to_vec());
}

#[test]
fn unregenerable_gpu_data_is_refused() {
    let mut original = archive(&[UNIT_TYPE_ID], &[E { file_id: 77, type_id: UNIT_TYPE_ID, toc: b"U".to_vec(), stream: None }]);
    original[72 + 32 + 64..72 + 32 + 68].copy_from_slice(&4u32.to_le_bytes());
    let generated = archive(&[], &[]);
    let o = RawArchive::read(&original, b"", b"gggg", "o").unwrap();
    let mut o_entries = o;
    o_entries.entries[0].gpu_data.clear();
    let g = RawArchive::read(&generated, b"", b"", "g").unwrap();
    assert_eq!(
        merge_mixed_patch(&o_entries, &g).unwrap_err(),
        "mixed patch resource 77 references GPU data that cannot be regenerated"
    );
}

#[test]
fn small_archives_fit_a_merge() {
    let original = archive(&[UNIT_TYPE_ID], &[E { file_id: 1, type_id: UNIT_TYPE_ID, toc: b"UNIT!".to_vec(), stream: None }]);
    let generated = archive(&[WWISE_BANK], &[E { file_id: 2, type_id: WWISE_BANK, toc: b"NEW!".to_vec(), stream: None }]);
    let o = RawArchive::read(&original, b"", b"", "o").unwrap();
    let g = RawArchive::read(&generated, b"", b"", "g").unwrap();
    assert!(merge_fits(&o, &g));
}
