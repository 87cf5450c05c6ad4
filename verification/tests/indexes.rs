use engine::audio_index::{archives_for_patch, AudioIndex};
use engine::resources::{build_indexes, TocRow};
use engine::slim::{chain_step, ChainStep, ChunkHeader, START};
use engine::{LEGACY_MARKER_FILE, UNIT_TYPE_ID, WWISE_BANK};
use std::collections::HashMap;

fn row(type_id: u64, file_id: u64, off: u64) -> TocRow {
    TocRow { type_id, file_id, toc_data_offset: off, toc_data_size: 8 }
}

#[test]
fn later_package_wins_in_both_indexes() {
    let packages = vec![
        ("a".to_string(), vec![row(UNIT_TYPE_ID, 1, 10), row(WWISE_BANK, 7, 0), row(5, 9, 0)]),
        ("b".to_string(), vec![row(UNIT_TYPE_ID, 1, 20), row(UNIT_TYPE_ID, 2, 30)]),
        ("c".to_string(), vec![row(WWISE_BANK, 7, 0), row(WWISE_BANK, 8, 0)]),
    ];
    let (units, banks) = build_indexes(&packages);
    assert_eq!(units.len(), 2);
    assert_eq!(units[&1].name, "b");
    assert_eq!(units[&1].toc_data_offset, 20);
    assert_eq!(units[&2].toc_data_offset, 30);
    assert_eq!(banks.len(), 2);
    assert_eq!(banks[&7], "c");
    assert_eq!(banks[&8], "c");
    assert!(!units.contains_key(&9) && !banks.contains_key(&9));
}

fn index() -> AudioIndex {
    let mut m = HashMap::new();
    m.insert(5u64, "pkg5".to_string());
    m.insert(6u64, "pkg6".to_string());
    AudioIndex::from_mapping(m)
}

#[test]
fn archives_for_patch_lists_text_archive_then_bank_archives() {
    let names = archives_for_patch(true, &[6, 5], &index(), "m.patch_0").unwrap();
    assert_eq!(names, vec![LEGACY_MARKER_FILE.to_string(), "pkg6".to_string(), "pkg5".to_string()]);
    let names = archives_for_patch(false, &[], &index(), "m.patch_0").unwrap();
    assert!(names.is_empty());
}

#[test]
fn archives_for_patch_names_the_first_unindexed_bank() {
    let err = archives_for_patch(false, &[5, 42, 43], &index(), "m.patch_0").unwrap_err();
    assert_eq!(err, "unable to locate base archive for soundbank 42 (from 'm.patch_0'); cannot build a correct patch");
}

fn header(chunk_type: u8) -> ChunkHeader {
    ChunkHeader {
        uncompressed_offset: 0,
        compressed_offset: 0,
        uncompressed_size: 0,
        compressed_size: 0,
        compression_type: 0,
        chunk_type,
    }
}

#[test]
fn chain_stops_at_the_next_resource_or_the_last_chunk() {
    assert_eq!(chain_step(&header(START), 0, 0, 3), ChainStep::Take);
    assert_eq!(chain_step(&header(START), 5, 1, 3), ChainStep::Stop);
    assert_eq!(chain_step(&header(0), 5, 1, 3), ChainStep::Take);
    assert_eq!(chain_step(&header(0), 5, 2, 3), ChainStep::TakeLast);
    assert_eq!(chain_step(&header(START), 0, 2, 3), ChainStep::TakeLast);
    assert_eq!(chain_step(&header(0), 0, 0, 0), ChainStep::Take);
}
