use engine::audio_index::AudioIndex;
use engine::resources::{scan_toc_rows, slim_package_names, split_rows, unit_data_from_bytes, TocRow};
use engine::{UNIT_TYPE_ID, WWISE_BANK};
use std::collections::HashMap;

#[test]
fn unit_data_is_cut_from_the_resource() {
    let mut u = vec![0u8; 0x40];
    u[0x2C..0x30].copy_from_slice(&[1, 2, 3, 4]);
    u[0x30..0x34].copy_from_slice(&0x38u32.to_le_bytes());
    u[0x34..0x38].copy_from_slice(&0x3Cu32.to_le_bytes());
    u[0x38..0x3C].copy_from_slice(&[9, 9, 9, 9]);
    let d = unit_data_from_bytes(&u);
    assert_eq!(d.version, [1, 2, 3, 4]);
    assert_eq!(d.lod_group_data, vec![9, 9, 9, 9]);
    assert_eq!(d.lod_group_size, 4);
    let short = unit_data_from_bytes(&[1, 2, 3]);
    assert_eq!(short.version, [0, 0, 0, 0]);
    assert!(short.lod_group_data.is_empty());
    assert_eq!(short.lod_group_size, 0);
    let mut backwards = u.clone();
    backwards[0x34..0x38].copy_from_slice(&0x30u32.to_le_bytes());
    let d = unit_data_from_bytes(&backwards);
    assert_eq!(d.lod_group_size, -8);
    assert!(d.lod_group_data.is_empty());
}

fn toc(rows: &[(u64, u64, u64, u32)]) -> Vec<u8> {
    let mut v = vec![0u8; 72];
    v[8..12].copy_from_slice(&(rows.len() as u32).to_le_bytes());
    for &(file_id, type_id, off, size) in rows {
        let mut h = vec![0u8; 80];
        h[0..8].copy_from_slice(&file_id.to_le_bytes());
        h[8..16].copy_from_slice(&type_id.to_le_bytes());
        h[16..24].copy_from_slice(&off.to_le_bytes());
        h[56..60].copy_from_slice(&size.to_le_bytes());
        v.extend_from_slice(&h);
    }
    v
}

#[test]
fn toc_rows_are_filtered_and_split() {
    let t = toc(&[(1, UNIT_TYPE_ID, 10, 20), (2, WWISE_BANK, 30, 40), (3, 0x5555_5555_5555, 0, 0)]);
    let rows = scan_toc_rows(&t, &[UNIT_TYPE_ID, WWISE_BANK]);
    assert_eq!(
        rows,
        vec![
            TocRow { type_id: UNIT_TYPE_ID, file_id: 1, toc_data_offset: 10, toc_data_size: 20 },
            TocRow { type_id: WWISE_BANK, file_id: 2, toc_data_offset: 30, toc_data_size: 40 },
        ]
    );
    let (units, banks) = split_rows(&rows);
    assert_eq!(units.len(), 1);
    assert_eq!(units[0].file_id, 1);
    assert_eq!(banks, vec![2]);
    assert!(scan_toc_rows(&t[..60], &[UNIT_TYPE_ID]).is_empty());
    assert_eq!(scan_toc_rows(&t[..72 + 80 + 60], &[UNIT_TYPE_ID, WWISE_BANK]).len(), 2);
}

#[test]
fn slim_package_names_stop_at_the_separator() {
    let mut d = vec![0u8; 0x10];
    d[4..8].copy_from_slice(&2u32.to_le_bytes());
    let mut rec = b"abc".to_vec();
    rec.push(0x17);
    rec.resize(0x33, b'z');
    d.extend_from_slice(&rec);
    assert_eq!(slim_package_names(&d), vec!["abc".to_string()]);
    assert!(slim_package_names(&[1, 2]).is_empty());
}

#[test]
fn audio_index_lookups() {
    let mut m = HashMap::new();
    m.insert(5u64, "pkg_a".to_string());
    m.insert(6u64, "pkg_b".to_string());
    let idx = AudioIndex::from_mapping(m);
    assert_eq!(idx.archive_name(5), Some("pkg_a"));
    assert_eq!(idx.archive_name(6), Some("pkg_b"));
    assert_eq!(idx.archive_name(7), None);
    assert_eq!(idx.bank_count(), 2);
}
