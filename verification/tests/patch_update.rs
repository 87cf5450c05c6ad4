use engine::patch::{update_patch_bytes, update_patch_from_source, PatchOutcome, UnitData, UnitDataSource, UnitTable};
use std::cell::RefCell;
use engine::{UNIT_TYPE_ID, WWISE_BANK};

const UNIT_ID: u64 = 0x1111_2222_3333_4444;

fn put_u32(v: &mut [u8], at: usize, x: u32) {
    v[at..at + 4].copy_from_slice(&x.to_le_bytes());
}

fn put_u64(v: &mut [u8], at: usize, x: u64) {
    v[at..at + 8].copy_from_slice(&x.to_le_bytes());
}

/// A patch with one type entry and one TOC header for a unit whose blob
/// starts right after the header: version at 0x2C, lod group at 0x80 up to
/// the joint list at 0x88.
fn unit_patch(type_id: u64) -> Vec<u8> {
    let mut v = vec![0u8; 72 + 32 + 80 + 0x90];
    put_u32(&mut v, 0, 0xF000_0011);
    put_u32(&mut v, 4, 1);
    put_u32(&mut v, 8, 1);
    put_u64(&mut v, 72 + 8, type_id);
    put_u64(&mut v, 72 + 16, 1);
    let h = 72 + 32;
    put_u64(&mut v, h, UNIT_ID);
    put_u64(&mut v, h + 8, type_id);
    let unit = h + 80;
    put_u64(&mut v, h + 16, unit as u64);
    put_u32(&mut v, unit + 0x2C, 0x00A4_CD36);
    put_u32(&mut v, unit + 0x30, 0x80);
    put_u32(&mut v, unit + 0x34, 0x88);
    for i in 0..8 {
        v[unit + 0x80 + i] = 0x11;
    }
    v
}

fn table() -> UnitTable {
    UnitTable {
        units: vec![(
            UNIT_ID,
            UnitData {
                version: [1, 2, 3, 4],
                lod_group_data: vec![0xAB; 12],
                lod_group_size: 12,
            },
        )],
    }
}

#[test]
fn a_patch_without_units_is_left_alone() {
    let original = unit_patch(WWISE_BANK);
    let (outcome, bytes) = update_patch_bytes(&original, &table());
    assert_eq!(outcome, PatchOutcome::NoUnits);
    assert_eq!(bytes, original);
}

#[test]
fn a_truncated_patch_is_corrupted_and_unchanged() {
    let original = vec![0x11, 0, 0, 0xF0, 1, 0];
    let (outcome, bytes) = update_patch_bytes(&original, &table());
    assert_eq!(outcome, PatchOutcome::Corrupted);
    assert_eq!(bytes, original);
}

#[test]
fn a_small_type_id_is_corrupted() {
    let original = unit_patch(0x42);
    let (outcome, bytes) = update_patch_bytes(&original, &table());
    assert_eq!(outcome, PatchOutcome::Corrupted);
    assert_eq!(bytes, original);
}

#[test]
fn the_lod_group_is_replaced_and_later_offsets_shift() {
    let original = unit_patch(UNIT_TYPE_ID);
    let (outcome, bytes) = update_patch_bytes(&original, &table());
    assert_eq!(outcome, PatchOutcome::Updated);
    let unit = 72 + 32 + 80;
    let mut expected = original.clone();
    expected[unit + 0x2C..unit + 0x30].copy_from_slice(&[1, 2, 3, 4]);
    // The lod group grows by 4 bytes, so the joint-list offset moves by 4.
    put_u32(&mut expected, unit + 0x34, 0x8C);
    let mut tail = expected.split_off(unit + 0x80);
    tail.drain(0..8);
    expected.extend_from_slice(&[0xAB; 12]);
    expected.extend_from_slice(&tail);
    assert_eq!(bytes.len(), original.len() + 4);
    assert_eq!(bytes, expected);
}

#[test]
fn an_unknown_unit_header_is_dropped() {
    let original = unit_patch(UNIT_TYPE_ID);
    let empty = UnitTable { units: Vec::new() };
    let (outcome, bytes) = update_patch_bytes(&original, &empty);
    assert_eq!(outcome, PatchOutcome::Updated);
    // One file and one unit fewer; the 80-byte header is gone, and the tail
    // of the original fills the end of the buffer.
    assert_eq!(u32::from_le_bytes(bytes[8..12].try_into().unwrap()), 0);
    assert_eq!(u64::from_le_bytes(bytes[88..96].try_into().unwrap()), 0);
    assert_eq!(bytes.len(), original.len());
    assert_eq!(&bytes[104..104 + 0x90], &original[184..184 + 0x90]);
}

/// Knows the units in `known` and records every id it is asked about.
struct Recorder {
    known: Vec<u64>,
    asked: RefCell<Vec<u64>>,
    data_asked: RefCell<Vec<u64>>,
}

fn recorder(known: Vec<u64>) -> Recorder {
    Recorder { known, asked: RefCell::new(Vec::new()), data_asked: RefCell::new(Vec::new()) }
}

impl UnitDataSource for Recorder {
    fn knows(&self, unit_id: u64) -> bool {
        self.known.contains(&unit_id)
    }
    fn data_for(&self, _unit_id: u64) -> UnitData {
        UnitData { version: [1, 2, 3, 4], lod_group_data: vec![0xAB; 12], lod_group_size: 12 }
    }
    fn contains(&self, unit_id: u64) -> bool {
        self.asked.borrow_mut().push(unit_id);
        self.known.contains(&unit_id)
    }
    fn get_unit_data(&self, unit_id: u64) -> UnitData {
        self.data_asked.borrow_mut().push(unit_id);
        UnitData { version: [1, 2, 3, 4], lod_group_data: vec![0xAB; 12], lod_group_size: 12 }
    }
}

#[test]
fn the_source_is_asked_about_each_unit_id_and_its_answers_drive_the_rewrite() {
    let original = unit_patch(UNIT_TYPE_ID);
    let source = recorder(vec![UNIT_ID]);
    let (outcome, bytes) = update_patch_from_source(&original, &source);
    assert_eq!(*source.asked.borrow(), vec![UNIT_ID]);
    assert_eq!(*source.data_asked.borrow(), vec![UNIT_ID]);
    assert_eq!((outcome, bytes), update_patch_bytes(&original, &table()));

    let unknowing = recorder(Vec::new());
    let (outcome, bytes) = update_patch_from_source(&original, &unknowing);
    assert_eq!(*unknowing.asked.borrow(), vec![UNIT_ID]);
    assert!(unknowing.data_asked.borrow().is_empty());
    assert_eq!(outcome, PatchOutcome::Updated);
    assert_eq!(bytes.len(), original.len());
    assert_eq!((outcome, bytes), update_patch_bytes(&original, &UnitTable { units: Vec::new() }));
}

#[test]
fn the_source_is_not_asked_about_other_resources_or_past_a_cut_table() {
    let original = unit_patch(WWISE_BANK);
    let source = recorder(vec![UNIT_ID]);
    let (outcome, _) = update_patch_from_source(&original, &source);
    assert_eq!(outcome, PatchOutcome::NoUnits);
    assert!(source.asked.borrow().is_empty());

    // The header's type id runs past the end of the buffer.
    let cut = unit_patch(UNIT_TYPE_ID)[..72 + 32 + 12].to_vec();
    let source = recorder(vec![UNIT_ID]);
    let _ = update_patch_from_source(&cut, &source);
    assert!(source.asked.borrow().is_empty());
}
