use engine::memstream::MemoryStream;

#[test]
fn reads_little_endian_fields_and_moves_the_cursor() {
    let mut s = MemoryStream::new(vec![1, 0, 0, 0, 0xFF, 0xFE, 2, 0, 0, 0, 0, 0, 0, 0]);
    assert_eq!(s.read_u32(), 1);
    assert_eq!(s.tell(), 4);
    assert_eq!(s.read_i8(), -1);
    assert_eq!(s.read_u8(), 0xFE);
    assert_eq!(s.read_u64(), 2);
    assert_eq!(s.tell(), 14);
    s.seek(4);
    assert_eq!(s.read_i16(), -257);
    s.seek(0);
    assert_eq!(s.read_u16(), 1);
    s.seek(4);
    assert_eq!(s.read_i32(), 0x0002_FEFFu32 as i32 | 0);
}

#[test]
fn signed_reads_of_all_ones() {
    let mut s = MemoryStream::new(vec![0xFF; 8]);
    assert_eq!(s.read_i64(), -1);
    s.seek(0);
    assert_eq!(s.read_i32(), -1);
}

#[test]
fn seek_past_the_end_zero_extends() {
    let mut s = MemoryStream::new(vec![7, 7]);
    s.seek(5);
    assert_eq!(s.len(), 5);
    assert_eq!(s.data(), &[7, 7, 0, 0, 0]);
    assert!(!s.is_empty());
    assert!(MemoryStream::new(Vec::new()).is_empty());
}

#[test]
fn advance_clamps_at_zero_and_extends_past_the_end() {
    let mut s = MemoryStream::new(vec![1, 2, 3]);
    s.seek(2);
    s.advance(-5);
    assert_eq!(s.tell(), 0);
    s.advance(6);
    assert_eq!(s.tell(), 6);
    assert_eq!(s.len(), 6);
}

#[test]
fn write_overwrites_and_extends() {
    let mut s = MemoryStream::new(vec![1, 2, 3, 4]);
    s.seek(2);
    s.write(&[9, 9, 9]);
    assert_eq!(s.tell(), 5);
    assert_eq!(s.data(), &[1, 2, 9, 9, 9]);
    s.seek(0);
    s.write_u32(0xA1B2C3D4);
    assert_eq!(s.data(), &[0xD4, 0xC3, 0xB2, 0xA1, 9]);
    s.seek(1);
    s.write_u64(1);
    assert_eq!(s.into_data(), vec![0xD4, 1, 0, 0, 0, 0, 0, 0, 0]);
}

#[test]
fn written_bytes_read_back() {
    let mut s = MemoryStream::new(vec![5; 16]);
    s.seek(3);
    s.write_u64(0x0102030405060708);
    s.seek(3);
    assert_eq!(s.read_u64(), 0x0102030405060708);
    s.seek(0);
    assert_eq!(s.read(3), &[5, 5, 5]);
    s.seek(11);
    assert_eq!(s.read(5), &[5, 5, 5, 5, 5]);
}

#[test]
fn insert_adds_zeros_at_the_cursor_and_delete_removes_them() {
    let mut s = MemoryStream::new(vec![1, 2, 3, 4]);
    s.seek(2);
    s.insert(3);
    assert_eq!(s.data(), &[1, 2, 0, 0, 0, 3, 4]);
    assert_eq!(s.tell(), 2);
    s.delete(3);
    assert_eq!(s.data(), &[1, 2, 3, 4]);
}

#[test]
fn delete_is_clamped_at_the_end() {
    let mut s = MemoryStream::new(vec![1, 2, 3, 4]);
    s.seek(3);
    s.delete(10);
    assert_eq!(s.data(), &[1, 2, 3]);
}
