use engine::memstream::MemoryStream;
use engine::wwise::archive::{write_archive, Resource, ResourceKind, ARCHIVE_MAGIC};
use engine::wwise::toc::TocHeader;
use engine::{WWISE_BANK, WWISE_STREAM};

#[test]
fn an_archive_is_written_with_its_stream() {
    let plan = vec![
        Resource { kind: ResourceKind::Stream, id: 10, data: b"abc".to_vec() },
        Resource { kind: ResourceKind::Bank, id: 20, data: b"BANKDATA".to_vec() },
    ];
    let (toc, stream) = write_archive(ARCHIVE_MAGIC, 1, &[], &plan);
    let mut s = MemoryStream::new(toc.clone());
    assert_eq!(s.read_u32(), ARCHIVE_MAGIC);
    assert_eq!(s.read_u32(), 2);
    assert_eq!(s.read_u32(), 2);
    assert_eq!(s.read_u32(), 1);
    let head = 72 + 64;
    s.seek(head);
    let h0 = TocHeader::read(&mut s);
    let h1 = TocHeader::read(&mut s);
    let base = (head + 160 + 8) as u64;
    assert_eq!((h0.file_id, h0.type_id, h0.toc_data_offset, h0.toc_data_size, h0.stream_size), (10, WWISE_STREAM, base, 12, 3));
    assert_eq!((h1.file_id, h1.type_id, h1.toc_data_offset, h1.toc_data_size, h1.entry_index), (20, WWISE_BANK, base + 16, 24, 1));
    assert_eq!(&toc[base as usize..base as usize + 8], &[0xD8, 0x2F, 0x76, 0x78, 0, 0, 0, 0]);
    assert_eq!(&toc[base as usize + 16 + 16..base as usize + 16 + 24], b"BANKDATA");
    assert_eq!(toc.len(), 512);
    let mut expected_stream = b"abc".to_vec();
    expected_stream.resize(16, 0);
    assert_eq!(stream, expected_stream);
}
