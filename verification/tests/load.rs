use engine::wwise::archive::ARCHIVE_MAGIC;
use engine::wwise::hierarchy::{BankVersion, HircEntry};
use engine::wwise::load::{archive_bytes, decode_bank, load_archive, GameArchive};
use engine::wwise::sources::{AudioSource, VideoSource, WwiseDep, WwiseStream};
use engine::wwise::text_bank::{text_bank_bytes, StringEntry, TextBank};
use engine::wwise::BANK_VERSION_KEY;

fn chunk(tag: &[u8; 4], payload: &[u8]) -> Vec<u8> {
    let mut out = tag.to_vec();
    out.extend_from_slice(&(payload.len() as u32).to_le_bytes());
    out.extend_from_slice(payload);
    out
}

fn entry(t: u8, id: u32, misc: &[u8]) -> Vec<u8> {
    let mut out = vec![t];
    out.extend_from_slice(&(misc.len() as u32 + 4).to_le_bytes());
    out.extend_from_slice(&id.to_le_bytes());
    out.extend_from_slice(misc);
    out
}

fn hirc(entries: &[Vec<u8>]) -> Vec<u8> {
    let mut body = (entries.len() as u32).to_le_bytes().to_vec();
    for e in entries {
        body.extend_from_slice(e);
    }
    chunk(b"HIRC", &body)
}

fn bkhd_v154() -> Vec<u8> {
    let mut p = (154u32 ^ BANK_VERSION_KEY).to_le_bytes().to_vec();
    p.extend_from_slice(&[0, 0, 0, 0]);
    p
}

fn sample_bank() -> Vec<u8> {
    let mut b = chunk(b"BKHD", &bkhd_v154());
    b.extend(hirc(&[entry(2, 10, &[1, 2, 3, 4]), entry(3, 11, &[])]));
    b.extend(chunk(b"STID", &[9, 9]));
    b
}

fn entry_ids(es: &[HircEntry]) -> Vec<u32> {
    es.iter().map(|e| e.id()).collect()
}

#[test]
fn decode_bank_splits_header_hierarchy_and_kept_chunks() {
    let b = decode_bank(77, &sample_bank()).expect("bank decodes");
    assert_eq!(b.file_id, 77);
    assert_eq!(b.bank_header, chunk(b"BKHD", &bkhd_v154()));
    assert_eq!(b.bank_misc_data, chunk(b"STID", &[9, 9]));
    assert_eq!(b.version, BankVersion::V154);
    assert_eq!(entry_ids(&b.entries), vec![10, 11]);
    assert_eq!(b.dep.data, "Bank 77");
    assert!(b.dep.skip);
    assert!(!b.modified);
}

#[test]
fn decode_bank_generate_gives_back_its_bytes() {
    let bytes = sample_bank();
    let b = decode_bank(1, &bytes).unwrap();
    assert_eq!(b.generate(), bytes);
}

#[test]
fn decode_bank_keeps_one_entry_per_id_with_the_last_bytes() {
    let mut bytes = chunk(b"BKHD", &bkhd_v154());
    bytes.extend(hirc(&[entry(2, 10, &[1]), entry(3, 11, &[]), entry(2, 10, &[7, 7])]));
    let b = decode_bank(1, &bytes).unwrap();
    assert_eq!(entry_ids(&b.entries), vec![10, 11]);
    let HircEntry::Opaque(first) = &b.entries[0];
    assert_eq!(first.misc, vec![7, 7]);
}

#[test]
fn decode_bank_keeps_one_chunk_per_tag_with_the_last_payload() {
    let mut bytes = chunk(b"BKHD", &bkhd_v154());
    bytes.extend(chunk(b"STID", &[1]));
    bytes.extend(chunk(b"ENVS", &[2]));
    bytes.extend(chunk(b"STID", &[3, 3]));
    let b = decode_bank(1, &bytes).unwrap();
    let mut expected = chunk(b"STID", &[3, 3]);
    expected.extend(chunk(b"ENVS", &[2]));
    assert_eq!(b.bank_misc_data, expected);
    assert!(b.entries.is_empty());
}

#[test]
fn decode_bank_refuses_short_header_cut_chunk_and_bad_media() {
    assert!(decode_bank(1, &chunk(b"BKHD", &[1, 2])).is_none());
    let mut cut = sample_bank();
    cut.truncate(cut.len() - 1);
    assert!(decode_bank(1, &cut).is_none());
    let mut media = chunk(b"BKHD", &bkhd_v154());
    let mut didx = 5u32.to_le_bytes().to_vec();
    didx.extend_from_slice(&0u32.to_le_bytes());
    didx.extend_from_slice(&9u32.to_le_bytes());
    media.extend(chunk(b"DIDX", &didx));
    media.extend(chunk(b"DATA", &[1, 2, 3]));
    assert!(decode_bank(1, &media).is_none());
}

#[test]
fn bank_modification_count_goes_up_and_down() {
    let mut b = decode_bank(1, &sample_bank()).unwrap();
    b.raise_modified();
    b.raise_modified();
    assert!(b.modified);
    b.lower_modified();
    assert!(b.modified);
    b.lower_modified();
    assert!(!b.modified);
    b.lower_modified();
    assert!(!b.modified);
    assert_eq!(b.modified_count, 0);
}

fn strings(pairs: &[(u32, &str)]) -> Vec<StringEntry> {
    pairs
        .iter()
        .map(|(id, t)| StringEntry { string_id: *id, text: t.to_string(), text_old: String::new(), modified: false })
        .collect()
}

#[test]
fn text_bank_from_data_keys_by_id() {
    let bytes = text_bank_bytes(3, &strings(&[(1, "one"), (2, "two"), (1, "uno")]));
    let t = TextBank::from_data(9, &bytes).expect("text bank parses");
    assert_eq!(t.language, 3);
    let got: Vec<(u32, String)> = t.entries.iter().map(|e| (e.string_id, e.text.clone())).collect();
    assert_eq!(got, vec![(1, "uno".to_string()), (2, "two".to_string())]);
    assert!(TextBank::from_data(9, &bytes[..10]).is_none());
}

#[test]
fn text_bank_import_counts_first_changes_only() {
    let base = text_bank_bytes(0, &strings(&[(1, "a"), (2, "b")]));
    let mut t = TextBank::from_data(1, &base).unwrap();
    let patch = TextBank::from_data(1, &text_bank_bytes(0, &strings(&[(1, "A"), (2, "b"), (3, "c")]))).unwrap();
    t.import_text(&patch);
    assert!(t.modified);
    assert_eq!(t.modified_count, 1);
    assert_eq!(t.entries[0].text, "A");
    assert_eq!(t.entries[0].text_old, "a");
    assert!(!t.entries[1].modified);
    let again = TextBank::from_data(1, &text_bank_bytes(0, &strings(&[(1, "AA")]))).unwrap();
    t.import_text(&again);
    assert_eq!(t.modified_count, 1);
    assert_eq!(t.entries[0].text, "AA");
    assert_eq!(t.entries[0].text_old, "a");
    let back = TextBank::from_data(1, &text_bank_bytes(0, &strings(&[(1, "a")]))).unwrap();
    t.import_text(&back);
    assert_eq!(t.entries[0].text, "AA");
    assert_eq!(t.generate(), {
        let mut e = strings(&[(1, "AA"), (2, "b")]);
        e[0].modified = true;
        text_bank_bytes(0, &e)
    });
}

fn sample_archive() -> GameArchive {
    let mut audio = AudioSource::default();
    audio.stream_type = 2;
    audio.set_data(vec![1, 2, 3], false);
    audio.resource_id = 1;
    let stream = WwiseStream { file_id: 1, audio_source: audio, modified: false };
    let mut bank = decode_bank(2, &sample_bank()).unwrap();
    bank.dep = WwiseDep { tag: 3, data: "bank.bnk".to_string(), skip: false, file_id: 2 };
    let text = TextBank::from_data(4, &text_bank_bytes(1, &strings(&[(8, "hello")]))).unwrap();
    let video = VideoSource::from_original(5, 4, vec![5, 6, 7, 8]);
    GameArchive {
        magic: ARCHIVE_MAGIC,
        unknown: 6,
        unk4_data: vec![7; 56],
        wwise_streams: vec![(1, stream)],
        wwise_banks: vec![(2, bank)],
        text_banks: vec![(4, text)],
        video_sources: vec![(5, video)],
        hierarchy_entries: vec![],
    }
}

#[test]
fn written_archive_reads_back() {
    let a = sample_archive();
    let (toc, stream) = archive_bytes(&a).expect("archive fits");
    assert_eq!(stream.len(), 32);
    let b = load_archive(&toc, &stream).expect("archive reads");
    assert_eq!(b.magic, ARCHIVE_MAGIC);
    assert_eq!(b.unknown, 6);
    assert_eq!(b.unk4_data, vec![7; 56]);
    assert_eq!(b.wwise_streams.len(), 1);
    assert_eq!(b.wwise_streams[0].0, 1);
    assert_eq!(b.wwise_streams[0].1.get_data(), &[1, 2, 3]);
    assert_eq!(b.wwise_streams[0].1.audio_source.resource_id, 1);
    assert_eq!(b.wwise_banks.len(), 1);
    let bank = &b.wwise_banks[0].1;
    assert_eq!(bank.generate(), sample_bank());
    assert_eq!(bank.dep.tag, 3);
    assert_eq!(bank.dep.data, "bank.bnk");
    assert!(!bank.dep.skip);
    assert_eq!(b.text_banks.len(), 1);
    assert_eq!(b.text_banks[0].1.language, 1);
    assert_eq!(b.text_banks[0].1.entries[0].text, "hello");
    assert_eq!(b.video_sources.len(), 1);
    assert_eq!(b.video_sources[0].1.get_data(), &[5, 6, 7, 8]);
    assert_eq!(b.video_sources[0].1.video_size, 4);
    let ids: Vec<u32> = b.hierarchy_entries.iter().map(|(id, _)| *id).collect();
    assert_eq!(ids, vec![10, 11]);
}

#[test]
fn written_dependency_replaces_the_made_up_one() {
    let mut a = sample_archive();
    a.wwise_streams.clear();
    a.text_banks.clear();
    a.video_sources.clear();
    let (toc, stream) = archive_bytes(&a).unwrap();
    let b = load_archive(&toc, &stream).unwrap();
    assert_eq!(b.wwise_banks[0].1.dep.data, "bank.bnk");
    let mut a2 = sample_archive();
    a2.wwise_banks[0].1.dep.skip = true;
    let (toc2, stream2) = archive_bytes(&a2).unwrap();
    let b2 = load_archive(&toc2, &stream2).unwrap();
    assert_eq!(b2.wwise_banks[0].1.dep.data, "Bank 2");
    assert!(b2.wwise_banks[0].1.dep.skip);
}

#[test]
fn other_magic_loads_nothing_and_short_toc_fails() {
    let mut toc = vec![1, 2, 3, 4];
    toc.extend_from_slice(&[0xff; 100]);
    let a = load_archive(&toc, &[]).unwrap();
    assert_eq!(a.magic, u32::from_le_bytes([1, 2, 3, 4]));
    assert!(a.wwise_banks.is_empty() && a.wwise_streams.is_empty());
    assert!(a.unk4_data.is_empty());
    assert!(load_archive(&[1, 2], &[]).is_none());
    assert!(load_archive(&ARCHIVE_MAGIC.to_le_bytes(), &[]).is_none());
}

#[test]
fn stream_outside_the_sidecar_fails() {
    let a = sample_archive();
    let (toc, stream) = archive_bytes(&a).unwrap();
    assert!(load_archive(&toc, &stream[..10]).is_none());
}

#[test]
fn a_written_text_bank_reads_back() {
    let written = strings(&[(1, "hello"), (7, "wörld ✓"), (2, "x")]);
    let bytes = text_bank_bytes(9, &written);
    let (language, read) = engine::wwise::text_bank::parse_text_bank(&bytes).unwrap();
    assert_eq!(language, 9);
    let pairs: Vec<(u32, String)> = read.iter().map(|e| (e.string_id, e.text.clone())).collect();
    assert_eq!(
        pairs,
        vec![(1, "hello".to_string()), (7, "wörld ✓".to_string()), (2, "x".to_string())]
    );
}

#[test]
fn importing_the_same_strings_twice_is_importing_them_once() {
    let base = text_bank_bytes(0, &strings(&[(1, "a"), (2, "b"), (3, "c")]));
    let patch = TextBank::from_data(1, &text_bank_bytes(0, &strings(&[(1, "A"), (3, "c"), (4, "d")]))).unwrap();
    let mut once = TextBank::from_data(1, &base).unwrap();
    once.import_text(&patch);
    let mut twice = TextBank::from_data(1, &base).unwrap();
    twice.import_text(&patch);
    twice.import_text(&patch);
    assert_eq!(twice.modified_count, once.modified_count);
    assert_eq!(twice.modified, once.modified);
    assert_eq!(twice.generate(), once.generate());
    let view = |t: &TextBank| -> Vec<(u32, String, String, bool)> {
        t.entries.iter().map(|e| (e.string_id, e.text.clone(), e.text_old.clone(), e.modified)).collect()
    };
    assert_eq!(view(&twice), view(&once));
}
