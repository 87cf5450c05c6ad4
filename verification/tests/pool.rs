use engine::wwise::archive::ARCHIVE_MAGIC;
use engine::wwise::hierarchy::HircEntry;
use engine::wwise::load::{decode_bank, GameArchive, WwiseBank};
use engine::wwise::pool::Mod;
use engine::wwise::sources::{AudioSource, VideoSource, WwiseStream};
use engine::wwise::text_bank::{text_bank_bytes, StringEntry, TextBank};
use engine::wwise::BANK_VERSION_KEY;

fn chunk(tag: &[u8; 4], payload: &[u8]) -> Vec<u8> {
    let mut out = tag.to_vec();
    out.extend_from_slice(&(payload.len() as u32).to_le_bytes());
    out.extend_from_slice(payload);
    out
}

fn bank_with(id: u64, entries: &[(u32, &[u8])]) -> WwiseBank {
    let mut header = (154u32 ^ BANK_VERSION_KEY).to_le_bytes().to_vec();
    header.extend_from_slice(&[0, 0, 0, 0]);
    let mut bytes = chunk(b"BKHD", &header);
    let mut body = (entries.len() as u32).to_le_bytes().to_vec();
    for (eid, misc) in entries {
        body.push(2);
        body.extend_from_slice(&(misc.len() as u32 + 4).to_le_bytes());
        body.extend_from_slice(&eid.to_le_bytes());
        body.extend_from_slice(misc);
    }
    bytes.extend(chunk(b"HIRC", &body));
    decode_bank(id, &bytes).unwrap()
}

fn text(id: u64, pairs: &[(u32, &str)]) -> TextBank {
    let entries: Vec<StringEntry> = pairs
        .iter()
        .map(|(i, t)| StringEntry { string_id: *i, text: t.to_string(), text_old: String::new(), modified: false })
        .collect();
    TextBank::from_data(id, &text_bank_bytes(0, &entries)).unwrap()
}

fn hierarchy_of(banks: &[(u64, WwiseBank)]) -> Vec<(u32, HircEntry)> {
    let mut h: Vec<(u32, HircEntry)> = Vec::new();
    for (_, b) in banks {
        for e in &b.entries {
            match h.iter().position(|(id, _)| *id == e.id()) {
                Some(i) => h[i] = (e.id(), e.duplicate()),
                None => h.push((e.id(), e.duplicate())),
            }
        }
    }
    h
}

fn archive(banks: Vec<(u64, WwiseBank)>, texts: Vec<(u64, TextBank)>, videos: Vec<(u64, VideoSource)>) -> GameArchive {
    let hierarchy_entries = hierarchy_of(&banks);
    GameArchive {
        magic: ARCHIVE_MAGIC,
        unknown: 0,
        unk4_data: vec![],
        wwise_streams: vec![],
        wwise_banks: banks,
        text_banks: texts,
        video_sources: videos,
        hierarchy_entries,
    }
}

fn misc_of(e: &HircEntry) -> Vec<u8> {
    let HircEntry::Opaque(o) = e;
    o.misc.clone()
}

#[test]
fn an_archive_is_added_once_and_pooled_resources_stay() {
    let mut pool = Mod::new();
    pool.add_game_archive("a".into(), archive(vec![(1, bank_with(1, &[(10, &[1])]))], vec![], vec![]));
    assert!(pool.has_archive("a"));
    pool.add_game_archive("a".into(), archive(vec![(2, bank_with(2, &[]))], vec![], vec![]));
    assert_eq!(pool.wwise_banks.len(), 1);
    pool.add_game_archive("b".into(), archive(vec![(1, bank_with(1, &[(10, &[9])])), (2, bank_with(2, &[]))], vec![], vec![]));
    assert_eq!(pool.names, vec!["a".to_string(), "b".to_string()]);
    let ids: Vec<u64> = pool.wwise_banks.iter().map(|(id, _)| *id).collect();
    assert_eq!(ids, vec![1, 2]);
    assert_eq!(misc_of(&pool.wwise_banks[0].1.entries[0]), vec![1]);
    assert_eq!(pool.hierarchy_entries.len(), 1);
}

#[test]
fn a_new_bank_takes_the_pooled_entries() {
    let mut pool = Mod::new();
    pool.add_game_archive("a".into(), archive(vec![(1, bank_with(1, &[(10, &[1])]))], vec![], vec![]));
    pool.add_game_archive("b".into(), archive(vec![(2, bank_with(2, &[(10, &[7]), (11, &[8])]))], vec![], vec![]));
    let b2 = &pool.wwise_banks[1].1;
    assert_eq!(misc_of(&b2.entries[0]), vec![1]);
    assert_eq!(misc_of(&b2.entries[1]), vec![8]);
    let ids: Vec<u32> = pool.hierarchy_entries.iter().map(|(id, _)| *id).collect();
    assert_eq!(ids, vec![10, 11]);
}

#[test]
fn importing_a_patch_merges_strings_videos_and_new_banks() {
    let mut pool = Mod::new();
    pool.add_game_archive(
        "base".into(),
        archive(
            vec![(1, bank_with(1, &[]))],
            vec![(5, text(5, &[(1, "hello"), (2, "bye")]))],
            vec![(6, VideoSource::from_original(6, 3, vec![1, 2, 3]))],
        ),
    );
    assert!(!pool.has_modified_resources());
    let patch = archive(
        vec![(1, bank_with(1, &[(10, &[1])])), (3, bank_with(3, &[]))],
        vec![(5, text(5, &[(1, "HELLO")]))],
        vec![(6, VideoSource::from_original(6, 3, vec![9, 9, 9])), (7, VideoSource::from_original(7, 1, vec![4]))],
    );
    pool.import_patch("p.patch_0".into(), patch);
    assert!(pool.has_modified_resources());
    assert_eq!(pool.text_banks[0].1.entries[0].text, "HELLO");
    assert_eq!(pool.text_banks[0].1.modified_count, 1);
    assert_eq!(pool.video_sources[0].1.get_data(), &[9, 9, 9]);
    assert!(pool.video_sources[0].1.modified);
    let bank_ids: Vec<u64> = pool.wwise_banks.iter().map(|(id, _)| *id).collect();
    assert_eq!(bank_ids, vec![1, 3]);
    let video_ids: Vec<u64> = pool.video_sources.iter().map(|(id, _)| *id).collect();
    assert_eq!(video_ids, vec![6, 7]);
    assert!(pool.video_sources[1].1.modified);
    assert!(pool.has_archive("p.patch_0"));

    let out = pool.into_patch(vec![1; 56]);
    assert_eq!(out.magic, ARCHIVE_MAGIC);
    assert_eq!(out.unk4_data, vec![1; 56]);
    assert!(out.wwise_banks.is_empty());
    assert_eq!(out.text_banks.len(), 1);
    assert_eq!(out.video_sources.len(), 2);
}

#[test]
fn a_patch_of_known_banks_only_is_not_added() {
    let mut pool = Mod::new();
    pool.add_game_archive("base".into(), archive(vec![(1, bank_with(1, &[]))], vec![], vec![]));
    pool.import_patch("p.patch_0".into(), archive(vec![(1, bank_with(1, &[]))], vec![], vec![]));
    assert!(!pool.has_archive("p.patch_0"));
    assert!(!pool.has_modified_resources());
}

#[test]
fn separate_patches_hold_each_archives_own_modified_resources() {
    let mut pool = Mod::new();
    let mut base_a = archive(
        vec![(1, bank_with(1, &[]))],
        vec![(5, text(5, &[(1, "hello")]))],
        vec![(6, VideoSource::from_original(6, 3, vec![1, 2, 3]))],
    );
    base_a.unknown = 7;
    base_a.unk4_data = vec![3; 56];
    pool.add_game_archive("aaaa".into(), base_a);
    pool.add_game_archive(
        "bbbb".into(),
        archive(vec![(2, bank_with(2, &[]))], vec![], vec![(6, VideoSource::from_original(6, 3, vec![5, 5, 5]))]),
    );
    let patch = archive(
        vec![],
        vec![(5, text(5, &[(1, "HELLO")]))],
        vec![(6, VideoSource::from_original(6, 3, vec![9, 9, 9]))],
    );
    pool.import_patch("p.patch_0".into(), patch);
    assert!(!pool.has_archive("p.patch_0"));

    let patches = pool.separate_patches();
    assert_eq!(patches.len(), 2);
    let (name_a, a) = &patches[0];
    assert_eq!(name_a, "aaaa.patch_0");
    assert_eq!(a.magic, ARCHIVE_MAGIC);
    assert_eq!(a.unknown, 7);
    assert_eq!(a.unk4_data, vec![3; 56]);
    assert!(a.wwise_banks.is_empty());
    assert_eq!(a.text_banks.len(), 1);
    assert_eq!(a.text_banks[0].1.entries[0].text, "HELLO");
    assert_eq!(a.video_sources.len(), 1);
    assert_eq!(a.video_sources[0].1.get_data(), &[9, 9, 9]);
    let (name_b, b) = &patches[1];
    assert_eq!(name_b, "bbbb.patch_0");
    assert!(b.text_banks.is_empty());
    // The second archive's video is the pooled one, which the patch replaced.
    assert_eq!(b.video_sources.len(), 1);
    assert_eq!(b.video_sources[0].1.get_data(), &[9, 9, 9]);
}

#[test]
fn separate_patches_of_an_untouched_pool_are_empty() {
    let mut pool = Mod::new();
    pool.add_game_archive("aaaa".into(), archive(vec![(1, bank_with(1, &[]))], vec![], vec![]));
    let patches = pool.separate_patches();
    assert_eq!(patches.len(), 1);
    assert!(patches[0].1.wwise_banks.is_empty());
    assert!(patches[0].1.wwise_streams.is_empty());
}

fn stream(id: u64, data: &[u8]) -> (u64, WwiseStream) {
    let audio_source = AudioSource {
        data: data.to_vec(),
        resource_id: id,
        short_id: 0,
        modified: false,
        data_old: vec![],
        stream_type: 2,
    };
    (id, WwiseStream { file_id: id, audio_source, modified: false })
}

fn with_streams(streams: Vec<(u64, WwiseStream)>) -> GameArchive {
    let mut a = archive(vec![], vec![], vec![]);
    a.wwise_streams = streams;
    a
}

#[test]
fn importing_a_patch_swaps_in_changed_stream_audio() {
    let mut pool = Mod::new();
    pool.add_game_archive("base".into(), with_streams(vec![stream(1, &[1]), stream(2, &[5])]));
    assert!(!pool.has_modified_resources());

    pool.import_patch("p".into(), with_streams(vec![stream(1, &[2]), stream(2, &[5]), stream(3, &[7])]));
    let s1 = &pool.wwise_streams[0].1;
    assert!(s1.modified);
    assert_eq!(s1.audio_source.data, vec![2]);
    assert_eq!(s1.audio_source.data_old, vec![1]);
    assert!(s1.audio_source.modified);
    let s2 = &pool.wwise_streams[1].1;
    assert!(!s2.modified);
    assert_eq!(s2.audio_source.data, vec![5]);
    assert_eq!(pool.wwise_streams.len(), 2);
    assert!(pool.has_modified_resources());

    // Bytes equal to the original ones are no change once modified.
    pool.import_patch("q".into(), with_streams(vec![stream(1, &[1])]));
    assert_eq!(pool.wwise_streams[0].1.audio_source.data, vec![2]);

    pool.import_patch("r".into(), with_streams(vec![stream(1, &[3])]));
    assert_eq!(pool.wwise_streams[0].1.audio_source.data, vec![3]);
    assert_eq!(pool.wwise_streams[0].1.audio_source.data_old, vec![1]);
}

#[test]
fn a_combined_patch_has_its_fixed_header_bytes() {
    let v = engine::wwise::pool::combined_unk4_data();
    assert_eq!(v.len(), 56);
    assert_eq!(&v[..8], &[0xCE, 0x09, 0xF5, 0xF4, 0, 0, 0, 0]);
    assert_eq!(&v[24..28], &[0x00, 0x79, 0x51, 0x00]);
    assert!(v[28..].iter().all(|b| *b == 0));
}
