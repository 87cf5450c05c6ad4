use engine::memstream::MemoryStream;
use engine::wwise::bank::{bank_bytes, bank_header_chunk, bank_version, media_items, misc_chunk_data, split_chunks, DidxEntry};
use engine::wwise::hierarchy::{hierarchy_data, parse_hierarchy_entries, BankVersion, HircEntry, OpaqueEntry};
use engine::wwise::params::{
    AdvSetting, AuxParams, BankSourceStruct, ContainerChildren, FxChunk, FxChunkFlags, FxChunkMetadata, PlayListItem,
    PropBundle, StateProp,
};
use engine::wwise::sources::{AudioSource, VideoSource, WwiseDep, WwiseStream};
use engine::wwise::text_bank::{parse_text_bank, text_bank_bytes, StringEntry};
use engine::wwise::toc::TocHeader;

#[test]
fn toc_header_round_trips() {
    let h = TocHeader {
        file_id: 1,
        type_id: 2,
        toc_data_offset: 3,
        stream_file_offset: 4,
        gpu_resource_offset: 5,
        unknown1: 6,
        unknown2: 7,
        toc_data_size: 8,
        stream_size: 9,
        gpu_resource_size: 10,
        unknown3: 11,
        unknown4: 12,
        entry_index: 13,
    };
    let bytes = h.get_data();
    assert_eq!(bytes.len(), 80);
    assert_eq!(&bytes[0..8], &1u64.to_le_bytes());
    assert_eq!(&bytes[76..80], &13u32.to_le_bytes());
    let mut s = MemoryStream::new(bytes);
    assert_eq!(TocHeader::read(&mut s), h);
    assert_eq!(s.tell(), 80);
    let d = TocHeader::default();
    assert_eq!((d.unknown3, d.unknown4, d.file_id), (16, 64, 0));
}

#[test]
fn a_synthesized_dependency_names_its_bank() {
    let d = WwiseDep::synthesized(5, 42);
    assert_eq!(d.data, "Bank 42");
    assert!(d.skip);
    assert_eq!(d.file_id, 5);
    assert_eq!(d.get_data(), [vec![0, 0, 0, 0, 7, 0, 0, 0], b"Bank 42".to_vec()].concat());
    assert_eq!(WwiseDep::synthesized(1, 0).data, "Bank 0");
}

#[test]
fn a_dependency_round_trips() {
    let bytes = [vec![3, 0, 0, 0, 7, 0, 0, 0], "héllo!".as_bytes().to_vec()].concat();
    let mut s = MemoryStream::new(bytes.clone());
    let d = WwiseDep::read(&mut s, 77);
    assert_eq!(d.tag, 3);
    assert_eq!(d.data, "héllo!");
    assert!(!d.skip);
    assert_eq!(d.get_data(), bytes);
}

#[test]
fn an_invalid_dependency_name_is_decoded_lossily() {
    let mut s = MemoryStream::new(vec![0, 0, 0, 0, 2, 0, 0, 0, b'a', 0xFF]);
    assert_eq!(WwiseDep::read(&mut s, 1).data, "a\u{FFFD}");
}

#[test]
fn audio_sources_keep_their_first_payload() {
    let mut a = AudioSource::default();
    a.data = vec![1];
    a.short_id = 9;
    a.resource_id = 10;
    assert_eq!(a.id(), 9);
    a.set_data(vec![2], true);
    a.set_data(vec![3], true);
    assert_eq!(a.get_data(), &[3]);
    assert_eq!(a.data_old, vec![1]);
    assert!(a.modified);
    a.stream_type = 2;
    assert_eq!(a.id(), 10);
    let w = WwiseStream { file_id: 4, audio_source: a, modified: false };
    assert_eq!(w.id(), 4);
    assert_eq!(w.get_data(), &[3]);
}

#[test]
fn videos_give_their_replacement_once_set() {
    let mut v = VideoSource::from_original(3, 4, vec![1, 2, 3, 4]);
    assert_eq!(v.id(), 3);
    assert_eq!(v.get_data(), &[1, 2, 3, 4]);
    v.set_data(vec![9]);
    assert!(v.modified);
    assert_eq!(v.get_data(), &[9]);
}

#[test]
fn hierarchy_entries_round_trip() {
    let entries = vec![
        HircEntry::Opaque(OpaqueEntry { hierarchy_type: 2, size: 6, hierarchy_id: 100, misc: vec![7, 8] }),
        HircEntry::Opaque(OpaqueEntry { hierarchy_type: 11, size: 4, hierarchy_id: 200, misc: vec![] }),
    ];
    let bytes = hierarchy_data(&entries);
    assert_eq!(bytes.len(), 4 + 11 + 9);
    let back = parse_hierarchy_entries(&bytes).unwrap();
    assert_eq!(back.len(), 2);
    assert_eq!(back[0].id(), 100);
    assert_eq!(back[0].hierarchy_type(), 2);
    assert_eq!(back[1].id(), 200);
    assert_eq!(back[0].get_data(), entries[0].get_data());
    assert!(parse_hierarchy_entries(&bytes[..bytes.len() - 1]).is_none());
    assert!(parse_hierarchy_entries(&[1, 0]).is_none());
}

#[test]
fn bank_chunks_split_and_rebuild() {
    let mut bank = Vec::new();
    for (tag, payload) in [(b"BKHD", vec![0xAC ^ 154, 0xBC, 0x11, 0x92]), (b"HIRC", vec![0, 0, 0, 0]), (b"STMG", vec![5, 6])] {
        bank.extend_from_slice(tag);
        bank.extend_from_slice(&(payload.len() as u32).to_le_bytes());
        bank.extend_from_slice(&payload);
    }
    bank.extend_from_slice(b"ab");
    let chunks = split_chunks(&bank).unwrap();
    assert_eq!(chunks.len(), 3);
    assert_eq!(chunks[0].tag, "BKHD");
    assert_eq!(bank_version(&chunks[0].payload), BankVersion::V154);
    assert_eq!(bank_version(&[0, 0, 0, 0]), BankVersion::V140);
    assert_eq!(misc_chunk_data(&chunks), [b"STMG".to_vec(), vec![2, 0, 0, 0, 5, 6]].concat());
    let header = bank_header_chunk(&chunks[0].payload);
    assert_eq!(&header[0..8], &[b'B', b'K', b'H', b'D', 4, 0, 0, 0]);
    let rebuilt = bank_bytes(&header, &[0, 0, 0, 0], &misc_chunk_data(&chunks));
    assert_eq!(rebuilt, bank[..bank.len() - 2].to_vec());
    let mut short = bank.clone();
    short.truncate(10);
    assert!(split_chunks(&short).is_none());
    assert_eq!(split_chunks(&[0xFF, 0xFF, 0xFF, 0xFF, 1, 0, 0, 0]).unwrap().len(), 0);
}

#[test]
fn didx_entries_and_media() {
    let e = DidxEntry { id: 7, offset: 2, size: 3 };
    let bytes = e.get_data();
    assert_eq!(DidxEntry::from_bytes(&bytes), e);
    let media = media_items(&bytes, b"abcdef").unwrap();
    assert_eq!(media.len(), 1);
    assert_eq!(media[0].data, b"cde".to_vec());
    assert!(media_items(&bytes, b"abcd").is_none());
}

#[test]
fn small_parameter_records_round_trip() {
    let c = FxChunk { fx_index: 1, fx_id: 0x01020304, flags: FxChunkFlags::V140 { is_share_set: 5, is_rendered: 6 } };
    let b = c.get_data();
    assert_eq!(b, vec![1, 4, 3, 2, 1, 5, 6]);
    assert_eq!(FxChunk::read(&mut MemoryStream::new(b), BankVersion::V140), c);
    let c154 = FxChunk { fx_index: 1, fx_id: 2, flags: FxChunkFlags::V154 { bit_vector: 3 } };
    assert_eq!(FxChunk::read(&mut MemoryStream::new(c154.get_data()), BankVersion::V154), c154);

    let m = FxChunkMetadata { fx_index: 9, fx_id: 10, is_share_set: 1 };
    assert_eq!(FxChunkMetadata::read(&mut MemoryStream::new(m.get_data().to_vec())), m);

    let a = AdvSetting { bit_vector_adv: 1, virtual_queue_behavior: 2, max_num_instance: 0x0304, below_threshold_behavior: 5, bit_vector_hdr: 6 };
    assert_eq!(a.get_data(), [1, 2, 4, 3, 5, 6]);
    assert_eq!(AdvSetting::read(&mut MemoryStream::new(a.get_data().to_vec())), a);

    let s = StateProp { property_id: 1, accum_type: 2, in_db: 3 };
    assert_eq!(StateProp::read(&mut MemoryStream::new(s.get_data().to_vec())), s);

    let p = PlayListItem { play_id: 5, weight: -1 };
    assert_eq!(p.get_data(), [5, 0, 0, 0, 0xFF, 0xFF, 0xFF, 0xFF]);
    assert_eq!(PlayListItem::read(&mut MemoryStream::new(p.get_data().to_vec())), p);
}

#[test]
fn variable_parameter_records_round_trip() {
    let bytes = vec![2, 10, 11, 1, 2, 3, 4, 5, 6, 7, 8];
    let mut s = MemoryStream::new(bytes.clone());
    let pb = PropBundle::read(&mut s);
    assert_eq!(pb.ids, vec![10, 11]);
    assert_eq!(pb.values, vec![[1, 2, 3, 4], [5, 6, 7, 8]]);
    assert_eq!(pb.get_data(), bytes);

    let aux = vec![8, 1, 0, 0, 0, 2, 0, 0, 0, 3, 0, 0, 0, 4, 0, 0, 0, 9, 0, 0, 0];
    let mut s = MemoryStream::new(aux.clone());
    let a = AuxParams::read(&mut s);
    assert_eq!(a.aux_ids, vec![1, 2, 3, 4]);
    assert_eq!(a.reflection_aux_bus, 9);
    assert_eq!(a.get_data(), aux);
    let no_aux = vec![0, 9, 0, 0, 0];
    let a = AuxParams::read(&mut MemoryStream::new(no_aux.clone()));
    assert!(a.aux_ids.is_empty());
    assert_eq!(a.get_data(), no_aux);

    let cc = vec![2, 0, 0, 0, 7, 0, 0, 0, 8, 0, 0, 0];
    let c = ContainerChildren::read(&mut MemoryStream::new(cc.clone()));
    assert_eq!(c.children, vec![7, 8]);
    assert_eq!(c.get_data(), cc);
}

#[test]
fn bank_sources_round_trip_in_both_versions() {
    let v140 = vec![0x12, 0, 0, 0, 1, 2, 0, 0, 0, 3, 0, 0, 0, 4, 2, 0, 0, 0, 0xA, 0xB];
    let mut s = MemoryStream::new(v140.clone());
    let src = BankSourceStruct::read(&mut s, BankVersion::V140);
    assert_eq!(src.cache_id, None);
    assert_eq!(src.mem_size, 3);
    assert_eq!(src.plugin_data, vec![0xA, 0xB]);
    assert_eq!(src.get_data(), v140);
    let v154 = vec![0x11, 0, 0, 0, 1, 2, 0, 0, 0, 9, 0, 0, 0, 3, 0, 0, 0, 4];
    let src = BankSourceStruct::read(&mut MemoryStream::new(v154.clone()), BankVersion::V154);
    assert_eq!(src.cache_id, Some(9));
    assert!(src.plugin_data.is_empty());
    assert_eq!(src.get_data(), v154);
}

fn entry(id: u32, text: &str) -> StringEntry {
    StringEntry { string_id: id, text: text.to_string(), text_old: String::new(), modified: false }
}

#[test]
fn text_banks_round_trip() {
    let entries = vec![entry(1, "hi"), entry(2, "wörld")];
    let bytes = text_bank_bytes(3, &entries);
    assert_eq!(&bytes[0..8], &[0xae, 0xf3, 0x85, 0x3e, 1, 0, 0, 0]);
    assert_eq!(u32::from_le_bytes(bytes[8..12].try_into().unwrap()), 2);
    assert_eq!(u32::from_le_bytes(bytes[24..28].try_into().unwrap()), 32);
    assert_eq!(u32::from_le_bytes(bytes[28..32].try_into().unwrap()), 35);
    let (lang, back) = parse_text_bank(&bytes).unwrap();
    assert_eq!(lang, 3);
    assert_eq!(back.len(), 2);
    assert_eq!((back[0].string_id, back[0].text.as_str()), (1, "hi"));
    assert_eq!((back[1].string_id, back[1].text.as_str()), (2, "wörld"));
    assert!(parse_text_bank(&bytes[..bytes.len() - 1]).is_none());
}

#[test]
fn string_entries_take_replacements_once() {
    let mut e = entry(1, "a");
    assert!(!e.import_text("a"));
    assert!(!e.modified);
    assert!(e.import_text("b"));
    assert_eq!((e.text.as_str(), e.text_old.as_str(), e.modified), ("b", "a", true));
    assert!(!e.import_text("c"));
    assert_eq!((e.text.as_str(), e.text_old.as_str()), ("c", "a"));
    assert!(!e.import_text("a"));
    assert_eq!(e.text.as_str(), "c");
}

#[test]
fn bank_parser_keeps_the_last_chunk_of_a_tag() {
    let mut bank = Vec::new();
    for (tag, payload) in [(b"BKHD", vec![1u8]), (b"STMG", vec![2, 2]), (b"BKHD", vec![3, 3, 3])] {
        bank.extend_from_slice(tag);
        bank.extend_from_slice(&(payload.len() as u32).to_le_bytes());
        bank.extend_from_slice(&payload);
    }
    let parser = engine::wwise::bank::BankParser::load(&bank).unwrap();
    assert_eq!(parser.chunks.len(), 2);
    assert_eq!(parser.chunks[0].tag, "BKHD");
    assert_eq!(parser.get_chunk("BKHD"), &[3, 3, 3]);
    assert_eq!(parser.get_chunk("STMG"), &[2, 2]);
    assert!(parser.get_chunk("DIDX").is_empty());
    assert_eq!(parser.find("STMG"), Some(1));
    bank.truncate(bank.len() - 1);
    assert!(engine::wwise::bank::BankParser::load(&bank).is_none());
}
