use engine::memstream::MemoryStream;
use engine::wwise::base_param::BaseParam;
use engine::wwise::containers::RandomSequenceContainer;
use engine::wwise::hierarchy::BankVersion;
use engine::wwise::music_segment::{MusicSegment, MusicSegmentHead};
use engine::wwise::music_track::{MusicTrack, MusicTrackBody, TrackInfoStruct};
use engine::wwise::sound::Sound;

fn u16le(v: &mut Vec<u8>, x: u16) {
    v.extend_from_slice(&x.to_le_bytes());
}

fn u32le(v: &mut Vec<u8>, x: u32) {
    v.extend_from_slice(&x.to_le_bytes());
}

/// A parameter block with one property, one ranged property, 3D positioning
/// with an automation path, aux sends, one state group and one RTPC curve.
/// With `fx`, it has one FX chunk and a bypass byte of 1.
fn base_param_bytes(version: BankVersion, fx: bool, parent: u32, prop_value: [u8; 4]) -> Vec<u8> {
    let mut v = vec![0x01];
    if fx {
        v.push(1); // one FX chunk
        v.push(1); // bypass byte
        v.push(0); // fx index
        u32le(&mut v, 0xABCD);
        match version {
            BankVersion::V140 => v.extend_from_slice(&[1, 0]),
            BankVersion::V154 => v.push(3),
        }
    } else {
        v.push(0);
    }
    v.push(0); // override parent metadata
    v.push(1); // one metadata record
    v.extend_from_slice(&[2, 9, 9, 9, 9, 1]);
    if version == BankVersion::V140 {
        v.push(7); // override attachment params
    }
    u32le(&mut v, 0x1122_3344); // bus
    u32le(&mut v, parent);
    v.push(0x02); // bit vector A
    v.extend_from_slice(&[1, 0x05]);
    v.extend_from_slice(&prop_value);
    v.extend_from_slice(&[1, 0x06]);
    u32le(&mut v, 0x3F80_0000);
    u32le(&mut v, 0x4000_0000);
    // positioning: positioning, 3D, automation type 1
    v.push(0b0010_0011);
    v.push(0x10); // 3D bits
    v.push(0x01); // path mode
    u32le(&mut v, 500); // transition time
    u32le(&mut v, 1); // one vertex
    v.extend_from_slice(&[0xAA; 16]);
    u32le(&mut v, 1); // one playlist item
    v.extend_from_slice(&[0xBB; 8]);
    v.extend_from_slice(&[0xCC; 12]);
    // aux: bit 3 set, four ids, reflection bus
    v.push(0x08);
    for id in [1u32, 2, 3, 4] {
        u32le(&mut v, id);
    }
    u32le(&mut v, 99);
    // advanced settings
    v.extend_from_slice(&[1, 2]);
    u16le(&mut v, 300);
    v.extend_from_slice(&[3, 4]);
    // state params: one state prop, one group with one state
    v.push(1);
    v.extend_from_slice(&[1, 2, 3]);
    v.push(1);
    u32le(&mut v, 0x5555);
    v.push(0); // sync type
    v.push(1); // one state
    match version {
        BankVersion::V140 => {
            u32le(&mut v, 0x66);
            u32le(&mut v, 0x77);
        }
        BankVersion::V154 => {
            u32le(&mut v, 0x66);
            u16le(&mut v, 1);
            u16le(&mut v, 0x0003);
            u32le(&mut v, 0x3F00_0000);
        }
    }
    // one RTPC curve with one point
    u16le(&mut v, 1);
    u32le(&mut v, 0x7777);
    v.extend_from_slice(&[1, 2, 3]);
    u32le(&mut v, 0x8888);
    v.push(4);
    u16le(&mut v, 1);
    u32le(&mut v, 0);
    u32le(&mut v, 0x3F80_0000);
    u32le(&mut v, 4);
    v
}

fn read_base_param(bytes: &[u8], version: BankVersion) -> (BaseParam, usize) {
    let mut s = MemoryStream::new(bytes.to_vec());
    let b = BaseParam::read(&mut s, version);
    (b, s.tell())
}

#[test]
fn base_param_v140_round_trip() {
    let bytes = base_param_bytes(BankVersion::V140, true, 0x0A0B_0C0D, [1, 2, 3, 4]);
    let (b, end) = read_base_param(&bytes, BankVersion::V140);
    assert_eq!(end, bytes.len());
    assert_eq!(b.bypass_all, 1);
    assert_eq!(b.fx_chunks.len(), 1);
    assert_eq!(b.override_attachment_params, Some(7));
    assert_eq!(b.direct_parent_id, 0x0A0B_0C0D);
    assert_eq!(b.prop_bundle.ids, vec![0x05]);
    assert_eq!(b.ranged_prop_bundle.ranged_values, vec![(0x3F80_0000, 0x4000_0000)]);
    assert_eq!(b.positioning_param_data.len(), 1 + 1 + 1 + 4 + 4 + 16 + 4 + 20);
    assert_eq!(b.aux_params.aux_ids, vec![1, 2, 3, 4]);
    assert_eq!(b.adv_setting.max_num_instance, 300);
    assert_eq!(b.state_params.state_groups.len(), 1);
    assert_eq!(b.rtpcs.len(), 1);
    assert_eq!(b.rtpcs[0].graph_points.len(), 1);
    assert_eq!(b.get_data(), bytes);
}

#[test]
fn base_param_v154_clears_bypass_byte() {
    let bytes = base_param_bytes(BankVersion::V154, true, 0x0A0B_0C0D, [1, 2, 3, 4]);
    let (b, end) = read_base_param(&bytes, BankVersion::V154);
    assert_eq!(end, bytes.len());
    assert_eq!(b.bypass_all, 0);
    assert_eq!(b.override_attachment_params, None);
    let mut expected = bytes.clone();
    expected[2] = 0;
    assert_eq!(b.get_data(), expected);
}

#[test]
fn base_param_v154_without_fx_round_trips() {
    let bytes = base_param_bytes(BankVersion::V154, false, 7, [1, 2, 3, 4]);
    let (b, end) = read_base_param(&bytes, BankVersion::V154);
    assert_eq!(end, bytes.len());
    assert!(b.fx_chunks.is_empty());
    assert_eq!(b.get_data(), bytes);
}

#[test]
fn positioning_without_3d_is_one_byte() {
    let mut bytes = base_param_bytes(BankVersion::V140, false, 1, [0; 4]);
    // Positioning starts after the head (20 bytes), the property bundle (6)
    // and the ranged bundle (10); keep only its first byte, with 3D off.
    let pos = 20 + 6 + 10;
    assert_eq!(bytes[pos], 0b0010_0011);
    bytes[pos] = 0b0000_0001;
    bytes.drain(pos + 1..pos + 1 + 50);
    let (b, end) = read_base_param(&bytes, BankVersion::V140);
    assert_eq!(end, bytes.len());
    assert_eq!(b.positioning_param_data, vec![0b0000_0001]);
    assert_eq!(b.get_data(), bytes);
}

fn rsc_body(version: BankVersion, id: u32, parent: u32, prop: [u8; 4], loop_count: u16, children: &[u32]) -> Vec<u8> {
    let mut v = Vec::new();
    u32le(&mut v, id);
    v.extend_from_slice(&base_param_bytes(version, false, parent, prop));
    u16le(&mut v, loop_count);
    v.extend_from_slice(&[0; 22]);
    u32le(&mut v, children.len() as u32);
    for c in children {
        u32le(&mut v, *c);
    }
    u16le(&mut v, children.len() as u16);
    for c in children {
        u32le(&mut v, *c);
        u32le(&mut v, 50000);
    }
    v
}

fn read_rsc(body: &[u8], version: BankVersion) -> RandomSequenceContainer {
    let mut s = MemoryStream::new(body.to_vec());
    RandomSequenceContainer::read(&mut s, body.len() as u32, version)
}

#[test]
fn random_sequence_container_round_trip() {
    let body = rsc_body(BankVersion::V140, 42, 1, [1, 1, 1, 1], 3, &[10, 11]);
    let r = read_rsc(&body, BankVersion::V140);
    assert_eq!(r.hierarchy_id, 42);
    assert_eq!(r.play_list_setting.loop_count, 3);
    assert_eq!(r.children.children, vec![10, 11]);
    assert_eq!(r.play_list_items.len(), 2);
    let mut expected = vec![5u8];
    u32le(&mut expected, body.len() as u32);
    expected.extend_from_slice(&body);
    assert_eq!(r.get_data(), expected);
}

#[test]
fn random_sequence_container_import_v140_takes_everything() {
    let base = read_rsc(&rsc_body(BankVersion::V140, 42, 1, [1, 1, 1, 1], 3, &[10]), BankVersion::V140);
    let other_body = rsc_body(BankVersion::V140, 43, 2, [2, 2, 2, 2], 9, &[20, 21, 22]);
    let other = read_rsc(&other_body, BankVersion::V140);
    let mut merged = base;
    merged.import_entry(other, BankVersion::V140);
    assert_eq!(merged.hierarchy_id, 42);
    assert_eq!(merged.base_param.direct_parent_id, 2);
    assert_eq!(merged.children.children, vec![20, 21, 22]);
    assert_eq!(merged.play_list_setting.loop_count, 9);
    assert_eq!(merged.size as usize, other_body.len());
}

#[test]
fn random_sequence_container_import_v154_takes_props_and_settings() {
    let base = read_rsc(&rsc_body(BankVersion::V154, 42, 1, [1, 1, 1, 1], 3, &[10]), BankVersion::V154);
    let other = read_rsc(&rsc_body(BankVersion::V154, 43, 2, [2, 2, 2, 2], 9, &[20, 21]), BankVersion::V154);
    let mut merged = base;
    merged.import_entry(other, BankVersion::V154);
    assert_eq!(merged.base_param.direct_parent_id, 1);
    assert_eq!(merged.base_param.prop_bundle.values, vec![[2, 2, 2, 2]]);
    assert_eq!(merged.children.children, vec![10]);
    assert_eq!(merged.play_list_items.len(), 1);
    assert_eq!(merged.play_list_setting.loop_count, 9);
    let data = merged.get_data();
    assert_eq!(data.len(), 5 + merged.size as usize);
}

fn sound_body(version: BankVersion, id: u32, source_id: u32, prop: [u8; 4]) -> Vec<u8> {
    let mut v = Vec::new();
    u32le(&mut v, id);
    u32le(&mut v, 0x0004_0001); // Vorbis: no plugin data
    v.push(1);
    u32le(&mut v, source_id);
    if version == BankVersion::V154 {
        u32le(&mut v, 0x1234);
    }
    u32le(&mut v, 2048);
    v.push(0);
    v.extend_from_slice(&base_param_bytes(version, false, 5, prop));
    v
}

fn read_sound(body: &[u8], version: BankVersion) -> Sound {
    let mut s = MemoryStream::new(body.to_vec());
    Sound::read(&mut s, body.len() as u32, version)
}

#[test]
fn sound_round_trip_v154() {
    let body = sound_body(BankVersion::V154, 7, 99, [0; 4]);
    let s = read_sound(&body, BankVersion::V154);
    assert_eq!(s.sources.len(), 1);
    assert_eq!(s.sources[0].source_id, 99);
    assert_eq!(s.sources[0].cache_id, Some(0x1234));
    let mut expected = vec![2u8];
    u32le(&mut expected, body.len() as u32);
    expected.extend_from_slice(&body);
    assert_eq!(s.get_data(), expected);
}

#[test]
fn sound_import_by_version() {
    let base = read_sound(&sound_body(BankVersion::V140, 7, 99, [0; 4]), BankVersion::V140);
    let other = read_sound(&sound_body(BankVersion::V140, 8, 100, [9; 4]), BankVersion::V140);
    let mut merged = base;
    merged.import_entry(other, BankVersion::V140);
    assert_eq!(merged.hierarchy_id, 7);
    assert_eq!(merged.sources[0].source_id, 100);

    let base = read_sound(&sound_body(BankVersion::V154, 7, 99, [0; 4]), BankVersion::V154);
    let other = read_sound(&sound_body(BankVersion::V154, 8, 100, [9; 4]), BankVersion::V154);
    let mut merged = base;
    merged.import_entry(other, BankVersion::V154);
    assert_eq!(merged.sources[0].source_id, 99);
    assert_eq!(merged.base_param.prop_bundle.values, vec![[9; 4]]);
    assert_eq!(merged.size as usize, sound_body(BankVersion::V154, 7, 99, [9; 4]).len());
}

fn segment_body(version: BankVersion, id: u32, tracks: &[u32], duration: f64, marker_name: &[u8]) -> Vec<u8> {
    let mut v = Vec::new();
    u32le(&mut v, id);
    match version {
        BankVersion::V140 => {
            v.extend_from_slice(&[0xEE; 10]);
            u32le(&mut v, 0x2020);
            v.push(0x01);
            v.extend_from_slice(&[1, 3, 0, 0, 0, 0]); // one property
            v.extend_from_slice(&[0]); // no properties
            v.extend_from_slice(&[0xDD; 16]);
        }
        BankVersion::V154 => {
            v.push(0x04);
            v.extend_from_slice(&base_param_bytes(version, false, 0x2020, [0; 4]));
        }
    }
    u32le(&mut v, tracks.len() as u32);
    for t in tracks {
        u32le(&mut v, *t);
    }
    v.extend_from_slice(&[0x33; 23]);
    u32le(&mut v, 1); // one stinger
    v.extend_from_slice(&[0x44; 24]);
    v.extend_from_slice(&duration.to_le_bytes());
    u32le(&mut v, 1); // one marker
    u32le(&mut v, 0x99);
    v.extend_from_slice(&1.5f64.to_le_bytes());
    v.extend_from_slice(marker_name);
    v
}

fn read_segment(body: &[u8], version: BankVersion) -> MusicSegment {
    let mut s = MemoryStream::new(body.to_vec());
    let seg = MusicSegment::read(&mut s, body.len() as u32, version);
    assert_eq!(s.tell(), body.len());
    seg
}

#[test]
fn music_segment_round_trip_both_versions() {
    for version in [BankVersion::V140, BankVersion::V154] {
        let body = segment_body(version, 3, &[1, 2], 2.0, b"intro\0");
        let seg = read_segment(&body, version);
        assert_eq!(seg.tracks, vec![1, 2]);
        assert_eq!(seg.duration, 2.0f64.to_bits());
        assert_eq!(seg.markers.len(), 1);
        assert_eq!(seg.markers[0].name, b"intro\0".to_vec());
        assert_eq!(seg.stingers.len(), 28);
        let mut expected = vec![10u8];
        u32le(&mut expected, body.len() as u32);
        expected.extend_from_slice(&body);
        assert_eq!(seg.get_data(), expected);
    }
}

#[test]
fn music_segment_import_by_version() {
    let base = read_segment(&segment_body(BankVersion::V140, 3, &[1], 2.0, b"a\0"), BankVersion::V140);
    let mut other_bytes = segment_body(BankVersion::V140, 4, &[5, 6, 7], 9.0, b"bbb\0");
    other_bytes[4 + 10] = 0x21; // another parent id
    let other = read_segment(&other_bytes, BankVersion::V140);
    let mut merged = base;
    merged.import_entry(other, BankVersion::V140);
    assert_eq!(merged.hierarchy_id, 3);
    assert_eq!(merged.tracks, vec![5, 6, 7]);
    match &merged.head {
        MusicSegmentHead::V140 { parent_id, .. } => assert_eq!(*parent_id, 0x2021),
        MusicSegmentHead::V154 { .. } => panic!("head changed shape"),
    }
    assert_eq!(merged.size as usize, other_bytes.len());

    let base = read_segment(&segment_body(BankVersion::V154, 3, &[1], 2.0, b"a\0"), BankVersion::V154);
    let other = read_segment(&segment_body(BankVersion::V154, 4, &[5, 6], 9.0, b"bbb\0"), BankVersion::V154);
    let mut merged = base;
    merged.import_entry(other, BankVersion::V154);
    assert_eq!(merged.tracks, vec![5, 6]);
    assert_eq!(merged.duration, 9.0f64.to_bits());
    assert_eq!(merged.markers[0].name, b"bbb\0".to_vec());
    assert_eq!(merged.size as usize, segment_body(BankVersion::V154, 3, &[5, 6], 9.0, b"bbb\0").len());
}

fn track_info_bytes(v: &mut Vec<u8>, version: BankVersion, track_id: u32, source_id: u32, event_id: u32, play_at: f64) {
    u32le(v, track_id);
    u32le(v, source_id);
    if version == BankVersion::V154 {
        u32le(v, 0x77);
    }
    u32le(v, event_id);
    v.extend_from_slice(&play_at.to_le_bytes());
    v.extend_from_slice(&0.0f64.to_le_bytes());
    v.extend_from_slice(&0.0f64.to_le_bytes());
    v.extend_from_slice(&10.0f64.to_le_bytes());
}

fn track_body(version: BankVersion, id: u32, infos: &[(u32, u32, u32, f64)], misc: &[u8]) -> Vec<u8> {
    let mut v = Vec::new();
    u32le(&mut v, id);
    let source = |v: &mut Vec<u8>| {
        u32le(v, 0x0004_0001);
        v.push(1);
        u32le(v, 500);
        if version == BankVersion::V154 {
            u32le(v, 0x1234);
        }
        u32le(v, 4096);
        v.push(0);
    };
    match version {
        BankVersion::V140 => {
            v.push(0x01);
            u32le(&mut v, 1);
            source(&mut v);
            u32le(&mut v, infos.len() as u32);
            for (t, s, e, p) in infos {
                track_info_bytes(&mut v, version, *t, *s, *e, *p);
            }
            v.extend_from_slice(&[0x55; 4]);
            u32le(&mut v, 1); // one clip automation
            u32le(&mut v, 0);
            u32le(&mut v, 2);
            u32le(&mut v, 1);
            u32le(&mut v, 0x3F80_0000);
            u32le(&mut v, 0x4000_0000);
            u32le(&mut v, 1);
            v.extend_from_slice(&[0x66; 5]);
            u32le(&mut v, 0xB05);
            u32le(&mut v, 0xFA7);
        }
        BankVersion::V154 => {
            u32le(&mut v, 1);
            source(&mut v);
            v.push(0x02);
            u32le(&mut v, infos.len() as u32);
            for (t, s, e, p) in infos {
                track_info_bytes(&mut v, version, *t, *s, *e, *p);
            }
            if !infos.is_empty() {
                v.extend_from_slice(&[0x55; 4]);
            }
            u32le(&mut v, 0); // no clip automations
            v.extend_from_slice(&base_param_bytes(version, false, 1, [0; 4]));
            v.push(0x03);
        }
    }
    v.extend_from_slice(misc);
    v
}

fn read_track(body: &[u8], version: BankVersion) -> MusicTrack {
    let mut s = MemoryStream::new(body.to_vec());
    let t = MusicTrack::read(&mut s, body.len() as u32, version);
    assert_eq!(s.tell(), body.len());
    t
}

#[test]
fn music_track_round_trip_both_versions() {
    for version in [BankVersion::V140, BankVersion::V154] {
        let body = track_body(version, 12, &[(1, 500, 0, 0.0), (2, 0, 77, 1.0)], &[9, 9, 9]);
        let t = read_track(&body, version);
        assert_eq!(t.hierarchy_id, 12);
        assert_eq!(t.sources.len(), 1);
        assert_eq!(t.track_info.len(), 2);
        assert_eq!(t.misc, vec![9, 9, 9]);
        let mut expected = vec![11u8];
        u32le(&mut expected, body.len() as u32);
        expected.extend_from_slice(&body);
        assert_eq!(t.get_data(), expected);
    }
}

#[test]
fn music_track_v140_import_keeps_bus() {
    let base = read_track(&track_body(BankVersion::V140, 12, &[(1, 500, 0, 0.0)], &[]), BankVersion::V140);
    let mut other_body = track_body(BankVersion::V140, 13, &[(3, 600, 0, 2.0), (4, 0, 0, 0.0)], &[1]);
    let bus_at = other_body.len() - 1 - 8;
    other_body[bus_at] = 0x06;
    let other = read_track(&other_body, BankVersion::V140);
    let mut merged = base;
    merged.import_entry(other, BankVersion::V140);
    assert_eq!(merged.track_info.len(), 2);
    assert_eq!(merged.misc, vec![1]);
    match &merged.body {
        MusicTrackBody::V140 { override_bus_id, parent_id, .. } => {
            assert_eq!(*override_bus_id, 0xB05);
            assert_eq!(*parent_id, 0xFA7);
        }
        MusicTrackBody::V154 { .. } => panic!("body changed shape"),
    }
}

#[test]
fn music_track_v154_import_matches_infos_by_source_or_event() {
    let base_body = track_body(BankVersion::V154, 12, &[(1, 500, 0, 0.0), (2, 0, 77, 1.0), (3, 0, 0, 3.0)], &[]);
    let base = read_track(&base_body, BankVersion::V154);
    let other = read_track(
        &track_body(BankVersion::V154, 13, &[(8, 0, 77, 5.0), (9, 500, 0, 6.0), (10, 0, 0, 7.0)], &[]),
        BankVersion::V154,
    );
    let mut merged = base;
    merged.import_entry(other, BankVersion::V154);
    assert_eq!(merged.track_info[0].track_id, 9);
    assert_eq!(merged.track_info[0].play_at, 6.0f64.to_bits());
    assert_eq!(merged.track_info[1].track_id, 8);
    assert_eq!(merged.track_info[2].track_id, 3);
    assert_eq!(merged.size as usize, base_body.len());
}

#[test]
fn track_info_import_takes_every_field() {
    let mut bytes = Vec::new();
    track_info_bytes(&mut bytes, BankVersion::V154, 1, 2, 3, 4.0);
    let mut s = MemoryStream::new(bytes.clone());
    let a = TrackInfoStruct::read(&mut s, BankVersion::V154);
    let mut b = TrackInfoStruct {
        track_id: 0,
        source_id: 0,
        cache_id: None,
        event_id: 0,
        play_at: 0,
        begin_trim_offset: 0,
        end_trim_offset: 0,
        source_duration: 0,
    };
    b.import_entry(&a);
    assert_eq!(b, a);
    assert_eq!(b.get_data(), bytes);
}
