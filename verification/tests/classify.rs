use engine::{
    classify_patch_bytes, PatchKind, BINK_VIDEO, TEXT_BANK, UNIT_TYPE_ID, WWISE_BANK, WWISE_DEP,
    WWISE_STREAM,
};

/// A patch holding only a main header and the given type entries: the
/// 72-byte header (type count at 4), then 32-byte entries (8 padding bytes,
/// type id, count, 8 padding bytes).
fn build(type_ids: &[u64]) -> Vec<u8> {
    let mut out = Vec::new();
    out.extend_from_slice(&0xF000_0011u32.to_le_bytes());
    out.extend_from_slice(&(type_ids.len() as u32).to_le_bytes());
    out.extend_from_slice(&0u32.to_le_bytes());
    out.resize(72, 0);
    for &t in type_ids {
        out.extend_from_slice(&[0u8; 8]);
        out.extend_from_slice(&t.to_le_bytes());
        out.extend_from_slice(&1u64.to_le_bytes());
        out.extend_from_slice(&[0u8; 8]);
    }
    out
}

fn classify(type_ids: &[u64]) -> PatchKind {
    classify_patch_bytes(&build(type_ids))
}

#[test]
fn audio_only_is_audio() {
    assert_eq!(classify(&[WWISE_BANK, WWISE_STREAM]), PatchKind::Audio);
    assert_eq!(classify(&[WWISE_DEP]), PatchKind::Audio);
    assert_eq!(classify(&[TEXT_BANK]), PatchKind::Audio);
    assert_eq!(classify(&[BINK_VIDEO]), PatchKind::Audio);
}

#[test]
fn unit_only_is_unit() {
    assert_eq!(classify(&[UNIT_TYPE_ID]), PatchKind::Unit);
}

#[test]
fn mixed_unit_and_audio_is_unit_and_audio() {
    assert_eq!(classify(&[UNIT_TYPE_ID, WWISE_BANK]), PatchKind::UnitAndAudio);
    assert_eq!(
        classify(&[WWISE_STREAM, 0x1234_5678_9ABCu64, UNIT_TYPE_ID]),
        PatchKind::UnitAndAudio
    );
}

#[test]
fn neither_is_other() {
    assert_eq!(classify(&[0x1234_5678_9ABCu64]), PatchKind::Other);
    assert_eq!(classify(&[]), PatchKind::Other);
}

#[test]
fn small_type_id_is_corrupted() {
    assert_eq!(classify(&[0x42]), PatchKind::Corrupted);
}

#[test]
fn truncated_header_is_corrupted() {
    assert_eq!(classify_patch_bytes(&[0x11, 0, 0, 0xF0, 1]), PatchKind::Corrupted);
    let mut cut = build(&[WWISE_BANK]);
    cut.truncate(85);
    assert_eq!(classify_patch_bytes(&cut), PatchKind::Corrupted);
}
