use engine::results::{
    check_game_data_patch, format_patch_kind, game_data_patch_result, BatchResult, GroupOutcome,
};
use engine::settings::{check_language, Settings};
use engine::PatchKind;

fn settings(language: Option<&str>) -> Settings {
    Settings {
        game_root: Some("/games/Helldivers 2".to_string()),
        language: language.map(|l| l.to_string()),
        theme: Some("dark".to_string()),
        accent: Some("blue".to_string()),
    }
}

#[test]
fn config_keeps_english_and_passes_the_rest_through() {
    let c = settings(Some("en")).config(true, 42, false);
    assert_eq!(c.game_root_path.as_deref(), Some("/games/Helldivers 2"));
    assert!(c.game_root_valid);
    assert_eq!(c.language.as_deref(), Some("en"));
    assert_eq!(c.theme.as_deref(), Some("dark"));
    assert_eq!(c.accent.as_deref(), Some("blue"));
    assert_eq!(c.unit_count, 42);
    assert!(!c.resources_ready);
}

#[test]
fn config_drops_an_unsupported_language() {
    assert_eq!(settings(Some("de")).config(false, 0, true).language, None);
    assert_eq!(settings(Some("EN")).config(false, 0, true).language, None);
    assert_eq!(settings(None).config(false, 0, true).language, None);
}

#[test]
fn setting_the_game_root_keeps_the_other_settings() {
    let s = settings(Some("en")).with_game_root("/other");
    assert_eq!(s.game_root.as_deref(), Some("/other"));
    assert_eq!(s.language.as_deref(), Some("en"));
    assert_eq!(s.theme.as_deref(), Some("dark"));
    assert_eq!(s.accent.as_deref(), Some("blue"));
    let empty = Settings { game_root: None, language: None, theme: None, accent: None };
    assert_eq!(empty.with_game_root("/x").game_root.as_deref(), Some("/x"));
}

#[test]
fn only_english_is_a_supported_language() {
    assert_eq!(check_language("en"), Ok(()));
    assert_eq!(check_language("fr"), Err("Unsupported language: fr".to_string()));
    assert_eq!(check_language(""), Err("Unsupported language: ".to_string()));
}

#[test]
fn a_batch_counts_each_outcome() {
    let mut b = BatchResult::new("7".to_string(), "/mods".to_string(), 6);
    b.record_outcome(GroupOutcome::Updated(PatchKind::Unit));
    b.record_outcome(GroupOutcome::Updated(PatchKind::Audio));
    b.record_outcome(GroupOutcome::Updated(PatchKind::UnitAndAudio));
    b.record_outcome(GroupOutcome::Skipped(PatchKind::Other));
    b.record_failure("/mods/x.patch_0", "missing .stream");
    b.record_outcome(GroupOutcome::Updated(PatchKind::Other));
    assert_eq!(b.id, "7");
    assert_eq!(b.path, "/mods");
    assert_eq!(b.patches_found, 6);
    assert_eq!(b.updated, 2);
    assert_eq!(b.audio, 2);
    assert_eq!(b.skipped, 1);
    assert_eq!(b.corrupted, vec!["/mods/x.patch_0: missing .stream".to_string()]);
}

#[test]
fn patch_kinds_have_report_names() {
    assert_eq!(format_patch_kind(PatchKind::Unit), "unit");
    assert_eq!(format_patch_kind(PatchKind::Audio), "audio");
    assert_eq!(format_patch_kind(PatchKind::UnitAndAudio), "unit-and-audio");
    assert_eq!(format_patch_kind(PatchKind::Other), "other");
    assert_eq!(format_patch_kind(PatchKind::Corrupted), "corrupted");
}

#[test]
fn a_game_data_patch_is_refused_when_corrupted_or_skipped() {
    assert_eq!(check_game_data_patch("a.patch_0", PatchKind::Unit), Ok(()));
    assert_eq!(
        check_game_data_patch("a.patch_0", PatchKind::Corrupted),
        Err("patch 'a.patch_0' is malformed".to_string())
    );
    let skipped = game_data_patch_result("a.patch_0".to_string(), PatchKind::Other, GroupOutcome::Skipped(PatchKind::Other));
    assert_eq!(
        skipped.err(),
        Some("selected patch 'a.patch_0' has no unit or audio resources".to_string())
    );
    let done = game_data_patch_result(
        "a.patch_0".to_string(),
        PatchKind::UnitAndAudio,
        GroupOutcome::Updated(PatchKind::UnitAndAudio),
    )
    .ok()
    .unwrap();
    assert_eq!(done.main, "a.patch_0");
    assert_eq!(done.kind, "unit-and-audio");
}
