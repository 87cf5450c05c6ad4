use engine::patch::PatchOutcome;
use engine::results::{collect_patch_results, CliSummary, GroupOutcome, PatchItem};
use engine::PatchKind;

fn item(kind: PatchKind, outcome: PatchOutcome, name: &str) -> PatchItem {
    PatchItem { kind, outcome, name: name.to_string() }
}

#[test]
fn process_folder_aggregates_by_outcome() {
    let items = vec![
        item(PatchKind::Unit, PatchOutcome::Updated, "u.patch"),
        item(PatchKind::Other, PatchOutcome::NoUnits, "n.patch"),
        item(PatchKind::Corrupted, PatchOutcome::Corrupted, "c.patch"),
        item(PatchKind::Audio, PatchOutcome::NoUnits, "a.patch"),
        item(PatchKind::UnitAndAudio, PatchOutcome::Updated, "ua.patch"),
    ];
    let r = collect_patch_results(&items);
    assert_eq!(r.patches_found, 5);
    assert_eq!(r.updated, vec!["u.patch", "ua.patch"]);
    assert_eq!(r.no_units, vec!["n.patch"]);
    assert_eq!(r.corrupted_files, vec!["c.patch"]);
    assert_eq!(r.audio, vec!["a.patch", "ua.patch"]);
    assert!(r.directory.is_empty());
    assert!(r.audio_updated.is_empty() && r.audio_failed.is_empty());
}

#[test]
fn cli_summaries_record_each_group() {
    let mut s = CliSummary::new();
    s.record_outcome(&"a".to_string(), GroupOutcome::Updated(PatchKind::UnitAndAudio));
    s.record_outcome(&"b".to_string(), GroupOutcome::Updated(PatchKind::Audio));
    s.record_outcome(&"c".to_string(), GroupOutcome::Skipped(PatchKind::Other));
    s.record_failure("d", "boom");
    assert_eq!(s.updated, vec!["a"]);
    assert_eq!(s.audio_updated, vec!["a", "b"]);
    assert_eq!(s.no_units, vec!["c"]);
    assert_eq!(s.corrupted, vec!["d: boom"]);
}
