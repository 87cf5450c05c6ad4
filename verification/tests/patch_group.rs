use engine::patch_group::{
    is_main_patch_file, main_name_for, main_path_for, required_companions, resolve_patch_file_group,
    validate_companion_lengths, Companion, PatchFileGroup,
};

fn put_u32(v: &mut [u8], at: usize, x: u32) {
    v[at..at + 4].copy_from_slice(&x.to_le_bytes());
}

fn put_u64(v: &mut [u8], at: usize, x: u64) {
    v[at..at + 8].copy_from_slice(&x.to_le_bytes());
}

/// A main file with no types and one TOC entry whose stream and GPU ranges
/// are given.
fn main_with(stream: (u64, u32), gpu: (u64, u32)) -> Vec<u8> {
    let mut v = vec![0u8; 72 + 80];
    put_u32(&mut v, 8, 1);
    put_u64(&mut v, 72 + 24, stream.0);
    put_u32(&mut v, 72 + 60, stream.1);
    put_u64(&mut v, 72 + 32, gpu.0);
    put_u32(&mut v, 72 + 64, gpu.1);
    v
}

#[test]
fn main_patch_names() {
    assert!(is_main_patch_file("mod.patch_0"));
    assert!(is_main_patch_file("mod.patch_12"));
    assert!(is_main_patch_file("mod.patch"));
    assert!(!is_main_patch_file("mod.patch_"));
    assert!(!is_main_patch_file("mod.patch_1a"));
    assert!(!is_main_patch_file("mod.patch_0.stream"));
    assert!(!is_main_patch_file("mod.patch_0.gpu_resources"));
    assert!(!is_main_patch_file(".patch_0"));
    assert!(!is_main_patch_file("patch_0"));
}

#[test]
fn patch_file_discovery_excludes_companions() {
    let names = ["only.patch_0", "only.patch_0.stream", "only.patch_0.gpu_resources"];
    let mains: Vec<&str> = names.iter().copied().filter(|n| is_main_patch_file(n)).collect();
    assert_eq!(mains, vec!["only.patch_0"]);
}

#[test]
fn a_sidecar_names_its_main_patch() {
    assert_eq!(main_name_for("chosen.patch_7.stream", "x").unwrap(), "chosen.patch_7");
    assert_eq!(main_name_for("chosen.patch_7.gpu_resources", "x").unwrap(), "chosen.patch_7");
    assert_eq!(main_name_for("chosen.patch_7", "x").unwrap(), "chosen.patch_7");
    let err = main_name_for("notes.txt", "dir/notes.txt").unwrap_err();
    assert_eq!(err.message(), "'dir/notes.txt' is not a `.patch_N` file or a matching companion");
}

#[test]
fn main_paths_keep_their_folder() {
    assert_eq!(main_path_for("a/b/chosen.patch_7.stream", "chosen.patch_7.stream", false).unwrap(), "a/b/chosen.patch_7");
    let err = main_path_for("a/b", "b", true).unwrap_err();
    assert_eq!(err.message(), "'a/b' is a directory, not a patch file");
}

#[test]
fn required_companions_follow_the_entries() {
    assert_eq!(required_companions(&main_with((0, 0), (0, 0)), "m").unwrap(), (false, false));
    assert_eq!(required_companions(&main_with((0, 4), (0, 0)), "m").unwrap(), (true, false));
    assert_eq!(required_companions(&main_with((0, 0), (0, 4)), "m").unwrap(), (false, true));
    let err = required_companions(&[0u8; 10], "m.patch_0").unwrap_err();
    assert_eq!(err.message(), "patch 'm.patch_0' has a truncated header");
    let mut cut = main_with((0, 0), (0, 0));
    cut.truncate(100);
    let err = required_companions(&cut, "m.patch_0").unwrap_err();
    assert_eq!(err.message(), "patch 'm.patch_0' has a truncated file table");
    let mut outside = main_with((0, 0), (0, 0));
    put_u64(&mut outside, 72 + 16, 140);
    put_u32(&mut outside, 72 + 56, 20);
    let err = required_companions(&outside, "m.patch_0").unwrap_err();
    assert_eq!(err.message(), "patch 'm.patch_0' has a TOC resource outside the file");
}

#[test]
fn companion_lengths_are_checked() {
    let data = main_with((8, 8), (0, 4));
    assert!(validate_companion_lengths(&data, "m", Some(16), Some(4)).is_ok());
    let err = validate_companion_lengths(&data, "m", Some(15), Some(4)).unwrap_err();
    assert_eq!(err.message(), "patch 'm' references stream data outside its companion");
    let err = validate_companion_lengths(&data, "m", Some(16), None).unwrap_err();
    assert_eq!(err.message(), "patch 'm' references GPU data outside its companion");
    let huge = main_with((u64::MAX, 8), (0, 0));
    let err = validate_companion_lengths(&huge, "m", Some(u64::MAX - 1), None).unwrap_err();
    assert_eq!(err.message(), "patch 'm' references stream data outside its companion");
}

#[test]
fn patch_group_resolves_main_and_both_companions_to_one_group() {
    let data = main_with((0, 4), (0, 4));
    for (path, name) in [
        ("d/chosen.patch_7", "chosen.patch_7"),
        ("d/chosen.patch_7.stream", "chosen.patch_7.stream"),
        ("d/chosen.patch_7.gpu_resources", "chosen.patch_7.gpu_resources"),
    ] {
        let g = PatchFileGroup::resolve(path, name, false, true, &data, Companion::File(4), Companion::File(4)).unwrap();
        assert_eq!(g.main, "d/chosen.patch_7");
        assert_eq!(g.stream.as_deref(), Some("d/chosen.patch_7.stream"));
        assert_eq!(g.gpu_resources.as_deref(), Some("d/chosen.patch_7.gpu_resources"));
        assert_eq!(
            g.existing_paths(),
            vec![
                "d/chosen.patch_7".to_string(),
                "d/chosen.patch_7.stream".to_string(),
                "d/chosen.patch_7.gpu_resources".to_string()
            ]
        );
    }
}

#[test]
fn patch_group_reports_missing_required_companion_before_mutation() {
    let data = main_with((0, 4), (0, 0));
    let err = resolve_patch_file_group(
        "missing.patch_0",
        "missing.patch_0",
        false,
        true,
        &data,
        Companion::Missing,
        Companion::Missing,
    )
    .unwrap_err();
    assert!(err.message().contains("missing required companion"));
    assert_eq!(
        err.message(),
        "main patch 'missing.patch_0' references missing required companion 'missing.patch_0.stream'"
    );
}

#[test]
fn optional_companions_may_be_absent_but_must_be_files() {
    let data = main_with((0, 0), (0, 0));
    let g = PatchFileGroup::from_main("m.patch_0", "m.patch_0", false, true, &data, Companion::Missing, Companion::Missing).unwrap();
    assert_eq!(g.stream, None);
    assert_eq!(g.existing_paths(), vec!["m.patch_0".to_string()]);
    let err = PatchFileGroup::resolve("m.patch_0", "m.patch_0", false, true, &data, Companion::NotAFile, Companion::Missing).unwrap_err();
    assert_eq!(err.message(), "companion 'm.patch_0.stream' is not a file");
    let err = PatchFileGroup::resolve("m.patch_0", "m.patch_0", false, false, &data, Companion::Missing, Companion::Missing).unwrap_err();
    assert_eq!(err.message(), "required main patch 'm.patch_0' does not exist");
}

#[test]
fn companion_path_appends_the_suffix() {
    assert_eq!(engine::patch_group::companion_path("a/m.patch_0", ".stream"), "a/m.patch_0.stream");
}

fn group(main: &str, stream: Option<&str>, gpu: Option<&str>) -> engine::patch_group::PatchFileGroup {
    engine::patch_group::PatchFileGroup {
        main: main.to_string(),
        stream: stream.map(|s| s.to_string()),
        gpu_resources: gpu.map(|s| s.to_string()),
    }
}

#[test]
fn commit_plan_maps_staged_files_onto_the_originals() {
    let original = group("/m/a.patch_0", Some("/m/a.patch_0.stream"), None);
    let staged = group("/s/a.patch_0", Some("/s/a.patch_0.stream"), Some("/s/a.patch_0.gpu_resources"));
    let plan = engine::patch_group::commit_plan(&original, &staged, "/s/a.patch_0").unwrap();
    assert_eq!(
        plan,
        vec![
            ("/s/a.patch_0".to_string(), "/m/a.patch_0".to_string()),
            ("/s/a.patch_0.stream".to_string(), "/m/a.patch_0.stream".to_string()),
            ("/s/a.patch_0.gpu_resources".to_string(), "/m/a.patch_0.gpu_resources".to_string()),
        ]
    );
}

#[test]
fn commit_plan_refuses_a_lost_sidecar() {
    let original = group("/m/a.patch_0", Some("/m/a.patch_0.stream"), Some("/m/a.patch_0.gpu_resources"));
    let no_stream = group("/s/a.patch_0", None, Some("/s/a.patch_0.gpu_resources"));
    let err = engine::patch_group::commit_plan(&original, &no_stream, "/s/a.patch_0").unwrap_err();
    assert_eq!(err, "staging unexpectedly removed the original `.stream` companion");
    let no_gpu = group("/s/a.patch_0", Some("/s/a.patch_0.stream"), None);
    let err = engine::patch_group::commit_plan(&original, &no_gpu, "/s/a.patch_0").unwrap_err();
    assert_eq!(err, "staging unexpectedly removed the original `.gpu_resources` companion");
}
