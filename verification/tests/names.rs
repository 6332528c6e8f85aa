use patch_crate::controller::{dedup_by_name, select_mode, strip_self_token, Mode};
use patch_crate::error::PatchError;
use patch_crate::patch_name::{format_patch_file_name, has_patch_extension, parse_patch_file_name};
use patch_crate::pkg::{slug_of, PackageRef, Target};
use patch_crate::staging::{
    copy_decision, patch_file_path, patch_target_folder, patch_target_path,
    patch_target_tmp_folder, patch_target_tmp_path, patches_folder, CopyAction,
};

fn target(name: &str, version: &str, root: &str) -> Target {
    Target::new(PackageRef {
        name: name.to_string(),
        version: version.to_string(),
        source_root: root.to_string(),
    })
    .unwrap()
}

#[test]
fn slug_is_final_segment() {
    assert_eq!(slug_of("/home/u/registry/left-pad-1.3.0"), Some("left-pad-1.3.0".to_string()));
}

#[test]
fn slug_ignores_trailing_separators() {
    assert_eq!(slug_of("/a/b/c///"), Some("c".to_string()));
}

#[test]
fn slug_of_root_path_is_none() {
    assert_eq!(slug_of("/"), None);
    assert_eq!(slug_of(""), None);
    assert_eq!(slug_of("////"), None);
}

#[test]
fn slug_without_separator_is_whole() {
    assert_eq!(slug_of("left-pad-1.3.0"), Some("left-pad-1.3.0".to_string()));
}

#[test]
fn target_new_records_slug() {
    let t = target("left-pad", "1.3.0", "/reg/src/left-pad-1.3.0");
    assert_eq!(t.slug, "left-pad-1.3.0".to_string());
    assert_eq!(t.pkg.name, "left-pad".to_string());
}

#[test]
fn target_new_fails_on_root_source() {
    let r = Target::new(PackageRef {
        name: "x".to_string(),
        version: "1.0.0".to_string(),
        source_root: "/".to_string(),
    });
    match r {
        Err(PatchError::Naming { .. }) => {}
        _ => panic!("expected a naming error"),
    }
}

#[test]
fn parse_patch_file_name_ok() {
    let pn = parse_patch_file_name("left-pad+1.3.0.patch").unwrap();
    assert_eq!(pn.package_name, "left-pad".to_string());
    assert_eq!(pn.version_string, "1.3.0".to_string());
}

#[test]
fn parse_splits_at_first_plus() {
    let pn = parse_patch_file_name("a+1.0.0+beta.patch").unwrap();
    assert_eq!(pn.package_name, "a".to_string());
    assert_eq!(pn.version_string, "1.0.0+beta".to_string());
}

#[test]
fn parse_missing_plus_is_naming_error() {
    match parse_patch_file_name("left-pad.patch") {
        Err(PatchError::Naming { .. }) => {}
        _ => panic!("expected a naming error"),
    }
}

#[test]
fn parse_wrong_extension_is_naming_error() {
    match parse_patch_file_name("left-pad+1.3.0.diff") {
        Err(PatchError::Naming { .. }) => {}
        _ => panic!("expected a naming error"),
    }
}

#[test]
fn parse_bare_extension_is_naming_error() {
    // ".patch" alone has an empty stem and is not a patch filename.
    match parse_patch_file_name(".patch") {
        Err(PatchError::Naming { .. }) => {}
        _ => panic!("expected a naming error"),
    }
}

#[test]
fn has_patch_extension_cases() {
    assert!(has_patch_extension("a.patch"));
    assert!(has_patch_extension("left-pad+1.3.0.patch"));
    assert!(!has_patch_extension(".patch"));
    assert!(!has_patch_extension("a.patc"));
    assert!(!has_patch_extension("apatch"));
}

#[test]
fn format_patch_file_name_exact() {
    assert_eq!(
        format_patch_file_name("left-pad", "1.3.0"),
        "left-pad+1.3.0.patch".to_string()
    );
}

#[test]
fn format_then_parse_round_trips() {
    let f = format_patch_file_name("serde", "1.0.110");
    let pn = parse_patch_file_name(f.as_str()).unwrap();
    assert_eq!(pn.package_name, "serde".to_string());
    assert_eq!(pn.version_string, "1.0.110".to_string());
}

#[test]
fn error_message_carries_text() {
    let e = PatchError::Io { message: "disk full".to_string() };
    assert_eq!(e.message(), "disk full".to_string());
}

#[test]
fn select_mode_by_names() {
    assert!(matches!(select_mode(&vec![]), Mode::ApplyPatches));
    assert!(matches!(select_mode(&vec!["serde".to_string()]), Mode::CreatePatches));
}

#[test]
fn strip_self_token_removes_first_occurrence() {
    let names = vec![
        "patch-crate".to_string(),
        "serde".to_string(),
        "patch-crate".to_string(),
    ];
    let r = strip_self_token(&names);
    assert_eq!(r, vec!["serde".to_string(), "patch-crate".to_string()]);
}

#[test]
fn strip_self_token_keeps_others() {
    let names = vec!["serde".to_string(), "left-pad".to_string()];
    let r = strip_self_token(&names);
    assert_eq!(r, names);
}

#[test]
fn dedup_by_name_keeps_first() {
    let a = target("a", "1.0.0", "/r/a-1.0.0");
    let b = target("b", "2.0.0", "/r/b-2.0.0");
    let a2 = target("a", "1.0.0", "/r/a-1.0.0");
    let r = dedup_by_name(&vec![a, b, a2]);
    assert_eq!(r.len(), 2);
    assert_eq!(r[0].pkg.name, "a".to_string());
    assert_eq!(r[1].pkg.name, "b".to_string());
}

#[test]
fn copy_decision_cases() {
    assert!(matches!(copy_decision(true, false), CopyAction::SkipExisting));
    assert!(matches!(copy_decision(true, true), CopyAction::ReplaceThenCopy));
    assert!(matches!(copy_decision(false, false), CopyAction::FreshCopy));
    assert!(matches!(copy_decision(false, true), CopyAction::FreshCopy));
}

#[test]
fn workspace_paths() {
    assert_eq!(patches_folder("/w"), "/w/patches".to_string());
    assert_eq!(patch_target_folder("/w"), "/w/target/patch".to_string());
    assert_eq!(patch_target_tmp_folder("/w"), "/w/target/patch-tmp".to_string());
    let t = target("left-pad", "1.3.0", "/reg/src/left-pad-1.3.0");
    assert_eq!(patch_target_path("/w", &t), "/w/target/patch/left-pad-1.3.0".to_string());
    assert_eq!(
        patch_target_tmp_path("/w", &t),
        "/w/target/patch-tmp/left-pad-1.3.0".to_string()
    );
    assert_eq!(
        patch_file_path("/w", "left-pad+1.3.0.patch"),
        "/w/patches/left-pad+1.3.0.patch".to_string()
    );
}
