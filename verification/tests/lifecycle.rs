use patch_crate::create::{cleanup_after_failure, plan_create, CreateStep};
use patch_crate::pkg::{PackageRef, Target};
use patch_crate::plan::{plan_apply, ApplyStep, ResolvedPatch};

fn target(name: &str, version: &str, root: &str) -> Target {
    Target::new(PackageRef {
        name: name.to_string(),
        version: version.to_string(),
        source_root: root.to_string(),
    })
    .unwrap()
}

fn left_pad() -> Target {
    target("left-pad", "1.3.0", "/reg/src/left-pad-1.3.0")
}

fn left_pad_patch() -> ResolvedPatch {
    ResolvedPatch { file_name: "left-pad+1.3.0.patch".to_string(), target: left_pad() }
}

#[test]
fn scenario_declared_without_patch_gets_plain_copy() {
    // Declared targets ["left-pad"]; no patch files; no prior staged copy.
    let plan = plan_apply(&vec![left_pad()], &vec![], &vec![], false);
    assert!(!plan.wipe_target_first);
    assert_eq!(plan.steps.len(), 1);
    match &plan.steps[0] {
        ApplyStep::CopyPlain { target } => {
            assert_eq!(target.pkg.name, "left-pad".to_string());
            assert_eq!(target.slug, "left-pad-1.3.0".to_string());
        }
        _ => panic!("expected a plain copy"),
    }
}

#[test]
fn scenario_patch_file_is_applied_to_fresh_copy() {
    // Existing patch file left-pad+1.3.0.patch; declared ["left-pad"];
    // no staged copy yet.
    let plan = plan_apply(&vec![left_pad()], &vec![left_pad_patch()], &vec![], false);
    assert!(!plan.wipe_target_first);
    assert_eq!(plan.steps.len(), 1);
    match &plan.steps[0] {
        ApplyStep::ApplyPatch { target, patch_file_name } => {
            assert_eq!(target.pkg.name, "left-pad".to_string());
            assert_eq!(patch_file_name, &"left-pad+1.3.0.patch".to_string());
        }
        _ => panic!("expected a patch application"),
    }
}

#[test]
fn scenario_create_mode_plans_diff_into_patch_file() {
    // Create-mode for ["left-pad"]: stage pristine, snapshot, overlay the
    // edited staged copy, write the diff under the patch filename, clean up.
    let steps = plan_create(&vec![left_pad()]);
    assert_eq!(steps.len(), 8);
    assert!(matches!(steps[0], CreateStep::EnsurePatchesFolder));
    assert!(matches!(steps[1], CreateStep::PurgeTmp));
    assert!(matches!(steps[2], CreateStep::CopyPristineToTmp { .. }));
    assert!(matches!(steps[3], CreateStep::SnapshotTmp { .. }));
    assert!(matches!(steps[4], CreateStep::DestroyStagedHistory { .. }));
    assert!(matches!(steps[5], CreateStep::CopyStagedToTmp { .. }));
    match &steps[6] {
        CreateStep::WriteDiff { target, patch_file_name } => {
            assert_eq!(target.pkg.name, "left-pad".to_string());
            assert_eq!(patch_file_name, &"left-pad+1.3.0.patch".to_string());
        }
        _ => panic!("expected the diff step"),
    }
    assert!(matches!(steps[7], CreateStep::RemoveTmp));
}

#[test]
fn stale_patch_warns_and_run_goes_on() {
    // A patch file resolving to a package that is not declared warns and
    // the remaining declared target is still materialized.
    let stale = ResolvedPatch {
        file_name: "rightpad+2.0.0.patch".to_string(),
        target: target("rightpad", "2.0.0", "/reg/src/rightpad-2.0.0"),
    };
    let plan = plan_apply(&vec![left_pad()], &vec![stale], &vec![], false);
    assert_eq!(plan.steps.len(), 2);
    match &plan.steps[0] {
        ApplyStep::WarnStale { package_name } => {
            assert_eq!(package_name, &"rightpad".to_string());
        }
        _ => panic!("expected a warning"),
    }
    assert!(matches!(&plan.steps[1], ApplyStep::CopyPlain { .. }));
}

#[test]
fn existing_staged_copy_is_skipped() {
    let plan = plan_apply(
        &vec![left_pad()],
        &vec![left_pad_patch()],
        &vec!["left-pad-1.3.0".to_string()],
        false,
    );
    assert_eq!(plan.steps.len(), 1);
    assert!(matches!(&plan.steps[0], ApplyStep::SkipExisting { .. }));
}

#[test]
fn force_wipes_and_reapplies() {
    // With the force flag the target folder is wiped first, so the staged
    // copy found on disk does not make the run skip.
    let plan = plan_apply(
        &vec![left_pad()],
        &vec![left_pad_patch()],
        &vec!["left-pad-1.3.0".to_string()],
        true,
    );
    assert!(plan.wipe_target_first);
    assert_eq!(plan.steps.len(), 1);
    assert!(matches!(&plan.steps[0], ApplyStep::ApplyPatch { .. }));
}

#[test]
fn second_patch_file_for_same_package_is_stale() {
    let second = ResolvedPatch { file_name: "left-pad+1.2.0.patch".to_string(), target: left_pad() };
    let plan = plan_apply(&vec![left_pad()], &vec![left_pad_patch(), second], &vec![], false);
    assert_eq!(plan.steps.len(), 2);
    assert!(matches!(&plan.steps[0], ApplyStep::ApplyPatch { .. }));
    match &plan.steps[1] {
        ApplyStep::WarnStale { package_name } => {
            assert_eq!(package_name, &"left-pad".to_string());
        }
        _ => panic!("expected a warning"),
    }
}

#[test]
fn apply_mode_is_idempotent_on_disk() {
    // Run apply-mode once from an empty target folder, feed the staged
    // copies it made into a second run: the second run only skips.
    let declared = vec![left_pad(), target("serde", "1.0.110", "/reg/src/serde-1.0.110")];
    let patches = vec![left_pad_patch()];
    let first = plan_apply(&declared, &patches, &vec![], false);
    let mut on_disk: Vec<String> = Vec::new();
    for s in &first.steps {
        match s {
            ApplyStep::ApplyPatch { target, .. } => on_disk.push(target.slug.clone()),
            ApplyStep::CopyPlain { target } => on_disk.push(target.slug.clone()),
            _ => {}
        }
    }
    assert_eq!(on_disk.len(), 2);
    let second = plan_apply(&declared, &patches, &on_disk, false);
    assert_eq!(second.steps.len(), 2);
    for s in &second.steps {
        assert!(matches!(s, ApplyStep::SkipExisting { .. } | ApplyStep::WarnStale { .. }));
    }
}

#[test]
fn create_mode_plans_every_requested_package() {
    let steps = plan_create(&vec![left_pad(), target("serde", "1.0.110", "/reg/src/serde-1.0.110")]);
    assert_eq!(steps.len(), 14);
    let diffs: Vec<&CreateStep> =
        steps.iter().filter(|s| matches!(s, CreateStep::WriteDiff { .. })).collect();
    assert_eq!(diffs.len(), 2);
}

#[test]
fn create_mode_on_no_packages_still_cleans_scratch() {
    let steps = plan_create(&vec![]);
    assert_eq!(steps.len(), 2);
    assert!(matches!(steps[0], CreateStep::EnsurePatchesFolder));
    assert!(matches!(steps[1], CreateStep::PurgeTmp));
}

#[test]
fn failure_cleanup_removes_scratch() {
    assert!(matches!(cleanup_after_failure(), CreateStep::RemoveTmp));
}
