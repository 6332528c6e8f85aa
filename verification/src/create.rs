use vstd::prelude::*;
use crate::pkg::{Target, TargetModel};
use crate::patch_name::{format_patch_file_name, patch_file_name_model};

verus! {

/// Model of one step of a create-mode run.
///
/// The scratch (tmp) folder is ephemeral: it is purged before the first
/// package and removed again after each one, so it never survives a run.
#[verifier::ext_equal]
pub enum CreateStepModel {
    /// Create the patches folder if it does not exist yet.
    EnsurePatchesFolder,
    /// Remove a leftover scratch folder from an interrupted earlier run.
    PurgeTmp,
    /// Copy the package's pristine source into the scratch folder.
    CopyPristineToTmp { target: TargetModel },
    /// Snapshot the scratch copy as the zero baseline.
    SnapshotTmp { target: TargetModel },
    /// Destroy stale snapshot history on the long-lived staged copy.
    DestroyStagedHistory { target: TargetModel },
    /// Copy the user-edited staged copy over the scratch copy.
    CopyStagedToTmp { target: TargetModel },
    /// Diff the scratch copy against its zero baseline and persist the result.
    WriteDiff { target: TargetModel, patch_file_name: Seq<char> },
    /// Remove the scratch folder.
    RemoveTmp,
}

/// One step of a create-mode run, as handed to the executor.
pub enum CreateStep {
    EnsurePatchesFolder,
    PurgeTmp,
    CopyPristineToTmp { target: Target },
    SnapshotTmp { target: Target },
    DestroyStagedHistory { target: Target },
    CopyStagedToTmp { target: Target },
    WriteDiff { target: Target, patch_file_name: String },
    RemoveTmp,
}

impl View for CreateStep {
    type V = CreateStepModel;

    open spec fn view(&self) -> CreateStepModel {
        match self {
            CreateStep::EnsurePatchesFolder => CreateStepModel::EnsurePatchesFolder,
            CreateStep::PurgeTmp => CreateStepModel::PurgeTmp,
            CreateStep::CopyPristineToTmp { target } => CreateStepModel::CopyPristineToTmp {
                target: target@,
            },
            CreateStep::SnapshotTmp { target } => CreateStepModel::SnapshotTmp { target: target@ },
            CreateStep::DestroyStagedHistory { target } => CreateStepModel::DestroyStagedHistory {
                target: target@,
            },
            CreateStep::CopyStagedToTmp { target } => CreateStepModel::CopyStagedToTmp {
                target: target@,
            },
            CreateStep::WriteDiff { target, patch_file_name } => CreateStepModel::WriteDiff {
                target: target@,
                patch_file_name: patch_file_name@,
            },
            CreateStep::RemoveTmp => CreateStepModel::RemoveTmp,
        }
    }
}

impl DeepView for CreateStep {
    type V = CreateStepModel;

    open spec fn deep_view(&self) -> CreateStepModel {
        self.view()
    }
}

/// The six steps that produce one package's patch file: stage the pristine
/// source, take the zero baseline, clear stale history on the staged copy,
/// overlay the edited staged copy, write the diff, drop the scratch copy.
pub open spec fn create_steps_for(t: TargetModel) -> Seq<CreateStepModel> {
    seq![
        CreateStepModel::CopyPristineToTmp { target: t },
        CreateStepModel::SnapshotTmp { target: t },
        CreateStepModel::DestroyStagedHistory { target: t },
        CreateStepModel::CopyStagedToTmp { target: t },
        CreateStepModel::WriteDiff {
            target: t,
            patch_file_name: patch_file_name_model(t.pkg.name, t.pkg.version),
        },
        CreateStepModel::RemoveTmp,
    ]
}

/// The per-package step blocks of a create-mode run, in request order.
pub open spec fn per_target_steps(ts: Seq<TargetModel>) -> Seq<CreateStepModel>
    decreases ts.len(),
{
    if ts.len() == 0 {
        Seq::empty()
    } else {
        create_steps_for(ts[0]) + per_target_steps(ts.drop_first())
    }
}

/// The full plan of a create-mode run: make sure the patches folder is
/// there, purge any leftover scratch folder, then one block per package.
pub open spec fn create_plan_model(ts: Seq<TargetModel>) -> Seq<CreateStepModel> {
    seq![CreateStepModel::EnsurePatchesFolder, CreateStepModel::PurgeTmp] + per_target_steps(ts)
}

/// Whether the scratch folder exists after executing `steps` in order,
/// having existed (`init`) before.
pub open spec fn tmp_exists_after(init: bool, steps: Seq<CreateStepModel>) -> bool
    decreases steps.len(),
{
    if steps.len() == 0 {
        init
    } else {
        let next = match steps[0] {
            CreateStepModel::PurgeTmp => false,
            CreateStepModel::RemoveTmp => false,
            CreateStepModel::CopyPristineToTmp { .. } => true,
            CreateStepModel::CopyStagedToTmp { .. } => true,
            _ => init,
        };
        tmp_exists_after(next, steps.drop_first())
    }
}

proof fn lemma_per_target_push(s: Seq<TargetModel>, x: TargetModel)
    ensures
        per_target_steps(s.push(x)) == per_target_steps(s) + create_steps_for(x),
    decreases s.len(),
{
    if s.len() == 0 {
        assert(s.push(x)[0] == x);
        assert(s.push(x).drop_first() =~= Seq::<TargetModel>::empty());
        assert(per_target_steps(Seq::<TargetModel>::empty()) == Seq::<CreateStepModel>::empty());
        assert(per_target_steps(s.push(x)) == create_steps_for(x) + per_target_steps(
            Seq::<TargetModel>::empty(),
        ));
        assert(per_target_steps(s.push(x)) =~= per_target_steps(s) + create_steps_for(x));
    } else {
        assert(s.push(x)[0] == s[0]);
        assert(s.push(x).drop_first() =~= s.drop_first().push(x));
        lemma_per_target_push(s.drop_first(), x);
        assert(create_steps_for(s[0]) + (per_target_steps(s.drop_first()) + create_steps_for(x))
            =~= (create_steps_for(s[0]) + per_target_steps(s.drop_first())) + create_steps_for(x));
    }
}

/// The plan of one create-mode run over the named packages, in order.
pub fn plan_create(targets: &Vec<Target>) -> (steps: Vec<CreateStep>)
    ensures
        steps.deep_view() == create_plan_model(targets.deep_view()),
{
    let ghost dv = targets.deep_view();
    let mut steps: Vec<CreateStep> = Vec::new();
    steps.push(CreateStep::EnsurePatchesFolder);
    steps.push(CreateStep::PurgeTmp);
    proof {
        assert(dv.take(0) =~= Seq::<TargetModel>::empty());
        assert(steps.deep_view() =~= create_plan_model(dv.take(0)));
    }
    let mut i: usize = 0;
    while i < targets.len()
        invariant
            i <= targets.len(),
            dv == targets.deep_view(),
            steps.deep_view() == create_plan_model(dv.take(i as int)),
        decreases targets.len() - i,
    {
        let ghost steps0 = steps.deep_view();
        let d: &Target = &targets[i];
        let file_name = format_patch_file_name(d.pkg.name.as_str(), d.pkg.version.as_str());
        steps.push(CreateStep::CopyPristineToTmp { target: d.duplicate() });
        steps.push(CreateStep::SnapshotTmp { target: d.duplicate() });
        steps.push(CreateStep::DestroyStagedHistory { target: d.duplicate() });
        steps.push(CreateStep::CopyStagedToTmp { target: d.duplicate() });
        steps.push(CreateStep::WriteDiff { target: d.duplicate(), patch_file_name: file_name });
        steps.push(CreateStep::RemoveTmp);
        proof {
            assert(steps.deep_view() =~= steps0 + create_steps_for(dv[i as int]));
            assert(dv.take(i as int + 1) =~= dv.take(i as int).push(dv[i as int]));
            lemma_per_target_push(dv.take(i as int), dv[i as int]);
            assert(steps.deep_view() =~= create_plan_model(dv.take(i as int + 1)));
        }
        i = i + 1;
    }
    proof {
        assert(dv.take(targets.len() as int) =~= dv);
    }
    steps
}

/// The step the executor runs when any create-mode step fails, so that
/// the scratch folder never survives a failed run.
pub fn cleanup_after_failure() -> (s: CreateStep)
    ensures
        s@ == CreateStepModel::RemoveTmp,
{
    CreateStep::RemoveTmp
}

} // verus!
