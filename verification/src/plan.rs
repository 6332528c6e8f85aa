use vstd::prelude::*;
use crate::pkg::{Target, TargetModel};

verus! {

/// Mathematical model of a patch file found on disk whose filename was
/// parsed and whose package name was resolved: the filename and the
/// staging target it resolves to.
#[verifier::ext_equal]
pub struct PatchModel {
    pub file_name: Seq<char>,
    pub target: TargetModel,
}

/// A patch file found in the patches folder, with its package name
/// already resolved to a staging target.
pub struct ResolvedPatch {
    pub file_name: String,
    pub target: Target,
}

impl View for ResolvedPatch {
    type V = PatchModel;

    open spec fn view(&self) -> PatchModel {
        PatchModel { file_name: self.file_name@, target: self.target@ }
    }
}

impl DeepView for ResolvedPatch {
    type V = PatchModel;

    open spec fn deep_view(&self) -> PatchModel {
        self.view()
    }
}

/// Model of one reconciliation step of apply-mode.
#[verifier::ext_equal]
pub enum StepModel {
    /// The patch file names a package that is not declared: warn, touch nothing.
    WarnStale { package_name: Seq<char> },
    /// Materialize a staged copy, snapshot it, apply the patch, destroy the history.
    ApplyPatch { target: TargetModel, patch_file_name: Seq<char> },
    /// A staged copy already exists: leave it untouched.
    SkipExisting { target: TargetModel },
    /// A declared target with no patch file: materialize a plain copy.
    CopyPlain { target: TargetModel },
}

/// One reconciliation step of apply-mode, as handed to the executor.
pub enum ApplyStep {
    WarnStale { package_name: String },
    ApplyPatch { target: Target, patch_file_name: String },
    SkipExisting { target: Target },
    CopyPlain { target: Target },
}

impl View for ApplyStep {
    type V = StepModel;

    open spec fn view(&self) -> StepModel {
        match self {
            ApplyStep::WarnStale { package_name } => StepModel::WarnStale {
                package_name: package_name@,
            },
            ApplyStep::ApplyPatch { target, patch_file_name } => StepModel::ApplyPatch {
                target: target@,
                patch_file_name: patch_file_name@,
            },
            ApplyStep::SkipExisting { target } => StepModel::SkipExisting { target: target@ },
            ApplyStep::CopyPlain { target } => StepModel::CopyPlain { target: target@ },
        }
    }
}

impl DeepView for ApplyStep {
    type V = StepModel;

    open spec fn deep_view(&self) -> StepModel {
        self.view()
    }
}

/// Whether some target in `s` has package name `n`.
pub open spec fn contains_name_model(s: Seq<TargetModel>, n: Seq<char>) -> bool {
    exists|i: int| 0 <= i < s.len() && s[i].pkg.name == n
}

/// `s` with every target named `n` removed, order kept.
pub open spec fn remove_name_model(s: Seq<TargetModel>, n: Seq<char>) -> Seq<TargetModel>
    decreases s.len(),
{
    if s.len() == 0 {
        s
    } else if s[0].pkg.name == n {
        remove_name_model(s.drop_first(), n)
    } else {
        seq![s[0]] + remove_name_model(s.drop_first(), n)
    }
}

/// The set of character sequences a sequence of strings holds.
pub open spec fn str_set(s: Seq<Seq<char>>) -> Set<Seq<char>> {
    Set::new(|x: Seq<char>| s.contains(x))
}

/// The slugs materialized before reconciliation starts: none when `force`
/// wiped the target folder, else the slugs found on disk.
pub open spec fn initial_existing(existing: Seq<Seq<char>>, force: bool) -> Set<Seq<char>> {
    if force {
        Set::empty()
    } else {
        str_set(existing)
    }
}

/// The steps apply-mode takes for the declared targets that no patch file
/// matched: a plain copy where no staged copy exists yet, a skip otherwise.
pub open spec fn leftover_steps(declared: Seq<TargetModel>, existing: Set<Seq<char>>) -> Seq<
    StepModel,
>
    decreases declared.len(),
{
    if declared.len() == 0 {
        Seq::empty()
    } else {
        let d = declared[0];
        if existing.contains(d.slug) {
            seq![StepModel::SkipExisting { target: d }] + leftover_steps(
                declared.drop_first(),
                existing,
            )
        } else {
            seq![StepModel::CopyPlain { target: d }] + leftover_steps(
                declared.drop_first(),
                existing.insert(d.slug),
            )
        }
    }
}

/// The full reconciliation of apply-mode: one step per patch file, in
/// order — a warning for a stale one, a skip where the staged copy already
/// exists, an application otherwise, removing the processed package from
/// the declared set either way — followed by `leftover_steps` for the
/// declared targets no patch file matched.
pub open spec fn apply_steps(
    declared: Seq<TargetModel>,
    patches: Seq<PatchModel>,
    existing: Set<Seq<char>>,
) -> Seq<StepModel>
    decreases patches.len(),
{
    if patches.len() == 0 {
        leftover_steps(declared, existing)
    } else {
        let p = patches[0];
        if !contains_name_model(declared, p.target.pkg.name) {
            seq![StepModel::WarnStale { package_name: p.target.pkg.name }] + apply_steps(
                declared,
                patches.drop_first(),
                existing,
            )
        } else if existing.contains(p.target.slug) {
            seq![StepModel::SkipExisting { target: p.target }] + apply_steps(
                remove_name_model(declared, p.target.pkg.name),
                patches.drop_first(),
                existing,
            )
        } else {
            seq![
                StepModel::ApplyPatch { target: p.target, patch_file_name: p.file_name },
            ] + apply_steps(
                remove_name_model(declared, p.target.pkg.name),
                patches.drop_first(),
                existing.insert(p.target.slug),
            )
        }
    }
}

proof fn lemma_str_set_push(s: Seq<Seq<char>>, x: Seq<char>)
    ensures
        str_set(s.push(x)) == str_set(s).insert(x),
{
    assert forall|y: Seq<char>| str_set(s.push(x)).contains(y) implies str_set(s).insert(
        x,
    ).contains(y) by {
        let i = choose|i: int| 0 <= i < s.push(x).len() && s.push(x)[i] == y;
        if i < s.len() {
            assert(s[i] == y);
        }
    }
    assert forall|y: Seq<char>| str_set(s).insert(x).contains(y) implies str_set(
        s.push(x),
    ).contains(y) by {
        if y == x {
            assert(s.push(x)[s.len() as int] == y);
        } else {
            let i = choose|i: int| 0 <= i < s.len() && s[i] == y;
            assert(s.push(x)[i] == y);
        }
    }
    assert(str_set(s.push(x)) =~= str_set(s).insert(x));
}

/// Whether some target in `v` has package name `name`.
fn contains_name(v: &Vec<Target>, name: &String) -> (b: bool)
    ensures
        b == contains_name_model(v.deep_view(), name@),
{
    let mut k: usize = 0;
    while k < v.len()
        invariant
            k <= v.len(),
            forall|j: int| 0 <= j < k ==> v.deep_view()[j].pkg.name != name@,
        decreases v.len() - k,
    {
        if v[k].pkg.name == *name {
            proof {
                assert(v.deep_view()[k as int].pkg.name == name@);
            }
            return true;
        }
        k = k + 1;
    }
    false
}

/// Whether `v` holds the string `s`.
fn contains_str(v: &Vec<String>, s: &String) -> (b: bool)
    ensures
        b == str_set(v.deep_view()).contains(s@),
{
    let mut k: usize = 0;
    while k < v.len()
        invariant
            k <= v.len(),
            forall|j: int| 0 <= j < k ==> v.deep_view()[j] != s@,
        decreases v.len() - k,
    {
        if v[k] == *s {
            proof {
                assert(v.deep_view()[k as int] == s@);
            }
            return true;
        }
        k = k + 1;
    }
    proof {
        if v.deep_view().contains(s@) {
            let i = choose|i: int| 0 <= i < v.deep_view().len() && v.deep_view()[i] == s@;
        }
    }
    false
}

/// `v` with every target named `name` removed, order kept.
fn remove_name(v: &Vec<Target>, name: &String) -> (r: Vec<Target>)
    ensures
        r.deep_view() == remove_name_model(v.deep_view(), name@),
{
    let ghost dv = v.deep_view();
    let mut r: Vec<Target> = Vec::new();
    proof {
        assert(dv.skip(0) =~= dv);
        assert(r.deep_view() + remove_name_model(dv.skip(0), name@) =~= remove_name_model(
            dv,
            name@,
        ));
    }
    let mut k: usize = 0;
    while k < v.len()
        invariant
            k <= v.len(),
            dv == v.deep_view(),
            remove_name_model(dv, name@) == r.deep_view() + remove_name_model(
                dv.skip(k as int),
                name@,
            ),
        decreases v.len() - k,
    {
        proof {
            assert(dv.skip(k as int)[0] == dv[k as int]);
            assert(dv.skip(k as int).drop_first() =~= dv.skip(k as int + 1));
        }
        let ghost r0 = r.deep_view();
        if !(v[k].pkg.name == *name) {
            r.push(v[k].duplicate());
            proof {
                assert(r.deep_view() =~= r0.push(dv[k as int]));
                assert(r0.push(dv[k as int]) + remove_name_model(dv.skip(k as int + 1), name@)
                    =~= r0 + (seq![dv[k as int]] + remove_name_model(
                    dv.skip(k as int + 1),
                    name@,
                )));
            }
        }
        k = k + 1;
    }
    proof {
        assert(dv.skip(v.len() as int) =~= Seq::<TargetModel>::empty());
        assert(r.deep_view() + remove_name_model(dv.skip(v.len() as int), name@) =~= r.deep_view());
    }
    r
}

/// Independent copies of the targets, with the same model.
fn duplicate_targets(v: &Vec<Target>) -> (r: Vec<Target>)
    ensures
        r.deep_view() == v.deep_view(),
{
    let mut r: Vec<Target> = Vec::new();
    let mut k: usize = 0;
    while k < v.len()
        invariant
            k <= v.len(),
            r.deep_view() =~= v.deep_view().take(k as int),
        decreases v.len() - k,
    {
        let ghost r0 = r.deep_view();
        r.push(v[k].duplicate());
        proof {
            assert(r.deep_view() =~= r0.push(v.deep_view()[k as int]));
            assert(v.deep_view().take(k as int + 1) =~= v.deep_view().take(k as int).push(
                v.deep_view()[k as int],
            ));
        }
        k = k + 1;
    }
    proof {
        assert(v.deep_view().take(v.len() as int) =~= v.deep_view());
    }
    r
}

/// Independent copies of the strings, with the same model.
fn duplicate_strings(v: &Vec<String>) -> (r: Vec<String>)
    ensures
        r.deep_view() == v.deep_view(),
{
    let mut r: Vec<String> = Vec::new();
    let mut k: usize = 0;
    while k < v.len()
        invariant
            k <= v.len(),
            r.deep_view() =~= v.deep_view().take(k as int),
        decreases v.len() - k,
    {
        let ghost r0 = r.deep_view();
        r.push(v[k].clone());
        proof {
            assert(r.deep_view() =~= r0.push(v.deep_view()[k as int]));
            assert(v.deep_view().take(k as int + 1) =~= v.deep_view().take(k as int).push(
                v.deep_view()[k as int],
            ));
        }
        k = k + 1;
    }
    proof {
        assert(v.deep_view().take(v.len() as int) =~= v.deep_view());
    }
    r
}

/// The reconciliation plan of one apply-mode run: whether to wipe the
/// target folder first, then the steps to execute in order.
pub struct ApplyPlan {
    pub wipe_target_first: bool,
    pub steps: Vec<ApplyStep>,
}

/// Reconcile the declared patch targets, the patch files on disk and the
/// already-materialized staged copies into the plan apply-mode executes.
///
/// `declared` is the declared patch-target set (deduplicated upstream),
/// `patches` the parsed and resolved patch files in directory order,
/// `existing` the slugs already materialized under the target folder, and
/// `force` the flag that wipes the target folder before reconciling.
pub fn plan_apply(
    declared: &Vec<Target>,
    patches: &Vec<ResolvedPatch>,
    existing: &Vec<String>,
    force: bool,
) -> (plan: ApplyPlan)
    ensures
        plan.wipe_target_first == force,
        plan.steps.deep_view() == apply_steps(
            declared.deep_view(),
            patches.deep_view(),
            initial_existing(existing.deep_view(), force),
        ),
{
    let ghost e0 = initial_existing(existing.deep_view(), force);
    let ghost full = apply_steps(declared.deep_view(), patches.deep_view(), e0);
    let mut steps: Vec<ApplyStep> = Vec::new();
    let mut remaining: Vec<Target> = duplicate_targets(declared);
    let mut present: Vec<String> = if force {
        Vec::new()
    } else {
        duplicate_strings(existing)
    };
    proof {
        if force {
            assert(str_set(present.deep_view()) =~= Set::<Seq<char>>::empty());
        }
        assert(patches.deep_view().skip(0) =~= patches.deep_view());
    }
    let mut i: usize = 0;
    while i < patches.len()
        invariant
            i <= patches.len(),
            full == apply_steps(declared.deep_view(), patches.deep_view(), e0),
            full == steps.deep_view() + apply_steps(
                remaining.deep_view(),
                patches.deep_view().skip(i as int),
                str_set(present.deep_view()),
            ),
        decreases patches.len() - i,
    {
        let ghost rem0 = remaining.deep_view();
        let ghost pres0 = present.deep_view();
        let ghost steps0 = steps.deep_view();
        let ghost pm = patches.deep_view()[i as int];
        proof {
            assert(patches.deep_view().skip(i as int)[0] == pm);
            assert(patches.deep_view().skip(i as int).drop_first() =~= patches.deep_view().skip(
                i as int + 1,
            ));
        }
        let p: &ResolvedPatch = &patches[i];
        if !contains_name(&remaining, &p.target.pkg.name) {
            steps.push(ApplyStep::WarnStale { package_name: p.target.pkg.name.clone() });
            proof {
                assert(steps.deep_view() =~= steps0.push(
                    StepModel::WarnStale { package_name: pm.target.pkg.name },
                ));
                assert(steps.deep_view() + apply_steps(
                    rem0,
                    patches.deep_view().skip(i as int + 1),
                    str_set(pres0),
                ) =~= steps0 + apply_steps(rem0, patches.deep_view().skip(i as int), str_set(pres0)));
            }
        } else if contains_str(&present, &p.target.slug) {
            steps.push(ApplyStep::SkipExisting { target: p.target.duplicate() });
            let rem1 = remove_name(&remaining, &p.target.pkg.name);
            remaining = rem1;
            proof {
                assert(steps.deep_view() =~= steps0.push(
                    StepModel::SkipExisting { target: pm.target },
                ));
                assert(steps.deep_view() + apply_steps(
                    remaining.deep_view(),
                    patches.deep_view().skip(i as int + 1),
                    str_set(pres0),
                ) =~= steps0 + apply_steps(rem0, patches.deep_view().skip(i as int), str_set(pres0)));
            }
        } else {
            steps.push(
                ApplyStep::ApplyPatch {
                    target: p.target.duplicate(),
                    patch_file_name: p.file_name.clone(),
                },
            );
            let rem1 = remove_name(&remaining, &p.target.pkg.name);
            remaining = rem1;
            present.push(p.target.slug.clone());
            proof {
                lemma_str_set_push(pres0, pm.target.slug);
                assert(present.deep_view() =~= pres0.push(pm.target.slug));
                assert(str_set(present.deep_view()) == str_set(pres0).insert(pm.target.slug));
                assert(steps.deep_view() =~= steps0.push(
                    StepModel::ApplyPatch {
                        target: pm.target,
                        patch_file_name: pm.file_name,
                    },
                ));
                assert(steps.deep_view() + apply_steps(
                    remaining.deep_view(),
                    patches.deep_view().skip(i as int + 1),
                    str_set(present.deep_view()),
                ) =~= steps0 + apply_steps(rem0, patches.deep_view().skip(i as int), str_set(pres0)));
            }
        }
        i = i + 1;
    }
    proof {
        assert(patches.deep_view().skip(patches.len() as int) =~= Seq::<PatchModel>::empty());
        assert(apply_steps(
            remaining.deep_view(),
            Seq::<PatchModel>::empty(),
            str_set(present.deep_view()),
        ) == leftover_steps(remaining.deep_view(), str_set(present.deep_view())));
        assert(remaining.deep_view().skip(0) =~= remaining.deep_view());
    }
    let mut j: usize = 0;
    while j < remaining.len()
        invariant
            j <= remaining.len(),
            full == steps.deep_view() + leftover_steps(
                remaining.deep_view().skip(j as int),
                str_set(present.deep_view()),
            ),
        decreases remaining.len() - j,
    {
        let ghost pres0 = present.deep_view();
        let ghost steps0 = steps.deep_view();
        let ghost dm = remaining.deep_view()[j as int];
        proof {
            assert(remaining.deep_view().skip(j as int)[0] == dm);
            assert(remaining.deep_view().skip(j as int).drop_first()
                =~= remaining.deep_view().skip(j as int + 1));
        }
        let d: &Target = &remaining[j];
        if contains_str(&present, &d.slug) {
            steps.push(ApplyStep::SkipExisting { target: d.duplicate() });
            proof {
                assert(steps.deep_view() =~= steps0.push(StepModel::SkipExisting { target: dm }));
                assert(steps.deep_view() + leftover_steps(
                    remaining.deep_view().skip(j as int + 1),
                    str_set(pres0),
                ) =~= steps0 + leftover_steps(
                    remaining.deep_view().skip(j as int),
                    str_set(pres0),
                ));
            }
        } else {
            steps.push(ApplyStep::CopyPlain { target: d.duplicate() });
            present.push(d.slug.clone());
            proof {
                lemma_str_set_push(pres0, dm.slug);
                assert(present.deep_view() =~= pres0.push(dm.slug));
                assert(str_set(present.deep_view()) == str_set(pres0).insert(dm.slug));
                assert(steps.deep_view() =~= steps0.push(StepModel::CopyPlain { target: dm }));
                assert(steps.deep_view() + leftover_steps(
                    remaining.deep_view().skip(j as int + 1),
                    str_set(present.deep_view()),
                ) =~= steps0 + leftover_steps(
                    remaining.deep_view().skip(j as int),
                    str_set(pres0),
                ));
            }
        }
        j = j + 1;
    }
    proof {
        assert(remaining.deep_view().skip(remaining.len() as int)
            =~= Seq::<TargetModel>::empty());
        assert(steps.deep_view() + leftover_steps(
            Seq::<TargetModel>::empty(),
            str_set(present.deep_view()),
        ) =~= steps.deep_view());
    }
    ApplyPlan { wipe_target_first: force, steps }
}

} // verus!
