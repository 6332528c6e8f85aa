use vstd::prelude::*;
use crate::create::{create_plan_model, create_steps_for, per_target_steps, tmp_exists_after, CreateStepModel};
use crate::patch_name::{lemma_patch_file_name_round_trip, parse_model, patch_file_name_model};
use crate::pkg::TargetModel;
use crate::plan::{
    apply_steps, contains_name_model, leftover_steps, remove_name_model, PatchModel, StepModel,
};

verus! {

/// A step of apply-mode after which a staged copy for a package named `n`
/// is present: a patch application, a plain copy, or a skip that found one
/// already there.
pub open spec fn step_covers_name(s: StepModel, n: Seq<char>) -> bool {
    ||| (s matches StepModel::ApplyPatch { target, .. } && target.pkg.name == n)
    ||| (s matches StepModel::SkipExisting { target } && target.pkg.name == n)
    ||| (s matches StepModel::CopyPlain { target } && target.pkg.name == n)
}

/// Some step of `steps` covers the package named `n`.
pub open spec fn covered_name(steps: Seq<StepModel>, n: Seq<char>) -> bool {
    exists|j: int| 0 <= j < steps.len() && step_covers_name(steps[j], n)
}

proof fn lemma_covered_name_prepend(x: StepModel, steps: Seq<StepModel>, n: Seq<char>)
    requires
        covered_name(steps, n),
    ensures
        covered_name(seq![x] + steps, n),
{
    let j = choose|j: int| 0 <= j < steps.len() && step_covers_name(steps[j], n);
    assert((seq![x] + steps)[j + 1] == steps[j]);
}

/// Membership in a name-removal: exactly the targets of the original
/// sequence whose name differs from the removed one.
proof fn lemma_remove_name_membership(s: Seq<TargetModel>, n: Seq<char>, t: TargetModel)
    ensures
        remove_name_model(s, n).contains(t) <==> (s.contains(t) && t.pkg.name != n),
    decreases s.len(),
{
    if s.len() > 0 {
        lemma_remove_name_membership(s.drop_first(), n, t);
        assert(s.contains(t) <==> (s[0] == t || s.drop_first().contains(t))) by {
            if s.contains(t) {
                let i = choose|i: int| 0 <= i < s.len() && s[i] == t;
                if i > 0 {
                    assert(s.drop_first()[i - 1] == t);
                }
            }
            if s.drop_first().contains(t) {
                let i = choose|i: int|
                    0 <= i < s.drop_first().len() && s.drop_first()[i] == t;
                assert(s[i + 1] == t);
            }
        }
        if s[0].pkg.name != n {
            let r = seq![s[0]] + remove_name_model(s.drop_first(), n);
            assert(remove_name_model(s, n) == r);
            assert(r.contains(t) <==> (s[0] == t || remove_name_model(
                s.drop_first(),
                n,
            ).contains(t))) by {
                assert(r[0] == s[0]);
                if r.contains(t) {
                    let i = choose|i: int| 0 <= i < r.len() && r[i] == t;
                    if i > 0 {
                        assert(r[i] == remove_name_model(s.drop_first(), n)[i - 1]);
                    }
                }
                if remove_name_model(s.drop_first(), n).contains(t) {
                    let i = choose|i: int|
                        0 <= i < remove_name_model(s.drop_first(), n).len()
                            && remove_name_model(s.drop_first(), n)[i] == t;
                    assert(r[i + 1] == t);
                }
            }
        }
    }
}

/// Name containment in a name-removal: every other name survives.
proof fn lemma_remove_name_contains(s: Seq<TargetModel>, n: Seq<char>, m: Seq<char>)
    ensures
        contains_name_model(remove_name_model(s, n), m) <==> (contains_name_model(s, m) && m
            != n),
    decreases s.len(),
{
    if s.len() > 0 {
        lemma_remove_name_contains(s.drop_first(), n, m);
        assert(contains_name_model(s, m) <==> (s[0].pkg.name == m || contains_name_model(
            s.drop_first(),
            m,
        ))) by {
            if contains_name_model(s, m) {
                let i = choose|i: int| 0 <= i < s.len() && s[i].pkg.name == m;
                if i > 0 {
                    assert(s.drop_first()[i - 1].pkg.name == m);
                }
            }
            if contains_name_model(s.drop_first(), m) {
                let i = choose|i: int|
                    0 <= i < s.drop_first().len() && s.drop_first()[i].pkg.name == m;
                assert(s[i + 1].pkg.name == m);
            }
        }
        if s[0].pkg.name != n {
            let r = seq![s[0]] + remove_name_model(s.drop_first(), n);
            assert(remove_name_model(s, n) == r);
            assert(contains_name_model(r, m) <==> (s[0].pkg.name == m || contains_name_model(
                remove_name_model(s.drop_first(), n),
                m,
            ))) by {
                assert(r[0] == s[0]);
                if contains_name_model(r, m) {
                    let i = choose|i: int| 0 <= i < r.len() && r[i].pkg.name == m;
                    if i > 0 {
                        assert(r[i] == remove_name_model(s.drop_first(), n)[i - 1]);
                    }
                }
                if contains_name_model(remove_name_model(s.drop_first(), n), m) {
                    let i = choose|i: int|
                        0 <= i < remove_name_model(s.drop_first(), n).len()
                            && remove_name_model(s.drop_first(), n)[i].pkg.name == m;
                    assert(r[i + 1].pkg.name == m);
                }
            }
        }
    }
}

proof fn lemma_leftover_covers(declared: Seq<TargetModel>, existing: Set<Seq<char>>)
    ensures
        forall|n: Seq<char>|
            contains_name_model(declared, n) ==> covered_name(
                leftover_steps(declared, existing),
                n,
            ),
    decreases declared.len(),
{
    if declared.len() > 0 {
        let d = declared[0];
        let e2 = if existing.contains(d.slug) {
            existing
        } else {
            existing.insert(d.slug)
        };
        let head = if existing.contains(d.slug) {
            StepModel::SkipExisting { target: d }
        } else {
            StepModel::CopyPlain { target: d }
        };
        let tail = leftover_steps(declared.drop_first(), e2);
        lemma_leftover_covers(declared.drop_first(), e2);
        assert(leftover_steps(declared, existing) == seq![head] + tail);
        assert forall|n: Seq<char>| contains_name_model(declared, n) implies covered_name(
            leftover_steps(declared, existing),
            n,
        ) by {
            let i = choose|i: int| 0 <= i < declared.len() && declared[i].pkg.name == n;
            if i == 0 {
                assert((seq![head] + tail)[0] == head);
                assert(step_covers_name(head, n));
            } else {
                assert(declared.drop_first()[i - 1].pkg.name == n);
                assert(contains_name_model(declared.drop_first(), n));
                lemma_covered_name_prepend(head, tail, n);
            }
        }
    }
}

proof fn lemma_names_covered(
    declared: Seq<TargetModel>,
    patches: Seq<PatchModel>,
    existing: Set<Seq<char>>,
)
    ensures
        forall|n: Seq<char>|
            contains_name_model(declared, n) ==> covered_name(
                apply_steps(declared, patches, existing),
                n,
            ),
    decreases patches.len(),
{
    if patches.len() == 0 {
        lemma_leftover_covers(declared, existing);
    } else {
        let p = patches[0];
        let pn = p.target.pkg.name;
        if !contains_name_model(declared, pn) {
            let head = StepModel::WarnStale { package_name: pn };
            let tail = apply_steps(declared, patches.drop_first(), existing);
            lemma_names_covered(declared, patches.drop_first(), existing);
            assert forall|n: Seq<char>| contains_name_model(declared, n) implies covered_name(
                apply_steps(declared, patches, existing),
                n,
            ) by {
                lemma_covered_name_prepend(head, tail, n);
            }
        } else {
            let d2 = remove_name_model(declared, pn);
            let (head, e2) = if existing.contains(p.target.slug) {
                (StepModel::SkipExisting { target: p.target }, existing)
            } else {
                (
                    StepModel::ApplyPatch {
                        target: p.target,
                        patch_file_name: p.file_name,
                    },
                    existing.insert(p.target.slug),
                )
            };
            let tail = apply_steps(d2, patches.drop_first(), e2);
            assert(apply_steps(declared, patches, existing) == seq![head] + tail);
            lemma_names_covered(d2, patches.drop_first(), e2);
            assert forall|n: Seq<char>| contains_name_model(declared, n) implies covered_name(
                apply_steps(declared, patches, existing),
                n,
            ) by {
                if n == pn {
                    assert((seq![head] + tail)[0] == head);
                    assert(step_covers_name(head, n));
                } else {
                    lemma_remove_name_contains(declared, pn, n);
                    lemma_covered_name_prepend(head, tail, n);
                }
            }
        }
    }
}

/// Reconciliation completeness: after apply-mode, every declared patch
/// target has a step that leaves its staged copy present — a patch
/// application, a plain copy, or a skip that found one — whether or not a
/// patch file for it existed.
pub proof fn lemma_reconciliation_complete(
    declared: Seq<TargetModel>,
    patches: Seq<PatchModel>,
    existing: Set<Seq<char>>,
)
    ensures
        forall|i: int|
            0 <= i < declared.len() ==> covered_name(
                apply_steps(declared, patches, existing),
                declared[i].pkg.name,
            ),
{
    lemma_names_covered(declared, patches, existing);
    assert forall|i: int| 0 <= i < declared.len() implies covered_name(
        apply_steps(declared, patches, existing),
        declared[i].pkg.name,
    ) by {
        assert(contains_name_model(declared, declared[i].pkg.name));
    }
}

proof fn lemma_apply_steps_len(
    declared: Seq<TargetModel>,
    patches: Seq<PatchModel>,
    existing: Set<Seq<char>>,
)
    ensures
        apply_steps(declared, patches, existing).len() >= patches.len(),
    decreases patches.len(),
{
    if patches.len() > 0 {
        let p = patches[0];
        let pn = p.target.pkg.name;
        if !contains_name_model(declared, pn) {
            lemma_apply_steps_len(declared, patches.drop_first(), existing);
        } else if existing.contains(p.target.slug) {
            lemma_apply_steps_len(remove_name_model(declared, pn), patches.drop_first(), existing);
        } else {
            lemma_apply_steps_len(
                remove_name_model(declared, pn),
                patches.drop_first(),
                existing.insert(p.target.slug),
            );
        }
    }
}

/// Warn, do not fail, on a stale patch file: a patch file whose package is
/// not declared yields exactly a warning step at its own position, and the
/// run still plans steps for every remaining patch file and declared
/// target (the plan is total and has a step per patch file).
pub proof fn lemma_stale_patch_warns(
    declared: Seq<TargetModel>,
    patches: Seq<PatchModel>,
    existing: Set<Seq<char>>,
    j: int,
)
    requires
        0 <= j < patches.len(),
        !contains_name_model(declared, patches[j].target.pkg.name),
    ensures
        apply_steps(declared, patches, existing).len() >= patches.len(),
        (apply_steps(declared, patches, existing)[j] == StepModel::WarnStale {
            package_name: patches[j].target.pkg.name,
        }),
    decreases patches.len(),
{
    lemma_apply_steps_len(declared, patches, existing);
    let p = patches[0];
    let pn = p.target.pkg.name;
    if j == 0 {
        assert(!contains_name_model(declared, pn));
        let head = StepModel::WarnStale { package_name: pn };
        let tail = apply_steps(declared, patches.drop_first(), existing);
        assert((seq![head] + tail)[0] == head);
    } else {
        assert(patches.drop_first()[j - 1] == patches[j]);
        if !contains_name_model(declared, pn) {
            let head = StepModel::WarnStale { package_name: pn };
            let tail = apply_steps(declared, patches.drop_first(), existing);
            lemma_stale_patch_warns(declared, patches.drop_first(), existing, j - 1);
            assert((seq![head] + tail)[j] == tail[j - 1]);
        } else {
            let d2 = remove_name_model(declared, pn);
            lemma_remove_name_contains(declared, pn, patches[j].target.pkg.name);
            if existing.contains(p.target.slug) {
                let head = StepModel::SkipExisting { target: p.target };
                let tail = apply_steps(d2, patches.drop_first(), existing);
                lemma_stale_patch_warns(d2, patches.drop_first(), existing, j - 1);
                assert((seq![head] + tail)[j] == tail[j - 1]);
            } else {
                let head = StepModel::ApplyPatch {
                    target: p.target,
                    patch_file_name: p.file_name,
                };
                let e2 = existing.insert(p.target.slug);
                let tail = apply_steps(d2, patches.drop_first(), e2);
                lemma_stale_patch_warns(d2, patches.drop_first(), e2, j - 1);
                assert((seq![head] + tail)[j] == tail[j - 1]);
            }
        }
    }
}

/// The slugs materialized after executing `steps` against a target folder
/// that held `existing`: patch applications and plain copies materialize
/// their target's slug, warnings and skips touch nothing.
pub open spec fn effect(existing: Set<Seq<char>>, steps: Seq<StepModel>) -> Set<Seq<char>>
    decreases steps.len(),
{
    if steps.len() == 0 {
        existing
    } else {
        let e1 = match steps[0] {
            StepModel::ApplyPatch { target, .. } => existing.insert(target.slug),
            StepModel::CopyPlain { target } => existing.insert(target.slug),
            _ => existing,
        };
        effect(e1, steps.drop_first())
    }
}

/// Every step is a warning or a skip: nothing on disk changes.
pub open spec fn writes_nothing(steps: Seq<StepModel>) -> bool {
    forall|j: int|
        0 <= j < steps.len() ==> (steps[j] is WarnStale || steps[j] is SkipExisting)
}

/// The declared targets and the resolved patch files agree on resolution:
/// the locator gives one answer per package name.
pub open spec fn consistent_resolution(
    declared: Seq<TargetModel>,
    patches: Seq<PatchModel>,
) -> bool {
    forall|t: TargetModel, p: PatchModel|
        declared.contains(t) && patches.contains(p) && p.target.pkg.name == t.pkg.name
            ==> p.target == t
}

proof fn lemma_effect_monotone(existing: Set<Seq<char>>, steps: Seq<StepModel>)
    ensures
        existing.subset_of(effect(existing, steps)),
    decreases steps.len(),
{
    if steps.len() > 0 {
        let e1 = match steps[0] {
            StepModel::ApplyPatch { target, .. } => existing.insert(target.slug),
            StepModel::CopyPlain { target } => existing.insert(target.slug),
            _ => existing,
        };
        lemma_effect_monotone(e1, steps.drop_first());
    }
}

proof fn lemma_effect_of_non_writing(existing: Set<Seq<char>>, steps: Seq<StepModel>)
    requires
        writes_nothing(steps),
    ensures
        effect(existing, steps) == existing,
    decreases steps.len(),
{
    if steps.len() > 0 {
        assert(!(steps[0] is ApplyPatch) && !(steps[0] is CopyPlain));
        assert forall|j: int|
            0 <= j < steps.drop_first().len() implies (steps.drop_first()[j] is WarnStale
            || steps.drop_first()[j] is SkipExisting) by {
            assert(steps.drop_first()[j] == steps[j + 1]);
        }
        lemma_effect_of_non_writing(existing, steps.drop_first());
    }
}

proof fn lemma_contains_drop_first<A>(s: Seq<A>, x: A)
    requires
        s.len() > 0,
        s.drop_first().contains(x),
    ensures
        s.contains(x),
{
    let i = choose|i: int| 0 <= i < s.drop_first().len() && s.drop_first()[i] == x;
    assert(s[i + 1] == x);
}

proof fn lemma_consistent_shrinks(
    declared: Seq<TargetModel>,
    patches: Seq<PatchModel>,
    d2: Seq<TargetModel>,
    n: Seq<char>,
)
    requires
        consistent_resolution(declared, patches),
        patches.len() > 0,
        d2 == remove_name_model(declared, n),
    ensures
        consistent_resolution(declared, patches.drop_first()),
        consistent_resolution(d2, patches.drop_first()),
{
    assert forall|t: TargetModel, p: PatchModel|
        d2.contains(t) && patches.drop_first().contains(p) && p.target.pkg.name
            == t.pkg.name implies p.target == t by {
        lemma_remove_name_membership(declared, n, t);
        lemma_contains_drop_first(patches, p);
    }
    assert forall|t: TargetModel, p: PatchModel|
        declared.contains(t) && patches.drop_first().contains(p) && p.target.pkg.name
            == t.pkg.name implies p.target == t by {
        lemma_contains_drop_first(patches, p);
    }
}

proof fn lemma_leftover_covers_slugs(declared: Seq<TargetModel>, existing: Set<Seq<char>>)
    ensures
        forall|t: TargetModel|
            declared.contains(t) ==> effect(
                existing,
                leftover_steps(declared, existing),
            ).contains(t.slug),
    decreases declared.len(),
{
    if declared.len() > 0 {
        let d = declared[0];
        let steps = leftover_steps(declared, existing);
        if existing.contains(d.slug) {
            let tail = leftover_steps(declared.drop_first(), existing);
            assert(steps == seq![StepModel::SkipExisting { target: d }] + tail);
            assert(steps[0] == StepModel::SkipExisting { target: d });
            assert(steps.drop_first() =~= tail);
            assert(effect(existing, steps) == effect(existing, tail));
            lemma_leftover_covers_slugs(declared.drop_first(), existing);
            lemma_effect_monotone(existing, tail);
            assert forall|t: TargetModel| declared.contains(t) implies effect(
                existing,
                steps,
            ).contains(t.slug) by {
                let i = choose|i: int| 0 <= i < declared.len() && declared[i] == t;
                if i == 0 {
                    assert(existing.contains(t.slug));
                    assert(effect(existing, tail).contains(t.slug));
                } else {
                    assert(declared.drop_first()[i - 1] == t);
                    assert(declared.drop_first().contains(t));
                    assert(effect(existing, tail).contains(t.slug));
                }
            }
        } else {
            let e2 = existing.insert(d.slug);
            let tail = leftover_steps(declared.drop_first(), e2);
            assert(steps == seq![StepModel::CopyPlain { target: d }] + tail);
            assert(steps[0] == StepModel::CopyPlain { target: d });
            assert(steps.drop_first() =~= tail);
            assert(effect(existing, steps) == effect(e2, tail));
            lemma_leftover_covers_slugs(declared.drop_first(), e2);
            lemma_effect_monotone(e2, tail);
            assert forall|t: TargetModel| declared.contains(t) implies effect(
                existing,
                steps,
            ).contains(t.slug) by {
                let i = choose|i: int| 0 <= i < declared.len() && declared[i] == t;
                if i == 0 {
                    assert(e2.contains(t.slug));
                    assert(effect(e2, tail).contains(t.slug));
                } else {
                    assert(declared.drop_first()[i - 1] == t);
                    assert(declared.drop_first().contains(t));
                    assert(effect(e2, tail).contains(t.slug));
                }
            }
        }
    }
}

/// Reconciliation completeness on disk: after executing an apply-mode run,
/// every declared target's slug is present under the target folder,
/// whether a patch file for it existed or not. Requires only that the
/// declared targets and the patch files were resolved consistently (the
/// locator gives one answer per name).
pub proof fn lemma_run_covers_slugs(
    declared: Seq<TargetModel>,
    patches: Seq<PatchModel>,
    existing: Set<Seq<char>>,
)
    requires
        consistent_resolution(declared, patches),
    ensures
        forall|t: TargetModel|
            declared.contains(t) ==> effect(
                existing,
                apply_steps(declared, patches, existing),
            ).contains(t.slug),
    decreases patches.len(),
{
    if patches.len() == 0 {
        lemma_leftover_covers_slugs(declared, existing);
    } else {
        let p = patches[0];
        let pn = p.target.pkg.name;
        let steps = apply_steps(declared, patches, existing);
        if !contains_name_model(declared, pn) {
            let tail = apply_steps(declared, patches.drop_first(), existing);
            assert(steps == seq![StepModel::WarnStale { package_name: pn }] + tail);
            assert(steps[0] == StepModel::WarnStale { package_name: pn });
            assert(steps.drop_first() =~= tail);
            lemma_consistent_shrinks(declared, patches, remove_name_model(declared, pn), pn);
            lemma_run_covers_slugs(declared, patches.drop_first(), existing);
        } else {
            let d2 = remove_name_model(declared, pn);
            lemma_consistent_shrinks(declared, patches, d2, pn);
            if existing.contains(p.target.slug) {
                let tail = apply_steps(d2, patches.drop_first(), existing);
                assert(steps == seq![StepModel::SkipExisting { target: p.target }] + tail);
                assert(steps[0] == StepModel::SkipExisting { target: p.target });
                assert(steps.drop_first() =~= tail);
                assert(effect(existing, steps) == effect(existing, tail));
                lemma_run_covers_slugs(d2, patches.drop_first(), existing);
                lemma_effect_monotone(existing, tail);
                assert forall|t: TargetModel| declared.contains(t) implies effect(
                    existing,
                    steps,
                ).contains(t.slug) by {
                    if t.pkg.name == pn {
                        assert(patches.contains(p));
                        assert(p.target == t);
                    } else {
                        lemma_remove_name_membership(declared, pn, t);
                    }
                }
            } else {
                let e2 = existing.insert(p.target.slug);
                let tail = apply_steps(d2, patches.drop_first(), e2);
                assert(steps == seq![
                    StepModel::ApplyPatch { target: p.target, patch_file_name: p.file_name },
                ] + tail);
                assert(steps[0] == (StepModel::ApplyPatch {
                    target: p.target,
                    patch_file_name: p.file_name,
                }));
                assert(steps.drop_first() =~= tail);
                assert(effect(existing, steps) == effect(e2, tail));
                lemma_run_covers_slugs(d2, patches.drop_first(), e2);
                lemma_effect_monotone(e2, tail);
                assert forall|t: TargetModel| declared.contains(t) implies effect(
                    existing,
                    steps,
                ).contains(t.slug) by {
                    if t.pkg.name == pn {
                        assert(patches.contains(p));
                        assert(p.target == t);
                    } else {
                        lemma_remove_name_membership(declared, pn, t);
                    }
                }
            }
        }
    }
}

proof fn lemma_all_present_skips(
    declared: Seq<TargetModel>,
    patches: Seq<PatchModel>,
    existing: Set<Seq<char>>,
)
    requires
        consistent_resolution(declared, patches),
        forall|t: TargetModel| declared.contains(t) ==> existing.contains(t.slug),
    ensures
        writes_nothing(apply_steps(declared, patches, existing)),
    decreases patches.len(), declared.len(),
{
    if patches.len() == 0 {
        if declared.len() > 0 {
            let d = declared[0];
            assert(declared.contains(d));
            assert(existing.contains(d.slug));
            let tail = leftover_steps(declared.drop_first(), existing);
            assert forall|t: TargetModel| declared.drop_first().contains(t) implies
                existing.contains(t.slug) by {
                lemma_contains_drop_first(declared, t);
            }
            assert(consistent_resolution(declared.drop_first(), patches)) by {
                assert forall|t: TargetModel, p: PatchModel|
                    declared.drop_first().contains(t) && patches.contains(p)
                        && p.target.pkg.name == t.pkg.name implies p.target == t by {
                    lemma_contains_drop_first(declared, t);
                }
            }
            lemma_all_present_skips(declared.drop_first(), patches, existing);
            let steps = leftover_steps(declared, existing);
            assert(steps == seq![StepModel::SkipExisting { target: d }] + tail);
            assert forall|j: int| 0 <= j < steps.len() implies (steps[j] is WarnStale
                || steps[j] is SkipExisting) by {
                if j == 0 {
                    assert(steps[0] == StepModel::SkipExisting { target: d });
                } else {
                    assert(steps[j] == tail[j - 1]);
                }
            }
        }
    } else {
        let p = patches[0];
        let pn = p.target.pkg.name;
        let steps = apply_steps(declared, patches, existing);
        if !contains_name_model(declared, pn) {
            let tail = apply_steps(declared, patches.drop_first(), existing);
            assert(steps == seq![StepModel::WarnStale { package_name: pn }] + tail);
            lemma_consistent_shrinks(declared, patches, remove_name_model(declared, pn), pn);
            lemma_all_present_skips(declared, patches.drop_first(), existing);
            assert forall|j: int| 0 <= j < steps.len() implies (steps[j] is WarnStale
                || steps[j] is SkipExisting) by {
                if j == 0 {
                    assert(steps[0] == StepModel::WarnStale { package_name: pn });
                } else {
                    assert(steps[j] == tail[j - 1]);
                }
            }
        } else {
            let i = choose|i: int| 0 <= i < declared.len() && declared[i].pkg.name == pn;
            assert(declared.contains(declared[i]));
            assert(patches.contains(p));
            assert(p.target == declared[i]);
            assert(existing.contains(p.target.slug));
            let d2 = remove_name_model(declared, pn);
            let tail = apply_steps(d2, patches.drop_first(), existing);
            assert(steps == seq![StepModel::SkipExisting { target: p.target }] + tail);
            lemma_consistent_shrinks(declared, patches, d2, pn);
            assert forall|t: TargetModel| d2.contains(t) implies existing.contains(t.slug) by {
                lemma_remove_name_membership(declared, pn, t);
            }
            lemma_all_present_skips(d2, patches.drop_first(), existing);
            assert forall|j: int| 0 <= j < steps.len() implies (steps[j] is WarnStale
                || steps[j] is SkipExisting) by {
                if j == 0 {
                    assert(steps[0] == StepModel::SkipExisting { target: p.target });
                } else {
                    assert(steps[j] == tail[j - 1]);
                }
            }
        }
    }
}

/// Idempotence of apply-mode: with no external edits and no force flag, a
/// second run over the same declared targets and patch files, started from
/// the staged copies the first run left behind, only warns or skips — it
/// changes nothing on disk, and the set of staged copies stays what the
/// first run made it.
pub proof fn lemma_apply_mode_idempotent(
    declared: Seq<TargetModel>,
    patches: Seq<PatchModel>,
    existing: Set<Seq<char>>,
)
    requires
        consistent_resolution(declared, patches),
    ensures
        ({
            let first = apply_steps(declared, patches, existing);
            let after_first = effect(existing, first);
            let second = apply_steps(declared, patches, after_first);
            writes_nothing(second) && effect(after_first, second) == after_first
        }),
{
    let first = apply_steps(declared, patches, existing);
    let after_first = effect(existing, first);
    lemma_run_covers_slugs(declared, patches, existing);
    lemma_all_present_skips(declared, patches, after_first);
    lemma_effect_of_non_writing(after_first, apply_steps(declared, patches, after_first));
}

proof fn lemma_tmp_exists_concat(init: bool, a: Seq<CreateStepModel>, b: Seq<CreateStepModel>)
    ensures
        tmp_exists_after(init, a + b) == tmp_exists_after(tmp_exists_after(init, a), b),
    decreases a.len(),
{
    if a.len() == 0 {
        assert(a + b =~= b);
    } else {
        let next = match a[0] {
            CreateStepModel::PurgeTmp => false,
            CreateStepModel::RemoveTmp => false,
            CreateStepModel::CopyPristineToTmp { .. } => true,
            CreateStepModel::CopyStagedToTmp { .. } => true,
            _ => init,
        };
        assert((a + b)[0] == a[0]);
        assert((a + b).drop_first() =~= a.drop_first() + b);
        lemma_tmp_exists_concat(next, a.drop_first(), b);
    }
}

proof fn lemma_ends_with_removal(init: bool, steps: Seq<CreateStepModel>)
    requires
        steps.len() > 0,
        steps.last() is RemoveTmp || steps.last() is PurgeTmp,
    ensures
        !tmp_exists_after(init, steps),
    decreases steps.len(),
{
    let next = match steps[0] {
        CreateStepModel::PurgeTmp => false,
        CreateStepModel::RemoveTmp => false,
        CreateStepModel::CopyPristineToTmp { .. } => true,
        CreateStepModel::CopyStagedToTmp { .. } => true,
        _ => init,
    };
    assert(tmp_exists_after(init, steps) == tmp_exists_after(next, steps.drop_first()));
    if steps.len() == 1 {
        assert(steps.drop_first().len() == 0);
        assert(steps[0] == steps.last());
        assert(!next);
        assert(tmp_exists_after(next, steps.drop_first()) == next);
    } else {
        assert(steps.drop_first().last() == steps.last());
        lemma_ends_with_removal(next, steps.drop_first());
    }
}

proof fn lemma_per_target_clean(ts: Seq<TargetModel>, init: bool)
    requires
        ts.len() > 0,
    ensures
        !tmp_exists_after(init, per_target_steps(ts)),
    decreases ts.len(),
{
    let block = create_steps_for(ts[0]);
    let rest = per_target_steps(ts.drop_first());
    assert(per_target_steps(ts) == block + rest);
    lemma_tmp_exists_concat(init, block, rest);
    assert(block.last() is RemoveTmp);
    lemma_ends_with_removal(init, block);
    if ts.drop_first().len() == 0 {
        assert(rest.len() == 0);
    } else {
        lemma_per_target_clean(ts.drop_first(), tmp_exists_after(init, block));
    }
}

/// Scratch cleanup on success: after a full create-mode run over any
/// package list, the scratch folder does not exist — whatever state an
/// earlier, interrupted run may have left it in.
pub proof fn lemma_scratch_cleanup_on_success(ts: Seq<TargetModel>, init: bool)
    ensures
        !tmp_exists_after(init, create_plan_model(ts)),
{
    let pre = seq![CreateStepModel::EnsurePatchesFolder, CreateStepModel::PurgeTmp];
    lemma_tmp_exists_concat(init, pre, per_target_steps(ts));
    assert(pre.last() is PurgeTmp);
    lemma_ends_with_removal(init, pre);
    if ts.len() > 0 {
        lemma_per_target_clean(ts, tmp_exists_after(init, pre));
    }
}

/// Scratch cleanup on failure: whatever prefix of a create-mode plan ran
/// before the first failing step, following it with the cleanup step
/// leaves no scratch folder behind.
pub proof fn lemma_scratch_cleanup_after_abort(executed: Seq<CreateStepModel>, init: bool)
    ensures
        !tmp_exists_after(init, executed.push(CreateStepModel::RemoveTmp)),
{
    assert(executed.push(CreateStepModel::RemoveTmp).last() is RemoveTmp);
    lemma_ends_with_removal(init, executed.push(CreateStepModel::RemoveTmp));
}

/// The round trip at the plan level: the patch filename create-mode writes
/// for a package parses back to exactly that package's name and version,
/// and a later apply-mode run over a wiped target folder stages a fresh
/// copy and applies exactly that file to it. That applying the diff then
/// reconstructs the edited content byte for byte is the diff engine's
/// contract, outside this model.
pub proof fn lemma_create_then_apply_round_trip(t: TargetModel)
    requires
        forall|j: int| 0 <= j < t.pkg.name.len() ==> t.pkg.name[j] != '+',
    ensures
        parse_model(patch_file_name_model(t.pkg.name, t.pkg.version)) == Some(
            (t.pkg.name, t.pkg.version),
        ),
        (apply_steps(
            seq![t],
            seq![
                PatchModel {
                    file_name: patch_file_name_model(t.pkg.name, t.pkg.version),
                    target: t,
                },
            ],
            Set::empty(),
        ) == seq![
            StepModel::ApplyPatch {
                target: t,
                patch_file_name: patch_file_name_model(t.pkg.name, t.pkg.version),
            },
        ]),
{
    lemma_patch_file_name_round_trip(t.pkg.name, t.pkg.version);
    let f = patch_file_name_model(t.pkg.name, t.pkg.version);
    let ds = seq![t];
    let ps = seq![PatchModel { file_name: f, target: t }];
    assert(ds[0].pkg.name == t.pkg.name);
    assert(contains_name_model(ds, t.pkg.name));
    assert(!Set::<Seq<char>>::empty().contains(t.slug));
    let d2 = remove_name_model(ds, t.pkg.name);
    assert(ds.drop_first() =~= Seq::<TargetModel>::empty());
    assert(remove_name_model(Seq::<TargetModel>::empty(), t.pkg.name)
        == Seq::<TargetModel>::empty());
    assert(d2 == Seq::<TargetModel>::empty());
    assert(ps.drop_first() =~= Seq::<PatchModel>::empty());
    let e2 = Set::<Seq<char>>::empty().insert(t.slug);
    assert(apply_steps(d2, ps.drop_first(), e2) == leftover_steps(d2, e2));
    assert(leftover_steps(Seq::<TargetModel>::empty(), e2) == Seq::<StepModel>::empty());
    assert(apply_steps(ds, ps, Set::empty()) =~= seq![
        StepModel::ApplyPatch { target: t, patch_file_name: f },
    ]);
}

} // verus!
