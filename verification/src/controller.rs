use vstd::prelude::*;
use crate::pkg::{Target, TargetModel};
use crate::plan::contains_name_model;

verus! {

/// The two top-level modes: naming packages requests patch creation for
/// exactly those packages; naming none reconciles and applies.
pub enum Mode {
    CreatePatches,
    ApplyPatches,
}

/// Choose the mode from the package names the invocation carries.
pub fn select_mode(crate_names: &Vec<String>) -> (m: Mode)
    ensures
        m is ApplyPatches <==> crate_names@.len() == 0,
        m is CreatePatches <==> crate_names@.len() > 0,
{
    if crate_names.len() == 0 {
        Mode::ApplyPatches
    } else {
        Mode::CreatePatches
    }
}

/// The tool's own invocation token, which argument forwarding can leave in
/// the package-name list.
pub open spec fn self_token() -> Seq<char> {
    "patch-crate"@
}

/// The index of the first occurrence of the invocation token in `s`, or
/// `s.len()` if it does not occur.
pub open spec fn first_token_index(s: Seq<Seq<char>>) -> int
    decreases s.len(),
{
    if s.len() == 0 {
        0
    } else if s[0] == self_token() {
        0
    } else {
        1 + first_token_index(s.drop_first())
    }
}

/// The name list with the first occurrence of the invocation token
/// removed, and unchanged when the token does not occur.
pub open spec fn strip_model(s: Seq<Seq<char>>) -> Seq<Seq<char>> {
    let i = first_token_index(s);
    if i == s.len() {
        s
    } else {
        s.remove(i)
    }
}

proof fn lemma_first_token_props(s: Seq<Seq<char>>)
    ensures
        0 <= first_token_index(s) <= s.len(),
        forall|j: int| 0 <= j < first_token_index(s) ==> s[j] != self_token(),
        first_token_index(s) < s.len() ==> s[first_token_index(s)] == self_token(),
    decreases s.len(),
{
    if s.len() > 0 && s[0] != self_token() {
        lemma_first_token_props(s.drop_first());
        assert forall|j: int| 0 <= j < first_token_index(s) implies s[j] != self_token() by {
            if j > 0 {
                assert(s.drop_first()[j - 1] == s[j]);
            }
        }
        if first_token_index(s) < s.len() {
            assert(s.drop_first()[first_token_index(s) - 1] == s[first_token_index(s)]);
        }
    }
}

proof fn lemma_first_token_at(s: Seq<Seq<char>>, i: int)
    requires
        0 <= i < s.len(),
        s[i] == self_token(),
        forall|j: int| 0 <= j < i ==> s[j] != self_token(),
    ensures
        first_token_index(s) == i,
    decreases s.len(),
{
    if i > 0 {
        assert forall|j: int| 0 <= j < i - 1 implies s.drop_first()[j] != self_token() by {
            assert(s.drop_first()[j] == s[j + 1]);
        }
        assert(s.drop_first()[i - 1] == s[i]);
        lemma_first_token_at(s.drop_first(), i - 1);
    }
}

fn find_self_token(names: &Vec<String>) -> (idx: usize)
    ensures
        idx as int == first_token_index(names.deep_view()),
{
    let ghost dv = names.deep_view();
    let token: String = String::from_str("patch-crate");
    let mut k: usize = 0;
    while k < names.len()
        invariant
            k <= names.len(),
            dv == names.deep_view(),
            token@ == self_token(),
            forall|j: int| 0 <= j < k ==> dv[j] != self_token(),
        decreases names.len() - k,
    {
        if names[k] == token {
            proof {
                assert(dv[k as int] == self_token());
                lemma_first_token_at(dv, k as int);
            }
            return k;
        }
        k = k + 1;
    }
    proof {
        lemma_first_token_props(dv);
        if first_token_index(dv) < dv.len() {
            assert(dv[first_token_index(dv)] == self_token());
        }
    }
    names.len()
}

/// Drop the tool's own invocation token, if argument forwarding left it
/// among the requested package names (its first occurrence only).
pub fn strip_self_token(names: &Vec<String>) -> (r: Vec<String>)
    ensures
        r.deep_view() == strip_model(names.deep_view()),
{
    let ghost dv = names.deep_view();
    let idx = find_self_token(names);
    proof {
        lemma_first_token_props(dv);
    }
    let mut r: Vec<String> = Vec::new();
    let mut k: usize = 0;
    while k < names.len()
        invariant
            k <= names.len(),
            dv == names.deep_view(),
            idx as int == first_token_index(dv),
            idx <= names.len(),
            (r.deep_view() == if k <= idx {
                dv.take(k as int)
            } else {
                dv.take(idx as int) + dv.subrange(idx as int + 1, k as int)
            }),
        decreases names.len() - k,
    {
        let ghost r0 = r.deep_view();
        if k != idx {
            r.push(names[k].clone());
            proof {
                assert(r.deep_view() =~= r0.push(dv[k as int]));
                if k < idx {
                    assert(dv.take(k as int + 1) =~= dv.take(k as int).push(dv[k as int]));
                } else {
                    assert(dv.take(idx as int) + dv.subrange(idx as int + 1, k as int + 1)
                        =~= (dv.take(idx as int) + dv.subrange(idx as int + 1, k as int)).push(
                        dv[k as int],
                    ));
                }
            }
        } else {
            proof {
                assert(dv.take(idx as int) + dv.subrange(idx as int + 1, idx as int + 1)
                    =~= dv.take(idx as int));
            }
        }
        k = k + 1;
    }
    proof {
        if idx == names.len() {
            assert(dv.take(names.len() as int) =~= dv);
        } else {
            assert(dv.take(idx as int) + dv.subrange(idx as int + 1, names.len() as int)
                =~= dv.remove(idx as int));
        }
    }
    r
}

/// The declared-target list with later repetitions of a package name
/// dropped: each name keeps its first occurrence only.
pub open spec fn dedup_model(s: Seq<TargetModel>) -> Seq<TargetModel>
    decreases s.len(),
{
    if s.len() == 0 {
        s
    } else {
        let pre = dedup_model(s.drop_last());
        if contains_name_model(s.drop_last(), s.last().pkg.name) {
            pre
        } else {
            pre.push(s.last())
        }
    }
}

fn contains_name_prefix(v: &Vec<Target>, end: usize, name: &String) -> (b: bool)
    requires
        end <= v.len(),
    ensures
        b == contains_name_model(v.deep_view().take(end as int), name@),
{
    let ghost pre = v.deep_view().take(end as int);
    let mut k: usize = 0;
    while k < end
        invariant
            k <= end <= v.len(),
            pre == v.deep_view().take(end as int),
            forall|j: int| 0 <= j < k ==> pre[j].pkg.name != name@,
        decreases end - k,
    {
        if v[k].pkg.name == *name {
            proof {
                assert(pre[k as int] == v.deep_view()[k as int]);
            }
            return true;
        }
        proof {
            assert(pre[k as int] == v.deep_view()[k as int]);
        }
        k = k + 1;
    }
    false
}

/// Deduplicate the declared patch targets by package name, keeping first
/// occurrences in order (the declared set is unique by name).
pub fn dedup_by_name(v: &Vec<Target>) -> (r: Vec<Target>)
    ensures
        r.deep_view() == dedup_model(v.deep_view()),
{
    let ghost dv = v.deep_view();
    let mut r: Vec<Target> = Vec::new();
    proof {
        assert(dv.take(0) =~= Seq::<TargetModel>::empty());
    }
    let mut i: usize = 0;
    while i < v.len()
        invariant
            i <= v.len(),
            dv == v.deep_view(),
            r.deep_view() == dedup_model(dv.take(i as int)),
        decreases v.len() - i,
    {
        let ghost r0 = r.deep_view();
        proof {
            assert(dv.take(i as int + 1).drop_last() =~= dv.take(i as int));
            assert(dv.take(i as int + 1).last() == dv[i as int]);
        }
        let seen = contains_name_prefix(v, i, &v[i].pkg.name);
        if !seen {
            r.push(v[i].duplicate());
            proof {
                assert(r.deep_view() =~= r0.push(dv[i as int]));
            }
        }
        i = i + 1;
    }
    proof {
        assert(dv.take(v.len() as int) =~= dv);
    }
    r
}

} // verus!
