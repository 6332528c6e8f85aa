use vstd::prelude::*;
use crate::error::PatchError;

verus! {

/// Mathematical model of a resolved package: its name, version and the
/// absolute path of its pristine source root, each as a character sequence.
#[verifier::ext_equal]
pub struct PkgModel {
    pub name: Seq<char>,
    pub version: Seq<char>,
    pub source_root: Seq<char>,
}

/// A dependency as the resolver reports it: identity is `(name, version)`,
/// and `source_root` is the on-disk root of its pristine source.
pub struct PackageRef {
    pub name: String,
    pub version: String,
    pub source_root: String,
}

impl View for PackageRef {
    type V = PkgModel;

    open spec fn view(&self) -> PkgModel {
        PkgModel { name: self.name@, version: self.version@, source_root: self.source_root@ }
    }
}

impl DeepView for PackageRef {
    type V = PkgModel;

    open spec fn deep_view(&self) -> PkgModel {
        self.view()
    }
}

/// `s` with every trailing `/` removed.
pub open spec fn trim_trailing_sep(s: Seq<char>) -> Seq<char>
    decreases s.len(),
{
    if s.len() > 0 && s[s.len() - 1] == '/' {
        trim_trailing_sep(s.drop_last())
    } else {
        s
    }
}

/// The index of the last `/` in `s`, or `-1` if `s` has none.
pub open spec fn last_sep_index(s: Seq<char>) -> int
    decreases s.len(),
{
    if s.len() == 0 {
        -1
    } else if s[s.len() - 1] == '/' {
        s.len() - 1
    } else {
        last_sep_index(s.drop_last())
    }
}

/// The slug of a source-root path: its final path segment, with trailing
/// separators ignored; `None` when nothing remains (for example a root
/// path), in which case the package cannot be staged.
pub open spec fn slug_model(s: Seq<char>) -> Option<Seq<char>> {
    let t = trim_trailing_sep(s);
    if t.len() == 0 {
        None
    } else {
        Some(t.subrange(last_sep_index(t) + 1, t.len() as int))
    }
}

proof fn lemma_last_sep_at(s: Seq<char>, i: int)
    requires
        0 <= i < s.len(),
        s[i] == '/',
        forall|j: int| i < j < s.len() ==> s[j] != '/',
    ensures
        last_sep_index(s) == i,
    decreases s.len(),
{
    if i < s.len() - 1 {
        assert(s[s.len() - 1] != '/');
        assert forall|j: int| i < j < s.drop_last().len() implies s.drop_last()[j] != '/' by {
            assert(s.drop_last()[j] == s[j]);
        }
        lemma_last_sep_at(s.drop_last(), i);
    }
}

proof fn lemma_no_sep(s: Seq<char>)
    requires
        forall|j: int| 0 <= j < s.len() ==> s[j] != '/',
    ensures
        last_sep_index(s) == -1,
    decreases s.len(),
{
    if s.len() > 0 {
        assert forall|j: int| 0 <= j < s.drop_last().len() implies s.drop_last()[j] != '/' by {
            assert(s.drop_last()[j] == s[j]);
        }
        lemma_no_sep(s.drop_last());
    }
}

/// The final path segment of `s`, per `slug_model`.
pub fn slug_of(s: &str) -> (r: Option<String>)
    ensures
        match r {
            Some(slug) => slug_model(s@) == Some(slug@),
            None => slug_model(s@) is None,
        },
{
    let n: usize = s.unicode_len();
    let mut end: usize = n;
    proof {
        assert(s@.subrange(0, n as int) =~= s@);
    }
    while end > 0 && s.get_char(end - 1) == '/'
        invariant
            end <= n,
            n == s@.len(),
            trim_trailing_sep(s@) == trim_trailing_sep(s@.subrange(0, end as int)),
        decreases end,
    {
        proof {
            assert(s@.subrange(0, end as int).drop_last() =~= s@.subrange(0, end as int - 1));
        }
        end = end - 1;
    }
    if end == 0 {
        proof {
            assert(s@.subrange(0, 0).len() == 0);
        }
        return None;
    }
    let ghost t = s@.subrange(0, end as int);
    proof {
        assert(t[end as int - 1] == s@[end as int - 1]);
        assert(trim_trailing_sep(t) == t);
    }
    let mut start: usize = end;
    while start > 0 && s.get_char(start - 1) != '/'
        invariant
            start <= end <= n,
            n == s@.len(),
            forall|j: int| start <= j < end ==> s@[j] != '/',
        decreases start,
    {
        start = start - 1;
    }
    proof {
        assert forall|j: int| start < j < t.len() implies t[j] != '/' by {
            assert(t[j] == s@[j]);
        }
        if start > 0 {
            assert(t[start as int - 1] == s@[start as int - 1]);
            lemma_last_sep_at(t, start as int - 1);
        } else {
            assert forall|j: int| 0 <= j < t.len() implies t[j] != '/' by {
                assert(t[j] == s@[j]);
            }
            lemma_no_sep(t);
        }
        assert(t.subrange(last_sep_index(t) + 1, t.len() as int) =~= s@.subrange(
            start as int,
            end as int,
        ));
    }
    let seg: &str = s.substring_char(start, end);
    Some(String::from_str(seg))
}

/// Mathematical model of a staging target: the package plus its slug.
#[verifier::ext_equal]
pub struct TargetModel {
    pub pkg: PkgModel,
    pub slug: Seq<char>,
}

impl TargetModel {
    /// The slug really is the final segment of the package's source root.
    pub open spec fn wf(self) -> bool {
        slug_model(self.pkg.source_root) == Some(self.slug)
    }
}

/// A package validated for staging: carries the slug — the directory name
/// its staged copy uses under the target folder — derived from its source
/// root at construction.
pub struct Target {
    pub pkg: PackageRef,
    pub slug: String,
}

impl View for Target {
    type V = TargetModel;

    open spec fn view(&self) -> TargetModel {
        TargetModel { pkg: self.pkg@, slug: self.slug@ }
    }
}

impl DeepView for Target {
    type V = TargetModel;

    open spec fn deep_view(&self) -> TargetModel {
        self.view()
    }
}

impl Target {
    /// Validated constructor: succeeds exactly when the package's source
    /// root has a final path segment, and records that segment as the slug.
    pub fn new(pkg: PackageRef) -> (r: Result<Target, PatchError>)
        ensures
            r is Ok <==> slug_model(pkg@.source_root) is Some,
            match r {
                Ok(t) => t@.pkg == pkg@ && t@.wf(),
                Err(e) => e is Naming,
            },
    {
        match slug_of(pkg.source_root.as_str()) {
            Some(slug) => Ok(Target { pkg, slug }),
            None => Err(
                PatchError::Naming {
                    message: String::from_str("dependency folder does not have a name"),
                },
            ),
        }
    }

    /// An independent copy with the same model.
    pub fn duplicate(&self) -> (r: Target)
        ensures
            r@ == self@,
    {
        Target {
            pkg: PackageRef {
                name: self.pkg.name.clone(),
                version: self.pkg.version.clone(),
                source_root: self.pkg.source_root.clone(),
            },
            slug: self.slug.clone(),
        }
    }
}

} // verus!
