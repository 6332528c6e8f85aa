use vstd::prelude::*;
use crate::error::PatchError;

verus! {

/// The `.patch` filename extension, as characters.
pub open spec fn patch_ext_model() -> Seq<char> {
    seq!['.', 'p', 'a', 't', 'c', 'h']
}

/// A filename the patches folder recognises: a non-empty stem followed by
/// the `.patch` extension.
pub open spec fn has_patch_ext_model(s: Seq<char>) -> bool {
    s.len() >= 7 && s.subrange(s.len() - 6, s.len() as int) == patch_ext_model()
}

/// The filename with its `.patch` extension removed.
pub open spec fn stem_model(s: Seq<char>) -> Seq<char> {
    s.subrange(0, s.len() - 6)
}

/// The index of the first `+` in `s`, or `s.len()` if `s` has none.
pub open spec fn first_plus(s: Seq<char>) -> int
    decreases s.len(),
{
    if s.len() == 0 {
        0
    } else if s[0] == '+' {
        0
    } else {
        1 + first_plus(s.drop_first())
    }
}

proof fn lemma_first_plus_props(s: Seq<char>)
    ensures
        0 <= first_plus(s) <= s.len(),
        forall|j: int| 0 <= j < first_plus(s) ==> s[j] != '+',
        first_plus(s) < s.len() ==> s[first_plus(s)] == '+',
    decreases s.len(),
{
    if s.len() > 0 && s[0] != '+' {
        lemma_first_plus_props(s.drop_first());
        assert forall|j: int| 0 <= j < first_plus(s) implies s[j] != '+' by {
            if j > 0 {
                assert(s.drop_first()[j - 1] == s[j]);
            }
        }
        if first_plus(s) < s.len() {
            assert(s.drop_first()[first_plus(s) - 1] == s[first_plus(s)]);
        }
    }
}

proof fn lemma_first_plus_at(s: Seq<char>, i: int)
    requires
        0 <= i < s.len(),
        s[i] == '+',
        forall|j: int| 0 <= j < i ==> s[j] != '+',
    ensures
        first_plus(s) == i,
    decreases s.len(),
{
    if i > 0 {
        assert forall|j: int| 0 <= j < i - 1 implies s.drop_first()[j] != '+' by {
            assert(s.drop_first()[j] == s[j + 1]);
        }
        assert(s.drop_first()[i - 1] == s[i]);
        lemma_first_plus_at(s.drop_first(), i - 1);
    }
}

/// What a recognised patch filename denotes: the package name before the
/// first `+` of the stem, and the version text after it; `None` when the
/// name does not carry the `.patch` extension or its stem has no `+`.
pub open spec fn parse_model(s: Seq<char>) -> Option<(Seq<char>, Seq<char>)> {
    if !has_patch_ext_model(s) {
        None
    } else {
        let stem = stem_model(s);
        let i = first_plus(stem);
        if i == stem.len() {
            None
        } else {
            Some((stem.subrange(0, i), stem.subrange(i + 1, stem.len() as int)))
        }
    }
}

/// The filename under which a patch for package `name` at `version` is
/// persisted: `<name>+<version>.patch`.
pub open spec fn patch_file_name_model(name: Seq<char>, version: Seq<char>) -> Seq<char> {
    name + seq!['+'] + version + patch_ext_model()
}

/// A patch filename parsed into its typed parts.
pub struct PatchName {
    pub package_name: String,
    pub version_string: String,
}

/// Whether a directory entry's filename is one the patches folder
/// recognises (per `has_patch_ext_model`).
pub fn has_patch_extension(s: &str) -> (b: bool)
    ensures
        b == has_patch_ext_model(s@),
{
    let n: usize = s.unicode_len();
    if n < 7 {
        return false;
    }
    let b = s.get_char(n - 6) == '.' && s.get_char(n - 5) == 'p' && s.get_char(n - 4) == 'a'
        && s.get_char(n - 3) == 't' && s.get_char(n - 2) == 'c' && s.get_char(n - 1) == 'h';
    proof {
        if b {
            assert(s@.subrange(n as int - 6, n as int) =~= patch_ext_model());
        } else {
            assert(s@.subrange(n as int - 6, n as int) != patch_ext_model()) by {
                if s@.subrange(n as int - 6, n as int) == patch_ext_model() {
                    assert(s@[n as int - 6] == patch_ext_model()[0]);
                    assert(s@[n as int - 5] == patch_ext_model()[1]);
                    assert(s@[n as int - 4] == patch_ext_model()[2]);
                    assert(s@[n as int - 3] == patch_ext_model()[3]);
                    assert(s@[n as int - 2] == patch_ext_model()[4]);
                    assert(s@[n as int - 1] == patch_ext_model()[5]);
                }
            }
        }
    }
    b
}

/// Parse `<name>+<version>.patch`. Fails with a `Naming` error exactly when
/// the filename is not a recognised patch filename or its stem lacks the
/// `+` separator.
pub fn parse_patch_file_name(s: &str) -> (r: Result<PatchName, PatchError>)
    ensures
        match r {
            Ok(pn) => parse_model(s@) == Some((pn.package_name@, pn.version_string@)),
            Err(e) => parse_model(s@) is None && e is Naming,
        },
{
    if !has_patch_extension(s) {
        return Err(
            PatchError::Naming {
                message: String::from_str("not a patch file name"),
            },
        );
    }
    let n: usize = s.unicode_len();
    let stem_len: usize = n - 6;
    let ghost stem = stem_model(s@);
    proof {
        assert(stem.len() == stem_len);
    }
    let mut i: usize = 0;
    while i < stem_len && s.get_char(i) != '+'
        invariant
            i <= stem_len,
            stem_len == n - 6,
            n == s@.len(),
            n >= 7,
            stem == stem_model(s@),
            forall|j: int| 0 <= j < i ==> s@[j] != '+',
        decreases stem_len - i,
    {
        i = i + 1;
    }
    proof {
        assert forall|j: int| 0 <= j < i implies stem[j] != '+' by {
            assert(stem[j] == s@[j]);
        }
    }
    if i == stem_len {
        proof {
            lemma_first_plus_props(stem);
            if first_plus(stem) < stem.len() {
                assert(stem[first_plus(stem)] == '+');
            }
            assert(first_plus(stem) == stem.len());
        }
        return Err(
            PatchError::Naming {
                message: String::from_str("patch file name is missing the + separator"),
            },
        );
    }
    proof {
        assert(stem[i as int] == s@[i as int]);
        lemma_first_plus_at(stem, i as int);
        assert(stem.subrange(0, i as int) =~= s@.subrange(0, i as int));
        assert(stem.subrange(i + 1, stem.len() as int) =~= s@.subrange(
            i as int + 1,
            stem_len as int,
        ));
    }
    let name: &str = s.substring_char(0, i);
    let version: &str = s.substring_char(i + 1, stem_len);
    Ok(
        PatchName {
            package_name: String::from_str(name),
            version_string: String::from_str(version),
        },
    )
}

/// Build the durable patch filename `<name>+<version>.patch` for a package.
pub fn format_patch_file_name(name: &str, version: &str) -> (r: String)
    ensures
        r@ == patch_file_name_model(name@, version@),
{
    let mut r = String::from_str(name);
    r.append("+");
    r.append(version);
    r.append(".patch");
    proof {
        reveal_strlit("+");
        reveal_strlit(".patch");
        assert("+"@ =~= seq!['+']);
        assert(".patch"@ =~= patch_ext_model());
    }
    r
}

/// Round-trip law: a filename built for a package whose name holds no `+`
/// parses back to exactly that name and version.
pub proof fn lemma_patch_file_name_round_trip(name: Seq<char>, version: Seq<char>)
    requires
        forall|j: int| 0 <= j < name.len() ==> name[j] != '+',
    ensures
        parse_model(patch_file_name_model(name, version)) == Some((name, version)),
{
    let s = patch_file_name_model(name, version);
    assert(s.len() == name.len() + 1 + version.len() + 6);
    assert(s.subrange(s.len() - 6, s.len() as int) =~= patch_ext_model());
    let stem = stem_model(s);
    assert(stem =~= name + seq!['+'] + version);
    assert(stem[name.len() as int] == '+');
    assert forall|j: int| 0 <= j < name.len() implies stem[j] != '+' by {
        assert(stem[j] == name[j]);
    }
    lemma_first_plus_at(stem, name.len() as int);
    assert(stem.subrange(0, name.len() as int) =~= name);
    assert(stem.subrange(name.len() as int + 1, stem.len() as int) =~= version);
}

} // verus!
