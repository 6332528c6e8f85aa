use vstd::prelude::*;
use crate::pkg::Target;

verus! {

/// What `copy_package` does with the destination directory.
pub enum CopyAction {
    /// The destination exists and overwriting is off: keep it, report a skip.
    SkipExisting,
    /// The destination exists and overwriting is on: delete it, then copy fresh.
    ReplaceThenCopy,
    /// No destination yet: copy fresh.
    FreshCopy,
}

/// The copy-with-overwrite-policy decision of the staging store: an
/// existing staged copy is kept unless overwriting was requested, and is
/// otherwise deleted before the fresh recursive copy.
pub fn copy_decision(dest_exists: bool, overwrite: bool) -> (a: CopyAction)
    ensures
        a is SkipExisting <==> (dest_exists && !overwrite),
        a is ReplaceThenCopy <==> (dest_exists && overwrite),
        a is FreshCopy <==> !dest_exists,
{
    if dest_exists {
        if overwrite {
            CopyAction::ReplaceThenCopy
        } else {
            CopyAction::SkipExisting
        }
    } else {
        CopyAction::FreshCopy
    }
}

/// The folder of durable patch files, under the workspace root.
pub fn patches_folder(root: &str) -> (r: String)
    ensures
        r@ == root@ + "/patches"@,
{
    String::from_str(root).concat("/patches")
}

/// The folder of long-lived staged copies, under the workspace root.
pub fn patch_target_folder(root: &str) -> (r: String)
    ensures
        r@ == root@ + "/target/patch"@,
{
    String::from_str(root).concat("/target/patch")
}

/// The ephemeral scratch folder used only during patch creation.
pub fn patch_target_tmp_folder(root: &str) -> (r: String)
    ensures
        r@ == root@ + "/target/patch-tmp"@,
{
    String::from_str(root).concat("/target/patch-tmp")
}

/// Where a package's staged copy lives: the target folder plus its slug.
pub fn patch_target_path(root: &str, target: &Target) -> (r: String)
    ensures
        r@ == root@ + "/target/patch/"@ + target@.slug,
{
    let mut r = String::from_str(root);
    r.append("/target/patch/");
    r.append(target.slug.as_str());
    r
}

/// Where a package's scratch copy lives during patch creation.
pub fn patch_target_tmp_path(root: &str, target: &Target) -> (r: String)
    ensures
        r@ == root@ + "/target/patch-tmp/"@ + target@.slug,
{
    let mut r = String::from_str(root);
    r.append("/target/patch-tmp/");
    r.append(target.slug.as_str());
    r
}

/// Where a patch file lives: the patches folder plus its filename.
pub fn patch_file_path(root: &str, file_name: &str) -> (r: String)
    ensures
        r@ == root@ + "/patches/"@ + file_name@,
{
    let mut r = String::from_str(root);
    r.append("/patches/");
    r.append(file_name);
    r
}

} // verus!
