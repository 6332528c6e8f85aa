use vstd::prelude::*;

verus! {

/// The error kinds the patch lifecycle distinguishes.
///
/// `NotFound` is a dependency name absent from the current resolution,
/// `Io` a failed filesystem operation, `Naming` a package source path with
/// no usable final segment or a malformed patch filename, `PatchApply` a
/// unified diff that does not apply cleanly, and `Backend` an opaque
/// resolver or registry failure.
#[derive(Debug)]
pub enum PatchError {
    NotFound { name: String },
    Io { message: String },
    Naming { message: String },
    PatchApply { message: String },
    Backend { message: String },
}

impl PatchError {
    /// The human-readable text carried by the error.
    pub fn message(&self) -> (r: String)
        ensures
            r@ == match *self {
                PatchError::NotFound { ref name } => name@,
                PatchError::Io { ref message } => message@,
                PatchError::Naming { ref message } => message@,
                PatchError::PatchApply { ref message } => message@,
                PatchError::Backend { ref message } => message@,
            },
    {
        match self {
            PatchError::NotFound { name } => name.clone(),
            PatchError::Io { message } => message.clone(),
            PatchError::Naming { message } => message.clone(),
            PatchError::PatchApply { message } => message.clone(),
            PatchError::Backend { message } => message.clone(),
        }
    }
}

} // verus!
