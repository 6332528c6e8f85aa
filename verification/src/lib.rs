//! Record and reapply local patches to third-party dependencies.
//!
//! The crate models the patch lifecycle — staging a dependency's source,
//! diffing an edited copy against a pristine one, and reapplying recorded
//! patch files on later builds — as pure, verified decision logic. All
//! filesystem work, subprocess calls and dependency resolution happen
//! outside, driven by the plans these modules compute.

pub mod controller;
pub mod create;
pub mod error;
pub mod laws;
pub mod patch_name;
pub mod pkg;
pub mod plan;
pub mod staging;
