//! Resolution and installation of a project's package set: a manifest of
//! pinned packages is parsed into a catalog, the transitive closure of the
//! project's direct dependencies is computed, each package of the closure is
//! fetched into a cache at most once, and the result is a mapping from package
//! name to the local path of its sources.
use vstd::prelude::*;

pub mod bytes;
pub mod package;
pub mod resolve;
pub mod cache;
pub mod manifest;
pub mod install;
pub mod laws;
pub mod layout;
