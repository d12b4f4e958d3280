//! The engine of a software installer: a manifest of categories and
//! components with derived identifiers, dependency resolution and selection
//! bookkeeping, the decisions of an install run, and the installer's phases.
use vstd::prelude::*;

pub mod closure;
pub mod ids;
pub mod install;
pub mod laws;
pub mod manifest;
pub mod session;

verus! {

} // verus!
