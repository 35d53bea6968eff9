//! Build graph execution engine: dependency resolution over build rules,
//! artifact/output planning, and the toolchain acquisition lifecycle.

pub mod acquire;
pub mod build_artifact;
pub mod build_context;
pub mod build_rules;
pub mod depgraph;
pub mod errors;
pub mod model;
pub mod paths;
pub mod toolchain_manager;
pub mod toolchains;

use vstd::prelude::*;

verus! {

} // verus!
