//! Consolidation of a resolved package graph with the overrides that a user
//! has given for single crates: the graph is checked for duplicates, each
//! package gets the override under its name, and the result goes on to the
//! renderer in an order that does not change from run to run.

pub mod context;
pub mod duplicates;
pub mod engine;
pub mod error;
pub mod extra_deps;
pub mod ordered;
pub mod overrides;
pub mod targets;
pub mod text;
pub mod version;

pub use crate::context::{
    BuildableDependency, CrateContext, CrateDependencyContext, CrateSettings,
    CrateTargetedDepContext,
};
pub use crate::engine::{Consolidator, RendererInput};
pub use crate::error::ConsolidationError;
pub use crate::ordered::{OrderedMap, OrderedSet};
pub use crate::overrides::{ConsolidatorConfig, ConsolidatorOverride};
