//! Dependency bookkeeping for singleton components: a dependency graph that refuses
//! cycles, a resolution context that hands components to the ones that wait for them,
//! and a destruction order that follows the graph.

pub mod component;
pub mod graph;
pub mod resolution;
pub mod store;
pub mod wake;

pub use crate::component::{ComponentError, ComponentInfo, ComponentName};
pub use crate::resolution::{
    ComponentDAG, ComponentResolver, Inner, ResolutionContext, ResolveFuture,
};
pub use crate::store::{ComponentStore, ComponentStoreBuilder, DAGDestructor, StoreBuild};
