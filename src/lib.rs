//! The scheduling core of a test framework with injected fixtures: a dependency/exclusion
//! graph builder, a conflict-aware scheduler, a type-keyed resource store with shared and
//! exclusive access, and the per-invocation dependency bundle.

pub mod config;
pub mod engine;
pub mod runnable;
pub mod runner;
pub mod schedule;
pub mod store;
