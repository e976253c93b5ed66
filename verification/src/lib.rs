//! A monorepo component dependency-graph engine: topological ordering with
//! cycle diagnosis, recursive content-addressed digests, and transitive
//! closure queries over the component registry.

pub mod component;
pub mod errors;
pub mod executor;
pub mod hashing;
pub mod closure;
pub mod lexorder;
pub mod toposort;

pub use component::Component;
pub use errors::CustomError;
