//! A small text-templating library: a key-value rendering context with a
//! stable content hash, a generic expiring cache with a capacity bound, and a
//! substitution engine that scans templates for delimiter-bounded tags and
//! memoizes rendered pages.

pub mod cache;
pub mod chars;
pub mod context;
pub mod engine;
pub mod scan;

pub use cache::Cache;
pub use context::Context;
pub use engine::{Engine, EngineError, PageOptions};
