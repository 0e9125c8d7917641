//! An in-memory hierarchical store for task/project entities ("parts"),
//! keeping a forest of entities synchronized under incremental
//! create/update/delete operations while maintaining sibling sort order and
//! a cached filter view.

pub mod entity;
pub mod filter;
pub mod order;
pub mod parsing;
pub mod remote;
pub mod store;
pub mod timefmt;
