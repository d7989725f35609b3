//! Keeps a package set's group files in step with upstream package metadata:
//! renders a package's entry, finds the group file it belongs to, and inserts
//! the entry there or replaces the one that stands for the same package.

pub mod built;
pub mod deps;
pub mod entry;
pub mod expr;
pub mod group;
pub mod laws;
pub mod sync;
pub mod text;
pub mod upsert;
