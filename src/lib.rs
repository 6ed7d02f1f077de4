//! A registry of named commands: validation of a loaded command list,
//! lookup by name or alias, prefix completion and grouping by category.
pub mod config;
pub mod order;
pub mod suggest;
