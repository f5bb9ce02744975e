//! Dependency addressing, scheduling layers and hermetic environments for a
//! Bazel-style build tool.

pub mod dag;
pub mod env;
pub mod label;
pub mod loader;
pub mod path;
pub mod plstr;
pub mod segments;
pub mod target;
pub mod text;
