//! Verified core of the Android build configuration tools: aconfig flag
//! parsing and code generation inputs, exported-flag checks, release
//! configuration summaries and api-versions consistency checks.

pub mod text;
pub mod flags;
pub mod idents;
pub mod errors;
pub mod codegen;
pub mod parse;
pub mod sip;
pub mod sort;
pub mod commands;
pub mod cpp;
pub mod build_flags;
pub mod api_versions;
pub mod exported_flags;
pub mod cli;

pub use vstd::hash_map::StringHashMap;
pub use vstd::hash_set::StringHashSet;
