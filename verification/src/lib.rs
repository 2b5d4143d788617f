//! Recursive zip/jar/war inspection and patching, with verified path,
//! configuration, patch-spec and archive-rewriting logic.

pub mod error;
pub mod path_expr;
pub mod text;
pub mod config;
pub mod patch_spec;
pub mod zipio;
pub mod archive;
pub mod rewrite_laws;
pub mod diff;
pub mod draft;
pub mod apply;
pub mod report;
