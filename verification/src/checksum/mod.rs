//! The manifest lifecycle. `text` and `common` hold the manifest and its
//! text form, `digest` the digest provider, `tree` what a walk over a
//! directory tree hands in, `create` generation and `check` verification.

pub mod check;
pub mod common;
pub mod create;
pub mod digest;
pub mod text;
pub mod tree;
