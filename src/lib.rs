//! Bundles a directory's worth of JSON Schema documents into one
//! self-contained schema: every local-definitions block is hoisted into one
//! shared definitions map under a name that carries its document's key, and
//! every `$ref` is rewritten to point into that map.

pub mod bundle;
pub mod cleanup;
pub mod discovery;
pub mod error;
pub mod hoist;
pub mod json;
pub mod laws;
pub mod reference;
pub mod text;
