//! Generates typed client source code from a machine-readable HTTP API
//! description: schemas and operations are resolved into an intermediate
//! representation, which a deterministic token emitter renders as source text.

pub mod ast;
pub mod dict;
pub mod emit;
pub mod oapi;
pub mod util;
