//! Cache-coordination bookkeeping for a language-model inference server.
//!
//! The crate decides how much of a request's token prefix is already backed by
//! cache blocks, tracks which blocks every request holds, and compiles the
//! per-step transfer instructions for the execution engine.

pub mod error;
pub mod keys;
pub mod laws;
pub mod leader;
pub mod matching;
pub mod metadata;
pub mod pool;
pub mod slot;
