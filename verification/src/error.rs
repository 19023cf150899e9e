use vstd::prelude::*;

verus! {

/// Why an operation on the slot registry or the block pool was refused.
/// Every variant carries the id of the request the call was made for.
#[derive(Clone, Debug, PartialEq, Eq)]
pub enum SlotError {
    /// No slot is registered under the request id.
    NotFound(String),
    /// A slot is already registered under the request id.
    AlreadyExists(String),
    /// The bookkeeping of tokens, blocks or references would become inconsistent.
    Overflow(String),
    /// The pool holds no free block.
    PoolExhausted(String),
}

} // verus!
