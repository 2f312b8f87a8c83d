use vstd::prelude::*;

verus! {

/// Error taxonomy of the store and its indexes.
///
/// `Serde` covers a failed key/value encoding or decoding, `Insert` a failed
/// durable write, `Read` a failed durable read, `Checkpoint` a failed
/// snapshot, and `Unknown` everything the store cannot classify.
#[derive(Clone, PartialEq, Eq, Debug)]
pub enum BrittMarieError {
    Serde(String),
    Insert(String),
    Read(String),
    Checkpoint(String),
    Unknown,
}

} // verus!
