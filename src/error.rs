use vstd::prelude::*;

verus! {

/// Everything that can go wrong in the index and its stores.
#[derive(Debug)]
pub enum Error {
    /// A block update exceeds its capacity and cannot be relocated.
    ExistingBlockTooSmall { block_id: usize, needed: u64 },
    /// The requested order is below two.
    OrderTooSmall(usize),
    /// The requested order does not let a full node fit into one page.
    OrderTooLarge(usize),
    /// A slot of a node page was accessed outside its occupied range.
    KeyIndexOutOfBounds { idx: usize, len: usize },
    /// Inserting a new key reached an internal node instead of a leaf.
    InsertFoundInternalNode,
    /// Splitting a node left one side without keys.
    EmptyChildNodeInSplit,
    /// A fixed-size store was asked for a block of another width.
    InvalidCapacity { capacity: usize },
    /// The bytes of a block do not decode as a record.
    DeserializeBlock,
    /// A key passed to a swap is not in the index.
    NonExistingKey,
    /// Creating a memory mapping failed.
    IO(std::io::Error),
    /// An offset or size does not fit the integer type it is converted to.
    IntConversion,
}

} // verus!
