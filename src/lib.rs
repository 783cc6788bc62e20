//! A transient, ordered key/value index: a B-tree whose node pages and value
//! records live in anonymous memory-mapped regions for the lifetime of the process.
use vstd::prelude::*;

pub mod btree;
pub mod config;
pub mod error;
pub mod node;
pub mod order;
pub mod region;
pub mod tuple;

pub use btree::{BtreeIndex, BtreeIntoIter, Range};
pub use config::{BtreeConfig, TypeSize};
pub use error::Error;
pub use node::{KeyBound, NodeFile, SearchResult, StackEntry};
pub use region::PagedRegion;
pub use tuple::{page_aligned_capacity, BlockHeader, FixedSizeTupleFile, VariableSizeTupleFile};

