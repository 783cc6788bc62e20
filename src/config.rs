use vstd::prelude::*;

verus! {

/// The number of key slots in a node page.
pub const MAX_NUMBER_KEYS: usize = 169;

/// How large a serialized key or value is.
#[derive(Clone, Copy, Debug, PartialEq, Eq, Structural)]
pub enum TypeSize {
    /// An estimate of the largest size; records may exceed it.
    Estimated(usize),
    /// Every record has exactly this size.
    Fixed(usize),
}

/// Configuration for a B-tree index.
#[derive(Clone, Copy, Debug, PartialEq, Eq, Structural)]
pub struct BtreeConfig {
    /// The minimum degree: a node other than the root holds between `order - 1` and
    /// `2 * order - 1` keys.
    pub order: usize,
    /// The size of a key. The index keeps its `u64` keys inline in the node pages, so
    /// this setting does not change the layout.
    pub key_size: TypeSize,
    /// The size of a value: estimated for the variable-size store, exact for the
    /// fixed-size store.
    pub value_size: TypeSize,
    /// The number of records the variable-size store keeps in its block cache.
    pub block_cache_size: usize,
}

impl Default for BtreeConfig {
    /// Order 84, estimated key and value sizes of 32 bytes, a block cache of 16 entries.
    fn default() -> (r: Self)
        ensures
            r == (BtreeConfig {
                order: 84,
                key_size: TypeSize::Estimated(32),
                value_size: TypeSize::Estimated(32),
                block_cache_size: 16,
            }),
    {
        BtreeConfig {
            order: 84,
            key_size: TypeSize::Estimated(32),
            value_size: TypeSize::Estimated(32),
            block_cache_size: 16,
        }
    }
}

impl BtreeConfig {
    /// Set the estimated maximum size in bytes of each key.
    pub fn max_key_size(self, est_max_key_size: usize) -> (r: Self)
        ensures
            r == (BtreeConfig { key_size: TypeSize::Estimated(est_max_key_size), ..self }),
    {
        BtreeConfig { key_size: TypeSize::Estimated(est_max_key_size), ..self }
    }

    /// Set the fixed size in bytes of each key.
    pub fn fixed_key_size(self, key_size: usize) -> (r: Self)
        ensures
            r == (BtreeConfig { key_size: TypeSize::Fixed(key_size), ..self }),
    {
        BtreeConfig { key_size: TypeSize::Fixed(key_size), ..self }
    }

    /// Set the estimated maximum size in bytes of each value.
    pub fn max_value_size(self, est_max_value_size: usize) -> (r: Self)
        ensures
            r == (BtreeConfig { value_size: TypeSize::Estimated(est_max_value_size), ..self }),
    {
        BtreeConfig { value_size: TypeSize::Estimated(est_max_value_size), ..self }
    }

    /// Set the fixed size in bytes of each value.
    pub fn fixed_value_size(self, value_size: usize) -> (r: Self)
        ensures
            r == (BtreeConfig { value_size: TypeSize::Fixed(value_size), ..self }),
    {
        BtreeConfig { value_size: TypeSize::Fixed(value_size), ..self }
    }

    /// Set the order (minimum degree) of the tree.
    pub fn order(self, order: u8) -> (r: Self)
        ensures
            r == (BtreeConfig { order: order as usize, ..self }),
    {
        BtreeConfig { order: order as usize, ..self }
    }

    /// Set the number of records kept in a store's block cache.
    pub fn block_cache_size(self, block_cache_size: usize) -> (r: Self)
        ensures
            r == (BtreeConfig { block_cache_size, ..self }),
    {
        BtreeConfig { block_cache_size, ..self }
    }
}

} // verus!
