use transient_btree_index::{BtreeConfig, TypeSize};

#[test]
fn default_config() {
    let c = BtreeConfig::default();
    assert_eq!(84, c.order);
    assert_eq!(TypeSize::Estimated(32), c.key_size);
    assert_eq!(TypeSize::Estimated(32), c.value_size);
    assert_eq!(16, c.block_cache_size);
}

#[test]
fn builders_set_one_field() {
    let c = BtreeConfig::default()
        .max_key_size(8)
        .max_value_size(64)
        .order(2)
        .block_cache_size(3);
    assert_eq!(TypeSize::Estimated(8), c.key_size);
    assert_eq!(TypeSize::Estimated(64), c.value_size);
    assert_eq!(2, c.order);
    assert_eq!(3, c.block_cache_size);
    let c = c.fixed_key_size(8).fixed_value_size(16);
    assert_eq!(TypeSize::Fixed(8), c.key_size);
    assert_eq!(TypeSize::Fixed(16), c.value_size);
    assert_eq!(2, c.order);
}
