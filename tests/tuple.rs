use transient_btree_index::{
    page_aligned_capacity, BlockHeader, Error, FixedSizeTupleFile, PagedRegion,
    VariableSizeTupleFile,
};

fn words(v: &[u64]) -> Vec<u8> {
    let mut out = Vec::new();
    for w in v {
        out.extend_from_slice(&w.to_le_bytes());
    }
    out
}

#[test]
fn grow_mmap_from_zero_capacity() {
    let mut m = PagedRegion::new(0).unwrap();
    assert_eq!(1, m.len());

    m.grow(128).unwrap();
    assert_eq!(128, m.len());
    m.grow(4096).unwrap();
    assert_eq!(4096, m.len());

    m.grow(1024).unwrap();
    assert_eq!(4096, m.len());

    m.grow(8192).unwrap();
    assert_eq!(8192, m.len());

    m.grow(9000).unwrap();
    assert_eq!(16384, m.len());
}

#[test]
fn grow_mmap_with_capacity() {
    let mut m = PagedRegion::new(4096).unwrap();
    assert_eq!(4096, m.len());

    m.grow(128).unwrap();
    assert_eq!(4096, m.len());
    m.grow(4096).unwrap();
    assert_eq!(4096, m.len());

    m.grow(8192).unwrap();
    assert_eq!(8192, m.len());

    m.grow(9000).unwrap();
    assert_eq!(16384, m.len());
}

#[test]
fn grow_keeps_content() {
    let mut m = PagedRegion::new(16).unwrap();
    m.write_u64(0, 0x0102030405060708);
    m.write_u64(8, 42);
    m.write_u8(15, 9);
    m.grow(100).unwrap();
    assert_eq!(100, m.len());
    assert_eq!(0x0102030405060708, m.read_u64(0));
    assert_eq!(8, m.read_u8(0));
    assert_eq!(9, m.read_u8(15));
    m.grow(1000).unwrap();
    assert_eq!(vec![8, 7, 6, 5, 4, 3, 2, 1], m.read_bytes(0, 8));
}

#[test]
fn block_insert_get_update() {
    let mut m = VariableSizeTupleFile::with_capacity(128, 0).unwrap();
    assert_eq!(128, m.region_len());

    let mut b: Vec<u64> = std::iter::repeat(42).take(10).collect();
    let idx = m.allocate_block(256 - BlockHeader::size()).unwrap();
    assert_eq!(256, m.region_len());

    assert_eq!(true, m.can_update(idx, &words(&b)).is_ok());
    m.put(idx, &words(&b)).unwrap();

    let retrieved_block = m.get_owned(idx).unwrap();
    assert_eq!(words(&b), retrieved_block);

    for i in 1..20 {
        b.push(i);
    }
    assert_eq!(true, m.can_update(idx, &words(&b)).is_ok());
    m.put(idx, &words(&b)).unwrap();
    let retrieved_block = m.get_owned(idx).unwrap();
    assert_eq!(words(&b), retrieved_block);

    let mut large_block = b.clone();
    for i in 1..300 {
        large_block.push(i);
    }
    assert_eq!(false, m.can_update(idx, &words(&large_block)).unwrap().0);
    m.put(idx, &words(&large_block)).unwrap();
    assert_eq!(1, m.relocation_count());
    assert_eq!(true, m.is_relocated(idx));
    assert_eq!(words(&large_block), m.get_owned(idx).unwrap());
}

#[test]
fn relocating_twice_keeps_one_entry() {
    let mut m = VariableSizeTupleFile::with_capacity(0, 0).unwrap();
    let a = m.allocate_block(16).unwrap();
    let b = m.allocate_block(16).unwrap();
    m.put(b, &vec![7u8; 4]).unwrap();
    m.put(a, &vec![1u8; 100]).unwrap();
    m.put(a, &vec![2u8; 10000]).unwrap();
    assert_eq!(1, m.relocation_count());
    assert_eq!(vec![2u8; 10000], m.get_owned(a).unwrap());
    assert_eq!(vec![7u8; 4], m.get_owned(b).unwrap());
    m.put(a, &vec![3u8; 3]).unwrap();
    assert_eq!(vec![3u8; 3], m.get_owned(a).unwrap());
}

#[test]
fn never_written_block_does_not_decode() {
    let mut m = VariableSizeTupleFile::with_capacity(64, 0).unwrap();
    let a = m.allocate_block(8).unwrap();
    assert!(matches!(m.get_owned(a), Err(Error::DeserializeBlock)));
}

#[test]
fn record_size_is_length_prefix_and_bytes() {
    let m = VariableSizeTupleFile::with_capacity(64, 0).unwrap();
    assert_eq!(8, m.serialized_size(&vec![]));
    assert_eq!(13, m.serialized_size(&vec![1, 2, 3, 4, 5]));
}

#[test]
fn stored_record_is_length_prefixed() {
    let mut m = VariableSizeTupleFile::with_capacity(64, 0).unwrap();
    let a = m.allocate_block(13).unwrap();
    m.put(a, &vec![1, 2, 3, 4, 5]).unwrap();
    assert_eq!((true, 13), m.can_update(a, &vec![9, 9, 9, 9, 9]).unwrap());
    assert_eq!((false, 14), m.can_update(a, &vec![9, 9, 9, 9, 9, 9]).unwrap());
    assert_eq!(vec![1, 2, 3, 4, 5], m.get_owned(a).unwrap());
}

#[test]
fn page_aligned_capacity_fills_pages() {
    assert_eq!(4080, page_aligned_capacity(1));
    assert_eq!(4080, page_aligned_capacity(4096));
    assert_eq!(8176, page_aligned_capacity(4097));
    assert_eq!(8176, page_aligned_capacity(8192));
}

#[test]
fn block_header_round_trip() {
    let h = BlockHeader { capacity: 300, used: 0x0102 };
    let mut buf = vec![0xAAu8];
    h.write(&mut buf).unwrap();
    assert_eq!(17, buf.len());
    assert_eq!(vec![44, 1, 0, 0, 0, 0, 0, 0, 2, 1, 0, 0, 0, 0, 0, 0], buf[1..].to_vec());
    assert_eq!(h, BlockHeader::read(&buf[1..]).unwrap());
    assert_eq!(16, BlockHeader::size());
}

#[test]
fn fixed_size_store() {
    let mut m = FixedSizeTupleFile::with_capacity(0, 4).unwrap();
    assert!(matches!(m.allocate_block(5), Err(Error::InvalidCapacity { capacity: 5 })));
    let a = m.allocate_block(4).unwrap();
    let b = m.allocate_block(4).unwrap();
    assert_eq!(0, a);
    assert_eq!(4, b);
    m.put(a, &vec![1, 2, 3, 4]).unwrap();
    m.put(b, &vec![5, 6, 7, 8]).unwrap();
    assert!(matches!(m.put(a, &vec![1, 2]), Err(Error::InvalidCapacity { capacity: 2 })));
    assert_eq!(vec![1, 2, 3, 4], m.get_owned(a).unwrap());
    assert_eq!(vec![5, 6, 7, 8], m.get_owned(b).unwrap());
    assert_eq!(4, m.serialized_size(&vec![1, 2, 3, 4]));
}

#[test]
fn shared_snapshot_get() {
    let mut m = VariableSizeTupleFile::with_capacity(64, 4).unwrap();
    let a = m.allocate_block(16).unwrap();
    m.put(a, &vec![1, 2, 3]).unwrap();
    let snapshot = m.get(a).unwrap();
    assert_eq!(vec![1, 2, 3], *snapshot);
    m.put(a, &vec![4u8; 5000]).unwrap();
    assert_eq!(vec![4u8; 5000], *m.get(a).unwrap());
    assert_eq!(vec![1, 2, 3], *snapshot);
    let mut f = FixedSizeTupleFile::with_capacity(0, 2).unwrap();
    let b = f.allocate_block(2).unwrap();
    f.put(b, &vec![7, 8]).unwrap();
    assert_eq!(vec![7, 8], *f.get(b).unwrap());
}
