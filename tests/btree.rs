use std::collections::BTreeMap;
use transient_btree_index::{BtreeConfig, BtreeIndex, Error, KeyBound, Range};

fn val(x: u64) -> Vec<u8> {
    x.to_le_bytes().to_vec()
}

fn num(v: &[u8]) -> u64 {
    let mut b = [0u8; 8];
    b.copy_from_slice(v);
    u64::from_le_bytes(b)
}

fn collect(mut r: Range) -> Vec<(u64, u64)> {
    let mut out = Vec::new();
    while let Some(e) = r.next() {
        let (k, v) = e.unwrap();
        out.push((k, num(&v)));
    }
    out
}

fn check_order(t: &BtreeIndex, start: KeyBound, end: KeyBound) {
    let mut previous: Option<u64> = None;
    let mut r = t.range(start, end).unwrap();
    while let Some(e) = r.next() {
        let (k, _v) = e.unwrap();
        if let Some(p) = previous {
            assert!(p < k);
        }
        previous = Some(k);
    }
}

#[test]
fn insert_get_static_size() {
    let nr_entries = 2000;
    let config = BtreeConfig::default().max_key_size(8).max_value_size(8);
    let mut t = BtreeIndex::with_capacity(config, 2000).unwrap();

    assert_eq!(true, t.is_empty());
    assert_eq!(None, t.insert(0, val(42)).unwrap());
    assert_eq!(false, t.is_empty());
    assert_eq!(1, t.len());

    for i in 1..nr_entries {
        assert_eq!(None, t.insert(i, val(i)).unwrap());
    }

    assert_eq!(false, t.is_empty());
    assert_eq!(nr_entries as usize, t.len());

    assert_eq!(true, t.contains_key(&0).unwrap());
    assert_eq!(Some(val(42)), t.get(&0).unwrap());
    assert_eq!(Some(val(42)), t.insert(0, val(100)).unwrap());
    assert_eq!(Some(val(100)), t.insert(0, val(42)).unwrap());

    for i in 1..nr_entries {
        assert_eq!(true, t.contains_key(&i).unwrap());
        let v = t.get(&i).unwrap();
        assert_eq!(Some(val(i)), v);
    }
    assert_eq!(false, t.contains_key(&nr_entries).unwrap());
    assert_eq!(None, t.get(&nr_entries).unwrap());
    assert_eq!(false, t.contains_key(&5000).unwrap());
    assert_eq!(None, t.get(&5000).unwrap());
}

#[test]
fn range_query_dense() {
    let nr_entries = 2000;
    let config = BtreeConfig::default().max_key_size(8).max_value_size(8);
    let mut t = BtreeIndex::with_capacity(config, 2000).unwrap();
    for i in 0..nr_entries {
        t.insert(i, val(i)).unwrap();
    }

    let result = collect(t.range(KeyBound::Included(40), KeyBound::Excluded(1024)).unwrap());
    assert_eq!(984, result.len());
    assert_eq!((40, 40), result[0]);
    assert_eq!((1023, 1023), result[983]);
    check_order(&t, KeyBound::Included(40), KeyBound::Excluded(1024));

    let result = collect(t.range(KeyBound::Unbounded, KeyBound::Unbounded).unwrap());
    assert_eq!(2000, result.len());
    assert_eq!((0, 0), result[0]);
    assert_eq!((1999, 1999), result[1999]);
    check_order(&t, KeyBound::Unbounded, KeyBound::Unbounded);
}

#[test]
fn range_query_sparse() {
    let config = BtreeConfig::default().max_key_size(8).max_value_size(8);
    let mut t = BtreeIndex::with_capacity(config, 200).unwrap();
    for i in (0..2000).step_by(10) {
        t.insert(i, val(i)).unwrap();
    }
    assert_eq!(200, t.len());

    let result = collect(t.range(KeyBound::Included(40), KeyBound::Excluded(1200)).unwrap());
    assert_eq!(116, result.len());
    assert_eq!((40, 40), result[0]);
    check_order(&t, KeyBound::Included(40), KeyBound::Excluded(1200));

    let result = collect(t.range(KeyBound::Unbounded, KeyBound::Unbounded).unwrap());
    assert_eq!(200, result.len());
    assert_eq!((0, 0), result[0]);
    assert_eq!((1990, 1990), result[199]);
    check_order(&t, KeyBound::Unbounded, KeyBound::Unbounded);

    check_order(&t, KeyBound::Included(40), KeyBound::Included(1200));
    check_order(&t, KeyBound::Included(40), KeyBound::Unbounded);
    check_order(&t, KeyBound::Unbounded, KeyBound::Excluded(1024));
    check_order(&t, KeyBound::Unbounded, KeyBound::Included(1024));
}

#[test]
fn minimal_order() {
    let nr_entries = 2000u64;
    assert_eq!(
        true,
        BtreeIndex::with_capacity(BtreeConfig::default().order(0), nr_entries as usize).is_err()
    );
    assert_eq!(
        true,
        BtreeIndex::with_capacity(BtreeConfig::default().order(1), nr_entries as usize).is_err()
    );

    let config = BtreeConfig::default().max_key_size(8).max_value_size(8).order(2);
    let mut t = BtreeIndex::with_capacity(config, nr_entries as usize).unwrap();
    for i in 0..nr_entries {
        t.insert(i, val(i)).unwrap();
    }

    let result = collect(t.range(KeyBound::Included(40), KeyBound::Excluded(1024)).unwrap());
    assert_eq!(984, result.len());
    assert_eq!((40, 40), result[0]);
    assert_eq!((1023, 1023), result[983]);
    check_order(&t, KeyBound::Included(40), KeyBound::Excluded(1024));

    let result = collect(t.range(KeyBound::Unbounded, KeyBound::Unbounded).unwrap());
    assert_eq!(2000, result.len());
    assert_eq!((0, 0), result[0]);
    assert_eq!((1999, 1999), result[1999]);
    check_order(&t, KeyBound::Unbounded, KeyBound::Unbounded);
}

/// Two-byte keys `[hi, lo]` map to the integer `hi * 256 + lo`, which orders the same.
#[test]
fn sorted_iterator() {
    let config = BtreeConfig::default().max_key_size(64).max_value_size(64);
    let mut t = BtreeIndex::with_capacity(config, 128).unwrap();
    for a in 0..=255u64 {
        t.insert((1 << 8) | a, vec![1u8]).unwrap();
    }
    for a in 0..=255u64 {
        t.insert(a, vec![1u8]).unwrap();
    }
    assert_eq!(512, t.len());
    check_order(&t, KeyBound::Unbounded, KeyBound::Unbounded);
}

#[test]
fn insert_twice_at_split_point() {
    let input: Vec<(u32, u32)> = vec![(1, 1), (2, 1), (3, 1), (5, 1), (4, 1), (4, 1)];
    let mut m = BTreeMap::default();
    let mut t = BtreeIndex::with_capacity(BtreeConfig::default().order(2), 1024).unwrap();
    for (key, value) in input {
        m.insert(key as u64, value.to_string().into_bytes());
        t.insert(key as u64, value.to_string().into_bytes()).unwrap();
    }
    let m: Vec<(u64, Vec<u8>)> = m.into_iter().collect();
    let mut r = t.range(KeyBound::Unbounded, KeyBound::Unbounded).unwrap();
    let mut got = Vec::new();
    while let Some(e) = r.next() {
        got.push(e.unwrap());
    }
    assert_eq!(m, got);
}

#[test]
fn order_bounds_are_checked() {
    assert!(matches!(
        BtreeIndex::with_capacity(BtreeConfig::default().order(0), 10),
        Err(Error::OrderTooSmall(0))
    ));
    assert!(matches!(
        BtreeIndex::with_capacity(BtreeConfig::default().order(1), 10),
        Err(Error::OrderTooSmall(1))
    ));
    assert!(matches!(
        BtreeIndex::with_capacity(BtreeConfig::default().order(85), 10),
        Err(Error::OrderTooLarge(85))
    ));
    assert!(BtreeIndex::with_capacity(BtreeConfig::default().order(84), 10).is_ok());
    assert!(BtreeIndex::with_capacity(BtreeConfig::default().order(2), 0).is_ok());
}

#[test]
fn overwrite_returns_previous_value() {
    let mut t = BtreeIndex::with_capacity(BtreeConfig::default(), 10).unwrap();
    assert_eq!(None, t.insert(0, val(42)).unwrap());
    assert_eq!(Some(val(42)), t.insert(0, val(100)).unwrap());
    assert_eq!(Some(val(100)), t.insert(0, val(42)).unwrap());
    assert_eq!(Some(val(42)), t.get(&0).unwrap());
    assert_eq!(1, t.len());
}

#[test]
fn membership_agrees_with_get() {
    let mut t = BtreeIndex::with_capacity(BtreeConfig::default().order(2), 10).unwrap();
    for i in (0..300u64).step_by(3) {
        t.insert(i, val(i * 7)).unwrap();
    }
    for k in 0..310u64 {
        let present = t.contains_key(&k).unwrap();
        let got = t.get(&k).unwrap();
        assert_eq!(present, got.is_some());
        assert_eq!(present, k % 3 == 0 && k < 300);
        if present {
            assert_eq!(Some(val(k * 7)), got);
        }
    }
}

#[test]
fn swap_exchanges_values() {
    let mut t = BtreeIndex::with_capacity(BtreeConfig::default().order(2), 10).unwrap();
    for i in 0..50u64 {
        t.insert(i, val(i + 1000)).unwrap();
    }
    t.swap(&3, &44).unwrap();
    assert_eq!(Some(val(1044)), t.get(&3).unwrap());
    assert_eq!(Some(val(1003)), t.get(&44).unwrap());
    assert_eq!(Some(val(1010)), t.get(&10).unwrap());
    t.swap(&7, &7).unwrap();
    assert_eq!(Some(val(1007)), t.get(&7).unwrap());
    assert!(matches!(t.swap(&3, &99), Err(Error::NonExistingKey)));
    assert!(matches!(t.swap(&99, &3), Err(Error::NonExistingKey)));
    assert_eq!(Some(val(1044)), t.get(&3).unwrap());
    assert_eq!(50, t.len());
}

#[test]
fn empty_index() {
    let t = BtreeIndex::with_capacity(BtreeConfig::default(), 0).unwrap();
    assert!(t.is_empty());
    assert_eq!(0, t.len());
    assert_eq!(None, t.get(&0).unwrap());
    assert_eq!(false, t.contains_key(&u64::MAX).unwrap());
    assert!(collect(t.range(KeyBound::Unbounded, KeyBound::Unbounded).unwrap()).is_empty());
}

#[test]
fn reference_map_cross_check() {
    let mut m: BTreeMap<u64, u64> = BTreeMap::new();
    let mut t = BtreeIndex::with_capacity(BtreeConfig::default().order(2), 16).unwrap();
    let mut x: u64 = 12345;
    for _ in 0..3000 {
        x = x.wrapping_mul(6364136223846793005).wrapping_add(1442695040888963407);
        let k = (x >> 33) % 700;
        let v = x >> 40;
        let prev_m = m.insert(k, v);
        let prev_t = t.insert(k, val(v)).unwrap();
        assert_eq!(prev_m.map(val), prev_t);
    }
    assert_eq!(m.len(), t.len());
    let bounds = [
        (KeyBound::Unbounded, KeyBound::Unbounded),
        (KeyBound::Included(100), KeyBound::Excluded(400)),
        (KeyBound::Excluded(100), KeyBound::Included(400)),
        (KeyBound::Included(650), KeyBound::Unbounded),
        (KeyBound::Unbounded, KeyBound::Excluded(3)),
    ];
    for (s, e) in bounds {
        let expected: Vec<(u64, u64)> = m
            .iter()
            .filter(|(k, _)| match s {
                KeyBound::Included(a) => **k >= a,
                KeyBound::Excluded(a) => **k > a,
                KeyBound::Unbounded => true,
            })
            .filter(|(k, _)| match e {
                KeyBound::Included(a) => **k <= a,
                KeyBound::Excluded(a) => **k < a,
                KeyBound::Unbounded => true,
            })
            .map(|(k, v)| (*k, *v))
            .collect();
        assert_eq!(expected, collect(t.range(s, e).unwrap()));
    }
}

#[test]
fn into_iter_yields_all_entries_in_order() {
    let mut t = BtreeIndex::with_capacity(BtreeConfig::default().order(3), 16).unwrap();
    for i in (0..500u64).rev() {
        t.insert(i * 2, val(i)).unwrap();
    }
    let mut it = t.into_iter().unwrap();
    let mut expected = 0u64;
    while let Some(e) = it.next() {
        let (k, v) = e.unwrap();
        assert_eq!(expected * 2, k);
        assert_eq!(expected, num(&v));
        expected += 1;
    }
    assert_eq!(500, expected);
}

#[test]
fn growing_values_relocate_transparently() {
    let config = BtreeConfig::default().max_value_size(4).order(2);
    let mut t = BtreeIndex::with_capacity(config, 4).unwrap();
    for i in 0..100u64 {
        t.insert(i, vec![i as u8; 2]).unwrap();
    }
    for i in 0..100u64 {
        let big = vec![i as u8; 100 + i as usize * 50];
        assert_eq!(Some(vec![i as u8; 2]), t.insert(i, big.clone()).unwrap());
        assert_eq!(Some(big), t.get(&i).unwrap());
    }
    assert_eq!(100, t.len());
}

#[test]
fn fixed_size_values() {
    let config = BtreeConfig::default().fixed_value_size(8).order(2);
    let mut t = BtreeIndex::with_capacity(config, 4).unwrap();
    for i in 0..200u64 {
        t.insert(i, val(i * 3)).unwrap();
    }
    for i in 0..200u64 {
        assert_eq!(Some(val(i * 3)), t.get(&i).unwrap());
    }
    assert!(matches!(t.insert(500, vec![1, 2, 3]), Err(Error::InvalidCapacity { capacity: 3 })));
}

#[test]
fn parallel_get() {
    let nr_entries = 2000;
    let mut t = BtreeIndex::with_capacity(BtreeConfig::default(), 2000).unwrap();
    for i in 0..nr_entries {
        t.insert(i as u64, val(i as u64)).unwrap();
    }
    let t = &t;
    let entries: Vec<Option<Vec<u8>>> = (0..nr_entries as u64).map(|i| t.get(&i).unwrap()).collect();
    for i in 0..nr_entries {
        assert_eq!(Some(val(i as u64)), entries[i]);
    }
}

#[test]
fn zero_width_fixed_values() {
    let config = BtreeConfig::default().fixed_value_size(0).order(2);
    let mut t = BtreeIndex::with_capacity(config, 4).unwrap();
    for i in 0..50u64 {
        assert_eq!(None, t.insert(i, Vec::new()).unwrap());
    }
    assert_eq!(Some(Vec::new()), t.insert(7, Vec::new()).unwrap());
    assert_eq!(50, t.len());
    assert_eq!(Some(Vec::new()), t.get(&49).unwrap());
    assert_eq!(None, t.get(&50).unwrap());
    assert!(matches!(t.insert(60, vec![1]), Err(Error::InvalidCapacity { capacity: 1 })));
    t.swap(&1, &2).unwrap();
    assert_eq!(50, t.len());
}

#[test]
fn fast_path_inserts_inside_last_leaf() {
    let mut t = BtreeIndex::with_capacity(BtreeConfig::default().order(3), 16).unwrap();
    for i in (0..100u64).map(|i| i * 10) {
        t.insert(i, val(i)).unwrap();
    }
    for i in (0..100u64).map(|i| i * 10 + 5).rev() {
        assert_eq!(None, t.insert(i, val(i)).unwrap());
    }
    for i in 0..1000u64 {
        let expected = if i % 10 == 0 || i % 10 == 5 { Some(val(i)) } else { None };
        assert_eq!(expected, t.get(&i).unwrap());
    }
    assert_eq!(200, t.len());
}
