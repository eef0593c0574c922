use moka::cht::map::bucket_array_ref::BucketArrayRef;

fn hash(key: u64) -> u64 {
    key.wrapping_mul(0x9E37_79B9_7F4A_7C15)
}

fn get(map: &BucketArrayRef<u32>, key: u64) -> Option<u32> {
    map.get_key_value_and_then(key, hash(key), |_, v| Some(*v))
}

fn insert(map: &mut BucketArrayRef<u32>, key: u64, value: u32) -> Option<u32> {
    map.insert_with_or_modify_entry_and(key, hash(key), || value, |_, _| value, |_, old| *old)
}

#[test]
fn values_are_inserted_and_removed() {
    let mut map = BucketArrayRef::new();
    assert_eq!(map.len(), 0);
    assert_eq!(get(&map, 1), None);
    assert_eq!(insert(&mut map, 1, 10), None);
    assert_eq!(insert(&mut map, 1, 11), Some(10));
    assert_eq!(get(&map, 1), Some(11));
    assert_eq!(map.len(), 1);
    let kept = map.remove_entry_if_and(1, hash(1), |_, v| *v == 10, |_, v| *v);
    assert_eq!(kept, None);
    assert_eq!(map.len(), 1);
    let removed = map.remove_entry_if_and(1, hash(1), |_, v| *v == 11, |_, v| *v);
    assert_eq!(removed, Some(11));
    assert_eq!(map.len(), 0);
    assert_eq!(get(&map, 1), None);
}

#[test]
fn present_value_stays() {
    let mut map = BucketArrayRef::new();
    assert_eq!(map.insert_if_not_present_and(5, hash(5), || 50, |_, v| *v), None);
    assert_eq!(map.insert_if_not_present_and(5, hash(5), || 51, |_, v| *v), Some(50));
    assert_eq!(get(&map, 5), Some(50));
}

#[test]
fn table_grows_and_shrinks() {
    let mut map = BucketArrayRef::new();
    for key in 0..10_000u64 {
        assert_eq!(insert(&mut map, key, key as u32), None);
    }
    assert_eq!(map.len(), 10_000);
    for key in 0..10_000u64 {
        assert_eq!(get(&map, key), Some(key as u32));
    }
    for key in 0..9_990u64 {
        let removed = map.remove_entry_if_and(key, hash(key), |_, _| true, |_, v| *v);
        assert_eq!(removed, Some(key as u32));
    }
    assert_eq!(map.len(), 10);
    let mut keys = map.keys(|k| *k);
    keys.sort();
    assert_eq!(keys, (9_990..10_000).collect::<Vec<u64>>());
}

#[test]
fn same_hash_does_not_mix_keys() {
    let mut map = BucketArrayRef::new();
    for key in 0..20u64 {
        map.insert_if_not_present_and(key, 7, || key as u32, |_, _| ());
    }
    for key in 0..20u64 {
        assert_eq!(map.get_key_value_and_then(key, 7, |_, v| Some(*v)), Some(key as u32));
    }
    for key in (0..20u64).step_by(2) {
        let removed = map.remove_entry_if_and(key, 7, |_, _| true, |_, v| *v);
        assert_eq!(removed, Some(key as u32));
    }
    for key in 0..20u64 {
        let expected = if key % 2 == 0 { None } else { Some(key as u32) };
        assert_eq!(map.get_key_value_and_then(key, 7, |_, v| Some(*v)), expected);
    }
}
