use phashmap::PHashMap;

#[test]
fn scenario_small_table() {
    let mut h: PHashMap<u64> = PHashMap::with_capacity(8);
    h.insert(8, 0);
    h.insert(9, 2);
    h.insert(9, 3);
    h.insert(10, 4);
    assert_eq!(h.get(8), Some(&0));
    assert_eq!(h.get(11), None);
    assert_eq!(h.get(9), Some(&2));
    h.update(9, 5);
    assert_eq!(h.get(9), Some(&5));
    *h.get_mut_def(9, 10) += 1;
    assert_eq!(h.get(9), Some(&6));
    *h.get_mut_def(19, 0) += 1;
    assert_eq!(h.get(19), Some(&1));
}

#[test]
fn get_returns_inserted_values() {
    let mut h: PHashMap<u64> = PHashMap::new();
    for k in 0..100u64 {
        h.insert(k, k * 7);
    }
    for k in 0..100u64 {
        assert_eq!(h.get(k), Some(&(k * 7)));
    }
}

#[test]
fn missing_keys_not_found() {
    let mut h: PHashMap<u64> = PHashMap::new();
    assert_eq!(h.get(0), None);
    h.insert(1, 10);
    h.insert(2, 20);
    assert_eq!(h.get(0), None);
    assert_eq!(h.get(3), None);
    assert_eq!(h.get(u64::MAX), None);
}

#[test]
fn double_insert_keeps_first_value() {
    let mut h: PHashMap<u64> = PHashMap::with_capacity(8);
    h.insert(5, 1);
    h.insert(5, 2);
    assert_eq!(h.get(5), Some(&1));
}

#[test]
fn update_existing_key() {
    let mut h: PHashMap<u64> = PHashMap::new();
    h.insert(4, 40);
    h.update(4, 44);
    assert_eq!(h.get(4), Some(&44));
}

#[test]
fn update_missing_key_is_a_noop() {
    let mut h: PHashMap<u64> = PHashMap::new();
    h.insert(4, 40);
    h.update(5, 50);
    assert_eq!(h.get(5), None);
    assert_eq!(h.get(4), Some(&40));
}

#[test]
fn update_shadowed_key_changes_first_entry() {
    let mut h: PHashMap<u64> = PHashMap::with_capacity(8);
    h.insert(7, 1);
    h.insert(7, 2);
    h.update(7, 9);
    assert_eq!(h.get(7), Some(&9));
}

#[test]
fn get_mut_def_missing_key_inserts_default() {
    let mut h: PHashMap<u64> = PHashMap::new();
    assert_eq!(*h.get_mut_def(12, 99), 99);
    assert_eq!(h.get(12), Some(&99));
}

#[test]
fn get_mut_def_mutation_is_observed() {
    let mut h: PHashMap<u64> = PHashMap::new();
    let r = h.get_mut_def(12, 5);
    *r = 17;
    assert_eq!(h.get(12), Some(&17));
}

#[test]
fn get_mut_def_existing_key_ignores_default() {
    let mut h: PHashMap<u64> = PHashMap::new();
    h.insert(3, 30);
    assert_eq!(*h.get_mut_def(3, 1000), 30);
    assert_eq!(h.get(3), Some(&30));
}

#[test]
fn growth_preserves_mappings() {
    let mut h: PHashMap<u64> = PHashMap::with_capacity(1);
    for k in 0..40u64 {
        h.insert(k, 1000 + k);
        for seen in 0..=k {
            assert_eq!(h.get(seen), Some(&(1000 + seen)));
        }
    }
}

#[test]
fn zero_capacity_grows_on_first_insert() {
    let mut h: PHashMap<u64> = PHashMap::with_capacity(0);
    h.insert(1, 10);
    assert_eq!(h.get(1), Some(&10));
    assert_eq!(h.get(2), None);
}

#[test]
fn default_table_is_empty() {
    let h: PHashMap<u64> = Default::default();
    assert_eq!(h.get(0), None);
    assert_eq!(h.get(42), None);
}
