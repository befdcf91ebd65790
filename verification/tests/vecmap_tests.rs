use asmdiff::vecmap::VecMap;

#[test]
fn insert_and_get() {
    let mut m: VecMap<u128> = VecMap::new();
    assert_eq!(m.len(), 0);
    assert!(m.get(&b"a".to_vec()).is_none());
    m.insert(b"a".to_vec(), 1);
    m.insert(b"b".to_vec(), 2);
    assert_eq!(m.len(), 2);
    assert_eq!(m.get(&b"a".to_vec()).unwrap(), &1);
    assert_eq!(m.get(&b"b".to_vec()).unwrap(), &2);
    assert!(m.contains_key(&b"a".to_vec()));
    assert!(!m.contains_key(&b"c".to_vec()));
}

#[test]
fn insert_existing_key_replaces_in_place() {
    let mut m: VecMap<u128> = VecMap::new();
    m.insert(b"a".to_vec(), 1);
    m.insert(b"b".to_vec(), 2);
    m.insert(b"a".to_vec(), 9);
    assert_eq!(m.len(), 2);
    assert_eq!(m.get(&b"a".to_vec()).unwrap(), &9);
    // The replaced key keeps its original position.
    assert_eq!(m.entries[0].0, b"a".to_vec());
    assert_eq!(m.entries[1].0, b"b".to_vec());
}

#[test]
fn iteration_order_is_first_insertion_order() {
    let mut m: VecMap<u128> = VecMap::new();
    m.insert(b"z".to_vec(), 1);
    m.insert(b"a".to_vec(), 2);
    m.insert(b"m".to_vec(), 3);
    let keys: Vec<Vec<u8>> = m.entries.iter().map(|e| e.0.clone()).collect();
    assert_eq!(keys, vec![b"z".to_vec(), b"a".to_vec(), b"m".to_vec()]);
}
