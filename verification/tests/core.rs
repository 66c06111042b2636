use bm::{
    intermediate_of, InMemoryBackend, MerkleIndex, MerkleRoute, MerkleSelection, OwnedRaw, Raw,
    Value, WriteBackend,
};

fn index(v: usize) -> MerkleIndex {
    MerkleIndex::from_one(v).unwrap()
}

#[test]
fn test_merkle_selections() {
    assert_eq!(MerkleIndex::root().route(), MerkleRoute::Root);
    assert_eq!(
        MerkleIndex::root().left().route(),
        MerkleRoute::Select(vec![MerkleSelection::Left])
    );
    assert_eq!(
        MerkleIndex::root().left().right().route(),
        MerkleRoute::Select(vec![MerkleSelection::Left, MerkleSelection::Right])
    );
    assert_eq!(
        MerkleIndex::root().right().left().left().route(),
        MerkleRoute::Select(vec![
            MerkleSelection::Right,
            MerkleSelection::Left,
            MerkleSelection::Left,
        ])
    );
    assert_eq!(
        MerkleIndex::root().left().left().right().left().route(),
        MerkleRoute::Select(vec![
            MerkleSelection::Left,
            MerkleSelection::Left,
            MerkleSelection::Right,
            MerkleSelection::Left,
        ])
    );
    assert_eq!(
        MerkleIndex::root().left().right().right().left().right().route(),
        MerkleRoute::Select(vec![
            MerkleSelection::Left,
            MerkleSelection::Right,
            MerkleSelection::Right,
            MerkleSelection::Left,
            MerkleSelection::Right,
        ])
    );
}

#[test]
fn test_selection_at() {
    assert_eq!(
        MerkleIndex::root().right().route().at_depth(1),
        Some(MerkleSelection::Right)
    );
}

#[test]
fn test_descendant() {
    assert!(MerkleIndex::root()
        .left()
        .has_descendant(&MerkleIndex::root().left().right().left().right().right()));
    assert!(!MerkleIndex::root()
        .left()
        .has_descendant(&MerkleIndex::root().right().right().left().right().right()));
}

#[test]
fn test_set_empty() {
    let mut db = InMemoryBackend::new_with_inherited_empty();
    let mut list = OwnedRaw::default();

    let mut last_root = list.root();
    for _ in 0..3 {
        list.set(&mut db, index(2), last_root.clone()).unwrap();
        list.set(&mut db, index(3), last_root.clone()).unwrap();
        last_root = list.root();
    }
}

#[test]
fn test_set_skip() {
    let mut db = InMemoryBackend::new_with_inherited_empty();
    let mut list = OwnedRaw::default();

    list.set(&mut db, index(4), Value::End(vec![2])).unwrap();
    assert_eq!(
        list.get(&mut db, index(4)).unwrap(),
        Some(Value::End(vec![2]))
    );
    list.set(&mut db, index(4), Value::End(vec![3])).unwrap();
    assert_eq!(
        list.get(&mut db, index(4)).unwrap(),
        Some(Value::End(vec![3]))
    );
}

#[test]
fn test_set_basic() {
    let mut db = InMemoryBackend::new_with_inherited_empty();
    let mut list = OwnedRaw::default();

    for i in 4..8usize {
        list.set(&mut db, index(i), Value::End(vec![i as u8])).unwrap();
    }
}

#[test]
fn test_set_only() {
    let mut db1 = InMemoryBackend::new_with_inherited_empty();
    let mut db2 = InMemoryBackend::new_with_inherited_empty();
    let mut list1 = OwnedRaw::default();
    let mut list2 = OwnedRaw::default();

    for i in 32..64usize {
        list1.set(&mut db1, index(i), Value::End(vec![i as u8])).unwrap();
    }
    for i in (32..64usize).rev() {
        list2.set(&mut db2, index(i), Value::End(vec![i as u8])).unwrap();
    }
    assert!(db1.store_eq(&db2));
    for i in 32..64usize {
        let val1 = list1.get(&mut db1, index(i)).unwrap().unwrap();
        let val2 = list2.get(&mut db2, index(i)).unwrap().unwrap();
        assert_eq!(val1, Value::End(vec![i as u8]));
        assert_eq!(val2, Value::End(vec![i as u8]));
    }

    list1.set(&mut db1, index(1), Value::End(vec![1])).unwrap();
    assert!(db1.is_empty());
}

#[test]
fn test_intermediate() {
    let mut db = InMemoryBackend::new_with_inherited_empty();
    let mut list = OwnedRaw::default();
    list.set(&mut db, index(2), Value::End(vec![])).unwrap();
    assert_eq!(
        list.get(&mut db, index(3)).unwrap().unwrap(),
        Value::End(vec![])
    );

    let empty1 = list.get(&mut db, index(1)).unwrap().unwrap();
    list.set(&mut db, index(2), empty1.clone()).unwrap();
    list.set(&mut db, index(3), empty1.clone()).unwrap();
    for i in 4..8usize {
        assert_eq!(
            list.get(&mut db, index(i)).unwrap().unwrap(),
            Value::End(vec![])
        );
    }
    assert_eq!(db.len(), 2);

    let mut db1 = db.clone();
    let mut list1 = <Raw<bm::Owned> as bm::Leak>::from_leaked(list.root());
    list.set(&mut db, index(1), empty1.clone()).unwrap();
    assert_eq!(
        list.get(&mut db, index(3)).unwrap().unwrap(),
        Value::End(vec![])
    );
    assert_eq!(db.len(), 1);

    list1.set(&mut db1, index(1), Value::End(vec![0])).unwrap();
    assert_eq!(
        list1.get(&mut db1, index(1)).unwrap().unwrap(),
        Value::End(vec![0])
    );
    assert!(db1.is_empty());
}

#[test]
fn insert_twice_keeps_the_store() {
    let mut once = InMemoryBackend::new_with_inherited_empty();
    let mut twice = InMemoryBackend::new_with_inherited_empty();
    let pair = (Value::End(vec![1, 2]), Value::End(vec![3, 4]));
    let key = intermediate_of(&pair.0, &pair.1);

    once.insert(key.clone(), pair.clone()).unwrap();
    twice.insert(key.clone(), pair.clone()).unwrap();
    twice.insert(key, pair).unwrap();
    assert!(once.store_eq(&twice));
}
