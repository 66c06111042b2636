use bm::{InMemoryBackend, MerkleEmpty, MerkleVec, OwnedList, OwnedMerkleVec, Owned, Value};

fn item(value: usize) -> Vec<u8> {
    (value as u64).to_le_bytes().to_vec()
}

#[test]
fn test_extend_shrink() {
    let mut db = InMemoryBackend::new_with_inherited_empty();
    let mut empty = MerkleEmpty::<Owned>::default();

    let mut values = Vec::new();
    for _ in 0..32 {
        values.push(empty.root());
        empty.extend(&mut db).unwrap();
    }
    while let Some(root) = values.pop() {
        empty.shrink(&mut db).unwrap();
        assert_eq!(root, empty.root());
    }
    assert!(db.is_empty());
}

fn assert_push_pop_with_db(mut db: InMemoryBackend) {
    let mut vec = OwnedList::create(&mut db).unwrap();
    let mut roots = Vec::new();

    for i in 0..100usize {
        assert_eq!(vec.len(), i);
        vec.push(&mut db, item(i)).unwrap();
        roots.push(vec.root());
    }
    assert_eq!(vec.len(), 100);
    for i in (0..100usize).rev() {
        assert_eq!(vec.root(), roots.pop().unwrap());
        let value = vec.pop(&mut db).unwrap();
        assert_eq!(value, Some(item(i)));
        assert_eq!(vec.len(), i);
    }
    assert_eq!(vec.len(), 0);
}

#[test]
fn test_push_pop_inherited() {
    assert_push_pop_with_db(InMemoryBackend::new_with_inherited_empty());
}

#[test]
fn test_push_pop_unit() {
    assert_push_pop_with_db(InMemoryBackend::new_with_unit_empty(vec![255]));
}

#[test]
fn list_test_set() {
    let mut db = InMemoryBackend::new_with_inherited_empty();
    let mut vec = OwnedList::create(&mut db).unwrap();

    for i in 0..100usize {
        assert_eq!(vec.len(), i);
        vec.push(&mut db, item(0)).unwrap();
    }

    for i in 0..100usize {
        vec.set(&mut db, i, item(i)).unwrap();
    }
    for i in 0..100usize {
        assert_eq!(vec.get(&mut db, i).unwrap(), item(i));
    }
}

#[test]
fn list_test_deconstruct_reconstruct() {
    let mut db = InMemoryBackend::new_with_inherited_empty();
    let mut vec = OwnedList::create(&mut db).unwrap();

    for i in 0..100usize {
        assert_eq!(vec.len(), i);
        vec.push(&mut db, item(i)).unwrap();
    }
    let vec_hash = vec.deconstruct(&mut db).unwrap();

    let vec = OwnedList::reconstruct(vec_hash, &mut db).unwrap();
    assert_eq!(vec.len(), 100);
    for i in (0..100usize).rev() {
        assert_eq!(vec.get(&mut db, i).unwrap(), item(i));
    }
}

#[test]
fn test_push_pop() {
    let mut db = InMemoryBackend::new_with_inherited_empty();
    let mut vec = OwnedMerkleVec::create(&mut db).unwrap();

    for i in 0..100usize {
        assert_eq!(vec.len(), i);
        vec.push(&mut db, item(i)).unwrap();
    }
    assert_eq!(vec.len(), 100);
    for i in (0..100usize).rev() {
        let value = vec.pop(&mut db).unwrap();
        assert_eq!(value, Some(item(i)));
        assert_eq!(vec.len(), i);
    }
    assert_eq!(vec.len(), 0);
}

#[test]
fn vec_test_set() {
    let mut db = InMemoryBackend::new_with_inherited_empty();
    let mut vec = OwnedMerkleVec::create(&mut db).unwrap();

    for i in 0..100usize {
        assert_eq!(vec.len(), i);
        vec.push(&mut db, item(0)).unwrap();
    }

    for i in 0..100usize {
        vec.set(&mut db, i, item(i)).unwrap();
    }
    for i in 0..100usize {
        assert_eq!(vec.get(&mut db, i).unwrap(), item(i));
    }
}

#[test]
fn vec_test_deconstruct_reconstruct() {
    let mut db = InMemoryBackend::new_with_inherited_empty();
    let mut vec = OwnedMerkleVec::create(&mut db).unwrap();

    for i in 0..100usize {
        assert_eq!(vec.len(), i);
        vec.push(&mut db, item(i)).unwrap();
    }
    let vec_hash = vec.deconstruct(&mut db).unwrap();

    let vec = MerkleVec::<Owned>::reconstruct(vec_hash, &mut db).unwrap();
    assert_eq!(vec.len(), 100);
    for i in (0..100usize).rev() {
        assert_eq!(vec.get(&mut db, i).unwrap(), item(i));
    }
}

#[test]
fn list_values_reject_out_of_range() {
    let mut db = InMemoryBackend::new_with_inherited_empty();
    let mut vec = OwnedList::create(&mut db).unwrap();
    vec.push(&mut db, item(7)).unwrap();
    assert_eq!(vec.get(&mut db, 1), Err(bm::Error::AccessOverflowed));
    assert_eq!(
        vec.set(&mut db, 1, item(0)),
        Err(bm::Error::AccessOverflowed)
    );
}

#[test]
fn tuple_push_set_get_pop() {
    let mut db = InMemoryBackend::new_with_inherited_empty();
    let mut tuple = bm::MerkleTuple::<Owned>::create(&mut db, 0).unwrap();

    for i in 0..20usize {
        tuple.push(&mut db, item(i)).unwrap();
        assert_eq!(tuple.len(), i + 1);
    }
    for i in 0..20usize {
        tuple.set(&mut db, i, item(i + 100)).unwrap();
    }
    for i in 0..20usize {
        assert_eq!(tuple.get(&mut db, i).unwrap(), item(i + 100));
    }
    for i in (0..20usize).rev() {
        assert_eq!(tuple.pop(&mut db).unwrap(), Some(item(i + 100)));
    }
    assert_eq!(tuple.pop(&mut db).unwrap(), None);
}

#[test]
fn bounded_vector_rejects_overflow_and_bad_bounds() {
    let mut db = InMemoryBackend::new_with_inherited_empty();
    assert!(matches!(
        bm::Vector::<Owned>::create(&mut db, 0, Some(0)),
        Err(bm::Error::InvalidParameter)
    ));
    assert!(matches!(
        bm::Vector::<Owned>::create(&mut db, 3, Some(2)),
        Err(bm::Error::InvalidParameter)
    ));

    let mut vec = bm::Vector::<Owned>::create(&mut db, 0, Some(2)).unwrap();
    vec.push(&mut db, item(1)).unwrap();
    vec.push(&mut db, item(2)).unwrap();
    assert_eq!(vec.push(&mut db, item(3)), Err(bm::Error::AccessOverflowed));
}

#[test]
fn corrupt_and_missing_roots_are_reported() {
    let mut db = InMemoryBackend::new_with_inherited_empty();
    assert!(matches!(
        OwnedList::reconstruct(Value::End(vec![1, 2, 3]), &mut db),
        Err(bm::Error::CorruptedDatabase)
    ));
    assert!(matches!(
        OwnedList::reconstruct(Value::Intermediate(vec![9u8; 32]), &mut db),
        Err(bm::Error::Backend(
            bm::InMemoryBackendError::FetchingKeyNotExist
        ))
    ));
}
