use bm::{coverings, InMemoryBackend, Owned, OwnedPackedList, OwnedPackedVector};

fn wide(value: usize) -> Vec<u8> {
    let mut out = vec![0u8; 32];
    out[0] = value as u8;
    out
}

#[test]
fn test_coverings() {
    assert_eq!(coverings(3, 32, 8), (0, vec![(24, 32)]));
    assert_eq!(coverings(4, 32, 8), (1, vec![(0, 8)]));
    assert_eq!(coverings(1, 8, 32), (4, vec![(0, 8), (0, 8), (0, 8), (0, 8)]));
}

#[test]
fn test_tuple() {
    let mut db = InMemoryBackend::new_with_inherited_empty();
    let mut tuple = OwnedPackedVector::create(&mut db, 0, None, 8, 32).unwrap();

    for i in 0..100usize {
        tuple.push(&mut db, wide(i)).unwrap();
    }

    for i in 0..100usize {
        let value = tuple.get(&mut db, i).unwrap();
        assert_eq!(value, wide(i));
    }

    for i in (0..100usize).rev() {
        let value = tuple.pop(&mut db).unwrap();
        assert_eq!(value.unwrap(), wide(i));
    }
}

#[test]
fn test_vec() {
    let mut db = InMemoryBackend::new_with_inherited_empty();
    let mut vec = OwnedPackedList::create(&mut db, None, 8, 32).unwrap();

    for i in 0..100usize {
        vec.push(&mut db, wide(i)).unwrap();
    }

    for i in 0..100usize {
        let value = vec.get(&mut db, i).unwrap();
        assert_eq!(value, wide(i));
    }

    for i in (0..100usize).rev() {
        let value = vec.pop(&mut db).unwrap();
        assert_eq!(value.unwrap(), wide(i));
    }
}

#[test]
fn packed_narrow_values_share_hosts() {
    let mut db = InMemoryBackend::new_with_inherited_empty();
    let mut tuple = bm::PackedVector::<Owned>::create(&mut db, 0, None, 32, 8).unwrap();

    for i in 0..10usize {
        tuple.push(&mut db, (i as u64).to_le_bytes().to_vec()).unwrap();
    }
    for i in 0..10usize {
        assert_eq!(tuple.get(&mut db, i).unwrap(), (i as u64).to_le_bytes().to_vec());
    }
}
