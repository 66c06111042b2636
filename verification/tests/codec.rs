use bm::{
    intermediate_of, tree_root, FixedVec, FromTree, InMemoryBackend, IntoTree, OwnedPackedVector,
    Value, VariableVec,
};

fn chunk_of(byte: u8) -> Value {
    let mut bytes = vec![0u8; 32];
    bytes[0] = byte;
    Value::End(bytes)
}

fn ssz_db() -> InMemoryBackend {
    InMemoryBackend::new_with_inherited_empty_value(vec![0u8; 32])
}

#[test]
fn uint_chunks_are_little_endian() {
    let mut db = ssz_db();
    let root = 0x0102_0304u32.into_tree(&mut db).unwrap();
    match &root {
        Value::End(bytes) => {
            assert_eq!(&bytes[0..4], &[0x04, 0x03, 0x02, 0x01]);
            assert!(bytes[4..].iter().all(|b| *b == 0));
        }
        Value::Intermediate(_) => panic!("a primitive hashes to a leaf"),
    }
}

#[test]
fn scalars_round_trip() {
    let mut db = ssz_db();
    for value in [0u64, 1, 2, 0xdead_beef, u64::MAX] {
        let root = value.into_tree(&mut db).unwrap();
        assert_eq!(u64::from_tree(&root, &mut db).unwrap(), value);
    }
    for value in [0u128, 77, u128::MAX] {
        let root = value.into_tree(&mut db).unwrap();
        assert_eq!(u128::from_tree(&root, &mut db).unwrap(), value);
    }
    for value in [true, false] {
        let root = value.into_tree(&mut db).unwrap();
        assert_eq!(bool::from_tree(&root, &mut db).unwrap(), value);
    }
}

#[test]
fn three_field_record_hashes_by_layers() {
    let value = (1u32, 2u64, 3u128);
    let root = tree_root(&value).unwrap();

    let left = intermediate_of(&chunk_of(1), &chunk_of(2));
    let right = intermediate_of(&chunk_of(3), &Value::End(vec![0u8; 32]));
    let expected = intermediate_of(&Value::Intermediate(left), &Value::Intermediate(right));
    assert_eq!(root, Value::Intermediate(expected));
}

#[test]
fn noop_root_matches_backend_root() {
    let value = (1u32, 2u64, 3u128);
    let throwaway = tree_root(&value).unwrap();

    let mut db = ssz_db();
    let stored = value.into_tree(&mut db).unwrap();
    assert_eq!(throwaway, stored);
}

#[test]
fn test_plain() {
    let data: Vec<u16> = (0..17u16).collect();

    let mut db = ssz_db();
    let encoded = bm::into_compact_list_tree(&data, &mut db, None).unwrap();
    let decoded: Vec<u16> = bm::from_compact_list_tree(&encoded, &mut db, None).unwrap();
    assert_eq!(data, decoded);
}

#[test]
fn length_mixin_of_a_bounded_list() {
    let data: Vec<u16> = (0..17u16).collect();
    let vec = VariableVec(data.clone(), Some(17));

    let mut db = ssz_db();
    let root = vec.into_tree(&mut db).unwrap();

    let mut db2 = ssz_db();
    let subtree = bm::into_compact_vector_tree(&data, &mut db2, Some(17)).unwrap();
    let len_chunk = Value::End(bm::encode_length(17));
    let expected = intermediate_of(&subtree, &len_chunk);
    assert_eq!(root, Value::Intermediate(expected));

    let back = VariableVec::<u16>::from_tree(&root, &mut db, Some(17)).unwrap();
    assert_eq!(back.0, data);
}

#[test]
fn packed_vector_agrees_with_packed_chunks() {
    let data: Vec<u64> = (0..12u64).collect();

    let mut db = ssz_db();
    let fixed_root = FixedVec(data.clone()).into_tree(&mut db).unwrap();

    let mut db2 = ssz_db();
    let mut packed = OwnedPackedVector::create(&mut db2, 0, None, 32, 8).unwrap();
    for v in &data {
        packed.push(&mut db2, v.to_le_bytes().to_vec()).unwrap();
    }
    assert_eq!(packed.root(), fixed_root);
}

#[test]
fn fixed_vector_round_trips() {
    let data: Vec<u32> = (100..120u32).collect();
    let mut db = ssz_db();
    let root = FixedVec(data.clone()).into_tree(&mut db).unwrap();
    let back = FixedVec::<u32>::from_tree(&root, &mut db, data.len()).unwrap();
    assert_eq!(back.0, data);
}

#[test]
fn leaves_with_stray_bytes_are_rejected() {
    let mut db = ssz_db();

    let mut tail_garbage = vec![0u8; 32];
    tail_garbage[0] = 7;
    tail_garbage[20] = 1;
    assert_eq!(
        u64::from_tree(&Value::End(tail_garbage), &mut db),
        Err(bm::Error::CorruptedDatabase)
    );

    let mut two = vec![0u8; 32];
    two[0] = 2;
    assert_eq!(
        bool::from_tree(&Value::End(two), &mut db),
        Err(bm::Error::CorruptedDatabase)
    );

    let mut wide_true = vec![0u8; 32];
    wide_true[0] = 1;
    wide_true[31] = 1;
    assert_eq!(
        bool::from_tree(&Value::End(wide_true), &mut db),
        Err(bm::Error::CorruptedDatabase)
    );

    assert_eq!(bool::from_tree(&Value::End(vec![0u8; 32]), &mut db), Ok(false));
    let mut one = vec![0u8; 32];
    one[0] = 1;
    assert_eq!(bool::from_tree(&Value::End(one), &mut db), Ok(true));

    assert_eq!(
        bool::from_tree(&Value::End(vec![1u8]), &mut db),
        Err(bm::Error::CorruptedDatabase)
    );
    assert_eq!(
        u64::from_tree(&Value::End(vec![7u8; 8]), &mut db),
        Err(bm::Error::CorruptedDatabase)
    );
    assert_eq!(
        u8::from_tree(&Value::End(vec![0u8; 33]), &mut db),
        Err(bm::Error::CorruptedDatabase)
    );
}

#[test]
fn zero_bound_lists_round_trip() {
    let mut db = ssz_db();
    let root = VariableVec::<u16>(Vec::new(), Some(0)).into_tree(&mut db).unwrap();
    let back = VariableVec::<u16>::from_tree(&root, &mut db, Some(0)).unwrap();
    assert!(back.0.is_empty());
}

#[test]
fn tree_root_never_fails() {
    assert!(bm::tree_root(&(1u32, 2u64)).is_ok());
    assert!(bm::tree_root(&(1u8, true, 3u128)).is_ok());
    assert!(bm::tree_root(&0u16).is_ok());
}

#[test]
fn bool_vectors_round_trip_and_reject_stray_bits() {
    let data: Vec<bool> = (0..22u32).map(|i| i % 3 == 0).collect();
    assert!(data[21]);

    let mut db = ssz_db();
    let root = bm::into_bool_vector_tree(&data, &mut db, Some(22)).unwrap();
    let back = bm::from_bool_vector_tree(&root, &mut db, 22, Some(22)).unwrap();
    assert_eq!(back, data);

    let shorter = bm::from_bool_vector_tree(&root, &mut db, 21, Some(22));
    assert_eq!(shorter, Err(bm::Error::CorruptedDatabase));
}

#[test]
fn bool_lists_round_trip() {
    let data: Vec<bool> = vec![true, false, true, true, false, false, true, false, true];

    let mut db = ssz_db();
    let root = bm::into_bool_list_tree(&data, &mut db, Some(16)).unwrap();
    let back = bm::from_bool_list_tree(&root, &mut db, Some(16)).unwrap();
    assert_eq!(back, data);
}

#[test]
fn options_round_trip_with_tag_mixin() {
    let mut db = ssz_db();

    let some_root = Some(7u64).into_tree(&mut db).unwrap();
    let expected = intermediate_of(
        &7u64.into_tree(&mut db).unwrap(),
        &Value::End(bm::encode_length(1)),
    );
    assert_eq!(some_root, Value::Intermediate(expected));
    assert_eq!(
        <Option<u64> as FromTree<_>>::from_tree(&some_root, &mut db).unwrap(),
        Some(7u64)
    );

    let none_root = <Option<u64>>::None.into_tree(&mut db).unwrap();
    assert_eq!(
        <Option<u64> as FromTree<_>>::from_tree(&none_root, &mut db).unwrap(),
        None
    );
}

#[test]
fn wide_leaf_types_round_trip() {
    let mut db = ssz_db();

    let h = bm::H256::from_bytes((0..32u8).collect()).unwrap();
    let h_root = h.into_tree(&mut db).unwrap();
    let h_back = bm::H256::from_tree(&h_root, &mut db).unwrap();
    assert_eq!(h_back.as_bytes(), h.as_bytes());

    let u = bm::U256::from_usize(0xfeed_beef);
    let u_root = u.into_tree(&mut db).unwrap();
    let u_back = bm::U256::from_tree(&u_root, &mut db).unwrap();
    assert_eq!(u_back.as_le_bytes(), u.as_le_bytes());

    assert!(bm::U256::from_le_bytes(vec![1, 2, 3]).is_err());
    assert!(bm::H256::from_tree(&Value::End(vec![0u8; 31]), &mut db).is_err());
}

#[test]
fn records_round_trip() {
    let mut db = ssz_db();
    let value = (1u32, 2u64, 3u128);
    let root = value.into_tree(&mut db).unwrap();
    let back = <(u32, u64, u128) as FromTree<_>>::from_tree(&root, &mut db).unwrap();
    assert_eq!(back, value);

    let pair = (true, 9u16);
    let pair_root = pair.into_tree(&mut db).unwrap();
    let pair_back = <(bool, u16) as FromTree<_>>::from_tree(&pair_root, &mut db).unwrap();
    assert_eq!(pair_back, pair);
}

#[test]
fn option_rejects_unknown_tags() {
    let mut db = ssz_db();
    let child = 5u64.into_tree(&mut db).unwrap();
    let tagged = bm::mix_in_length(child, &mut db, 2).unwrap();
    assert_eq!(
        <Option<u64> as FromTree<_>>::from_tree(&tagged, &mut db),
        Err(bm::Error::CorruptedDatabase)
    );

    let unit_mismatch = bm::mix_in_length(Value::End(vec![9]), &mut db, 0).unwrap();
    assert_eq!(
        <Option<u64> as FromTree<_>>::from_tree(&unit_mismatch, &mut db),
        Err(bm::Error::CorruptedDatabase)
    );
}
