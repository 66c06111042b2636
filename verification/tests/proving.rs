use bm::{
    intermediate_of, CompactValue, InMemoryBackend, MerkleIndex, OwnedList, Proofs,
    ProvingBackend, Value,
};

fn item(value: usize) -> Vec<u8> {
    let mut bytes = vec![0u8; 32];
    bytes[0..8].copy_from_slice(&(value as u64).to_le_bytes());
    bytes
}

#[test]
fn basic_proving_vec() {
    let db = InMemoryBackend::new_with_inherited_empty();
    let mut proving = ProvingBackend::new(db);
    let mut vec = OwnedList::create(&mut proving).unwrap();

    for i in 0..100usize {
        assert_eq!(vec.len(), i);
        vec.push(&mut proving, item(i)).unwrap();
    }
    proving.reset();

    vec.get(&mut proving, 5).unwrap();
    vec.get(&mut proving, 7).unwrap();
    let vec_hash = vec.deconstruct(&mut proving).unwrap();
    let proofs = proving.reset();

    let mut proved = InMemoryBackend::new_with_inherited_empty();
    proved.populate(proofs);
    let proved_vec = OwnedList::reconstruct(vec_hash, &mut proved).unwrap();
    assert_eq!(proved_vec.get(&mut proved, 5).unwrap(), item(5));
    assert_eq!(proved_vec.get(&mut proved, 7).unwrap(), item(7));
}

#[test]
fn compact_proofs_fold_back() {
    let db = InMemoryBackend::new_with_inherited_empty();
    let mut proving = ProvingBackend::new(db);
    let mut vec = OwnedList::create(&mut proving).unwrap();
    for i in 0..20usize {
        vec.push(&mut proving, item(i)).unwrap();
    }
    proving.reset();
    vec.get(&mut proving, 3).unwrap();
    let root = vec.deconstruct(&mut proving).unwrap();
    let proofs = proving.reset();

    let compact = proofs.into_compact(root.clone());
    assert_eq!(compact.root(), root);

    let (folded, folded_root) = Proofs::from_compact(compact);
    assert_eq!(folded_root, root);

    let mut proved = InMemoryBackend::new_with_inherited_empty();
    proved.populate(folded);
    let proved_vec = OwnedList::reconstruct(root, &mut proved).unwrap();
    assert_eq!(proved_vec.get(&mut proved, 3).unwrap(), item(3));
}

#[test]
fn from_plain_recomputes_the_chain() {
    let leaf = Value::End(vec![1]);
    let sibling_low = Value::End(vec![2]);
    let sibling_high = Value::End(vec![3]);
    let index = MerkleIndex::from_one(4).unwrap();

    let compact = CompactValue::from_plain(
        leaf.clone(),
        vec![sibling_low.clone(), sibling_high.clone()],
        index,
    )
    .unwrap();
    assert_eq!(compact.len(), 3);

    let inner = intermediate_of(&leaf, &sibling_low);
    let expected = intermediate_of(&Value::Intermediate(inner), &sibling_high);
    assert_eq!(compact.root(), Value::Intermediate(expected));

    assert!(CompactValue::from_plain(leaf.clone(), vec![sibling_low], index).is_none());
    assert!(CompactValue::from_plain(leaf, vec![], MerkleIndex::root()).is_some());
}
