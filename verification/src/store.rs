//! Mathematical model of the content-addressed store.
//!
//! A backend is modelled as a finite map from intermediate hash labels to a
//! pair of child values together with a local reference count.  A count of
//! `None` marks a proof-populated entry that never takes part in the
//! rootify/unrootify cascade; `Some(k)` counts the rooted chains and parent
//! entries that hold the entry alive.

use vstd::prelude::*;

use crate::traits::{hash_of_pair, ValueRep};

verus! {

/// A stored pair of children.
pub type PairRep = (ValueRep, ValueRep);

/// Contents of a backend: hash label to children pair and reference count.
pub type StoreRep = Map<Seq<u8>, (PairRep, Option<nat>)>;

/// Whether a child value needs no store entry (a leaf) or has one.
pub open spec fn child_present(s: StoreRep, v: ValueRep) -> bool {
    match v {
        ValueRep::Intermediate(k) => s.contains_key(k),
        ValueRep::End(_) => true,
    }
}

/// Increment the reference count of `key`, when the entry is counted at all.
/// Counts saturate at the machine limit of the executable counter.
pub open spec fn store_bump(s: StoreRep, key: Seq<u8>) -> StoreRep {
    if s.contains_key(key) {
        let (pair, cnt) = s[key];
        match cnt {
            Some(c) => s.insert(
                key,
                (pair, Some(if c < usize::MAX { (c + 1) as nat } else { c })),
            ),
            None => s,
        }
    } else {
        s
    }
}

/// Increment the reference count of a child when it is an intermediate.
pub open spec fn store_bump_child(s: StoreRep, v: ValueRep) -> StoreRep {
    match v {
        ValueRep::Intermediate(k) => store_bump(s, k),
        ValueRep::End(_) => s,
    }
}

/// Insert a pair under its key: present keys are kept untouched, otherwise
/// both intermediate children are bumped and the entry starts at count zero.
/// The second component tells whether the operation succeeds; on failure the
/// first component is the partial state the failing run leaves behind.
pub open spec fn store_insert_res(s: StoreRep, key: Seq<u8>, pair: PairRep) -> (StoreRep, bool) {
    if s.contains_key(key) {
        (s, true)
    } else if !child_present(s, pair.0) {
        (s, false)
    } else if !child_present(store_bump_child(s, pair.0), pair.1) {
        (store_bump_child(s, pair.0), false)
    } else {
        (
            store_bump_child(store_bump_child(s, pair.0), pair.1).insert(key, (pair, Some(0))),
            true,
        )
    }
}

/// Increment the count of a rooted key; fails when the key is absent.
pub open spec fn store_rootify_res(s: StoreRep, key: Seq<u8>) -> (StoreRep, bool) {
    if s.contains_key(key) {
        (store_bump(s, key), true)
    } else {
        (s, false)
    }
}

/// The keys of the intermediate children of a pair, left before right.
pub open spec fn child_keys(pair: PairRep) -> Seq<Seq<u8>> {
    (match pair.0 {
        ValueRep::Intermediate(k) => seq![k],
        ValueRep::End(_) => seq![],
    }) + (match pair.1 {
        ValueRep::Intermediate(k) => seq![k],
        ValueRep::End(_) => seq![],
    })
}

/// Unrootify every key of the worklist in order: decrement its count, and
/// when the count reaches zero delete the entry and push its intermediate
/// children onto the front of the worklist.  A missing key stops the cascade
/// with failure, leaving the state reached so far.
pub open spec fn store_remove_all(s: StoreRep, work: Seq<Seq<u8>>) -> (StoreRep, bool)
    decreases s.dom().len(), work.len(),
        when s.dom().finite()
    via store_remove_all_decreases
{
    if work.len() == 0 {
        (s, true)
    } else {
        let key = work[0];
        let rest = work.drop_first();
        if !s.contains_key(key) {
            (s, false)
        } else {
            let (pair, cnt) = s[key];
            match cnt {
                None => store_remove_all(s, rest),
                Some(c) => if c > 1 {
                    store_remove_all(s.insert(key, (pair, Some((c - 1) as nat))), rest)
                } else {
                    store_remove_all(s.remove(key), child_keys(pair) + rest)
                },
            }
        }
    }
}

#[via_fn]
proof fn store_remove_all_decreases(s: StoreRep, work: Seq<Seq<u8>>) {
    if work.len() > 0 {
        let key = work[0];
        if s.contains_key(key) {
            let (pair, cnt) = s[key];
            assert(s.insert(key, (pair, Some((s[key].1->Some_0 - 1) as nat))).dom() =~= s.dom());
            assert(s.remove(key).dom() =~= s.dom().remove(key));
            if s.dom().finite() {
                vstd::set::axiom_set_remove_len(s.dom(), key);
                assert(s.dom().remove(key).len() < s.dom().len());
            }
        }
    }
}

/// The root value of an all-empty subtree with the given depth, under the
/// unit or the inherited policy, with `end` the empty leaf payload.
pub open spec fn empty_root(depth: nat, unit: bool, end: Seq<u8>) -> ValueRep
    decreases depth,
{
    if unit || depth == 0 {
        ValueRep::End(end)
    } else {
        let sub = empty_root((depth - 1) as nat, unit, end);
        ValueRep::Intermediate(hash_of_pair(sub, sub))
    }
}

/// The store after materializing the inherited-empty chain up to `depth`.
pub open spec fn empty_chain_store(s: StoreRep, depth: nat, end: Seq<u8>) -> StoreRep
    decreases depth,
{
    if depth == 0 {
        s
    } else {
        let s1 = empty_chain_store(s, (depth - 1) as nat, end);
        let sub = empty_root((depth - 1) as nat, false, end);
        store_insert_res(s1, hash_of_pair(sub, sub), (sub, sub)).0
    }
}

/// Bumping a reference count changes no key.
pub proof fn lemma_bump_dom(s: StoreRep, key: Seq<u8>)
    ensures
        store_bump(s, key).dom() == s.dom(),
{
    assert(store_bump(s, key).dom() =~= s.dom());
}

/// Bumping a child's reference count changes no key.
pub proof fn lemma_bump_child_dom(s: StoreRep, v: ValueRep)
    ensures
        store_bump_child(s, v).dom() == s.dom(),
{
    match v {
        ValueRep::Intermediate(k) => lemma_bump_dom(s, k),
        ValueRep::End(_) => {},
    }
}

/// A successful insert leaves the key present.
pub proof fn lemma_insert_contains(s: StoreRep, key: Seq<u8>, pair: PairRep)
    requires
        store_insert_res(s, key, pair).1,
    ensures
        store_insert_res(s, key, pair).0.contains_key(key),
        store_insert_res(s, key, pair).0[key].0 == pair || s.contains_key(key),
{
}

/// Inserting the same pair under the same key twice yields the same store
/// as inserting it once, whenever the first insertion succeeds.
pub proof fn lemma_insert_idempotent(s: StoreRep, key: Seq<u8>, pair: PairRep)
    requires
        store_insert_res(s, key, pair).1,
    ensures
        store_insert_res(store_insert_res(s, key, pair).0, key, pair)
            == (store_insert_res(s, key, pair).0, true),
{
    lemma_insert_contains(s, key, pair);
}


/// Whether every entry is keyed by the hash of its pair.  Every write the
/// library itself makes keys an entry this way, so stores built by tree
/// operations satisfy it throughout.
pub open spec fn store_hash_consistent(s: StoreRep) -> bool {
    forall|k: Seq<u8>| #[trigger] s.contains_key(k) ==> k == hash_of_pair(s[k].0.0, s[k].0.1)
}

/// Bumping a count keeps every pair, so consistency survives.
pub proof fn lemma_bump_consistent(s: StoreRep, key: Seq<u8>)
    requires
        store_hash_consistent(s),
    ensures
        store_hash_consistent(store_bump(s, key)),
{
    let t = store_bump(s, key);
    assert forall|k: Seq<u8>| #[trigger] t.contains_key(k) implies k == hash_of_pair(
        t[k].0.0,
        t[k].0.1,
    ) by {
        assert(s.contains_key(k));
        assert(t[k].0 == s[k].0);
    }
}

/// Inserting a pair under its own hash keeps the store consistent.
pub proof fn lemma_insert_consistent(s: StoreRep, key: Seq<u8>, pair: PairRep)
    requires
        store_hash_consistent(s),
        key == hash_of_pair(pair.0, pair.1),
    ensures
        store_hash_consistent(store_insert_res(s, key, pair).0),
{
    let t = store_insert_res(s, key, pair).0;
    match pair.0 {
        ValueRep::Intermediate(k0) => lemma_bump_consistent(s, k0),
        ValueRep::End(_) => {},
    }
    let s1 = store_bump_child(s, pair.0);
    match pair.1 {
        ValueRep::Intermediate(k1) => lemma_bump_consistent(s1, k1),
        ValueRep::End(_) => {},
    }
    let s2 = store_bump_child(s1, pair.1);
    assert forall|k: Seq<u8>| #[trigger] t.contains_key(k) implies k == hash_of_pair(
        t[k].0.0,
        t[k].0.1,
    ) by {
        if !s.contains_key(key) && child_present(s, pair.0) && child_present(s1, pair.1) {
            if k != key {
                assert(s2.contains_key(k) && t[k].0 == s2[k].0);
            }
        }
    }
}

/// Rootifying keeps every pair, so consistency survives.
pub proof fn lemma_rootify_consistent(s: StoreRep, key: Seq<u8>)
    requires
        store_hash_consistent(s),
    ensures
        store_hash_consistent(store_rootify_res(s, key).0),
{
    if s.contains_key(key) {
        lemma_bump_consistent(s, key);
    }
}

/// The unrootify cascade only decrements and deletes, so consistency
/// survives.
pub proof fn lemma_remove_all_consistent(s: StoreRep, work: Seq<Seq<u8>>)
    requires
        s.dom().finite(),
        store_hash_consistent(s),
    ensures
        store_hash_consistent(store_remove_all(s, work).0),
    decreases s.dom().len(), work.len(),
{
    if work.len() > 0 {
        let key = work[0];
        let rest = work.drop_first();
        if s.contains_key(key) {
            let (pair, cnt) = s[key];
            match cnt {
                None => lemma_remove_all_consistent(s, rest),
                Some(c) => if c > 1 {
                    let t = s.insert(key, (pair, Some((c - 1) as nat)));
                    assert(t.dom() =~= s.dom());
                    assert forall|k: Seq<u8>| #[trigger] t.contains_key(k) implies k
                        == hash_of_pair(t[k].0.0, t[k].0.1) by {
                        assert(s.contains_key(k) && t[k].0 == s[k].0);
                    }
                    lemma_remove_all_consistent(t, rest);
                } else {
                    let t = s.remove(key);
                    assert(t.dom() =~= s.dom().remove(key));
                    vstd::set::axiom_set_remove_len(s.dom(), key);
                    assert forall|k: Seq<u8>| #[trigger] t.contains_key(k) implies k
                        == hash_of_pair(t[k].0.0, t[k].0.1) by {
                        assert(s.contains_key(k) && t[k].0 == s[k].0);
                    }
                    lemma_remove_all_consistent(t, child_keys(pair) + rest);
                },
            }
        }
    }
}

/// The inherited-empty chain inserts each level under its own hash, so
/// consistency survives.
pub proof fn lemma_empty_chain_consistent(s: StoreRep, depth: nat, end: Seq<u8>)
    requires
        store_hash_consistent(s),
    ensures
        store_hash_consistent(empty_chain_store(s, depth, end)),
    decreases depth,
{
    if depth > 0 {
        lemma_empty_chain_consistent(s, (depth - 1) as nat, end);
        let s1 = empty_chain_store(s, (depth - 1) as nat, end);
        let sub = empty_root((depth - 1) as nat, false, end);
        lemma_insert_consistent(s1, hash_of_pair(sub, sub), (sub, sub));
    }
}

} // verus!
