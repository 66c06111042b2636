//! In-memory and noop merkle databases.

use vstd::prelude::*;

use crate::store::{
    child_present, empty_chain_store, empty_root, store_bump, store_bump_child, store_insert_res,
    store_remove_all, store_rootify_res, PairRep, StoreRep,
};
use crate::traits::{
    bytes_eq, intermediate_of, same_config, Backend, Construct, ReadBackend, Value, ValueRep,
    WriteBackend,
};

verus! {

/// Empty status.
pub trait EmptyStatus: Sized {
    /// Is the backend using unit empty.
    fn is_unit() -> bool;

    /// Is the backend using inherited empty.
    fn is_inherited() -> bool;
}

/// Inherited empty.
pub struct InheritedEmpty;

impl EmptyStatus for InheritedEmpty {
    fn is_unit() -> bool {
        false
    }

    fn is_inherited() -> bool {
        true
    }
}

/// Unit empty.
pub struct UnitEmpty;

impl EmptyStatus for UnitEmpty {
    fn is_unit() -> bool {
        true
    }

    fn is_inherited() -> bool {
        false
    }
}

/// SHA-256 construct whose empty subtrees are unit leaves.
pub struct UnitDigestConstruct;

impl Construct for UnitDigestConstruct {
    open spec fn unit() -> bool {
        true
    }

    fn is_unit() -> bool {
        true
    }
}

/// SHA-256 construct whose empty subtrees are materialized hash chains.
pub struct InheritedDigestConstruct;

impl Construct for InheritedDigestConstruct {
    open spec fn unit() -> bool {
        false
    }

    fn is_unit() -> bool {
        false
    }
}

#[derive(Debug, Eq, PartialEq, Clone)]
/// Noop DB error.
pub enum NoopBackendError {
    /// Not supported get operation.
    NotSupported,
}

#[derive(Debug, Eq, PartialEq, Clone)]
/// In-memory DB error.
pub enum InMemoryBackendError {
    /// Fetching key not exist.
    FetchingKeyNotExist,
    /// Trying to rootify a non-existing key.
    RootifyKeyNotExist,
    /// Set subkey does not exist.
    SetIntermediateNotExist,
}

/// One stored entry of the in-memory database.
pub(crate) struct Entry {
    pub(crate) key: Vec<u8>,
    pub(crate) pair: (Value, Value),
    pub(crate) count: Option<usize>,
}

impl Entry {
    pub(crate) fn duplicate(&self) -> (r: Self)
        ensures
            r.key@ == self.key@,
            entry_val(r) == entry_val(*self),
    {
        Entry {
            key: self.key.clone(),
            pair: (self.pair.0.clone(), self.pair.1.clone()),
            count: self.count,
        }
    }
}

/// The mathematical content of one entry.
pub(crate) open spec fn entry_val(e: Entry) -> (PairRep, Option<nat>) {
    (
        (e.pair.0@, e.pair.1@),
        match e.count {
            Some(c) => Some(c as nat),
            None => None,
        },
    )
}

/// The map described by a sequence of entries, later entries winning.
pub(crate) open spec fn entries_map(s: Seq<Entry>) -> StoreRep
    decreases s.len(),
{
    if s.len() == 0 {
        Map::empty()
    } else {
        entries_map(s.drop_last()).insert(s.last().key@, entry_val(s.last()))
    }
}

/// Whether the entry keys are pairwise distinct.
pub(crate) open spec fn entries_uniq(s: Seq<Entry>) -> bool {
    forall|i: int, j: int| 0 <= i < j < s.len() ==> s[i].key@ != s[j].key@
}

proof fn lemma_map_contains(s: Seq<Entry>, key: Seq<u8>)
    ensures
        entries_map(s).contains_key(key) <==> exists|i: int|
            0 <= i < s.len() && s[i].key@ == key,
    decreases s.len(),
{
    if s.len() > 0 {
        lemma_map_contains(s.drop_last(), key);
        if s.last().key@ == key {
            assert(s[s.len() - 1].key@ == key);
        } else if entries_map(s).contains_key(key) {
            let i = choose|i: int| 0 <= i < s.drop_last().len() && s.drop_last()[i].key@ == key;
            assert(s[i].key@ == key);
        } else if exists|i: int| 0 <= i < s.len() && s[i].key@ == key {
            let i = choose|i: int| 0 <= i < s.len() && s[i].key@ == key;
            assert(s.drop_last()[i].key@ == key);
        }
    }
}

proof fn lemma_map_finite(s: Seq<Entry>)
    ensures
        entries_map(s).dom().finite(),
    decreases s.len(),
{
    if s.len() > 0 {
        lemma_map_finite(s.drop_last());
    }
}

proof fn lemma_map_index(s: Seq<Entry>, i: int)
    requires
        entries_uniq(s),
        0 <= i < s.len(),
    ensures
        entries_map(s).contains_key(s[i].key@),
        entries_map(s)[s[i].key@] == entry_val(s[i]),
    decreases s.len(),
{
    if i == s.len() - 1 {
    } else {
        assert(entries_uniq(s.drop_last()));
        assert(s.drop_last()[i] == s[i]);
        lemma_map_index(s.drop_last(), i);
        assert(s[i].key@ != s.last().key@);
    }
}

proof fn lemma_map_update(s: Seq<Entry>, i: int, e: Entry)
    requires
        entries_uniq(s),
        0 <= i < s.len(),
        e.key@ == s[i].key@,
    ensures
        entries_uniq(s.update(i, e)),
        entries_map(s.update(i, e)) == entries_map(s).insert(e.key@, entry_val(e)),
    decreases s.len(),
{
    let t = s.update(i, e);
    assert forall|a: int, b: int| 0 <= a < b < t.len() implies t[a].key@ != t[b].key@ by {
        assert(s[a].key@ != s[b].key@);
    }
    if i == s.len() - 1 {
        assert(t.drop_last() =~= s.drop_last());
        assert(t.last() == e);
        assert(entries_map(t) =~= entries_map(s).insert(e.key@, entry_val(e)));
    } else {
        assert(t.drop_last() =~= s.drop_last().update(i, e));
        assert(t.last() == s.last());
        assert(entries_uniq(s.drop_last()));
        assert(s.drop_last()[i] == s[i]);
        lemma_map_update(s.drop_last(), i, e);
        assert(s.last().key@ != e.key@);
        assert(entries_map(t) =~= entries_map(s).insert(e.key@, entry_val(e)));
    }
}

proof fn lemma_map_push(s: Seq<Entry>, e: Entry)
    requires
        entries_uniq(s),
        forall|i: int| 0 <= i < s.len() ==> s[i].key@ != e.key@,
    ensures
        entries_uniq(s.push(e)),
        entries_map(s.push(e)) == entries_map(s).insert(e.key@, entry_val(e)),
{
    let t = s.push(e);
    assert forall|a: int, b: int| 0 <= a < b < t.len() implies t[a].key@ != t[b].key@ by {
        if b < t.len() - 1 {
            assert(s[a].key@ != s[b].key@);
        } else {
            assert(s[a].key@ != e.key@);
        }
    }
    assert(t.drop_last() =~= s);
    assert(t.last() == e);
}

proof fn lemma_map_swap_remove(s: Seq<Entry>, i: int)
    requires
        entries_uniq(s),
        0 <= i < s.len(),
    ensures
        entries_uniq(s.update(i, s.last()).drop_last()),
        entries_map(s.update(i, s.last()).drop_last()) == entries_map(s).remove(s[i].key@),
{
    let t = s.update(i, s.last()).drop_last();
    let key = s[i].key@;
    assert forall|a: int, b: int| 0 <= a < b < t.len() implies t[a].key@ != t[b].key@ by {
        if a == i {
            assert(t[a] == s.last());
            assert(s[b].key@ != s.last().key@ || b == s.len() - 1);
        } else if b == i {
            assert(t[b] == s.last());
        } else {
            assert(s[a].key@ != s[b].key@);
        }
    }
    assert forall|k: Seq<u8>|
        #![trigger entries_map(t).contains_key(k)]
        #![trigger entries_map(t)[k]]
        entries_map(t).contains_key(k) == entries_map(s).remove(key).contains_key(k) && (
        entries_map(t).contains_key(k) ==> entries_map(t)[k] == entries_map(s).remove(key)[k]) by {
        lemma_map_contains(t, k);
        lemma_map_contains(s, k);
        if entries_map(t).contains_key(k) {
            let a = choose|a: int| 0 <= a < t.len() && t[a].key@ == k;
            let orig = if a == i {
                s.len() - 1
            } else {
                a
            };
            assert(t[a] == s[orig]);
            assert(s[orig].key@ == k);
            lemma_map_index(t, a);
            lemma_map_index(s, orig);
            assert(orig != i) by {
                if orig == i {
                    assert(t[a] == s.last());
                    assert(i == s.len() - 1 || s[i].key@ != s.last().key@);
                }
            }
            assert(k != key);
        } else if entries_map(s).remove(key).contains_key(k) {
            let orig = choose|a: int| 0 <= a < s.len() && s[a].key@ == k;
            assert(k != key);
            assert(orig != i);
            let a = if orig == s.len() - 1 {
                i
            } else {
                orig
            };
            if orig == s.len() - 1 {
                assert(t[i] == s.last());
            }
            assert(0 <= a < t.len() && t[a].key@ == k);
        }
    }
    assert forall|k: Seq<u8>|
        entries_map(s).remove(key).contains_key(k) implies #[trigger] entries_map(t).contains_key(
        k,
    ) by {
        assert(entries_map(t).contains_key(k) == entries_map(s).remove(key).contains_key(k));
    }
    assert(entries_map(t) =~= entries_map(s).remove(key));
}

/// In-memory merkle database.
pub struct InMemoryBackend {
    pub(crate) entries: Vec<Entry>,
    pub(crate) unit: bool,
    pub(crate) empty: Vec<u8>,
}

proof fn lemma_map_congruence(a: Seq<Entry>, b: Seq<Entry>)
    requires
        a.len() == b.len(),
        forall|i: int| #![all_triggers] 0 <= i < a.len() ==> a[i].key@ == b[i].key@ && entry_val(
            a[i],
        ) == entry_val(b[i]),
    ensures
        entries_map(a) == entries_map(b),
        entries_uniq(a) == entries_uniq(b),
    decreases a.len(),
{
    if a.len() > 0 {
        lemma_map_congruence(a.drop_last(), b.drop_last());
        assert(entries_map(a) =~= entries_map(b));
    }
    assert forall|i: int, j: int| 0 <= i < j < a.len() implies (a[i].key@ != a[j].key@) == (
    b[i].key@ != b[j].key@) by {}
}

impl Clone for InMemoryBackend {
    /// A clone describes the same store.
    fn clone(&self) -> (r: Self)
        ensures
            r.store() == self.store(),
            r.wf() == self.wf(),
            same_config(&r, self),
            r.is_noop() == self.is_noop(),
    {
        let mut entries: Vec<Entry> = Vec::new();
        let n: usize = self.entries.len();
        let mut i: usize = 0;
        while i < n
            invariant
                n == self.entries@.len(),
                i <= n,
                entries@.len() == i,
                forall|j: int| #![all_triggers] 0 <= j < i ==> entries@[j].key@
                    == self.entries@[j].key@ && entry_val(entries@[j]) == entry_val(
                    self.entries@[j],
                ),
            decreases n - i,
        {
            entries.push(self.entries[i].duplicate());
            i = i + 1;
        }
        let r = InMemoryBackend { entries, unit: self.unit, empty: self.empty.clone() };
        proof {
            lemma_map_congruence(r.entries@, self.entries@);
        }
        r
    }
}

impl Backend for InMemoryBackend {
    type Error = InMemoryBackendError;

    closed spec fn store(&self) -> StoreRep {
        entries_map(self.entries@)
    }

    closed spec fn is_noop(&self) -> bool {
        false
    }

    closed spec fn unit_policy(&self) -> bool {
        self.unit
    }

    closed spec fn empty_end(&self) -> Seq<u8> {
        self.empty@
    }

    closed spec fn wf(&self) -> bool {
        entries_uniq(self.entries@)
    }

    proof fn wf_finite(&self) {
        lemma_map_finite(self.entries@);
    }

    proof fn noop_unreadable(&self) {
    }
}

impl InMemoryBackend {
    /// A fresh database that materializes empty chains over a zero-length
    /// empty leaf.
    pub fn new_with_inherited_empty() -> (r: Self)
        ensures
            r.wf(),
            r.store() == Map::<Seq<u8>, (PairRep, Option<nat>)>::empty(),
            !r.is_noop(),
            !r.unit_policy(),
            r.empty_end() == Seq::<u8>::empty(),
    {
        let r = InMemoryBackend { entries: Vec::new(), unit: false, empty: Vec::new() };
        proof {
            assert(r.empty@ =~= Seq::<u8>::empty());
        }
        r
    }

    /// A fresh database that materializes empty chains over the given
    /// empty leaf payload.
    pub fn new_with_inherited_empty_value(end: Vec<u8>) -> (r: Self)
        ensures
            r.wf(),
            r.store() == Map::<Seq<u8>, (PairRep, Option<nat>)>::empty(),
            !r.is_noop(),
            !r.unit_policy(),
            r.empty_end() == end@,
    {
        InMemoryBackend { entries: Vec::new(), unit: false, empty: end }
    }

    /// A fresh database that treats every empty subtree as the given unit
    /// leaf.
    pub fn new_with_unit_empty(end: Vec<u8>) -> (r: Self)
        ensures
            r.wf(),
            r.store() == Map::<Seq<u8>, (PairRep, Option<nat>)>::empty(),
            !r.is_noop(),
            r.unit_policy(),
            r.empty_end() == end@,
    {
        InMemoryBackend { entries: Vec::new(), unit: true, empty: end }
    }

    /// How many entries the database holds.
    pub fn len(&self) -> (r: usize)
        requires
            self.wf(),
        ensures
            r == self.store().dom().len(),
    {
        proof {
            lemma_entries_dom_len(self.entries@);
        }
        self.entries.len()
    }

    /// Whether the database holds no entry.
    pub fn is_empty(&self) -> (r: bool)
        requires
            self.wf(),
        ensures
            r == (self.store() =~= Map::<Seq<u8>, (PairRep, Option<nat>)>::empty()),
    {
        proof {
            if self.entries@.len() > 0 {
                lemma_map_index(self.entries@, 0);
            }
        }
        self.entries.len() == 0
    }

    /// Whether two databases hold exactly the same entries, reference
    /// counts included.
    pub fn store_eq(&self, other: &Self) -> (r: bool)
        requires
            self.wf(),
            other.wf(),
        ensures
            r == (self.store() =~= other.store()),
    {
        if !self.store_subset(other) {
            return false;
        }
        if !other.store_subset(self) {
            return false;
        }
        proof {
            assert forall|k: Seq<u8>| #![all_triggers]
                self.store().contains_key(k) == other.store().contains_key(k) && (
                self.store().contains_key(k) ==> self.store()[k] == other.store()[k]) by {}
            assert(self.store() =~= other.store());
        }
        true
    }

    /// Whether every entry of this database stands in the other with the
    /// same pair and count.
    #[verifier::loop_isolation(false)]
    fn store_subset(&self, other: &Self) -> (r: bool)
        requires
            self.wf(),
            other.wf(),
        ensures
            r == (forall|k: Seq<u8>| #[trigger] self.store().contains_key(k)
                ==> other.store().contains_key(k) && self.store()[k] == other.store()[k]),
    {
        let n = self.entries.len();
        let mut i: usize = 0;
        while i < n
            invariant
                i <= n,
                forall|j: int| 0 <= j < i ==> other.store().contains_key(
                    #[trigger] self.entries@[j].key@,
                ) && self.store()[self.entries@[j].key@] == other.store()[self.entries@[j].key@],
            decreases n - i,
        {
            proof {
                lemma_map_index(self.entries@, i as int);
                lemma_map_contains(other.entries@, self.entries@[i as int].key@);
            }
            let e = &self.entries[i];
            match other.find(&e.key) {
                None => {
                    proof {
                        assert(self.store().contains_key(self.entries@[i as int].key@));
                        assert(!other.store().contains_key(self.entries@[i as int].key@));
                    }
                    return false;
                },
                Some(j) => {
                    proof {
                        lemma_map_index(other.entries@, j as int);
                    }
                    let o = &other.entries[j];
                    let pair_same = e.pair.0 == o.pair.0 && e.pair.1 == o.pair.1;
                    let count_same = match (e.count, o.count) {
                        (Some(a), Some(b)) => a == b,
                        (None, None) => true,
                        _ => false,
                    };
                    if !(pair_same && count_same) {
                        proof {
                            let k = self.entries@[i as int].key@;
                            assert(self.store()[k] == entry_val(self.entries@[i as int]));
                            assert(other.store()[k] == entry_val(other.entries@[j as int]));
                            assert(self.store()[k] != other.store()[k]);
                        }
                        return false;
                    }
                },
            }
            i = i + 1;
        }
        proof {
            assert forall|k: Seq<u8>| #[trigger] self.store().contains_key(k)
                implies other.store().contains_key(k) && self.store()[k]
                == other.store()[k] by {
                lemma_map_contains(self.entries@, k);
                let j = choose|j: int| 0 <= j < self.entries@.len() && self.entries@[j].key@ == k;
                assert(self.entries@[j].key@ == k);
            }
        }
        true
    }

    /// Index of the entry with the given key, when present.
    fn find(&self, key: &Vec<u8>) -> (r: Option<usize>)
        ensures
            match r {
                Some(i) => i < self.entries@.len() && self.entries@[i as int].key@ == key@,
                None => forall|i: int| 0 <= i < self.entries@.len() ==> self.entries@[i].key@
                    != key@,
            },
    {
        let n: usize = self.entries.len();
        let mut i: usize = 0;
        while i < n
            invariant
                n == self.entries@.len(),
                i <= n,
                forall|j: int| 0 <= j < i ==> self.entries@[j].key@ != key@,
            decreases n - i,
        {
            if bytes_eq(&self.entries[i].key, key) {
                return Some(i);
            }
            i = i + 1;
        }
        None
    }

    /// Increment the count of the entry with the given key; reports whether
    /// the key was present.
    fn bump(&mut self, key: &Vec<u8>) -> (r: bool)
        requires
            old(self).wf(),
        ensures
            final(self).wf(),
            final(self).unit == old(self).unit,
            final(self).empty == old(self).empty,
            r == old(self).store().contains_key(key@),
            final(self).store() == store_bump(old(self).store(), key@),
            final(self).entries@.len() == old(self).entries@.len(),
            forall|i: int| 0 <= i < final(self).entries@.len() ==> final(self).entries@[i].key@
                == old(self).entries@[i].key@,
    {
        proof {
            lemma_map_contains(self.entries@, key@);
        }
        match self.find(key) {
            None => false,
            Some(i) => {
                proof {
                    lemma_map_index(self.entries@, i as int);
                }
                let cnt = self.entries[i].count;
                match cnt {
                    Some(c) => {
                        let c2: usize = if c < usize::MAX {
                            c + 1
                        } else {
                            c
                        };
                        self.entries[i].count = Some(c2);
                        proof {
                            let e2 = Entry {
                                key: old(self).entries@[i as int].key,
                                pair: old(self).entries@[i as int].pair,
                                count: Some(c2),
                            };
                            assert(self.entries@[i as int].count == Some(c2));
                            assert(self.entries@ =~= old(self).entries@.update(i as int, self.entries@[i as int]));
                            lemma_map_update(old(self).entries@, i as int, self.entries@[i as int]);
                        }
                        true
                    },
                    None => {
                        true
                    },
                }
            },
        }
    }
}

/// Index of the entry with the given key in a sequence of entries.
pub(crate) fn find_entry(entries: &Vec<Entry>, key: &Vec<u8>) -> (r: Option<usize>)
    ensures
        match r {
            Some(i) => i < entries@.len() && entries@[i as int].key@ == key@,
            None => forall|i: int| 0 <= i < entries@.len() ==> entries@[i].key@ != key@,
        },
{
    let n: usize = entries.len();
    let mut i: usize = 0;
    while i < n
        invariant
            n == entries@.len(),
            i <= n,
            forall|j: int| 0 <= j < i ==> entries@[j].key@ != key@,
        decreases n - i,
    {
        if bytes_eq(&entries[i].key, key) {
            return Some(i);
        }
        i = i + 1;
    }
    None
}

pub(crate) proof fn lemma_map_contains_pub(s: Seq<Entry>, key: Seq<u8>)
    ensures
        entries_map(s).contains_key(key) <==> exists|i: int|
            0 <= i < s.len() && s[i].key@ == key,
{
    lemma_map_contains(s, key);
}

pub(crate) proof fn lemma_map_index_pub(s: Seq<Entry>, i: int)
    requires
        entries_uniq(s),
        0 <= i < s.len(),
    ensures
        entries_map(s).contains_key(s[i].key@),
        entries_map(s)[s[i].key@] == entry_val(s[i]),
{
    lemma_map_index(s, i);
}

pub(crate) proof fn lemma_map_update_pub(s: Seq<Entry>, i: int, e: Entry)
    requires
        entries_uniq(s),
        0 <= i < s.len(),
        e.key@ == s[i].key@,
    ensures
        entries_uniq(s.update(i, e)),
        entries_map(s.update(i, e)) == entries_map(s).insert(e.key@, entry_val(e)),
{
    lemma_map_update(s, i, e);
}

pub(crate) proof fn lemma_map_push_pub(s: Seq<Entry>, e: Entry)
    requires
        entries_uniq(s),
        forall|i: int| 0 <= i < s.len() ==> s[i].key@ != e.key@,
    ensures
        entries_uniq(s.push(e)),
        entries_map(s.push(e)) == entries_map(s).insert(e.key@, entry_val(e)),
{
    lemma_map_push(s, e);
}

pub(crate) proof fn lemma_entries_dom_len_pub(s: Seq<Entry>)
    requires
        entries_uniq(s),
    ensures
        entries_map(s).dom().len() == s.len(),
{
    lemma_entries_dom_len(s);
}

/// The views of a worklist of keys.
pub(crate) open spec fn keys_rep(w: Seq<Vec<u8>>) -> Seq<Seq<u8>> {
    w.map_values(|k: Vec<u8>| k@)
}

impl InMemoryBackend {
    /// Populate the database with captured proofs: each entry is stored
    /// under its key with no reference count, immune to unrootify.
    #[verifier::loop_isolation(false)]
    pub fn populate(&mut self, proofs: crate::proving::Proofs)
        requires
            old(self).wf(),
            proofs.wf(),
        ensures
            final(self).wf(),
            same_config(final(self), old(self)),
            final(self).store() == old(self).store().union_prefer_right(
                proofs@.map_values(|pr: crate::store::PairRep| (pr, None::<nat>)),
            ),
    {
        let n = proofs.entries.len();
        let mut i: usize = 0;
        proof {
            assert(crate::proving::proofs_map(proofs.entries@.take(0)) =~= Map::<
                Seq<u8>,
                crate::store::PairRep,
            >::empty());
            assert(self.store().union_prefer_right(
                crate::proving::proofs_map(proofs.entries@.take(0)).map_values(
                    |pr: crate::store::PairRep| (pr, None::<nat>),
                ),
            ) =~= self.store());
        }
        while i < n
            invariant
                i <= n,
                self.wf(),
                self.unit == old(self).unit,
                self.empty == old(self).empty,
                self.store() == old(self).store().union_prefer_right(
                    crate::proving::proofs_map(proofs.entries@.take(i as int)).map_values(
                        |pr: crate::store::PairRep| (pr, None::<nat>),
                    ),
                ),
            decreases n - i,
        {
            let mut e = proofs.entries[i].duplicate();
            e.count = None;
            proof {
                lemma_map_contains(self.entries@, e.key@);
                crate::proving::lemma_proofs_wf_entries(&proofs);
                assert forall|a: int, b: int|
                    0 <= a < b < proofs.entries@.take(i as int).len() implies proofs.entries@.take(
                    i as int,
                )[a].key@ != proofs.entries@.take(i as int)[b].key@ by {
                    assert(proofs.entries@[a].key@ != proofs.entries@[b].key@);
                }
                assert forall|a: int|
                    0 <= a < proofs.entries@.take(i as int).len() implies proofs.entries@.take(
                    i as int,
                )[a].key@ != proofs.entries@[i as int].key@ by {
                    assert(proofs.entries@[a].key@ != proofs.entries@[i as int].key@);
                }
                lemma_map_push(proofs.entries@.take(i as int), proofs.entries@[i as int]);
                assert(proofs.entries@.take(i as int + 1) =~= proofs.entries@.take(
                    i as int,
                ).push(proofs.entries@[i as int]));
            }
            let ghost before = self.entries@;
            match self.find(&e.key) {
                Some(j) => {
                    proof {
                        lemma_map_update(before, j as int, e);
                    }
                    self.entries[j] = e;
                },
                None => {
                    proof {
                        lemma_map_push(before, e);
                    }
                    self.entries.push(e);
                },
            }
            proof {
                assert(self.store() =~= old(self).store().union_prefer_right(
                    crate::proving::proofs_map(proofs.entries@.take(i as int + 1)).map_values(
                        |pr: crate::store::PairRep| (pr, None::<nat>),
                    ),
                ));
            }
            i = i + 1;
        }
        proof {
            crate::proving::lemma_proofs_wf_entries(&proofs);
            assert(proofs.entries@.take(n as int) =~= proofs.entries@);
        }
    }
}

impl ReadBackend for InMemoryBackend {
    fn get(&mut self, key: &Vec<u8>) -> (r: Result<(Value, Value), InMemoryBackendError>)
        ensures
            r matches Err(e) ==> e == InMemoryBackendError::FetchingKeyNotExist,
    {
        proof {
            lemma_map_contains(self.entries@, key@);
        }
        match self.find(key) {
            Some(i) => {
                proof {
                    lemma_map_index(self.entries@, i as int);
                }
                let pair = &self.entries[i].pair;
                Ok((pair.0.clone(), pair.1.clone()))
            },
            None => Err(InMemoryBackendError::FetchingKeyNotExist),
        }
    }
}

impl WriteBackend for InMemoryBackend {
    fn rootify(&mut self, key: &Vec<u8>) -> (r: Result<(), InMemoryBackendError>)
        ensures
            r matches Err(e) ==> e == InMemoryBackendError::RootifyKeyNotExist,
    {
        proof {
            lemma_map_contains(self.entries@, key@);
        }
        let hit = self.bump(key);
        if hit {
            Ok(())
        } else {
            Err(InMemoryBackendError::RootifyKeyNotExist)
        }
    }

    #[verifier::loop_isolation(false)]
    fn unrootify(&mut self, key: &Vec<u8>) -> (r: Result<(), InMemoryBackendError>)
        ensures
            r matches Err(e) ==> e == InMemoryBackendError::SetIntermediateNotExist,
    {
        let ghost s0 = self.store();
        let ghost target = store_remove_all(s0, seq![key@]);
        let ghost unit0 = self.unit;
        let ghost emp0 = self.empty;
        proof {
            lemma_map_finite(self.entries@);
        }
        let mut work: Vec<Vec<u8>> = Vec::new();
        work.push(key.clone());
        proof {
            assert(keys_rep(work@) =~= seq![key@]);
        }
        loop
            invariant
                self.wf(),
                self.unit == unit0,
                self.empty == emp0,
                store_remove_all(self.store(), keys_rep(work@)) == target,
            decreases self.entries@.len(), work@.len(),
        {
            proof {
                lemma_map_finite(self.entries@);
            }
            if work.len() == 0 {
                proof {
                    assert(keys_rep(work@) =~= Seq::<Seq<u8>>::empty());
                    assert(store_remove_all(self.store(), keys_rep(work@)) == (
                    self.store(),
                    true,
                ));
                }
                return Ok(());
            }
            let ghost w0 = work@;
            let ghost scur = self.store();
            let k = work.remove(0);
            proof {
                assert(keys_rep(w0)[0] == k@);
                assert(keys_rep(work@) =~= keys_rep(w0).drop_first());
                lemma_map_contains(self.entries@, k@);
            }
            match self.find(&k) {
                None => {
                    proof {
                        assert(!scur.contains_key(k@));
                        assert(store_remove_all(scur, keys_rep(w0)) == (scur, false));
                    }
                    return Err(InMemoryBackendError::SetIntermediateNotExist);
                },
                Some(i) => {
                    proof {
                        lemma_map_index(self.entries@, i as int);
                    }
                    let cnt = self.entries[i].count;
                    match cnt {
                        None => {
                            proof {
                                assert(store_remove_all(scur, keys_rep(w0)) == store_remove_all(
                                    scur,
                                    keys_rep(w0).drop_first(),
                                ));
                            }
                        },
                        Some(c) => {
                            if c > 1 {
                                let ghost before = self.entries@;
                                self.entries[i].count = Some(c - 1);
                                proof {
                                    assert(self.entries@ =~= before.update(
                                        i as int,
                                        self.entries@[i as int],
                                    ));
                                    lemma_map_update(before, i as int, self.entries@[i as int]);
                                    assert(store_remove_all(scur, keys_rep(w0))
                                        == store_remove_all(
                                        scur.insert(
                                            k@,
                                            (scur[k@].0, Some((scur[k@].1->Some_0 - 1) as nat)),
                                        ),
                                        keys_rep(w0).drop_first(),
                                    ));
                                    assert(self.store() =~= scur.insert(
                                        k@,
                                        (scur[k@].0, Some((scur[k@].1->Some_0 - 1) as nat)),
                                    ));
                                }
                            } else {
                                let ghost before = self.entries@;
                                let e = self.entries.swap_remove(i);
                                proof {
                                    lemma_map_swap_remove(before, i as int);
                                    assert(self.store() == scur.remove(k@));
                                }
                                let ghost wmid = work@;
                                match &e.pair.1 {
                                    Value::Intermediate(k1) => work.insert(0, k1.clone()),
                                    Value::End(_) => {},
                                }
                                match &e.pair.0 {
                                    Value::Intermediate(k0) => work.insert(0, k0.clone()),
                                    Value::End(_) => {},
                                }
                                proof {
                                    assert(keys_rep(work@) =~= crate::store::child_keys(
                                        (e.pair.0@, e.pair.1@),
                                    ) + keys_rep(wmid));
                                    assert(scur[k@].0 == (e.pair.0@, e.pair.1@));
                                    assert(store_remove_all(scur, keys_rep(w0))
                                        == store_remove_all(
                                        scur.remove(k@),
                                        crate::store::child_keys((e.pair.0@, e.pair.1@))
                                            + keys_rep(w0).drop_first(),
                                    ));
                                }
                            }
                        },
                    }
                },
            }
        }
    }

    fn insert(&mut self, key: Vec<u8>, value: (Value, Value)) -> (r: Result<
        (),
        InMemoryBackendError,
    >)
        ensures
            r matches Err(e) ==> e == InMemoryBackendError::SetIntermediateNotExist,
    {
        proof {
            lemma_map_contains(self.entries@, key@);
        }
        match self.find(&key) {
            Some(_) => Ok(()),
            None => {
                let ok0 = match &value.0 {
                    Value::Intermediate(sub) => self.bump(sub),
                    Value::End(_) => true,
                };
                if !ok0 {
                    return Err(InMemoryBackendError::SetIntermediateNotExist);
                }
                let ok1 = match &value.1 {
                    Value::Intermediate(sub) => self.bump(sub),
                    Value::End(_) => true,
                };
                if !ok1 {
                    return Err(InMemoryBackendError::SetIntermediateNotExist);
                }
                let ghost before = self.entries@;
                let e = Entry { key, pair: value, count: Some(0) };
                proof {
                    lemma_map_push(before, e);
                }
                self.entries.push(e);
                Ok(())
            },
        }
    }

    #[verifier::loop_isolation(false)]
    fn empty_at(&mut self, depth_to_bottom: usize) -> (r: Result<Value, InMemoryBackendError>) {
        if self.unit {
            return Ok(Value::End(self.empty.clone()));
        }
        let ghost s0 = self.store();
        let ghost e0 = self.empty@;
        let ghost emp0 = self.empty;
        let mut current = Value::End(self.empty.clone());
        let mut d: usize = 0;
        while d < depth_to_bottom
            invariant
                self.wf(),
                !self.unit,
                self.empty@ == e0,
                d <= depth_to_bottom,
                current@ == empty_root(d as nat, false, e0),
                self.store() == empty_chain_store(s0, d as nat, e0),
                d > 0 ==> child_present(self.store(), current@),
            decreases depth_to_bottom - d,
        {
            let key = intermediate_of(&current, &current);
            let c2 = current.clone();
            let ghost scur = self.store();
            let ghost pair_rep = (current@, current@);
            proof {
                crate::store::lemma_bump_child_dom(scur, pair_rep.0);
                assert(store_insert_res(scur, key@, pair_rep).1);
            }
            let res = self.insert(key.clone(), (c2, current));
            proof {
                crate::store::lemma_insert_contains(scur, key@, pair_rep);
            }
            match res {
                Ok(_) => {},
                Err(_) => {
                    proof {
                        assert(false);
                    }
                    return Err(InMemoryBackendError::SetIntermediateNotExist);
                },
            }
            current = Value::Intermediate(key);
            d = d + 1;
        }
        Ok(current)
    }
}

#[derive(Debug, Eq, PartialEq, Clone)]
/// Noop merkle database: it stores nothing and reads nothing.
pub struct NoopBackend {
    pub(crate) unit: bool,
    pub(crate) empty: Vec<u8>,
}

impl Backend for NoopBackend {
    type Error = NoopBackendError;

    closed spec fn store(&self) -> StoreRep {
        Map::empty()
    }

    closed spec fn is_noop(&self) -> bool {
        true
    }

    closed spec fn unit_policy(&self) -> bool {
        self.unit
    }

    closed spec fn empty_end(&self) -> Seq<u8> {
        self.empty@
    }

    closed spec fn wf(&self) -> bool {
        true
    }

    proof fn wf_finite(&self) {
    }

    proof fn noop_unreadable(&self) {
    }
}

impl NoopBackend {
    /// A noop database that hashes empty chains over a zero-length empty
    /// leaf.
    pub fn new_with_inherited_empty() -> (r: Self)
        ensures
            r.wf(),
            r.is_noop(),
            r.store() == Map::<Seq<u8>, (PairRep, Option<nat>)>::empty(),
            !r.unit_policy(),
            r.empty_end() == Seq::<u8>::empty(),
    {
        let r = NoopBackend { unit: false, empty: Vec::new() };
        proof {
            assert(r.empty@ =~= Seq::<u8>::empty());
        }
        r
    }

    /// A noop database that hashes empty chains over the given empty leaf.
    pub fn new_with_inherited_empty_value(end: Vec<u8>) -> (r: Self)
        ensures
            r.wf(),
            r.is_noop(),
            r.store() == Map::<Seq<u8>, (PairRep, Option<nat>)>::empty(),
            !r.unit_policy(),
            r.empty_end() == end@,
    {
        NoopBackend { unit: false, empty: end }
    }

    /// A noop database that treats every empty subtree as the given unit
    /// leaf.
    pub fn new_with_unit_empty(end: Vec<u8>) -> (r: Self)
        ensures
            r.wf(),
            r.is_noop(),
            r.store() == Map::<Seq<u8>, (PairRep, Option<nat>)>::empty(),
            r.unit_policy(),
            r.empty_end() == end@,
    {
        NoopBackend { unit: true, empty: end }
    }
}

impl Default for NoopBackend {
    /// The default noop database materializes nothing and hashes empty
    /// chains over a zero-length empty leaf.
    fn default() -> (r: Self)
        ensures
            r.wf(),
            r.is_noop(),
            r.store() == Map::<Seq<u8>, (PairRep, Option<nat>)>::empty(),
            !r.unit_policy(),
            r.empty_end() == Seq::<u8>::empty(),
    {
        NoopBackend::new_with_inherited_empty()
    }
}

impl ReadBackend for NoopBackend {
    fn get(&mut self, key: &Vec<u8>) -> (r: Result<(Value, Value), NoopBackendError>) {
        Err(NoopBackendError::NotSupported)
    }
}

impl WriteBackend for NoopBackend {
    fn rootify(&mut self, key: &Vec<u8>) -> (r: Result<(), NoopBackendError>) {
        Ok(())
    }

    fn unrootify(&mut self, key: &Vec<u8>) -> (r: Result<(), NoopBackendError>) {
        Ok(())
    }

    fn insert(&mut self, key: Vec<u8>, value: (Value, Value)) -> (r: Result<
        (),
        NoopBackendError,
    >) {
        Ok(())
    }

    fn empty_at(&mut self, depth_to_bottom: usize) -> (r: Result<Value, NoopBackendError>) {
        if self.unit {
            return Ok(Value::End(self.empty.clone()));
        }
        let mut current = Value::End(self.empty.clone());
        let mut d: usize = 0;
        while d < depth_to_bottom
            invariant
                self.wf(),
                !self.unit,
                d <= depth_to_bottom,
                current@ == empty_root(d as nat, false, self.empty@),
            decreases depth_to_bottom - d,
        {
            let key = intermediate_of(&current, &current);
            current = Value::Intermediate(key);
            d = d + 1;
        }
        Ok(current)
    }
}

proof fn lemma_entries_dom_len(s: Seq<Entry>)
    requires
        entries_uniq(s),
    ensures
        entries_map(s).dom().len() == s.len(),
    decreases s.len(),
{
    if s.len() > 0 {
        assert(entries_uniq(s.drop_last()));
        lemma_entries_dom_len(s.drop_last());
        lemma_map_finite(s.drop_last());
        lemma_map_contains(s.drop_last(), s.last().key@);
        assert(!entries_map(s.drop_last()).contains_key(s.last().key@));
        assert(entries_map(s).dom() =~= entries_map(s.drop_last()).dom().insert(s.last().key@));
    }
}

} // verus!
