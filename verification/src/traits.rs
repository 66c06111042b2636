//! Core vocabulary of the merkle substrate: tree values, root status,
//! errors, and the backend interface.

use vstd::prelude::*;

use crate::hasher::{sha256_concat, sha256_of};
use crate::store::{
    empty_chain_store, empty_root, store_insert_res, store_remove_all, store_rootify_res, PairRep,
    StoreRep,
};

verus! {

/// Mathematical form of a tree value.
pub enum ValueRep {
    /// Hash label of an interior node.
    Intermediate(Seq<u8>),
    /// Leaf payload.
    End(Seq<u8>),
}

impl ValueRep {
    /// The raw bytes a value contributes to its parent's hash input.
    pub open spec fn bytes(self) -> Seq<u8> {
        match self {
            ValueRep::Intermediate(k) => k,
            ValueRep::End(e) => e,
        }
    }

    /// Whether this value is a hash label.
    pub open spec fn is_intermediate(self) -> bool {
        match self {
            ValueRep::Intermediate(_) => true,
            ValueRep::End(_) => false,
        }
    }

    /// The hash label, meaningful only when `is_intermediate()`.
    pub open spec fn key(self) -> Seq<u8> {
        match self {
            ValueRep::Intermediate(k) => k,
            ValueRep::End(e) => e,
        }
    }
}

/// The hash label of an interior node with the given children.
pub open spec fn hash_of_pair(left: ValueRep, right: ValueRep) -> Seq<u8> {
    sha256_of(left.bytes() + right.bytes())
}

/// Value in a merkle tree: either the hash of two sub-items or a leaf payload.
#[derive(Debug)]
pub enum Value {
    /// Intermediate, which is the hash of two sub-items.
    Intermediate(Vec<u8>),
    /// End value of the tree.
    End(Vec<u8>),
}

impl View for Value {
    type V = ValueRep;

    open spec fn view(&self) -> ValueRep {
        match self {
            Value::Intermediate(k) => ValueRep::Intermediate(k@),
            Value::End(e) => ValueRep::End(e@),
        }
    }
}

/// Compare two byte vectors for equality of contents.
pub(crate) fn bytes_eq(a: &Vec<u8>, b: &Vec<u8>) -> (r: bool)
    ensures
        r == (a@ == b@),
{
    if a.len() != b.len() {
        assert(a@.len() != b@.len());
        return false;
    }
    let n: usize = a.len();
    let mut i: usize = 0;
    while i < n
        invariant
            n == a@.len() && n == b@.len(),
            i <= n,
            forall|j: int| 0 <= j < i ==> a@[j] == b@[j],
        decreases n - i,
    {
        if a[i] != b[i] {
            return false;
        }
        i = i + 1;
    }
    assert(a@ =~= b@);
    true
}

impl Value {
    /// Return `Some` if this value is an intermediate, otherwise return `None`.
    pub fn intermediate(self) -> (r: Option<Vec<u8>>)
        ensures
            match r {
                Some(k) => self@ == (ValueRep::Intermediate(k@)),
                None => !self@.is_intermediate(),
            },
    {
        match self {
            Value::Intermediate(k) => Some(k),
            Value::End(_) => None,
        }
    }

    /// Return `Some` if this value is an end value, otherwise return `None`.
    pub fn end(self) -> (r: Option<Vec<u8>>)
        ensures
            match r {
                Some(e) => self@ == (ValueRep::End(e@)),
                None => self@.is_intermediate(),
            },
    {
        match self {
            Value::Intermediate(_) => None,
            Value::End(e) => Some(e),
        }
    }

    /// Whether this value is an intermediate.
    pub fn is_intermediate(&self) -> (r: bool)
        ensures
            r == self@.is_intermediate(),
    {
        match self {
            Value::Intermediate(_) => true,
            Value::End(_) => false,
        }
    }

    /// The raw bytes of this value, fed to the hash of its parent.
    pub fn bytes(&self) -> (r: &Vec<u8>)
        ensures
            r@ == self@.bytes(),
    {
        match self {
            Value::Intermediate(k) => k,
            Value::End(e) => e,
        }
    }
}

impl Clone for Value {
    fn clone(&self) -> (r: Self)
        ensures
            r@ == self@,
    {
        match self {
            Value::Intermediate(k) => Value::Intermediate(k.clone()),
            Value::End(e) => Value::End(e.clone()),
        }
    }
}

impl PartialEq for Value {
    fn eq(&self, other: &Self) -> (r: bool)
        ensures
            r == (self@ == other@),
    {
        match (self, other) {
            (Value::Intermediate(a), Value::Intermediate(b)) => bytes_eq(a, b),
            (Value::End(a), Value::End(b)) => bytes_eq(a, b),
            _ => false,
        }
    }
}

impl Eq for Value {}

impl vstd::std_specs::cmp::PartialEqSpecImpl for Value {
    open spec fn obeys_eq_spec() -> bool {
        true
    }

    open spec fn eq_spec(&self, other: &Self) -> bool {
        self@ == other@
    }
}

/// Hash the pair of children into the label of their parent node.
pub fn intermediate_of(left: &Value, right: &Value) -> (r: Vec<u8>)
    ensures
        r@ == hash_of_pair(left@, right@),
        r@.len() == 32,
{
    sha256_concat(left.bytes(), right.bytes())
}

/// Errors of tree operations.
#[derive(Debug, Eq, PartialEq, Clone)]
pub enum Error<DBError> {
    /// The database is corrupted.
    CorruptedDatabase,
    /// Value trying to access overflowed the list or vector.
    AccessOverflowed,
    /// Parameters are invalid.
    InvalidParameter,
    /// Backend database error.
    Backend(DBError),
}

/// Root status of a merkle tree.
pub trait RootStatus: Sized {
    /// Whether trees of this status leave their root unrooted.
    spec fn dangling() -> bool;

    /// Whether it is a dangling root.
    fn is_dangling() -> (r: bool)
        ensures
            r == Self::dangling(),
    ;

    /// Whether it is an owned root.
    fn is_owned() -> (r: bool)
        ensures
            r == !Self::dangling(),
    ;
}

/// Traits for a merkle database.
pub trait Backend: Sized {
    /// Error type for DB access.
    type Error;

    /// The entries this backend answers reads from.
    spec fn store(&self) -> StoreRep;

    /// Whether writes are discarded.
    spec fn is_noop(&self) -> bool;

    /// Whether empty subtrees stay unit leaves instead of materialized chains.
    spec fn unit_policy(&self) -> bool;

    /// The leaf payload standing for an empty subtree of depth zero.
    spec fn empty_end(&self) -> Seq<u8>;

    /// Well-formedness of the backend value.
    spec fn wf(&self) -> bool;

    /// A well-formed backend has finitely many entries.
    proof fn wf_finite(&self)
        requires
            self.wf(),
        ensures
            self.store().dom().finite(),
    ;

    /// A backend that discards writes answers no reads either.
    proof fn noop_unreadable(&self)
        requires
            self.wf(),
            self.is_noop(),
        ensures
            self.store() == Map::<Seq<u8>, (PairRep, Option<nat>)>::empty(),
    ;
}

/// Whether two backend states agree on everything but the stored entries.
pub open spec fn same_config<DB: Backend>(a: &DB, b: &DB) -> bool {
    &&& a.is_noop() == b.is_noop()
    &&& a.unit_policy() == b.unit_policy()
    &&& a.empty_end() == b.empty_end()
}

/// The configuration of a backend: everything its operations depend on
/// besides the stored entries.
pub struct DbConfig {
    /// Whether writes are discarded.
    pub noop: bool,
    /// Whether empty subtrees stay unit leaves.
    pub unit: bool,
    /// The empty leaf payload.
    pub end: Seq<u8>,
}

/// The configuration of the given backend.
pub open spec fn db_config<DB: Backend>(db: &DB) -> DbConfig {
    DbConfig { noop: db.is_noop(), unit: db.unit_policy(), end: db.empty_end() }
}

/// Read backend.
pub trait ReadBackend: Backend {
    /// Get an internal item by key.
    fn get(&mut self, key: &Vec<u8>) -> (r: Result<(Value, Value), Self::Error>)
        requires
            old(self).wf(),
        ensures
            final(self).wf(),
            same_config(final(self), old(self)),
            final(self).store() == old(self).store(),
            match r {
                Ok(pair) => old(self).store().contains_key(key@) && old(self).store()[key@].0
                    == (pair.0@, pair.1@),
                Err(_) => !old(self).store().contains_key(key@),
            },
    ;
}

/// Write backend.
pub trait WriteBackend: ReadBackend {
    /// Rootify a key.
    fn rootify(&mut self, key: &Vec<u8>) -> (r: Result<(), Self::Error>)
        requires
            old(self).wf(),
        ensures
            final(self).wf(),
            same_config(final(self), old(self)),
            if old(self).is_noop() {
                final(self).store() == old(self).store() && r is Ok
            } else {
                final(self).store() == store_rootify_res(old(self).store(), key@).0 && (r is Ok)
                    == store_rootify_res(old(self).store(), key@).1
            },
    ;

    /// Unrootify a key.
    fn unrootify(&mut self, key: &Vec<u8>) -> (r: Result<(), Self::Error>)
        requires
            old(self).wf(),
        ensures
            final(self).wf(),
            same_config(final(self), old(self)),
            if old(self).is_noop() {
                final(self).store() == old(self).store() && r is Ok
            } else {
                final(self).store() == store_remove_all(old(self).store(), seq![key@]).0 && (
                r is Ok) == store_remove_all(old(self).store(), seq![key@]).1
            },
    ;

    /// Insert a new internal item.
    fn insert(&mut self, key: Vec<u8>, value: (Value, Value)) -> (r: Result<(), Self::Error>)
        requires
            old(self).wf(),
        ensures
            final(self).wf(),
            same_config(final(self), old(self)),
            if old(self).is_noop() {
                final(self).store() == old(self).store() && r is Ok
            } else {
                final(self).store() == store_insert_res(
                    old(self).store(),
                    key@,
                    (value.0@, value.1@),
                ).0 && (r is Ok) == store_insert_res(
                    old(self).store(),
                    key@,
                    (value.0@, value.1@),
                ).1
            },
    ;

    /// Get or create the empty value at the given depth to bottom.
    fn empty_at(&mut self, depth_to_bottom: usize) -> (r: Result<Value, Self::Error>)
        requires
            old(self).wf(),
        ensures
            final(self).wf(),
            same_config(final(self), old(self)),
            r is Ok,
            match r {
                Ok(v) => v@ == empty_root(
                    depth_to_bottom as nat,
                    old(self).unit_policy(),
                    old(self).empty_end(),
                ),
                Err(_) => false,
            },
            if old(self).is_noop() || old(self).unit_policy() {
                final(self).store() == old(self).store()
            } else {
                final(self).store() == empty_chain_store(
                    old(self).store(),
                    depth_to_bottom as nat,
                    old(self).empty_end(),
                )
            },
    ;
}

/// Dangling root status.
pub struct Dangling;

impl RootStatus for Dangling {
    open spec fn dangling() -> bool {
        true
    }

    fn is_dangling() -> bool {
        true
    }

    fn is_owned() -> bool {
        false
    }
}

/// Owned root status.
pub struct Owned;

impl RootStatus for Owned {
    open spec fn dangling() -> bool {
        false
    }

    fn is_dangling() -> bool {
        false
    }

    fn is_owned() -> bool {
        true
    }
}

/// Construct for a merkle tree: fixes the empty-subtree policy at the type
/// level.  The hash is always SHA-256 over the concatenated child bytes.
pub trait Construct: Sized {
    /// Whether this construct keeps empty subtrees as unit leaves.
    spec fn unit() -> bool;

    /// Policy flag of this construct.
    fn is_unit() -> (r: bool)
        ensures
            r == Self::unit(),
    ;
}

/// Represents a basic merkle tree with a known root.
pub trait Tree<DB: WriteBackend>: Sized {
    /// Root status of the tree.
    type Status: RootStatus;

    /// The root value of the tree.
    spec fn spec_root(&self) -> ValueRep;

    /// The store left behind by dropping this tree, and whether the drop
    /// succeeds, as a function of the store it meets.
    spec fn spec_drop(&self, s: StoreRep, noop: bool) -> (StoreRep, bool);

    /// Root of the merkle tree.
    fn root(&self) -> (r: Value)
        ensures
            r@ == self.spec_root(),
    ;

    /// Drop the merkle tree, releasing the references an owned root holds.
    fn drop(self, db: &mut DB) -> (r: Result<(), Error<DB::Error>>)
        requires
            old(db).wf(),
        ensures
            final(db).wf(),
            same_config(final(db), old(db)),
            final(db).store() == self.spec_drop(old(db).store(), old(db).is_noop()).0,
            (r is Ok) == self.spec_drop(old(db).store(), old(db).is_noop()).1,
    ;
}

/// A merkle tree that is similar to a vector.
pub trait Sequence<DB: WriteBackend>: Tree<DB> {
    /// The length of the tree.
    spec fn spec_len(&self) -> nat;

    /// The length of the tree.
    fn len(&self) -> (r: usize)
        ensures
            r as nat == self.spec_len(),
    ;
}

/// Leakable value, whose default behavior of drop is to leak.
///
/// The exact relation between a value and its metadata is stated on each
/// implementation.
pub trait Leak: Sized {
    /// Metadata to represent this merkle struct.
    type Metadata;

    /// Initialize from a previously leaked value.
    fn from_leaked(metadata: Self::Metadata) -> Self;

    /// Metadata of the value.
    fn metadata(&self) -> Self::Metadata;
}

} // verus!
