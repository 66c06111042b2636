//! A merkle structure caching the roots of all-empty subtrees, one depth
//! per level.

use vstd::prelude::*;

use crate::index::MerkleIndex;
use crate::raw::{spec_get, spec_raw_set, Raw};
use crate::store::StoreRep;
use crate::traits::{
    db_config, same_config, Backend, DbConfig, Error, Leak, RootStatus, Value, ValueRep,
    WriteBackend,
};

verus! {

/// Extending the cache: the current root becomes both children of a new
/// root.
pub open spec fn spec_empty_extend(s: StoreRep, v: ValueRep, owned: bool, c: DbConfig) -> (
    StoreRep,
    ValueRep,
    bool,
) {
    let o1 = spec_raw_set(s, v, 2, v, owned, c.noop, c.end);
    if !o1.2 {
        (o1.0, o1.1, false)
    } else {
        let o2 = spec_raw_set(o1.0, o1.1, 3, v, owned, c.noop, c.end);
        (o2.0, o2.1, o2.2)
    }
}

/// Shrinking the cache: promote the left child of the root, or a blank
/// leaf when the walk meets a leaf.
pub open spec fn spec_empty_shrink(s: StoreRep, v: ValueRep, owned: bool, c: DbConfig) -> (
    StoreRep,
    ValueRep,
    bool,
) {
    let got = spec_get(s, v, crate::index::route_of(2));
    match got {
        None => (s, v, false),
        Some(opt) => {
            let newroot = match opt {
                Some(x) => x,
                None => ValueRep::End(Seq::empty()),
            };
            let o = spec_raw_set(s, v, 1, newroot, owned, c.noop, c.end);
            (o.0, o.1, o.2)
        },
    }
}

/// `MerkleEmpty` with owned root.
pub type OwnedMerkleEmpty = MerkleEmpty<crate::traits::Owned>;

/// `MerkleEmpty` with dangling root.
pub type DanglingMerkleEmpty = MerkleEmpty<crate::traits::Dangling>;

/// Merkle structure storing hashes of empty roots.
pub struct MerkleEmpty<R: RootStatus> {
    raw: Raw<R>,
}

impl<R: RootStatus> View for MerkleEmpty<R> {
    type V = ValueRep;

    closed spec fn view(&self) -> ValueRep {
        self.raw@
    }
}

impl<R: RootStatus> Default for MerkleEmpty<R> {
    /// A fresh cache holds the zero-length end value as its root.
    fn default() -> (r: Self)
        ensures
            r@ == ValueRep::End(Seq::<u8>::empty()),
    {
        MerkleEmpty { raw: Raw::default() }
    }
}

impl<R: RootStatus> MerkleEmpty<R> {
    /// Extend the current empty structure with a new depth.
    pub fn extend<DB: WriteBackend>(&mut self, db: &mut DB) -> (r: Result<(), Error<DB::Error>>)
        requires
            old(db).wf(),
        ensures
            final(db).wf(),
            same_config(final(db), old(db)),
            ({
                let o = spec_empty_extend(
                    old(db).store(),
                    old(self)@,
                    !R::dangling(),
                    db_config(old(db)),
                );
                final(db).store() == o.0 && final(self)@ == o.1 && (r is Ok) == o.2
            }),
    {
        let root = self.raw.root();
        let root2 = root.clone();
        match self.raw.set(db, MerkleIndex::root().left(), root) {
            Ok(_) => {},
            Err(e) => {
                return Err(e);
            },
        }
        match self.raw.set(db, MerkleIndex::root().right(), root2) {
            Ok(_) => Ok(()),
            Err(e) => Err(e),
        }
    }

    /// Shrink the current empty structure.
    pub fn shrink<DB: WriteBackend>(&mut self, db: &mut DB) -> (r: Result<(), Error<DB::Error>>)
        requires
            old(db).wf(),
        ensures
            final(db).wf(),
            same_config(final(db), old(db)),
            ({
                let o = spec_empty_shrink(
                    old(db).store(),
                    old(self)@,
                    !R::dangling(),
                    db_config(old(db)),
                );
                final(db).store() == o.0 && final(self)@ == o.1 && (r is Ok) == o.2
            }),
    {
        let found = match self.raw.get(db, MerkleIndex::root().left()) {
            Ok(found) => found,
            Err(e) => {
                return Err(e);
            },
        };
        let blank: Vec<u8> = Vec::new();
        proof {
            assert(blank@ =~= Seq::<u8>::empty());
        }
        let newroot = match found {
            Some(left) => left,
            None => Value::End(blank),
        };
        match self.raw.set(db, MerkleIndex::root(), newroot) {
            Ok(_) => Ok(()),
            Err(e) => Err(e),
        }
    }

    /// Root of the current depth.
    pub fn root(&self) -> (r: Value)
        ensures
            r@ == self@,
    {
        self.raw.root()
    }

    /// Drop the merkle tree.
    pub fn drop<DB: WriteBackend>(self, db: &mut DB) -> (r: Result<(), Error<DB::Error>>)
        requires
            old(db).wf(),
        ensures
            final(db).wf(),
            same_config(final(db), old(db)),
            ({
                let o = crate::raw::spec_tree_drop(
                    old(db).store(),
                    self@,
                    !R::dangling(),
                    old(db).is_noop(),
                );
                final(db).store() == o.0 && (r is Ok) == o.1
            }),
    {
        self.raw.drop(db)
    }
}

impl<R: RootStatus> Leak for MerkleEmpty<R> {
    type Metadata = Value;

    /// The cache described by a leaked root value.
    fn from_leaked(metadata: Value) -> (r: Self)
        ensures
            r@ == metadata@,
    {
        MerkleEmpty { raw: Raw::from_leaked(metadata) }
    }

    /// The root value, which stands for the whole cache.
    fn metadata(&self) -> (m: Value)
        ensures
            m@ == self@,
    {
        self.raw.root()
    }
}

} // verus!
