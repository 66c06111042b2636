//! Binary merkle tuple: a vector whose capacity always follows its length.

use vstd::prelude::*;

use crate::raw::{spec_get, spec_tree_drop, Raw};
use crate::store::StoreRep;
use crate::traits::{
    db_config, same_config, Backend, Dangling, Error, Leak, Owned, RootStatus, Sequence, Tree,
    Value, ValueRep, WriteBackend,
};
use crate::vector::{
    cml, spec_vector_create, spec_vector_pop, spec_vector_push, spec_vector_set, vector_wf,
    Vector, VectorRep,
};

verus! {

/// `MerkleTuple` with owned root.
pub type OwnedMerkleTuple = MerkleTuple<Owned>;

/// `MerkleTuple` with dangling root.
pub type DanglingMerkleTuple = MerkleTuple<Dangling>;

/// Binary merkle tuple: an elastic vector with no fixed bound.
pub struct MerkleTuple<R: RootStatus> {
    inner: Vector<R>,
}

impl<R: RootStatus> View for MerkleTuple<R> {
    type V = VectorRep;

    closed spec fn view(&self) -> VectorRep {
        self.inner@
    }
}

impl<R: RootStatus> MerkleTuple<R> {
    /// Get value at index.
    pub fn get<DB: WriteBackend>(&self, db: &mut DB, index: usize) -> (r: Result<
        Vec<u8>,
        Error<DB::Error>,
    >)
        requires
            old(db).wf(),
            vector_wf(self@),
            self@.max_len is None,
            index < self@.len,
        ensures
            final(db).wf(),
            same_config(final(db), old(db)),
            final(db).store() == old(db).store(),
            ({
                let got = spec_get(
                    old(db).store(),
                    self@.root,
                    crate::index::route_of((cml(self@.len, self@.max_len) + index) as nat),
                );
                match r {
                    Ok(bytes) => got == Some(Some(ValueRep::End(bytes@))),
                    Err(Error::CorruptedDatabase) => got == Some(None::<ValueRep>) || got
                        matches Some(Some(ValueRep::Intermediate(_))),
                    Err(Error::Backend(_)) => got is None,
                    Err(_) => false,
                }
            }),
    {
        self.inner.get(db, index)
    }

    /// Set value at index.
    pub fn set<DB: WriteBackend>(&mut self, db: &mut DB, index: usize, value: Vec<u8>) -> (r:
        Result<(), Error<DB::Error>>)
        requires
            old(db).wf(),
            vector_wf(old(self)@),
            old(self)@.max_len is None,
            index < old(self)@.len,
        ensures
            final(db).wf(),
            same_config(final(db), old(db)),
            vector_wf(final(self)@),
            final(self)@.max_len is None,
            ({
                let o = spec_vector_set(
                    old(db).store(),
                    old(self)@,
                    index as nat,
                    value@,
                    !R::dangling(),
                    db_config(old(db)),
                );
                final(db).store() == o.0 && final(self)@ == o.1 && (r is Ok) == o.2
            }),
    {
        self.inner.set(db, index, value)
    }

    /// Push a new value to the tuple.
    pub fn push<DB: WriteBackend>(&mut self, db: &mut DB, value: Vec<u8>) -> (r: Result<
        (),
        Error<DB::Error>,
    >)
        requires
            old(db).wf(),
            vector_wf(old(self)@),
            old(self)@.max_len is None,
            old(self)@.len < usize::MAX / 8,
        ensures
            final(db).wf(),
            same_config(final(db), old(db)),
            vector_wf(final(self)@),
            final(self)@.max_len is None,
            ({
                let o = spec_vector_push(
                    old(db).store(),
                    old(self)@,
                    value@,
                    !R::dangling(),
                    db_config(old(db)),
                );
                final(db).store() == o.0 && final(self)@ == o.1 && (r is Ok) == o.2
            }),
    {
        self.inner.push(db, value)
    }

    /// Pop a value from the tuple.
    pub fn pop<DB: WriteBackend>(&mut self, db: &mut DB) -> (r: Result<
        Option<Vec<u8>>,
        Error<DB::Error>,
    >)
        requires
            old(db).wf(),
            vector_wf(old(self)@),
            old(self)@.max_len is None,
        ensures
            final(db).wf(),
            same_config(final(db), old(db)),
            vector_wf(final(self)@),
            final(self)@.max_len is None,
            ({
                let o = spec_vector_pop(
                    old(db).store(),
                    old(self)@,
                    !R::dangling(),
                    db_config(old(db)),
                );
                final(db).store() == o.0 && final(self)@ == o.1 && match r {
                    Ok(popped) => o.2 && match popped {
                        Some(bytes) => o.3 == Some(bytes@),
                        None => o.3 is None && old(self)@.len == 0,
                    },
                    Err(_) => !o.2,
                }
            }),
    {
        self.inner.pop(db)
    }

    /// Get the length of the tuple.
    pub fn len(&self) -> (r: usize)
        ensures
            r == self@.len,
    {
        self.inner.len()
    }

    /// Root of the current merkle tuple.
    pub fn root(&self) -> (r: Value)
        ensures
            r@ == self@.root,
    {
        self.inner.root()
    }

    /// Drop the current tuple.
    pub fn drop<DB: WriteBackend>(self, db: &mut DB) -> (r: Result<(), Error<DB::Error>>)
        requires
            old(db).wf(),
        ensures
            final(db).wf(),
            same_config(final(db), old(db)),
            ({
                let o = spec_tree_drop(
                    old(db).store(),
                    self@.root,
                    !R::dangling(),
                    old(db).is_noop(),
                );
                final(db).store() == o.0 && (r is Ok) == o.1
            }),
    {
        Tree::<DB>::drop(self.inner, db)
    }
}

impl MerkleTuple<Owned> {
    /// Create a new tuple over its all-empty tree.
    pub fn create<DB: WriteBackend>(db: &mut DB, len: usize) -> (r: Result<
        Self,
        Error<DB::Error>,
    >)
        requires
            old(db).wf(),
            len <= usize::MAX / 8,
        ensures
            final(db).wf(),
            same_config(final(db), old(db)),
            ({
                let o = spec_vector_create(
                    old(db).store(),
                    len as nat,
                    None,
                    true,
                    db_config(old(db)),
                );
                final(db).store() == o.0 && match r {
                    Ok(t) => o.2 && t@ == o.1 && vector_wf(t@) && t@.max_len is None,
                    Err(_) => !o.2,
                }
            }),
    {
        match Vector::<Owned>::create(db, len, None) {
            Ok(inner) => Ok(MerkleTuple { inner }),
            Err(e) => Err(e),
        }
    }
}

impl<R: RootStatus, DB: WriteBackend> Tree<DB> for MerkleTuple<R> {
    type Status = R;

    open spec fn spec_root(&self) -> ValueRep {
        self@.root
    }

    open spec fn spec_drop(&self, s: StoreRep, noop: bool) -> (StoreRep, bool) {
        spec_tree_drop(s, self@.root, !R::dangling(), noop)
    }

    fn root(&self) -> (r: Value) {
        self.inner.root()
    }

    fn drop(self, db: &mut DB) -> (r: Result<(), Error<DB::Error>>) {
        Tree::<DB>::drop(self.inner, db)
    }
}

impl<R: RootStatus, DB: WriteBackend> Sequence<DB> for MerkleTuple<R> {
    open spec fn spec_len(&self) -> nat {
        self@.len
    }

    fn len(&self) -> (r: usize) {
        self.inner.len()
    }
}

impl<R: RootStatus> Leak for MerkleTuple<R> {
    type Metadata = (Value, usize);

    /// The tuple described by a leaked root and length.
    fn from_leaked(metadata: (Value, usize)) -> (r: Self)
        ensures
            r@.root == metadata.0@,
            r@.len == metadata.1,
            r@.max_len is None,
    {
        MerkleTuple { inner: Vector::from_leaked((metadata.0, metadata.1, None)) }
    }

    /// The root and length, which stand for the whole tuple.
    fn metadata(&self) -> (m: (Value, usize))
        ensures
            m.0@ == self@.root,
            m.1 == self@.len,
    {
        let inner = self.inner.metadata();
        (inner.0, inner.1)
    }
}

} // verus!
