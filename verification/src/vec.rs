//! Binary merkle vector with mixed-in length, kept under its historical
//! name beside `List`.

use vstd::prelude::*;

use crate::list::{spec_list_meta, List, ListRep};
use crate::raw::{spec_get, spec_tree_drop};
use crate::store::StoreRep;
use crate::traits::{
    db_config, same_config, Backend, Dangling, Error, Leak, Owned, RootStatus, Sequence, Tree,
    Value, ValueRep, WriteBackend,
};
use crate::utils::le_value;
use crate::vector::{
    spec_vector_create, spec_vector_pop, spec_vector_push, spec_vector_set, vector_wf,
};

verus! {

/// `MerkleVec` with owned root.
pub type OwnedMerkleVec = MerkleVec<Owned>;

/// `MerkleVec` with dangling root.
pub type DanglingMerkleVec = MerkleVec<Dangling>;

/// Binary merkle vector with its length mixed into the root.
pub struct MerkleVec<R: RootStatus> {
    inner: List<R>,
}

impl<R: RootStatus> View for MerkleVec<R> {
    type V = ListRep;

    closed spec fn view(&self) -> ListRep {
        self.inner@
    }
}

impl<R: RootStatus> MerkleVec<R> {
    /// Get value at index.
    pub fn get<DB: WriteBackend>(&self, db: &mut DB, index: usize) -> (r: Result<
        Vec<u8>,
        Error<DB::Error>,
    >)
        requires
            old(db).wf(),
            vector_wf(self@.tuple),
        ensures
            final(db).wf(),
            same_config(final(db), old(db)),
            final(db).store() == old(db).store(),
            ({
                let got = spec_get(
                    old(db).store(),
                    self@.tuple.root,
                    crate::index::route_of(
                        (crate::vector::cml(self@.tuple.len, self@.tuple.max_len)
                            + index) as nat,
                    ),
                );
                match r {
                    Ok(bytes) => index < self@.tuple.len && got == Some(
                        Some(ValueRep::End(bytes@)),
                    ),
                    Err(Error::AccessOverflowed) => index >= self@.tuple.len,
                    Err(Error::CorruptedDatabase) => index < self@.tuple.len && (got == Some(
                        None::<ValueRep>,
                    ) || got matches Some(Some(ValueRep::Intermediate(_)))),
                    Err(Error::Backend(_)) => index < self@.tuple.len && got is None,
                    Err(Error::InvalidParameter) => false,
                }
            }),
    {
        self.inner.get(db, index)
    }

    /// Set value at index.
    pub fn set<DB: WriteBackend>(&mut self, db: &mut DB, index: usize, value: Vec<u8>) -> (r:
        Result<(), Error<DB::Error>>)
        requires
            old(db).wf(),
            vector_wf(old(self)@.tuple),
        ensures
            final(db).wf(),
            same_config(final(db), old(db)),
            vector_wf(final(self)@.tuple),
            ({
                if index >= old(self)@.tuple.len {
                    r == Err::<(), Error<DB::Error>>(Error::AccessOverflowed) && final(self)@
                        == old(self)@ && final(db).store() == old(db).store()
                } else {
                    let o = spec_vector_set(
                        old(db).store(),
                        old(self)@.tuple,
                        index as nat,
                        value@,
                        false,
                        db_config(old(db)),
                    );
                    if !o.2 {
                        final(db).store() == o.0 && final(self)@.tuple == o.1 && final(self)@.root
                            == old(self)@.root && r is Err
                    } else {
                        let m = spec_list_meta(
                            o.0,
                            old(self)@.root,
                            o.1,
                            !R::dangling(),
                            db_config(old(db)),
                        );
                        final(db).store() == m.0 && final(self)@.tuple == o.1 && final(self)@.root
                            == m.1 && (r is Ok) == m.2
                    }
                }
            }),
    {
        self.inner.set(db, index, value)
    }

    /// Root of the current merkle vector.
    pub fn root(&self) -> (r: Value)
        ensures
            r@ == self@.root,
    {
        self.inner.root()
    }

    /// Push a new value to the vector.
    pub fn push<DB: WriteBackend>(&mut self, db: &mut DB, value: Vec<u8>) -> (r: Result<
        (),
        Error<DB::Error>,
    >)
        requires
            old(db).wf(),
            vector_wf(old(self)@.tuple),
            old(self)@.tuple.len < usize::MAX / 8,
        ensures
            final(db).wf(),
            same_config(final(db), old(db)),
            vector_wf(final(self)@.tuple),
            ({
                let full = old(self)@.tuple.len == crate::vector::cml(
                    old(self)@.tuple.len,
                    old(self)@.tuple.max_len,
                );
                if full && old(self)@.tuple.max_len is Some {
                    r == Err::<(), Error<DB::Error>>(Error::AccessOverflowed) && final(self)@
                        == old(self)@ && final(db).store() == old(db).store()
                } else {
                    let o = spec_vector_push(
                        old(db).store(),
                        old(self)@.tuple,
                        value@,
                        false,
                        db_config(old(db)),
                    );
                    if !o.2 {
                        final(db).store() == o.0 && final(self)@.tuple == o.1 && final(self)@.root
                            == old(self)@.root && r is Err
                    } else {
                        let m = spec_list_meta(
                            o.0,
                            old(self)@.root,
                            o.1,
                            !R::dangling(),
                            db_config(old(db)),
                        );
                        final(db).store() == m.0 && final(self)@.tuple == o.1 && final(self)@.root
                            == m.1 && (r is Ok) == m.2
                    }
                }
            }),
    {
        self.inner.push(db, value)
    }

    /// Pop a value from the vector.
    pub fn pop<DB: WriteBackend>(&mut self, db: &mut DB) -> (r: Result<
        Option<Vec<u8>>,
        Error<DB::Error>,
    >)
        requires
            old(db).wf(),
            vector_wf(old(self)@.tuple),
        ensures
            final(db).wf(),
            same_config(final(db), old(db)),
            vector_wf(final(self)@.tuple),
            ({
                let o = spec_vector_pop(
                    old(db).store(),
                    old(self)@.tuple,
                    false,
                    db_config(old(db)),
                );
                let m = spec_list_meta(
                    o.0,
                    old(self)@.root,
                    o.1,
                    !R::dangling(),
                    db_config(old(db)),
                );
                final(db).store() == m.0 && final(self)@.tuple == o.1 && final(self)@.root
                    == m.1 && match r {
                    Ok(popped) => o.2 && m.2 && match popped {
                        Some(bytes) => o.3 == Some(bytes@),
                        None => o.3 is None && old(self)@.tuple.len == 0,
                    },
                    Err(_) => !o.2 || !m.2,
                }
            }),
    {
        self.inner.pop(db)
    }

    /// Length of the vector.
    pub fn len(&self) -> (r: usize)
        ensures
            r == self@.tuple.len,
    {
        self.inner.len()
    }

    /// Drop the current vector.
    pub fn drop<DB: WriteBackend>(self, db: &mut DB) -> (r: Result<(), Error<DB::Error>>)
        requires
            old(db).wf(),
        ensures
            final(db).wf(),
            same_config(final(db), old(db)),
            ({
                let o = spec_tree_drop(
                    old(db).store(),
                    self@.root,
                    !R::dangling(),
                    old(db).is_noop(),
                );
                final(db).store() == o.0 && (r is Ok) == o.1
            }),
    {
        self.inner.drop(db)
    }

    /// Deconstruct the vector into one single root value.
    pub fn deconstruct<DB: WriteBackend>(self, db: &mut DB) -> (r: Result<
        Value,
        Error<DB::Error>,
    >)
        requires
            old(db).wf(),
        ensures
            final(db).wf(),
            same_config(final(db), old(db)),
            final(db).store() == old(db).store(),
            match r {
                Ok(root) => root@ == self@.root,
                Err(_) => spec_get(old(db).store(), self@.root, crate::index::route_of(3))
                    is None || spec_get(old(db).store(), self@.root, crate::index::route_of(2))
                    is None,
            },
    {
        self.inner.deconstruct(db)
    }

    /// Reconstruct the vector from a single root value.
    pub fn reconstruct<DB: WriteBackend>(root: Value, db: &mut DB) -> (r: Result<
        Self,
        Error<DB::Error>,
    >)
        requires
            old(db).wf(),
        ensures
            final(db).wf(),
            same_config(final(db), old(db)),
            final(db).store() == old(db).store(),
            (r is Ok) == (crate::list::mixed_pair_ok(old(db).store(), root@)
                && crate::list::mixed_len(old(db).store(), root@) <= usize::MAX / 8),
            r matches Err(e) ==> (e is Backend || e is CorruptedDatabase),
            match r {
                Ok(v) => {
                    &&& v@.root == root@
                    &&& v@.tuple.root == crate::list::mixed_left(old(db).store(), root@)
                    &&& v@.tuple.len == crate::list::mixed_len(old(db).store(), root@)
                    &&& spec_get(old(db).store(), root@, crate::index::route_of(3)) matches Some(
                        Some(ValueRep::End(chunk)),
                    ) && chunk.len() == 32 && le_value(chunk) == v@.tuple.len
                    &&& spec_get(old(db).store(), root@, crate::index::route_of(2)) == Some(
                        Some(v@.tuple.root),
                    )
                    &&& v@.tuple.max_len is None
                    &&& vector_wf(v@.tuple)
                },
                Err(_) => true,
            },
    {
        match List::<R>::reconstruct(root, db) {
            Ok(inner) => Ok(MerkleVec { inner }),
            Err(e) => Err(e),
        }
    }
}

impl MerkleVec<Owned> {
    /// Create a new empty vector.
    pub fn create<DB: WriteBackend>(db: &mut DB) -> (r: Result<Self, Error<DB::Error>>)
        requires
            old(db).wf(),
        ensures
            final(db).wf(),
            same_config(final(db), old(db)),
            ({
                let c = db_config(old(db));
                let o = spec_vector_create(old(db).store(), 0, None, true, c);
                if !o.2 {
                    final(db).store() == o.0 && r is Err
                } else {
                    let m = spec_list_meta(
                        o.0,
                        ValueRep::End(Seq::<u8>::empty()),
                        o.1,
                        true,
                        c,
                    );
                    if !m.2 {
                        final(db).store() == m.0 && r is Err
                    } else {
                        let d = spec_tree_drop(m.0, o.1.root, true, c.noop);
                        final(db).store() == d.0 && match r {
                            Ok(v) => d.1 && v@.root == m.1 && v@.tuple == o.1 && vector_wf(
                                v@.tuple,
                            ),
                            Err(_) => !d.1,
                        }
                    }
                }
            }),
    {
        match List::<Owned>::create(db) {
            Ok(inner) => Ok(MerkleVec { inner }),
            Err(e) => Err(e),
        }
    }
}

impl<R: RootStatus, DB: WriteBackend> Tree<DB> for MerkleVec<R> {
    type Status = R;

    open spec fn spec_root(&self) -> ValueRep {
        self@.root
    }

    open spec fn spec_drop(&self, s: StoreRep, noop: bool) -> (StoreRep, bool) {
        spec_tree_drop(s, self@.root, !R::dangling(), noop)
    }

    fn root(&self) -> (r: Value) {
        self.inner.root()
    }

    fn drop(self, db: &mut DB) -> (r: Result<(), Error<DB::Error>>) {
        self.inner.drop(db)
    }
}

impl<R: RootStatus, DB: WriteBackend> Sequence<DB> for MerkleVec<R> {
    open spec fn spec_len(&self) -> nat {
        self@.tuple.len
    }

    fn len(&self) -> (r: usize) {
        self.inner.len()
    }
}

impl<R: RootStatus> Leak for MerkleVec<R> {
    type Metadata = (Value, Value, usize);

    /// The vector described by a leaked outer root, inner root and length.
    fn from_leaked(metadata: (Value, Value, usize)) -> (r: Self)
        ensures
            r@.root == metadata.0@,
            r@.tuple.root == metadata.1@,
            r@.tuple.len == metadata.2,
            r@.tuple.max_len is None,
    {
        MerkleVec { inner: List::from_leaked(metadata) }
    }

    /// The outer root, inner root and length, which stand for the whole
    /// vector.
    fn metadata(&self) -> (m: (Value, Value, usize))
        ensures
            m.0@ == self@.root,
            m.1@ == self@.tuple.root,
            m.2 == self@.tuple.len,
    {
        self.inner.metadata()
    }
}

} // verus!
