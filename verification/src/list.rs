//! Length-mixed merkle list: a vector whose root is hashed together with a
//! little-endian length leaf.

use vstd::prelude::*;

use crate::index::MerkleIndex;
use crate::raw::{spec_get, spec_raw_set, spec_tree_drop, Raw};
use crate::store::StoreRep;
use crate::traits::{
    db_config, same_config, Backend, Dangling, DbConfig, Error, Leak, Owned, RootStatus,
    Sequence, Tree, Value, ValueRep, WriteBackend,
};
use crate::utils::{decode_length, encode_length, le_bytes_of, le_value};
use crate::vector::{
    spec_vector_create, spec_vector_pop, spec_vector_push, spec_vector_set, vector_wf, Vector,
    VectorRep,
};

verus! {

/// The mathematical content of a list: the mixed root and the inner
/// vector.
pub struct ListRep {
    /// Root of the outer tree mixing vector root and length.
    pub root: ValueRep,
    /// The inner vector.
    pub tuple: VectorRep,
}

/// Rewriting the two children of an outer root to mix in an inner root on
/// the left and a length chunk on the right.
pub open spec fn spec_mixed_meta(
    s: StoreRep,
    root: ValueRep,
    inner_root: ValueRep,
    inner_len: nat,
    owned: bool,
    c: DbConfig,
) -> (StoreRep, ValueRep, bool) {
    let o1 = spec_raw_set(s, root, 2, inner_root, owned, c.noop, c.end);
    if !o1.2 {
        (o1.0, o1.1, false)
    } else {
        let o2 = spec_raw_set(
            o1.0,
            o1.1,
            3,
            ValueRep::End(le_bytes_of(inner_len, 32)),
            owned,
            c.noop,
            c.end,
        );
        (o2.0, o2.1, o2.2)
    }
}

/// Rewriting the two children of the outer root to reflect the inner
/// vector: its root on the left, its length chunk on the right.
pub open spec fn spec_list_meta(s: StoreRep, root: ValueRep, tuple: VectorRep, owned: bool, c: DbConfig) -> (StoreRep, ValueRep, bool) {
    spec_mixed_meta(s, root, tuple.root, tuple.len, owned, c)
}

/// Whether a mixed root's two children read cleanly: the left child
/// reachable, the right child a 32-byte length leaf naming a value within
/// the machine's range.
pub open spec fn mixed_pair_ok(s: StoreRep, root: ValueRep) -> bool {
    &&& spec_get(s, root, crate::index::route_of(2)) matches Some(Some(_))
    &&& spec_get(s, root, crate::index::route_of(3)) matches Some(
        Some(ValueRep::End(chunk)),
    ) && chunk.len() == 32 && le_value(chunk) <= usize::MAX
}

/// The left child of a mixed root, when its children read cleanly.
pub open spec fn mixed_left(s: StoreRep, root: ValueRep) -> ValueRep {
    match spec_get(s, root, crate::index::route_of(2)) {
        Some(Some(v)) => v,
        _ => ValueRep::End(Seq::empty()),
    }
}

/// The mixed-in length of a mixed root, when its children read cleanly.
pub open spec fn mixed_len(s: StoreRep, root: ValueRep) -> nat {
    match spec_get(s, root, crate::index::route_of(3)) {
        Some(Some(ValueRep::End(chunk))) => le_value(chunk),
        _ => 0,
    }
}

/// `List` with owned root.
pub type OwnedList = List<Owned>;

/// `List` with dangling root.
pub type DanglingList = List<Dangling>;

/// Binary merkle list with its length mixed into the root.
pub struct List<R: RootStatus> {
    raw: Raw<R>,
    tuple: Vector<Dangling>,
}

impl<R: RootStatus> View for List<R> {
    type V = ListRep;

    closed spec fn view(&self) -> ListRep {
        ListRep { root: self.raw@, tuple: self.tuple@ }
    }
}

impl<R: RootStatus> List<R> {
    /// Rewrite the outer children after a mutation of the inner vector.
    fn update_metadata<DB: WriteBackend>(&mut self, db: &mut DB) -> (r: Result<
        (),
        Error<DB::Error>,
    >)
        requires
            old(db).wf(),
        ensures
            final(db).wf(),
            same_config(final(db), old(db)),
            final(self)@.tuple == old(self)@.tuple,
            ({
                let o = spec_list_meta(
                    old(db).store(),
                    old(self)@.root,
                    old(self)@.tuple,
                    !R::dangling(),
                    db_config(old(db)),
                );
                final(db).store() == o.0 && final(self)@.root == o.1 && (r is Ok) == o.2
            }),
    {
        let root = self.tuple.root();
        match self.raw.set(db, MerkleIndex::root().left(), root) {
            Ok(_) => {},
            Err(e) => {
                return Err(e);
            },
        }
        let len_chunk = encode_length(self.tuple.len());
        match self.raw.set(db, MerkleIndex::root().right(), Value::End(len_chunk)) {
            Ok(_) => Ok(()),
            Err(e) => Err(e),
        }
    }

    /// Get value at index.
    pub fn get<DB: WriteBackend>(&self, db: &mut DB, index: usize) -> (r: Result<
        Vec<u8>,
        Error<DB::Error>,
    >)
        requires
            old(db).wf(),
            vector_wf(self@.tuple),
        ensures
            final(db).wf(),
            same_config(final(db), old(db)),
            final(db).store() == old(db).store(),
            ({
                let got = spec_get(
                    old(db).store(),
                    self@.tuple.root,
                    crate::index::route_of(
                        (crate::vector::cml(self@.tuple.len, self@.tuple.max_len)
                            + index) as nat,
                    ),
                );
                match r {
                    Ok(bytes) => index < self@.tuple.len && got == Some(
                        Some(ValueRep::End(bytes@)),
                    ),
                    Err(Error::AccessOverflowed) => index >= self@.tuple.len,
                    Err(Error::CorruptedDatabase) => index < self@.tuple.len && (got == Some(
                        None::<ValueRep>,
                    ) || got matches Some(Some(ValueRep::Intermediate(_)))),
                    Err(Error::Backend(_)) => index < self@.tuple.len && got is None,
                    Err(Error::InvalidParameter) => false,
                }
            }),
    {
        self.tuple.get(db, index)
    }

    /// Set value at index, updating the mixed-in metadata.
    pub fn set<DB: WriteBackend>(&mut self, db: &mut DB, index: usize, value: Vec<u8>) -> (r:
        Result<(), Error<DB::Error>>)
        requires
            old(db).wf(),
            vector_wf(old(self)@.tuple),
        ensures
            final(db).wf(),
            same_config(final(db), old(db)),
            vector_wf(final(self)@.tuple),
            ({
                if index >= old(self)@.tuple.len {
                    r == Err::<(), Error<DB::Error>>(Error::AccessOverflowed) && final(self)@
                        == old(self)@ && final(db).store() == old(db).store()
                } else {
                    let o = spec_vector_set(
                        old(db).store(),
                        old(self)@.tuple,
                        index as nat,
                        value@,
                        false,
                        db_config(old(db)),
                    );
                    if !o.2 {
                        final(db).store() == o.0 && final(self)@.tuple == o.1 && final(self)@.root == old(self)@.root && r is Err
                    } else {
                        let m = spec_list_meta(
                            o.0,
                            old(self)@.root,
                            o.1,
                            !R::dangling(),
                            db_config(old(db)),
                        );
                        final(db).store() == m.0 && final(self)@.tuple == o.1 && final(self)@.root == m.1 && (r is Ok) == m.2
                    }
                }
            }),
    {
        match self.tuple.set(db, index, value) {
            Ok(_) => {},
            Err(e) => {
                return Err(e);
            },
        }
        self.update_metadata(db)
    }

    /// Root of the current merkle list.
    pub fn root(&self) -> (r: Value)
        ensures
            r@ == self@.root,
    {
        self.raw.root()
    }

    /// Push a new value to the list, updating the mixed-in metadata.
    pub fn push<DB: WriteBackend>(&mut self, db: &mut DB, value: Vec<u8>) -> (r: Result<
        (),
        Error<DB::Error>,
    >)
        requires
            old(db).wf(),
            vector_wf(old(self)@.tuple),
            old(self)@.tuple.len < usize::MAX / 8,
        ensures
            final(db).wf(),
            same_config(final(db), old(db)),
            vector_wf(final(self)@.tuple),
            ({
                let full = old(self)@.tuple.len == crate::vector::cml(
                    old(self)@.tuple.len,
                    old(self)@.tuple.max_len,
                );
                if full && old(self)@.tuple.max_len is Some {
                    r == Err::<(), Error<DB::Error>>(Error::AccessOverflowed) && final(self)@
                        == old(self)@ && final(db).store() == old(db).store()
                } else {
                    let o = spec_vector_push(
                        old(db).store(),
                        old(self)@.tuple,
                        value@,
                        false,
                        db_config(old(db)),
                    );
                    if !o.2 {
                        final(db).store() == o.0 && final(self)@.tuple == o.1 && final(self)@.root == old(self)@.root && r is Err
                    } else {
                        let m = spec_list_meta(
                            o.0,
                            old(self)@.root,
                            o.1,
                            !R::dangling(),
                            db_config(old(db)),
                        );
                        final(db).store() == m.0 && final(self)@.tuple == o.1 && final(self)@.root == m.1 && (r is Ok) == m.2
                    }
                }
            }),
    {
        match self.tuple.push(db, value) {
            Ok(_) => {},
            Err(e) => {
                return Err(e);
            },
        }
        self.update_metadata(db)
    }

    /// Pop a value from the list, updating the mixed-in metadata.
    pub fn pop<DB: WriteBackend>(&mut self, db: &mut DB) -> (r: Result<
        Option<Vec<u8>>,
        Error<DB::Error>,
    >)
        requires
            old(db).wf(),
            vector_wf(old(self)@.tuple),
        ensures
            final(db).wf(),
            same_config(final(db), old(db)),
            vector_wf(final(self)@.tuple),
            ({
                let o = spec_vector_pop(
                    old(db).store(),
                    old(self)@.tuple,
                    false,
                    db_config(old(db)),
                );
                let m = spec_list_meta(
                    o.0,
                    old(self)@.root,
                    o.1,
                    !R::dangling(),
                    db_config(old(db)),
                );
                final(db).store() == m.0 && final(self)@.tuple == o.1 && final(self)@.root
                    == m.1 && match r {
                    Ok(popped) => o.2 && m.2 && match popped {
                        Some(bytes) => o.3 == Some(bytes@),
                        None => o.3 is None && old(self)@.tuple.len == 0,
                    },
                    Err(_) => !o.2 || !m.2,
                }
            }),
    {
        let ret = self.tuple.pop(db);
        match self.update_metadata(db) {
            Ok(_) => {},
            Err(e) => {
                return Err(e);
            },
        }
        match ret {
            Ok(popped) => Ok(popped),
            Err(e) => Err(e),
        }
    }

    /// Length of the list.
    pub fn len(&self) -> (r: usize)
        ensures
            r == self@.tuple.len,
    {
        self.tuple.len()
    }

    /// Drop the current list.
    pub fn drop<DB: WriteBackend>(self, db: &mut DB) -> (r: Result<(), Error<DB::Error>>)
        requires
            old(db).wf(),
        ensures
            final(db).wf(),
            same_config(final(db), old(db)),
            ({
                let o = spec_tree_drop(
                    old(db).store(),
                    self@.root,
                    !R::dangling(),
                    old(db).is_noop(),
                );
                final(db).store() == o.0 && (r is Ok) == o.1
            }),
    {
        match self.raw.drop(db) {
            Ok(_) => {},
            Err(e) => {
                return Err(e);
            },
        }
        self.tuple.drop(db)
    }

    /// Deconstruct the list into one single root value, touching both
    /// mixed-in children so a recording backend captures them.
    pub fn deconstruct<DB: WriteBackend>(self, db: &mut DB) -> (r: Result<
        Value,
        Error<DB::Error>,
    >)
        requires
            old(db).wf(),
        ensures
            final(db).wf(),
            same_config(final(db), old(db)),
            final(db).store() == old(db).store(),
            match r {
                Ok(root) => root@ == self@.root,
                Err(_) => spec_get(old(db).store(), self@.root, crate::index::route_of(3))
                    is None || spec_get(old(db).store(), self@.root, crate::index::route_of(2))
                    is None,
            },
    {
        match self.raw.get(db, MerkleIndex::root().right()) {
            Ok(_) => {},
            Err(e) => {
                return Err(e);
            },
        }
        match self.raw.get(db, MerkleIndex::root().left()) {
            Ok(_) => {},
            Err(e) => {
                return Err(e);
            },
        }
        Ok(self.raw.root())
    }

    /// Reconstruct the list from a single root value: parse the length
    /// from the right leaf and re-open the vector under the left child.
    pub fn reconstruct<DB: WriteBackend>(root: Value, db: &mut DB) -> (r: Result<
        Self,
        Error<DB::Error>,
    >)
        requires
            old(db).wf(),
        ensures
            final(db).wf(),
            same_config(final(db), old(db)),
            final(db).store() == old(db).store(),
            (r is Ok) == (mixed_pair_ok(old(db).store(), root@) && mixed_len(
                old(db).store(),
                root@,
            ) <= usize::MAX / 8),
            r matches Err(e) ==> (e is Backend || e is CorruptedDatabase),
            match r {
                Ok(list) => {
                    &&& list@.root == root@
                    &&& list@.tuple.root == mixed_left(old(db).store(), root@)
                    &&& list@.tuple.len == mixed_len(old(db).store(), root@)
                    &&& spec_get(old(db).store(), root@, crate::index::route_of(3)) matches Some(
                        Some(ValueRep::End(chunk))
                    ) && chunk.len() == 32 && le_value(chunk) == list@.tuple.len
                    &&& spec_get(old(db).store(), root@, crate::index::route_of(2)) == Some(
                        Some(list@.tuple.root),
                    )
                    &&& list@.tuple.max_len is None
                    &&& vector_wf(list@.tuple)
                },
                Err(_) => true,
            },
    {
        let raw = Raw::<R>::from_leaked(root);
        let len_found = match raw.get(db, MerkleIndex::root().right()) {
            Ok(found) => found,
            Err(e) => {
                return Err(e);
            },
        };
        let len_chunk = match len_found {
            Some(v) => match v {
                Value::End(bytes) => bytes,
                Value::Intermediate(_) => {
                    return Err(Error::CorruptedDatabase);
                },
            },
            None => {
                return Err(Error::CorruptedDatabase);
            },
        };
        let len = match decode_length(&len_chunk) {
            Some(n) => n,
            None => {
                return Err(Error::CorruptedDatabase);
            },
        };
        if len > usize::MAX / 8 {
            return Err(Error::CorruptedDatabase);
        }
        let tuple_found = match raw.get(db, MerkleIndex::root().left()) {
            Ok(found) => found,
            Err(e) => {
                return Err(e);
            },
        };
        let tuple_root = match tuple_found {
            Some(v) => v,
            None => {
                return Err(Error::CorruptedDatabase);
            },
        };
        let tuple = Vector::<Dangling>::from_leaked((tuple_root, len, None));
        Ok(List { raw, tuple })
    }
}

impl List<Owned> {
    /// Create a new empty list.
    pub fn create<DB: WriteBackend>(db: &mut DB) -> (r: Result<Self, Error<DB::Error>>)
        requires
            old(db).wf(),
        ensures
            final(db).wf(),
            same_config(final(db), old(db)),
            ({
                let c = db_config(old(db));
                let o = spec_vector_create(old(db).store(), 0, None, true, c);
                if !o.2 {
                    final(db).store() == o.0 && r is Err
                } else {
                    let m = spec_list_meta(
                        o.0,
                        ValueRep::End(Seq::<u8>::empty()),
                        o.1,
                        true,
                        c,
                    );
                    if !m.2 {
                        final(db).store() == m.0 && r is Err
                    } else {
                        let d = spec_tree_drop(m.0, o.1.root, true, c.noop);
                        final(db).store() == d.0 && match r {
                            Ok(list) => d.1 && list@.root == m.1 && list@.tuple == o.1
                                && vector_wf(list@.tuple),
                            Err(_) => !d.1,
                        }
                    }
                }
            }),
    {
        let tuple = match Vector::<Owned>::create(db, 0, None) {
            Ok(t) => t,
            Err(e) => {
                return Err(e);
            },
        };
        let mut raw = Raw::<Owned>::default();
        let root = tuple.root();
        match raw.set(db, MerkleIndex::root().left(), root) {
            Ok(_) => {},
            Err(e) => {
                return Err(e);
            },
        }
        let len_chunk = encode_length(tuple.len());
        match raw.set(db, MerkleIndex::root().right(), Value::End(len_chunk)) {
            Ok(_) => {},
            Err(e) => {
                return Err(e);
            },
        }
        let metadata = tuple.metadata();
        match tuple.drop(db) {
            Ok(_) => {},
            Err(e) => {
                return Err(e);
            },
        }
        let dangling_tuple = Vector::<Dangling>::from_leaked(metadata);
        Ok(List { raw, tuple: dangling_tuple })
    }
}

impl<R: RootStatus, DB: WriteBackend> Tree<DB> for List<R> {
    type Status = R;

    open spec fn spec_root(&self) -> ValueRep {
        self@.root
    }

    open spec fn spec_drop(&self, s: StoreRep, noop: bool) -> (StoreRep, bool) {
        spec_tree_drop(s, self@.root, !R::dangling(), noop)
    }

    fn root(&self) -> (r: Value) {
        List::<R>::root(self)
    }

    fn drop(self, db: &mut DB) -> (r: Result<(), Error<DB::Error>>) {
        List::<R>::drop(self, db)
    }
}

impl<R: RootStatus, DB: WriteBackend> Sequence<DB> for List<R> {
    open spec fn spec_len(&self) -> nat {
        self@.tuple.len
    }

    fn len(&self) -> (r: usize) {
        List::<R>::len(self)
    }
}

impl<R: RootStatus> Leak for List<R> {
    type Metadata = (Value, Value, usize);

    /// The list described by a leaked outer root, inner root and length.
    fn from_leaked(metadata: (Value, Value, usize)) -> (r: Self)
        ensures
            r@.root == metadata.0@,
            r@.tuple.root == metadata.1@,
            r@.tuple.len == metadata.2,
            r@.tuple.max_len is None,
    {
        List {
            raw: Raw::from_leaked(metadata.0),
            tuple: Vector::from_leaked((metadata.1, metadata.2, None)),
        }
    }

    /// The outer root, inner root and length, which stand for the whole
    /// list.
    fn metadata(&self) -> (m: (Value, Value, usize))
        ensures
            m.0@ == self@.root,
            m.1@ == self@.tuple.root,
            m.2 == self@.tuple.len,
    {
        let inner = self.tuple.metadata();
        (self.raw.root(), inner.0, inner.1)
    }
}

} // verus!
