//! Length-mixed wrapper around a dangling packed sequence.
//!
//! The wrapper keeps the inner sequence's root at the left child of its
//! own root and the inner length, as a little-endian chunk, at the right
//! child.  Its closure-based shape could not be kept: the verifier refuses
//! closures with mutable-reference parameters, so the wrapper is
//! instantiated at the packed vector that uses it and exposes the
//! operations directly.

use vstd::prelude::*;

use crate::index::MerkleIndex;
use crate::list::spec_mixed_meta;
use crate::packed::{packed_wf, PackedRep, PackedVector};
use crate::raw::{spec_get, spec_tree_drop, Raw};
use crate::store::StoreRep;
use crate::traits::{
    db_config, same_config, Backend, Dangling, Error, Leak, Owned, RootStatus, Value, ValueRep,
    WriteBackend,
};
use crate::utils::{decode_length, encode_length, le_value};

verus! {

/// The mathematical content of a length-mixed tree.
pub struct MixedRep {
    /// Root of the outer tree mixing inner root and length.
    pub root: ValueRep,
    /// The inner packed sequence.
    pub inner: PackedRep,
}

/// A tree with the length of an inner packed sequence mixed in.
pub struct LengthMixed<R: RootStatus> {
    raw: Raw<R>,
    inner: PackedVector<Dangling>,
}

impl<R: RootStatus> View for LengthMixed<R> {
    type V = MixedRep;

    closed spec fn view(&self) -> MixedRep {
        MixedRep { root: self.raw@, inner: self.inner@ }
    }
}

impl<R: RootStatus> LengthMixed<R> {
    /// Rewrite the outer children after a mutation of the inner sequence.
    pub(crate) fn update_metadata<DB: WriteBackend>(&mut self, db: &mut DB) -> (r: Result<
        (),
        Error<DB::Error>,
    >)
        requires
            old(db).wf(),
        ensures
            final(db).wf(),
            same_config(final(db), old(db)),
            final(self)@.inner == old(self)@.inner,
            ({
                let o = spec_mixed_meta(
                    old(db).store(),
                    old(self)@.root,
                    old(self)@.inner.tuple.root,
                    old(self)@.inner.len,
                    !R::dangling(),
                    db_config(old(db)),
                );
                final(db).store() == o.0 && final(self)@.root == o.1 && (r is Ok) == o.2
            }),
    {
        let root = self.inner.root();
        match self.raw.set(db, MerkleIndex::root().left(), root) {
            Ok(_) => {},
            Err(e) => {
                return Err(e);
            },
        }
        let len_chunk = encode_length(self.inner.len());
        match self.raw.set(db, MerkleIndex::root().right(), Value::End(len_chunk)) {
            Ok(_) => Ok(()),
            Err(e) => Err(e),
        }
    }

    /// Root of the mixed tree.
    pub fn root(&self) -> (r: Value)
        ensures
            r@ == self@.root,
    {
        self.raw.root()
    }

    /// Length of the inner sequence.
    pub fn len(&self) -> (r: usize)
        ensures
            r == self@.inner.len,
    {
        self.inner.len()
    }

    /// Get value at index of the inner sequence.
    pub fn get<DB: WriteBackend>(&self, db: &mut DB, index: usize) -> (r: Result<
        Vec<u8>,
        Error<DB::Error>,
    >)
        requires
            old(db).wf(),
            packed_wf(self@.inner),
            (index + 1) * self@.inner.vw + self@.inner.hw + 1 <= usize::MAX / 8,
        ensures
            final(db).wf(),
            same_config(final(db), old(db)),
            final(db).store() == old(db).store(),
            ({
                let cov = crate::packed::spec_coverings(
                    index as nat,
                    self@.inner.hw,
                    self@.inner.vw,
                );
                let got = crate::packed::spec_packed_read(
                    old(db).store(),
                    self@.inner.tuple,
                    cov.0,
                    cov.1,
                );
                match r {
                    Ok(bytes) => got == Some(bytes@),
                    Err(_) => got is None,
                }
            }),
    {
        self.inner.get(db, index)
    }

    /// Set value at index of the inner sequence, updating the mixed-in
    /// metadata.
    pub fn set<DB: WriteBackend>(&mut self, db: &mut DB, index: usize, value: Vec<u8>) -> (r:
        Result<(), Error<DB::Error>>)
        requires
            old(db).wf(),
            packed_wf(old(self)@.inner),
            value@.len() == old(self)@.inner.vw,
            (index + 1) * old(self)@.inner.vw + old(self)@.inner.hw + 1 <= usize::MAX / 8,
        ensures
            final(db).wf(),
            same_config(final(db), old(db)),
            packed_wf(final(self)@.inner),
            final(self)@.inner.len == old(self)@.inner.len,
            final(self)@.inner.hw == old(self)@.inner.hw,
            final(self)@.inner.vw == old(self)@.inner.vw,
            final(self)@.inner.max_len == old(self)@.inner.max_len,
            ({
                let c = db_config(old(db));
                let cov = crate::packed::spec_coverings(
                    index as nat,
                    old(self)@.inner.hw,
                    old(self)@.inner.vw,
                );
                let o = crate::packed::spec_packed_write(
                    old(db).store(),
                    old(self)@.inner.tuple,
                    cov.0,
                    cov.1,
                    0,
                    value@,
                    false,
                    c,
                );
                if !o.2 {
                    final(db).store() == o.0 && final(self)@.inner.tuple == o.1 && final(self)@.root == old(self)@.root && r is Err
                } else {
                    let m = spec_mixed_meta(
                        o.0,
                        old(self)@.root,
                        o.1.root,
                        old(self)@.inner.len,
                        !R::dangling(),
                        c,
                    );
                    final(db).store() == m.0 && final(self)@.inner.tuple == o.1 && final(self)@.root == m.1 && (r is Ok) == m.2
                }
            }),
    {
        match self.inner.set(db, index, value) {
            Ok(_) => {},
            Err(e) => {
                return Err(e);
            },
        }
        self.update_metadata(db)
    }

    /// Push a new value to the inner sequence, updating the mixed-in
    /// metadata.
    pub fn push<DB: WriteBackend>(&mut self, db: &mut DB, value: Vec<u8>) -> (r: Result<
        (),
        Error<DB::Error>,
    >)
        requires
            old(db).wf(),
            packed_wf(old(self)@.inner),
            value@.len() == old(self)@.inner.vw,
        ensures
            final(db).wf(),
            same_config(final(db), old(db)),
            final(self)@.inner.hw == old(self)@.inner.hw,
            final(self)@.inner.vw == old(self)@.inner.vw,
            final(self)@.inner.max_len == old(self)@.inner.max_len,
            ({
                let c = db_config(old(db));
                let o = crate::packed::spec_packed_push(
                    old(db).store(),
                    old(self)@.inner,
                    value@,
                    false,
                    c,
                );
                if !o.2 {
                    final(db).store() == o.0 && final(self)@.inner == o.1 && final(self)@.root
                        == old(self)@.root && r is Err
                } else {
                    let m = spec_mixed_meta(
                        o.0,
                        old(self)@.root,
                        o.1.tuple.root,
                        o.1.len,
                        !R::dangling(),
                        c,
                    );
                    final(db).store() == m.0 && final(self)@.inner == o.1 && final(self)@.root
                        == m.1 && (r is Ok) == m.2
                }
            }),
    {
        match self.inner.push(db, value) {
            Ok(_) => {},
            Err(e) => {
                return Err(e);
            },
        }
        self.update_metadata(db)
    }

    /// Pop a value from the inner sequence, updating the mixed-in
    /// metadata.
    pub fn pop<DB: WriteBackend>(&mut self, db: &mut DB) -> (r: Result<
        Option<Vec<u8>>,
        Error<DB::Error>,
    >)
        requires
            old(db).wf(),
            packed_wf(old(self)@.inner),
        ensures
            final(db).wf(),
            same_config(final(db), old(db)),
            packed_wf(final(self)@.inner),
            final(self)@.inner.hw == old(self)@.inner.hw,
            final(self)@.inner.vw == old(self)@.inner.vw,
            final(self)@.inner.max_len == old(self)@.inner.max_len,
            ({
                let c = db_config(old(db));
                let o = crate::packed::spec_packed_pop(old(db).store(), old(self)@.inner, false, c);
                if !o.2 {
                    final(db).store() == o.0 && final(self)@.inner == o.1 && final(self)@.root
                        == old(self)@.root && r is Err
                } else if o.3 is None {
                    final(db).store() == o.0 && final(self)@ == old(self)@ && r == Ok::<
                        Option<Vec<u8>>,
                        Error<DB::Error>,
                    >(None)
                } else {
                    let m = spec_mixed_meta(
                        o.0,
                        old(self)@.root,
                        o.1.tuple.root,
                        o.1.len,
                        !R::dangling(),
                        c,
                    );
                    final(db).store() == m.0 && final(self)@.inner == o.1 && final(self)@.root
                        == m.1 && match r {
                        Ok(popped) => m.2 && match popped {
                            Some(bytes) => o.3 == Some(bytes@),
                            None => false,
                        },
                        Err(_) => !m.2,
                    }
                }
            }),
    {
        if self.inner.len() == 0 {
            match self.inner.pop(db) {
                Ok(_) => {},
                Err(e) => {
                    return Err(e);
                },
            }
            return Ok(None);
        }
        let popped = match self.inner.pop(db) {
            Ok(popped) => popped,
            Err(e) => {
                return Err(e);
            },
        };
        match self.update_metadata(db) {
            Ok(_) => {},
            Err(e) => {
                return Err(e);
            },
        }
        Ok(popped)
    }

    /// Drop the mixed tree and its dangling inner view.
    pub fn drop<DB: WriteBackend>(self, db: &mut DB) -> (r: Result<(), Error<DB::Error>>)
        requires
            old(db).wf(),
        ensures
            final(db).wf(),
            same_config(final(db), old(db)),
            ({
                let o = spec_tree_drop(
                    old(db).store(),
                    self@.root,
                    !R::dangling(),
                    old(db).is_noop(),
                );
                final(db).store() == o.0 && (r is Ok) == o.1
            }),
    {
        match self.inner.drop(db) {
            Ok(_) => {},
            Err(e) => {
                return Err(e);
            },
        }
        self.raw.drop(db)
    }

    /// Deconstruct the mixed tree into one single root value, touching
    /// both mixed-in children so a recording backend captures them.
    pub fn deconstruct<DB: WriteBackend>(self, db: &mut DB) -> (r: Result<
        Value,
        Error<DB::Error>,
    >)
        requires
            old(db).wf(),
        ensures
            final(db).wf(),
            same_config(final(db), old(db)),
            final(db).store() == old(db).store(),
            match r {
                Ok(root) => root@ == self@.root,
                Err(_) => spec_get(old(db).store(), self@.root, crate::index::route_of(3))
                    is None || spec_get(old(db).store(), self@.root, crate::index::route_of(2))
                    is None,
            },
    {
        match self.raw.get(db, MerkleIndex::root().right()) {
            Ok(_) => {},
            Err(e) => {
                return Err(e);
            },
        }
        match self.raw.get(db, MerkleIndex::root().left()) {
            Ok(_) => {},
            Err(e) => {
                return Err(e);
            },
        }
        Ok(self.raw.root())
    }

    /// Reconstruct the mixed tree from a single root value with the given
    /// widths and bound.
    pub fn reconstruct<DB: WriteBackend>(
        root: Value,
        db: &mut DB,
        max_len: Option<usize>,
        host_width: usize,
        value_width: usize,
    ) -> (r: Result<Self, Error<DB::Error>>)
        requires
            old(db).wf(),
            1 <= host_width <= usize::MAX / 8,
            1 <= value_width <= usize::MAX / 8,
            value_width + host_width + 1 <= usize::MAX / 8,
            match max_len {
                Some(m) => 1 <= m && (m + 1) * value_width + host_width + 1 <= usize::MAX / 8,
                None => true,
            },
        ensures
            final(db).wf(),
            same_config(final(db), old(db)),
            final(db).store() == old(db).store(),
            ({
                let len = crate::list::mixed_len(old(db).store(), root@);
                let bound_ok = match max_len {
                    Some(m) => len <= m,
                    None => len < usize::MAX / 8 && len + 1 <= ((usize::MAX / 8
                        - host_width - 1) as int) / (value_width as int),
                };
                (r is Ok) == (crate::list::mixed_pair_ok(old(db).store(), root@) && bound_ok)
            }),
            r matches Err(e) ==> (e is Backend || e is CorruptedDatabase),
            match r {
                Ok(mixed) => {
                    &&& mixed@.root == root@
                    &&& mixed@.inner.tuple.root == crate::list::mixed_left(
                        old(db).store(),
                        root@,
                    )
                    &&& mixed@.inner.len == crate::list::mixed_len(old(db).store(), root@)
                    &&& spec_get(old(db).store(), root@, crate::index::route_of(3)) matches Some(
                        Some(ValueRep::End(chunk)),
                    ) && chunk.len() == 32 && le_value(chunk) == mixed@.inner.len
                    &&& spec_get(old(db).store(), root@, crate::index::route_of(2)) == Some(
                        Some(mixed@.inner.tuple.root),
                    )
                    &&& packed_wf(mixed@.inner)
                    &&& mixed@.inner.hw == host_width
                    &&& mixed@.inner.vw == value_width
                },
                Err(_) => true,
            },
    {
        let raw = Raw::<R>::from_leaked(root);
        let len_found = match raw.get(db, MerkleIndex::root().right()) {
            Ok(found) => found,
            Err(e) => {
                return Err(e);
            },
        };
        let len_chunk = match len_found {
            Some(v) => match v {
                Value::End(bytes) => bytes,
                Value::Intermediate(_) => {
                    return Err(Error::CorruptedDatabase);
                },
            },
            None => {
                return Err(Error::CorruptedDatabase);
            },
        };
        let len = match decode_length(&len_chunk) {
            Some(n) => n,
            None => {
                return Err(Error::CorruptedDatabase);
            },
        };
        match max_len {
            Some(m) => {
                if len > m {
                    return Err(Error::CorruptedDatabase);
                }
                proof {
                    vstd::arithmetic::mul::lemma_mul_inequality(
                        len as int + 1,
                        m as int + 1,
                        value_width as int,
                    );
                }
            },
            None => {
                let cap = usize::MAX / 8 - host_width - 1;
                if len >= usize::MAX / 8 || len + 1 > cap / value_width {
                    return Err(Error::CorruptedDatabase);
                }
                proof {
                    vstd::arithmetic::div_mod::lemma_fundamental_div_mod(
                        cap as int,
                        value_width as int,
                    );
                    vstd::arithmetic::div_mod::lemma_mod_bound(cap as int, value_width as int);
                    vstd::arithmetic::mul::lemma_mul_inequality(
                        len as int + 1,
                        (cap / value_width) as int,
                        value_width as int,
                    );
                    vstd::arithmetic::mul::lemma_mul_is_commutative(
                        value_width as int,
                        (cap / value_width) as int,
                    );
                }
            },
        }
        let inner_found = match raw.get(db, MerkleIndex::root().left()) {
            Ok(found) => found,
            Err(e) => {
                return Err(e);
            },
        };
        let inner_root = match inner_found {
            Some(v) => v,
            None => {
                return Err(Error::CorruptedDatabase);
            },
        };
        let inner = PackedVector::<Dangling>::from_raw(
            Raw::<Dangling>::from_leaked(inner_root),
            len,
            max_len,
            host_width,
            value_width,
        );
        Ok(LengthMixed { raw, inner })
    }
}

impl LengthMixed<Owned> {
    /// Create a new mixed tree over a fresh empty packed sequence.
    pub fn create<DB: WriteBackend>(
        db: &mut DB,
        max_len: Option<usize>,
        host_width: usize,
        value_width: usize,
    ) -> (r: Result<Self, Error<DB::Error>>)
        requires
            old(db).wf(),
            1 <= host_width <= usize::MAX / 8,
            1 <= value_width <= usize::MAX / 8,
            1 * value_width + host_width + 1 <= usize::MAX / 8,
            match max_len {
                Some(m) => (m + 1) * value_width + host_width + 1 <= usize::MAX / 8,
                None => true,
            },
        ensures
            final(db).wf(),
            same_config(final(db), old(db)),
            ({
                let c = db_config(old(db));
                let bad = match max_len {
                    Some(m) => m == 0,
                    None => false,
                };
                if bad {
                    r is Err && final(db).store() == old(db).store()
                } else {
                    let hm = match max_len {
                        Some(m) => Some(
                            crate::utils::spec_host_len(
                                m as nat,
                                host_width as nat,
                                value_width as nat,
                            ),
                        ),
                        None => None,
                    };
                    let o = crate::vector::spec_vector_create(old(db).store(), 0, hm, true, c);
                    if !o.2 {
                        final(db).store() == o.0 && r is Err
                    } else {
                        let meta = spec_mixed_meta(
                            o.0,
                            ValueRep::End(Seq::<u8>::empty()),
                            o.1.root,
                            0,
                            true,
                            c,
                        );
                        if !meta.2 {
                            final(db).store() == meta.0 && r is Err
                        } else {
                            let d = spec_tree_drop(meta.0, o.1.root, true, c.noop);
                            final(db).store() == d.0 && match r {
                                Ok(mixed) => d.1 && mixed@.root == meta.1 && mixed@.inner.tuple
                                    == o.1 && mixed@.inner.len == 0 && mixed@.inner.hw
                                    == host_width && mixed@.inner.vw == value_width
                                    && mixed@.inner.max_len == (match max_len {
                                    Some(m) => Some(m as nat),
                                    None => None::<nat>,
                                }) && packed_wf(mixed@.inner),
                                Err(_) => !d.1,
                            }
                        }
                    }
                }
            }),
    {
        proof {
            vstd::arithmetic::mul::lemma_mul_basics(value_width as int);
        }
        let inner_owned = match PackedVector::<Owned>::create(
            db,
            0,
            max_len,
            host_width,
            value_width,
        ) {
            Ok(p) => p,
            Err(e) => {
                return Err(e);
            },
        };
        let mut raw = Raw::<Owned>::default();
        let root = inner_owned.root();
        match raw.set(db, MerkleIndex::root().left(), root) {
            Ok(_) => {},
            Err(e) => {
                return Err(e);
            },
        }
        let len_chunk = encode_length(inner_owned.len());
        match raw.set(db, MerkleIndex::root().right(), Value::End(len_chunk)) {
            Ok(_) => {},
            Err(e) => {
                return Err(e);
            },
        }
        let inner_root = inner_owned.root();
        let inner_len = inner_owned.len();
        let ghost inner_rep = inner_owned@;
        match inner_owned.drop(db) {
            Ok(_) => {},
            Err(e) => {
                return Err(e);
            },
        }
        proof {
            assert(inner_rep.tuple.len == crate::utils::spec_host_len(
                0,
                host_width as nat,
                value_width as nat,
            ));
        }
        let inner = PackedVector::<Dangling>::from_raw(
            Raw::<Dangling>::from_leaked(inner_root),
            inner_len,
            max_len,
            host_width,
            value_width,
        );
        Ok(LengthMixed { raw, inner })
    }
}

} // verus!
